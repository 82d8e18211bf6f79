//! The article index: three derived structures over the current
//! descriptor set.
//!
//! `entries` holds the descriptors themselves in strictly ascending id
//! order, `sorted_ids` the ascending id sequence, and `by_tag` one bucket
//! per distinct tag with the ascending ids of the descriptors carrying
//! it.  A rebuild replaces the whole snapshot; readers of one snapshot
//! always see all three structures from the same generation.

use vstd::prelude::*;

use crate::article::{arc_clone, arc_get, has_tag, ArticleId, Metainfo};
use crate::search::str_eq;

verus! {

/// The ids of a descriptor sequence, in the same order.
pub open spec fn ids_of(s: Seq<Metainfo>) -> Seq<ArticleId> {
    s.map_values(|m: Metainfo| m.id)
}

/// Strictly ascending: no duplicates, sorted.
pub open spec fn strictly_ascending(s: Seq<ArticleId>) -> bool {
    forall|i: int, j: int| 0 <= i < j < s.len() ==> s[i] < s[j]
}

/// Descriptors in strictly ascending id order.
pub open spec fn entries_ascending(s: Seq<Metainfo>) -> bool {
    forall|i: int, j: int| 0 <= i < j < s.len() ==> s[i].id < s[j].id
}

/// Whether some descriptor in the sequence has the given id.
pub open spec fn has_id(s: Seq<Metainfo>, id: ArticleId) -> bool {
    exists|i: int| 0 <= i < s.len() && s[i].id == id
}

/// The descriptor with the given id, when ids are unique.
pub open spec fn lookup(s: Seq<Metainfo>, id: ArticleId) -> Option<Metainfo> {
    if has_id(s, id) {
        Some(s[choose|i: int| 0 <= i < s.len() && s[i].id == id])
    } else {
        None
    }
}

/// The last descriptor with the given id in an arbitrary sequence:
/// later descriptors supersede earlier ones with the same id.
pub open spec fn last_with_id(d: Seq<Metainfo>, id: ArticleId) -> Option<Metainfo>
    decreases d.len(),
{
    if d.len() == 0 {
        None
    } else if d.last().id == id {
        Some(d.last())
    } else {
        last_with_id(d.drop_last(), id)
    }
}

/// One tag together with the ascending ids of the descriptors carrying
/// it.
pub struct TagBucket {
    pub tag: String,
    pub ids: Vec<ArticleId>,
}

/// Position `n` of the bucket's id list is the id of some descriptor
/// carrying the bucket's tag.
pub open spec fn bucket_sound_at(b: TagBucket, es: Seq<Metainfo>, n: int) -> bool {
    exists|k: int| 0 <= k < es.len() && (#[trigger] es[k]).id == b.ids@[n] && has_tag(es[k], b.tag@)
}

/// Every id in the bucket belongs to a descriptor carrying the bucket's
/// tag.
pub open spec fn bucket_sound(b: TagBucket, es: Seq<Metainfo>) -> bool {
    forall|n: int| 0 <= n < b.ids@.len() ==> #[trigger] bucket_sound_at(b, es, n)
}

/// Every descriptor carrying the bucket's tag has its id in the bucket.
pub open spec fn bucket_complete(b: TagBucket, es: Seq<Metainfo>) -> bool {
    forall|k: int|
        0 <= k < es.len() && #[trigger] has_tag(es[k], b.tag@) ==> b.ids@.contains(es[k].id)
}

/// Whether some bucket carries the given tag text.
pub open spec fn has_bucket(bs: Seq<TagBucket>, tag: Seq<char>) -> bool {
    exists|i: int| 0 <= i < bs.len() && bs[i].tag@ == tag
}

/// The ids recorded for a tag: the matching bucket's ids, or the empty
/// sequence for an unknown tag.
pub open spec fn bucket_ids(bs: Seq<TagBucket>, tag: Seq<char>) -> Seq<ArticleId> {
    if has_bucket(bs, tag) {
        bs[choose|i: int| 0 <= i < bs.len() && bs[i].tag@ == tag].ids@
    } else {
        Seq::empty()
    }
}

/// The tag buckets exactly reflect the descriptor sequence.
pub open spec fn buckets_wf(bs: Seq<TagBucket>, es: Seq<Metainfo>) -> bool {
    &&& forall|i: int, j: int| 0 <= i < j < bs.len() ==> bs[i].tag@ != bs[j].tag@
    &&& forall|i: int| 0 <= i < bs.len() ==> strictly_ascending(#[trigger] bs[i].ids@)
    &&& forall|i: int| 0 <= i < bs.len() ==> bucket_sound(#[trigger] bs[i], es)
    &&& forall|i: int| 0 <= i < bs.len() ==> bucket_complete(#[trigger] bs[i], es)
    &&& forall|k: int, t: int|
        0 <= k < es.len() && 0 <= t < es[k].tags@.len() ==> has_bucket(
            bs,
            #[trigger] es[k].tags@[t]@,
        )
}

/// Quick-lookup indices over the current descriptor set: by id, by tag,
/// and the globally sorted id list.
pub struct ArticleIndex {
    entries: Vec<Metainfo>,
    by_tag: Vec<TagBucket>,
    sorted_ids: Vec<ArticleId>,
}

impl ArticleIndex {
    /// The current descriptor set, ascending by id.
    pub closed spec fn descriptors(&self) -> Seq<Metainfo> {
        self.entries@
    }

    /// The sorted id list.
    pub closed spec fn spec_all_ids(&self) -> Seq<ArticleId> {
        self.sorted_ids@
    }

    /// The recorded ids for a tag, empty for an unknown tag.
    pub closed spec fn spec_ids_for_tag(&self, tag: Seq<char>) -> Seq<ArticleId> {
        bucket_ids(self.by_tag@, tag)
    }

    /// The descriptors are held in strictly ascending id order.
    pub closed spec fn entries_wf(&self) -> bool {
        entries_ascending(self.entries@)
    }

    /// Full well-formedness: descriptors ascending, and both derived
    /// structures agree with them.
    pub closed spec fn wf(&self) -> bool {
        &&& entries_ascending(self.entries@)
        &&& self.sorted_ids@ == ids_of(self.entries@)
        &&& buckets_wf(self.by_tag@, self.entries@)
    }

    /// In a well-formed index the sorted id list is exactly the
    /// descriptors' own ascending id order.
    pub proof fn lemma_wf_all_ids(&self)
        requires
            self.wf(),
        ensures
            self.spec_all_ids() == ids_of(self.descriptors()),
            entries_ascending(self.descriptors()),
            self.spec_all_ids().len() == self.descriptors().len(),
    {
    }

    /// What well-formedness alone guarantees of every query: the id
    /// list is the descriptors' ids, strictly ascending; each tag's
    /// ids are strictly ascending and are exactly the descriptors
    /// carrying the tag.
    pub proof fn lemma_wf_queries(&self)
        requires
            self.wf(),
        ensures
            entries_ascending(self.descriptors()),
            self.spec_all_ids() == ids_of(self.descriptors()),
            strictly_ascending(self.spec_all_ids()),
            forall|id: ArticleId| #[trigger]
                self.spec_all_ids().contains(id) <==> has_id(self.descriptors(), id),
            forall|tag: Seq<char>| strictly_ascending(#[trigger] self.spec_ids_for_tag(tag)),
            forall|tag: Seq<char>, id: ArticleId| #[trigger]
                self.spec_ids_for_tag(tag).contains(id) <==> (lookup(
                    self.descriptors(),
                    id,
                ) matches Some(m) && has_tag(m, tag)),
    {
        let es = self.entries@;
        assert forall|p: int, q: int|
            0 <= p < q < self.sorted_ids@.len() implies self.sorted_ids@[p] < self.sorted_ids@[q] by {
            assert(self.sorted_ids@[p] == es[p].id);
            assert(self.sorted_ids@[q] == es[q].id);
        }
        assert forall|id: ArticleId| #[trigger]
            self.spec_all_ids().contains(id) <==> has_id(self.descriptors(), id) by {
            if self.spec_all_ids().contains(id) {
                let p = choose|p: int|
                    0 <= p < self.sorted_ids@.len() && self.sorted_ids@[p] == id;
                assert(es[p].id == id);
                assert(has_id(es, id));
            }
            if has_id(es, id) {
                let p = choose|p: int| 0 <= p < es.len() && es[p].id == id;
                assert(self.sorted_ids@[p] == id);
                assert(self.spec_all_ids().contains(id));
            }
        }
        assert forall|tag: Seq<char>| strictly_ascending(
            #[trigger] self.spec_ids_for_tag(tag),
        ) by {
            if has_bucket(self.by_tag@, tag) {
                let i0 = choose|i0: int|
                    0 <= i0 < self.by_tag@.len() && self.by_tag@[i0].tag@ == tag;
                assert(strictly_ascending(self.by_tag@[i0].ids@));
            }
        }
        assert forall|tag: Seq<char>, id: ArticleId| #[trigger]
            self.spec_ids_for_tag(tag).contains(id) <==> (lookup(
                self.descriptors(),
                id,
            ) matches Some(m) && has_tag(m, tag)) by {
            let bs = self.by_tag@;
            if self.spec_ids_for_tag(tag).contains(id) {
                assert(has_bucket(bs, tag));
                let i0 = choose|i0: int| 0 <= i0 < bs.len() && bs[i0].tag@ == tag;
                assert(bucket_ids(bs, tag) == bs[i0].ids@);
                let nn = choose|nn: int| 0 <= nn < bs[i0].ids@.len() && bs[i0].ids@[nn] == id;
                assert(bucket_sound_at(bs[i0], es, nn));
                let kk = choose|kk: int|
                    0 <= kk < es.len() && (#[trigger] es[kk]).id == bs[i0].ids@[nn] && has_tag(
                        es[kk],
                        bs[i0].tag@,
                    );
                lemma_lookup_at(es, kk);
                assert(lookup(self.descriptors(), id) == Some(es[kk]));
                assert(has_tag(es[kk], tag));
            }
            if (lookup(self.descriptors(), id) matches Some(m) && has_tag(m, tag)) {
                let m = lookup(es, id)->Some_0;
                assert(has_id(es, id));
                let j0 = choose|j0: int| 0 <= j0 < es.len() && es[j0].id == id;
                assert(es[j0] == m);
                assert(has_tag(es[j0], tag));
                let tt = choose|tt: int| 0 <= tt < es[j0].tags@.len() && es[j0].tags@[tt]@ == tag;
                assert(has_bucket(bs, es[j0].tags@[tt]@));
                let i0 = choose|i0: int| 0 <= i0 < bs.len() && bs[i0].tag@ == tag;
                assert(bucket_complete(bs[i0], es));
                assert(bs[i0].ids@.contains(id));
                assert(bucket_ids(bs, tag) == bs[i0].ids@);
            }
        }
    }

    /// An empty index.
    pub fn new() -> (r: ArticleIndex)
        ensures
            r.wf(),
            r.descriptors() == Seq::<Metainfo>::empty(),
    {
        let r = ArticleIndex { entries: Vec::new(), by_tag: Vec::new(), sorted_ids: Vec::new() };
        proof {
            assert(r.sorted_ids@ =~= ids_of(r.entries@));
        }
        r
    }

    /// Remove every descriptor and every derived structure.
    pub fn clear(&mut self)
        ensures
            final(self).wf(),
            final(self).descriptors() == Seq::<Metainfo>::empty(),
    {
        self.entries.clear();
        self.by_tag.clear();
        self.sorted_ids.clear();
        proof {
            assert(self.sorted_ids@ =~= ids_of(self.entries@));
        }
    }

    /// Insert a descriptor, replacing any existing descriptor with the
    /// same id and keeping the set in ascending id order.
    pub fn add_metainfo(&mut self, m: Metainfo)
        requires
            old(self).entries_wf(),
        ensures
            final(self).entries_wf(),
            forall|id: ArticleId| #[trigger]
                lookup(final(self).descriptors(), id) == (if id == m.id {
                    Some(m)
                } else {
                    lookup(old(self).descriptors(), id)
                }),
    {
        let ghost pre = self.entries@;
        let n = self.entries.len();
        let mut i: usize = 0;
        while i < n && self.entries[i].id < m.id
            invariant
                i <= n,
                n == self.entries@.len(),
                self.entries@ == pre,
                forall|k: int| 0 <= k < i ==> pre[k].id < m.id,
            decreases n - i,
        {
            i += 1;
        }
        if i < n && self.entries[i].id == m.id {
            self.entries[i] = m;
            proof {
                assert(self.entries@ =~= pre.update(i as int, m));
                lemma_add_update(pre, m, i as int);
            }
        } else {
            self.entries.insert(i, m);
            proof {
                assert(i == n || pre[i as int].id > m.id);
                lemma_add_insert(pre, m, i as int);
            }
        }
    }
}

/// Some bucket carries the tag and records the id.
pub open spec fn in_some_bucket(bs: Seq<TagBucket>, id: ArticleId, tag: Seq<char>) -> bool {
    exists|i: int| 0 <= i < bs.len() && bs[i].tag@ == tag && bs[i].ids@.contains(id)
}

/// The bucket state after the first `k` descriptors and the first `t`
/// tags of descriptor `k` have been folded in: buckets are distinct and
/// ascending, every recorded id comes from a processed descriptor, and
/// every processed descriptor/tag pair is recorded.
/// Position `n` of bucket `i`'s id list comes from a descriptor at or
/// before position `k`.
spec fn sound_at(bs: Seq<TagBucket>, es: Seq<Metainfo>, k: int, i: int, n: int) -> bool {
    exists|k2: int|
        0 <= k2 <= k && k2 < es.len() && (#[trigger] es[k2]).id == bs[i].ids@[n] && has_tag(
            es[k2],
            bs[i].tag@,
        )
}

spec fn buckets_step(bs: Seq<TagBucket>, es: Seq<Metainfo>, k: int, t: int) -> bool {
    &&& forall|i: int, j: int| 0 <= i < j < bs.len() ==> bs[i].tag@ != bs[j].tag@
    &&& forall|i: int| 0 <= i < bs.len() ==> strictly_ascending(#[trigger] bs[i].ids@)
    &&& forall|i: int, n: int|
        0 <= i < bs.len() && 0 <= n < bs[i].ids@.len() ==> #[trigger] sound_at(bs, es, k, i, n)
    &&& forall|k2: int, t2: int|
        0 <= k2 < k && 0 <= t2 < es[k2].tags@.len() ==> in_some_bucket(
            bs,
            es[k2].id,
            #[trigger] es[k2].tags@[t2]@,
        )
    &&& forall|t2: int|
        k < es.len() && 0 <= t2 < t && t2 < es[k].tags@.len() ==> in_some_bucket(
            bs,
            es[k].id,
            #[trigger] es[k].tags@[t2]@,
        )
}

/// Once every tag of descriptor `k` is folded in, the invariant holds
/// for the next descriptor.
proof fn lemma_buckets_step_advance(bs: Seq<TagBucket>, es: Seq<Metainfo>, k: int)
    requires
        0 <= k < es.len(),
        buckets_step(bs, es, k, es[k].tags@.len() as int),
    ensures
        buckets_step(bs, es, k + 1, 0),
{
    assert forall|i: int, n: int|
        0 <= i < bs.len() && 0 <= n < bs[i].ids@.len() implies #[trigger] sound_at(
        bs,
        es,
        k + 1,
        i,
        n,
    ) by {
        assert(sound_at(bs, es, k, i, n));
        let k2 = choose|k2: int|
            0 <= k2 <= k && k2 < es.len() && (#[trigger] es[k2]).id == bs[i].ids@[n] && has_tag(
                es[k2],
                bs[i].tag@,
            );
        assert(0 <= k2 <= k + 1 && k2 < es.len() && es[k2].id == bs[i].ids@[n] && has_tag(
            es[k2],
            bs[i].tag@,
        ));
    }
    assert forall|k2: int, t2: int|
        0 <= k2 < k + 1 && 0 <= t2 < es[k2].tags@.len() implies in_some_bucket(
        bs,
        es[k2].id,
        #[trigger] es[k2].tags@[t2]@,
    ) by {
        if k2 < k {
            assert(in_some_bucket(bs, es[k2].id, es[k2].tags@[t2]@));
        } else {
            assert(k2 == k);
            assert(in_some_bucket(bs, es[k].id, es[k].tags@[t2]@));
        }
    }
}

/// Once every descriptor is folded in, the step invariant is exactly
/// bucket well-formedness.
proof fn lemma_buckets_step_to_wf(bs: Seq<TagBucket>, es: Seq<Metainfo>)
    requires
        buckets_step(bs, es, es.len() as int, 0),
    ensures
        buckets_wf(bs, es),
{
    assert forall|i: int| 0 <= i < bs.len() implies bucket_sound(#[trigger] bs[i], es) by {
        assert forall|n: int| 0 <= n < bs[i].ids@.len() implies #[trigger] bucket_sound_at(
            bs[i],
            es,
            n,
        ) by {
            assert(sound_at(bs, es, es.len() as int, i, n));
            let k2 = choose|k2: int|
                0 <= k2 <= es.len() && k2 < es.len() && (#[trigger] es[k2]).id == bs[i].ids@[n]
                    && has_tag(es[k2], bs[i].tag@);
            assert(0 <= k2 < es.len() && es[k2].id == bs[i].ids@[n] && has_tag(es[k2], bs[i].tag@));
        }
    }
    assert forall|i: int| 0 <= i < bs.len() implies bucket_complete(#[trigger] bs[i], es) by {
        assert forall|k: int|
            0 <= k < es.len() && #[trigger] has_tag(es[k], bs[i].tag@) implies bs[i].ids@.contains(
            es[k].id,
        ) by {
            let t = choose|t: int| 0 <= t < es[k].tags@.len() && es[k].tags@[t]@ == bs[i].tag@;
            assert(in_some_bucket(bs, es[k].id, es[k].tags@[t]@));
            let i2 = choose|i2: int|
                0 <= i2 < bs.len() && bs[i2].tag@ == es[k].tags@[t]@ && bs[i2].ids@.contains(
                    es[k].id,
                );
            assert(i2 == i);
        }
    }
}

impl ArticleIndex {
    /// Rebuild the two derived structures (the sorted id list and the
    /// tag buckets) from the current descriptor set.
    pub fn sort_indices(&mut self)
        requires
            old(self).entries_wf(),
        ensures
            final(self).wf(),
            final(self).descriptors() == old(self).descriptors(),
    {
        let ghost es = self.entries@;
        let n = self.entries.len();

        // The globally sorted id list is the descriptors' own order.
        self.sorted_ids.clear();
        let mut k: usize = 0;
        while k < n
            invariant
                k <= n,
                n == self.entries@.len(),
                self.entries@ == es,
                self.sorted_ids@ == ids_of(es.take(k as int)),
            decreases n - k,
        {
            let e = &self.entries[k];
            self.sorted_ids.push(e.id);
            proof {
                assert(es.take(k + 1 as int) =~= es.take(k as int).push(es[k as int]));
                assert(ids_of(es.take(k + 1 as int)) =~= ids_of(es.take(k as int)).push(
                    es[k as int].id,
                ));
            }
            k += 1;
        }
        proof {
            assert(es.take(n as int) =~= es);
        }

        // One bucket per distinct tag, ids ascending because descriptors
        // are visited in ascending id order.
        self.by_tag.clear();
        let mut k: usize = 0;
        while k < n
            invariant
                k <= n,
                n == self.entries@.len(),
                self.entries@ == es,
                entries_ascending(es),
                self.sorted_ids@ == ids_of(es),
                buckets_step(self.by_tag@, es, k as int, 0),
            decreases n - k,
        {
            let m_id = self.entries[k].id;
            let tags_arc = arc_clone(&self.entries[k].tags);
            let tags_ref = arc_get(&tags_arc);
            let tag_count = tags_ref.len();
            let mut t: usize = 0;
            while t < tag_count
                invariant
                    t <= tag_count,
                    k < n,
                    n == self.entries@.len(),
                    self.entries@ == es,
                    entries_ascending(es),
                    self.sorted_ids@ == ids_of(es),
                    m_id == es[k as int].id,
                    tags_ref@ == es[k as int].tags@,
                    tag_count == tags_ref@.len(),
                    buckets_step(self.by_tag@, es, k as int, t as int),
                decreases tag_count - t,
            {
                let tt = &tags_ref[t];
                proof {
                    assert(tt@ == es[k as int].tags@[t as int]@);
                    assert(has_tag(es[k as int], tt@));
                }
                let found = find_bucket(&self.by_tag, tt);
                match found {
                    Some(j) => {
                        let ghost pre_bs = self.by_tag@;
                        let b = &self.by_tag[j];
                        let tag_copy = b.tag.clone();
                        let blen = b.ids.len();
                        let needs_push = blen == 0 || b.ids[blen - 1] != m_id;
                        if needs_push {
                            proof {
                                lemma_bucket_push_ok(pre_bs, es, k as int, t as int, j as int);
                            }
                            let mut new_ids = copy_ids(&b.ids);
                            new_ids.push(m_id);
                            self.by_tag[j] = TagBucket { tag: tag_copy, ids: new_ids };
                            proof {
                                lemma_buckets_step_update(
                                    pre_bs,
                                    self.by_tag@,
                                    es,
                                    k as int,
                                    t as int,
                                    j as int,
                                );
                            }
                        } else {
                            proof {
                                assert(pre_bs[j as int].ids@.contains(m_id)) by {
                                    assert(pre_bs[j as int].ids@[blen - 1] == m_id);
                                }
                                assert(in_some_bucket(pre_bs, m_id, es[k as int].tags@[t as int]@));
                                assert(buckets_step(self.by_tag@, es, k as int, t + 1 as int));
                            }
                        }
                    },
                    None => {
                        let ghost pre_bs = self.by_tag@;
                        let mut ids: Vec<ArticleId> = Vec::new();
                        ids.push(m_id);
                        let newb = TagBucket { tag: tt.clone(), ids };
                        self.by_tag.push(newb);
                        proof {
                            lemma_buckets_step_grow(
                                pre_bs,
                                self.by_tag@,
                                es,
                                k as int,
                                t as int,
                            );
                        }
                    },
                }
                t += 1;
            }
            proof {
                lemma_buckets_step_advance(self.by_tag@, es, k as int);
            }
            k += 1;
        }
        proof {
            lemma_buckets_step_to_wf(self.by_tag@, es);
        }
    }
}

/// What a completed rebuild from the descriptor sequence `d`
/// guarantees: lookups resolve to the last descriptor with each id, the
/// id list is exactly the ids of `d` in strictly ascending order, and
/// each tag's id list is exactly the ids of the surviving descriptors
/// carrying that tag, strictly ascending.
pub open spec fn rebuild_post(ix: ArticleIndex, d: Seq<Metainfo>) -> bool {
    &&& forall|id: ArticleId| #[trigger] lookup(ix.descriptors(), id) == last_with_id(d, id)
    &&& strictly_ascending(ix.spec_all_ids())
    &&& forall|id: ArticleId| #[trigger] ix.spec_all_ids().contains(id) <==> has_id(d, id)
    &&& forall|tag: Seq<char>| strictly_ascending(#[trigger] ix.spec_ids_for_tag(tag))
    &&& forall|tag: Seq<char>, id: ArticleId| #[trigger]
        ix.spec_ids_for_tag(tag).contains(id) <==> (last_with_id(d, id) matches Some(m) && has_tag(
            m,
            tag,
        ))
}

impl ArticleIndex {
    /// Replace the whole index with one derived from the given
    /// descriptor sequence.  A descriptor with the same id as an
    /// earlier one supersedes it.
    pub fn rebuild(&mut self, descriptors: &Vec<Metainfo>)
        ensures
            final(self).wf(),
            rebuild_post(*final(self), descriptors@),
    {
        let ghost d = descriptors@;
        self.clear();
        let n = descriptors.len();
        let mut i: usize = 0;
        proof {
            assert(d.take(0) =~= Seq::<Metainfo>::empty());
            assert forall|id: ArticleId| #[trigger]
                lookup(self.descriptors(), id) == last_with_id(d.take(0), id) by {
                assert(!has_id(self.descriptors(), id));
            }
        }
        while i < n
            invariant
                i <= n,
                n == descriptors@.len(),
                d == descriptors@,
                self.entries_wf(),
                forall|id: ArticleId| #[trigger]
                    lookup(self.descriptors(), id) == last_with_id(d.take(i as int), id),
            decreases n - i,
        {
            let m = descriptors[i].clone();
            let ghost pre = self.descriptors();
            self.add_metainfo(m);
            proof {
                assert(d.take(i + 1 as int).drop_last() =~= d.take(i as int));
                assert(d.take(i + 1 as int).last() == d[i as int]);
                assert forall|id: ArticleId| #[trigger]
                    lookup(self.descriptors(), id) == last_with_id(d.take(i + 1 as int), id) by {
                    if id == d[i as int].id {
                        assert(lookup(self.descriptors(), id) == Some(m));
                    } else {
                        assert(lookup(self.descriptors(), id) == lookup(pre, id));
                    }
                }
            }
            i += 1;
        }
        proof {
            assert(d.take(n as int) =~= d);
        }
        self.sort_indices();
        proof {
            self.lemma_rebuild_post(d);
        }
    }

    /// From well-formedness and the lookup relation, derive the full
    /// rebuild guarantee.
    proof fn lemma_rebuild_post(&self, d: Seq<Metainfo>)
        requires
            self.wf(),
            forall|id: ArticleId| #[trigger]
                lookup(self.descriptors(), id) == last_with_id(d, id),
        ensures
            rebuild_post(*self, d),
    {
        let es = self.entries@;
        // The id list is the descriptors' ids, ascending.
        assert forall|p: int, q: int|
            0 <= p < q < self.sorted_ids@.len() implies self.sorted_ids@[p] < self.sorted_ids@[q] by {
            assert(self.sorted_ids@[p] == es[p].id);
            assert(self.sorted_ids@[q] == es[q].id);
        }
        assert forall|id: ArticleId| #[trigger]
            self.spec_all_ids().contains(id) <==> has_id(d, id) by {
            lemma_last_with_id_props(d, id);
            assert(lookup(self.descriptors(), id) == last_with_id(d, id));
            assert(self.descriptors() == es);
            if self.spec_all_ids().contains(id) {
                let p = choose|p: int|
                    0 <= p < self.sorted_ids@.len() && self.sorted_ids@[p] == id;
                assert(es[p].id == id);
                lemma_lookup_at(es, p);
                assert(last_with_id(d, id) is Some);
            }
            if has_id(d, id) {
                assert(last_with_id(d, id) is Some);
                assert(lookup(es, id) is Some);
                assert(has_id(es, id));
                let p = choose|p: int| 0 <= p < es.len() && es[p].id == id;
                assert(self.sorted_ids@[p] == id);
                assert(self.spec_all_ids().contains(id));
            }
        }
        // Each tag's ids are ascending.
        assert forall|tag: Seq<char>| strictly_ascending(
            #[trigger] self.spec_ids_for_tag(tag),
        ) by {
            if has_bucket(self.by_tag@, tag) {
                let i0 = choose|i0: int|
                    0 <= i0 < self.by_tag@.len() && self.by_tag@[i0].tag@ == tag;
                assert(strictly_ascending(self.by_tag@[i0].ids@));
            }
        }
        // Each tag's ids are exactly the surviving descriptors carrying
        // it.
        assert forall|tag: Seq<char>, id: ArticleId| #[trigger]
            self.spec_ids_for_tag(tag).contains(id) <==> (last_with_id(d, id) matches Some(m)
                && has_tag(m, tag)) by {
            let bs = self.by_tag@;
            assert(lookup(self.descriptors(), id) == last_with_id(d, id));
            assert(self.descriptors() == es);
            if self.spec_ids_for_tag(tag).contains(id) {
                assert(has_bucket(bs, tag));
                let i0 = choose|i0: int| 0 <= i0 < bs.len() && bs[i0].tag@ == tag;
                assert(bucket_ids(bs, tag) == bs[i0].ids@);
                let nn = choose|nn: int| 0 <= nn < bs[i0].ids@.len() && bs[i0].ids@[nn] == id;
                assert(bucket_sound_at(bs[i0], es, nn));
                let kk = choose|kk: int|
                    0 <= kk < es.len() && (#[trigger] es[kk]).id == bs[i0].ids@[nn] && has_tag(
                        es[kk],
                        bs[i0].tag@,
                    );
                lemma_lookup_at(es, kk);
                assert(last_with_id(d, id) == Some(es[kk]));
                assert(has_tag(es[kk], tag));
            }
            if (last_with_id(d, id) matches Some(m) && has_tag(m, tag)) {
                let m = last_with_id(d, id)->Some_0;
                assert(lookup(es, id) == Some(m));
                assert(has_id(es, id));
                let j0 = choose|j0: int| 0 <= j0 < es.len() && es[j0].id == id;
                assert(es[j0] == m);
                assert(has_tag(es[j0], tag));
                let tt = choose|tt: int| 0 <= tt < es[j0].tags@.len() && es[j0].tags@[tt]@ == tag;
                assert(has_bucket(bs, es[j0].tags@[tt]@));
                let i0 = choose|i0: int| 0 <= i0 < bs.len() && bs[i0].tag@ == tag;
                assert(bucket_complete(bs[i0], es));
                assert(bs[i0].ids@.contains(id));
                assert(bucket_ids(bs, tag) == bs[i0].ids@);
            }
        }
    }
}

impl ArticleIndex {
    /// The globally sorted id list.
    pub fn get_all_ids(&self) -> (r: Vec<ArticleId>)
        ensures
            r@ == self.spec_all_ids(),
    {
        copy_ids(&self.sorted_ids)
    }

    /// The ascending ids recorded for a tag; empty, not an error, for
    /// an unknown tag.
    pub fn get_ids_by_tag(&self, tag: &str) -> (r: Vec<ArticleId>)
        requires
            self.wf(),
        ensures
            r@ == self.spec_ids_for_tag(tag@),
    {
        let n = self.by_tag.len();
        let mut i: usize = 0;
        while i < n
            invariant
                i <= n,
                n == self.by_tag@.len(),
                self.wf(),
                forall|p: int| 0 <= p < i ==> self.by_tag@[p].tag@ != tag@,
            decreases n - i,
        {
            let b = &self.by_tag[i];
            if str_eq(b.tag.as_str(), tag) {
                proof {
                    assert(has_bucket(self.by_tag@, tag@));
                    let i0 = choose|i0: int|
                        0 <= i0 < self.by_tag@.len() && self.by_tag@[i0].tag@ == tag@;
                    assert(i0 == i);
                }
                return copy_ids(&b.ids);
            }
            i += 1;
        }
        proof {
            assert(!has_bucket(self.by_tag@, tag@));
        }
        Vec::new()
    }

    /// The descriptor with the given id, if the index holds one.
    pub fn get_metainfo(&self, article_id: ArticleId) -> (r: Option<Metainfo>)
        requires
            self.wf(),
        ensures
            r == lookup(self.descriptors(), article_id),
    {
        let n = self.entries.len();
        let mut i: usize = 0;
        while i < n
            invariant
                i <= n,
                n == self.entries@.len(),
                self.wf(),
                forall|p: int| 0 <= p < i ==> self.entries@[p].id != article_id,
            decreases n - i,
        {
            let e = &self.entries[i];
            if e.id == article_id {
                proof {
                    lemma_lookup_at(self.entries@, i as int);
                }
                return Some(e.clone());
            }
            i += 1;
        }
        proof {
            assert(!has_id(self.descriptors(), article_id));
        }
        None
    }
}

/// The last descriptor with an id exists exactly when some descriptor
/// has the id, and it is one of the descriptors.
pub proof fn lemma_last_with_id_props(d: Seq<Metainfo>, id: ArticleId)
    ensures
        (last_with_id(d, id) is Some) <==> has_id(d, id),
        last_with_id(d, id) matches Some(m) ==> m.id == id && exists|j: int|
            0 <= j < d.len() && d[j] == m,
    decreases d.len(),
{
    if d.len() == 0 {
        assert(!has_id(d, id));
    } else if d.last().id == id {
        assert(d[d.len() - 1].id == id);
        assert(has_id(d, id));
        assert(exists|j: int| 0 <= j < d.len() && d[j] == d.last());
    } else {
        let dd = d.drop_last();
        lemma_last_with_id_props(dd, id);
        assert forall|j: int| 0 <= j < dd.len() implies dd[j] == d[j] by {}
        if has_id(d, id) {
            let i = choose|i: int| 0 <= i < d.len() && d[i].id == id;
            assert(i < d.len() - 1);
            assert(dd[i].id == id);
            assert(has_id(dd, id));
        }
        if has_id(dd, id) {
            let i = choose|i: int| 0 <= i < dd.len() && dd[i].id == id;
            assert(d[i].id == id);
            assert(has_id(d, id));
        }
        if last_with_id(dd, id) is Some {
            let m = last_with_id(dd, id)->Some_0;
            let j = choose|j: int| 0 <= j < dd.len() && dd[j] == m;
            assert(d[j] == m);
        }
    }
}

/// When nothing after position `j` carries the same id, the last
/// descriptor with that id is the one at `j`.
pub proof fn lemma_last_with_id_at(d: Seq<Metainfo>, j: int)
    requires
        0 <= j < d.len(),
        forall|k: int| j < k < d.len() ==> (#[trigger] d[k]).id != d[j].id,
    ensures
        last_with_id(d, d[j].id) == Some(d[j]),
    decreases d.len(),
{
    if j == d.len() - 1 {
        assert(d.last() == d[j]);
    } else {
        assert(d.last().id != d[j].id);
        let dd = d.drop_last();
        assert(dd[j] == d[j]);
        assert forall|k: int| j < k < dd.len() implies (#[trigger] dd[k]).id != dd[j].id by {
            assert(dd[k] == d[k]);
        }
        lemma_last_with_id_at(dd, j);
    }
}

/// Two strictly ascending id sequences with the same members are equal.
pub proof fn lemma_ascending_same_set(x: Seq<ArticleId>, y: Seq<ArticleId>)
    requires
        strictly_ascending(x),
        strictly_ascending(y),
        forall|id: ArticleId| #[trigger] x.contains(id) <==> #[trigger] y.contains(id),
    ensures
        x == y,
    decreases x.len(),
{
    if x.len() == 0 {
        if y.len() > 0 {
            assert(y.contains(y[0]));
            assert(x.contains(y[0]));
        }
        assert(x =~= y);
    } else {
        assert(x.contains(x[0]));
        assert(y.contains(x[0]));
        let j = choose|j: int| 0 <= j < y.len() && y[j] == x[0];
        assert(y.contains(y[0]));
        assert(x.contains(y[0]));
        let i = choose|i: int| 0 <= i < x.len() && x[i] == y[0];
        assert(x[0] <= x[i]);
        assert(y[0] <= y[j]);
        assert(x[0] == y[0]);
        let xt = x.drop_first();
        let yt = y.drop_first();
        assert(strictly_ascending(xt)) by {
            assert forall|p: int, q: int| 0 <= p < q < xt.len() implies xt[p] < xt[q] by {
                assert(xt[p] == x[p + 1] && xt[q] == x[q + 1]);
            }
        }
        assert(strictly_ascending(yt)) by {
            assert forall|p: int, q: int| 0 <= p < q < yt.len() implies yt[p] < yt[q] by {
                assert(yt[p] == y[p + 1] && yt[q] == y[q + 1]);
            }
        }
        assert forall|id: ArticleId| #[trigger] xt.contains(id) <==> #[trigger] yt.contains(id) by {
            if xt.contains(id) {
                let p = choose|p: int| 0 <= p < xt.len() && xt[p] == id;
                assert(x[p + 1] == id);
                assert(x.contains(id));
                assert(id > x[0]);
                assert(y.contains(id));
                let q = choose|q: int| 0 <= q < y.len() && y[q] == id;
                assert(q >= 1);
                assert(yt[q - 1] == id);
                assert(yt.contains(id));
            }
            if yt.contains(id) {
                let p = choose|p: int| 0 <= p < yt.len() && yt[p] == id;
                assert(y[p + 1] == id);
                assert(y.contains(id));
                assert(id > y[0]);
                assert(x.contains(id));
                let q = choose|q: int| 0 <= q < x.len() && x[q] == id;
                assert(q >= 1);
                assert(xt[q - 1] == id);
                assert(xt.contains(id));
            }
        }
        lemma_ascending_same_set(xt, yt);
        assert(x =~= y) by {
            assert(x.len() == y.len());
            assert forall|p: int| 0 <= p < x.len() implies x[p] == y[p] by {
                if p > 0 {
                    assert(xt[p - 1] == x[p] && yt[p - 1] == y[p]);
                }
            }
        }
    }
}

/// Rebuilding from equal descriptor sequences yields the same id list
/// and the same ids for every tag: the index is a function of the
/// descriptor set alone, so re-running an unchanged rebuild changes no
/// query result.
pub proof fn lemma_rebuild_deterministic(a: ArticleIndex, b: ArticleIndex, d: Seq<Metainfo>)
    requires
        rebuild_post(a, d),
        rebuild_post(b, d),
    ensures
        a.spec_all_ids() == b.spec_all_ids(),
        forall|tag: Seq<char>| #[trigger] a.spec_ids_for_tag(tag) == b.spec_ids_for_tag(tag),
{
    assert forall|id: ArticleId| #[trigger]
        a.spec_all_ids().contains(id) <==> #[trigger] b.spec_all_ids().contains(id) by {}
    lemma_ascending_same_set(a.spec_all_ids(), b.spec_all_ids());
    assert forall|tag: Seq<char>| #[trigger]
        a.spec_ids_for_tag(tag) == b.spec_ids_for_tag(tag) by {
        assert forall|id: ArticleId| #[trigger]
            a.spec_ids_for_tag(tag).contains(id) <==> #[trigger] b.spec_ids_for_tag(
                tag,
            ).contains(id) by {}
        lemma_ascending_same_set(a.spec_ids_for_tag(tag), b.spec_ids_for_tag(tag));
    }
}

/// Copy a list of ids.
fn copy_ids(v: &Vec<ArticleId>) -> (r: Vec<ArticleId>)
    ensures
        r@ == v@,
{
    let mut r: Vec<ArticleId> = Vec::new();
    let n = v.len();
    let mut i: usize = 0;
    while i < n
        invariant
            i <= n,
            n == v@.len(),
            r@ == v@.take(i as int),
        decreases n - i,
    {
        r.push(v[i]);
        proof {
            assert(v@.take(i + 1 as int) =~= v@.take(i as int).push(v@[i as int]));
        }
        i += 1;
    }
    proof {
        assert(v@.take(n as int) =~= v@);
    }
    r
}

/// The index of the bucket carrying a tag, when there is one.
fn find_bucket(buckets: &Vec<TagBucket>, tag: &String) -> (r: Option<usize>)
    ensures
        match r {
            Some(j) => j < buckets@.len() && buckets@[j as int].tag@ == tag@,
            None => forall|i: int| 0 <= i < buckets@.len() ==> buckets@[i].tag@ != tag@,
        },
{
    let n = buckets.len();
    let mut i: usize = 0;
    while i < n
        invariant
            i <= n,
            n == buckets@.len(),
            forall|p: int| 0 <= p < i ==> buckets@[p].tag@ != tag@,
        decreases n - i,
    {
        let b = &buckets[i];
        if str_eq(b.tag.as_str(), tag.as_str()) {
            return Some(i);
        }
        i += 1;
    }
    None
}

/// When descriptor `k`'s id is not the last id of bucket `j`, it is not
/// in the bucket at all, and every recorded id is smaller.
proof fn lemma_bucket_push_ok(bs: Seq<TagBucket>, es: Seq<Metainfo>, k: int, t: int, j: int)
    requires
        buckets_step(bs, es, k, t),
        0 <= j < bs.len(),
        0 <= k < es.len(),
        entries_ascending(es),
        bs[j].ids@.len() == 0 || bs[j].ids@.last() != es[k].id,
    ensures
        forall|n: int| 0 <= n < bs[j].ids@.len() ==> bs[j].ids@[n] < es[k].id,
{
    let ids = bs[j].ids@;
    assert forall|n: int| 0 <= n < ids.len() implies ids[n] < es[k].id by {
        // Every recorded id belongs to a descriptor at or before `k`.
        assert(sound_at(bs, es, k, j, n));
        let k2 = choose|k2: int|
            0 <= k2 <= k && k2 < es.len() && (#[trigger] es[k2]).id == ids[n] && has_tag(
                es[k2],
                bs[j].tag@,
            );
        assert(ids[n] <= es[k].id);
        if ids[n] == es[k].id {
            // The bucket is ascending, so its last element would be at
            // least es[k].id, yet also at most es[k].id: it would equal
            // it, contradicting the guard.
            let lastn = ids.len() - 1;
            assert(ids[lastn] >= ids[n]);
            assert(sound_at(bs, es, k, j, lastn));
            let k3 = choose|k3: int|
                0 <= k3 <= k && k3 < es.len() && (#[trigger] es[k3]).id == ids[lastn] && has_tag(
                    es[k3],
                    bs[j].tag@,
                );
            assert(ids[lastn] <= es[k].id);
            assert(ids[lastn] == es[k].id);
        }
    }
}

/// Folding one more tag of descriptor `k` into its existing bucket `j`
/// preserves the step invariant.
proof fn lemma_buckets_step_update(
    pre: Seq<TagBucket>,
    post: Seq<TagBucket>,
    es: Seq<Metainfo>,
    k: int,
    t: int,
    j: int,
)
    requires
        buckets_step(pre, es, k, t),
        0 <= k < es.len(),
        0 <= t < es[k].tags@.len(),
        entries_ascending(es),
        0 <= j < pre.len(),
        pre[j].tag@ == es[k].tags@[t]@,
        post.len() == pre.len(),
        post[j].tag@ == pre[j].tag@,
        post[j].ids@ == pre[j].ids@.push(es[k].id),
        forall|i: int| 0 <= i < pre.len() && i != j ==> post[i] == pre[i],
        forall|n: int| 0 <= n < pre[j].ids@.len() ==> pre[j].ids@[n] < es[k].id,
    ensures
        buckets_step(post, es, k, t + 1),
{
    assert(has_tag(es[k], pre[j].tag@));
    assert forall|i: int| 0 <= i < post.len() implies strictly_ascending(#[trigger] post[i].ids@) by {
        if i == j {
            assert(strictly_ascending(pre[j].ids@));
            assert forall|p: int, q: int|
                0 <= p < q < post[j].ids@.len() implies post[j].ids@[p] < post[j].ids@[q] by {
                if q == post[j].ids@.len() - 1 {
                    assert(post[j].ids@[p] == pre[j].ids@[p]);
                    assert(post[j].ids@[q] == es[k].id);
                } else {
                    assert(post[j].ids@[p] == pre[j].ids@[p]);
                    assert(post[j].ids@[q] == pre[j].ids@[q]);
                }
            }
        }
    }
    assert forall|i: int, n: int|
        0 <= i < post.len() && 0 <= n < post[i].ids@.len() implies #[trigger] sound_at(
        post,
        es,
        k,
        i,
        n,
    ) by {
        if i == j && n == post[j].ids@.len() - 1 {
            assert(post[i].ids@[n] == es[k].id);
            assert(0 <= k <= k && k < es.len() && (es[k]).id == post[i].ids@[n] && has_tag(
                es[k],
                post[i].tag@,
            ));
        } else {
            assert(post[i].ids@[n] == pre[i].ids@[n]);
            assert(post[i].tag@ == pre[i].tag@);
            assert(sound_at(pre, es, k, i, n));
            let k2 = choose|k2: int|
                0 <= k2 <= k && k2 < es.len() && (#[trigger] es[k2]).id == pre[i].ids@[n]
                    && has_tag(es[k2], pre[i].tag@);
            assert(0 <= k2 <= k && k2 < es.len() && es[k2].id == post[i].ids@[n] && has_tag(
                es[k2],
                post[i].tag@,
            ));
        }
    }
    assert forall|k2: int, t2: int|
        0 <= k2 < k && 0 <= t2 < es[k2].tags@.len() implies in_some_bucket(
        post,
        es[k2].id,
        #[trigger] es[k2].tags@[t2]@,
    ) by {
        assert(in_some_bucket(pre, es[k2].id, es[k2].tags@[t2]@));
        lemma_in_some_bucket_preserved(pre, post, es[k2].id, es[k2].tags@[t2]@, es[k].id, j);
    }
    assert forall|t2: int|
        k < es.len() && 0 <= t2 < t + 1 && t2 < es[k].tags@.len() implies in_some_bucket(
        post,
        es[k].id,
        #[trigger] es[k].tags@[t2]@,
    ) by {
        if t2 < t {
            assert(in_some_bucket(pre, es[k].id, es[k].tags@[t2]@));
            lemma_in_some_bucket_preserved(pre, post, es[k].id, es[k].tags@[t2]@, es[k].id, j);
        } else {
            assert(post[j].ids@.contains(es[k].id)) by {
                assert(post[j].ids@[post[j].ids@.len() - 1] == es[k].id);
            }
        }
    }
}

/// Pushing an id onto bucket `j` keeps every previously recorded
/// membership.
proof fn lemma_in_some_bucket_preserved(
    pre: Seq<TagBucket>,
    post: Seq<TagBucket>,
    id: ArticleId,
    tag: Seq<char>,
    pushed: ArticleId,
    j: int,
)
    requires
        in_some_bucket(pre, id, tag),
        0 <= j < pre.len(),
        post.len() == pre.len(),
        post[j].tag@ == pre[j].tag@,
        post[j].ids@ == pre[j].ids@.push(pushed),
        forall|i: int| 0 <= i < pre.len() && i != j ==> post[i] == pre[i],
    ensures
        in_some_bucket(post, id, tag),
{
    let i = choose|i: int| 0 <= i < pre.len() && pre[i].tag@ == tag && pre[i].ids@.contains(id);
    if i == j {
        let n = choose|n: int| 0 <= n < pre[j].ids@.len() && pre[j].ids@[n] == id;
        assert(post[j].ids@[n] == id);
        assert(post[i].tag@ == tag && post[i].ids@.contains(id));
    } else {
        assert(post[i].tag@ == tag && post[i].ids@.contains(id));
    }
}

/// Adding a fresh single-id bucket for a tag no other bucket carries
/// preserves the step invariant.
proof fn lemma_buckets_step_grow(
    pre: Seq<TagBucket>,
    post: Seq<TagBucket>,
    es: Seq<Metainfo>,
    k: int,
    t: int,
)
    requires
        buckets_step(pre, es, k, t),
        0 <= k < es.len(),
        0 <= t < es[k].tags@.len(),
        post.len() == pre.len() + 1,
        forall|i: int| 0 <= i < pre.len() ==> post[i] == pre[i],
        post.last().tag@ == es[k].tags@[t]@,
        post.last().ids@ == seq![es[k].id],
        forall|i: int| 0 <= i < pre.len() ==> pre[i].tag@ != es[k].tags@[t]@,
    ensures
        buckets_step(post, es, k, t + 1),
{
    let b = post.last();
    assert(has_tag(es[k], b.tag@));
    assert(strictly_ascending(b.ids@));
    assert forall|i: int, n: int|
        0 <= i < post.len() && 0 <= n < post[i].ids@.len() implies #[trigger] sound_at(
        post,
        es,
        k,
        i,
        n,
    ) by {
        if i == post.len() - 1 {
            assert(post[i].ids@[n] == es[k].id);
            assert(0 <= k <= k && k < es.len() && (es[k]).id == post[i].ids@[n] && has_tag(
                es[k],
                post[i].tag@,
            ));
        } else {
            assert(sound_at(pre, es, k, i, n));
            let k2 = choose|k2: int|
                0 <= k2 <= k && k2 < es.len() && (#[trigger] es[k2]).id == pre[i].ids@[n]
                    && has_tag(es[k2], pre[i].tag@);
            assert(0 <= k2 <= k && k2 < es.len() && es[k2].id == post[i].ids@[n] && has_tag(
                es[k2],
                post[i].tag@,
            ));
        }
    }
    assert forall|k2: int, t2: int|
        0 <= k2 < k && 0 <= t2 < es[k2].tags@.len() implies in_some_bucket(
        post,
        es[k2].id,
        #[trigger] es[k2].tags@[t2]@,
    ) by {
        let i = choose|i: int|
            0 <= i < pre.len() && pre[i].tag@ == es[k2].tags@[t2]@ && pre[i].ids@.contains(
                es[k2].id,
            );
        assert(post[i].tag@ == es[k2].tags@[t2]@ && post[i].ids@.contains(es[k2].id));
    }
    assert forall|t2: int|
        k < es.len() && 0 <= t2 < t + 1 && t2 < es[k].tags@.len() implies in_some_bucket(
        post,
        es[k].id,
        #[trigger] es[k].tags@[t2]@,
    ) by {
        if t2 < t {
            let i = choose|i: int|
                0 <= i < pre.len() && pre[i].tag@ == es[k].tags@[t2]@ && pre[i].ids@.contains(
                    es[k].id,
                );
            assert(post[i].tag@ == es[k].tags@[t2]@ && post[i].ids@.contains(es[k].id));
        } else {
            assert(b.ids@[0] == es[k].id);
            assert(b.ids@.contains(es[k].id));
            assert(post[post.len() - 1].tag@ == es[k].tags@[t]@ && post[post.len()
                - 1].ids@.contains(es[k].id));
        }
    }
}

/// After replacing the entry at `i` (which had `m`'s id) in an ascending
/// sequence, every lookup is as before except that `m.id` now maps to
/// `m`.
proof fn lemma_add_update(pre: Seq<Metainfo>, m: Metainfo, i: int)
    requires
        entries_ascending(pre),
        0 <= i < pre.len(),
        pre[i].id == m.id,
    ensures
        entries_ascending(pre.update(i, m)),
        forall|id: ArticleId| #[trigger]
            lookup(pre.update(i, m), id) == (if id == m.id {
                Some(m)
            } else {
                lookup(pre, id)
            }),
{
    let post = pre.update(i, m);
    assert(entries_ascending(post));
    assert forall|id: ArticleId| #[trigger]
        lookup(post, id) == (if id == m.id {
            Some(m)
        } else {
            lookup(pre, id)
        }) by {
        if id == m.id {
            lemma_lookup_at(post, i);
        } else {
            if has_id(pre, id) {
                let k = choose|k: int| 0 <= k < pre.len() && pre[k].id == id;
                assert(post[k].id == id);
                lemma_lookup_at(pre, k);
                lemma_lookup_at(post, k);
            } else {
                assert(!has_id(post, id)) by {
                    if has_id(post, id) {
                        let k = choose|k: int| 0 <= k < post.len() && post[k].id == id;
                        assert(pre[k].id == id);
                    }
                }
            }
        }
    }
}

/// After inserting `m` at its ordered position `i` in an ascending
/// sequence without `m.id`, every lookup is as before except that `m.id`
/// now maps to `m`.
proof fn lemma_add_insert(pre: Seq<Metainfo>, m: Metainfo, i: int)
    requires
        entries_ascending(pre),
        0 <= i <= pre.len(),
        forall|k: int| 0 <= k < i ==> pre[k].id < m.id,
        i == pre.len() || pre[i].id > m.id,
    ensures
        entries_ascending(pre.insert(i, m)),
        forall|id: ArticleId| #[trigger]
            lookup(pre.insert(i, m), id) == (if id == m.id {
                Some(m)
            } else {
                lookup(pre, id)
            }),
{
    let post = pre.insert(i, m);
    assert(post.len() == pre.len() + 1);
    assert(forall|k: int| 0 <= k < i ==> post[k] == pre[k]);
    assert(post[i] == m);
    assert(forall|k: int| i < k < post.len() ==> post[k] == pre[k - 1]);
    assert(entries_ascending(post)) by {
        assert forall|p: int, q: int| 0 <= p < q < post.len() implies post[p].id < post[q].id by {
            if p < i && q > i {
                assert(pre[p].id < m.id);
                assert(m.id < pre[q - 1].id || q - 1 == i);
            }
        }
    }
    assert forall|id: ArticleId| #[trigger]
        lookup(post, id) == (if id == m.id {
            Some(m)
        } else {
            lookup(pre, id)
        }) by {
        if id == m.id {
            lemma_lookup_at(post, i);
        } else {
            if has_id(pre, id) {
                let k = choose|k: int| 0 <= k < pre.len() && pre[k].id == id;
                lemma_lookup_at(pre, k);
                if k < i {
                    assert(post[k].id == id);
                    lemma_lookup_at(post, k);
                } else {
                    assert(post[k + 1].id == id);
                    lemma_lookup_at(post, k + 1);
                }
            } else {
                assert(!has_id(post, id)) by {
                    if has_id(post, id) {
                        let k = choose|k: int| 0 <= k < post.len() && post[k].id == id;
                        if k < i {
                            assert(pre[k].id == id);
                        } else if k > i {
                            assert(pre[k - 1].id == id);
                        }
                    }
                }
            }
        }
    }
}

/// In an ascending sequence, the lookup of the id at position `i` finds
/// exactly that descriptor.
pub proof fn lemma_lookup_at(s: Seq<Metainfo>, i: int)
    requires
        entries_ascending(s),
        0 <= i < s.len(),
    ensures
        lookup(s, s[i].id) == Some(s[i]),
{
    assert(has_id(s, s[i].id));
    let j = choose|j: int| 0 <= j < s.len() && s[j].id == s[i].id;
    if i < j {
        assert(s[i].id < s[j].id);
    } else if j < i {
        assert(s[j].id < s[i].id);
    }
}

} // verus!
