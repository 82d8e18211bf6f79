//! The recency cache: a bounded least-recently-used store of fully
//! rendered articles.
//!
//! The backing store is `lru::LruCache`.  Its contents are modelled as a
//! sequence of key/value pairs ordered from most to least recently
//! used; every operation's contract is stated as a pure function of
//! that model, and the eviction and round-trip laws are proved of those
//! functions.

use vstd::prelude::*;

use crate::article::{Article, ArticleId};

verus! {

#[verifier::external_type_specification]
#[verifier::external_body]
#[verifier::reject_recursive_types(K)]
#[verifier::reject_recursive_types(V)]
#[verifier::reject_recursive_types(S)]
pub struct ExLruCache<K, V, S>(lru::LruCache<K, V, S>);

/// The backing store type: keys are article ids, values whole
/// articles, hashed with the standard library's default hasher.
pub type BackingLru = lru::LruCache<ArticleId, Article, std::collections::hash_map::RandomState>;

/// What the backing store holds, ordered from most to least recently
/// used.
pub uninterp spec fn lru_entries(c: BackingLru) -> Seq<(ArticleId, Article)>;

/// The fixed capacity the backing store was created with.
pub uninterp spec fn lru_capacity(c: BackingLru) -> usize;

/// No key occurs twice.
pub open spec fn model_distinct(m: Seq<(ArticleId, Article)>) -> bool {
    forall|i: int, j: int| 0 <= i < j < m.len() ==> m[i].0 != m[j].0
}

/// Whether the model holds the key.
pub open spec fn model_has(m: Seq<(ArticleId, Article)>, id: ArticleId) -> bool {
    exists|i: int| 0 <= i < m.len() && m[i].0 == id
}

/// The position of the key in the model.
pub open spec fn model_index(m: Seq<(ArticleId, Article)>, id: ArticleId) -> int {
    choose|i: int| 0 <= i < m.len() && m[i].0 == id
}

/// The value stored under the key, if any.
pub open spec fn model_get(m: Seq<(ArticleId, Article)>, id: ArticleId) -> Option<Article> {
    if model_has(m, id) {
        Some(m[model_index(m, id)].1)
    } else {
        None
    }
}

/// The model without the key's entry.
pub open spec fn model_remove(m: Seq<(ArticleId, Article)>, id: ArticleId) -> Seq<
    (ArticleId, Article),
> {
    if model_has(m, id) {
        m.remove(model_index(m, id))
    } else {
        m
    }
}

/// The model after an access moved the key's entry to the front.
pub open spec fn model_promote(m: Seq<(ArticleId, Article)>, id: ArticleId) -> Seq<
    (ArticleId, Article),
> {
    if model_has(m, id) {
        seq![(id, m[model_index(m, id)].1)] + model_remove(m, id)
    } else {
        m
    }
}

/// The model after storing a value: any entry under the same key is
/// replaced, the new entry becomes most recently used, and when the
/// capacity would be exceeded the least recently used entry leaves.
pub open spec fn model_put(
    m: Seq<(ArticleId, Article)>,
    cap: usize,
    id: ArticleId,
    a: Article,
) -> Seq<(ArticleId, Article)> {
    let grown = seq![(id, a)] + model_remove(m, id);
    if grown.len() > cap {
        grown.drop_last()
    } else {
        grown
    }
}

/// The recency cache for rendered articles.
pub struct ArticleCache {
    cache: BackingLru,
}

impl ArticleCache {
    /// The cache contents, most recently used first.
    pub closed spec fn model(&self) -> Seq<(ArticleId, Article)> {
        lru_entries(self.cache)
    }

    /// The fixed capacity.
    pub closed spec fn capacity(&self) -> usize {
        lru_capacity(self.cache)
    }

    /// Keys distinct, within capacity, capacity positive.
    pub open spec fn wf(&self) -> bool {
        &&& model_distinct(self.model())
        &&& self.model().len() <= self.capacity()
        &&& self.capacity() >= 1
    }

    /// A fresh, empty cache with the given capacity.
    pub fn new(capacity: usize) -> (r: ArticleCache)
        requires
            capacity >= 1,
        ensures
            r.model() == Seq::<(ArticleId, Article)>::empty(),
            r.capacity() == capacity,
            r.wf(),
    {
        ArticleCache { cache: lru_new(capacity) }
    }

    /// Look a key up; a hit hands back the stored value and marks it
    /// most recently used.
    pub fn get(&mut self, article_id: ArticleId) -> (r: Option<Article>)
        ensures
            final(self).capacity() == old(self).capacity(),
            r == model_get(old(self).model(), article_id),
            final(self).model() == model_promote(old(self).model(), article_id),
    {
        lru_get(&mut self.cache, article_id)
    }

    /// Store a value as most recently used, evicting the least recently
    /// used entry when the capacity would be exceeded.
    pub fn put(&mut self, article_id: ArticleId, article: Article)
        ensures
            final(self).capacity() == old(self).capacity(),
            final(self).model() == model_put(
                old(self).model(),
                old(self).capacity(),
                article_id,
                article,
            ),
    {
        lru_put(&mut self.cache, article_id, article);
    }

    /// Remove every entry.
    pub fn clear(&mut self)
        ensures
            final(self).capacity() == old(self).capacity(),
            final(self).model() == Seq::<(ArticleId, Article)>::empty(),
    {
        lru_clear(&mut self.cache);
    }

    /// The number of stored entries.
    pub fn len(&self) -> (r: usize)
        ensures
            r == self.model().len(),
    {
        lru_len(&self.cache)
    }

    /// The fixed capacity.
    pub fn cap(&self) -> (r: usize)
        ensures
            r == self.capacity(),
    {
        lru_cap(&self.cache)
    }
}

/// Relies on `lru::LruCache::with_hasher`: a fresh cache is empty and
/// keeps the given capacity for its lifetime.
#[verifier::external_body]
fn lru_new(capacity: usize) -> (r: BackingLru)
    requires
        capacity >= 1,
    ensures
        lru_entries(r) == Seq::<(ArticleId, Article)>::empty(),
        lru_capacity(r) == capacity,
{
    let cap = std::num::NonZeroUsize::new(capacity).unwrap();
    lru::LruCache::with_hasher(cap, std::collections::hash_map::RandomState::new())
}

/// Relies on `lru::LruCache::get`: returns the value stored under the
/// key and marks the entry most recently used; on a miss the cache is
/// unchanged.
#[verifier::external_body]
fn lru_get(c: &mut BackingLru, article_id: ArticleId) -> (r: Option<Article>)
    ensures
        lru_capacity(*final(c)) == lru_capacity(*old(c)),
        r == model_get(lru_entries(*old(c)), article_id),
        lru_entries(*final(c)) == model_promote(lru_entries(*old(c)), article_id),
{
    c.get(&article_id).cloned()
}

/// Relies on `lru::LruCache::put`: stores the value as most recently
/// used, replacing any entry under the same key and evicting the least
/// recently used entry when the capacity would be exceeded.
#[verifier::external_body]
fn lru_put(c: &mut BackingLru, article_id: ArticleId, article: Article)
    ensures
        lru_capacity(*final(c)) == lru_capacity(*old(c)),
        lru_entries(*final(c)) == model_put(
            lru_entries(*old(c)),
            lru_capacity(*old(c)),
            article_id,
            article,
        ),
{
    c.put(article_id, article);
}

/// Relies on `lru::LruCache::clear`: removes every entry.
#[verifier::external_body]
fn lru_clear(c: &mut BackingLru)
    ensures
        lru_capacity(*final(c)) == lru_capacity(*old(c)),
        lru_entries(*final(c)) == Seq::<(ArticleId, Article)>::empty(),
{
    c.clear();
}

/// Relies on `lru::LruCache::len`: the number of stored entries.
#[verifier::external_body]
fn lru_len(c: &BackingLru) -> (r: usize)
    ensures
        r == lru_entries(*c).len(),
{
    c.len()
}

/// Relies on `lru::LruCache::cap`: the fixed capacity.
#[verifier::external_body]
fn lru_cap(c: &BackingLru) -> (r: usize)
    ensures
        r == lru_capacity(*c),
{
    c.cap().get()
}

/// Storing keeps keys distinct and stays within capacity.
pub proof fn lemma_put_preserves_wf(
    m: Seq<(ArticleId, Article)>,
    cap: usize,
    id: ArticleId,
    a: Article,
)
    requires
        model_distinct(m),
        m.len() <= cap,
        cap >= 1,
    ensures
        model_distinct(model_put(m, cap, id, a)),
        model_put(m, cap, id, a).len() <= cap,
{
    let removed = model_remove(m, id);
    lemma_remove_props(m, id);
    let grown = seq![(id, a)] + removed;
    assert(model_distinct(grown)) by {
        assert forall|i: int, j: int| 0 <= i < j < grown.len() implies grown[i].0 != grown[j].0 by {
            if i == 0 {
                assert(grown[j] == removed[j - 1]);
            } else {
                assert(grown[i] == removed[i - 1] && grown[j] == removed[j - 1]);
            }
        }
    }
    if grown.len() > cap {
        assert(model_distinct(grown.drop_last())) by {
            assert forall|i: int, j: int|
                0 <= i < j < grown.drop_last().len() implies grown.drop_last()[i].0
                != grown.drop_last()[j].0 by {
                assert(grown.drop_last()[i] == grown[i] && grown.drop_last()[j] == grown[j]);
            }
        }
    }
}

/// An access keeps keys distinct and the length unchanged.
pub proof fn lemma_promote_preserves_wf(m: Seq<(ArticleId, Article)>, id: ArticleId)
    requires
        model_distinct(m),
    ensures
        model_distinct(model_promote(m, id)),
        model_promote(m, id).len() == m.len(),
        forall|k: ArticleId| model_has(#[trigger] model_promote(m, id), k) <==> model_has(m, k),
{
    if model_has(m, id) {
        let i0 = model_index(m, id);
        lemma_remove_props(m, id);
        let removed = m.remove(i0);
        let p = model_promote(m, id);
        assert(p == seq![(id, m[i0].1)] + removed);
        assert(model_distinct(p)) by {
            assert forall|i: int, j: int| 0 <= i < j < p.len() implies p[i].0 != p[j].0 by {
                if i == 0 {
                    assert(p[j] == removed[j - 1]);
                } else {
                    assert(p[i] == removed[i - 1] && p[j] == removed[j - 1]);
                }
            }
        }
        assert forall|k: ArticleId| model_has(#[trigger] model_promote(m, id), k) <==> model_has(
            m,
            k,
        ) by {
            if model_has(p, k) {
                let i = choose|i: int| 0 <= i < p.len() && p[i].0 == k;
                if i == 0 {
                    assert(m[i0].0 == k);
                } else {
                    assert(p[i] == removed[i - 1]);
                    if i - 1 < i0 {
                        assert(m[i - 1].0 == k);
                    } else {
                        assert(m[i].0 == k);
                    }
                }
            }
            if model_has(m, k) {
                let i = choose|i: int| 0 <= i < m.len() && m[i].0 == k;
                if i == i0 {
                    assert(p[0].0 == k);
                } else if i < i0 {
                    assert(p[i + 1] == removed[i]);
                    assert(p[i + 1].0 == k);
                } else {
                    assert(p[i] == removed[i - 1]);
                    assert(p[i].0 == k);
                }
            }
        }
    }
}

/// Facts about removing a key: the result drops exactly that entry.
proof fn lemma_remove_props(m: Seq<(ArticleId, Article)>, id: ArticleId)
    requires
        model_distinct(m),
    ensures
        !model_has(m, id) ==> model_remove(m, id) == m,
        model_has(m, id) ==> model_remove(m, id).len() == m.len() - 1,
        forall|n: int|
            0 <= n < model_remove(m, id).len() ==> (#[trigger] model_remove(m, id)[n]).0 != id,
        forall|n: int|
            0 <= n < model_remove(m, id).len() ==> m.contains(#[trigger] model_remove(m, id)[n]),
{
    if model_has(m, id) {
        let i0 = model_index(m, id);
        assert(0 <= i0 < m.len() && m[i0].0 == id);
        let r = m.remove(i0);
        assert forall|n: int| 0 <= n < r.len() implies (#[trigger] r[n]).0 != id by {
            if n < i0 {
                assert(r[n] == m[n]);
            } else {
                assert(r[n] == m[n + 1]);
            }
        }
        assert forall|n: int| 0 <= n < r.len() implies m.contains(#[trigger] r[n]) by {
            if n < i0 {
                assert(r[n] == m[n]);
            } else {
                assert(r[n] == m[n + 1]);
            }
        }
    }
}

/// The model after storing a whole sequence of entries, first to last.
pub open spec fn model_put_seq(
    m: Seq<(ArticleId, Article)>,
    cap: usize,
    ps: Seq<(ArticleId, Article)>,
) -> Seq<(ArticleId, Article)>
    decreases ps.len(),
{
    if ps.len() == 0 {
        m
    } else {
        model_put_seq(model_put(m, cap, ps[0].0, ps[0].1), cap, ps.drop_first())
    }
}

/// Storing entries with fresh, distinct keys into roomy space stacks
/// them newest-first on top of the old contents.
proof fn lemma_put_seq_fresh(
    m: Seq<(ArticleId, Article)>,
    cap: usize,
    ps: Seq<(ArticleId, Article)>,
)
    requires
        cap >= 1,
        model_distinct(m),
        m.len() + ps.len() <= cap,
        forall|i: int, j: int| 0 <= i < j < ps.len() ==> ps[i].0 != ps[j].0,
        forall|i: int| 0 <= i < ps.len() ==> !model_has(m, #[trigger] ps[i].0),
    ensures
        model_put_seq(m, cap, ps) == ps.reverse() + m,
    decreases ps.len(),
{
    if ps.len() == 0 {
        assert(model_put_seq(m, cap, ps) =~= ps.reverse() + m);
    } else {
        let p = ps[0];
        lemma_remove_props(m, p.0);
        assert(model_remove(m, p.0) == m);
        let m1 = model_put(m, cap, p.0, p.1);
        assert(m1 == seq![p] + m);
        assert(model_distinct(m1)) by {
            assert forall|i: int, j: int| 0 <= i < j < m1.len() implies m1[i].0 != m1[j].0 by {
                if i == 0 {
                    assert(m1[j] == m[j - 1]);
                    assert(m.contains(m[j - 1]));
                    assert(m[j - 1].0 == m1[j].0);
                } else {
                    assert(m1[i] == m[i - 1] && m1[j] == m[j - 1]);
                }
            }
        }
        let pst = ps.drop_first();
        assert forall|i: int| 0 <= i < pst.len() implies !model_has(m1, #[trigger] pst[i].0) by {
            assert(pst[i] == ps[i + 1]);
            assert(ps[0].0 != ps[i + 1].0);
            if model_has(m1, pst[i].0) {
                let k = choose|k: int| 0 <= k < m1.len() && m1[k].0 == pst[i].0;
                assert(k != 0);
                assert(m1[k] == m[k - 1]);
                assert(model_has(m, pst[i].0));
            }
        }
        assert forall|i: int, j: int| 0 <= i < j < pst.len() implies pst[i].0 != pst[j].0 by {
            assert(pst[i] == ps[i + 1] && pst[j] == ps[j + 1]);
        }
        lemma_put_seq_fresh(m1, cap, pst);
        assert(model_put_seq(m, cap, ps) == pst.reverse() + m1);
        assert(pst.reverse() + m1 =~= ps.reverse() + m) by {
            assert(pst.reverse().len() == ps.len() - 1);
            assert forall|i: int| 0 <= i < pst.reverse().len() implies pst.reverse()[i] == ps[ps.len()
                - 1 - i] by {
                assert(pst.reverse()[i] == pst[pst.len() - 1 - i]);
                assert(pst[pst.len() - 1 - i] == ps[ps.len() - 1 - i]);
            }
            assert forall|i: int| 0 <= i < ps.len() implies (ps.reverse() + m)[i] == (pst.reverse()
                + m1)[i] by {
                assert(ps.reverse()[i] == ps[ps.len() - 1 - i]);
                if i < ps.len() - 1 {
                    assert((pst.reverse() + m1)[i] == pst.reverse()[i]);
                } else {
                    assert((pst.reverse() + m1)[i] == m1[0]);
                }
            }
        }
    }
}

/// Eviction: storing `capacity + 1` entries with distinct keys into an
/// empty cache leaves exactly `capacity` entries; the first-stored
/// (least recently used) key is gone and every later key is present.
pub proof fn lemma_cache_eviction(cap: usize, ps: Seq<(ArticleId, Article)>)
    requires
        cap >= 1,
        ps.len() == cap + 1,
        forall|i: int, j: int| 0 <= i < j < ps.len() ==> ps[i].0 != ps[j].0,
    ensures
        model_put_seq(Seq::empty(), cap, ps).len() == cap,
        !model_has(model_put_seq(Seq::empty(), cap, ps), ps[0].0),
        forall|i: int|
            1 <= i < ps.len() ==> model_has(
                model_put_seq(Seq::empty(), cap, ps),
                #[trigger] ps[i].0,
            ),
{
    let empty = Seq::<(ArticleId, Article)>::empty();
    let head = ps.take(cap as int);
    lemma_put_seq_snoc(empty, cap, head, ps[cap as int]);
    assert(head.push(ps[cap as int]) =~= ps);
    assert forall|i: int, j: int| 0 <= i < j < head.len() implies head[i].0 != head[j].0 by {
        assert(head[i] == ps[i] && head[j] == ps[j]);
    }
    assert forall|i: int| 0 <= i < head.len() implies !model_has(empty, #[trigger] head[i].0) by {}
    lemma_put_seq_fresh(empty, cap, head);
    let full = model_put_seq(empty, cap, head);
    assert(full =~= head.reverse());
    assert(full.len() == cap);
    assert(model_distinct(full)) by {
        assert forall|i: int, j: int| 0 <= i < j < full.len() implies full[i].0 != full[j].0 by {
            assert(full[i] == head[cap - 1 - i] && full[j] == head[cap - 1 - j]);
        }
    }
    // The final store finds a full cache without its key and drops the
    // back entry, which is the first-stored one.
    let last = ps[cap as int];
    assert(!model_has(full, last.0)) by {
        if model_has(full, last.0) {
            let k = choose|k: int| 0 <= k < full.len() && full[k].0 == last.0;
            assert(full[k] == head[cap - 1 - k]);
            assert(ps[cap - 1 - k].0 == ps[cap as int].0);
        }
    }
    lemma_remove_props(full, last.0);
    assert(model_remove(full, last.0) == full);
    let grown = seq![last] + full;
    let fin = model_put_seq(empty, cap, ps);
    assert(fin == model_put(full, cap, last.0, last.1));
    assert(grown.len() == cap + 1 > cap);
    assert(fin == grown.drop_last());
    assert(fin.len() == cap);
    assert(grown.last() == full[full.len() - 1]);
    assert(full[full.len() - 1] == head[0]);
    // Membership in the final model.
    assert(!model_has(fin, ps[0].0)) by {
        if model_has(fin, ps[0].0) {
            let k = choose|k: int| 0 <= k < fin.len() && fin[k].0 == ps[0].0;
            assert(fin[k] == grown[k]);
            if k == 0 {
                assert(grown[0].0 == ps[cap as int].0);
            } else {
                assert(grown[k] == full[k - 1]);
                assert(full[k - 1] == head[cap - k]);
                assert(ps[cap - k].0 == ps[0].0);
                assert(0 < cap - k < ps.len());
            }
        }
    }
    assert forall|i: int| 1 <= i < ps.len() implies model_has(fin, #[trigger] ps[i].0) by {
        if i == cap {
            assert(fin[0] == grown[0]);
            assert(fin[0].0 == ps[i].0);
        } else {
            // ps[i] sits at position cap - i of the full stack, hence
            // at cap - i + 1 - 1 of the final model.
            let k = cap - i;
            assert(full[k - 1 + 1 - 1] == head[cap - 1 - (k - 1)]);
            assert(head[i] == ps[i]);
            assert(grown[k] == full[k - 1]);
            assert(full[k - 1] == head[cap - k]);
            assert(cap - k == i);
            assert(0 <= k < fin.len());
            assert(fin[k] == grown[k]);
            assert(fin[k].0 == ps[i].0);
        }
    }
}

/// Storing one more entry after a sequence is the sequence with that
/// entry appended.
proof fn lemma_put_seq_snoc(
    m: Seq<(ArticleId, Article)>,
    cap: usize,
    ps: Seq<(ArticleId, Article)>,
    p: (ArticleId, Article),
)
    ensures
        model_put_seq(m, cap, ps.push(p)) == model_put(
            model_put_seq(m, cap, ps),
            cap,
            p.0,
            p.1,
        ),
    decreases ps.len(),
{
    let whole = ps.push(p);
    assert(whole.len() == ps.len() + 1);
    if ps.len() == 0 {
        assert(whole.drop_first() =~= Seq::<(ArticleId, Article)>::empty());
        assert(whole[0] == p);
        assert(model_put_seq(m, cap, whole) == model_put_seq(
            model_put(m, cap, p.0, p.1),
            cap,
            whole.drop_first(),
        ));
        assert(model_put_seq(m, cap, whole) == model_put(m, cap, p.0, p.1));
        assert(model_put_seq(m, cap, ps) == m);
    } else {
        assert(whole[0] == ps[0]);
        assert(whole.drop_first() =~= ps.drop_first().push(p));
        let m1 = model_put(m, cap, ps[0].0, ps[0].1);
        assert(model_put_seq(m, cap, whole) == model_put_seq(m1, cap, whole.drop_first()));
        lemma_put_seq_snoc(m1, cap, ps.drop_first(), p);
        assert(model_put_seq(m1, cap, ps.drop_first().push(p)) == model_put(
            model_put_seq(m1, cap, ps.drop_first()),
            cap,
            p.0,
            p.1,
        ));
        assert(model_put_seq(m, cap, ps) == model_put_seq(m1, cap, ps.drop_first()));
    }
}

/// Cache round trip: immediately after a value is stored under a key,
/// looking that key up yields exactly that value, and the cache is
/// still well formed.
pub proof fn lemma_cache_round_trip(
    m: Seq<(ArticleId, Article)>,
    cap: usize,
    id: ArticleId,
    a: Article,
)
    requires
        model_distinct(m),
        m.len() <= cap,
        cap >= 1,
    ensures
        model_get(model_put(m, cap, id, a), id) == Some(a),
{
    lemma_put_preserves_wf(m, cap, id, a);
    let p = model_put(m, cap, id, a);
    assert(p[0] == (id, a));
    assert(model_has(p, id));
    let i = model_index(p, id);
    assert(0 <= i < p.len() && p[i].0 == id);
    if i != 0 {
        assert(p[0].0 != p[i].0);
    }
    assert(p[i].1 == a);
}

} // verus!
