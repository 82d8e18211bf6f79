//! The engine facade: store, index, cache and paginator composed into
//! the public operation set.
//!
//! The caller owns the filesystem: it hands `refresh_index` a directory
//! listing with the metadata record texts, and it completes a fetch by
//! handing over the body file that a `NeedsBody` answer names.  Every
//! decision in between — sample short-circuit, cache consultation and
//! population, index lookups, pagination, search — is made and verified
//! here.

use vstd::prelude::*;

use crate::article::{
    build_summary, summary_of, Article, ArticleId, ArticleSummary, CachedStatus, Metainfo,
    SAMPLE_ARTICLE_ID,
};
use crate::article::{arc_clone, has_tag};
use crate::cache::{
    lemma_promote_preserves_wf, lemma_put_preserves_wf, model_get, model_has, model_promote,
    model_put, ArticleCache,
};
use crate::errors::EngineError;
use crate::index::{
    entries_ascending, has_id, ids_of, last_with_id, lemma_ascending_same_set,
    lemma_last_with_id_at, lemma_last_with_id_props, lemma_lookup_at, lookup, rebuild_post,
    strictly_ascending, ArticleIndex,
};
use crate::metadata::id_text_value;
use crate::pagination::{spec_page, spec_page_count, Paginator};
use crate::render::rendered;
use crate::search::{matches_query, metainfo_matches};
use crate::storage::{
    accepted_entries, article_matches_meta, lemma_accepted_entries, lemma_last_index_with,
    lemma_scan_descriptor_agree, lemma_scan_id, scan_accepts, scan_descriptor, ArticleStorage,
    BodyFile, ScanEntry,
};

verus! {

/// The answer of a fetch: a finished article, a request for the body
/// file of a descriptor, or nothing under that id.
pub enum FetchOutcome {
    /// The article, and whether it came out of the cache.
    Found(Article, CachedStatus),
    /// The body file named by this descriptor is needed to finish.
    NeedsBody(Metainfo),
    /// The id has no entry in the current index.
    Absent,
}

/// Manages the set of articles: descriptors from the item store,
/// indexed for lookup, with a recency cache of rendered articles and an
/// optional in-memory sample article under the reserved id.
pub struct Articles {
    storage: ArticleStorage,
    cache: ArticleCache,
    index: ArticleIndex,
    sample: Option<Article>,
}

impl Articles {
    /// The current descriptor set, ascending by id.
    pub closed spec fn descriptors(&self) -> Seq<Metainfo> {
        self.index.descriptors()
    }

    /// The sorted id list.
    pub closed spec fn all_ids(&self) -> Seq<ArticleId> {
        self.index.spec_all_ids()
    }

    /// The ids recorded for a tag.
    pub closed spec fn ids_for_tag(&self, tag: Seq<char>) -> Seq<ArticleId> {
        self.index.spec_ids_for_tag(tag)
    }

    /// The cache contents, most recently used first.
    pub closed spec fn cache_model(&self) -> Seq<(ArticleId, Article)> {
        self.cache.model()
    }

    /// The cache capacity.
    pub closed spec fn cache_capacity(&self) -> usize {
        self.cache.capacity()
    }

    /// The sample article served under the reserved id, if enabled.
    pub closed spec fn spec_sample(&self) -> Option<Article> {
        self.sample
    }

    /// Whether bodies are rendered to markup.
    pub closed spec fn renders(&self) -> bool {
        self.storage.render_markdown
    }

    /// The option set the renderer is given.
    pub closed spec fn render_options(&self) -> comrak::Options<'static> {
        self.storage.options
    }

    /// Index and cache are well formed and the sample, if any, carries
    /// the reserved id.
    pub closed spec fn wf(&self) -> bool {
        &&& self.index.wf()
        &&& self.cache.wf()
        &&& (self.sample matches Some(a) ==> a.id == SAMPLE_ARTICLE_ID)
    }

    /// A fresh engine: empty index, empty cache.
    pub fn new(storage: ArticleStorage, cache_capacity: usize, sample: Option<Article>) -> (r:
        Articles)
        requires
            cache_capacity >= 1,
            sample matches Some(a) ==> a.id == SAMPLE_ARTICLE_ID,
        ensures
            r.wf(),
            r.descriptors() == Seq::<Metainfo>::empty(),
            r.cache_model() == Seq::<(ArticleId, Article)>::empty(),
            r.cache_capacity() == cache_capacity,
            r.spec_sample() == sample,
            r.renders() == storage.render_markdown,
    {
        Articles {
            storage,
            cache: ArticleCache::new(cache_capacity),
            index: ArticleIndex::new(),
            sample,
        }
    }
}

/// What a finished index refresh guarantees.  The cache and settings
/// are untouched.  The id list is exactly the indexed descriptors' ids
/// in strictly ascending order, and each tag's ids are exactly the
/// indexed descriptors carrying it.  The indexed set is pinned both
/// ways: every indexed id is the enabled sample's or an accepted
/// entry's, and every accepted entry's id is indexed.  The descriptor
/// under each id is the one of the last accepted entry naming it; the
/// enabled sample is always indexed, and keeps its own metadata unless
/// a scanned item claims the reserved id.
pub open spec fn index_refreshed(pre: Articles, post: Articles, entries: Seq<ScanEntry>) -> bool {
    let acc = accepted_entries(entries);
    &&& post.cache_model() == pre.cache_model()
    &&& post.cache_capacity() == pre.cache_capacity()
    &&& post.spec_sample() == pre.spec_sample()
    &&& post.renders() == pre.renders()
    &&& post.render_options() == pre.render_options()
    &&& entries_ascending(post.descriptors())
    &&& post.all_ids() == ids_of(post.descriptors())
    &&& strictly_ascending(post.all_ids())
    &&& forall|id: ArticleId| #[trigger]
        post.all_ids().contains(id) <==> has_id(post.descriptors(), id)
    &&& forall|tag: Seq<char>| strictly_ascending(#[trigger] post.ids_for_tag(tag))
    &&& forall|tag: Seq<char>, id: ArticleId| #[trigger]
        post.ids_for_tag(tag).contains(id) <==> (lookup(post.descriptors(), id) matches Some(m)
            && has_tag(m, tag))
    &&& forall|id: ArticleId|
        has_id(post.descriptors(), id) ==> ((pre.spec_sample() is Some && id == SAMPLE_ARTICLE_ID)
            || (exists|i: int|
            0 <= i < entries.len() && scan_accepts(#[trigger] entries[i]) && id_text_value(
                entries[i].name@,
            ) == Some(id as int)))
    &&& forall|i: int|
        0 <= i < entries.len() && scan_accepts(#[trigger] entries[i]) ==> (id_text_value(
            entries[i].name@,
        ) matches Some(v) && i32::MIN <= v <= i32::MAX && has_id(post.descriptors(), v as i32))
    &&& forall|j: int|
        0 <= j < acc.len() ==> (#[trigger] id_text_value(acc[j].name@) matches Some(v) ==> ((
        forall|j2: int| j < j2 < acc.len() ==> id_text_value(#[trigger] acc[j2].name@) != Some(v))
            ==> (lookup(post.descriptors(), v as i32) matches Some(m) && scan_descriptor(
            acc[j],
            m,
        ))))
    &&& (pre.spec_sample() is Some ==> post.all_ids().contains(SAMPLE_ARTICLE_ID))
    &&& (pre.spec_sample() matches Some(sa) ==> ((forall|j: int|
        0 <= j < acc.len() ==> id_text_value(#[trigger] acc[j].name@) != Some(
            SAMPLE_ARTICLE_ID as int,
        )) ==> (lookup(post.descriptors(), SAMPLE_ARTICLE_ID) matches Some(m) && m.id == sa.id
        && m.title == sa.title && m.description == sa.description && m.date == sa.date && m.tags
        == sa.tags && m.keywords == sa.keywords)))
}

impl Articles {
    /// What well-formedness alone guarantees of every query: listings
    /// come out in strictly ascending id order, and each tag's ids are
    /// exactly the indexed descriptors carrying the tag.
    pub proof fn lemma_index_facts(&self)
        requires
            self.wf(),
        ensures
            entries_ascending(self.descriptors()),
            self.all_ids() == ids_of(self.descriptors()),
            strictly_ascending(self.all_ids()),
            forall|id: ArticleId| #[trigger]
                self.all_ids().contains(id) <==> has_id(self.descriptors(), id),
            forall|tag: Seq<char>| strictly_ascending(#[trigger] self.ids_for_tag(tag)),
            forall|tag: Seq<char>, id: ArticleId| #[trigger]
                self.ids_for_tag(tag).contains(id) <==> (lookup(
                    self.descriptors(),
                    id,
                ) matches Some(m) && has_tag(m, tag)),
    {
        self.index.lemma_wf_queries();
    }
}

/// After a refresh, an indexed id of one engine is indexed in any
/// other engine refreshed from the same listing with the same sample
/// setting.
proof fn lemma_refresh_has_id(
    pre_a: Articles,
    post_a: Articles,
    pre_b: Articles,
    post_b: Articles,
    entries: Seq<ScanEntry>,
    id: ArticleId,
)
    requires
        index_refreshed(pre_a, post_a, entries),
        index_refreshed(pre_b, post_b, entries),
        pre_a.spec_sample() == pre_b.spec_sample(),
        has_id(post_a.descriptors(), id),
    ensures
        has_id(post_b.descriptors(), id),
{
    if pre_a.spec_sample() is Some && id == SAMPLE_ARTICLE_ID {
        assert(post_b.all_ids().contains(SAMPLE_ARTICLE_ID));
    } else {
        let i = choose|i: int|
            0 <= i < entries.len() && scan_accepts(#[trigger] entries[i]) && id_text_value(
                entries[i].name@,
            ) == Some(id as int);
        assert(id_text_value(entries[i].name@) matches Some(v) && i32::MIN <= v <= i32::MAX
            && has_id(post_b.descriptors(), v as i32));
    }
}

/// After a refresh, a tag membership of one engine holds in any other
/// engine refreshed from the same listing with the same sample
/// setting.
proof fn lemma_refresh_tag_member(
    pre_a: Articles,
    post_a: Articles,
    pre_b: Articles,
    post_b: Articles,
    entries: Seq<ScanEntry>,
    tag: Seq<char>,
    id: ArticleId,
)
    requires
        index_refreshed(pre_a, post_a, entries),
        index_refreshed(pre_b, post_b, entries),
        pre_a.spec_sample() == pre_b.spec_sample(),
        post_a.ids_for_tag(tag).contains(id),
    ensures
        post_b.ids_for_tag(tag).contains(id),
{
    let acc = accepted_entries(entries);
    lemma_accepted_entries(entries);
    assert(lookup(post_a.descriptors(), id) matches Some(m) && has_tag(m, tag));
    let ma = lookup(post_a.descriptors(), id)->Some_0;
    assert(has_id(post_a.descriptors(), id));
    if exists|j: int|
        0 <= j < acc.len() && id_text_value((#[trigger] acc[j]).name@) == Some(id as int) {
        // The id belongs to some accepted entry; the last such entry
        // decides the stored descriptor in both engines.
        let j = lemma_last_index_with(acc, id as int);
        assert(lookup(post_a.descriptors(), (id as int) as i32) matches Some(m)
            && scan_descriptor(acc[j], m));
        assert(lookup(post_b.descriptors(), (id as int) as i32) matches Some(m)
            && scan_descriptor(acc[j], m));
        let mb = lookup(post_b.descriptors(), id)->Some_0;
        assert(scan_descriptor(acc[j], ma));
        assert(scan_descriptor(acc[j], mb));
        lemma_scan_descriptor_agree(acc[j], ma, mb);
        assert(has_tag(mb, tag));
        assert(post_b.ids_for_tag(tag).contains(id));
    } else {
        // No accepted entry claims the id, so it can only be the
        // enabled sample's, and both engines store the sample's own
        // metadata under it.
        assert(pre_a.spec_sample() is Some && id == SAMPLE_ARTICLE_ID) by {
            if !(pre_a.spec_sample() is Some && id == SAMPLE_ARTICLE_ID) {
                let i = choose|i: int|
                    0 <= i < entries.len() && scan_accepts(#[trigger] entries[i])
                        && id_text_value(entries[i].name@) == Some(id as int);
                assert(acc.contains(entries[i]));
                let jx = choose|jx: int| 0 <= jx < acc.len() && acc[jx] == entries[i];
                assert(id_text_value(acc[jx].name@) == Some(id as int));
            }
        }
        let sa = pre_a.spec_sample()->Some_0;
        assert(forall|j: int|
            0 <= j < acc.len() ==> id_text_value(#[trigger] acc[j].name@) != Some(
                SAMPLE_ARTICLE_ID as int,
            ));
        assert(lookup(post_a.descriptors(), SAMPLE_ARTICLE_ID) matches Some(m) && m.id == sa.id
            && m.title == sa.title && m.description == sa.description && m.date == sa.date
            && m.tags == sa.tags && m.keywords == sa.keywords);
        assert(lookup(post_b.descriptors(), SAMPLE_ARTICLE_ID) matches Some(m) && m.id == sa.id
            && m.title == sa.title && m.description == sa.description && m.date == sa.date
            && m.tags == sa.tags && m.keywords == sa.keywords);
        let mb = lookup(post_b.descriptors(), id)->Some_0;
        assert(ma.tags == sa.tags && mb.tags == sa.tags);
        assert(has_tag(mb, tag)) by {
            let i = choose|i: int| 0 <= i < ma.tags@.len() && ma.tags@[i]@ == tag;
            assert(mb.tags@[i]@ == tag);
        }
        assert(post_b.ids_for_tag(tag).contains(id));
    }
}

/// Refreshing from an unchanged listing yields identical query
/// results: the id list and every tag's id list are functions of the
/// listing and the sample setting alone, so running the refresh twice
/// over one filesystem snapshot changes no query answer.
pub proof fn lemma_refresh_deterministic(
    pre_a: Articles,
    post_a: Articles,
    pre_b: Articles,
    post_b: Articles,
    entries: Seq<ScanEntry>,
)
    requires
        index_refreshed(pre_a, post_a, entries),
        index_refreshed(pre_b, post_b, entries),
        pre_a.spec_sample() == pre_b.spec_sample(),
    ensures
        post_a.all_ids() == post_b.all_ids(),
        forall|tag: Seq<char>| #[trigger] post_a.ids_for_tag(tag) == post_b.ids_for_tag(tag),
{
    assert forall|id: ArticleId| #[trigger]
        post_a.all_ids().contains(id) <==> #[trigger] post_b.all_ids().contains(id) by {
        if post_a.all_ids().contains(id) {
            lemma_refresh_has_id(pre_a, post_a, pre_b, post_b, entries, id);
        }
        if post_b.all_ids().contains(id) {
            lemma_refresh_has_id(pre_b, post_b, pre_a, post_a, entries, id);
        }
    }
    lemma_ascending_same_set(post_a.all_ids(), post_b.all_ids());
    assert forall|tag: Seq<char>| #[trigger]
        post_a.ids_for_tag(tag) == post_b.ids_for_tag(tag) by {
        assert forall|id: ArticleId| #[trigger]
            post_a.ids_for_tag(tag).contains(id) <==> #[trigger] post_b.ids_for_tag(
                tag,
            ).contains(id) by {
            if post_a.ids_for_tag(tag).contains(id) {
                lemma_refresh_tag_member(pre_a, post_a, pre_b, post_b, entries, tag, id);
            }
            if post_b.ids_for_tag(tag).contains(id) {
                lemma_refresh_tag_member(pre_b, post_b, pre_a, post_a, entries, tag, id);
            }
        }
        lemma_ascending_same_set(post_a.ids_for_tag(tag), post_b.ids_for_tag(tag));
    }
}

/// The two engine states answer every index query alike.
pub open spec fn same_index(a: Articles, b: Articles) -> bool {
    &&& a.descriptors() == b.descriptors()
    &&& a.all_ids() == b.all_ids()
    &&& forall|tag: Seq<char>| #[trigger] a.ids_for_tag(tag) == b.ids_for_tag(tag)
}

impl Articles {
    /// The sample article's descriptor: the same metadata, with no
    /// body path of its own.
    fn sample_metainfo(a: &Article) -> (r: Metainfo)
        ensures
            r.id == a.id,
            r.title == a.title,
            r.description == a.description,
            r.date == a.date,
            r.tags == a.tags,
            r.keywords == a.keywords,
    {
        Metainfo {
            id: a.id,
            title: arc_clone(&a.title),
            description: arc_clone(&a.description),
            markdown_path: std::sync::Arc::new(String::new()),
            date: a.date,
            tags: arc_clone(&a.tags),
            keywords: arc_clone(&a.keywords),
        }
    }

    /// Rebuild the whole index from a scan of the source root: the
    /// sample first when enabled, then every well-formed scanned item.
    /// The cache is left as it is — stale entries persist until they
    /// are evicted, refreshed or cleared.
    pub fn load_index(&mut self, entries: &Vec<ScanEntry>)
        requires
            old(self).wf(),
        ensures
            final(self).wf(),
            index_refreshed(*old(self), *final(self), entries@),
    {
        let mut descriptors: Vec<Metainfo> = Vec::new();
        let ghost plen: int = if self.sample is Some {
            1
        } else {
            0
        };
        match &self.sample {
            Some(a) => {
                let m = Self::sample_metainfo(a);
                descriptors.push(m);
            },
            None => {},
        }
        proof {
            assert(self.sample matches Some(sa) ==> {
                &&& descriptors@.len() == 1
                &&& descriptors@[0].id == sa.id
                &&& descriptors@[0].title == sa.title
                &&& descriptors@[0].description == sa.description
                &&& descriptors@[0].date == sa.date
                &&& descriptors@[0].tags == sa.tags
                &&& descriptors@[0].keywords == sa.keywords
            });
        }
        let mut scanned = self.storage.scan_articles(entries);
        let ghost sc = scanned@;
        let ghost acc = accepted_entries(entries@);
        descriptors.append(&mut scanned);
        let ghost ds = descriptors@;
        proof {
            assert(ds.len() == plen + sc.len());
            assert(forall|j: int| 0 <= j < sc.len() ==> ds[plen + j] == sc[j]);
            lemma_accepted_entries(entries@);
            assert forall|j: int|
                0 <= j < acc.len() implies id_text_value(#[trigger] acc[j].name@) == Some(
                sc[j].id as int,
            ) by {
                lemma_scan_id(acc[j], sc[j]);
            }
        }
        self.index.rebuild(&descriptors);
        proof {
            assert(rebuild_post(self.index, ds));
            self.index.lemma_wf_queries();
            // Soundness: every indexed id is the sample's or an
            // accepted entry's.
            assert forall|id: ArticleId|
                has_id(self.descriptors(), id) implies ((self.sample is Some && id
                == SAMPLE_ARTICLE_ID) || (exists|i: int|
                0 <= i < entries@.len() && scan_accepts(#[trigger] entries@[i]) && id_text_value(
                    entries@[i].name@,
                ) == Some(id as int))) by {
                assert(lookup(self.descriptors(), id) == last_with_id(ds, id));
                lemma_last_with_id_props(ds, id);
                let m = last_with_id(ds, id)->Some_0;
                let jd = choose|jd: int| 0 <= jd < ds.len() && ds[jd] == m;
                if jd < plen {
                    assert(ds[0].id == SAMPLE_ARTICLE_ID);
                } else {
                    let j = jd - plen;
                    assert(ds[jd] == sc[j]);
                    assert(scan_descriptor(acc[j], sc[j]));
                    assert(id_text_value(acc[j].name@) == Some(sc[j].id as int));
                    assert(sc[j].id == id);
                    assert(entries@.contains(acc[j]));
                    let i = choose|i: int| 0 <= i < entries@.len() && entries@[i] == acc[j];
                    assert(scan_accepts(entries@[i]) && id_text_value(entries@[i].name@) == Some(
                        id as int,
                    ));
                }
            }
            // Completeness: every accepted entry's id is indexed.
            assert forall|i: int|
                0 <= i < entries@.len() && scan_accepts(#[trigger] entries@[i]) implies (
            id_text_value(entries@[i].name@) matches Some(v) && i32::MIN <= v <= i32::MAX
                && has_id(self.descriptors(), v as i32)) by {
                assert(acc.contains(entries@[i]));
                let j = choose|j: int| 0 <= j < acc.len() && acc[j] == entries@[i];
                assert(id_text_value(entries@[i].name@) == Some(sc[j].id as int));
                assert(ds[plen + j].id == sc[j].id);
                assert(has_id(ds, sc[j].id));
                lemma_last_with_id_props(ds, sc[j].id);
                assert(lookup(self.descriptors(), sc[j].id) == last_with_id(ds, sc[j].id));
                assert(has_id(self.descriptors(), sc[j].id));
            }
            // Field pinning: the last accepted entry with an id
            // decides the descriptor stored under it.
            assert forall|j: int|
                0 <= j < acc.len() implies (#[trigger] id_text_value(acc[j].name@) matches Some(v)
                ==> ((forall|j2: int|
                j < j2 < acc.len() ==> id_text_value(#[trigger] acc[j2].name@) != Some(v)) ==> (
            lookup(self.descriptors(), v as i32) matches Some(m) && scan_descriptor(
                acc[j],
                m,
            )))) by {
                let v = id_text_value(acc[j].name@)->Some_0;
                assert(v == sc[j].id as int);
                if forall|j2: int|
                    j < j2 < acc.len() ==> id_text_value(#[trigger] acc[j2].name@) != Some(v) {
                    let jd = plen + j;
                    assert(ds[jd] == sc[j]);
                    assert forall|k: int| jd < k < ds.len() implies (#[trigger] ds[k]).id
                        != ds[jd].id by {
                        let j2 = k - plen;
                        assert(ds[k] == sc[j2]);
                        assert(id_text_value(acc[j2].name@) == Some(sc[j2].id as int));
                        assert(id_text_value(acc[j2].name@) != Some(v));
                    }
                    lemma_last_with_id_at(ds, jd);
                    assert(last_with_id(ds, sc[j].id) == Some(sc[j]));
                    assert(lookup(self.descriptors(), sc[j].id) == last_with_id(ds, sc[j].id));
                    assert(v as i32 == sc[j].id);
                    assert(scan_descriptor(acc[j], sc[j]));
                }
            }
            // The enabled sample is indexed; its metadata survives
            // unless a scanned item claims the reserved id.
            if self.sample is Some {
                let ghost sa = self.sample->Some_0;
                assert(ds[0].id == SAMPLE_ARTICLE_ID);
                assert(has_id(ds, SAMPLE_ARTICLE_ID));
                lemma_last_with_id_props(ds, SAMPLE_ARTICLE_ID);
                assert(lookup(self.descriptors(), SAMPLE_ARTICLE_ID) == last_with_id(
                    ds,
                    SAMPLE_ARTICLE_ID,
                ));
                assert(has_id(self.descriptors(), SAMPLE_ARTICLE_ID));
                assert(self.all_ids().contains(SAMPLE_ARTICLE_ID));
                if forall|j: int|
                    0 <= j < acc.len() ==> id_text_value(#[trigger] acc[j].name@) != Some(
                        SAMPLE_ARTICLE_ID as int,
                    ) {
                    assert forall|k: int| 0 < k < ds.len() implies (#[trigger] ds[k]).id
                        != ds[0].id by {
                        let j2 = k - plen;
                        assert(ds[k] == sc[j2]);
                        assert(id_text_value(acc[j2].name@) == Some(sc[j2].id as int));
                        assert(id_text_value(acc[j2].name@) != Some(SAMPLE_ARTICLE_ID as int));
                    }
                    lemma_last_with_id_at(ds, 0);
                    assert(lookup(self.descriptors(), SAMPLE_ARTICLE_ID) == Some(ds[0]));
                }
            }
        }
    }

    /// Refresh the index by re-scanning: the same operation as
    /// `load_index`, under the name callers use at run time.
    pub fn refresh_index(&mut self, entries: &Vec<ScanEntry>)
        requires
            old(self).wf(),
        ensures
            final(self).wf(),
            index_refreshed(*old(self), *final(self), entries@),
    {
        self.load_index(entries);
    }

    /// Begin fetching an article.  The enabled sample under the
    /// reserved id and cached articles are answered outright; for an
    /// indexed but uncached id the caller is asked for the body file;
    /// an unknown id is absent.
    pub fn get_article(&mut self, article_id: ArticleId) -> (r: FetchOutcome)
        requires
            old(self).wf(),
        ensures
            final(self).wf(),
            same_index(*old(self), *final(self)),
            final(self).spec_sample() == old(self).spec_sample(),
            final(self).renders() == old(self).renders(),
            final(self).render_options() == old(self).render_options(),
            final(self).cache_capacity() == old(self).cache_capacity(),
            (article_id == SAMPLE_ARTICLE_ID && old(self).spec_sample() is Some) ==> (r
                == FetchOutcome::Found(old(self).spec_sample()->Some_0, CachedStatus::NotCached)
                && final(self).cache_model() == old(self).cache_model()),
            !(article_id == SAMPLE_ARTICLE_ID && old(self).spec_sample() is Some) ==> {
                &&& (model_has(old(self).cache_model(), article_id) ==> (r
                    matches FetchOutcome::Found(a, st) && st == CachedStatus::Cached && Some(a)
                    == model_get(old(self).cache_model(), article_id) && final(self).cache_model()
                    == model_promote(old(self).cache_model(), article_id)))
                &&& (!model_has(old(self).cache_model(), article_id) ==> final(self).cache_model()
                    == old(self).cache_model())
                &&& (!model_has(old(self).cache_model(), article_id) ==> (lookup(
                    old(self).descriptors(),
                    article_id,
                ) matches Some(m) ==> r == FetchOutcome::NeedsBody(m)))
                &&& ((!model_has(old(self).cache_model(), article_id) && lookup(
                    old(self).descriptors(),
                    article_id,
                ) is None) ==> r == FetchOutcome::Absent)
            },
    {
        if article_id == SAMPLE_ARTICLE_ID {
            let sampled = match &self.sample {
                Some(a) => Some(a.clone()),
                None => None,
            };
            match sampled {
                Some(a) => {
                    return FetchOutcome::Found(a, CachedStatus::NotCached);
                },
                None => {},
            }
        }
        let ghost pre_cache = self.cache.model();
        let cached = self.cache.get(article_id);
        proof {
            lemma_promote_preserves_wf(pre_cache, article_id);
        }
        match cached {
            Some(a) => {
                return FetchOutcome::Found(a, CachedStatus::Cached);
            },
            None => {},
        }
        match self.index.get_metainfo(article_id) {
            Some(m) => FetchOutcome::NeedsBody(m),
            None => FetchOutcome::Absent,
        }
    }

    /// Finish a fetch or a forced refresh: resolve the id again, apply
    /// the sample short-circuit, assemble the article from the body
    /// file, and store it in the cache as most recently used.
    pub fn refresh_article_with_body(&mut self, article_id: ArticleId, body: BodyFile) -> (r:
        Result<Article, EngineError>)
        requires
            old(self).wf(),
        ensures
            final(self).wf(),
            same_index(*old(self), *final(self)),
            final(self).spec_sample() == old(self).spec_sample(),
            final(self).renders() == old(self).renders(),
            final(self).render_options() == old(self).render_options(),
            final(self).cache_capacity() == old(self).cache_capacity(),
            lookup(old(self).descriptors(), article_id) is None ==> (r == Err::<
                Article,
                EngineError,
            >(EngineError::NotFound) && final(self).cache_model() == old(self).cache_model()),
            lookup(old(self).descriptors(), article_id) is Some ==> {
                &&& ((article_id == SAMPLE_ARTICLE_ID && old(self).spec_sample() is Some) ==> (r
                    == Ok::<Article, EngineError>(old(self).spec_sample()->Some_0)
                    && final(self).cache_model() == model_put(
                    old(self).cache_model(),
                    old(self).cache_capacity(),
                    article_id,
                    old(self).spec_sample()->Some_0,
                )))
                &&& (!(article_id == SAMPLE_ARTICLE_ID && old(self).spec_sample() is Some) ==> {
                    &&& (body is DirectoryMissing ==> (r == Err::<Article, EngineError>(
                        EngineError::ItemDirectoryMissing,
                    ) && final(self).cache_model() == old(self).cache_model()))
                    &&& (body is FileMissing ==> (r == Err::<Article, EngineError>(
                        EngineError::MissingBodyFile,
                    ) && final(self).cache_model() == old(self).cache_model()))
                    &&& (body matches BodyFile::Content(s) ==> (r matches Ok(a)
                        && article_matches_meta(
                        a,
                        lookup(old(self).descriptors(), article_id)->Some_0,
                    ) && a.content@ == (if old(self).renders() {
                        rendered(s@, old(self).render_options())
                    } else {
                        s@
                    }) && final(self).cache_model() == model_put(
                        old(self).cache_model(),
                        old(self).cache_capacity(),
                        article_id,
                        a,
                    )))
                })
            },
    {
        let m = match self.index.get_metainfo(article_id) {
            Some(m) => m,
            None => {
                return Err(EngineError::NotFound);
            },
        };
        if article_id == SAMPLE_ARTICLE_ID {
            let sampled = match &self.sample {
                Some(a) => Some(a.clone()),
                None => None,
            };
            match sampled {
                Some(a) => {
                    proof {
                        lemma_put_preserves_wf(
                            self.cache.model(),
                            self.cache.capacity(),
                            article_id,
                            a,
                        );
                    }
                    self.cache.put(article_id, a.clone());
                    return Ok(a);
                },
                None => {},
            }
        }
        match self.storage.load_article(&m, body) {
            Ok(a) => {
                proof {
                    lemma_put_preserves_wf(self.cache.model(), self.cache.capacity(), article_id, a);
                }
                self.cache.put(article_id, a.clone());
                Ok(a)
            },
            Err(e) => Err(e),
        }
    }

    /// Finish a fetch begun with `get_article`: the assembled article
    /// is always freshly loaded.
    pub fn get_article_with_body(&mut self, article_id: ArticleId, body: BodyFile) -> (r: Result<
        (Article, CachedStatus),
        EngineError,
    >)
        requires
            old(self).wf(),
        ensures
            final(self).wf(),
            same_index(*old(self), *final(self)),
            final(self).spec_sample() == old(self).spec_sample(),
            final(self).renders() == old(self).renders(),
            final(self).render_options() == old(self).render_options(),
            final(self).cache_capacity() == old(self).cache_capacity(),
            match r {
                Ok(p) => p.1 == CachedStatus::NotCached,
                Err(_) => true,
            },
            lookup(old(self).descriptors(), article_id) is None ==> r == Err::<
                (Article, CachedStatus),
                EngineError,
            >(EngineError::NotFound),
            lookup(old(self).descriptors(), article_id) is Some ==> {
                &&& ((article_id == SAMPLE_ARTICLE_ID && old(self).spec_sample() is Some) ==> r
                    == Ok::<(Article, CachedStatus), EngineError>(
                    (old(self).spec_sample()->Some_0, CachedStatus::NotCached),
                ))
                &&& (!(article_id == SAMPLE_ARTICLE_ID && old(self).spec_sample() is Some) ==> {
                    &&& (body is DirectoryMissing ==> r == Err::<
                        (Article, CachedStatus),
                        EngineError,
                    >(EngineError::ItemDirectoryMissing))
                    &&& (body is FileMissing ==> r == Err::<(Article, CachedStatus), EngineError>(
                        EngineError::MissingBodyFile,
                    ))
                    &&& (body matches BodyFile::Content(s) ==> (r matches Ok(p)
                        && article_matches_meta(
                        p.0,
                        lookup(old(self).descriptors(), article_id)->Some_0,
                    ) && p.0.content@ == (if old(self).renders() {
                        rendered(s@, old(self).render_options())
                    } else {
                        s@
                    }) && final(self).cache_model() == model_put(
                        old(self).cache_model(),
                        old(self).cache_capacity(),
                        article_id,
                        p.0,
                    )))
                })
            },
    {
        match self.refresh_article_with_body(article_id, body) {
            Ok(a) => Ok((a, CachedStatus::NotCached)),
            Err(e) => Err(e),
        }
    }

    /// Begin a forced refresh of one article: the descriptor to reload,
    /// bypassing the cache, or `NotFound` for an unindexed id.
    pub fn refresh_article(&self, article_id: ArticleId) -> (r: Result<Metainfo, EngineError>)
        requires
            self.wf(),
        ensures
            match r {
                Ok(m) => lookup(self.descriptors(), article_id) == Some(m),
                Err(e) => e == EngineError::NotFound && lookup(
                    self.descriptors(),
                    article_id,
                ) is None,
            },
    {
        match self.index.get_metainfo(article_id) {
            Some(m) => Ok(m),
            None => Err(EngineError::NotFound),
        }
    }

    /// Empty the recency cache; always succeeds, touches nothing else.
    pub fn clear_cache(&mut self)
        requires
            old(self).wf(),
        ensures
            final(self).wf(),
            same_index(*old(self), *final(self)),
            final(self).cache_model() == Seq::<(ArticleId, Article)>::empty(),
            final(self).cache_capacity() == old(self).cache_capacity(),
            final(self).spec_sample() == old(self).spec_sample(),
            final(self).renders() == old(self).renders(),
            final(self).render_options() == old(self).render_options(),
    {
        self.cache.clear();
    }
}

/// The summaries of a descriptor sequence, in order.
pub open spec fn summaries_of(d: Seq<Metainfo>) -> Seq<ArticleSummary> {
    d.map_values(|m: Metainfo| summary_of(m))
}

/// The summaries found by resolving a list of ids against a descriptor
/// set, skipping ids the set does not hold.
pub open spec fn summaries_from(d: Seq<Metainfo>, ids: Seq<ArticleId>) -> Seq<ArticleSummary>
    decreases ids.len(),
{
    if ids.len() == 0 {
        Seq::empty()
    } else {
        summaries_from(d, ids.drop_last()) + (match lookup(d, ids.last()) {
            Some(m) => seq![summary_of(m)],
            None => Seq::empty(),
        })
    }
}

/// The summaries of the descriptors matching a search query, in
/// ascending id order.
pub open spec fn search_results(d: Seq<Metainfo>, q: Seq<char>) -> Seq<ArticleSummary>
    decreases d.len(),
{
    if d.len() == 0 {
        Seq::empty()
    } else {
        search_results(d.drop_last(), q) + (if matches_query(d.last(), q) {
            seq![summary_of(d.last())]
        } else {
            Seq::empty()
        })
    }
}

/// Resolving a contiguous run of the ascending id list yields exactly
/// the corresponding run of summaries.
proof fn lemma_summaries_from_subrange(d: Seq<Metainfo>, a: int, b: int)
    requires
        entries_ascending(d),
        0 <= a <= b <= d.len(),
    ensures
        summaries_from(d, ids_of(d).subrange(a, b)) == summaries_of(d).subrange(a, b),
    decreases b - a,
{
    if a == b {
        assert(ids_of(d).subrange(a, b) =~= Seq::<ArticleId>::empty());
        assert(summaries_from(d, ids_of(d).subrange(a, b)) =~= summaries_of(d).subrange(a, b));
    } else {
        let ids = ids_of(d).subrange(a, b);
        assert(ids.drop_last() =~= ids_of(d).subrange(a, b - 1));
        assert(ids.last() == ids_of(d)[b - 1]);
        assert(ids_of(d)[b - 1] == d[b - 1].id);
        lemma_lookup_at(d, b - 1);
        lemma_summaries_from_subrange(d, a, b - 1);
        assert(summaries_from(d, ids) == summaries_of(d).subrange(a, b - 1) + seq![
            summary_of(d[b - 1]),
        ]);
        assert(summaries_of(d).subrange(a, b) =~= summaries_of(d).subrange(a, b - 1) + seq![
            summary_of(d[b - 1]),
        ]) by {
            assert(summaries_of(d)[b - 1] == summary_of(d[b - 1]));
        }
    }
}

impl Articles {
    /// Summaries for a list of ids, resolved against the index in the
    /// given order; ids without an entry are skipped.
    fn get_summaries_from_ids(&self, ids: &Vec<ArticleId>) -> (r: Vec<ArticleSummary>)
        requires
            self.wf(),
        ensures
            r@ == summaries_from(self.descriptors(), ids@),
    {
        let mut out: Vec<ArticleSummary> = Vec::new();
        let n = ids.len();
        let mut i: usize = 0;
        while i < n
            invariant
                self.wf(),
                i <= n,
                n == ids@.len(),
                out@ == summaries_from(self.descriptors(), ids@.take(i as int)),
            decreases n - i,
        {
            let id = ids[i];
            match self.index.get_metainfo(id) {
                Some(m) => {
                    out.push(build_summary(&m));
                },
                None => {},
            }
            proof {
                assert(ids@.take(i + 1 as int).drop_last() =~= ids@.take(i as int));
                assert(ids@.take(i + 1 as int).last() == ids@[i as int]);
            }
            i += 1;
        }
        proof {
            assert(ids@.take(n as int) =~= ids@);
        }
        out
    }

    /// Summaries of all articles, ascending by id.
    pub fn list_article_summaries(&self) -> (r: Result<Vec<ArticleSummary>, EngineError>)
        requires
            self.wf(),
        ensures
            r matches Ok(v) && v@ == summaries_of(self.descriptors()),
    {
        let ids = self.index.get_all_ids();
        let v = self.get_summaries_from_ids(&ids);
        proof {
            self.index.lemma_wf_all_ids();
            let d = self.descriptors();
            assert(ids_of(d).subrange(0, d.len() as int) =~= ids_of(d));
            lemma_summaries_from_subrange(d, 0, d.len() as int);
            assert(summaries_of(d).subrange(0, d.len() as int) =~= summaries_of(d));
        }
        Ok(v)
    }

    /// One page of the summaries of all articles.
    pub fn list_article_summaries_paginated(&self, max_per_page: usize, page_number: usize) -> (r:
        Result<Vec<ArticleSummary>, EngineError>)
        requires
            self.wf(),
        ensures
            (r matches Err(e)) <==> (max_per_page > 0 && self.descriptors().len() > 0
                && page_number >= spec_page_count(
                self.descriptors().len(),
                max_per_page as nat,
            )),
            r matches Err(e) ==> e == EngineError::PageOutOfRange,
            r matches Ok(v) ==> v@ == spec_page(
                summaries_of(self.descriptors()),
                max_per_page as nat,
                page_number as nat,
            ),
    {
        let ids = self.index.get_all_ids();
        proof {
            self.index.lemma_wf_all_ids();
        }
        match Paginator::paginate(ids.as_slice(), max_per_page, page_number) {
            Err(e) => Err(e),
            Ok(None) => {
                proof {
                    assert(spec_page(
                        summaries_of(self.descriptors()),
                        max_per_page as nat,
                        page_number as nat,
                    ) =~= Seq::<ArticleSummary>::empty());
                }
                Ok(Vec::new())
            },
            Ok(Some(slice)) => {
                let page_ids = vstd::slice::slice_to_vec(slice);
                let v = self.get_summaries_from_ids(&page_ids);
                proof {
                    let d = self.descriptors();
                    let per = max_per_page as nat;
                    let page = page_number as nat;
                    let total = d.len();
                    if per == 0 || page * per >= total {
                        assert(slice@ =~= Seq::<ArticleId>::empty());
                        assert(summaries_from(d, slice@) =~= Seq::<ArticleSummary>::empty());
                        assert(spec_page(summaries_of(d), per, page) =~= Seq::<
                            ArticleSummary,
                        >::empty());
                    } else {
                        let a = (page * per) as int;
                        let b = if page * per + per <= total {
                            (page * per + per) as int
                        } else {
                            total as int
                        };
                        assert(slice@ == ids_of(d).subrange(a, b));
                        lemma_summaries_from_subrange(d, a, b);
                        assert(spec_page(summaries_of(d), per, page) == summaries_of(d).subrange(
                            a,
                            b,
                        ));
                    }
                }
                Ok(v)
            },
        }
    }

    /// Pages needed to list all articles at the given page size.
    pub fn get_article_summary_page_count(&self, max_per_page: usize) -> (r: usize)
        requires
            self.wf(),
        ensures
            r == spec_page_count(self.descriptors().len(), max_per_page as nat),
    {
        let ids = self.index.get_all_ids();
        proof {
            self.index.lemma_wf_all_ids();
        }
        Paginator::compute_total_pages(ids.len(), max_per_page)
    }

    /// Summaries of the articles carrying a tag, ascending by id; an
    /// unknown tag yields an empty list, not an error.
    pub fn list_article_summaries_by_tag(&self, tag: &str) -> (r: Result<
        Vec<ArticleSummary>,
        EngineError,
    >)
        requires
            self.wf(),
        ensures
            r matches Ok(v) && v@ == summaries_from(self.descriptors(), self.ids_for_tag(tag@)),
    {
        let ids = self.index.get_ids_by_tag(tag);
        Ok(self.get_summaries_from_ids(&ids))
    }

    /// One page of the summaries of the articles carrying a tag.
    pub fn list_article_summaries_by_tag_paginated(
        &self,
        tag: &str,
        max_per_page: usize,
        page_number: usize,
    ) -> (r: Result<Vec<ArticleSummary>, EngineError>)
        requires
            self.wf(),
        ensures
            (r matches Err(e)) <==> (max_per_page > 0 && self.ids_for_tag(tag@).len() > 0
                && page_number >= spec_page_count(
                self.ids_for_tag(tag@).len(),
                max_per_page as nat,
            )),
            r matches Err(e) ==> e == EngineError::PageOutOfRange,
            r matches Ok(v) ==> v@ == summaries_from(
                self.descriptors(),
                spec_page(self.ids_for_tag(tag@), max_per_page as nat, page_number as nat),
            ),
    {
        let ids = self.index.get_ids_by_tag(tag);
        match Paginator::paginate(ids.as_slice(), max_per_page, page_number) {
            Err(e) => Err(e),
            Ok(None) => {
                proof {
                    assert(spec_page(
                        self.ids_for_tag(tag@),
                        max_per_page as nat,
                        page_number as nat,
                    ) =~= Seq::<ArticleId>::empty());
                }
                Ok(Vec::new())
            },
            Ok(Some(slice)) => {
                let page_ids = vstd::slice::slice_to_vec(slice);
                Ok(self.get_summaries_from_ids(&page_ids))
            },
        }
    }

    /// Pages needed to list a tag's articles at the given page size.
    pub fn get_article_summary_by_tag_page_count(&self, tag: &str, max_per_page: usize) -> (r:
        usize)
        requires
            self.wf(),
        ensures
            r == spec_page_count(self.ids_for_tag(tag@).len(), max_per_page as nat),
    {
        let ids = self.index.get_ids_by_tag(tag);
        Paginator::compute_total_pages(ids.len(), max_per_page)
    }

    /// Case-sensitive substring search over titles and descriptions,
    /// scanning the full ascending id order; no match is an empty
    /// list, not an error.
    pub fn search_articles(&self, query: &str) -> (r: Result<Vec<ArticleSummary>, EngineError>)
        requires
            self.wf(),
        ensures
            r matches Ok(v) && v@ == search_results(self.descriptors(), query@),
    {
        let ids = self.index.get_all_ids();
        proof {
            self.index.lemma_wf_all_ids();
        }
        let mut out: Vec<ArticleSummary> = Vec::new();
        let n = ids.len();
        let mut i: usize = 0;
        while i < n
            invariant
                self.wf(),
                i <= n,
                n == ids@.len(),
                ids@ == ids_of(self.descriptors()),
                entries_ascending(self.descriptors()),
                n == self.descriptors().len(),
                out@ == search_results(self.descriptors().take(i as int), query@),
            decreases n - i,
        {
            let ghost d = self.descriptors();
            proof {
                lemma_lookup_at(d, i as int);
                assert(ids@[i as int] == d[i as int].id);
            }
            let m = self.index.get_metainfo(ids[i]).unwrap();
            proof {
                assert(m == d[i as int]);
                assert(d.take(i + 1 as int).drop_last() =~= d.take(i as int));
                assert(d.take(i + 1 as int).last() == d[i as int]);
            }
            if metainfo_matches(&m, query) {
                out.push(build_summary(&m));
            }
            i += 1;
        }
        proof {
            assert(self.descriptors().take(n as int) =~= self.descriptors());
        }
        Ok(out)
    }

    /// One page of the search results.
    pub fn search_articles_paginated(
        &self,
        query: &str,
        max_per_page: usize,
        page_number: usize,
    ) -> (r: Result<Vec<ArticleSummary>, EngineError>)
        requires
            self.wf(),
        ensures
            (r matches Err(e)) <==> (max_per_page > 0 && search_results(
                self.descriptors(),
                query@,
            ).len() > 0 && page_number >= spec_page_count(
                search_results(self.descriptors(), query@).len(),
                max_per_page as nat,
            )),
            r matches Err(e) ==> e == EngineError::PageOutOfRange,
            r matches Ok(v) ==> v@ == spec_page(
                search_results(self.descriptors(), query@),
                max_per_page as nat,
                page_number as nat,
            ),
    {
        let results = match self.search_articles(query) {
            Ok(v) => v,
            Err(e) => {
                return Err(e);
            },
        };
        match Paginator::paginate(results.as_slice(), max_per_page, page_number) {
            Err(e) => Err(e),
            Ok(None) => {
                proof {
                    assert(spec_page(
                        search_results(self.descriptors(), query@),
                        max_per_page as nat,
                        page_number as nat,
                    ) =~= Seq::<ArticleSummary>::empty());
                }
                Ok(Vec::new())
            },
            Ok(Some(slice)) => Ok(copy_summaries(slice)),
        }
    }

    /// Pages needed to list the search results at the given page size.
    pub fn get_search_article_page_count(&self, query: &str, max_per_page: usize) -> (r: usize)
        requires
            self.wf(),
        ensures
            r == spec_page_count(search_results(self.descriptors(), query@).len(), max_per_page as nat),
    {
        let results = match self.search_articles(query) {
            Ok(v) => v,
            Err(_) => {
                return 0;
            },
        };
        Paginator::compute_total_pages(results.len(), max_per_page)
    }
}

/// Copy a page of summaries, sharing their text buffers.
fn copy_summaries(s: &[ArticleSummary]) -> (r: Vec<ArticleSummary>)
    ensures
        r@ == s@,
{
    let mut r: Vec<ArticleSummary> = Vec::new();
    let n = s.len();
    let mut i: usize = 0;
    while i < n
        invariant
            i <= n,
            n == s@.len(),
            r@ == s@.take(i as int),
        decreases n - i,
    {
        let e = vstd::slice::slice_index_get(s, i);
        r.push(e.clone());
        proof {
            assert(s@.take(i + 1 as int) =~= s@.take(i as int).push(s@[i as int]));
        }
        i += 1;
    }
    proof {
        assert(s@.take(n as int) =~= s@);
    }
    r
}

} // verus!
