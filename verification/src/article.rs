//! Article values: metadata descriptors, full articles and summaries.
//!
//! Text fields are shared, read-only and reference-counted: listing
//! operations touch every descriptor, and copying whole strings on each
//! read would be wasteful.  Cloning any of these values only bumps
//! reference counts.

use vstd::prelude::*;

verus! {

/// A unique identifier for articles: the numeric name of the article's
/// source directory.  The id `0` is reserved for an optional built-in
/// sample article injected purely in memory.
pub type ArticleId = i32;

/// The reserved identifier of the built-in sample article.
pub const SAMPLE_ARTICLE_ID: ArticleId = 0;

/// Relies on `std::sync::Arc::clone`: the returned handle shares the
/// same allocation as `a`, so it carries the same value.
#[verifier::external_body]
pub fn arc_clone<T>(a: &std::sync::Arc<T>) -> (r: std::sync::Arc<T>)
    ensures
        r == *a,
{
    std::sync::Arc::clone(a)
}

/// Relies on `std::sync::Arc`'s `Deref` impl: borrowing through the
/// handle yields the shared value.
#[verifier::external_body]
pub fn arc_get<'a, T>(a: &'a std::sync::Arc<T>) -> (r: &'a T)
    ensures
        *r == **a,
{
    &**a
}

/// Metadata describing one article, as read from its metadata record.
/// Everything the index needs, without the body content.
pub struct Metainfo {
    pub id: ArticleId,
    pub title: std::sync::Arc<String>,
    pub description: std::sync::Arc<String>,
    /// Path of the body file, relative to the article's directory.
    pub markdown_path: std::sync::Arc<String>,
    /// Date encoded as an 8-digit YYYYMMDD number.
    pub date: u32,
    pub tags: std::sync::Arc<Vec<String>>,
    pub keywords: std::sync::Arc<Vec<String>>,
}

/// A full article: a descriptor combined with rendered body content.
pub struct Article {
    pub id: ArticleId,
    pub title: std::sync::Arc<String>,
    pub description: std::sync::Arc<String>,
    pub content: std::sync::Arc<String>,
    pub date: u32,
    pub tags: std::sync::Arc<Vec<String>>,
    pub keywords: std::sync::Arc<Vec<String>>,
}

/// A lighter view of an article: everything but the body content.
pub struct ArticleSummary {
    pub id: ArticleId,
    pub title: std::sync::Arc<String>,
    pub description: std::sync::Arc<String>,
    pub date: u32,
    pub tags: std::sync::Arc<Vec<String>>,
    pub keywords: std::sync::Arc<Vec<String>>,
}

/// Whether a fetched article came out of the cache or was freshly
/// loaded.
#[derive(Clone, Copy, Debug, PartialEq, Eq, Structural)]
pub enum CachedStatus {
    Cached,
    NotCached,
}

/// The summary that belongs to a descriptor: the same fields minus the
/// body.
pub open spec fn summary_of(m: Metainfo) -> ArticleSummary {
    ArticleSummary {
        id: m.id,
        title: m.title,
        description: m.description,
        date: m.date,
        tags: m.tags,
        keywords: m.keywords,
    }
}

/// The article that a descriptor and a rendered body make up together.
pub open spec fn article_of(m: Metainfo, content: std::sync::Arc<String>) -> Article {
    Article {
        id: m.id,
        title: m.title,
        description: m.description,
        content: content,
        date: m.date,
        tags: m.tags,
        keywords: m.keywords,
    }
}

/// Whether the descriptor carries the given tag text.
pub open spec fn has_tag(m: Metainfo, tag: Seq<char>) -> bool {
    exists|i: int| 0 <= i < m.tags@.len() && m.tags@[i]@ == tag
}

impl Clone for Metainfo {
    /// Cloning shares every text buffer; the copy equals the original.
    fn clone(&self) -> (r: Self)
        ensures
            r == *self,
    {
        Metainfo {
            id: self.id,
            title: arc_clone(&self.title),
            description: arc_clone(&self.description),
            markdown_path: arc_clone(&self.markdown_path),
            date: self.date,
            tags: arc_clone(&self.tags),
            keywords: arc_clone(&self.keywords),
        }
    }
}

impl Clone for Article {
    /// Cloning shares every text buffer; the copy equals the original.
    fn clone(&self) -> (r: Self)
        ensures
            r == *self,
    {
        Article {
            id: self.id,
            title: arc_clone(&self.title),
            description: arc_clone(&self.description),
            content: arc_clone(&self.content),
            date: self.date,
            tags: arc_clone(&self.tags),
            keywords: arc_clone(&self.keywords),
        }
    }
}

impl Clone for ArticleSummary {
    /// Cloning shares every text buffer; the copy equals the original.
    fn clone(&self) -> (r: Self)
        ensures
            r == *self,
    {
        ArticleSummary {
            id: self.id,
            title: arc_clone(&self.title),
            description: arc_clone(&self.description),
            date: self.date,
            tags: arc_clone(&self.tags),
            keywords: arc_clone(&self.keywords),
        }
    }
}

/// Build the summary of a descriptor, sharing its text buffers.
pub fn build_summary(m: &Metainfo) -> (r: ArticleSummary)
    ensures
        r == summary_of(*m),
{
    ArticleSummary {
        id: m.id,
        title: arc_clone(&m.title),
        description: arc_clone(&m.description),
        date: m.date,
        tags: arc_clone(&m.tags),
        keywords: arc_clone(&m.keywords),
    }
}

} // verus!
