//! The item store: discovery of article directories and assembly of
//! articles from their body files.
//!
//! Filesystem access stays with the caller, which hands in directory
//! listings and file contents as plain values; everything decided here
//! — which directories count as articles, how a body and a descriptor
//! combine, which failure each missing piece produces — is verified.

use vstd::prelude::*;
use vstd::string::StrSliceExecFns;

use crate::article::{arc_clone, has_tag, Article, ArticleId, Metainfo};
use crate::errors::EngineError;
use crate::metadata::{
    id_text_value, meta_from_raw, parse_article_id, parse_metainfo, raw_complete,
    toml_article_fields,
};
use crate::render::{render_markdown, rendered};

verus! {

/// One directory entry of the source root, as the caller saw it:
/// the entry's name, and the text of its metadata record when the
/// entry is a directory holding one.
pub struct ScanEntry {
    pub name: String,
    pub metainfo: Option<String>,
}

/// What the caller found when probing for an article's body file.
pub enum BodyFile {
    /// The article's directory no longer exists.
    DirectoryMissing,
    /// The directory exists but the body file named by the metadata
    /// record does not.
    FileMissing,
    /// The body file's text.
    Content(String),
}

/// The article shares every descriptor field; only the body content is
/// its own.
pub open spec fn article_matches_meta(a: Article, m: Metainfo) -> bool {
    &&& a.id == m.id
    &&& a.title == m.title
    &&& a.description == m.description
    &&& a.date == m.date
    &&& a.tags == m.tags
    &&& a.keywords == m.keywords
}

/// Whether a scan accepts the entry: it carries a metadata record
/// whose fields are complete and whose embedded id is exactly the
/// number the entry's name denotes.
pub open spec fn scan_accepts(e: ScanEntry) -> bool {
    e.metainfo matches Some(text) && (toml_article_fields(text@) matches Some(raw)
        && raw_complete(raw) && (raw.id matches Some(x) && id_text_value(e.name@) == Some(
        x as int,
    )))
}

/// The descriptor a scan produces for the entry: the fields of the
/// entry's record.
pub open spec fn scan_descriptor(e: ScanEntry, m: Metainfo) -> bool {
    e.metainfo matches Some(text) && (toml_article_fields(text@) matches Some(raw)
        && meta_from_raw(m, raw))
}

/// The accepted entries of a scan listing, in listing order.
pub open spec fn accepted_entries(es: Seq<ScanEntry>) -> Seq<ScanEntry>
    decreases es.len(),
{
    if es.len() == 0 {
        Seq::empty()
    } else {
        accepted_entries(es.drop_last()) + (if scan_accepts(es.last()) {
            seq![es.last()]
        } else {
            Seq::empty()
        })
    }
}

/// An accepted entry names the id of the descriptor it yields.
pub proof fn lemma_scan_id(e: ScanEntry, m: Metainfo)
    requires
        scan_accepts(e),
        scan_descriptor(e, m),
    ensures
        id_text_value(e.name@) == Some(m.id as int),
{
}

/// Two descriptors read from the same entry's record carry the same id
/// and the same tags.
pub proof fn lemma_scan_descriptor_agree(e: ScanEntry, a: Metainfo, b: Metainfo)
    requires
        scan_descriptor(e, a),
        scan_descriptor(e, b),
    ensures
        a.id == b.id,
        forall|tag: Seq<char>| has_tag(a, tag) <==> has_tag(b, tag),
{
    let raw = toml_article_fields(e.metainfo->Some_0@)->Some_0;
    assert(raw.id == Some(a.id as i64) && raw.id == Some(b.id as i64));
    let ts = raw.tags->Some_0;
    assert forall|tag: Seq<char>| has_tag(a, tag) <==> has_tag(b, tag) by {
        if has_tag(a, tag) {
            let i = choose|i: int| 0 <= i < a.tags@.len() && a.tags@[i]@ == tag;
            assert(a.tags@[i] == ts@[i]->Some_0);
            assert(b.tags@[i] == ts@[i]->Some_0);
            assert(b.tags@[i]@ == tag);
            assert(has_tag(b, tag));
        }
        if has_tag(b, tag) {
            let i = choose|i: int| 0 <= i < b.tags@.len() && b.tags@[i]@ == tag;
            assert(b.tags@[i] == ts@[i]->Some_0);
            assert(a.tags@[i] == ts@[i]->Some_0);
            assert(a.tags@[i]@ == tag);
            assert(has_tag(a, tag));
        }
    }
}

/// The position of the last entry in the listing whose name denotes
/// the given number.
pub proof fn lemma_last_index_with(s: Seq<ScanEntry>, v: int) -> (j: int)
    requires
        exists|j0: int| 0 <= j0 < s.len() && id_text_value((#[trigger] s[j0]).name@) == Some(v),
    ensures
        0 <= j < s.len(),
        id_text_value(s[j].name@) == Some(v),
        forall|j2: int| j < j2 < s.len() ==> id_text_value((#[trigger] s[j2]).name@) != Some(v),
    decreases s.len(),
{
    if id_text_value(s.last().name@) == Some(v) {
        s.len() - 1
    } else {
        let j0 = choose|j0: int| 0 <= j0 < s.len() && id_text_value((#[trigger] s[j0]).name@)
            == Some(v);
        let dd = s.drop_last();
        assert(j0 < s.len() - 1);
        assert(dd[j0] == s[j0]);
        let j = lemma_last_index_with(dd, v);
        assert(s[j] == dd[j]);
        assert forall|j2: int|
            j < j2 < s.len() implies id_text_value((#[trigger] s[j2]).name@) != Some(v) by {
            if j2 < s.len() - 1 {
                assert(s[j2] == dd[j2]);
            } else {
                assert(s[j2] == s.last());
            }
        }
        j
    }
}

/// The accepted entries are exactly the entries the scan accepts, each
/// kept once in order.
pub proof fn lemma_accepted_entries(es: Seq<ScanEntry>)
    ensures
        forall|j: int|
            0 <= j < accepted_entries(es).len() ==> scan_accepts(
                #[trigger] accepted_entries(es)[j],
            ) && es.contains(accepted_entries(es)[j]),
        forall|i: int|
            0 <= i < es.len() && scan_accepts(#[trigger] es[i]) ==> accepted_entries(es).contains(
                es[i],
            ),
    decreases es.len(),
{
    if es.len() > 0 {
        let dd = es.drop_last();
        lemma_accepted_entries(dd);
        let pre = accepted_entries(dd);
        let acc = accepted_entries(es);
        assert forall|j: int|
            0 <= j < acc.len() implies scan_accepts(#[trigger] acc[j]) && es.contains(acc[j]) by {
            if j < pre.len() {
                assert(acc[j] == pre[j]);
                assert(dd.contains(pre[j]));
                let i = choose|i: int| 0 <= i < dd.len() && dd[i] == pre[j];
                assert(es[i] == pre[j]);
            } else {
                assert(acc[j] == es.last());
                assert(es[es.len() - 1] == es.last());
            }
        }
        assert forall|i: int|
            0 <= i < es.len() && scan_accepts(#[trigger] es[i]) implies acc.contains(es[i]) by {
            if i < es.len() - 1 {
                assert(dd[i] == es[i]);
                assert(pre.contains(es[i]));
                let j = choose|j: int| 0 <= j < pre.len() && pre[j] == es[i];
                assert(acc[j] == es[i]);
            } else {
                assert(acc[acc.len() - 1] == es.last());
            }
        }
    }
}

/// Loads articles from the backing directory tree.
pub struct ArticleStorage {
    /// Root directory that holds one subdirectory per article.
    pub source_dir: String,
    /// Whether body text is rendered to markup, or passed through
    /// unchanged.
    pub render_markdown: bool,
    /// The option set handed to the renderer, carried through unread.
    pub options: comrak::Options<'static>,
}

impl ArticleStorage {
    /// A store over the given root, with the given render policy.
    pub fn new(source_dir: String, render_markdown: bool, options: comrak::Options<'static>) -> (r:
        ArticleStorage)
        ensures
            r.source_dir == source_dir,
            r.render_markdown == render_markdown,
    {
        ArticleStorage { source_dir, render_markdown, options }
    }

    /// Combine a descriptor with its body file into a full article,
    /// rendering the body when rendering is on.  Each way the
    /// filesystem can fall short maps to its own failure.
    pub fn load_article(&self, metainfo: &Metainfo, body: BodyFile) -> (r: Result<
        Article,
        EngineError,
    >)
        ensures
            body is DirectoryMissing ==> r == Err::<Article, EngineError>(
                EngineError::ItemDirectoryMissing,
            ),
            body is FileMissing ==> r == Err::<Article, EngineError>(EngineError::MissingBodyFile),
            body matches BodyFile::Content(s) ==> (r matches Ok(a) && article_matches_meta(
                a,
                *metainfo,
            ) && a.content@ == (if self.render_markdown {
                rendered(s@, self.options)
            } else {
                s@
            })),
    {
        match body {
            BodyFile::DirectoryMissing => Err(EngineError::ItemDirectoryMissing),
            BodyFile::FileMissing => Err(EngineError::MissingBodyFile),
            BodyFile::Content(s) => {
                let content = if self.render_markdown {
                    render_markdown(s.as_str(), &self.options)
                } else {
                    s
                };
                Ok(
                    Article {
                        id: metainfo.id,
                        title: arc_clone(&metainfo.title),
                        description: arc_clone(&metainfo.description),
                        content: std::sync::Arc::new(content),
                        date: metainfo.date,
                        tags: arc_clone(&metainfo.tags),
                        keywords: arc_clone(&metainfo.keywords),
                    },
                )
            },
        }
    }

    /// Read descriptors out of a scan of the source root: exactly one
    /// descriptor, carrying the record's fields, for each accepted
    /// entry, in listing order.  An entry whose name is not a
    /// well-formed id, which has no metadata record, whose record
    /// fails to parse, or whose record's id disagrees with the
    /// directory name is skipped silently: one bad item never aborts
    /// the scan.
    pub fn scan_articles(&self, entries: &Vec<ScanEntry>) -> (r: Vec<Metainfo>)
        ensures
            r@.len() == accepted_entries(entries@).len(),
            forall|j: int|
                0 <= j < r@.len() ==> scan_descriptor(
                    accepted_entries(entries@)[j],
                    #[trigger] r@[j],
                ),
    {
        let mut out: Vec<Metainfo> = Vec::new();
        let n = entries.len();
        let mut i: usize = 0;
        while i < n
            invariant
                i <= n,
                n == entries@.len(),
                out@.len() == accepted_entries(entries@.take(i as int)).len(),
                forall|j: int|
                    0 <= j < out@.len() ==> scan_descriptor(
                        accepted_entries(entries@.take(i as int))[j],
                        #[trigger] out@[j],
                    ),
            decreases n - i,
        {
            let ghost prefix = entries@.take(i as int);
            let ghost prefix_next = entries@.take(i + 1 as int);
            proof {
                assert(prefix_next.drop_last() =~= prefix);
                assert(prefix_next.last() == entries@[i as int]);
            }
            let e = &entries[i];
            let ghost ee = entries@[i as int];
            let mut taken = false;
            match parse_article_id(e.name.as_str()) {
                Some(id) => {
                    match &e.metainfo {
                        Some(text) => {
                            match parse_metainfo(text.as_str()) {
                                Ok(m) => {
                                    if m.id == id {
                                        proof {
                                            assert(scan_accepts(ee) && scan_descriptor(ee, m)) by {
                                                let raw = toml_article_fields(text@)->Some_0;
                                                assert(raw.id == Some(m.id as i64));
                                                assert(id_text_value(ee.name@) == Some(
                                                    m.id as int,
                                                ));
                                            }
                                        }
                                        out.push(m);
                                        taken = true;
                                    } else {
                                        proof {
                                            assert(!scan_accepts(ee)) by {
                                                if scan_accepts(ee) {
                                                    let raw = toml_article_fields(text@)->Some_0;
                                                    assert(raw.id == Some(m.id as i64));
                                                    assert(id_text_value(ee.name@) == Some(
                                                        m.id as int,
                                                    ));
                                                    assert(id_text_value(ee.name@) == Some(
                                                        id as int,
                                                    ));
                                                }
                                            }
                                        }
                                    }
                                },
                                Err(_) => {
                                    proof {
                                        assert(!scan_accepts(ee)) by {
                                            if scan_accepts(ee) {
                                                assert(toml_article_fields(text@) matches Some(
                                                    raw,
                                                ) && raw_complete(raw));
                                            }
                                        }
                                    }
                                },
                            }
                        },
                        None => {
                            proof {
                                assert(!scan_accepts(ee));
                            }
                        },
                    }
                },
                None => {
                    proof {
                        assert(!scan_accepts(ee)) by {
                            if scan_accepts(ee) {
                                let raw = toml_article_fields(
                                    ee.metainfo->Some_0@,
                                )->Some_0;
                                let x = raw.id->Some_0;
                                assert(i32::MIN <= x <= i32::MAX);
                                assert(id_text_value(ee.name@) == Some(x as int));
                            }
                        }
                    }
                },
            }
            proof {
                if taken {
                    assert(accepted_entries(prefix_next) =~= accepted_entries(prefix).push(ee));
                } else {
                    assert(accepted_entries(prefix_next) =~= accepted_entries(prefix));
                }
            }
            i += 1;
        }
        proof {
            assert(entries@.take(n as int) =~= entries@);
        }
        out
    }
}

} // verus!
