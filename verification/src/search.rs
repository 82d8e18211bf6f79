//! Text matching: exact equality and substring search over titles,
//! descriptions and tags.

use vstd::prelude::*;
use vstd::string::StrSliceExecFns;

use crate::article::{arc_get, Metainfo};

verus! {

/// Relies on `str`'s `PartialEq` impl: two string slices are equal
/// exactly when their character sequences are.
#[verifier::external_body]
pub fn str_eq(a: &str, b: &str) -> (r: bool)
    ensures
        r == (a@ == b@),
{
    a == b
}

/// The needle occurs contiguously somewhere in the haystack.  The
/// empty needle occurs in everything.
pub open spec fn contains_sub(h: Seq<char>, n: Seq<char>) -> bool {
    exists|i: int| 0 <= i <= h.len() - n.len() && #[trigger] h.subrange(i, i + n.len()) == n
}

/// Whether the needle matches the haystack at position `i`.
fn match_at(hay: &str, i: usize, needle: &str) -> (r: bool)
    requires
        i + needle@.len() <= hay@.len(),
    ensures
        r == (hay@.subrange(i as int, i as int + needle@.len() as int) == needle@),
{
    let nl = needle.unicode_len();
    let hl = hay.unicode_len();
    let ghost window = hay@.subrange(i as int, i as int + needle@.len() as int);
    let mut j: usize = 0;
    while j < nl
        invariant
            j <= nl,
            nl == needle@.len(),
            hl == hay@.len(),
            i + nl <= hay@.len(),
            window == hay@.subrange(i as int, i as int + nl as int),
            forall|q: int| 0 <= q < j ==> hay@[i + q] == needle@[q],
        decreases nl - j,
    {
        let hc = hay.get_char(i + j);
        let nc = needle.get_char(j);
        if hc != nc {
            proof {
                assert(window[j as int] == hay@[i + j]);
                assert(window != needle@);
            }
            return false;
        }
        j += 1;
    }
    proof {
        assert(window =~= needle@);
    }
    true
}

/// Case-sensitive substring search.
pub fn contains_substring(hay: &str, needle: &str) -> (r: bool)
    ensures
        r == contains_sub(hay@, needle@),
{
    let hl = hay.unicode_len();
    let nl = needle.unicode_len();
    if nl > hl {
        return false;
    }
    let bound = hl - nl;
    let mut i: usize = 0;
    while i <= bound
        invariant
            nl <= hl,
            bound == hl - nl,
            hl == hay@.len(),
            nl == needle@.len(),
            i <= bound + 1,
            forall|p: int| 0 <= p < i ==> #[trigger] hay@.subrange(p, p + nl as int) != needle@,
        decreases bound - i + 1,
    {
        if match_at(hay, i, needle) {
            proof {
                assert(contains_sub(hay@, needle@)) by {
                    assert(hay@.subrange(i as int, i as int + needle@.len() as int) == needle@);
                }
            }
            return true;
        }
        proof {
            // The empty needle matches everywhere, so a failed match
            // means the needle is non-empty and the scan stays in
            // bounds.
            assert(nl >= 1) by {
                if nl == 0 {
                    assert(hay@.subrange(i as int, i as int + nl as int) =~= needle@);
                }
            }
        }
        i += 1;
    }
    proof {
        assert(!contains_sub(hay@, needle@)) by {
            if contains_sub(hay@, needle@) {
                let p = choose|p: int|
                    0 <= p <= hay@.len() - needle@.len() && #[trigger] hay@.subrange(
                        p,
                        p + needle@.len(),
                    ) == needle@;
                assert(p < i);
            }
        }
    }
    false
}

/// The query occurs in the descriptor's title or description.
pub open spec fn matches_query(m: Metainfo, q: Seq<char>) -> bool {
    contains_sub(m.title@, q) || contains_sub(m.description@, q)
}

/// Whether a descriptor matches a search query.
pub fn metainfo_matches(m: &Metainfo, query: &str) -> (r: bool)
    ensures
        r == matches_query(*m, query@),
{
    let title = arc_get(&m.title);
    if contains_substring(title.as_str(), query) {
        return true;
    }
    let description = arc_get(&m.description);
    contains_substring(description.as_str(), query)
}

} // verus!
