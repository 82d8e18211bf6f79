//! Pure pagination over ordered sequences.
//!
//! Page `p` of a sequence of `total` items, with `per` items per page,
//! covers the zero-based positions `[p * per, min((p + 1) * per, total))`.
//! A page size of zero yields no pages and an empty result rather than an
//! error; asking for a page at or past the page count of a non-empty
//! collection is an error.

use vstd::prelude::*;

use crate::errors::EngineError;

verus! {

/// How many pages are needed to hold `total` items at `per` items per
/// page: `ceil(total / per)`, or zero when there is nothing to hold or no
/// page may hold anything.
pub open spec fn spec_page_count(total: nat, per: nat) -> nat {
    if total == 0 || per == 0 {
        0
    } else {
        total / per + if total % per != 0 {
            1nat
        } else {
            0nat
        }
    }
}

/// The contents of page `page`: the slice of `data` between position
/// `page * per` and the end of the page or of the data, whichever comes
/// first.  Empty when the page starts at or past the end.
pub open spec fn spec_page<T>(data: Seq<T>, per: nat, page: nat) -> Seq<T> {
    if per == 0 || page * per >= data.len() {
        Seq::empty()
    } else if page * per + per <= data.len() {
        data.subrange((page * per) as int, (page * per + per) as int)
    } else {
        data.subrange((page * per) as int, data.len() as int)
    }
}

/// Helper for slicing ordered collections into fixed-size pages.
pub struct Paginator;

impl Paginator {
    /// Number of pages needed to hold `total_items` items with the given
    /// `max_per_page`.
    pub fn compute_total_pages(total_items: usize, max_per_page: usize) -> (r: usize)
        ensures
            r == spec_page_count(total_items as nat, max_per_page as nat),
    {
        if total_items == 0 || max_per_page == 0 {
            0
        } else {
            let q = total_items / max_per_page;
            let rem = total_items % max_per_page;
            if rem != 0 {
                assert(q < total_items) by (nonlinear_arith)
                    requires
                        max_per_page >= 1 && total_items >= 1 && q == total_items / max_per_page
                            && rem == total_items % max_per_page && rem != 0,
                ;
                q + 1
            } else {
                q
            }
        }
    }

    /// The sub-slice of `data` that makes up page `page_number`, or
    /// `None` when the page size is zero.  Fails with `PageOutOfRange`
    /// exactly when the collection is non-empty, the page size is
    /// positive, and the page index is at or past the page count.
    pub fn paginate<'a, T>(data: &'a [T], max_per_page: usize, page_number: usize) -> (r: Result<
        Option<&'a [T]>,
        EngineError,
    >)
        ensures
            (r matches Err(e) && e == EngineError::PageOutOfRange) <==> (max_per_page > 0
                && data@.len() > 0 && page_number >= spec_page_count(
                data@.len(),
                max_per_page as nat,
            )),
            max_per_page == 0 ==> (r matches Ok(p) && p is None),
            r matches Ok(Some(s)) ==> s@ == spec_page(
                data@,
                max_per_page as nat,
                page_number as nat,
            ),
            max_per_page > 0 && (data@.len() == 0 || page_number < spec_page_count(
                data@.len(),
                max_per_page as nat,
            )) ==> r matches Ok(Some(s)),
    {
        if max_per_page == 0 {
            return Ok(None);
        }
        let total_items = data.len();
        let total_pages = Self::compute_total_pages(total_items, max_per_page);

        if total_items == 0 {
            let empty = vstd::slice::slice_subrange(data, 0, 0);
            return Ok(Some(empty));
        }
        proof {
            lemma_page_count_pos(total_items as nat, max_per_page as nat);
        }
        if page_number >= total_pages {
            return Err(EngineError::PageOutOfRange);
        }

        // Here page_number < total_pages, so the page starts inside the data.
        proof {
            lemma_page_start_in_bounds(
                total_items as nat,
                max_per_page as nat,
                page_number as nat,
            );
        }
        let start = page_number * max_per_page;
        let remaining = total_items - start;
        let len = if max_per_page < remaining {
            max_per_page
        } else {
            remaining
        };
        let page = vstd::slice::slice_subrange(data, start, start + len);
        Ok(Some(page))
    }
}

/// A non-empty collection with a positive page size needs at least one
/// page.
proof fn lemma_page_count_pos(total: nat, per: nat)
    requires
        total > 0,
        per > 0,
    ensures
        spec_page_count(total, per) > 0,
{
    let q = total / per;
    let rem = total % per;
    assert(total == q * per + rem && rem < per) by (nonlinear_arith)
        requires
            per > 0 && q == total / per && rem == total % per,
    ;
    if rem == 0 {
        assert(q > 0) by (nonlinear_arith)
            requires
                q * per == total && total > 0,
        ;
    }
}

/// Any page index below the page count starts strictly inside the data.
proof fn lemma_page_start_in_bounds(total: nat, per: nat, page: nat)
    requires
        total > 0,
        per > 0,
        page < spec_page_count(total, per),
    ensures
        page * per < total,
{
    let q = total / per;
    let rem = total % per;
    assert(total == q * per + rem && rem < per) by (nonlinear_arith)
        requires
            per > 0 && q == total / per && rem == total % per,
    ;
    if rem != 0 {
        // page <= q, so page * per <= q * per = total - rem < total.
        assert(page * per <= q * per) by (nonlinear_arith)
            requires
                page <= q,
        ;
    } else {
        // page <= q - 1, so page * per <= (q - 1) * per = total - per < total.
        assert(page * per <= (q - 1) * per) by (nonlinear_arith)
            requires
                page <= q - 1,
        ;
        assert((q - 1) * per == q * per - per) by (nonlinear_arith);
    }
}

} // verus!
