//! The pagination engine: the board index sorts threads by freshness,
//! newest first, and shows a fixed number per page; a requested page number
//! is clamped into range.

use crate::records::Thread;
use vstd::prelude::*;
use vstd::seq_lib::to_multiset_build;
use vstd::seq_lib::to_multiset_insert;

verus! {

/// Fixed number of threads shown on one page of the board index.
pub const PAGE_SIZE: u64 = 10;

/// How many pages `total` threads fill: the total divided by the page
/// size, rounded up.
pub open spec fn spec_total_pages(total: nat) -> nat {
    (total + 9) / 10
}

/// The page actually shown for a request: at least one, and no more than
/// the last page when there is any.
pub open spec fn spec_clamped_page(requested: int, total_pages: nat) -> nat {
    let p = if requested < 1 {
        1
    } else {
        requested
    };
    if total_pages > 0 && p > total_pages {
        total_pages
    } else {
        p as nat
    }
}

/// One page of the board index, described by its position in the full
/// recency-sorted list.
#[derive(Debug)]
pub struct PageSlice {
    /// The page shown, 1-based, after clamping.
    pub page: u64,
    /// How many pages the full list fills.
    pub total_pages: u64,
    /// Index of the first thread shown.
    pub start: u64,
    /// One past the index of the last thread shown.
    pub end: u64,
}

/// Where the requested page of a list of `total` threads begins and ends.
/// An empty list gives an empty page, never an error.
pub fn page_bounds(total: u64, requested: i64) -> (r: PageSlice)
    ensures
        r.total_pages as nat == spec_total_pages(total as nat),
        r.page as nat == spec_clamped_page(requested as int, spec_total_pages(total as nat)),
        r.start <= r.end <= total,
        r.end - r.start <= 10,
        r.total_pages > 0 ==> r.start == (r.page - 1) * 10 && (r.end == if r.start + 10 <= total {
            (r.start + 10) as u64
        } else {
            total
        }),
        r.total_pages == 0 ==> r.start == 0 && r.end == 0 && total == 0,
{
    let total_pages: u64 = total / PAGE_SIZE + (if total % PAGE_SIZE != 0 {
        1u64
    } else {
        0u64
    });
    proof {
        assert(total_pages as nat == spec_total_pages(total as nat));
    }
    let req: u64 = if requested < 1 {
        1u64
    } else {
        requested as u64
    };
    let page: u64 = if total_pages > 0 && req > total_pages {
        total_pages
    } else {
        req
    };
    if total_pages == 0 {
        PageSlice { page, total_pages, start: 0, end: 0 }
    } else {
        proof {
            assert(page >= 1);
            assert(page <= total_pages);
            assert((page - 1) * 10 <= (total_pages - 1) * 10) by (nonlinear_arith)
                requires
                    1 <= page <= total_pages,
            ;
            assert((total_pages - 1) * 10 < total) by {
                assert(total_pages as nat == (total as nat + 9) / 10);
                assert(((total as nat + 9) / 10) * 10 <= total as nat + 9) by (nonlinear_arith);
            }
        }
        let start: u64 = (page - 1) * 10;
        let end: u64 = if total - start > 10 {
            start + 10
        } else {
            total
        };
        PageSlice { page, total_pages, start, end }
    }
}

/// The threads of one page: the slice of the full list between the bounds.
pub fn page_items(threads: &Vec<Thread>, start: u64, end: u64) -> (r: Vec<Thread>)
    requires
        start <= end <= threads@.len(),
    ensures
        r@ == threads@.subrange(start as int, end as int),
{
    let mut out: Vec<Thread> = Vec::new();
    let n: usize = threads.len();
    proof {
        assert(end <= n);
    }
    let s: usize = start as usize;
    let e: usize = end as usize;
    let mut i: usize = s;
    proof {
        assert(out@ =~= threads@.subrange(s as int, s as int));
    }
    while i < e
        invariant
            s <= i <= e <= threads@.len(),
            out@ =~= threads@.subrange(s as int, i as int),
        decreases e - i,
    {
        let t = threads[i].duplicate();
        out.push(t);
        proof {
            assert(out@ =~= threads@.subrange(s as int, i as int + 1));
        }
        i = i + 1;
    }
    proof {
        assert(out@ =~= threads@.subrange(start as int, end as int));
    }
    out
}

/// Where `t` lands among already-ordered threads: after every thread at
/// least as fresh, before the rest, so threads with equal stamps keep
/// their order.
pub open spec fn insert_by_recency(s: Seq<Thread>, t: Thread) -> Seq<Thread>
    decreases s.len(),
{
    if s.len() > 0 && s[0]@.last_updated >= t@.last_updated {
        seq![s[0]] + insert_by_recency(s.drop_first(), t)
    } else {
        seq![t] + s
    }
}

/// The stable insertion sort of the list, newest first: a function of the
/// input alone, so one snapshot always pages the same way.
pub open spec fn spec_sort_by_recency(s: Seq<Thread>) -> Seq<Thread>
    decreases s.len(),
{
    if s.len() == 0 {
        Seq::<Thread>::empty()
    } else {
        insert_by_recency(spec_sort_by_recency(s.drop_last()), s.last())
    }
}

/// Inserting after the first `pos` threads, all at least as fresh, with
/// whatever follows strictly staler, is what `insert_by_recency` does.
proof fn lemma_insert_by_recency_at(s: Seq<Thread>, t: Thread, pos: int)
    requires
        0 <= pos <= s.len(),
        forall|q: int| 0 <= q < pos ==> #[trigger] s[q]@.last_updated >= t@.last_updated,
        pos < s.len() ==> s[pos]@.last_updated < t@.last_updated,
    ensures
        insert_by_recency(s, t) == s.insert(pos, t),
    decreases pos,
{
    if pos == 0 {
        assert(insert_by_recency(s, t) =~= s.insert(0, t));
    } else {
        assert(s[0]@.last_updated >= t@.last_updated);
        lemma_insert_by_recency_at(s.drop_first(), t, pos - 1);
        assert(insert_by_recency(s, t) == seq![s[0]] + s.drop_first().insert(pos - 1, t));
        assert(seq![s[0]] + s.drop_first().insert(pos - 1, t) =~= s.insert(pos, t));
    }
}

/// Whether `s` is ordered by freshness, newest first.
pub open spec fn sorted_by_recency(s: Seq<Thread>) -> bool {
    forall|i: int, j: int|
        0 <= i <= j < s.len() ==> #[trigger] s[i]@.last_updated >= #[trigger] s[j]@.last_updated
}

/// The full list ordered by freshness, newest first: the same threads,
/// stably sorted — the exact result is pinned, so it is deterministic for
/// a given input.
pub fn sort_by_recency(threads: &Vec<Thread>) -> (r: Vec<Thread>)
    ensures
        sorted_by_recency(r@),
        r@.to_multiset() == threads@.to_multiset(),
        r@ == spec_sort_by_recency(threads@),
{
    let mut out: Vec<Thread> = Vec::new();
    let mut i: usize = 0;
    proof {
        assert(threads@.take(0) =~= out@);
    }
    while i < threads.len()
        invariant
            i <= threads@.len(),
            sorted_by_recency(out@),
            out@.to_multiset() == threads@.take(i as int).to_multiset(),
            out@ == spec_sort_by_recency(threads@.take(i as int)),
        decreases threads@.len() - i,
    {
        let t = threads[i].duplicate();
        let mut pos: usize = 0;
        while pos < out.len() && out[pos].last_updated >= t.last_updated
            invariant
                pos <= out@.len(),
                forall|q: int| 0 <= q < pos ==> #[trigger] out@[q]@.last_updated >= t@.last_updated,
                sorted_by_recency(out@),
            decreases out@.len() - pos,
        {
            pos = pos + 1;
        }
        let ghost before = out@;
        out.insert(pos, t);
        proof {
            lemma_insert_by_recency_at(before, t, pos as int);
            assert(threads@.take(i as int + 1).drop_last() =~= threads@.take(i as int));
            assert(threads@.take(i as int + 1).last() == threads@[i as int]);
            assert(out@ == spec_sort_by_recency(threads@.take(i as int + 1)));
            assert forall|a: int, b: int| 0 <= a <= b < out@.len() implies #[trigger] out@[a]@.last_updated
                >= #[trigger] out@[b]@.last_updated by {
                if a < pos && b == pos {
                    assert(out@[a] == before[a]);
                } else if a == pos && b > pos {
                    assert(out@[b] == before[b - 1]);
                    assert(before[pos as int]@.last_updated < t@.last_updated || pos
                        == before.len());
                }
            }
            to_multiset_insert(before, pos as int, t);
            assert(threads@.take(i as int + 1) =~= threads@.take(i as int).push(threads@[i as int]));
            to_multiset_build(threads@.take(i as int), threads@[i as int]);
        }
        i = i + 1;
    }
    proof {
        assert(threads@.take(threads@.len() as int) =~= threads@);
    }
    out
}

} // verus!
