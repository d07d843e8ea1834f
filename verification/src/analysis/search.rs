//! The bookkeeping of a binary search for a smallest size.

use vstd::prelude::*;

verus! {

/// The sizes that a search still has to try, from `left` up to but not
/// including `end`, and the smallest size found to work so far.
#[derive(Debug, Clone, Copy, PartialEq, Eq, Structural)]
pub struct SizeSearch {
    pub left: usize,
    pub end: usize,
    pub best: Option<usize>,
}

/// The size that the search arrives at from the sizes `left` up to but not
/// including `end` and the best size `best` so far, where `works` says
/// which sizes work: it tries the middle of the sizes left, goes on below
/// it where it works and above it where it does not, and ends with the
/// last size that worked.
pub open spec fn found_by_search(
    works: spec_fn(int) -> bool,
    left: int,
    end: int,
    best: Option<int>,
) -> Option<int>
    decreases end - left,
{
    if left >= end {
        best
    } else {
        let mid = left + (end - left) / 2;
        if works(mid) {
            found_by_search(works, left, mid, Some(mid))
        } else {
            found_by_search(works, mid + 1, end, best)
        }
    }
}

/// Between the sizes `low` and `high` lies one that does not work.
pub open spec fn gap_between(works: spec_fn(int) -> bool, low: int, high: int) -> bool {
    exists|m: int| low < m < high && !#[trigger] works(m)
}

/// What the search finds from the sizes `left` up to but not including
/// `end`, where every size below `left` that works has a gap between it and
/// `left`, and the best size so far, if there is one, is `end` and works: a
/// size that works, below `end` unless it is the best so far, with a gap
/// between it and every smaller size that works; or none, and then every
/// size below `end` that works has a gap above it.
pub proof fn lemma_search_from(
    works: spec_fn(int) -> bool,
    left: int,
    end: int,
    best: Option<int>,
)
    requires
        0 <= left <= end,
        best matches Some(b) ==> b == end && works(b),
        forall|k: int| 0 <= k < left && #[trigger] works(k) ==> gap_between(works, k, left),
    ensures
        found_by_search(works, left, end, best) matches Some(size) ==> left <= size <= end && works(
            size,
        ) && forall|k: int| 0 <= k < size && #[trigger] works(k) ==> gap_between(works, k, size),
        found_by_search(works, left, end, best) matches Some(size) ==> best is None ==> size < end,
        found_by_search(works, left, end, best) is None ==> best is None && forall|k: int|
            0 <= k < end && #[trigger] works(k) ==> gap_between(works, k, end),
    decreases end - left,
{
    if left < end {
        let mid = left + (end - left) / 2;
        if works(mid) {
            lemma_search_from(works, left, mid, Some(mid));
        } else {
            assert forall|k: int| 0 <= k < mid + 1 && #[trigger] works(k) implies gap_between(
                works,
                k,
                mid + 1,
            ) by {
                if k < left {
                    let m = choose|m: int| k < m < left && !#[trigger] works(m);
                    assert(k < m < mid + 1 && !works(m));
                } else {
                    assert(k < mid < mid + 1 && !works(mid));
                }
            }
            lemma_search_from(works, mid + 1, end, best);
        }
    }
}

/// What a search over the sizes from 0 to `max` finds, whatever the sizes
/// that work: a size that works, and between it and every smaller size that
/// works lies one that does not; or none, and then above every size that
/// works lies one that does not.
pub proof fn lemma_found_past_gaps(works: spec_fn(int) -> bool, max: int)
    requires
        0 <= max,
    ensures
        found_by_search(works, 0, max + 1, None) matches Some(size) ==> 0 <= size <= max && works(
            size,
        ) && forall|k: int| 0 <= k < size && #[trigger] works(k) ==> gap_between(works, k, size),
        found_by_search(works, 0, max + 1, None) is None ==> forall|k: int|
            0 <= k <= max && #[trigger] works(k) ==> gap_between(works, k, max + 1),
{
    lemma_search_from(works, 0, max + 1, None);
}

/// Where every size above one that works works too, the search finds the
/// smallest size that works, and finds none only where no size works.
pub proof fn lemma_finds_smallest(works: spec_fn(int) -> bool, max: int)
    requires
        0 <= max,
        forall|k: int, l: int| 0 <= k <= l <= max && #[trigger] works(k) ==> #[trigger] works(l),
    ensures
        found_by_search(works, 0, max + 1, None) matches Some(size) ==> 0 <= size <= max && works(
            size,
        ) && forall|k: int| 0 <= k < size ==> !#[trigger] works(k),
        found_by_search(works, 0, max + 1, None) is None ==> forall|k: int|
            0 <= k <= max ==> !#[trigger] works(k),
{
    lemma_found_past_gaps(works, max);
    match found_by_search(works, 0, max + 1, None) {
        Some(size) => {
            assert forall|k: int| 0 <= k < size implies !#[trigger] works(k) by {
                if works(k) {
                    let m = choose|m: int| k < m < size && !#[trigger] works(m);
                    assert(works(m));
                }
            }
        },
        None => {
            assert forall|k: int| 0 <= k <= max implies !#[trigger] works(k) by {
                if works(k) {
                    let m = choose|m: int| k < m < max + 1 && !#[trigger] works(m);
                    assert(works(m));
                }
            }
        },
    }
}

impl SizeSearch {
    /// A search over the sizes from 0 up to and including `max`.
    pub fn new(max: usize) -> (r: Self)
        requires
            max < usize::MAX,
        ensures
            r == (SizeSearch { left: 0, end: (max + 1) as usize, best: None }),
    {
        SizeSearch { left: 0, end: max + 1, best: None }
    }

    /// The size to try next: the middle of those left, the lower one of
    /// two; `None` when no size is left.
    pub fn midpoint(&self) -> (r: Option<usize>)
        ensures
            self.left >= self.end ==> r is None,
            self.left < self.end ==> r == Some((self.left + (self.end - self.left) / 2) as usize),
    {
        if self.left < self.end {
            Some(self.left + (self.end - self.left) / 2)
        } else {
            None
        }
    }

    /// The search after the size at the midpoint was tried. Where it works
    /// it is the best so far and only smaller sizes are left; where it
    /// does not, only larger ones are.
    pub fn narrow(self, works: bool) -> (r: Self)
        requires
            self.left < self.end,
        ensures
            works ==> r == (SizeSearch {
                left: self.left,
                end: (self.left + (self.end - self.left) / 2) as usize,
                best: Some((self.left + (self.end - self.left) / 2) as usize),
            }),
            !works ==> r == (SizeSearch {
                left: (self.left + (self.end - self.left) / 2 + 1) as usize,
                end: self.end,
                best: self.best,
            }),
    {
        let mid = self.left + (self.end - self.left) / 2;
        if works {
            SizeSearch { left: self.left, end: mid, best: Some(mid) }
        } else {
            SizeSearch { left: mid + 1, end: self.end, best: self.best }
        }
    }
}

} // verus!
