use vstd::prelude::*;

verus! {

/// One end of a range of offsets, as a `RangeBounds` gives it.
pub enum RangeEnd {
    Included(usize),
    Excluded(usize),
    Unbounded,
}

/// Where a range with this start begins, `lo` when it has none.
pub open spec fn start_of(b: RangeEnd, lo: int) -> int {
    match b {
        RangeEnd::Included(n) => n as int,
        RangeEnd::Excluded(n) => n + 1,
        RangeEnd::Unbounded => lo,
    }
}

/// Where a range with this end stops (exclusive), `hi` when it has none.
pub open spec fn end_of(b: RangeEnd, hi: int) -> int {
    match b {
        RangeEnd::Included(n) => n + 1,
        RangeEnd::Excluded(n) => n as int,
        RangeEnd::Unbounded => hi,
    }
}

/// The start and the exclusive end of a range given by its two ends, with
/// `lo` and `hi` standing for an end that is not given.
pub fn range_bounds_to_start_end(start: RangeEnd, end: RangeEnd, lo: usize, hi: usize) -> (r: (usize, usize))
    requires
        start_of(start, lo as int) <= usize::MAX,
        end_of(end, hi as int) <= usize::MAX,
    ensures
        r.0 == start_of(start, lo as int),
        r.1 == end_of(end, hi as int),
{
    let s = match start {
        RangeEnd::Included(n) => n,
        RangeEnd::Excluded(n) => n + 1,
        RangeEnd::Unbounded => lo,
    };
    let e = match end {
        RangeEnd::Included(n) => n + 1,
        RangeEnd::Excluded(n) => n,
        RangeEnd::Unbounded => hi,
    };
    (s, e)
}

} // verus!
