//! Half-open ranges of dimension values.

use std::ops::Range;
use vstd::prelude::*;

verus! {

/// Whether `value` lies in the half-open range `range`.
pub open spec fn spec_contains(range: Range<u64>, value: u64) -> bool {
    range.start <= value < range.end
}

/// The values that lie in both `a` and `b`.
pub open spec fn spec_intersect(a: Range<u64>, b: Range<u64>) -> Range<u64> {
    Range {
        start: if a.start >= b.start {
            a.start
        } else {
            b.start
        },
        end: if a.end <= b.end {
            a.end
        } else {
            b.end
        },
    }
}

/// Whether `value` lies in the half-open range `range`.
pub fn contains(range: &Range<u64>, value: u64) -> (r: bool)
    ensures
        r == spec_contains(*range, value),
{
    range.start <= value && value < range.end
}

/// Whether no value lies in `range`.
pub fn is_empty(range: &Range<u64>) -> (r: bool)
    ensures
        r == (range.start >= range.end),
        r == forall|v: u64| !spec_contains(*range, v),
{
    if range.start >= range.end {
        true
    } else {
        assert(spec_contains(*range, range.start));
        false
    }
}

/// The range of the values that lie in both `a` and `b`.
pub fn intersect(a: &Range<u64>, b: &Range<u64>) -> (r: Range<u64>)
    ensures
        r == spec_intersect(*a, *b),
        forall|v: u64| spec_contains(r, v) <==> spec_contains(*a, v) && spec_contains(*b, v),
{
    let start = if a.start >= b.start {
        a.start
    } else {
        b.start
    };
    let end = if a.end <= b.end {
        a.end
    } else {
        b.end
    };
    start..end
}

} // verus!
