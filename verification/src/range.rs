//! Ranges of values: closed ranges, and the conversion of arbitrary range
//! bounds into closed (`[start, last]`) and half-open (`[start, end)`) form.
use crate::runs::interval;
use vstd::prelude::*;

verus! {

/// An inclusive range
///
/// `RangeInclusive { start, last }` holds the values `start..=last`; it is
/// empty when `start > last`.
#[derive(Debug, Clone, Copy, PartialEq, Eq, Structural, Hash, Default)]
pub struct RangeInclusive<Idx> {
    /// The lower bound of the range (inclusive).
    pub start: Idx,
    /// The upper bound of the range (inclusive).
    pub last: Idx,
}

/// An endpoint of a range, as `core::ops::Bound` has it.
#[derive(Debug, Clone, Copy, PartialEq, Eq, Structural)]
pub enum Bound<T> {
    /// The endpoint belongs to the range.
    Included(T),
    /// The endpoint does not belong to the range.
    Excluded(T),
    /// The range is unbounded on this side.
    Unbounded,
}

/// The lowest value a range with start bound `b` contains, as an integer
/// (`u32::MAX + 1` when nothing can follow an excluded `u32::MAX`).
pub open spec fn lower_u32(b: Bound<u32>) -> int {
    match b {
        Bound::Included(i) => i as int,
        Bound::Excluded(i) => i + 1,
        Bound::Unbounded => 0,
    }
}

/// The highest value a range with end bound `b` contains, as an integer
/// (`-1` when nothing can precede an excluded `0`).
pub open spec fn upper_u32(b: Bound<u32>) -> int {
    match b {
        Bound::Included(i) => i as int,
        Bound::Excluded(i) => i - 1,
        Bound::Unbounded => u32::MAX as int,
    }
}

/// The same for 64-bit ranges.
pub open spec fn lower_u64(b: Bound<u64>) -> int {
    match b {
        Bound::Included(i) => i as int,
        Bound::Excluded(i) => i + 1,
        Bound::Unbounded => 0,
    }
}

/// The same for 64-bit ranges.
pub open spec fn upper_u64(b: Bound<u64>) -> int {
    match b {
        Bound::Included(i) => i as int,
        Bound::Excluded(i) => i - 1,
        Bound::Unbounded => u64::MAX as int,
    }
}

/// The closed interval `[lo, hi]` of `u64` values (empty when `lo > hi`).
pub open spec fn interval64(lo: int, hi: int) -> Set<u64> {
    Set::new(|x: u64| lo <= x && x <= hi)
}

/// The closed form `(start, last)` of the range given by two bounds.
///
/// A range that holds no value comes back as `(1, 0)` when its bounds cannot
/// be written as `u32` values; otherwise the bounds are returned as they are
/// (an empty range then has `start > last`).
pub fn range_to_inclusive(start_bound: Bound<u32>, end_bound: Bound<u32>) -> (r: (u32, u32))
    ensures
        lower_u32(start_bound) <= u32::MAX && upper_u32(end_bound) >= 0 ==> r.0 == lower_u32(
            start_bound,
        ) && r.1 == upper_u32(end_bound),
        !(lower_u32(start_bound) <= u32::MAX && upper_u32(end_bound) >= 0) ==> r == (1u32, 0u32),
{
    let start = match start_bound {
        Bound::Included(i) => i,
        Bound::Excluded(i) => match i.checked_add(1) {
            Some(i) => i,
            None => return (1, 0),
        },
        Bound::Unbounded => 0,
    };
    let end = match end_bound {
        Bound::Included(i) => i,
        Bound::Excluded(i) => match i.checked_sub(1) {
            Some(i) => i,
            None => return (1, 0),
        },
        Bound::Unbounded => u32::MAX,
    };
    (start, end)
}

/// The half-open form `[start, end)` of the range given by two bounds, in
/// 64-bit arithmetic so that every `u32` range can be written; an unbounded
/// end is `u64::MAX`.
pub fn range_to_exclusive(start_bound: Bound<u32>, end_bound: Bound<u32>) -> (r: (u64, u64))
    ensures
        r.0 == lower_u32(start_bound),
        r.1 == match end_bound {
            Bound::Unbounded => u64::MAX as int,
            _ => upper_u32(end_bound) + 1,
        },
{
    let start = match start_bound {
        Bound::Included(i) => i as u64,
        Bound::Excluded(i) => i as u64 + 1,
        Bound::Unbounded => 0,
    };
    let end = match end_bound {
        Bound::Included(i) => i as u64 + 1,
        Bound::Excluded(i) => i as u64,
        Bound::Unbounded => u64::MAX,
    };
    (start, end)
}

/// The closed form of a 64-bit range, as [`range_to_inclusive`] computes it
/// for 32-bit ones.
pub fn range64_to_inclusive(start_bound: Bound<u64>, end_bound: Bound<u64>) -> (r: (u64, u64))
    ensures
        lower_u64(start_bound) <= u64::MAX && upper_u64(end_bound) >= 0 ==> r.0 == lower_u64(
            start_bound,
        ) && r.1 == upper_u64(end_bound),
        !(lower_u64(start_bound) <= u64::MAX && upper_u64(end_bound) >= 0) ==> r == (1u64, 0u64),
{
    let start = match start_bound {
        Bound::Included(i) => i,
        Bound::Excluded(i) => match i.checked_add(1) {
            Some(i) => i,
            None => return (1, 0),
        },
        Bound::Unbounded => 0,
    };
    let end = match end_bound {
        Bound::Included(i) => i,
        Bound::Excluded(i) => match i.checked_sub(1) {
            Some(i) => i,
            None => return (1, 0),
        },
        Bound::Unbounded => u64::MAX,
    };
    (start, end)
}

impl RangeInclusive<u32> {
    /// The closed range with the given bounds.
    pub fn from_bounds(start_bound: Bound<u32>, end_bound: Bound<u32>) -> (r: Self)
        ensures
            forall|x: u32|
                #[trigger] interval(r.start as int, r.last as int).contains(x) <==> (lower_u32(
                    start_bound,
                ) <= x && x <= upper_u32(end_bound)),
    {
        let (start, last) = range_to_inclusive(start_bound, end_bound);
        RangeInclusive { start, last }
    }
}

impl RangeInclusive<u64> {
    /// The closed range with the given bounds.
    pub fn from_bounds(start_bound: Bound<u64>, end_bound: Bound<u64>) -> (r: Self)
        ensures
            forall|x: u64|
                #[trigger] interval64(r.start as int, r.last as int).contains(x) <==> (lower_u64(
                    start_bound,
                ) <= x && x <= upper_u64(end_bound)),
    {
        let (start, last) = range64_to_inclusive(start_bound, end_bound);
        RangeInclusive { start, last }
    }
}

impl From<core::ops::Range<u32>> for RangeInclusive<u32> {
    fn from(value: core::ops::Range<u32>) -> (r: Self) {
        let (start, last) = range_to_inclusive(Bound::Included(value.start), Bound::Excluded(value.end));
        RangeInclusive { start, last }
    }
}

impl vstd::std_specs::convert::FromSpecImpl<core::ops::Range<u32>> for RangeInclusive<u32> {
    open spec fn obeys_from_spec() -> bool {
        true
    }

    open spec fn from_spec(v: core::ops::Range<u32>) -> Self {
        if v.end == 0 {
            RangeInclusive { start: 1, last: 0 }
        } else {
            RangeInclusive { start: v.start, last: (v.end - 1) as u32 }
        }
    }
}

impl From<core::ops::Range<u64>> for RangeInclusive<u64> {
    fn from(value: core::ops::Range<u64>) -> (r: Self) {
        let (start, last) = range64_to_inclusive(Bound::Included(value.start), Bound::Excluded(value.end));
        RangeInclusive { start, last }
    }
}

impl vstd::std_specs::convert::FromSpecImpl<core::ops::Range<u64>> for RangeInclusive<u64> {
    open spec fn obeys_from_spec() -> bool {
        true
    }

    open spec fn from_spec(v: core::ops::Range<u64>) -> Self {
        if v.end == 0 {
            RangeInclusive { start: 1, last: 0 }
        } else {
            RangeInclusive { start: v.start, last: (v.end - 1) as u64 }
        }
    }
}

} // verus!
