use std::ops::Range;
use vstd::prelude::*;

verus! {

/// A value of one of two types.
pub enum Either<L, R> {
    Left(L),
    Right(R),
}

/// The range that begins where `left_range` begins and ends where `right_range` ends.
pub fn merge_ranges<T: Clone>(left_range: &Range<T>, right_range: &Range<T>) -> (merged: Range<T>)
    ensures
        cloned(left_range.start, merged.start),
        cloned(right_range.end, merged.end),
{
    left_range.start.clone()..right_range.end.clone()
}

} // verus!
