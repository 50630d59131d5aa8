//! Ordered clamping helpers.

use vstd::prelude::*;

use vstd::std_specs::cmp::OrdSpec;

verus! {

/// What `clamp_xsize` returns, in terms of the type's order:
/// first bound by `max_value`, then by `min_value`, so that a
/// `min_value` above `max_value` wins.
pub open spec fn spec_clamp_ordered<T: Ord + OrdSpec>(num: T, min_value: T, max_value: T) -> T {
    let m = if max_value.cmp_spec(&num) is Less {
        max_value
    } else {
        num
    };
    if min_value.cmp_spec(&m) is Less {
        m
    } else {
        min_value
    }
}

/// Clamp a totally ordered value into `[min_value, max_value]`, with
/// `max(min(num, max_value), min_value)` precedence: the result is
/// `min_value` whenever `min_value` exceeds `max_value`.
pub fn clamp_xsize<T: Ord + OrdSpec>(num: T, min_value: T, max_value: T) -> (r: T)
    ensures
        T::obeys_cmp_spec() ==> r == spec_clamp_ordered(num, min_value, max_value),
{
    num.min(max_value).max(min_value)
}

/// The clamp contract at a concrete integer type: below the range gives
/// the lower bound, above gives the upper bound, inside gives the value
/// itself, and an inverted range always gives the lower bound.
pub proof fn lemma_clamp_xsize_isize(num: isize, min_value: isize, max_value: isize)
    ensures
        min_value <= max_value && num < min_value ==> spec_clamp_ordered(
            num,
            min_value,
            max_value,
        ) == min_value,
        min_value <= max_value && num > max_value ==> spec_clamp_ordered(
            num,
            min_value,
            max_value,
        ) == max_value,
        min_value <= num && num <= max_value ==> spec_clamp_ordered(num, min_value, max_value)
            == num,
        min_value > max_value ==> spec_clamp_ordered(num, min_value, max_value) == min_value,
{
}

} // verus!
