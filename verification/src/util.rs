use vstd::prelude::*;

verus! {

/// Clamp `i` into the closed interval `[min, max]`.
///
/// Matches `i.max(min).min(max)`: when `min > max` the upper bound wins.
pub fn clamp(i: usize, min: usize, max: usize) -> (r: usize)
    ensures
        r == if vstd::math::max(i as int, min as int) < max as int {
            vstd::math::max(i as int, min as int)
        } else {
            max as int
        },
{
    let lo: usize = if i < min { min } else { i };
    if lo < max { lo } else { max }
}

} // verus!
