//! Arrays in contracts: an array with one cell changed, an array of one value.

use vstd::prelude::*;

verus! {

/// `a` with cell `i` holding `x`.
pub open spec fn put<T, const N: usize>(a: [T; N], i: int, x: T) -> [T; N] {
    vstd::array::spec_array_update(a, i, x)
}

/// `N` cells that all hold `x`.
pub open spec fn filled<T: Copy, const N: usize>(x: T) -> [T; N] {
    vstd::array::spec_array_fill_for_copy_type::<T, N>(x)
}

} // verus!
