//! Conversions between the integer types that index a slice.

use vstd::prelude::*;

verus! {

/// The entry of a sequence at a position.
pub open spec fn entry<T>(s: Seq<T>, i: isize) -> T {
    s[i as int]
}

/// The entry of a sequence after a position.
pub open spec fn next_entry<T>(s: Seq<T>, i: isize) -> T {
    s[i + 1]
}

/// The length of a slice as a signed number.
pub fn signed_len<T>(arr: &[T]) -> (n: isize)
    requires
        arr@.len() <= isize::MAX,
    ensures
        n == arr@.len(),
{
    arr.len() as isize
}

/// A position that is not negative, as an index.
pub fn index_of(i: isize) -> (u: usize)
    requires
        i >= 0,
    ensures
        u == i,
{
    i as usize
}

} // verus!
