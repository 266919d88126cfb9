//! Bisection of a slice by a test.

use vstd::prelude::*;
use crate::convert::{entry, index_of, next_entry, signed_len};

verus! {

/// The test `cmp` can only give true on the first `m` entries and only
/// false on the rest.
pub open spec fn splits_at<T, F: Fn(&T, &T) -> bool>(cmp: F, s: Seq<T>, val: &T, m: int) -> bool {
    &&& 0 <= m <= s.len()
    &&& forall|i: int, r: bool|
        0 <= i < m && #[trigger] call_ensures(cmp, (&s[i], val), r) ==> r
    &&& forall|i: int, r: bool|
        m <= i < s.len() && #[trigger] call_ensures(cmp, (&s[i], val), r) ==> !r
}

/// Finds by bisection a place where `cmp` turns from true to false.
///
/// The result `left` is -1 or the index of an entry for which `cmp` gave
/// true, and the entry after it, if there is one, is one for which `cmp`
/// gave false. Where `cmp` is true on a first part of the slice and false on
/// the rest, `left` is the last index of the first part.
pub fn bisect_left_cmp<T, F>(arr: &[T], val: &T, cmp: F) -> (left: isize) where
    F: Fn(&T, &T) -> bool,

    requires
        arr@.len() < isize::MAX,
        forall|i: int| 0 <= i < arr@.len() ==> call_requires(cmp, (&#[trigger] arr@[i], val)),
    ensures
        -1 <= left < arr@.len(),
        left >= 0 ==> call_ensures(cmp, (&entry(arr@, left), val), true),
        left + 1 < arr@.len() ==> call_ensures(cmp, (&next_entry(arr@, left), val), false),
        forall|m: int| splits_at(cmp, arr@, val, m) ==> left == m - 1,
{
    let mut left: isize = -1;
    let mut right: isize = signed_len(arr);
    while right - left > 1
        invariant
            arr@.len() < isize::MAX,
            -1 <= left < right <= arr@.len(),
            forall|i: int| 0 <= i < arr@.len() ==> call_requires(cmp, (&#[trigger] arr@[i], val)),
            left >= 0 ==> call_ensures(cmp, (&entry(arr@, left), val), true),
            right < arr@.len() ==> call_ensures(cmp, (&entry(arr@, right), val), false),
        decreases right - left,
    {
        let e: isize = left + (right - left) / 2;
        let elem = &arr[index_of(e)];
        if cmp(elem, val) {
            left = e;
        } else {
            right = e;
        }
    }
    left
}

} // verus!
