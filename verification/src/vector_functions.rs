//! Arithmetic on plain vectors, element by element and in place.

use core::ops::{Add, Sub};
use vstd::prelude::*;
use vstd::std_specs::ops::{AddSpec, SubSpec};

verus! {

/// The shorter of two lengths.
pub open spec fn common_len(a: nat, b: nat) -> nat {
    if a <= b {
        a
    } else {
        b
    }
}

/// Adds `v2` into `v1`, element by element, as far as both reach.
pub fn add_vec_inplace<T: Copy + Add<Output = T>>(v1: &mut [T], v2: &[T])
    requires
        forall|k: int|
            0 <= k < common_len(old(v1)@.len(), v2@.len()) ==> (#[trigger] old(v1)@[k]).add_req(
                v2@[k],
            ),
    ensures
        final(v1)@.len() == old(v1)@.len(),
        forall|k: int|
            common_len(old(v1)@.len(), v2@.len()) <= k < old(v1)@.len() ==> final(v1)@[k] == old(
                v1,
            )@[k],
        T::obeys_add_spec() ==> forall|k: int|
            0 <= k < common_len(old(v1)@.len(), v2@.len()) ==> #[trigger] final(v1)@[k] == old(
                v1,
            )@[k].add_spec(v2@[k]),
{
    let n = if v1.len() <= v2.len() {
        v1.len()
    } else {
        v2.len()
    };
    let mut i: usize = 0;
    while i < n
        invariant
            i <= n,
            n == common_len(old(v1)@.len(), v2@.len()),
            v1@.len() == old(v1)@.len(),
            forall|k: int| i <= k < v1@.len() ==> v1@[k] == old(v1)@[k],
            forall|k: int| 0 <= k < n ==> (#[trigger] old(v1)@[k]).add_req(v2@[k]),
            T::obeys_add_spec() ==> forall|k: int|
                0 <= k < i ==> #[trigger] v1@[k] == old(v1)@[k].add_spec(v2@[k]),
        decreases n - i,
    {
        let sum = v1[i] + v2[i];
        v1[i] = sum;
        i += 1;
    }
}

/// Subtracts `v2` from `v1`, element by element, as far as both reach.
pub fn sub_vec_inplace<T: Copy + Sub<Output = T>>(v1: &mut [T], v2: &[T])
    requires
        forall|k: int|
            0 <= k < common_len(old(v1)@.len(), v2@.len()) ==> (#[trigger] old(v1)@[k]).sub_req(
                v2@[k],
            ),
    ensures
        final(v1)@.len() == old(v1)@.len(),
        forall|k: int|
            common_len(old(v1)@.len(), v2@.len()) <= k < old(v1)@.len() ==> final(v1)@[k] == old(
                v1,
            )@[k],
        T::obeys_sub_spec() ==> forall|k: int|
            0 <= k < common_len(old(v1)@.len(), v2@.len()) ==> #[trigger] final(v1)@[k] == old(
                v1,
            )@[k].sub_spec(v2@[k]),
{
    let n = if v1.len() <= v2.len() {
        v1.len()
    } else {
        v2.len()
    };
    let mut i: usize = 0;
    while i < n
        invariant
            i <= n,
            n == common_len(old(v1)@.len(), v2@.len()),
            v1@.len() == old(v1)@.len(),
            forall|k: int| i <= k < v1@.len() ==> v1@[k] == old(v1)@[k],
            forall|k: int| 0 <= k < n ==> (#[trigger] old(v1)@[k]).sub_req(v2@[k]),
            T::obeys_sub_spec() ==> forall|k: int|
                0 <= k < i ==> #[trigger] v1@[k] == old(v1)@[k].sub_spec(v2@[k]),
        decreases n - i,
    {
        let difference = v1[i] - v2[i];
        v1[i] = difference;
        i += 1;
    }
}

} // verus!
