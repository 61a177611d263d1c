//! Whether all elements of a sequence are equal.
use vstd::prelude::*;
use vstd::laws_eq::obeys_concrete_eq;

verus! {

/// Whether every element of `s` equals the first one; true for an empty
/// sequence. Stops at the first element that differs.
pub fn all_equal<T: PartialEq>(s: &[T]) -> (r: bool)
    requires
        obeys_concrete_eq::<T>(),
    ensures
        r <==> forall|i: int| 0 <= i < s@.len() ==> #[trigger] s@[i] == s@[0],
{
    proof {
        reveal(obeys_concrete_eq);
    }
    if s.len() == 0 {
        return true;
    }
    let head = &s[0];
    let mut i: usize = 1;
    while i < s.len()
        invariant
            1 <= i <= s@.len(),
            *head == s@[0],
            obeys_concrete_eq::<T>(),
            forall|j: int| 0 <= j < i ==> #[trigger] s@[j] == s@[0],
        decreases s@.len() - i,
    {
        proof {
            reveal(obeys_concrete_eq);
        }
        if !(*head == s[i]) {
            return false;
        }
        i = i + 1;
    }
    true
}

} // verus!
