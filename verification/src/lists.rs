//! A helper on lists that several modules share.

use vstd::prelude::*;

verus! {

/// Reverses the order of the items in `list`.
pub fn reverse<T: Copy>(list: &mut Vec<T>)
    ensures
        final(list)@ == old(list)@.reverse(),
{
    let mut turned: Vec<T> = Vec::new();
    let mut i: usize = list.len();
    while i > 0
        invariant
            i <= list.len(),
            turned.len() == list.len() - i,
            forall|j: int| 0 <= j < turned.len() ==> turned@[j] == list@[list.len() - 1 - j],
        decreases i,
    {
        i -= 1;
        turned.push(list[i]);
    }
    assert(turned@ =~= list@.reverse());
    *list = turned;
}

} // verus!
