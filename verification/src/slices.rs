//! Splitting a mutable slice in two.

use vstd::prelude::*;

verus! {

/// Splits `slice` at `index` into the part before it and the part from it
/// on. Both parts can be written to, and what is written shows in `slice`.
pub fn split_slice(slice: &mut [i32], index: i32) -> (r: Option<(&mut [i32], &mut [i32])>)
    requires
        0 <= index < old(slice).len(),
    ensures
        match r {
            Some((left, right)) => {
                &&& left@ == old(slice)@.subrange(0, index as int)
                &&& right@ == old(slice)@.subrange(index as int, old(slice)@.len() as int)
                &&& final(slice)@ == final(left)@ + final(right)@
            },
            None => false,
        },
{
    let (one, two) = slice.split_at_mut(index as usize);
    Some((one, two))
}

} // verus!
