//! Choosing the colour-gradient interval that a position falls in.

use vstd::prelude::*;

verus! {

/// Index `i` of the interval `[stops[i], stops[i + 1]]` to interpolate in,
/// from the result of a binary search for the position among `len` sorted
/// stop positions: an exact hit starts its interval (the last stop ends
/// the last one), a position before the first stop uses the first
/// interval, and any other position the interval ending at its insertion
/// point.
pub fn stop_interval(search: Result<usize, usize>, len: usize) -> (i: usize)
    requires
        len >= 2,
    ensures
        i + 1 < len,
        i == match search {
            Ok(idx) => if idx <= len - 2 {
                idx
            } else {
                (len - 2) as usize
            },
            Err(idx) => if idx == 0 {
                0
            } else if idx - 1 <= len - 2 {
                (idx - 1) as usize
            } else {
                (len - 2) as usize
            },
        },
{
    let i = match search {
        Ok(idx) => if idx <= len - 2 {
            idx
        } else {
            len - 2
        },
        Err(0) => 0,
        Err(idx) => idx - 1,
    };
    let last = len - 2;
    if i <= last {
        i
    } else {
        last
    }
}

} // verus!
