//! Index arithmetic for the file-mixing puzzle: an element at position `pos`
//! that must move by `n` lands at `(pos + n)` wrapped into `0..len` with
//! Euclidean remainder semantics.

use vstd::prelude::*;

verus! {

/// Destination index of an element at `pos` moved by `n` in a cyclic list of
/// length `len`. Matches Euclidean remainder: the result `r` satisfies
/// `0 <= r < len` and `pos + n - r` is a multiple of `len`.
pub fn wrap_index(pos: i64, n: i64, len: i64) -> (r: i64)
    requires
        len > 0,
        -0x2000_0000_0000_0000 <= pos + n <= 0x2000_0000_0000_0000,
    ensures
        0 <= r < len,
        // `%` on int in specifications is the Euclidean remainder
        r == (pos + n) % (len as int),
{
    let s: i64 = pos + n;
    s.checked_rem_euclid(len).unwrap()
}

} // verus!
