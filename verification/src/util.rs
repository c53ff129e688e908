//! Randomness from the operating system.

use vstd::prelude::*;

verus! {

/// Fills `buf` with random bytes from the operating system through
/// `getrandom::fill`; returns whether that succeeded.  Only the buffer's
/// length is claimed: its contents are random.
#[verifier::external_body]
fn fill_random(buf: &mut [u8]) -> (ok: bool)
    ensures
        final(buf)@.len() == old(buf)@.len(),
{
    getrandom::fill(buf).is_ok()
}

/// Fills `buf` with random bytes; returns whether the system call succeeded.
pub fn getrandom(buf: &mut [u8]) -> (ok: bool)
    ensures
        final(buf)@.len() == old(buf)@.len(),
{
    fill_random(buf)
}

} // verus!
