//! Random choices. Every function that makes one has a counterpart that takes
//! the choice as an argument.
use rand::Rng;
use vstd::prelude::*;

verus! {

/// `Rng::gen_range` of the `rand` crate on `lo..=hi`, with the generator of
/// the current thread: some value between `lo` and `hi`, both ends allowed.
/// It is a chance outcome, so nothing says which. The call panics on an empty
/// range.
#[verifier::external_body]
pub(crate) fn random_between(lo: u32, hi: u32) -> (r: u32)
    requires
        lo <= hi,
    ensures
        lo <= r <= hi,
{
    rand::thread_rng().gen_range(lo..=hi)
}

/// `Rng::fill` of the `rand` crate, with the generator of the current thread:
/// overwrites every byte of a buffer of `n` bytes. What the bytes become is a
/// chance outcome, so only their number is stated.
#[verifier::external_body]
pub(crate) fn random_bytes(n: usize) -> (r: Vec<u8>)
    ensures
        r@.len() == n,
{
    let mut buf = vec![0u8; n];
    rand::thread_rng().fill(buf.as_mut_slice());
    buf
}

} // verus!
