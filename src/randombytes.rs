use vstd::prelude::*;

verus! {

/// Relies on rand's `thread_rng().fill_bytes`: fills `x[..len]` with bytes
/// from the thread-local generator seeded by the operating system. Nothing
/// is promised of the bytes themselves.
#[verifier::external_body]
pub fn randombytes(x: &mut [u8], len: usize)
    requires
        len <= old(x)@.len(),
    ensures
        final(x)@.len() == old(x)@.len(),
{
    rand::RngCore::fill_bytes(&mut rand::thread_rng(), &mut x[..len])
}

} // verus!
