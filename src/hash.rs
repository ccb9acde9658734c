use vstd::prelude::*;

verus! {

/// The 64-bit xxhash (seed 0) of a byte sequence.
pub uninterp spec fn xxhash_of(data: Seq<u8>) -> u64;

/// Relies on `twox_hash::XxHash64` with seed 0, fed through `Hasher::write`
/// and read back with `Hasher::finish`: the result depends on the bytes alone.
#[verifier::external_body]
pub(crate) fn xxhash(data: &[u8]) -> (r: u64)
    ensures
        r == xxhash_of(data@),
{
    let mut hasher = twox_hash::XxHash64::with_seed(0);
    std::hash::Hasher::write(&mut hasher, data);
    std::hash::Hasher::finish(&hasher)
}

} // verus!
