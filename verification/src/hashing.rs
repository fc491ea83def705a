use vstd::prelude::*;
use crate::types::MessageHash;
use blake2::Blake2bVar;
use blake2::digest::{Update, VariableOutput};

verus! {

/// The 32-byte BLAKE2b digest of the given bytes, as
/// [`blake2_256`] computes it. A function of the input alone.
pub uninterp spec fn blake2_256_of(bytes: Seq<u8>) -> Seq<u8>;

/// Relies on `blake2::Blake2bVar` with a 32-byte output: the digest depends on
/// the input bytes alone.
#[verifier::external_body]
pub(crate) fn blake2_256(bytes: &[u8]) -> (r: MessageHash)
    ensures
        r@ == blake2_256_of(bytes@),
{
    let mut hasher = Blake2bVar::new(32).unwrap();
    hasher.update(bytes);
    let mut out = [0u8; 32];
    hasher.finalize_variable(&mut out).unwrap();
    out
}

} // verus!
