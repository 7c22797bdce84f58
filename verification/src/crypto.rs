//! Trusted boundary to the cryptographic primitives: the block digest and the
//! protocol signature.

use vstd::prelude::*;

verus! {

/// The Blake2b-256 digest of a byte string. The outside hash is a function of
/// its input alone, so its result is given a name rather than a definition.
pub uninterp spec fn blake2b_of(bytes: Seq<u8>) -> Seq<u8>;

/// Relies on fastcrypto::hash::Blake2b256: a 32-byte digest that depends on
/// the input bytes alone.
#[verifier::external_body]
pub fn blake2b_digest(bytes: &[u8]) -> (r: Vec<u8>)
    ensures
        r@ == blake2b_of(bytes@),
        r@.len() == 32,
{
    <fastcrypto::hash::Blake2b256 as fastcrypto::hash::HashFunction<32>>::digest(bytes).to_vec()
}

#[verifier::external_type_specification]
#[verifier::external_body]
pub struct ExEd25519KeyPair(fastcrypto::ed25519::Ed25519KeyPair);

/// Relies on fastcrypto's Ed25519 signer: the signature is 64 bytes long.
#[verifier::external_body]
pub fn ed25519_sign(key: &fastcrypto::ed25519::Ed25519KeyPair, msg: &[u8]) -> (r: Vec<u8>)
    ensures
        r@.len() == 64,
{
    <fastcrypto::ed25519::Ed25519KeyPair as fastcrypto::traits::Signer<
        fastcrypto::ed25519::Ed25519Signature,
    >>::sign(key, msg).as_ref().to_vec()
}

} // verus!
