use blake2b_rs::{Blake2b, Blake2bBuilder};
use sparse_merkle_tree::traits::Hasher;
use sparse_merkle_tree::H256;
use vstd::prelude::*;

verus! {

/// Length in bytes of every digest the tree hasher produces.
pub const BLAKE2B_LEN: usize = 32;

/// blake2b_rs::Blake2b, a hashing state, carried without looking inside.
#[verifier::external_type_specification]
#[verifier::external_body]
pub struct ExBlake2b(Blake2b);

/// sparse_merkle_tree::H256, the tree crate's 32-byte word, carried without looking inside.
#[verifier::external_type_specification]
#[verifier::external_body]
pub struct ExH256(H256);

/// The tree's hash function: 32-byte BLAKE2b, no key, personalized with
/// `ckb-default-hash`.
pub struct Blake2bHasher(Blake2b);

impl Default for Blake2bHasher {
    /// Relies on blake2b_rs::Blake2bBuilder: a fresh 32-byte state with the
    /// `ckb-default-hash` personalization and an empty key.
    #[verifier::external_body]
    fn default() -> Self {
        let blake2b = Blake2bBuilder::new(BLAKE2B_LEN).personal(b"ckb-default-hash").key(&[]).build();
        Blake2bHasher(blake2b)
    }
}

impl Hasher for Blake2bHasher {
    /// Relies on blake2b_rs::Blake2b::update: absorbs the 32 bytes of `h`.
    #[verifier::external_body]
    fn write_h256(&mut self, h: &H256) {
        self.0.update(h.as_slice());
    }

    /// Relies on blake2b_rs::Blake2b::update: absorbs the single byte `b`.
    #[verifier::external_body]
    fn write_byte(&mut self, b: u8) {
        self.0.update(&[b][..]);
    }

    /// Relies on blake2b_rs::Blake2b::finalize: writes the 32-byte digest.
    #[verifier::external_body]
    fn finish(self) -> H256 {
        let mut hash = [0u8; 32];
        self.0.finalize(&mut hash);
        hash.into()
    }
}

} // verus!
