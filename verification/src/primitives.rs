//! The plain values that the chain hands to the authority engine: account
//! identifiers, signing keys and hashes.

use vstd::prelude::*;

verus! {

/// An account identifier. Accounts are told apart by comparing these.
pub type AccountId = String;

/// The signing key of an authority. The engine carries keys along and
/// never looks inside them.
#[derive(Clone, Copy, Debug, PartialEq, Eq, Hash)]
pub struct PublicKey(pub [u8; 32]);

/// A 32-byte hash.
#[derive(Clone, Copy, Debug, PartialEq, Eq, Hash)]
pub struct CryptoHash(pub [u8; 32]);

impl View for CryptoHash {
    type V = Seq<u8>;

    open spec fn view(&self) -> Seq<u8> {
        self.0@
    }
}

impl Default for CryptoHash {
    /// The hash whose bytes are all zero.
    fn default() -> (hash: CryptoHash)
        ensures
            hash@ == Seq::new(32, |i: int| 0u8),
    {
        let hash = CryptoHash([0u8; 32]);
        assert(hash@ =~= Seq::new(32, |i: int| 0u8));
        hash
    }
}

/// Names a block by its position in the chain or by its hash.
#[derive(Clone, Copy, Debug, PartialEq, Eq, Hash)]
pub enum BlockId {
    Number(u64),
    Hash(CryptoHash),
}

/// The value of `amount` read as a signed 64-bit number: itself up to
/// `i64::MAX`, and `amount - 2^64` above it.
pub open spec fn as_signed(amount: u64) -> int {
    if amount <= i64::MAX {
        amount as int
    } else {
        amount - 0x1_0000_0000_0000_0000
    }
}

/// Reads an unsigned amount as a signed 64-bit number.
pub fn to_signed(amount: u64) -> (signed: i64)
    ensures
        signed == as_signed(amount),
{
    if amount <= 0x7fff_ffff_ffff_ffffu64 {
        amount as i64
    } else {
        ((amount - 0x8000_0000_0000_0000u64) as i64) + i64::MIN
    }
}

} // verus!
