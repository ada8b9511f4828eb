//! Fixed-size cryptographic values carried by a block metadata record.
//!
//! The record stores a block hash and one signature per voter. Their
//! cryptographic meaning is out of scope here: upstream collaborators verify
//! them, and this crate only carries their bytes, whose lengths are fixed.

use vstd::prelude::*;

use crate::account_address::clone_byte_vec;

verus! {

/// Number of bytes in a block hash.
pub const HASH_LENGTH: usize = 32;

/// Number of bytes in an Ed25519 signature.
pub const ED25519_SIGNATURE_LENGTH: usize = 64;

/// A fixed-size hash identifying a block.
pub struct HashValue {
    bytes: Vec<u8>,
}

impl View for HashValue {
    type V = Seq<u8>;

    closed spec fn view(&self) -> Seq<u8> {
        self.bytes@
    }
}

impl HashValue {
    /// A hash is well formed when it holds exactly `HASH_LENGTH` bytes.
    pub open spec fn wf(self) -> bool {
        self@.len() == HASH_LENGTH
    }

    /// Builds a hash value from its bytes.
    pub fn new(bytes: Vec<u8>) -> (r: Self)
        requires
            bytes@.len() == HASH_LENGTH,
        ensures
            r@ == bytes@,
            r.wf(),
    {
        HashValue { bytes }
    }

    /// Returns a fresh copy of the hash bytes.
    pub fn to_vec(&self) -> (r: Vec<u8>)
        ensures
            r@ == self@,
    {
        clone_byte_vec(&self.bytes)
    }
}

impl Clone for HashValue {
    /// The copy holds the same bytes as `self`.
    fn clone(&self) -> (r: Self)
        ensures
            r@ == self@,
    {
        HashValue { bytes: clone_byte_vec(&self.bytes) }
    }
}

/// An Ed25519 signature over the previous block, as cast by one validator.
pub struct Ed25519Signature {
    bytes: Vec<u8>,
}

impl View for Ed25519Signature {
    type V = Seq<u8>;

    closed spec fn view(&self) -> Seq<u8> {
        self.bytes@
    }
}

impl Ed25519Signature {
    /// A signature is well formed when it holds exactly
    /// `ED25519_SIGNATURE_LENGTH` bytes.
    pub open spec fn wf(self) -> bool {
        self@.len() == ED25519_SIGNATURE_LENGTH
    }

    /// Builds a signature from its bytes.
    pub fn new(bytes: Vec<u8>) -> (r: Self)
        requires
            bytes@.len() == ED25519_SIGNATURE_LENGTH,
        ensures
            r@ == bytes@,
            r.wf(),
    {
        Ed25519Signature { bytes }
    }

    /// Returns a fresh copy of the signature bytes.
    pub fn to_vec(&self) -> (r: Vec<u8>)
        ensures
            r@ == self@,
    {
        clone_byte_vec(&self.bytes)
    }
}

impl Clone for Ed25519Signature {
    /// The copy holds the same bytes as `self`.
    fn clone(&self) -> (r: Self)
        ensures
            r@ == self@,
    {
        Ed25519Signature { bytes: clone_byte_vec(&self.bytes) }
    }
}

} // verus!
