//! Event stream keys.
//!
//! An event key is the stable identifier under which an event-log collaborator
//! registers and looks up a stream of notifications. It is derived from an
//! account address and a small integer discriminator that tells the streams
//! of one account apart.

use vstd::prelude::*;

use crate::account_address::{clone_byte_vec, AccountAddress, ADDRESS_LENGTH};

verus! {

/// Number of bytes in an event key: an 8-byte discriminator followed by an
/// account address.
pub const EVENT_KEY_LENGTH: usize = 8 + ADDRESS_LENGTH;

/// The little-endian bytes of a 64-bit integer.
pub open spec fn u64_le_bytes(v: u64) -> Seq<u8> {
    seq![
        (v & 0xff) as u8,
        ((v >> 8) & 0xff) as u8,
        ((v >> 16) & 0xff) as u8,
        ((v >> 24) & 0xff) as u8,
        ((v >> 32) & 0xff) as u8,
        ((v >> 40) & 0xff) as u8,
        ((v >> 48) & 0xff) as u8,
        ((v >> 56) & 0xff) as u8,
    ]
}

/// The key of one event stream: a fixed-size, opaque identifier.
pub struct EventKey {
    bytes: Vec<u8>,
}

impl View for EventKey {
    type V = Seq<u8>;

    closed spec fn view(&self) -> Seq<u8> {
        self.bytes@
    }
}

impl EventKey {
    /// An event key is well formed when it holds exactly `EVENT_KEY_LENGTH`
    /// bytes.
    pub open spec fn wf(self) -> bool {
        self@.len() == EVENT_KEY_LENGTH
    }

    /// Derives the key of one of an account's event streams: the
    /// little-endian bytes of the discriminator followed by the address
    /// bytes. The result depends on the address and the discriminator alone.
    pub fn new_from_address(addr: &AccountAddress, salt: u64) -> (r: EventKey)
        requires
            addr.wf(),
        ensures
            r@ == u64_le_bytes(salt) + addr@,
            r.wf(),
    {
        let mut bytes: Vec<u8> = Vec::new();
        bytes.push((salt & 0xff) as u8);
        bytes.push(((salt >> 8) & 0xff) as u8);
        bytes.push(((salt >> 16) & 0xff) as u8);
        bytes.push(((salt >> 24) & 0xff) as u8);
        bytes.push(((salt >> 32) & 0xff) as u8);
        bytes.push(((salt >> 40) & 0xff) as u8);
        bytes.push(((salt >> 48) & 0xff) as u8);
        bytes.push(((salt >> 56) & 0xff) as u8);
        let mut addr_bytes = addr.to_vec();
        bytes.append(&mut addr_bytes);
        assert(bytes@ =~= u64_le_bytes(salt) + addr@);
        EventKey { bytes }
    }

    /// Returns a fresh copy of the key bytes.
    pub fn to_vec(&self) -> (r: Vec<u8>)
        ensures
            r@ == self@,
    {
        clone_byte_vec(&self.bytes)
    }
}

impl Clone for EventKey {
    /// The copy holds the same bytes as `self`.
    fn clone(&self) -> (r: Self)
        ensures
            r@ == self@,
    {
        EventKey { bytes: clone_byte_vec(&self.bytes) }
    }
}

} // verus!
