//! Well-known system accounts.

use vstd::prelude::*;

use crate::account_address::{AccountAddress, ADDRESS_LENGTH};

verus! {

/// The bytes of the association (root) account address: zero bytes followed
/// by the well-known tail `0x0A550C18`.
pub open spec fn association_address_bytes() -> Seq<u8> {
    seq![0u8, 0, 0, 0, 0, 0, 0, 0, 0, 0, 0, 0, 0x0a, 0x55, 0x0c, 0x18]
}

/// Returns the address of the association (root) account, the fixed,
/// publicly-known identity that system event streams are derived from.
pub fn association_address() -> (r: AccountAddress)
    ensures
        r@ == association_address_bytes(),
        r.wf(),
{
    let bytes: Vec<u8> = vec![0u8, 0, 0, 0, 0, 0, 0, 0, 0, 0, 0, 0, 0x0a, 0x55, 0x0c, 0x18];
    assert(bytes@ =~= association_address_bytes());
    assert(bytes@.len() == ADDRESS_LENGTH);
    AccountAddress::new(bytes)
}

} // verus!
