//! Validator account addresses and their canonical order.
//!
//! An address is a fixed-size byte string. The canonical order on addresses
//! is the lexicographic order on their bytes; it is the order in which the
//! vote mapping of a block metadata record is stored and encoded.

use vstd::prelude::*;

verus! {

/// Number of bytes in a validator account address.
pub const ADDRESS_LENGTH: usize = 16;

/// The address of a validator account: a fixed-size byte string.
pub struct AccountAddress {
    bytes: Vec<u8>,
}

impl View for AccountAddress {
    type V = Seq<u8>;

    closed spec fn view(&self) -> Seq<u8> {
        self.bytes@
    }
}

/// Lexicographic strict order on byte strings: `a` comes before `b` when, at
/// the first position where they differ, `a` holds the smaller byte, or when
/// `a` is a proper prefix of `b`.
pub open spec fn lex_lt(a: Seq<u8>, b: Seq<u8>) -> bool
    decreases a.len(),
{
    if b.len() == 0 {
        false
    } else if a.len() == 0 {
        true
    } else if a[0] != b[0] {
        a[0] < b[0]
    } else {
        lex_lt(a.subrange(1, a.len() as int), b.subrange(1, b.len() as int))
    }
}

/// No byte string comes before itself.
pub proof fn lemma_lex_lt_irrefl(a: Seq<u8>)
    ensures
        !lex_lt(a, a),
    decreases a.len(),
{
    if a.len() > 0 {
        lemma_lex_lt_irrefl(a.subrange(1, a.len() as int));
    }
}

/// The lexicographic order is transitive.
pub proof fn lemma_lex_lt_trans(a: Seq<u8>, b: Seq<u8>, c: Seq<u8>)
    requires
        lex_lt(a, b),
        lex_lt(b, c),
    ensures
        lex_lt(a, c),
    decreases a.len(),
{
    if a.len() > 0 {
        if a[0] == b[0] && b[0] == c[0] {
            lemma_lex_lt_trans(
                a.subrange(1, a.len() as int),
                b.subrange(1, b.len() as int),
                c.subrange(1, c.len() as int),
            );
        }
    }
}

/// The lexicographic order is asymmetric.
pub proof fn lemma_lex_lt_asym(a: Seq<u8>, b: Seq<u8>)
    requires
        lex_lt(a, b),
    ensures
        !lex_lt(b, a),
{
    if lex_lt(b, a) {
        lemma_lex_lt_trans(a, b, a);
        lemma_lex_lt_irrefl(a);
    }
}

/// Byte strings of equal length that agree before position `i` and differ
/// there are ordered by the bytes at position `i`.
pub proof fn lemma_lex_lt_from_first_diff(a: Seq<u8>, b: Seq<u8>, i: int)
    requires
        a.len() == b.len(),
        0 <= i < a.len(),
        forall|j: int| 0 <= j < i ==> a[j] == b[j],
        a[i] < b[i],
    ensures
        lex_lt(a, b),
    decreases i,
{
    if i > 0 {
        let a1 = a.subrange(1, a.len() as int);
        let b1 = b.subrange(1, b.len() as int);
        assert forall|j: int| 0 <= j < i - 1 implies a1[j] == b1[j] by {
            assert(a1[j] == a[j + 1]);
            assert(b1[j] == b[j + 1]);
        }
        assert(a1[i - 1] < b1[i - 1]);
        lemma_lex_lt_from_first_diff(a1, b1, i - 1);
    }
}

/// Outcome of comparing two addresses in the canonical order.
#[derive(Clone, Copy, Debug, PartialEq, Eq, Structural)]
pub enum AddressOrdering {
    Less,
    Equal,
    Greater,
}

impl AccountAddress {
    /// An address is well formed when it holds exactly `ADDRESS_LENGTH` bytes.
    pub open spec fn wf(self) -> bool {
        self@.len() == ADDRESS_LENGTH
    }

    /// Builds an address from its bytes.
    pub fn new(bytes: Vec<u8>) -> (r: Self)
        requires
            bytes@.len() == ADDRESS_LENGTH,
        ensures
            r@ == bytes@,
            r.wf(),
    {
        AccountAddress { bytes }
    }

    /// Returns a fresh copy of the address bytes.
    pub fn to_vec(&self) -> (r: Vec<u8>)
        ensures
            r@ == self@,
    {
        clone_byte_vec(&self.bytes)
    }

    /// Compares two addresses in the canonical (lexicographic) order.
    pub fn compare(&self, other: &AccountAddress) -> (r: AddressOrdering)
        requires
            self.wf(),
            other.wf(),
        ensures
            r is Less ==> lex_lt(self@, other@),
            r is Equal ==> self@ == other@,
            r is Greater ==> lex_lt(other@, self@),
    {
        compare_bytes(&self.bytes, &other.bytes)
    }
}

impl Clone for AccountAddress {
    /// The copy holds the same bytes as `self`.
    fn clone(&self) -> (r: Self)
        ensures
            r@ == self@,
    {
        AccountAddress { bytes: clone_byte_vec(&self.bytes) }
    }
}

/// Returns a fresh byte vector holding the same bytes as the argument.
pub(crate) fn clone_byte_vec(bytes: &Vec<u8>) -> (r: Vec<u8>)
    ensures
        r@ == bytes@,
{
    let mut r: Vec<u8> = Vec::new();
    let mut i: usize = 0;
    while i < bytes.len()
        invariant
            i <= bytes@.len(),
            r@ == bytes@.subrange(0, i as int),
        decreases bytes@.len() - i,
    {
        r.push(bytes[i]);
        assert(r@ =~= bytes@.subrange(0, i + 1 as int));
        i = i + 1;
    }
    assert(r@ =~= bytes@);
    r
}

/// Compares two byte strings of equal length in the lexicographic order.
pub(crate) fn compare_bytes(a: &Vec<u8>, b: &Vec<u8>) -> (r: AddressOrdering)
    requires
        a@.len() == b@.len(),
    ensures
        r is Less ==> lex_lt(a@, b@),
        r is Equal ==> a@ == b@,
        r is Greater ==> lex_lt(b@, a@),
{
    let mut i: usize = 0;
    while i < a.len()
        invariant
            i <= a@.len(),
            a@.len() == b@.len(),
            forall|j: int| 0 <= j < i ==> a@[j] == b@[j],
        decreases a@.len() - i,
    {
        if a[i] < b[i] {
            proof {
                lemma_lex_lt_from_first_diff(a@, b@, i as int);
            }
            return AddressOrdering::Less;
        }
        if a[i] > b[i] {
            proof {
                lemma_lex_lt_from_first_diff(b@, a@, i as int);
            }
            return AddressOrdering::Greater;
        }
        i = i + 1;
    }
    assert(a@ =~= b@);
    AddressOrdering::Equal
}

} // verus!
