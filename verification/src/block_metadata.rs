//! The block metadata record and its canonical encoding.
//!
//! A record snapshots the agreed-upon facts about one block: its id, the
//! proposer's timestamp, the previous block's votes, and the proposer's
//! address. The vote mapping is stored sorted by voter address in the
//! canonical (lexicographic) order, so that two records built from the same
//! logical votes — in whatever order the votes arrived — hold, and encode to,
//! identical bytes.
//!
//! The canonical encoding of the vote mapping is a fixed-width, key-sorted
//! byte sequence: one entry per voter in ascending address order, each entry
//! the address bytes followed by the signature bytes. The entry count is
//! implied by the length, so an empty mapping encodes to an empty sequence.

use vstd::prelude::*;

use crate::account_address::{
    lemma_lex_lt_asym, lemma_lex_lt_irrefl, lemma_lex_lt_trans, lex_lt,
    AccountAddress, AddressOrdering, ADDRESS_LENGTH,
};
use crate::account_config::{association_address, association_address_bytes};
use crate::crypto::{Ed25519Signature, HashValue, ED25519_SIGNATURE_LENGTH, HASH_LENGTH};
use crate::event::{u64_le_bytes, EventKey};

verus! {

/// Number of bytes in one encoded vote entry: an address followed by a
/// signature.
pub const VOTE_ENTRY_LENGTH: usize = ADDRESS_LENGTH + ED25519_SIGNATURE_LENGTH;

/// Discriminator of the "new block" event stream among the streams of the
/// association account.
pub const NEW_BLOCK_EVENT_DISCRIMINATOR: u64 = 2;

/// The canonicalization step failed: the vote bytes do not form a canonical,
/// key-sorted sequence of fixed-width entries.
#[derive(Clone, Copy, Debug, PartialEq, Eq, Structural)]
pub struct EncodingError;

/// A vote entry — the voter's address bytes paired with the signature
/// bytes — is well formed when both have their fixed lengths.
pub open spec fn vote_entry_wf(e: (Seq<u8>, Seq<u8>)) -> bool {
    e.0.len() == ADDRESS_LENGTH && e.1.len() == ED25519_SIGNATURE_LENGTH
}

/// The vote entries are strictly ascending by voter address in the canonical
/// order; in particular no address repeats.
pub open spec fn votes_sorted(vs: Seq<(Seq<u8>, Seq<u8>)>) -> bool {
    forall|i: int, j: int|
        0 <= i < j < vs.len() ==> lex_lt(#[trigger] vs[i].0, #[trigger] vs[j].0)
}

/// A well-formed vote sequence: fixed-width entries, strictly ascending by
/// address.
pub open spec fn votes_wf(vs: Seq<(Seq<u8>, Seq<u8>)>) -> bool {
    votes_sorted(vs) && forall|i: int| 0 <= i < vs.len() ==> vote_entry_wf(#[trigger] vs[i])
}

/// No two vote entries share an address.
pub open spec fn votes_key_distinct(vs: Seq<(Seq<u8>, Seq<u8>)>) -> bool {
    forall|i: int, j: int|
        0 <= i < j < vs.len() ==> (#[trigger] vs[i]).0 != (#[trigger] vs[j]).0
}

/// The mathematical content of a vote list: the bytes of each address and
/// signature, in storage order.
pub open spec fn vote_views(s: Seq<(AccountAddress, Ed25519Signature)>) -> Seq<(Seq<u8>, Seq<u8>)> {
    s.map_values(|e: (AccountAddress, Ed25519Signature)| (e.0@, e.1@))
}

/// The mapping that a vote sequence represents, built by inserting its
/// entries in order: a later entry for the same address replaces an earlier
/// one.
pub open spec fn vote_map_of(vs: Seq<(Seq<u8>, Seq<u8>)>) -> Map<Seq<u8>, Seq<u8>>
    decreases vs.len(),
{
    if vs.len() == 0 {
        Map::empty()
    } else {
        vote_map_of(vs.drop_last()).insert(vs.last().0, vs.last().1)
    }
}

/// The canonical encoding of a vote sequence: the entries' bytes, in order.
pub open spec fn encode_votes(vs: Seq<(Seq<u8>, Seq<u8>)>) -> Seq<u8>
    decreases vs.len(),
{
    if vs.len() == 0 {
        Seq::empty()
    } else {
        encode_votes(vs.drop_last()) + vs.last().0 + vs.last().1
    }
}

/// The decoding of canonical vote bytes: the byte length must be a whole
/// number of fixed-width entries; each entry is split into address and
/// signature bytes. (Whether the entries are sorted is checked separately.)
pub open spec fn parse_votes(b: Seq<u8>) -> Option<Seq<(Seq<u8>, Seq<u8>)>> {
    if b.len() % (VOTE_ENTRY_LENGTH as nat) == 0 {
        Some(
            Seq::new(
                b.len() / (VOTE_ENTRY_LENGTH as nat),
                |k: int|
                    (
                        b.subrange(k * (VOTE_ENTRY_LENGTH as int), k * (VOTE_ENTRY_LENGTH as int) + (ADDRESS_LENGTH as int)),
                        b.subrange(
                            k * (VOTE_ENTRY_LENGTH as int) + (ADDRESS_LENGTH as int),
                            (k + 1) * (VOTE_ENTRY_LENGTH as int),
                        ),
                    ),
            ),
        )
    } else {
        None
    }
}

/// The mathematical content of a block metadata record.
pub struct BlockMetadataView {
    /// The block id bytes.
    pub id: Seq<u8>,
    /// The proposer's timestamp, in microseconds.
    pub timestamp_usecs: u64,
    /// The vote entries, sorted by address.
    pub votes: Seq<(Seq<u8>, Seq<u8>)>,
    /// The proposer's address bytes.
    pub proposer: Seq<u8>,
}

/// The record of the agreed-upon facts about one block, stored on chain at
/// the start of the block. Immutable once constructed; consumed by
/// [`BlockMetadata::into_inner`].
pub struct BlockMetadata {
    id: HashValue,
    timestamp_usecs: u64,
    // The target encoding has no native associative containers, so the vote
    // mapping is stored as a vector of entries sorted by address; the sort
    // order is part of the encoding contract, not an implementation detail.
    previous_block_votes: Vec<(AccountAddress, Ed25519Signature)>,
    proposer: AccountAddress,
}

impl View for BlockMetadata {
    type V = BlockMetadataView;

    closed spec fn view(&self) -> BlockMetadataView {
        BlockMetadataView {
            id: self.id@,
            timestamp_usecs: self.timestamp_usecs,
            votes: vote_views(self.previous_block_votes@),
            proposer: self.proposer@,
        }
    }
}

impl BlockMetadata {
    /// A record is well formed when its id, addresses and signatures have
    /// their fixed lengths and its votes are sorted by address.
    pub open spec fn wf(self) -> bool {
        self@.id.len() == HASH_LENGTH && self@.proposer.len() == ADDRESS_LENGTH
            && votes_wf(self@.votes)
    }

    /// Builds the record for one block from the consensus outcome: the block
    /// id, the proposer's timestamp, the votes on the previous block in any
    /// order, and the proposer. Construction cannot fail and performs no
    /// cryptographic validation — that happened upstream.
    ///
    /// The votes are brought into the canonical order: the stored sequence
    /// is sorted by address and represents exactly the mapping built by
    /// inserting the given votes in order (a later vote by the same address
    /// replaces an earlier one). By uniqueness of sorted representations
    /// ([`lemma_sorted_votes_unique`]) this determines the record in full.
    pub fn new(
        id: HashValue,
        timestamp_usecs: u64,
        previous_block_votes: Vec<(AccountAddress, Ed25519Signature)>,
        proposer: AccountAddress,
    ) -> (r: BlockMetadata)
        requires
            id.wf(),
            proposer.wf(),
            forall|i: int|
                0 <= i < previous_block_votes@.len() ==> (#[trigger] previous_block_votes@[i]).0.wf()
                    && previous_block_votes@[i].1.wf(),
        ensures
            r.wf(),
            r@.id == id@,
            r@.timestamp_usecs == timestamp_usecs,
            r@.proposer == proposer@,
            vote_map_of(r@.votes) == vote_map_of(vote_views(previous_block_votes@)),
    {
        let ghost pvs = vote_views(previous_block_votes@);
        let mut votes: Vec<(AccountAddress, Ed25519Signature)> = Vec::new();
        let mut k: usize = 0;
        while k < previous_block_votes.len()
            invariant
                k <= previous_block_votes@.len(),
                forall|i: int|
                    0 <= i < previous_block_votes@.len() ==> (#[trigger] previous_block_votes@[i]).0.wf()
                        && previous_block_votes@[i].1.wf(),
                pvs == vote_views(previous_block_votes@),
                votes_sorted(vote_views(votes@)),
                forall|i: int|
                    0 <= i < votes@.len() ==> (#[trigger] votes@[i]).0.wf() && votes@[i].1.wf(),
                vote_map_of(vote_views(votes@)) == vote_map_of(pvs.subrange(0, k as int)),
            decreases previous_block_votes@.len() - k,
        {
            let a = previous_block_votes[k].0.clone();
            let s = previous_block_votes[k].1.clone();
            proof {
                assert(a@ == pvs[k as int].0);
                assert(s@ == pvs[k as int].1);
            }
            insert_vote(&mut votes, a, s);
            proof {
                assert(pvs.subrange(0, k as int + 1).drop_last() =~= pvs.subrange(0, k as int));
                assert(pvs.subrange(0, k as int + 1).last() == pvs[k as int]);
            }
            k = k + 1;
        }
        proof {
            assert(pvs.subrange(0, previous_block_votes@.len() as int) =~= pvs);
        }
        BlockMetadata { id, timestamp_usecs, previous_block_votes: votes, proposer }
    }

    /// Returns the block id.
    pub fn id(&self) -> (r: HashValue)
        ensures
            r@ == self@.id,
    {
        self.id.clone()
    }

    /// Returns the proposer's address.
    pub fn proposer(&self) -> (r: AccountAddress)
        ensures
            r@ == self@.proposer,
    {
        self.proposer.clone()
    }

    /// Returns the addresses of the validators whose votes on the previous
    /// block the record holds, as a fresh vector in strictly ascending
    /// canonical order.
    pub fn voters(&self) -> (r: Vec<AccountAddress>)
        requires
            self.wf(),
        ensures
            r@.len() == self@.votes.len(),
            forall|i: int| 0 <= i < r@.len() ==> (#[trigger] r@[i])@ == self@.votes[i].0,
            forall|i: int, j: int| 0 <= i < j < r@.len() ==> lex_lt(r@[i]@, r@[j]@),
    {
        let mut r: Vec<AccountAddress> = Vec::new();
        let mut k: usize = 0;
        while k < self.previous_block_votes.len()
            invariant
                self.wf(),
                k <= self@.votes.len(),
                self@.votes.len() == self.previous_block_votes@.len(),
                r@.len() == k,
                forall|i: int| 0 <= i < k ==> (#[trigger] r@[i])@ == self@.votes[i].0,
            decreases self.previous_block_votes@.len() - k,
        {
            let a = self.previous_block_votes[k].0.clone();
            r.push(a);
            k = k + 1;
        }
        r
    }
}

/// A well-formed vote sequence encodes to one fixed-width entry per vote.
pub proof fn lemma_encode_votes_len(vs: Seq<(Seq<u8>, Seq<u8>)>)
    requires
        forall|i: int| 0 <= i < vs.len() ==> vote_entry_wf(#[trigger] vs[i]),
    ensures
        encode_votes(vs).len() == vs.len() * (VOTE_ENTRY_LENGTH as int),
    decreases vs.len(),
{
    if vs.len() > 0 {
        lemma_encode_votes_len(vs.drop_last());
    }
}

/// A sorted vote sequence holds no repeated address.
pub proof fn lemma_sorted_key_distinct(vs: Seq<(Seq<u8>, Seq<u8>)>)
    requires
        votes_sorted(vs),
    ensures
        votes_key_distinct(vs),
{
    assert forall|i: int, j: int|
        0 <= i < j < vs.len() implies (#[trigger] vs[i]).0 != (#[trigger] vs[j]).0 by {
        assert(lex_lt(vs[i].0, vs[j].0));
        if vs[i].0 == vs[j].0 {
            lemma_lex_lt_irrefl(vs[i].0);
        }
    }
}

/// A vote sequence without repeated addresses and its mapping list the same
/// votes: every entry is found in the mapping under its address, and every
/// address in the mapping comes from an entry.
pub proof fn lemma_vote_map_of_distinct(vs: Seq<(Seq<u8>, Seq<u8>)>)
    requires
        votes_key_distinct(vs),
    ensures
        forall|i: int|
            0 <= i < vs.len() ==> vote_map_of(vs).contains_key((#[trigger] vs[i]).0)
                && vote_map_of(vs)[vs[i].0] == vs[i].1,
        forall|k: Seq<u8>|
            #[trigger] vote_map_of(vs).contains_key(k) ==> exists|i: int|
                0 <= i < vs.len() && (#[trigger] vs[i]).0 == k,
    decreases vs.len(),
{
    if vs.len() > 0 {
        let front = vs.drop_last();
        let last = vs.last();
        assert forall|i: int, j: int|
            0 <= i < j < front.len() implies (#[trigger] front[i]).0 != (
            #[trigger] front[j]).0 by {
            assert(front[i] == vs[i]);
            assert(front[j] == vs[j]);
        }
        lemma_vote_map_of_distinct(front);
        assert forall|i: int|
            0 <= i < vs.len() implies vote_map_of(vs).contains_key((#[trigger] vs[i]).0)
                && vote_map_of(vs)[vs[i].0] == vs[i].1 by {
            if i < vs.len() - 1 {
                assert(front[i] == vs[i]);
                assert(vs[i].0 != last.0);
            }
        }
        assert forall|k: Seq<u8>|
            #[trigger] vote_map_of(vs).contains_key(k) implies exists|i: int|
                0 <= i < vs.len() && (#[trigger] vs[i]).0 == k by {
            if k == last.0 {
                assert((vs[vs.len() - 1]).0 == k);
            } else {
                assert(vote_map_of(front).contains_key(k));
                let i = choose|i: int| 0 <= i < front.len() && (#[trigger] front[i]).0 == k;
                assert((vs[i]).0 == k);
            }
        }
    }
}

/// The sorted special case of [`lemma_vote_map_of_distinct`].
pub proof fn lemma_vote_map_of_sorted(vs: Seq<(Seq<u8>, Seq<u8>)>)
    requires
        votes_sorted(vs),
    ensures
        forall|i: int|
            0 <= i < vs.len() ==> vote_map_of(vs).contains_key((#[trigger] vs[i]).0)
                && vote_map_of(vs)[vs[i].0] == vs[i].1,
        forall|k: Seq<u8>|
            #[trigger] vote_map_of(vs).contains_key(k) ==> exists|i: int|
                0 <= i < vs.len() && (#[trigger] vs[i]).0 == k,
{
    lemma_sorted_key_distinct(vs);
    lemma_vote_map_of_distinct(vs);
}

/// Insertion order is irrelevant: two vote sequences without repeated
/// addresses that hold the same set of votes — the same votes, in whatever
/// order — represent the same mapping. With
/// [`lemma_canonical_encoding_deterministic`] this gives the determinism of
/// the canonical encoding under reordering of the input.
pub proof fn lemma_vote_map_insertion_order_irrelevant(
    p1: Seq<(Seq<u8>, Seq<u8>)>,
    p2: Seq<(Seq<u8>, Seq<u8>)>,
)
    requires
        votes_key_distinct(p1),
        votes_key_distinct(p2),
        p1.to_set() == p2.to_set(),
    ensures
        vote_map_of(p1) == vote_map_of(p2),
{
    lemma_vote_map_of_distinct(p1);
    lemma_vote_map_of_distinct(p2);
    let m1 = vote_map_of(p1);
    let m2 = vote_map_of(p2);
    assert forall|key: Seq<u8>| #![all_triggers] true implies {
        (m1.contains_key(key) <==> m2.contains_key(key)) && (m1.contains_key(key)
            ==> m1[key] == m2[key])
    } by {
        if m1.contains_key(key) {
            let i = choose|i: int| 0 <= i < p1.len() && (#[trigger] p1[i]).0 == key;
            assert(p1.contains(p1[i]));
            assert(p1.to_set().contains(p1[i]));
            assert(p2.to_set().contains(p1[i]));
            assert(p2.contains(p1[i]));
            let j = choose|j: int| 0 <= j < p2.len() && p2[j] == p1[i];
            assert(p2[j].0 == key);
            assert(m2.contains_key(key));
            assert(m1[key] == p1[i].1);
            assert(m2[key] == p2[j].1);
        }
        if m2.contains_key(key) {
            let j = choose|j: int| 0 <= j < p2.len() && (#[trigger] p2[j]).0 == key;
            assert(p2.contains(p2[j]));
            assert(p2.to_set().contains(p2[j]));
            assert(p1.to_set().contains(p2[j]));
            assert(p1.contains(p2[j]));
            let i = choose|i: int| 0 <= i < p1.len() && p1[i] == p2[j];
            assert(p1[i].0 == key);
            assert(m1.contains_key(key));
        }
    }
    assert(m1 =~= m2);
}

/// Canonical representation is unique: two sorted vote sequences that
/// represent the same mapping are the same sequence.
pub proof fn lemma_sorted_votes_unique(v1: Seq<(Seq<u8>, Seq<u8>)>, v2: Seq<(Seq<u8>, Seq<u8>)>)
    requires
        votes_sorted(v1),
        votes_sorted(v2),
        vote_map_of(v1) == vote_map_of(v2),
    ensures
        v1 == v2,
    decreases v1.len(),
{
    lemma_vote_map_of_sorted(v1);
    lemma_vote_map_of_sorted(v2);
    if v1.len() == 0 {
        if v2.len() > 0 {
            assert(vote_map_of(v2).contains_key((v2[0]).0));
            assert(false);
        }
        assert(v1 =~= v2);
    } else if v2.len() == 0 {
        assert(vote_map_of(v1).contains_key((v1[0]).0));
        assert(false);
    } else {
        let k1 = v1.last().0;
        let k2 = v2.last().0;
        // The last key of a sorted sequence is the greatest key of its
        // mapping; both sequences share the mapping, so the last keys agree.
        assert(vote_map_of(v1).contains_key((v1[(v1.len() - 1) as int]).0));
        assert(vote_map_of(v2).contains_key((v2[(v2.len() - 1) as int]).0));
        let i1 = choose|i: int| 0 <= i < v2.len() && (#[trigger] v2[i]).0 == k1;
        let i2 = choose|i: int| 0 <= i < v1.len() && (#[trigger] v1[i]).0 == k2;
        if i1 < v2.len() - 1 {
            assert(lex_lt(v2[i1].0, v2[v2.len() - 1].0));
        }
        if i2 < v1.len() - 1 {
            assert(lex_lt(v1[i2].0, v1[v1.len() - 1].0));
        }
        if k1 != k2 {
            assert(lex_lt(k1, k2) && lex_lt(k2, k1));
            lemma_lex_lt_asym(k1, k2);
        }
        assert(k1 == k2);
        assert(vote_map_of(v1)[k1] == v1.last().1);
        assert(vote_map_of(v2)[k2] == v2.last().1);
        let f1 = v1.drop_last();
        let f2 = v2.drop_last();
        assert forall|i: int, j: int|
            0 <= i < j < f1.len() implies lex_lt(f1[i].0, f1[j].0) by {
            assert(f1[i] == v1[i]);
            assert(f1[j] == v1[j]);
        }
        assert forall|i: int, j: int|
            0 <= i < j < f2.len() implies lex_lt(f2[i].0, f2[j].0) by {
            assert(f2[i] == v2[i]);
            assert(f2[j] == v2[j]);
        }
        lemma_vote_map_of_sorted(f1);
        lemma_vote_map_of_sorted(f2);
        // The fronts cannot mention the shared last key.
        assert(!vote_map_of(f1).contains_key(k1)) by {
            if vote_map_of(f1).contains_key(k1) {
                let i = choose|i: int| 0 <= i < f1.len() && (#[trigger] f1[i]).0 == k1;
                assert(f1[i] == v1[i]);
                assert(lex_lt(v1[i].0, v1[v1.len() - 1].0));
                lemma_lex_lt_irrefl(k1);
            }
        }
        assert(!vote_map_of(f2).contains_key(k1)) by {
            if vote_map_of(f2).contains_key(k1) {
                let i = choose|i: int| 0 <= i < f2.len() && (#[trigger] f2[i]).0 == k1;
                assert(f2[i] == v2[i]);
                assert(lex_lt(v2[i].0, v2[v2.len() - 1].0));
                lemma_lex_lt_irrefl(k1);
            }
        }
        assert(vote_map_of(f1) =~= vote_map_of(v1).remove(k1));
        assert(vote_map_of(f2) =~= vote_map_of(v2).remove(k1));
        lemma_sorted_votes_unique(f1, f2);
        assert(v1.last() == v2.last()) by {
            assert(v1.last().0 == v2.last().0 && v1.last().1 == v2.last().1);
            assert(v1.last() =~~= v2.last());
        }
        assert forall|i: int| 0 <= i < v1.len() implies v1[i] == v2[i] by {
            if i < v1.len() - 1 {
                assert(v1[i] == f1[i]);
                assert(v2[i] == f2[i]);
            }
        }
        assert(v1 =~= v2);
    }
}

/// Determinism: two sorted vote sequences built from the same logical
/// mapping — in whatever order the votes were inserted — are identical and
/// produce byte-identical canonical encodings.
pub proof fn lemma_canonical_encoding_deterministic(
    v1: Seq<(Seq<u8>, Seq<u8>)>,
    v2: Seq<(Seq<u8>, Seq<u8>)>,
)
    requires
        votes_sorted(v1),
        votes_sorted(v2),
        vote_map_of(v1) == vote_map_of(v2),
    ensures
        v1 == v2,
        encode_votes(v1) == encode_votes(v2),
{
    lemma_sorted_votes_unique(v1, v2);
}

/// Determinism at the record level: two well-formed records that hold the
/// same vote mapping — however their votes were inserted — hold the same
/// vote sequence and canonicalize it to byte-identical encodings.
pub proof fn lemma_record_encoding_deterministic(r1: BlockMetadata, r2: BlockMetadata)
    requires
        r1.wf(),
        r2.wf(),
        vote_map_of(r1@.votes) == vote_map_of(r2@.votes),
    ensures
        r1@.votes == r2@.votes,
        encode_votes(r1@.votes) == encode_votes(r2@.votes),
{
    lemma_canonical_encoding_deterministic(r1@.votes, r2@.votes);
}

/// Each encoded entry sits at its fixed offset: entry `k` of a well-formed
/// vote sequence occupies bytes `k * VOTE_ENTRY_LENGTH` up to
/// `(k + 1) * VOTE_ENTRY_LENGTH` of the encoding, address first.
#[verifier::rlimit(30)]
pub proof fn lemma_encode_votes_chunk(vs: Seq<(Seq<u8>, Seq<u8>)>, k: int)
    requires
        forall|i: int| 0 <= i < vs.len() ==> vote_entry_wf(#[trigger] vs[i]),
        0 <= k < vs.len(),
    ensures
        encode_votes(vs).subrange(
            k * (VOTE_ENTRY_LENGTH as int),
            k * (VOTE_ENTRY_LENGTH as int) + (ADDRESS_LENGTH as int),
        ) == vs[k].0,
        encode_votes(vs).subrange(
            k * (VOTE_ENTRY_LENGTH as int) + (ADDRESS_LENGTH as int),
            (k + 1) * (VOTE_ENTRY_LENGTH as int),
        ) == vs[k].1,
    decreases vs.len(),
{
    let e = VOTE_ENTRY_LENGTH as int;
    let a = ADDRESS_LENGTH as int;
    let front = vs.drop_last();
    lemma_encode_votes_len(vs);
    lemma_encode_votes_len(front);
    if k == vs.len() - 1 {
        assert(encode_votes(vs).subrange(k * e, k * e + a) =~= vs[k].0);
        assert(encode_votes(vs).subrange(k * e + a, (k + 1) * e) =~= vs[k].1);
    } else {
        lemma_encode_votes_chunk(front, k);
        assert(encode_votes(vs).subrange(k * e, k * e + a) =~= encode_votes(front).subrange(
            k * e,
            k * e + a,
        ));
        assert(encode_votes(vs).subrange(k * e + a, (k + 1) * e) =~= encode_votes(
            front,
        ).subrange(k * e + a, (k + 1) * e));
    }
}

/// Round trip: decoding the canonical encoding of any well-formed vote
/// sequence gives back exactly that sequence. Together with the uniqueness
/// of sorted representations this makes the encoding lossless.
pub proof fn lemma_votes_round_trip(vs: Seq<(Seq<u8>, Seq<u8>)>)
    requires
        forall|i: int| 0 <= i < vs.len() ==> vote_entry_wf(#[trigger] vs[i]),
    ensures
        parse_votes(encode_votes(vs)) == Some(vs),
{
    let b = encode_votes(vs);
    let n = vs.len();
    lemma_encode_votes_len(vs);
    assert((n * (VOTE_ENTRY_LENGTH as nat)) % (VOTE_ENTRY_LENGTH as nat) == 0) by (nonlinear_arith);
    assert((n * (VOTE_ENTRY_LENGTH as nat)) / (VOTE_ENTRY_LENGTH as nat) == n) by (nonlinear_arith);
    let ps = parse_votes(b).unwrap();
    assert forall|k: int| 0 <= k < n implies ps[k] == vs[k] by {
        lemma_encode_votes_chunk(vs, k);
    }
    assert(ps =~= vs);
}

/// Round trip at the record level: decoding the vote bytes that a
/// well-formed record canonicalizes to reconstructs exactly the record's
/// vote sequence — and [`BlockMetadata::into_inner`] hands the id, timestamp
/// and proposer through unchanged.
pub proof fn lemma_record_round_trip(r: BlockMetadata)
    requires
        r.wf(),
    ensures
        parse_votes(encode_votes(r@.votes)) == Some(r@.votes),
{
    lemma_votes_round_trip(r@.votes);
}

/// Encodes a vote list into the canonical byte sequence.
fn encode_vote_map(votes: &Vec<(AccountAddress, Ed25519Signature)>) -> (r: Vec<u8>)
    requires
        forall|i: int| 0 <= i < votes@.len() ==> vote_entry_wf(#[trigger] vote_views(votes@)[i]),
    ensures
        r@ == encode_votes(vote_views(votes@)),
{
    let mut out: Vec<u8> = Vec::new();
    let mut k: usize = 0;
    while k < votes.len()
        invariant
            k <= votes@.len(),
            forall|i: int| 0 <= i < votes@.len() ==> vote_entry_wf(#[trigger] vote_views(votes@)[i]),
            out@ == encode_votes(vote_views(votes@).subrange(0, k as int)),
        decreases votes@.len() - k,
    {
        let mut ab = votes[k].0.to_vec();
        out.append(&mut ab);
        let mut sb = votes[k].1.to_vec();
        out.append(&mut sb);
        proof {
            let vs = vote_views(votes@);
            assert(vs.subrange(0, k + 1 as int).drop_last() =~= vs.subrange(0, k as int));
            assert(vs.subrange(0, k + 1 as int).last() == vs[k as int]);
        }
        k = k + 1;
    }
    proof {
        assert(vote_views(votes@).subrange(0, votes@.len() as int) =~= vote_views(votes@));
    }
    out
}

/// Decides whether `x` comes strictly before `y` in the canonical order.
fn addr_lt(x: &AccountAddress, y: &AccountAddress) -> (r: bool)
    requires
        x.wf(),
        y.wf(),
    ensures
        r == lex_lt(x@, y@),
{
    let c = x.compare(y);
    match c {
        AddressOrdering::Less => true,
        AddressOrdering::Equal => {
            proof {
                lemma_lex_lt_irrefl(x@);
            }
            false
        },
        AddressOrdering::Greater => {
            proof {
                lemma_lex_lt_asym(y@, x@);
            }
            false
        },
    }
}

/// Decides whether the address of vote `i` comes strictly before `addr`.
fn vote_addr_lt(
    votes: &Vec<(AccountAddress, Ed25519Signature)>,
    i: usize,
    addr: &AccountAddress,
) -> (r: bool)
    requires
        i < votes@.len(),
        votes@[i as int].0.wf(),
        addr.wf(),
    ensures
        r == lex_lt(vote_views(votes@)[i as int].0, addr@),
{
    let p = &votes[i];
    addr_lt(&p.0, addr)
}

/// Inserts one vote into a sorted vote list, keeping it sorted; a vote by an
/// address already present replaces the earlier one, as a repeated mapping
/// insertion would.
#[verifier::loop_isolation(false)]
fn insert_vote(
    votes: &mut Vec<(AccountAddress, Ed25519Signature)>,
    addr: AccountAddress,
    sig: Ed25519Signature,
)
    requires
        votes_sorted(vote_views(old(votes)@)),
        forall|i: int|
            0 <= i < old(votes)@.len() ==> (#[trigger] old(votes)@[i]).0.wf()
                && old(votes)@[i].1.wf(),
        addr.wf(),
        sig.wf(),
    ensures
        votes_sorted(vote_views(final(votes)@)),
        forall|i: int|
            0 <= i < final(votes)@.len() ==> (#[trigger] final(votes)@[i]).0.wf()
                && final(votes)@[i].1.wf(),
        vote_map_of(vote_views(final(votes)@)) == vote_map_of(
            vote_views(old(votes)@),
        ).insert(addr@, sig@),
{
    let ghost ovs = vote_views(votes@);
    let n = votes.len();
    let mut i: usize = 0;
    while i < n && vote_addr_lt(votes, i, &addr)
        invariant
            i <= n,
            forall|j: int| 0 <= j < i ==> lex_lt(#[trigger] ovs[j].0, addr@),
        decreases n - i,
    {
        i = i + 1;
    }
    if i < n {
        let c = {
            let p = &votes[i];
            p.0.compare(&addr)
        };
        match c {
            AddressOrdering::Equal => {
                votes.set(i, (addr, sig));
                proof {
                    let nvs = vote_views(votes@);
                    assert(nvs =~= ovs.update(i as int, (addr@, sig@)));
                    assert(ovs[i as int].0 == addr@);
                    assert forall|a: int, b: int|
                        0 <= a < b < nvs.len() implies lex_lt(nvs[a].0, nvs[b].0) by {
                        assert(nvs[a].0 == ovs[a].0);
                        assert(nvs[b].0 == ovs[b].0);
                    }
                    lemma_vote_map_of_sorted(ovs);
                    lemma_vote_map_of_sorted(nvs);
                    assert forall|key: Seq<u8>| #![all_triggers] true implies {
                        (vote_map_of(nvs).contains_key(key) <==> vote_map_of(ovs).insert(
                            addr@,
                            sig@,
                        ).contains_key(key)) && (vote_map_of(nvs).contains_key(key)
                            ==> vote_map_of(nvs)[key] == vote_map_of(ovs).insert(
                            addr@,
                            sig@,
                        )[key])
                    } by {
                        if vote_map_of(nvs).contains_key(key) {
                            let a = choose|a: int|
                                0 <= a < nvs.len() && (#[trigger] nvs[a]).0 == key;
                            if a == i as int {
                                assert(key == addr@);
                            } else {
                                assert(ovs[a].0 == key);
                                // A key held by another entry differs from
                                // the replaced entry's key.
                                if key == addr@ {
                                    if a < i as int {
                                        assert(lex_lt(ovs[a].0, ovs[i as int].0));
                                    } else {
                                        assert(lex_lt(ovs[i as int].0, ovs[a].0));
                                    }
                                    lemma_lex_lt_irrefl(addr@);
                                }
                                assert(vote_map_of(ovs)[key] == ovs[a].1);
                                assert(nvs[a] == ovs[a]);
                                assert(vote_map_of(nvs)[key] == nvs[a].1);
                            }
                        }
                        if vote_map_of(ovs).insert(addr@, sig@).contains_key(key) {
                            if key == addr@ {
                                assert(nvs[i as int].0 == key);
                                assert(vote_map_of(nvs).contains_key(key));
                                assert(vote_map_of(nvs)[key] == nvs[i as int].1);
                            } else {
                                let a = choose|a: int|
                                    0 <= a < ovs.len() && (#[trigger] ovs[a]).0 == key;
                                assert(a != i as int);
                                assert(nvs[a] == ovs[a]);
                                assert(vote_map_of(nvs).contains_key(key));
                            }
                        }
                    }
                    assert(vote_map_of(nvs) =~= vote_map_of(ovs).insert(addr@, sig@));
                }
            },
            _ => {
                proof {
                    if c is Less {
                        assert(lex_lt(ovs[i as int].0, addr@));
                        assert(false);
                    }
                    assert(lex_lt(addr@, ovs[i as int].0));
                }
                votes.insert(i, (addr, sig));
                proof {
                    let nvs = vote_views(votes@);
                    assert(nvs =~= ovs.insert(i as int, (addr@, sig@)));
                    assert forall|a: int, b: int|
                        0 <= a < b < nvs.len() implies lex_lt(nvs[a].0, nvs[b].0) by {
                        if b < i as int {
                            assert(nvs[a] == ovs[a] && nvs[b] == ovs[b]);
                        } else if b == i as int {
                            assert(nvs[a] == ovs[a]);
                            assert(lex_lt(ovs[a].0, addr@));
                        } else {
                            assert(nvs[b] == ovs[b - 1]);
                            if a == i as int {
                                if i as int == b - 1 {
                                } else {
                                    assert(lex_lt(ovs[i as int].0, ovs[b - 1].0));
                                    lemma_lex_lt_trans(addr@, ovs[i as int].0, ovs[b - 1].0);
                                }
                            } else if a < i as int {
                                assert(nvs[a] == ovs[a]);
                                assert(lex_lt(ovs[a].0, ovs[b - 1].0));
                            } else {
                                assert(nvs[a] == ovs[a - 1]);
                                assert(lex_lt(ovs[a - 1].0, ovs[b - 1].0));
                            }
                        }
                    }
                    lemma_vote_map_of_sorted(ovs);
                    lemma_vote_map_of_sorted(nvs);
                    assert forall|key: Seq<u8>| #![all_triggers] true implies {
                        (vote_map_of(nvs).contains_key(key) <==> vote_map_of(ovs).insert(
                            addr@,
                            sig@,
                        ).contains_key(key)) && (vote_map_of(nvs).contains_key(key)
                            ==> vote_map_of(nvs)[key] == vote_map_of(ovs).insert(
                            addr@,
                            sig@,
                        )[key])
                    } by {
                        if vote_map_of(nvs).contains_key(key) {
                            let a = choose|a: int|
                                0 <= a < nvs.len() && (#[trigger] nvs[a]).0 == key;
                            if a == i as int {
                                assert(key == addr@);
                                assert(vote_map_of(nvs)[key] == nvs[a].1);
                            } else {
                                let oa = if a < i as int { a } else { a - 1 };
                                assert(nvs[a] == ovs[oa]);
                                assert(ovs[oa].0 == key);
                                if key == addr@ {
                                    if oa < i as int {
                                        assert(lex_lt(ovs[oa].0, addr@));
                                    } else {
                                        assert(lex_lt(addr@, ovs[i as int].0));
                                        if oa > i as int {
                                            assert(lex_lt(ovs[i as int].0, ovs[oa].0));
                                            lemma_lex_lt_trans(addr@, ovs[i as int].0, ovs[oa].0);
                                        }
                                    }
                                    lemma_lex_lt_irrefl(addr@);
                                }
                                assert(vote_map_of(ovs)[key] == ovs[oa].1);
                                assert(vote_map_of(nvs)[key] == nvs[a].1);
                            }
                        }
                        if vote_map_of(ovs).insert(addr@, sig@).contains_key(key) {
                            if key == addr@ {
                                assert(nvs[i as int].0 == key);
                                assert(vote_map_of(nvs).contains_key(key));
                            } else {
                                let oa = choose|a: int|
                                    0 <= a < ovs.len() && (#[trigger] ovs[a]).0 == key;
                                let a = if oa < i as int { oa } else { oa + 1 };
                                assert(nvs[a] == ovs[oa]);
                                assert(nvs[a].0 == key);
                                assert(vote_map_of(nvs).contains_key(key));
                            }
                        }
                    }
                    assert(vote_map_of(nvs) =~= vote_map_of(ovs).insert(addr@, sig@));
                }
            },
        }
    } else {
        votes.push((addr, sig));
        proof {
            let nvs = vote_views(votes@);
            assert(nvs =~= ovs.push((addr@, sig@)));
            assert(nvs.drop_last() =~= ovs);
            assert forall|a: int, b: int|
                0 <= a < b < nvs.len() implies lex_lt(nvs[a].0, nvs[b].0) by {
                if b < ovs.len() {
                    assert(nvs[a] == ovs[a] && nvs[b] == ovs[b]);
                } else {
                    assert(nvs[a] == ovs[a]);
                    assert(lex_lt(ovs[a].0, addr@));
                }
            }
            assert(vote_map_of(nvs) == vote_map_of(ovs).insert(addr@, sig@));
        }
    }
}

/// Decodes canonical vote bytes back into a vote list.
///
/// Succeeds exactly on canonical input: a whole number of fixed-width
/// entries, strictly ascending by address. On such input the returned list
/// carries exactly the parsed entries; any other input is rejected with
/// [`EncodingError`].
#[verifier::loop_isolation(false)]
pub fn decode_votes(bytes: &Vec<u8>) -> (r: Result<
    Vec<(AccountAddress, Ed25519Signature)>,
    EncodingError,
>)
    ensures
        r matches Ok(v) ==> {
            &&& parse_votes(bytes@) == Some(vote_views(v@))
            &&& votes_wf(vote_views(v@))
            &&& forall|i: int|
                0 <= i < v@.len() ==> (#[trigger] v@[i]).0.wf() && v@[i].1.wf()
        },
        r is Err ==> (parse_votes(bytes@) is None || !votes_sorted(
            parse_votes(bytes@).unwrap(),
        )),
        (parse_votes(bytes@) matches Some(vs) && votes_sorted(vs)) ==> r is Ok,
{
    let n_bytes = bytes.len();
    if n_bytes % VOTE_ENTRY_LENGTH != 0 {
        return Err(EncodingError);
    }
    let n = n_bytes / VOTE_ENTRY_LENGTH;
    proof {
        vstd::arithmetic::div_mod::lemma_fundamental_div_mod(
            n_bytes as int,
            VOTE_ENTRY_LENGTH as int,
        );
        assert(n_bytes as int == n as int * (VOTE_ENTRY_LENGTH as int));
    }
    let ghost ps = parse_votes(bytes@).unwrap();
    assert(ps.len() == n);
    let mut out: Vec<(AccountAddress, Ed25519Signature)> = Vec::new();
    let mut k: usize = 0;
    while k < n
        invariant
            k <= n,
            out@.len() == k,
            vote_views(out@) == ps.subrange(0, k as int),
            votes_sorted(vote_views(out@)),
            forall|i: int|
                0 <= i < k ==> (#[trigger] out@[i]).0.wf() && out@[i].1.wf(),
        decreases n - k,
    {
        proof {
            assert(k as int * (VOTE_ENTRY_LENGTH as int) + (VOTE_ENTRY_LENGTH as int) <= n as int
                * (VOTE_ENTRY_LENGTH as int)) by (nonlinear_arith)
                requires
                    k < n,
            ;
        }
        let base = k * VOTE_ENTRY_LENGTH;
        let mut ab: Vec<u8> = Vec::new();
        let mut j: usize = 0;
        while j < ADDRESS_LENGTH
            invariant
                j <= ADDRESS_LENGTH,
                ab@ == bytes@.subrange(base as int, base as int + j as int),
            decreases ADDRESS_LENGTH - j,
        {
            ab.push(bytes[base + j]);
            assert(bytes@.subrange(base as int, base as int + (j + 1) as int)
                =~= bytes@.subrange(base as int, base as int + j as int).push(
                bytes@[base as int + j as int],
            ));
            j = j + 1;
        }
        let mut sb: Vec<u8> = Vec::new();
        let mut j2: usize = 0;
        while j2 < ED25519_SIGNATURE_LENGTH
            invariant
                j2 <= ED25519_SIGNATURE_LENGTH,
                sb@ == bytes@.subrange(
                    base as int + ADDRESS_LENGTH as int,
                    base as int + ADDRESS_LENGTH as int + j2 as int,
                ),
            decreases ED25519_SIGNATURE_LENGTH - j2,
        {
            sb.push(bytes[base + ADDRESS_LENGTH + j2]);
            assert(bytes@.subrange(
                base as int + ADDRESS_LENGTH as int,
                base as int + ADDRESS_LENGTH as int + (j2 + 1) as int,
            ) =~= bytes@.subrange(
                base as int + ADDRESS_LENGTH as int,
                base as int + ADDRESS_LENGTH as int + j2 as int,
            ).push(bytes@[base as int + ADDRESS_LENGTH as int + j2 as int]));
            j2 = j2 + 1;
        }
        let addr = AccountAddress::new(ab);
        let sig = Ed25519Signature::new(sb);
        proof {
            assert(ps[k as int] == (addr@, sig@));
        }
        if out.len() > 0 {
            let c = out[out.len() - 1].0.compare(&addr);
            match c {
                AddressOrdering::Less => {},
                _ => {
                    proof {
                        let prev = vote_views(out@)[k as int - 1].0;
                        assert(prev == ps[k as int - 1].0);
                        if c is Equal {
                            lemma_lex_lt_irrefl(prev);
                        } else {
                            lemma_lex_lt_asym(addr@, prev);
                        }
                        assert(!lex_lt(ps[k as int - 1].0, ps[k as int].0));
                    }
                    return Err(EncodingError);
                },
            }
        }
        out.push((addr, sig));
        proof {
            let old_vs = ps.subrange(0, k as int);
            let new_vs = vote_views(out@);
            assert(new_vs =~= old_vs.push((addr@, sig@)));
            assert(new_vs =~= ps.subrange(0, k as int + 1));
            assert forall|i: int, j3: int|
                0 <= i < j3 < new_vs.len() implies lex_lt(new_vs[i].0, new_vs[j3].0) by {
                if j3 < k as int {
                    assert(lex_lt(old_vs[i].0, old_vs[j3].0));
                } else {
                    if i < k as int - 1 {
                        assert(lex_lt(old_vs[i].0, old_vs[k as int - 1].0));
                        lemma_lex_lt_trans(new_vs[i].0, old_vs[k as int - 1].0, addr@);
                    }
                }
            }
        }
        k = k + 1;
    }
    proof {
        assert(ps.subrange(0, n as int) =~= ps);
        assert(parse_votes(bytes@) == Some(vote_views(out@)));
    }
    Ok(out)
}

impl BlockMetadata {
    /// Consumes the record and produces the four-part payload handed to the
    /// execution layer: the id bytes, the timestamp, the canonical encoding
    /// of the vote mapping, and the proposer. On a well-formed record the
    /// canonicalization always succeeds, and two records with the same
    /// mathematical content yield byte-identical results.
    pub fn into_inner(self) -> (r: Result<(Vec<u8>, u64, Vec<u8>, AccountAddress), EncodingError>)
        requires
            self.wf(),
        ensures
            r matches Ok(t) && t.0@ == self@.id && t.1 == self@.timestamp_usecs
                && t.2@ == encode_votes(self@.votes) && t.3@ == self@.proposer,
    {
        let id_bytes = self.id.to_vec();
        let vote_bytes = encode_vote_map(&self.previous_block_votes);
        Ok((id_bytes, self.timestamp_usecs, vote_bytes, self.proposer))
    }
}

/// Returns the key under which the event-log collaborator registers "new
/// block" notifications: the stream of the association account with the
/// fixed "new block" discriminator. Every invocation returns the same value.
pub fn new_block_event_key() -> (r: EventKey)
    ensures
        r@ == new_block_event_key_bytes(),
        r.wf(),
{
    let a = association_address();
    EventKey::new_from_address(&a, NEW_BLOCK_EVENT_DISCRIMINATOR)
}

/// The bytes of the "new block" event key: a fixed constant of the deployed
/// system.
pub open spec fn new_block_event_key_bytes() -> Seq<u8> {
    u64_le_bytes(NEW_BLOCK_EVENT_DISCRIMINATOR) + association_address_bytes()
}

/// Stability of the event key derivation: any two values that meet the
/// contract of [`new_block_event_key`] — in this process or another — hold
/// the same bytes.
pub proof fn lemma_new_block_event_key_stable(k1: EventKey, k2: EventKey)
    requires
        k1@ == new_block_event_key_bytes(),
        k2@ == new_block_event_key_bytes(),
    ensures
        k1@ == k2@,
{
}

} // verus!
