use block_metadata::account_address::{AccountAddress, AddressOrdering, ADDRESS_LENGTH};
use block_metadata::block_metadata::{
    decode_votes, new_block_event_key, BlockMetadata, VOTE_ENTRY_LENGTH,
};
use block_metadata::crypto::{Ed25519Signature, HashValue, ED25519_SIGNATURE_LENGTH, HASH_LENGTH};
use block_metadata::event::EVENT_KEY_LENGTH;

fn addr(tag: u8) -> AccountAddress {
    AccountAddress::new(vec![tag; ADDRESS_LENGTH])
}

fn sig(tag: u8) -> Ed25519Signature {
    Ed25519Signature::new(vec![tag; ED25519_SIGNATURE_LENGTH])
}

fn hash(tag: u8) -> HashValue {
    HashValue::new(vec![tag; HASH_LENGTH])
}

#[test]
fn round_trip_reconstructs_record() {
    let votes = vec![(addr(2), sig(20)), (addr(1), sig(10))];
    let record = BlockMetadata::new(hash(7), 123_456, votes, addr(9));
    let (id_bytes, timestamp, vote_bytes, proposer) = record.into_inner().unwrap();
    assert_eq!(id_bytes, vec![7u8; HASH_LENGTH]);
    assert_eq!(timestamp, 123_456);
    assert_eq!(proposer.to_vec(), vec![9u8; ADDRESS_LENGTH]);
    let decoded = decode_votes(&vote_bytes).unwrap();
    assert_eq!(decoded.len(), 2);
    assert_eq!(decoded[0].0.to_vec(), vec![1u8; ADDRESS_LENGTH]);
    assert_eq!(decoded[0].1.to_vec(), vec![10u8; ED25519_SIGNATURE_LENGTH]);
    assert_eq!(decoded[1].0.to_vec(), vec![2u8; ADDRESS_LENGTH]);
    assert_eq!(decoded[1].1.to_vec(), vec![20u8; ED25519_SIGNATURE_LENGTH]);
}

#[test]
fn determinism_insertion_order_is_irrelevant() {
    let first = BlockMetadata::new(
        hash(1),
        500,
        vec![(addr(3), sig(30)), (addr(1), sig(10)), (addr(2), sig(20))],
        addr(8),
    );
    let second = BlockMetadata::new(
        hash(1),
        500,
        vec![(addr(2), sig(20)), (addr(3), sig(30)), (addr(1), sig(10))],
        addr(8),
    );
    let (id1, ts1, bytes1, proposer1) = first.into_inner().unwrap();
    let (id2, ts2, bytes2, proposer2) = second.into_inner().unwrap();
    assert_eq!(id1, id2);
    assert_eq!(ts1, ts2);
    assert_eq!(bytes1, bytes2);
    assert_eq!(proposer1.to_vec(), proposer2.to_vec());
}

#[test]
fn voters_ascending_for_any_insertion_order() {
    let record = BlockMetadata::new(
        hash(0),
        1,
        vec![(addr(5), sig(50)), (addr(3), sig(30)), (addr(4), sig(40))],
        addr(6),
    );
    let voters = record.voters();
    assert_eq!(voters.len(), 3);
    assert_eq!(voters[0].to_vec(), vec![3u8; ADDRESS_LENGTH]);
    assert_eq!(voters[1].to_vec(), vec![4u8; ADDRESS_LENGTH]);
    assert_eq!(voters[2].to_vec(), vec![5u8; ADDRESS_LENGTH]);
}

#[test]
fn event_key_is_stable_and_well_known() {
    let k1 = new_block_event_key();
    let k2 = new_block_event_key();
    assert_eq!(k1.to_vec(), k2.to_vec());
    let mut expected = vec![2u8, 0, 0, 0, 0, 0, 0, 0];
    expected.extend_from_slice(&[0u8; 12]);
    expected.extend_from_slice(&[0x0a, 0x55, 0x0c, 0x18]);
    assert_eq!(k1.to_vec(), expected);
    assert_eq!(k1.to_vec().len(), EVENT_KEY_LENGTH);
}

#[test]
fn empty_votes_encode_and_decode() {
    let record = BlockMetadata::new(hash(4), 42, Vec::new(), addr(1));
    assert_eq!(record.voters().len(), 0);
    let (id_bytes, timestamp, vote_bytes, proposer) = record.into_inner().unwrap();
    assert_eq!(vote_bytes.len(), 0);
    assert_eq!(id_bytes, vec![4u8; HASH_LENGTH]);
    assert_eq!(timestamp, 42);
    assert_eq!(proposer.to_vec(), vec![1u8; ADDRESS_LENGTH]);
    let decoded = decode_votes(&vote_bytes).unwrap();
    assert_eq!(decoded.len(), 0);
}

#[test]
fn example_entries_placed_in_address_order() {
    // id = 32 zero bytes, timestamp = 1000, votes = {A: sig1, B: sig2} with
    // A < B, proposer = C; A's entry must precede B's whatever the insertion
    // order.
    let a = || addr(0x0a);
    let b = || addr(0x0b);
    let sig1 = || sig(1);
    let sig2 = || sig(2);
    for votes in [
        vec![(a(), sig1()), (b(), sig2())],
        vec![(b(), sig2()), (a(), sig1())],
    ] {
        let record = BlockMetadata::new(hash(0), 1000, votes, addr(0x0c));
        let voters = record.voters();
        assert_eq!(voters.len(), 2);
        assert_eq!(voters[0].to_vec(), vec![0x0a; ADDRESS_LENGTH]);
        assert_eq!(voters[1].to_vec(), vec![0x0b; ADDRESS_LENGTH]);
        let (_, timestamp, vote_bytes, _) = record.into_inner().unwrap();
        assert_eq!(timestamp, 1000);
        assert_eq!(vote_bytes.len(), 2 * VOTE_ENTRY_LENGTH);
        assert_eq!(&vote_bytes[..ADDRESS_LENGTH], &vec![0x0a; ADDRESS_LENGTH][..]);
        assert_eq!(
            &vote_bytes[ADDRESS_LENGTH..VOTE_ENTRY_LENGTH],
            &vec![1u8; ED25519_SIGNATURE_LENGTH][..]
        );
        assert_eq!(
            &vote_bytes[VOTE_ENTRY_LENGTH..VOTE_ENTRY_LENGTH + ADDRESS_LENGTH],
            &vec![0x0b; ADDRESS_LENGTH][..]
        );
        assert_eq!(
            &vote_bytes[VOTE_ENTRY_LENGTH + ADDRESS_LENGTH..],
            &vec![2u8; ED25519_SIGNATURE_LENGTH][..]
        );
    }
}

#[test]
fn decode_rejects_ragged_length() {
    assert!(decode_votes(&vec![0u8; 5]).is_err());
    assert!(decode_votes(&vec![0u8; VOTE_ENTRY_LENGTH - 1]).is_err());
    assert!(decode_votes(&vec![0u8; VOTE_ENTRY_LENGTH + 1]).is_err());
}

#[test]
fn decode_rejects_unsorted_entries() {
    let mut bytes = Vec::new();
    bytes.extend_from_slice(&vec![2u8; ADDRESS_LENGTH]);
    bytes.extend_from_slice(&vec![20u8; ED25519_SIGNATURE_LENGTH]);
    bytes.extend_from_slice(&vec![1u8; ADDRESS_LENGTH]);
    bytes.extend_from_slice(&vec![10u8; ED25519_SIGNATURE_LENGTH]);
    assert!(decode_votes(&bytes).is_err());
}

#[test]
fn decode_rejects_repeated_address() {
    let mut bytes = Vec::new();
    bytes.extend_from_slice(&vec![1u8; ADDRESS_LENGTH]);
    bytes.extend_from_slice(&vec![10u8; ED25519_SIGNATURE_LENGTH]);
    bytes.extend_from_slice(&vec![1u8; ADDRESS_LENGTH]);
    bytes.extend_from_slice(&vec![11u8; ED25519_SIGNATURE_LENGTH]);
    assert!(decode_votes(&bytes).is_err());
}

#[test]
fn later_vote_by_same_address_replaces_earlier() {
    let record = BlockMetadata::new(
        hash(0),
        9,
        vec![(addr(1), sig(10)), (addr(1), sig(11))],
        addr(2),
    );
    assert_eq!(record.voters().len(), 1);
    let (_, _, vote_bytes, _) = record.into_inner().unwrap();
    let decoded = decode_votes(&vote_bytes).unwrap();
    assert_eq!(decoded.len(), 1);
    assert_eq!(decoded[0].0.to_vec(), vec![1u8; ADDRESS_LENGTH]);
    assert_eq!(decoded[0].1.to_vec(), vec![11u8; ED25519_SIGNATURE_LENGTH]);
}

#[test]
fn id_and_proposer_accessors() {
    let record = BlockMetadata::new(hash(3), 5, Vec::new(), addr(7));
    assert_eq!(record.id().to_vec(), vec![3u8; HASH_LENGTH]);
    assert_eq!(record.proposer().to_vec(), vec![7u8; ADDRESS_LENGTH]);
}

#[test]
fn address_comparison_follows_byte_order() {
    let low = addr(1);
    let high = addr(2);
    assert!(matches!(low.compare(&high), AddressOrdering::Less));
    assert!(matches!(high.compare(&low), AddressOrdering::Greater));
    assert!(matches!(low.compare(&addr(1)), AddressOrdering::Equal));
    let mut tail_heavy = vec![0u8; ADDRESS_LENGTH];
    tail_heavy[ADDRESS_LENGTH - 1] = 1;
    let tail = AccountAddress::new(tail_heavy);
    assert!(matches!(tail.compare(&addr(1)), AddressOrdering::Less));
}
