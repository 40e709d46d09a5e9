use std::cmp::Ordering;

use polkadot_primitives::codec::{decode_bytes, decode_u32, decode_u64, encode_bytes, encode_u32, encode_u64, Input};
use polkadot_primitives::parachain::{Activity, Chain, ConsolidatedIngress, DutyRoster, HeadData, Id, Message};
use polkadot_primitives::receipt::{compare_bytes, CandidateReceipt};
use polkadot_primitives::statement::Statement;
use polkadot_primitives::Log;

fn input(bytes: &[u8]) -> Input {
    Input::new(bytes.to_vec())
}

fn receipt(index: u32, head: Vec<u8>) -> CandidateReceipt {
    CandidateReceipt {
        parachain_index: Id(index),
        collator: [9u8; 32],
        head_data: HeadData(head),
        balance_uploads: vec![([1u8; 32], 5)],
        egress_queue_roots: vec![(Id(3), [2u8; 32])],
        fees: 0x0102,
    }
}

#[test]
fn id_encodes_as_four_little_endian_bytes() {
    let mut out = Vec::new();
    Id(0x0403_0201).encode_to(&mut out);
    assert_eq!(out, vec![1, 2, 3, 4]);
    assert_eq!(Id::decode(&mut input(&[1, 2, 3, 4])), Some(Id(0x0403_0201)));
    assert_eq!(Id::from(7u32).into_inner(), 7);
    assert_eq!(u32::from(Id(8)), 8);
}

#[test]
fn integers_round_trip() {
    let mut out = Vec::new();
    encode_u32(0xdead_beef, &mut out);
    encode_u64(0x0102_0304_0506_0708, &mut out);
    assert_eq!(out, vec![0xef, 0xbe, 0xad, 0xde, 8, 7, 6, 5, 4, 3, 2, 1]);
    let mut i = Input::new(out);
    assert_eq!(decode_u32(&mut i), Some(0xdead_beef));
    assert_eq!(decode_u64(&mut i), Some(0x0102_0304_0506_0708));
    assert_eq!(i.remaining(), 0);
    assert_eq!(decode_u32(&mut i), None);
}

#[test]
fn reader_refuses_underrun() {
    let mut i = input(&[1, 2]);
    assert_eq!(i.read_bytes(3), None);
    assert_eq!(i.remaining(), 2);
    assert_eq!(i.read_bytes(2), Some(vec![1, 2]));
    assert_eq!(i.read_byte(), None);
}

#[test]
fn chain_layout() {
    assert_eq!(Chain::Relay.encode(), vec![0]);
    assert_eq!(Chain::Parachain(Id(7)).encode(), vec![1, 7, 0, 0, 0]);
}

#[test]
fn chain_round_trip() {
    for c in [Chain::Relay, Chain::Parachain(Id(0)), Chain::Parachain(Id(u32::MAX))] {
        let bytes = c.encode();
        let mut i = Input::new(bytes);
        assert_eq!(Chain::decode(&mut i), Some(c));
        assert_eq!(i.remaining(), 0);
    }
}

#[test]
fn chain_rejects_unknown_discriminant() {
    assert_eq!(Chain::decode(&mut input(&[2])), None);
    assert_eq!(Chain::decode(&mut input(&[2, 7, 0, 0, 0])), None);
    assert_eq!(Chain::decode(&mut input(&[0xff])), None);
    assert_eq!(Chain::decode(&mut input(&[])), None);
}

#[test]
fn statement_rejects_unknown_discriminant() {
    let mut zero = vec![0u8];
    zero.extend_from_slice(&[5u8; 32]);
    assert!(Statement::decode(&mut Input::new(zero)).is_none());
    let mut five = vec![5u8];
    five.extend_from_slice(&[5u8; 32]);
    assert!(Statement::decode(&mut Input::new(five)).is_none());
}

#[test]
fn duty_roster_length_prefix() {
    let roster = DutyRoster {
        validator_duty: vec![Chain::Relay, Chain::Parachain(Id(7))],
        guarantor_duty: vec![],
    };
    assert_eq!(roster.encode(), vec![2, 0, 0, 0, 0, 1, 7, 0, 0, 0, 0, 0, 0, 0]);
}

#[test]
fn duty_roster_round_trip() {
    let roster = DutyRoster {
        validator_duty: vec![Chain::Parachain(Id(1)), Chain::Relay],
        guarantor_duty: vec![Chain::Relay, Chain::Parachain(Id(2)), Chain::Parachain(Id(3))],
    };
    let mut i = Input::new(roster.encode());
    assert_eq!(DutyRoster::decode(&mut i), Some(roster));
    assert_eq!(i.remaining(), 0);
}

#[test]
fn duty_roster_short_count() {
    // Declares three chains but holds two.
    assert_eq!(DutyRoster::decode(&mut input(&[3, 0, 0, 0, 0, 0, 0, 0, 0, 0])), None);
}

#[test]
fn receipt_layout() {
    let r = receipt(1, vec![0xaa, 0xbb]);
    let mut expected = vec![1, 0, 0, 0];
    expected.extend_from_slice(&[9u8; 32]);
    expected.extend_from_slice(&[2, 0, 0, 0, 0xaa, 0xbb]);
    expected.extend_from_slice(&[1, 0, 0, 0]);
    expected.extend_from_slice(&[1u8; 32]);
    expected.extend_from_slice(&[5, 0, 0, 0, 0, 0, 0, 0]);
    expected.extend_from_slice(&[1, 0, 0, 0, 3, 0, 0, 0]);
    expected.extend_from_slice(&[2u8; 32]);
    expected.extend_from_slice(&[2, 1, 0, 0, 0, 0, 0, 0]);
    assert_eq!(r.encode(), expected);
}

#[test]
fn receipt_round_trip() {
    let r = receipt(42, vec![1, 2, 3]);
    let mut i = Input::new(r.encode());
    assert_eq!(CandidateReceipt::decode(&mut i), Some(r));
    assert_eq!(i.remaining(), 0);
}

#[test]
fn truncated_encodings_fail() {
    let mut c = Chain::Parachain(Id(7)).encode();
    c.pop();
    assert_eq!(Chain::decode(&mut Input::new(c)), None);

    let roster = DutyRoster { validator_duty: vec![Chain::Relay], guarantor_duty: vec![Chain::Relay] };
    let mut d = roster.encode();
    d.pop();
    assert_eq!(DutyRoster::decode(&mut Input::new(d)), None);

    let full = receipt(1, vec![1]).encode();
    for n in 0..full.len() {
        assert_eq!(CandidateReceipt::decode(&mut Input::new(full[..n].to_vec())), None);
    }

    let mut s = Statement::Available([4u8; 32]).encode();
    s.pop();
    assert!(Statement::decode(&mut Input::new(s)).is_none());
}

#[test]
fn receipt_ordering() {
    let r1 = receipt(1, vec![0x01]);
    let r2 = receipt(1, vec![0x02]);
    let r3 = receipt(2, vec![0x00]);
    assert!(r1 < r2);
    assert!(r1 < r3);
    assert!(r3 > r2);
    assert_eq!(r1.cmp(&r2), Ordering::Less);
    assert_eq!(r3.cmp(&r1), Ordering::Greater);
}

#[test]
fn receipt_ordering_ignores_other_fields() {
    let r1 = receipt(1, vec![7]);
    let mut r2 = receipt(1, vec![7]);
    r2.fees = 99;
    r2.collator = [0u8; 32];
    assert_eq!(r1.cmp(&r2), Ordering::Equal);
    assert_eq!(r1.partial_cmp(&r2), Some(Ordering::Equal));
    assert!(r1 != r2);
}

#[test]
fn byte_order_is_lexicographic() {
    assert_eq!(compare_bytes(&vec![1, 2], &vec![1, 2, 0]), Ordering::Less);
    assert_eq!(compare_bytes(&vec![2], &vec![1, 9, 9]), Ordering::Greater);
    assert_eq!(compare_bytes(&vec![], &vec![]), Ordering::Equal);
    assert_eq!(compare_bytes(&vec![3, 4], &vec![3, 4]), Ordering::Equal);
}

#[test]
fn statement_valid_is_not_invalid() {
    let h = [0x5au8; 32];
    let valid = Statement::Valid(h).encode();
    let invalid = Statement::Invalid(h).encode();
    assert_eq!(valid[0], 2);
    assert_eq!(invalid[0], 3);
    assert_ne!(valid, invalid);
    assert_eq!(Statement::decode(&mut Input::new(valid)), Some(Statement::Valid(h)));
    assert_ne!(Statement::decode(&mut Input::new(invalid)), Some(Statement::Valid(h)));
}

#[test]
fn statement_round_trip() {
    for s in [
        Statement::Candidate(receipt(3, vec![])),
        Statement::Valid([1u8; 32]),
        Statement::Invalid([2u8; 32]),
        Statement::Available([3u8; 32]),
    ] {
        let bytes = s.encode();
        let mut i = Input::new(bytes);
        assert_eq!(Statement::decode(&mut i), Some(s));
        assert_eq!(i.remaining(), 0);
    }
    assert_eq!(Statement::Candidate(receipt(3, vec![])).encode()[0], 1);
}

#[test]
fn receipt_hash() {
    let r = receipt(1, vec![1, 2, 3]);
    let h = r.hash();
    assert_eq!(h, r.hash());
    assert_ne!(h, receipt(1, vec![1, 2, 4]).hash());
    let bytes = r.encode();
    assert_ne!(&h[..], &bytes[..32]);
}

#[test]
fn byte_strings_round_trip() {
    let mut out = Vec::new();
    encode_bytes(&vec![], &mut out);
    assert_eq!(out, vec![0, 0, 0, 0]);
    Log(vec![1, 2]).encode_to(&mut out);
    Activity(vec![3]).encode_to(&mut out);
    let mut i = Input::new(out);
    assert_eq!(decode_bytes(&mut i), Some(vec![]));
    assert_eq!(Log::decode(&mut i), Some(Log(vec![1, 2])));
    assert_eq!(Activity::decode(&mut i), Some(Activity(vec![3])));
    assert_eq!(Log::decode(&mut i), None);
}

#[test]
fn ingress_layout_and_round_trip() {
    let ingress = ConsolidatedIngress(vec![
        (Id(1), vec![Message(vec![0xaa]), Message(vec![])]),
        (Id(2), vec![]),
    ]);
    let bytes = ingress.encode();
    assert_eq!(
        bytes,
        vec![2, 0, 0, 0, 1, 0, 0, 0, 2, 0, 0, 0, 1, 0, 0, 0, 0xaa, 0, 0, 0, 0, 2, 0, 0, 0, 0, 0, 0, 0]
    );
    let mut i = Input::new(bytes.clone());
    assert_eq!(ConsolidatedIngress::decode(&mut i), Some(ingress));
    assert_eq!(i.remaining(), 0);
    let mut short = bytes;
    short.pop();
    assert_eq!(ConsolidatedIngress::decode(&mut Input::new(short)), None);
}

#[test]
fn empty_ingress() {
    let empty = ConsolidatedIngress::default();
    assert_eq!(empty.encode(), vec![0, 0, 0, 0]);
    assert_eq!(ConsolidatedIngress::decode(&mut input(&[0, 0, 0, 0])), Some(empty));
}
