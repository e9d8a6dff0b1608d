use ream_storage::codec::{
    BeaconBlockHeader, BlsSignature, Checkpoint, Codec, DecodeError, Payload, Root,
    SignedBeaconBlockHeader,
};

fn root(b: u8) -> Root {
    Root { bytes: [b; 32] }
}

fn header() -> BeaconBlockHeader {
    BeaconBlockHeader {
        slot: 7,
        proposer_index: u64::MAX,
        parent_root: root(1),
        state_root: root(0),
        body_root: root(0xff),
    }
}

#[test]
fn u64_bytes_are_little_endian() {
    assert_eq!(1u64.encode(), vec![1, 0, 0, 0, 0, 0, 0, 0]);
    assert_eq!(0x0102030405060708u64.encode(), vec![8, 7, 6, 5, 4, 3, 2, 1]);
    assert_eq!(u64::decode(&[0, 1, 0, 0, 0, 0, 0, 0]), Ok(256));
}

#[test]
fn u64_round_trips_at_boundaries() {
    for v in [0u64, 1, 255, 256, u64::MAX - 1, u64::MAX] {
        assert_eq!(u64::decode(&v.encode()), Ok(v));
    }
}

#[test]
fn u64_rejects_wrong_length() {
    assert_eq!(u64::decode(&[1, 2, 3]), Err(DecodeError::InvalidLength));
    assert_eq!(u64::decode(&[]), Err(DecodeError::InvalidLength));
}

#[test]
fn bool_round_trips_and_rejects_other_bytes() {
    assert_eq!(true.encode(), vec![1]);
    assert_eq!(false.encode(), vec![0]);
    assert_eq!(bool::decode(&true.encode()), Ok(true));
    assert_eq!(bool::decode(&false.encode()), Ok(false));
    assert_eq!(bool::decode(&[2]), Err(DecodeError::InvalidByte));
    assert_eq!(bool::decode(&[1, 0]), Err(DecodeError::InvalidLength));
}

#[test]
fn root_round_trips() {
    for r in [root(0), root(0xff), Root { bytes: core::array::from_fn(|i| i as u8) }] {
        let b = r.encode();
        assert_eq!(b.len(), 32);
        assert_eq!(b, r.bytes.to_vec());
        assert_eq!(Root::decode(&b), Ok(r));
    }
    assert_eq!(Root::decode(&[0; 31]), Err(DecodeError::InvalidLength));
}

#[test]
fn checkpoint_layout_and_round_trip() {
    let c = Checkpoint { epoch: 5, root: root(9) };
    let b = c.encode();
    assert_eq!(b.len(), 40);
    assert_eq!(&b[0..8], &[5, 0, 0, 0, 0, 0, 0, 0]);
    assert_eq!(&b[8..40], &[9; 32]);
    assert_eq!(Checkpoint::decode(&b), Ok(c));
    let max = Checkpoint { epoch: u64::MAX, root: root(0) };
    assert_eq!(Checkpoint::decode(&max.encode()), Ok(max));
    assert_eq!(Checkpoint::decode(&b[..39]), Err(DecodeError::InvalidLength));
}

#[test]
fn header_layout_and_round_trip() {
    let h = header();
    let b = h.encode();
    assert_eq!(b.len(), 112);
    assert_eq!(&b[0..8], &[7, 0, 0, 0, 0, 0, 0, 0]);
    assert_eq!(&b[8..16], &[0xff; 8]);
    assert_eq!(&b[16..48], &[1; 32]);
    assert_eq!(&b[80..112], &[0xff; 32]);
    assert_eq!(BeaconBlockHeader::decode(&b), Ok(h));
    assert_eq!(BeaconBlockHeader::decode(&b[1..]), Err(DecodeError::InvalidLength));
}

#[test]
fn signed_header_round_trip() {
    let s = SignedBeaconBlockHeader { message: header(), signature: BlsSignature { bytes: [3; 96] } };
    let b = s.encode();
    assert_eq!(b.len(), 208);
    assert_eq!(&b[112..], &[3; 96]);
    assert_eq!(SignedBeaconBlockHeader::decode(&b), Ok(s));
    assert_eq!(SignedBeaconBlockHeader::decode(&b[..207]), Err(DecodeError::InvalidLength));
}

#[test]
fn index_list_round_trip() {
    let v: Vec<u64> = vec![3, 7, u64::MAX];
    let b = v.encode();
    assert_eq!(b.len(), 24);
    assert_eq!(&b[8..16], &[7, 0, 0, 0, 0, 0, 0, 0]);
    assert_eq!(Vec::<u64>::decode(&b), Ok(v));
    let empty: Vec<u64> = vec![];
    assert_eq!(empty.encode(), Vec::<u8>::new());
    assert_eq!(Vec::<u64>::decode(&[]), Ok(empty));
    assert_eq!(Vec::<u64>::decode(&[1; 12]), Err(DecodeError::InvalidLength));
}

#[test]
fn payload_is_stored_as_is() {
    let p = Payload { bytes: vec![9, 8, 7] };
    assert_eq!(p.encode(), vec![9, 8, 7]);
    assert_eq!(Payload::decode(&[9, 8, 7]), Ok(p));
}
