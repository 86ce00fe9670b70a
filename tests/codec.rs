use transition_input::input::{TAG_EXTERNAL_RECORD, TAG_RECORD};
use transition_input::primitives::{FIELD_SIZE, MAX_PAYLOAD_LEN};
use transition_input::{Ciphertext, DecodeError, Field, Input, Origin, Plaintext};

fn field(seed: u8) -> Field {
    let bytes: Vec<u8> = (0..FIELD_SIZE as u8).map(|i| seed.wrapping_add(i)).collect();
    Field::new(bytes).unwrap()
}

fn plaintext(bytes: &[u8]) -> Plaintext {
    Plaintext::new(bytes.to_vec()).unwrap()
}

fn ciphertext(bytes: &[u8]) -> Ciphertext {
    Ciphertext::new(bytes.to_vec()).unwrap()
}

/// One input of each shape; every leading field starts with a byte that is
/// no variant tag, so that dropping the tag byte cannot decode.
fn sample_inputs() -> Vec<Input> {
    vec![
        Input::Constant(field(0x10), Some(plaintext(&[1, 2, 3]))),
        Input::Constant(field(0x11), None),
        Input::Public(field(0x20), Some(plaintext(&[]))),
        Input::Public(field(0x21), None),
        Input::Private(field(0x30), Some(ciphertext(&[9; 40]))),
        Input::Private(field(0x31), None),
        Input::Record(field(0x40), field(0x50), Origin::Commitment(field(0x60))),
        Input::Record(field(0x41), field(0x51), Origin::StateRoot(field(0x61))),
        Input::ExternalRecord(field(0x70)),
    ]
}

#[test]
fn test_bytes() {
    for expected in sample_inputs() {
        let expected_bytes = expected.to_bytes_le();
        assert_eq!(expected, Input::read_le(&expected_bytes[..]).unwrap());
        assert!(Input::read_le(&expected_bytes[1..]).is_err());
    }
}

#[test]
fn round_trip_ignores_trailing_bytes() {
    for expected in sample_inputs() {
        let mut bytes = expected.to_bytes_le();
        let n = bytes.len();
        bytes.extend_from_slice(&[0xFF, 0x00, 0x07]);
        assert_eq!(Input::read_at(&bytes, 0), Ok((expected, n)));
    }
}

#[test]
fn decoded_variant_matches_encoded_tag() {
    let tags: Vec<u8> = vec![0, 0, 1, 1, 2, 2, 3, 3, 4];
    for (expected, tag) in sample_inputs().into_iter().zip(tags) {
        let bytes = expected.to_bytes_le();
        assert_eq!(bytes[0], tag);
        let decoded = Input::read_le(&bytes).unwrap();
        assert_eq!(
            std::mem::discriminant(&decoded),
            std::mem::discriminant(&expected)
        );
    }
}

#[test]
fn every_strict_prefix_is_truncated() {
    for expected in sample_inputs() {
        let bytes = expected.to_bytes_le();
        for k in 0..bytes.len() {
            assert_eq!(Input::read_le(&bytes[..k]), Err(DecodeError::Truncated));
        }
    }
}

#[test]
fn empty_input_is_truncated() {
    assert_eq!(Input::read_le(&[]), Err(DecodeError::Truncated));
}

#[test]
fn variant_tag_five_or_above_is_rejected() {
    assert_eq!(Input::read_le(&[5]), Err(DecodeError::InvalidVariant(5)));
    assert_eq!(
        Input::read_le(&[5, 0, 1, 2, 3]),
        Err(DecodeError::InvalidVariant(5))
    );
    let mut long = vec![0xFF];
    long.extend_from_slice(&[0u8; 100]);
    assert_eq!(Input::read_le(&long), Err(DecodeError::InvalidVariant(0xFF)));
}

#[test]
fn origin_tag_two_or_above_is_rejected() {
    for origin_tag in [2u8, 3, 0xFF] {
        let mut bytes = vec![TAG_RECORD];
        bytes.extend_from_slice(&[0xAB; 2 * FIELD_SIZE]);
        bytes.push(origin_tag);
        bytes.extend_from_slice(&[0u8; FIELD_SIZE]);
        assert_eq!(
            Input::read_le(&bytes),
            Err(DecodeError::InvalidOrigin(origin_tag))
        );
    }
}

#[test]
fn presence_flag_other_than_zero_or_one_is_rejected() {
    let mut bytes = vec![1u8];
    bytes.extend_from_slice(&[0x22; FIELD_SIZE]);
    bytes.push(2);
    assert_eq!(Input::read_le(&bytes), Err(DecodeError::InvalidFlag(2)));
}

#[test]
fn absent_payload_is_omitted() {
    let h = field(0x80);
    let p = plaintext(&[5, 6]);
    let pairs = vec![
        (
            Input::Constant(h.clone(), None),
            Input::Constant(h.clone(), Some(p.clone())),
        ),
        (
            Input::Public(h.clone(), None),
            Input::Public(h.clone(), Some(p.clone())),
        ),
        (
            Input::Private(h.clone(), None),
            Input::Private(h.clone(), Some(ciphertext(&[5, 6]))),
        ),
    ];
    for (absent, present) in pairs {
        let a = absent.to_bytes_le();
        let b = present.to_bytes_le();
        assert_eq!(a.len(), 1 + FIELD_SIZE + 1);
        assert_eq!(b.len(), 1 + FIELD_SIZE + 1 + 2 + 2);
        assert!(a.len() < b.len());
        assert_eq!(*a.last().unwrap(), 0);
        assert_eq!(b[1 + FIELD_SIZE], 1);
        assert_eq!(Input::read_le(&a).unwrap(), absent);
        assert_eq!(Input::read_le(&b).unwrap(), present);
    }
}

#[test]
fn external_record_layout_and_trailing_byte() {
    let c = field(0x90);
    let input = Input::ExternalRecord(c.clone());
    let bytes = input.to_bytes_le();
    let mut expected = vec![TAG_EXTERNAL_RECORD];
    expected.extend_from_slice(&c.bytes);
    assert_eq!(bytes, expected);
    assert_eq!(Input::read_le(&bytes).unwrap(), input);
    let mut longer = bytes.clone();
    longer.push(0xFF);
    assert_eq!(Input::read_le(&longer).unwrap(), input);
}

#[test]
fn record_with_state_root_layout_and_truncation() {
    let (s, t, r) = (field(0xA0), field(0xB0), field(0xC0));
    let input = Input::Record(s.clone(), t.clone(), Origin::StateRoot(r.clone()));
    let bytes = input.to_bytes_le();
    let mut expected = vec![3u8];
    expected.extend_from_slice(&s.bytes);
    expected.extend_from_slice(&t.bytes);
    expected.push(1);
    expected.extend_from_slice(&r.bytes);
    assert_eq!(bytes, expected);
    assert_eq!(
        Input::read_le(&bytes[..bytes.len() - 1]),
        Err(DecodeError::Truncated)
    );
}

#[test]
fn record_with_commitment_layout() {
    let (s, t, c) = (field(1), field(2), field(3));
    let bytes = Input::Record(s, t, Origin::Commitment(c.clone())).to_bytes_le();
    assert_eq!(bytes.len(), 1 + 3 * FIELD_SIZE + 1);
    assert_eq!(bytes[1 + 2 * FIELD_SIZE], 0);
    assert_eq!(&bytes[2 + 2 * FIELD_SIZE..], &c.bytes[..]);
}

#[test]
fn payload_length_prefix_is_little_endian() {
    let payload: Vec<u8> = (0..300u32).map(|i| i as u8).collect();
    let input = Input::Public(field(0), Some(Plaintext::new(payload.clone()).unwrap()));
    let bytes = input.to_bytes_le();
    assert_eq!(bytes[1 + FIELD_SIZE], 1);
    assert_eq!(bytes[2 + FIELD_SIZE], 44);
    assert_eq!(bytes[3 + FIELD_SIZE], 1);
    assert_eq!(&bytes[4 + FIELD_SIZE..], &payload[..]);
    assert_eq!(Input::read_le(&bytes).unwrap(), input);
}

#[test]
fn largest_payload_round_trips() {
    let payload = vec![0x5Au8; MAX_PAYLOAD_LEN];
    let input = Input::Private(field(7), Some(Ciphertext::new(payload).unwrap()));
    let bytes = input.to_bytes_le();
    assert_eq!(bytes[2 + FIELD_SIZE], 0xFF);
    assert_eq!(bytes[3 + FIELD_SIZE], 0xFF);
    assert_eq!(Input::read_le(&bytes).unwrap(), input);
}

#[test]
fn origin_codec_on_its_own() {
    let o = Origin::StateRoot(field(0x33));
    let mut bytes = Vec::new();
    o.write_le(&mut bytes);
    assert_eq!(bytes[0], 1);
    assert_eq!(Origin::read_at(&bytes, 0), Ok((o, 1 + FIELD_SIZE)));
    assert_eq!(Origin::read_at(&[2], 0), Err(DecodeError::InvalidOrigin(2)));
    assert_eq!(Origin::read_at(&bytes[..FIELD_SIZE], 0), Err(DecodeError::Truncated));
}

#[test]
fn constructors_check_sizes() {
    assert!(Field::new(vec![0; FIELD_SIZE - 1]).is_none());
    assert!(Field::new(vec![0; FIELD_SIZE + 1]).is_none());
    assert!(Field::new(vec![0; FIELD_SIZE]).is_some());
    assert!(Plaintext::new(vec![0; MAX_PAYLOAD_LEN + 1]).is_none());
    assert!(Ciphertext::new(vec![0; MAX_PAYLOAD_LEN + 1]).is_none());
    assert!(Plaintext::new(vec![0; MAX_PAYLOAD_LEN]).is_some());
}
