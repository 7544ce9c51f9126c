use tinydb::codec::{decode_dump, encode_dump, Dump};
use tinydb::DatabaseError;

/// Builds a dump with every field populated.
fn sample_dump() -> Dump {
    Dump {
        label: String::from("Dumping test"),
        save_path: Some(String::from("test.tinydb")),
        strict_dupes: true,
        items: vec![vec![1u8, 2, 3], vec![4u8, 5]],
    }
}

/// Encoding then decoding gives back every field of the dump.
#[test]
fn image_round_trip() {
    let d = sample_dump();
    let bytes = encode_dump(&d);
    let back = decode_dump(&bytes).unwrap();

    assert_eq!(back.label, String::from("Dumping test"));
    assert_eq!(back.save_path, Some(String::from("test.tinydb")));
    assert_eq!(back.strict_dupes, true);
    assert_eq!(back.items, vec![vec![1u8, 2, 3], vec![4u8, 5]]);
}

/// The round trip also holds with no save path and no records.
#[test]
fn image_round_trip_empty() {
    let d = Dump {
        label: String::from("empty"),
        save_path: None,
        strict_dupes: false,
        items: vec![],
    };
    let bytes = encode_dump(&d);
    let back = decode_dump(&bytes).unwrap();

    assert_eq!(back.label, String::from("empty"));
    assert_eq!(back.save_path, None);
    assert_eq!(back.strict_dupes, false);
    assert_eq!(back.items.len(), 0);
}

/// The byte image is laid out exactly as documented: each length as eight
/// little-endian bytes, one byte for the presence flag, one for the
/// policy.
#[test]
fn image_exact_bytes() {
    let d = Dump {
        label: String::from("ab"),
        save_path: None,
        strict_dupes: true,
        items: vec![vec![7u8, 8, 9]],
    };
    let bytes = encode_dump(&d);

    let mut expected: Vec<u8> = Vec::new();
    expected.extend_from_slice(&2u64.to_le_bytes());
    expected.extend_from_slice(b"ab");
    expected.push(0);
    expected.push(1);
    expected.extend_from_slice(&1u64.to_le_bytes());
    expected.extend_from_slice(&3u64.to_le_bytes());
    expected.extend_from_slice(&[7, 8, 9]);

    assert_eq!(bytes, expected);
}

/// A present save path is framed behind a one flag byte.
#[test]
fn image_exact_bytes_with_path() {
    let d = Dump {
        label: String::from("a"),
        save_path: Some(String::from("p.db")),
        strict_dupes: false,
        items: vec![],
    };
    let bytes = encode_dump(&d);

    let mut expected: Vec<u8> = Vec::new();
    expected.extend_from_slice(&1u64.to_le_bytes());
    expected.extend_from_slice(b"a");
    expected.push(1);
    expected.extend_from_slice(&4u64.to_le_bytes());
    expected.extend_from_slice(b"p.db");
    expected.push(0);
    expected.extend_from_slice(&0u64.to_le_bytes());

    assert_eq!(bytes, expected);
}

/// Malformed images are refused: truncated frames, stray flag or policy
/// bytes, trailing garbage, and labels that are not UTF-8.
#[test]
fn image_malformed() {
    assert_eq!(decode_dump(&[]).unwrap_err(), DatabaseError::DecodeFailed);
    assert_eq!(decode_dump(&[1, 2, 3]).unwrap_err(), DatabaseError::DecodeFailed);

    let good = encode_dump(&sample_dump());

    let mut truncated = good.clone();
    truncated.pop();
    assert_eq!(decode_dump(&truncated).unwrap_err(), DatabaseError::DecodeFailed);

    let mut trailing = good.clone();
    trailing.push(0);
    assert_eq!(decode_dump(&trailing).unwrap_err(), DatabaseError::DecodeFailed);

    // The label says one byte follows and that byte is not valid UTF-8.
    let mut bad_label: Vec<u8> = Vec::new();
    bad_label.extend_from_slice(&1u64.to_le_bytes());
    bad_label.push(0xff);
    bad_label.push(0);
    bad_label.push(0);
    bad_label.extend_from_slice(&0u64.to_le_bytes());
    assert_eq!(decode_dump(&bad_label).unwrap_err(), DatabaseError::DecodeFailed);

    // A presence flag may only be zero or one.
    let mut bad_flag: Vec<u8> = Vec::new();
    bad_flag.extend_from_slice(&1u64.to_le_bytes());
    bad_flag.push(b'x');
    bad_flag.push(2);
    bad_flag.push(0);
    bad_flag.extend_from_slice(&0u64.to_le_bytes());
    assert_eq!(decode_dump(&bad_flag).unwrap_err(), DatabaseError::DecodeFailed);

    // A policy byte may only be zero or one.
    let mut bad_policy: Vec<u8> = Vec::new();
    bad_policy.extend_from_slice(&1u64.to_le_bytes());
    bad_policy.push(b'x');
    bad_policy.push(0);
    bad_policy.push(9);
    bad_policy.extend_from_slice(&0u64.to_le_bytes());
    assert_eq!(decode_dump(&bad_policy).unwrap_err(), DatabaseError::DecodeFailed);
}
