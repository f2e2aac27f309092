use mammal_store::codec::{
    decode, encode, first_child, is_descendant, next_sibling, parent_of, path_lt,
};
use mammal_store::errors::StoreError;

#[test]
fn decode_single_segment() {
    assert_eq!(decode("7").unwrap(), vec![7]);
    assert_eq!(decode("0").unwrap(), vec![0]);
}

#[test]
fn decode_multi_segment() {
    assert_eq!(decode("3.1.4").unwrap(), vec![3, 1, 4]);
    assert_eq!(decode("1.0.2").unwrap(), vec![1, 0, 2]);
}

#[test]
fn decode_rejects_empty_string() {
    assert_eq!(decode(""), Err(StoreError::MalformedPath));
}

#[test]
fn decode_rejects_non_numeric() {
    assert_eq!(decode("a"), Err(StoreError::MalformedPath));
    assert_eq!(decode("1.x"), Err(StoreError::MalformedPath));
    assert_eq!(decode("1,2"), Err(StoreError::MalformedPath));
}

#[test]
fn decode_rejects_empty_segments() {
    assert_eq!(decode("1..2"), Err(StoreError::MalformedPath));
    assert_eq!(decode("1."), Err(StoreError::MalformedPath));
    assert_eq!(decode(".1"), Err(StoreError::MalformedPath));
}

#[test]
fn decode_rejects_non_canonical_leading_zero() {
    assert_eq!(decode("01"), Err(StoreError::MalformedPath));
    assert_eq!(decode("1.02"), Err(StoreError::MalformedPath));
}

#[test]
fn decode_rejects_oversized_segment() {
    assert_eq!(
        decode("99999999999999999999999999"),
        Err(StoreError::MalformedPath)
    );
}

#[test]
fn encode_renders_dotted() {
    assert_eq!(encode(&vec![3, 1, 4]).unwrap(), "3.1.4");
    assert_eq!(encode(&vec![0]).unwrap(), "0");
    assert_eq!(encode(&vec![10, 250]).unwrap(), "10.250");
}

#[test]
fn encode_rejects_empty_sequence() {
    assert_eq!(encode(&vec![]), Err(StoreError::InvalidSegment));
}

#[test]
fn round_trip_encode_of_decode() {
    for p in ["1", "0", "3.1.4", "10.2", "2.9", "2.10", "18446744073709551615"] {
        let segs = decode(p).unwrap();
        assert_eq!(encode(&segs).unwrap(), p);
    }
}

#[test]
fn round_trip_decode_of_encode() {
    for segs in [vec![1], vec![0, 0, 0], vec![10, 2, 33], vec![u64::MAX]] {
        let s = encode(&segs).unwrap();
        assert_eq!(decode(&s).unwrap(), segs);
    }
}

#[test]
fn ordering_is_numeric_not_lexical() {
    // "2.10" > "2.9" numerically, though "2.10" < "2.9" as plain strings
    assert_eq!(path_lt("2.9", "2.10"), Ok(true));
    assert_eq!(path_lt("2.10", "2.9"), Ok(false));
    assert!(("2.10" < "2.9") && path_lt("2.10", "2.9") == Ok(false));
}

#[test]
fn ordering_prefix_sorts_first() {
    assert_eq!(path_lt("1.2", "1.2.1"), Ok(true));
    assert_eq!(path_lt("1.2.1", "1.2"), Ok(false));
    assert_eq!(path_lt("1.2", "1.2"), Ok(false));
}

#[test]
fn ordering_rejects_malformed() {
    assert_eq!(path_lt("1.x", "1"), Err(StoreError::MalformedPath));
    assert_eq!(path_lt("1", ""), Err(StoreError::MalformedPath));
}

#[test]
fn descendant_is_segment_prefix() {
    assert!(is_descendant("1.2.3", "1.2"));
    assert!(!is_descendant("1.20", "1.2"));
    assert!(!is_descendant("1.2", "1.2"));
    assert!(!is_descendant("2.1", "1"));
    assert!(is_descendant("1.2.3.4", "1"));
}

#[test]
fn descendant_of_malformed_is_false() {
    assert!(!is_descendant("1.x", "1"));
    assert!(!is_descendant("1.2", ""));
}

#[test]
fn parent_of_drops_last_segment() {
    assert_eq!(parent_of("1.2.3").unwrap(), Some("1.2".to_string()));
    assert_eq!(parent_of("7").unwrap(), None);
    assert_eq!(parent_of("x.y"), Err(StoreError::MalformedPath));
}

#[test]
fn next_sibling_increments_last_segment() {
    assert_eq!(next_sibling("1.2").unwrap(), "1.3");
    assert_eq!(next_sibling("9").unwrap(), "10");
    assert_eq!(next_sibling(""), Err(StoreError::MalformedPath));
    assert_eq!(
        next_sibling("1.18446744073709551615"),
        Err(StoreError::InvalidSegment)
    );
}

#[test]
fn first_child_appends_zero() {
    assert_eq!(first_child("1.2").unwrap(), "1.2.0");
    assert_eq!(first_child("3").unwrap(), "3.0");
    assert_eq!(first_child("3:"), Err(StoreError::MalformedPath));
}
