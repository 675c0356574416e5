use memstore::codec::{decode, encode};
use memstore::error::StoreError;
use memstore::store::MemoryCollection;

fn push_u64(out: &mut Vec<u8>, x: u64) {
    out.extend_from_slice(&x.to_le_bytes());
}

#[test]
fn empty_buffer_decodes_to_empty_collection() {
    let c = decode(&[], 1536).unwrap();
    assert!(c.is_empty());
    assert_eq!(c.dim(), 1536);
}

#[test]
fn empty_collection_encodes_to_header_only() {
    let c = MemoryCollection::new(3);
    let bytes = encode(&c);
    let mut expected = vec![0x4d, 0x45, 0x4d, 0x31];
    push_u64(&mut expected, 3);
    push_u64(&mut expected, 0);
    assert_eq!(bytes, expected);
    let back = decode(&bytes, 3).unwrap();
    assert!(back.is_empty());
}

#[test]
fn single_record_encodes_to_exact_bytes() {
    let mut c = MemoryCollection::new(1);
    c.insert("A".to_string(), "B".to_string(), vec![1.0f32.to_bits()]).unwrap();
    let bytes = encode(&c);
    let mut expected = vec![0x4d, 0x45, 0x4d, 0x31];
    push_u64(&mut expected, 1); // dimensionality
    push_u64(&mut expected, 1); // record count
    push_u64(&mut expected, 1); // value byte length
    expected.push(0x41); // "A"
    push_u64(&mut expected, 1); // description byte length
    expected.push(0x42); // "B"
    expected.extend_from_slice(&[0x00, 0x00, 0x80, 0x3f]); // bits of 1.0
    assert_eq!(bytes, expected);
}

#[test]
fn corrupt_buffer_is_rejected_not_treated_as_empty() {
    let garbage = b"this is not a valid store file";
    let r = decode(garbage, 2);
    assert_eq!(r.unwrap_err(), StoreError::CorruptData);
}

#[test]
fn short_buffer_is_rejected() {
    assert_eq!(decode(b"x", 2).unwrap_err(), StoreError::CorruptData);
    assert_eq!(decode(&[0x4d, 0x45, 0x4d], 2).unwrap_err(), StoreError::CorruptData);
}

#[test]
fn bad_magic_is_rejected() {
    let mut bytes = vec![0x4e, 0x45, 0x4d, 0x31];
    push_u64(&mut bytes, 2);
    push_u64(&mut bytes, 0);
    assert_eq!(decode(&bytes, 2).unwrap_err(), StoreError::CorruptData);
}

#[test]
fn truncated_record_is_rejected() {
    let mut c = MemoryCollection::new(2);
    c.insert("note".to_string(), "about".to_string(), vec![0, 0]).unwrap();
    let mut bytes = encode(&c);
    bytes.truncate(bytes.len() - 3);
    assert_eq!(decode(&bytes, 2).unwrap_err(), StoreError::CorruptData);
}

#[test]
fn trailing_bytes_are_rejected() {
    let mut c = MemoryCollection::new(1);
    c.insert("note".to_string(), "about".to_string(), vec![0]).unwrap();
    let mut bytes = encode(&c);
    bytes.push(0);
    assert_eq!(decode(&bytes, 1).unwrap_err(), StoreError::CorruptData);
}

#[test]
fn mismatched_dimensionality_is_rejected() {
    let mut c = MemoryCollection::new(2);
    c.insert("note".to_string(), "about".to_string(), vec![0, 0]).unwrap();
    let bytes = encode(&c);
    assert_eq!(decode(&bytes, 3).unwrap_err(), StoreError::CorruptData);
}

#[test]
fn invalid_utf8_in_value_is_rejected() {
    let mut bytes = vec![0x4d, 0x45, 0x4d, 0x31];
    push_u64(&mut bytes, 0); // dimensionality 0
    push_u64(&mut bytes, 1); // one record
    push_u64(&mut bytes, 1); // value byte length
    bytes.push(0xff); // not valid UTF-8
    push_u64(&mut bytes, 0); // description byte length
    assert_eq!(decode(&bytes, 0).unwrap_err(), StoreError::CorruptData);
}

#[test]
fn unicode_texts_round_trip_exactly() {
    let mut c = MemoryCollection::new(1);
    c.insert("héllo wörld".to_string(), "déscription ünïcode".to_string(), vec![5]).unwrap();
    let bytes = encode(&c);
    let back = decode(&bytes, 1).unwrap();
    assert_eq!(back.memory_at(0).value, "héllo wörld");
    assert_eq!(back.memory_at(0).description, "déscription ünïcode");
}

#[test]
fn scored_results_carry_texts_and_score() {
    let mut c = MemoryCollection::new(1);
    c.insert("v".to_string(), "d".to_string(), vec![0]).unwrap();
    let bytes = encode(&c);
    let back = decode(&bytes, 1).unwrap();
    let scored = back.get_scored(&vec![2.5f32.to_bits()]).unwrap();
    assert_eq!(scored.value, "v");
    assert_eq!(scored.description, "d");
    assert_eq!(f32::from_bits(scored.score_bits), 2.5);
}

#[test]
fn into_scored_pairs_record_with_score() {
    let m = memstore::store::Memory { value: "v".to_string(), description: "d".to_string() };
    let scored = m.into_scored(1.25f32.to_bits());
    assert_eq!(scored.value, "v");
    assert_eq!(scored.description, "d");
    assert_eq!(f32::from_bits(scored.score_bits), 1.25);
}
