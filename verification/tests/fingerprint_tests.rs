use similar_images::fingerprint::{calculate_similarity, hamming_distance, Fingerprint};
use similar_images::EngineError;

fn fp(bytes: Vec<u8>) -> Fingerprint {
    Fingerprint::from_bytes(bytes)
}

#[test]
fn similarity_of_a_fingerprint_with_itself_is_full() {
    let a = fp(vec![0xA5, 0x3C, 0xFF, 0x00, 0x12, 0x34, 0x56, 0x78]);
    assert_eq!(calculate_similarity(&a, &a), Ok(100));
}

#[test]
fn similarity_is_symmetric() {
    let a = fp(vec![0xA5, 0x3C, 0xFF, 0x00, 0x12, 0x34, 0x56, 0x78]);
    let b = fp(vec![0x00, 0xFF, 0x0F, 0xF0, 0x55, 0xAA, 0x11, 0x22]);
    assert_eq!(calculate_similarity(&a, &b), calculate_similarity(&b, &a));
}

#[test]
fn similarity_is_one_hundred_minus_hamming_distance() {
    // the fingerprints differ on exactly the five low bits of one byte
    let a = fp(vec![0x00; 8]);
    let b = fp(vec![0x1F, 0, 0, 0, 0, 0, 0, 0]);
    assert_eq!(hamming_distance(&a, &b), Ok(5));
    assert_eq!(calculate_similarity(&a, &b), Ok(95));
}

#[test]
fn all_bits_different_gives_lowest_score() {
    let a = fp(vec![0x00; 8]);
    let b = fp(vec![0xFF; 8]);
    assert_eq!(hamming_distance(&a, &b), Ok(64));
    assert_eq!(calculate_similarity(&a, &b), Ok(36));
}

#[test]
fn fingerprints_of_different_lengths_are_incompatible() {
    let a = fp(vec![0x00; 8]);
    let b = fp(vec![0x00; 7]);
    assert_eq!(
        calculate_similarity(&a, &b),
        Err(EngineError::IncompatibleFingerprints)
    );
    assert_eq!(
        hamming_distance(&a, &b),
        Err(EngineError::IncompatibleFingerprints)
    );
}

#[test]
fn fingerprint_round_trips_its_bytes() {
    let bytes = vec![1u8, 2, 3, 4, 5, 6, 7, 8];
    let a = fp(bytes.clone());
    assert_eq!(a.to_bytes(), bytes);
    assert_eq!(a.byte_len(), 8);
    assert_eq!(a.duplicate().to_bytes(), bytes);
}
