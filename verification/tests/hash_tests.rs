use similar_images::engine::search_similar_images;
use similar_images::fingerprint::{calculate_similarity, compute_hash};
use similar_images::store::{ReferenceImageInput, ReferenceImageRepository};

/// A 64 by 64 grayscale diagonal gradient.
fn gradient_pixels(step: u8) -> Vec<u8> {
    let mut luma = Vec::new();
    for y in 0..64u32 {
        for x in 0..64u32 {
            luma.push(((x + y) as u8).wrapping_mul(step));
        }
    }
    luma
}

/// A 64 by 64 image of alternating black and white columns.
fn stripe_pixels() -> Vec<u8> {
    let mut luma = Vec::new();
    for _ in 0..64u32 {
        for x in 0..64u32 {
            luma.push(if x % 2 == 0 { 0 } else { 255 });
        }
    }
    luma
}

#[test]
fn computed_fingerprints_have_eight_bytes() {
    let fp = compute_hash(64, 64, &gradient_pixels(2));
    assert_eq!(fp.byte_len(), 8);
}

#[test]
fn hashing_is_deterministic() {
    let a = compute_hash(64, 64, &gradient_pixels(2));
    let b = compute_hash(64, 64, &gradient_pixels(2));
    assert_eq!(a.to_bytes(), b.to_bytes());
    assert_eq!(calculate_similarity(&a, &b), Ok(100));
}

#[test]
fn different_images_hash_differently() {
    let a = compute_hash(64, 64, &gradient_pixels(2));
    let b = compute_hash(64, 64, &stripe_pixels());
    assert_ne!(a.to_bytes(), b.to_bytes());
}

#[test]
fn a_single_pixel_image_still_hashes() {
    let fp = compute_hash(1, 1, &vec![128]);
    assert_eq!(fp.byte_len(), 8);
}

#[test]
fn a_real_hash_finds_its_own_image() {
    let fp = compute_hash(64, 64, &gradient_pixels(2));
    let mut repo = ReferenceImageRepository::new();
    repo.create_many(vec![ReferenceImageInput {
        filepath: "reference.png".into(),
        hash: fp.to_bytes(),
    }]);
    let candidates = vec![(
        "copy.jpg".to_string(),
        compute_hash(64, 64, &gradient_pixels(2)),
    )];
    let r = search_similar_images("photos", &repo, &candidates).unwrap();
    assert_eq!(r.len(), 1);
    assert_eq!(r[0].similarity, 100);
}
