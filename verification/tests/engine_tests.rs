use similar_images::engine::{rank_results, search_similar_images};
use similar_images::fingerprint::Fingerprint;
use similar_images::store::{ReferenceImageInput, ReferenceImageRepository};
use similar_images::EngineError;

fn fp(bytes: Vec<u8>) -> Fingerprint {
    Fingerprint::from_bytes(bytes)
}

/// A fingerprint differing from the all-zero one on exactly `bits` bits.
fn fp_at_distance(bits: usize) -> Fingerprint {
    let mut bytes = vec![0u8; 8];
    for b in 0..bits {
        bytes[b / 8] |= 1 << (b % 8);
    }
    fp(bytes)
}

fn repo_with_zero_reference() -> ReferenceImageRepository {
    let mut repo = ReferenceImageRepository::new();
    repo.create_many(vec![ReferenceImageInput {
        filepath: "reference.png".into(),
        hash: vec![0u8; 8],
    }]);
    repo
}

#[test]
fn empty_root_path_returns_empty_result_set() {
    let repo = repo_with_zero_reference();
    let candidates = vec![("close.jpg".to_string(), fp_at_distance(0))];
    let r = search_similar_images("", &repo, &candidates).unwrap();
    assert_eq!(r.len(), 0);

    // the reference store plays no part in the answer
    let empty_repo = ReferenceImageRepository::new();
    let r = search_similar_images("", &empty_repo, &candidates).unwrap();
    assert_eq!(r.len(), 0);
}

#[test]
fn search_without_references_fails() {
    let repo = ReferenceImageRepository::new();
    let candidates = vec![("close.jpg".to_string(), fp_at_distance(0))];
    let r = search_similar_images("photos", &repo, &candidates);
    assert_eq!(r, Err(EngineError::NoReferenceImages));
}

#[test]
fn similarity_reported_is_one_hundred_minus_distance() {
    let repo = repo_with_zero_reference();
    let candidates = vec![
        ("close.jpg".to_string(), fp_at_distance(5)),
        ("far.jpg".to_string(), fp_at_distance(11)),
    ];
    let r = search_similar_images("photos", &repo, &candidates).unwrap();
    // distance 5 scores 95 and is reported; distance 11 scores 89,
    // under the threshold of 90, and is not
    assert_eq!(r.len(), 1);
    assert_eq!(r[0].filepath, "close.jpg");
    assert_eq!(r[0].similarity, 95);
    assert!(!r[0].is_deleted);
    assert_eq!(r[0].error_message, None);
}

#[test]
fn candidate_at_the_threshold_is_included() {
    let repo = repo_with_zero_reference();
    let candidates = vec![("edge.jpg".to_string(), fp_at_distance(10))];
    let r = search_similar_images("photos", &repo, &candidates).unwrap();
    assert_eq!(r.len(), 1);
    assert_eq!(r[0].similarity, 90);
}

#[test]
fn results_are_capped_at_ten_sorted_descending_ties_in_scan_order() {
    let repo = repo_with_zero_reference();
    let mut candidates = Vec::new();
    // fifteen candidates over the threshold: distances 0..4 twice, 5..9 once
    for d in 0..5 {
        candidates.push((format!("first_{d}.jpg"), fp_at_distance(d)));
    }
    for d in 0..5 {
        candidates.push((format!("second_{d}.jpg"), fp_at_distance(d)));
    }
    for d in 5..10 {
        candidates.push((format!("tail_{d}.jpg"), fp_at_distance(d)));
    }
    let r = search_similar_images("photos", &repo, &candidates).unwrap();
    assert_eq!(r.len(), 10);
    for w in r.windows(2) {
        assert!(w[0].similarity >= w[1].similarity);
    }
    // equal scores keep scan order: first_d before second_d
    let expected: Vec<(&str, u32)> = vec![
        ("first_0.jpg", 100),
        ("second_0.jpg", 100),
        ("first_1.jpg", 99),
        ("second_1.jpg", 99),
        ("first_2.jpg", 98),
        ("second_2.jpg", 98),
        ("first_3.jpg", 97),
        ("second_3.jpg", 97),
        ("first_4.jpg", 96),
        ("second_4.jpg", 96),
    ];
    for (hit, (path, score)) in r.iter().zip(expected) {
        assert_eq!(hit.filepath, path);
        assert_eq!(hit.similarity, score);
    }
}

#[test]
fn incomparable_candidate_is_excluded_not_fatal() {
    let repo = repo_with_zero_reference();
    let candidates = vec![
        ("short.jpg".to_string(), fp(vec![0u8; 4])),
        ("close.jpg".to_string(), fp_at_distance(1)),
    ];
    let r = search_similar_images("photos", &repo, &candidates).unwrap();
    assert_eq!(r.len(), 1);
    assert_eq!(r[0].filepath, "close.jpg");
    assert_eq!(r[0].similarity, 99);
}

#[test]
fn best_reference_score_wins() {
    let mut repo = ReferenceImageRepository::new();
    repo.create_many(vec![
        ReferenceImageInput {
            filepath: "ref_far.png".into(),
            hash: vec![0xFFu8; 8],
        },
        ReferenceImageInput {
            filepath: "ref_near.png".into(),
            hash: vec![0u8; 8],
        },
    ]);
    let candidates = vec![("c.jpg".to_string(), fp_at_distance(3))];
    let r = search_similar_images("photos", &repo, &candidates).unwrap();
    assert_eq!(r.len(), 1);
    assert_eq!(r[0].similarity, 97);
}

#[test]
fn end_to_end_one_close_file_among_nine_distant_ones() {
    // reference set: one fingerprint
    let repo = repo_with_zero_reference();
    // one candidate within distance five, nine more than ten bits away
    let mut candidates = vec![("hit.jpg".to_string(), fp_at_distance(5))];
    for d in 11..20 {
        candidates.push((format!("miss_{d}.jpg"), fp_at_distance(d)));
    }
    let r = search_similar_images("photos", &repo, &candidates).unwrap();
    assert_eq!(r.len(), 1);
    assert_eq!(r[0].filepath, "hit.jpg");
    assert_eq!(r[0].similarity, 95);
}

#[test]
fn ranking_assigns_ids_by_position() {
    let scored = vec![
        ("low.jpg".to_string(), 91u32),
        ("high.jpg".to_string(), 99u32),
        ("under.jpg".to_string(), 89u32),
    ];
    let r = rank_results(&scored);
    assert_eq!(r.len(), 2);
    assert_eq!(r[0].filepath, "high.jpg");
    assert_eq!(r[0].similarity, 99);
    assert_eq!(r[1].filepath, "low.jpg");
    assert_eq!(r[1].similarity, 91);
}
