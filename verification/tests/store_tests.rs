use similar_images::fingerprint::Fingerprint;
use similar_images::store::{register_reference_images, ReferenceImageInput, ReferenceImageRepository};

#[test]
fn test_find_all() {
    let mut repo = ReferenceImageRepository::new();
    let result = repo.find_all();
    assert_eq!(result.len(), 0);

    repo.create_many(vec![
        ReferenceImageInput {
            filepath: "test_1.png".into(),
            hash: "test_hash_1".into(),
        },
        ReferenceImageInput {
            filepath: "test_2.png".into(),
            hash: "test_hash_2".into(),
        },
    ]);

    let result = repo.find_all();
    assert_eq!(result.len(), 2);
    assert_eq!(result[0].filepath, "test_1.png");
    assert_eq!(result[1].filepath, "test_2.png");
    assert_eq!(result[0].hash, "test_hash_1".as_bytes());
    assert_eq!(result[1].hash, "test_hash_2".as_bytes());
}

#[test]
fn test_find_by_filepaths() {
    let mut repo = ReferenceImageRepository::new();

    let target_filepaths = vec![
        "test_1.png".into(),
        "test_2.png".into(),
        "test_3.png".into(),
    ];

    let result = repo.find_by_filepaths(&target_filepaths);
    assert_eq!(result.len(), 0);

    repo.create_many(vec![
        ReferenceImageInput {
            filepath: "test_1.png".into(),
            hash: "test_hash_1".into(),
        },
        ReferenceImageInput {
            filepath: "test_3.png".into(),
            hash: "test_hash_3".into(),
        },
    ]);

    let result = repo.find_by_filepaths(&target_filepaths);
    assert_eq!(result.len(), 2);
    assert_eq!(result[0].filepath, "test_1.png");
    assert_eq!(result[1].filepath, "test_3.png");
    assert_eq!(result[0].hash, "test_hash_1".as_bytes());
    assert_eq!(result[1].hash, "test_hash_3".as_bytes());
}

#[test]
fn test_create_many() {
    let mut repo = ReferenceImageRepository::new();

    let result = repo.find_all();
    assert_eq!(result.len(), 0);

    let last_id = repo.create_many(vec![
        ReferenceImageInput {
            filepath: "test_1.png".into(),
            hash: "test_hash_1".into(),
        },
        ReferenceImageInput {
            filepath: "test_2.png".into(),
            hash: "test_hash_2".into(),
        },
    ]);

    let result = repo.find_all();
    assert_eq!(result.len(), 2);
    assert_eq!(result[0].filepath, "test_1.png");
    assert_eq!(result[1].filepath, "test_2.png");
    assert_eq!(result[0].hash, "test_hash_1".as_bytes());
    assert_eq!(result[1].hash, "test_hash_2".as_bytes());
    assert_eq!(result[1].id, last_id);
}

#[test]
fn test_update() {
    let mut repo = ReferenceImageRepository::new();

    repo.create_many(vec![ReferenceImageInput {
        filepath: "test_1.png".into(),
        hash: "test_hash_1".into(),
    }]);

    let result = repo.find_all();
    assert_eq!(result.len(), 1);
    assert_eq!(result[0].filepath, "test_1.png");
    assert_eq!(result[0].hash, "test_hash_1".as_bytes());

    let found = repo.update(result[0].id, "hash_changed".into());
    assert!(found);

    let result = repo.find_all();
    assert_eq!(result.len(), 1);
    assert_eq!(result[0].filepath, "test_1.png");
    assert_eq!(result[0].hash, "hash_changed".as_bytes());
}

#[test]
fn test_delete() {
    let mut repo = ReferenceImageRepository::new();

    repo.create_many(vec![ReferenceImageInput {
        filepath: "test_1.png".into(),
        hash: "test_hash_1".into(),
    }]);

    let result = repo.find_all();
    assert_eq!(result.len(), 1);

    let result = repo.delete(result[0].id);
    assert_eq!(result, 1);

    let result = repo.find_all();
    assert_eq!(result.len(), 0);
}

#[test]
fn register_updates_existing_path_without_duplicate() {
    let mut repo = ReferenceImageRepository::new();
    repo.create_many(vec![ReferenceImageInput {
        filepath: "ref.png".into(),
        hash: vec![1, 2, 3],
    }]);
    let before = repo.find_all();
    assert_eq!(before.len(), 1);
    let old_id = before[0].id;

    let selected = vec![("ref.png".to_string(), Fingerprint::from_bytes(vec![9, 9, 9]))];
    register_reference_images(&mut repo, &selected);

    let after = repo.find_all();
    assert_eq!(after.len(), 1);
    assert_eq!(after[0].id, old_id);
    assert_eq!(after[0].filepath, "ref.png");
    assert_eq!(after[0].hash, vec![9, 9, 9]);
}

#[test]
fn register_inserts_new_path_once() {
    let mut repo = ReferenceImageRepository::new();
    repo.create_many(vec![ReferenceImageInput {
        filepath: "ref.png".into(),
        hash: vec![1, 2, 3],
    }]);

    let selected = vec![("new.png".to_string(), Fingerprint::from_bytes(vec![4, 5, 6]))];
    register_reference_images(&mut repo, &selected);

    let after = repo.find_all();
    assert_eq!(after.len(), 2);
    assert_eq!(after[0].filepath, "ref.png");
    assert_eq!(after[0].hash, vec![1, 2, 3]);
    assert_eq!(after[1].filepath, "new.png");
    assert_eq!(after[1].hash, vec![4, 5, 6]);
    assert!(after[1].id > after[0].id);
}

#[test]
fn register_empty_input_is_noop() {
    let mut repo = ReferenceImageRepository::new();
    register_reference_images(&mut repo, &Vec::new());
    assert_eq!(repo.find_all().len(), 0);
}

#[test]
fn register_mixed_updates_and_inserts() {
    let mut repo = ReferenceImageRepository::new();
    repo.create_many(vec![
        ReferenceImageInput {
            filepath: "a.png".into(),
            hash: vec![1],
        },
        ReferenceImageInput {
            filepath: "b.png".into(),
            hash: vec![2],
        },
    ]);

    let selected = vec![
        ("b.png".to_string(), Fingerprint::from_bytes(vec![20])),
        ("c.png".to_string(), Fingerprint::from_bytes(vec![30])),
    ];
    register_reference_images(&mut repo, &selected);

    let after = repo.find_all();
    assert_eq!(after.len(), 3);
    assert_eq!(after[0].filepath, "a.png");
    assert_eq!(after[0].hash, vec![1]);
    assert_eq!(after[1].filepath, "b.png");
    assert_eq!(after[1].hash, vec![20]);
    assert_eq!(after[2].filepath, "c.png");
    assert_eq!(after[2].hash, vec![30]);
}
