use similar_images::deletion::{delete_batch, delete_progress, DeleteProgress, RemovalOutcome};

#[test]
fn one_event_per_item_in_input_order() {
    let selected = vec![
        (0u32, "a.jpg".to_string()),
        (1u32, "missing.jpg".to_string()),
        (2u32, "locked.jpg".to_string()),
    ];
    let outcomes = vec![
        RemovalOutcome::Removed,
        RemovalOutcome::NotFound,
        RemovalOutcome::Failed("permission denied".to_string()),
    ];
    let events = delete_batch(&selected, outcomes);
    assert_eq!(events.len(), 3);

    assert_eq!(events[0].image_id, 0);
    assert!(events[0].is_success);
    assert_eq!(events[0].message, None);

    assert_eq!(events[1].image_id, 1);
    assert!(!events[1].is_success);
    assert_eq!(events[1].message, Some("File not found".to_string()));

    // the batch ran on past the missing file
    assert_eq!(events[2].image_id, 2);
    assert!(!events[2].is_success);
    assert_eq!(events[2].message, Some("permission denied".to_string()));
}

#[test]
fn empty_selection_emits_no_events() {
    let events = delete_batch(&Vec::new(), Vec::new());
    assert_eq!(events.len(), 0);
}

#[test]
fn single_events_carry_their_outcome() {
    let ok = delete_progress(7, RemovalOutcome::Removed);
    assert_eq!(
        ok,
        DeleteProgress {
            image_id: 7,
            is_success: true,
            message: None,
        }
    );

    let missing = delete_progress(8, RemovalOutcome::NotFound);
    assert_eq!(
        missing,
        DeleteProgress {
            image_id: 8,
            is_success: false,
            message: Some("File not found".to_string()),
        }
    );

    let failed = delete_progress(9, RemovalOutcome::Failed("disk error".to_string()));
    assert_eq!(
        failed,
        DeleteProgress {
            image_id: 9,
            is_success: false,
            message: Some("disk error".to_string()),
        }
    );
}
