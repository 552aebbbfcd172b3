use esp_extractor::delta::{RecordChange, RecordId, TranslationDelta};

fn create_test_change(form_id: u32, old: &str, new: &str) -> RecordChange {
    RecordChange {
        record_id: RecordId::from_form_id(form_id),
        subrecord_type: "FULL".to_string(),
        old_value: old.to_string(),
        new_value: new.to_string(),
        applied_at: 0,
    }
}

#[test]
fn test_delta_basic() {
    let mut delta = TranslationDelta::new();
    assert_eq!(delta.len(), 0);
    assert!(delta.is_empty());

    delta.add_change(create_test_change(1, "old", "new"));
    assert_eq!(delta.len(), 1);
    assert!(!delta.is_empty());
}

#[test]
fn test_undo_redo() {
    let mut delta = TranslationDelta::new();

    delta.add_change(create_test_change(1, "a", "b"));
    delta.add_change(create_test_change(2, "c", "d"));
    delta.add_change(create_test_change(3, "e", "f"));

    assert_eq!(delta.len(), 3);

    let undone = delta.undo().unwrap();
    assert_eq!(undone.record_id.form_id, 3);
    assert_eq!(delta.len(), 2);

    delta.undo().unwrap();
    assert_eq!(delta.len(), 1);

    let redone = delta.redo().unwrap();
    assert_eq!(redone.record_id.form_id, 2);
    assert_eq!(delta.len(), 2);
}

#[test]
fn test_new_change_clears_redo() {
    let mut delta = TranslationDelta::new();

    delta.add_change(create_test_change(1, "a", "b"));
    delta.add_change(create_test_change(2, "c", "d"));

    delta.undo().unwrap();
    assert!(delta.can_redo());

    delta.add_change(create_test_change(3, "e", "f"));
    assert!(!delta.can_redo());
}

#[test]
fn test_undo_when_empty() {
    let mut delta = TranslationDelta::new();
    let result = delta.undo();
    assert!(result.is_err());
}

#[test]
fn test_redo_when_empty() {
    let mut delta = TranslationDelta::new();
    let result = delta.redo();
    assert!(result.is_err());
}

#[test]
fn test_get_changes_for_record() {
    let mut delta = TranslationDelta::new();

    let record_id = RecordId::from_form_id(100);
    delta.add_change(RecordChange {
        record_id: record_id.clone(),
        subrecord_type: "FULL".to_string(),
        old_value: "old1".to_string(),
        new_value: "new1".to_string(),
        applied_at: 0,
    });

    delta.add_change(create_test_change(200, "x", "y"));

    delta.add_change(RecordChange {
        record_id: record_id.clone(),
        subrecord_type: "DESC".to_string(),
        old_value: "old2".to_string(),
        new_value: "new2".to_string(),
        applied_at: 0,
    });

    let changes = delta.get_changes_for_record(&record_id);
    assert_eq!(changes.len(), 2);
}

#[test]
fn test_clear() {
    let mut delta = TranslationDelta::new();
    delta.add_change(create_test_change(1, "a", "b"));
    delta.add_change(create_test_change(2, "c", "d"));

    delta.clear();

    assert_eq!(delta.len(), 0);
    assert!(delta.is_empty());
    assert!(!delta.can_undo());
    assert!(!delta.can_redo());
}

#[test]
fn test_summary() {
    let mut delta = TranslationDelta::new();
    delta.add_change(create_test_change(1, "a", "b"));
    delta.add_change(create_test_change(2, "c", "d"));

    let summary = delta.summary();
    assert!(summary.contains("变更总数: 2"));
    assert!(summary.contains("有效变更: 2"));
}

#[test]
fn delta_iter_lists_changes_in_effect_oldest_first() {
    let mut delta = TranslationDelta::new();
    delta.add_change(create_test_change(1, "a", "b"));
    delta.add_change(create_test_change(2, "c", "d"));
    delta.undo().unwrap();
    let ids: Vec<u32> = delta.iter().iter().map(|c| c.record_id.form_id).collect();
    assert_eq!(ids, vec![1]);
    assert_eq!(delta.all_changes().len(), 2);
}

#[test]
fn delta_summary_text() {
    let mut delta = TranslationDelta::new();
    delta.add_change(create_test_change(1, "a", "b"));
    delta.undo().unwrap();
    assert_eq!(delta.summary(), "变更总数: 1, 有效变更: 0, 可撤销: false, 可重做: true");
}
