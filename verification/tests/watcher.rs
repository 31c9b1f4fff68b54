use clipboardwatcher::store::HistoryStore;
use clipboardwatcher::watcher::Watcher;

#[test]
fn test_dedup_identical_content() {
    // The change counter advances between the two ticks, but the logical
    // content is the same: exactly one entry is stored.
    let mut w = Watcher::new();
    let mut store = HistoryStore::new();

    let first = w.tick(
        &mut store,
        1,
        Some("same text".to_string()),
        None,
        "2024-01-01 00:00:01 UTC".to_string(),
    );
    assert!(first.is_some());

    let second = w.tick(
        &mut store,
        2,
        Some("same text".to_string()),
        None,
        "2024-01-01 00:00:02 UTC".to_string(),
    );
    assert!(second.is_none());
    assert_eq!(store.len(), 1);
}

#[test]
fn test_unchanged_counter_skips() {
    let mut w = Watcher::new();
    let mut store = HistoryStore::new();

    let first = w.tick(
        &mut store,
        1,
        Some("one".to_string()),
        None,
        "2024-01-01 00:00:01 UTC".to_string(),
    );
    assert!(first.is_some());

    // Same counter: no work, even though the text differs.
    let second = w.tick(
        &mut store,
        1,
        Some("two".to_string()),
        None,
        "2024-01-01 00:00:02 UTC".to_string(),
    );
    assert!(second.is_none());
    assert_eq!(store.len(), 1);
}

#[test]
fn test_changed_content_is_captured() {
    let mut w = Watcher::new();
    let mut store = HistoryStore::new();

    w.tick(
        &mut store,
        1,
        Some("one".to_string()),
        None,
        "2024-01-01 00:00:01 UTC".to_string(),
    );
    let second = w
        .tick(
            &mut store,
            2,
            Some("two".to_string()),
            None,
            "2024-01-01 00:00:02 UTC".to_string(),
        )
        .unwrap();
    assert_eq!(second.text_content(), Some("two".to_string()));
    assert!(second.id.is_some());
    assert_eq!(store.len(), 2);
}

#[test]
fn test_classifier_prefers_text() {
    let mut w = Watcher::new();
    let mut store = HistoryStore::new();

    let captured = w
        .tick(
            &mut store,
            1,
            Some("plain".to_string()),
            Some("data:image/png;base64,AAEC".to_string()),
            "2024-01-01 00:00:01 UTC".to_string(),
        )
        .unwrap();
    assert_eq!(captured.text_content(), Some("plain".to_string()));
    assert_eq!(captured.image_path(), None);
}

#[test]
fn test_image_snapshot_is_captured() {
    let mut w = Watcher::new();
    let mut store = HistoryStore::new();

    let captured = w
        .tick(
            &mut store,
            1,
            None,
            Some("data:image/png;base64,AAEC".to_string()),
            "2024-01-01 00:00:01 UTC".to_string(),
        )
        .unwrap();
    assert_eq!(
        captured.image_path(),
        Some("data:image/png;base64,AAEC".to_string())
    );
}

#[test]
fn test_unsupported_content_skips_but_records_counter() {
    let mut w = Watcher::new();
    let mut store = HistoryStore::new();

    // Nothing extractable this tick: no entry, but the counter is recorded.
    let first = w.tick(
        &mut store,
        1,
        None,
        None,
        "2024-01-01 00:00:01 UTC".to_string(),
    );
    assert!(first.is_none());
    assert_eq!(store.len(), 0);

    // The same counter now reports no change, so text arriving under it is
    // not captured.
    let second = w.tick(
        &mut store,
        1,
        Some("late".to_string()),
        None,
        "2024-01-01 00:00:02 UTC".to_string(),
    );
    assert!(second.is_none());
    assert_eq!(store.len(), 0);
}

#[test]
fn test_recapture_after_different_content() {
    let mut w = Watcher::new();
    let mut store = HistoryStore::new();

    w.tick(&mut store, 1, Some("a".to_string()), None, "2024-01-01 00:00:01 UTC".to_string());
    w.tick(&mut store, 2, Some("b".to_string()), None, "2024-01-01 00:00:02 UTC".to_string());
    // "a" again: it differs from the last stored payload "b", so it is
    // captured anew.
    let third = w.tick(
        &mut store,
        3,
        Some("a".to_string()),
        None,
        "2024-01-01 00:00:03 UTC".to_string(),
    );
    assert!(third.is_some());
    assert_eq!(store.len(), 3);
}

#[test]
fn test_append_then_most_recent_is_appended() {
    let mut w = Watcher::new();
    let mut store = HistoryStore::new();

    w.tick(&mut store, 1, Some("old".to_string()), None, "2024-01-01 00:00:01 UTC".to_string());
    let captured = w
        .tick(
            &mut store,
            2,
            Some("new".to_string()),
            None,
            "2024-01-01 00:00:02 UTC".to_string(),
        )
        .unwrap();

    let recent = store.get_recent_entries(1);
    assert_eq!(recent.len(), 1);
    assert_eq!(recent[0].id, captured.id);
    assert_eq!(recent[0].text_content(), Some("new".to_string()));
}
