use clipboardwatcher::entry::decode_row;
use clipboardwatcher::entry::ClipboardEntry;
use clipboardwatcher::entry::ClipboardHistory;
use clipboardwatcher::entry::HistoryError;
use clipboardwatcher::store::HistoryStore;

fn text_entry_at(text: &str, created_at: &str) -> ClipboardEntry {
    ClipboardEntry {
        id: None,
        content: ClipboardHistory::Text(text.to_string()),
        created_at: created_at.to_string(),
    }
}

#[test]
fn test_database_creation() {
    let store = HistoryStore::new();
    assert_eq!(store.len(), 0);
}

#[test]
fn test_save_and_retrieve_entry() {
    let mut store = HistoryStore::new();

    // Save an entry
    let content = "Test clipboard content".to_string();
    let entry = ClipboardEntry::new_text_entry(content.clone());
    let id = store.save_entry(entry);
    assert!(id > 0);

    // Retrieve all entries
    let entries = store.get_all_entries();
    assert_eq!(entries.len(), 1);
    assert_eq!(entries[0].text_content(), Some(content));
}

#[test]
fn test_multiple_entries_ordering() {
    let mut store = HistoryStore::new();

    // Save multiple entries with strictly increasing timestamps
    store.save_entry(text_entry_at("First", "2024-01-01 00:00:01 UTC"));
    store.save_entry(text_entry_at("Second", "2024-01-01 00:00:02 UTC"));
    store.save_entry(text_entry_at("Third", "2024-01-01 00:00:03 UTC"));

    // Retrieve and check ordering (most recent first)
    let entries = store.get_all_entries();
    assert_eq!(entries.len(), 3);
    assert_eq!(entries[0].text_content(), Some("Third".to_string()));
    assert_eq!(entries[1].text_content(), Some("Second".to_string()));
    assert_eq!(entries[2].text_content(), Some("First".to_string()));
}

#[test]
fn test_get_recent_entries() {
    let mut store = HistoryStore::new();

    // Save 5 entries
    for i in 1..=5 {
        store.save_entry(text_entry_at(
            &format!("Entry {}", i),
            &format!("2024-01-01 00:00:0{} UTC", i),
        ));
    }

    // Get only 3 most recent
    let entries = store.get_recent_entries(3);
    assert_eq!(entries.len(), 3);
    assert_eq!(entries[0].text_content(), Some("Entry 5".to_string()));
    assert_eq!(entries[1].text_content(), Some("Entry 4".to_string()));
    assert_eq!(entries[2].text_content(), Some("Entry 3".to_string()));
}

#[test]
fn test_delete_entry() {
    let mut store = HistoryStore::new();

    let id = store.save_entry(text_entry_at("To be deleted", "2024-01-01 00:00:01 UTC"));
    let entries = store.get_all_entries();
    assert_eq!(entries.len(), 1);

    store.delete_entry(id).unwrap();
    let entries = store.get_all_entries();
    assert_eq!(entries.len(), 0);
}

#[test]
fn test_clear_all() {
    let mut store = HistoryStore::new();

    // Add multiple entries
    store.save_entry(text_entry_at("Entry 1", "2024-01-01 00:00:01 UTC"));
    store.save_entry(text_entry_at("Entry 2", "2024-01-01 00:00:02 UTC"));
    store.save_entry(text_entry_at("Entry 3", "2024-01-01 00:00:03 UTC"));

    let entries = store.get_all_entries();
    assert_eq!(entries.len(), 3);

    // Clear all
    store.clear_all();
    let entries = store.get_all_entries();
    assert_eq!(entries.len(), 0);
}

#[test]
fn test_delete_missing_reports_not_found() {
    let mut store = HistoryStore::new();
    assert_eq!(store.delete_entry(42), Err(HistoryError::NotFound));

    let id = store.save_entry(text_entry_at("kept", "2024-01-01 00:00:01 UTC"));
    assert_eq!(store.delete_entry(id + 1), Err(HistoryError::NotFound));
    assert_eq!(store.len(), 1);

    // Deleting an existing id removes exactly that one row
    assert_eq!(store.delete_entry(id), Ok(id));
    assert_eq!(store.len(), 0);
}

#[test]
fn test_delete_removes_exactly_one() {
    let mut store = HistoryStore::new();
    let a = store.save_entry(text_entry_at("a", "2024-01-01 00:00:01 UTC"));
    let b = store.save_entry(text_entry_at("b", "2024-01-01 00:00:02 UTC"));
    let c = store.save_entry(text_entry_at("c", "2024-01-01 00:00:03 UTC"));
    assert_eq!(store.delete_entry(b), Ok(b));
    let entries = store.get_all_entries();
    assert_eq!(entries.len(), 2);
    assert_eq!(entries[0].id, Some(c));
    assert_eq!(entries[1].id, Some(a));
}

#[test]
fn test_ids_strictly_increase() {
    let mut store = HistoryStore::new();
    let a = store.save_entry(text_entry_at("a", "2024-01-01 00:00:01 UTC"));
    let b = store.save_entry(text_entry_at("b", "2024-01-01 00:00:02 UTC"));
    store.delete_entry(a).unwrap();
    let c = store.save_entry(text_entry_at("c", "2024-01-01 00:00:03 UTC"));
    assert!(a < b && b < c);
}

#[test]
fn test_ordering_ties_break_by_ascending_id() {
    let mut store = HistoryStore::new();
    let a = store.save_entry(text_entry_at("older insert", "2024-01-01 00:00:01 UTC"));
    let b = store.save_entry(text_entry_at("newer insert", "2024-01-01 00:00:01 UTC"));
    let entries = store.get_all_entries();
    assert_eq!(entries.len(), 2);
    assert_eq!(entries[0].id, Some(a));
    assert_eq!(entries[1].id, Some(b));
}

#[test]
fn test_out_of_order_stamps_are_filed_in_order() {
    // Appends need not arrive in chronological order; the listing still
    // comes out newest first.
    let mut store = HistoryStore::new();
    store.save_entry(text_entry_at("third", "2024-01-01 00:00:03 UTC"));
    store.save_entry(text_entry_at("first", "2024-01-01 00:00:01 UTC"));
    store.save_entry(text_entry_at("second", "2024-01-01 00:00:02 UTC"));
    let entries = store.get_all_entries();
    assert_eq!(entries[0].text_content(), Some("third".to_string()));
    assert_eq!(entries[1].text_content(), Some("second".to_string()));
    assert_eq!(entries[2].text_content(), Some("first".to_string()));
}

#[test]
fn test_stamp_prefix_sorts_before_longer_stamp() {
    // A stamp that is a proper prefix of another counts as the older one.
    let mut store = HistoryStore::new();
    store.save_entry(text_entry_at("longer", "2024-01-01 00:00:01.5 UTC"));
    store.save_entry(text_entry_at("prefix", "2024-01-01 00:00:01"));
    let entries = store.get_all_entries();
    assert_eq!(entries[0].text_content(), Some("longer".to_string()));
    assert_eq!(entries[1].text_content(), Some("prefix".to_string()));
}

#[test]
fn test_image_entries_round_trip() {
    let mut store = HistoryStore::new();
    let entry = ClipboardEntry {
        id: None,
        content: ClipboardHistory::Image("data:image/png;base64,AAEC".to_string()),
        created_at: "2024-01-01 00:00:01 UTC".to_string(),
    };
    store.save_entry(entry);
    let entries = store.get_all_entries();
    assert_eq!(entries.len(), 1);
    assert_eq!(entries[0].text_content(), None);
    assert_eq!(
        entries[0].image_path(),
        Some("data:image/png;base64,AAEC".to_string())
    );
}

#[test]
fn test_decode_row_text() {
    let decoded = decode_row(
        7,
        "TEXT",
        Some("hello".to_string()),
        None,
        "2024-01-01 00:00:01 UTC".to_string(),
    )
    .unwrap();
    assert_eq!(decoded.id, Some(7));
    assert_eq!(decoded.text_content(), Some("hello".to_string()));
    assert_eq!(decoded.created_at, "2024-01-01 00:00:01 UTC".to_string());
}

#[test]
fn test_decode_row_image() {
    let decoded = decode_row(
        8,
        "IMAGE",
        None,
        Some("data:image/png;base64,".to_string()),
        "2024-01-01 00:00:02 UTC".to_string(),
    )
    .unwrap();
    assert_eq!(decoded.id, Some(8));
    assert_eq!(
        decoded.image_path(),
        Some("data:image/png;base64,".to_string())
    );
}

#[test]
fn test_decode_row_malformed() {
    // An unknown tag fails the read.
    let r = decode_row(1, "AUDIO", None, None, "2024".to_string());
    assert_eq!(r.err(), Some(HistoryError::MalformedRecord));

    // A text row without its payload column fails the read.
    let r = decode_row(1, "TEXT", None, None, "2024".to_string());
    assert_eq!(r.err(), Some(HistoryError::MalformedRecord));

    // An image row without its payload column fails the read.
    let r = decode_row(1, "IMAGE", None, None, "2024".to_string());
    assert_eq!(r.err(), Some(HistoryError::MalformedRecord));
}

#[test]
fn test_content_tag() {
    let t = text_entry_at("x", "2024");
    assert_eq!(t.content_tag(), "TEXT");
    let i = ClipboardEntry {
        id: None,
        content: ClipboardHistory::Image("p".to_string()),
        created_at: "2024".to_string(),
    };
    assert_eq!(i.content_tag(), "IMAGE");
}
