use clipboardwatcher::entry::ClipboardEntry;
use clipboardwatcher::entry::ClipboardHistory;
use clipboardwatcher::store::HistoryStore;

fn text_entry_at(text: &str, created_at: &str) -> ClipboardEntry {
    ClipboardEntry {
        id: None,
        content: ClipboardHistory::Text(text.to_string()),
        created_at: created_at.to_string(),
    }
}

#[test]
fn test_search_ranks_and_filters() {
    let mut store = HistoryStore::new();
    store.save_entry(text_entry_at("helloworld", "2024-01-01 00:00:01 UTC"));
    store.save_entry(text_entry_at("hello_world", "2024-01-01 00:00:02 UTC"));
    store.save_entry(text_entry_at("nothing here", "2024-01-01 00:00:03 UTC"));
    store.save_entry(ClipboardEntry {
        id: None,
        content: ClipboardHistory::Image("data:image/png;base64,AAEC".to_string()),
        created_at: "2024-01-01 00:00:04 UTC".to_string(),
    });

    let hits = store.search(&"hw".to_string());
    // The image entry and the text lacking a 'w' are excluded; the boundary
    // match outranks the mid-word match.
    assert_eq!(hits.len(), 2);
    assert_eq!(hits[0].text_content(), Some("hello_world".to_string()));
    assert_eq!(hits[1].text_content(), Some("helloworld".to_string()));
}

#[test]
fn test_search_empty_query_finds_nothing() {
    let mut store = HistoryStore::new();
    store.save_entry(text_entry_at("hello", "2024-01-01 00:00:01 UTC"));
    let hits = store.search(&String::new());
    assert_eq!(hits.len(), 0);
}

#[test]
fn test_search_equal_scores_keep_listing_order() {
    let mut store = HistoryStore::new();
    let older = store.save_entry(text_entry_at("same text", "2024-01-01 00:00:01 UTC"));
    let newer = store.save_entry(text_entry_at("same text", "2024-01-01 00:00:02 UTC"));
    let hits = store.search(&"same".to_string());
    assert_eq!(hits.len(), 2);
    assert_eq!(hits[0].id, Some(newer));
    assert_eq!(hits[1].id, Some(older));
}

#[test]
fn test_search_excludes_non_matches_only() {
    let mut store = HistoryStore::new();
    store.save_entry(text_entry_at("alpha", "2024-01-01 00:00:01 UTC"));
    store.save_entry(text_entry_at("beta", "2024-01-01 00:00:02 UTC"));
    let hits = store.search(&"a".to_string());
    assert_eq!(hits.len(), 2);
    let hits = store.search(&"alp".to_string());
    assert_eq!(hits.len(), 1);
    assert_eq!(hits[0].text_content(), Some("alpha".to_string()));
}
