use clip_mesh::clip_item::ClipItem;
use clip_mesh::storage::{Storage, StorageData};

fn empty_store() -> Storage {
    Storage::new(StorageData { items: Vec::new(), last_updated: 0 })
}

fn item(content: &str) -> ClipItem {
    ClipItem::new(content.to_string(), "dev".to_string())
}

#[test]
fn store_prepends_most_recent_first() {
    let mut s = empty_store();
    s.store_item(item("first"));
    s.store_item(item("second"));
    s.store_item(item("third"));
    let all = s.get_items(None);
    assert_eq!(all.len(), 3);
    assert_eq!(all[0].content, "third");
    assert_eq!(all[1].content, "second");
    assert_eq!(all[2].content, "first");
}

#[test]
fn get_respects_limit() {
    let mut s = empty_store();
    s.store_item(item("a"));
    s.store_item(item("b"));
    s.store_item(item("c"));
    let two = s.get_items(Some(2));
    assert_eq!(two.len(), 2);
    assert_eq!(two[0].content, "c");
    assert_eq!(two[1].content, "b");
    assert_eq!(s.get_items(Some(10)).len(), 3);
    assert_eq!(s.get_items(Some(0)).len(), 0);
}

#[test]
fn retention_keeps_latest_thousand() {
    let mut s = empty_store();
    for i in 0..1005u32 {
        s.store_item(item(&format!("entry-{}", i)));
    }
    let all = s.get_items(None);
    assert_eq!(all.len(), 1000);
    assert_eq!(all[0].content, "entry-1004");
    assert_eq!(all[999].content, "entry-5");
    // the five oldest entries were dropped
    assert!(all.iter().all(|it| it.content != "entry-4"));
    assert!(all.iter().all(|it| it.content != "entry-0"));
}

#[test]
fn search_is_case_insensitive_and_ordered() {
    let mut s = empty_store();
    s.store_item(item("Hello World"));
    s.store_item(item("bye now"));
    s.store_item(item("HELLO again"));
    let found = s.search_items("hello");
    assert_eq!(found.len(), 2);
    assert_eq!(found[0].content, "HELLO again");
    assert_eq!(found[1].content, "Hello World");
    let found_upper = s.search_items("HeLLo");
    assert_eq!(found_upper.len(), 2);
    assert!(s.search_items("xyzzy").is_empty());
}

#[test]
fn search_matches_full_get_order() {
    let mut s = empty_store();
    for word in ["apple pie", "banana", "apple sauce", "cherry"] {
        s.store_item(item(word));
    }
    let all = s.get_items(None);
    let found = s.search_items("apple");
    let expected: Vec<&str> = all
        .iter()
        .filter(|it| it.content.to_lowercase().contains("apple"))
        .map(|it| it.content.as_str())
        .collect();
    let got: Vec<&str> = found.iter().map(|it| it.content.as_str()).collect();
    assert_eq!(got, expected);
}

#[test]
fn find_item_by_id() {
    let mut s = empty_store();
    s.store_item(item("one"));
    s.store_item(item("two"));
    let all = s.get_items(None);
    let wanted = &all[1];
    let found = s.find_item(&wanted.id).expect("the id is stored");
    assert_eq!(found.id, wanted.id);
    assert_eq!(found.content, "one");
    assert!(s.find_item("not-a-real-id").is_none());
}

#[test]
fn new_keeps_loaded_document() {
    let mut s = empty_store();
    s.store_item(item("kept"));
    let reloaded = Storage::new(s.data);
    let all = reloaded.get_items(None);
    assert_eq!(all.len(), 1);
    assert_eq!(all[0].content, "kept");
}

#[test]
fn empty_query_matches_everything() {
    let mut s = empty_store();
    s.store_item(item("alpha"));
    s.store_item(item("beta"));
    let found = s.search_items("");
    assert_eq!(found.len(), 2);
    assert_eq!(found[0].content, "beta");
}

#[test]
fn search_ignores_query_case() {
    let mut s = empty_store();
    s.store_item(item("Mixed Case Content"));
    assert_eq!(s.search_items("mixed case").len(), 1);
    assert_eq!(s.search_items("MIXED CASE").len(), 1);
    assert_eq!(s.search_items("MiXeD cAsE").len(), 1);
}
