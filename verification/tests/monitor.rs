use clip_mesh::cli::preview_line;
use clip_mesh::clip_item::{ContentType, TransformType};
use clip_mesh::clipboard::ClipboardMonitor;
use clip_mesh::storage::{Storage, StorageData};
use clip_mesh::ui::UIManager;

fn empty_store() -> Storage {
    Storage::new(StorageData { items: Vec::new(), last_updated: 0 })
}

#[test]
fn million_end_to_end() {
    let mut monitor = ClipboardMonitor::new("testos");
    let mut storage = empty_store();
    let changed = monitor.check_clipboard(Some("1000000".to_string()), &mut storage);
    assert!(changed);
    let listed = storage.get_items(Some(1));
    assert_eq!(listed.len(), 1);
    let it = &listed[0];
    assert_eq!(it.content, "1000000");
    assert_eq!(it.content_type, ContentType::Number);
    assert_eq!(it.transformations.len(), 1);
    assert!(matches!(it.transformations[0].transform_type, TransformType::NumberFormat));
    assert_eq!(it.transformations[0].result, "1,000,000");
    assert_eq!(preview_line(&it.content), "1000000");
}

#[test]
fn identical_reads_store_once() {
    let mut monitor = ClipboardMonitor::new("testos");
    let mut storage = empty_store();
    assert!(monitor.check_clipboard(Some("note".to_string()), &mut storage));
    assert!(!monitor.check_clipboard(Some("note".to_string()), &mut storage));
    assert_eq!(storage.get_items(None).len(), 1);
}

#[test]
fn failed_or_empty_reads_store_nothing() {
    let mut monitor = ClipboardMonitor::new("testos");
    let mut storage = empty_store();
    assert!(!monitor.check_clipboard(None, &mut storage));
    assert!(!monitor.check_clipboard(Some(String::new()), &mut storage));
    assert!(storage.get_items(None).is_empty());
}

#[test]
fn changed_value_is_stored_again() {
    let mut monitor = ClipboardMonitor::new("testos");
    let mut storage = empty_store();
    assert!(monitor.check_clipboard(Some("one".to_string()), &mut storage));
    assert!(monitor.check_clipboard(Some("two".to_string()), &mut storage));
    assert!(monitor.check_clipboard(Some("one".to_string()), &mut storage));
    let all = storage.get_items(None);
    assert_eq!(all.len(), 3);
    assert_eq!(all[0].content, "one");
    assert_eq!(all[1].content, "two");
}

#[test]
fn device_id_carries_host_name() {
    let mut monitor = ClipboardMonitor::new("testos");
    let mut storage = empty_store();
    assert!(monitor.check_clipboard(Some("x".to_string()), &mut storage));
    let stored = &storage.get_items(None)[0];
    assert!(stored.device_id.starts_with("testos-"));
    assert_eq!(stored.device_id.len(), "testos".len() + 9);
}

#[test]
fn generated_device_ids_have_the_expected_shape() {
    let id = ClipboardMonitor::generate_device_id("linux");
    assert!(id.starts_with("linux-"));
    assert_eq!(id.chars().count(), "linux".len() + 9);
}

#[test]
fn ui_hook_is_a_no_op() {
    assert!(UIManager::new().initialize());
}
