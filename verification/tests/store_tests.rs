use std::time::Instant;

use clipstack::entry::ClipEntry;
use clipstack::store::Storage;

fn test_storage() -> Storage {
    Storage::with_defaults("store".to_string())
}

#[test]
fn test_save_and_load_entry() {
    let mut storage = test_storage();
    let content = "Hello, clipboard!";

    let entry = storage.save_entry(content).unwrap();
    assert_eq!(entry.size, content.len());
    assert_eq!(entry.preview, content);

    let loaded = storage.load_content(&entry.id).unwrap();
    assert_eq!(loaded, content);
}

#[test]
fn test_large_content_preview_truncated() {
    let mut storage = test_storage();
    let content = "x".repeat(500_000); // 500KB

    let entry = storage.save_entry(&content).unwrap();
    assert_eq!(entry.size, 500_000);
    assert_eq!(entry.preview.len(), 100);

    let loaded = storage.load_content(&entry.id).unwrap();
    assert_eq!(loaded.len(), 500_000);
}

#[test]
fn test_index_persistence() {
    let mut storage = test_storage();

    storage.save_entry_at("first", 1).unwrap();
    storage.save_entry_at("second", 2).unwrap();

    let index = storage.load_index();
    assert_eq!(index.entries.len(), 2);
    assert_eq!(index.entries[0].preview, "second"); // Most recent first
    assert_eq!(index.entries[1].preview, "first");
}

#[test]
fn test_duplicate_detection() {
    let mut storage = test_storage();
    let content = "duplicate content";

    storage.save_entry(content).unwrap();
    storage.save_entry(content).unwrap();

    let index = storage.load_index();
    assert_eq!(index.entries.len(), 1); // Only one entry
}

#[test]
fn test_duplicate_moves_to_front() {
    let mut storage = test_storage();

    // Save three entries at increasing times
    storage.save_entry_at("first", 1).unwrap();
    storage.save_entry_at("second", 2).unwrap();
    storage.save_entry_at("third", 3).unwrap();

    let index = storage.load_index();
    assert_eq!(index.entries.len(), 3);
    assert_eq!(index.entries[0].preview, "third"); // Most recent first
    assert_eq!(index.entries[2].preview, "first"); // Oldest last

    // Re-save "first" - should move to front
    storage.save_entry_at("first", 4).unwrap();

    let index = storage.load_index();
    assert_eq!(index.entries.len(), 3); // Still 3 entries
    assert_eq!(index.entries[0].preview, "first"); // Now at front
    assert_eq!(index.entries[1].preview, "third");
    assert_eq!(index.entries[2].preview, "second");
}

#[test]
fn test_unicode_content_handling() {
    let mut storage = test_storage();
    let content = "Hello 世界 🎉 émojis 日本語テスト";

    let entry = storage.save_entry(content).unwrap();

    // Verify content is saved and loaded correctly
    let loaded = storage.load_content(&entry.id).unwrap();
    assert_eq!(loaded, content);

    // Verify preview handles Unicode without panic
    assert!(!entry.preview.is_empty());
    assert!(entry.preview.len() <= 100 * 4); // UTF-8 can use up to 4 bytes per char
}

#[test]
fn test_long_unicode_content_preview_truncation() {
    let mut storage = test_storage();
    // Create content with 200 emoji characters (each is 4 bytes in UTF-8)
    let content = "🎉".repeat(200);

    let entry = storage.save_entry(&content).unwrap();

    // Preview should be truncated to 100 characters, not bytes
    assert_eq!(entry.preview.chars().count(), 100);
    // But full content should be preserved
    let loaded = storage.load_content(&entry.id).unwrap();
    assert_eq!(loaded, content);
}

#[test]
fn test_empty_and_whitespace_content() {
    let mut storage = test_storage();

    // Empty content should still be saved (edge case)
    let entry = storage.save_entry("").unwrap();
    assert_eq!(entry.size, 0);
    assert!(entry.preview.is_empty());

    let loaded = storage.load_content(&entry.id).unwrap();
    assert!(loaded.is_empty());

    // Whitespace-only content should be saved with sanitized preview
    let ws_content = "   \n\t\r   ";
    let ws_entry = storage.save_entry(ws_content).unwrap();
    assert_eq!(ws_entry.size, ws_content.len());
    // Control chars should be replaced with spaces in preview
    assert!(!ws_entry.preview.contains('\n'));
    assert!(!ws_entry.preview.contains('\t'));
}

#[test]
fn test_delete_nonexistent_entry() {
    let mut storage = test_storage();

    // Deleting nonexistent entry should not error
    storage.delete_entry("nonexistent-id");
    assert!(storage.load_index().entries.is_empty());
}

#[test]
fn test_pruning_old_entries() {
    let mut storage = test_storage();

    // Save max_entries + 5 items
    for i in 0..(100 + 5) {
        storage
            .save_entry_at(&format!("content {}", i), i as i64)
            .unwrap();
    }

    let index = storage.load_index();
    assert_eq!(index.entries.len(), 100);

    // Oldest entries should be pruned
    assert!(index.entries[0].preview.contains(&(100 + 4).to_string()));
}

#[test]
fn test_clear() {
    let mut storage = test_storage();

    storage.save_entry("one").unwrap();
    storage.save_entry("two").unwrap();
    storage.clear();

    let index = storage.load_index();
    assert!(index.entries.is_empty());
}

#[test]
fn test_clear_preserves_custom_max_entries() {
    let mut storage = Storage::new("store".to_string(), 42);

    storage.save_entry("test").unwrap();
    storage.clear();

    // Verify max_entries is preserved after clear
    let index = storage.load_index();
    assert!(index.entries.is_empty());
    assert_eq!(
        index.max_entries, 42,
        "clear() should preserve configured max_entries"
    );
}

#[test]
fn test_delete_entry() {
    let mut storage = test_storage();

    let entry = storage.save_entry("to delete").unwrap();
    storage.delete_entry(&entry.id);

    let index = storage.load_index();
    assert!(index.entries.is_empty());
}

#[test]
fn test_preview_sanitizes_control_chars() {
    let mut storage = test_storage();
    let content = "line1\nline2\ttab\rcarriage";

    let entry = storage.save_entry(content).unwrap();
    assert!(!entry.preview.contains('\n'));
    assert!(!entry.preview.contains('\t'));
    assert!(!entry.preview.contains('\r'));
}

#[test]
fn test_performance_large_entries() {
    let mut storage = test_storage();

    // Generate 100 entries of 500KB
    let base_content = "x".repeat(500_000);

    let start = Instant::now();
    for i in 0..100 {
        let unique_content = format!("{:03}{}", i, &base_content[..base_content.len() - 3]);
        storage.save_entry(&unique_content).unwrap();
    }
    let gen_time = start.elapsed();
    println!("Generated 100 x 500KB entries in {:?}", gen_time);

    // Index load should be < 10ms
    let start = Instant::now();
    for _ in 0..100 {
        let _ = storage.load_index();
    }
    let index_time = start.elapsed();
    let avg_index_time = index_time / 100;
    println!("Average index load: {:?}", avg_index_time);
    assert!(
        avg_index_time.as_millis() < 10,
        "Index load too slow: {:?}",
        avg_index_time
    );

    // Content load should be < 50ms for 500KB
    let index = storage.load_index();
    let start = Instant::now();
    for _ in 0..10 {
        let _ = storage.load_content(&index.entries[0].id).unwrap();
    }
    let content_time = start.elapsed();
    let avg_content_time = content_time / 10;
    println!("Average 500KB content load: {:?}", avg_content_time);
    assert!(
        avg_content_time.as_millis() < 50,
        "Content load too slow: {:?}",
        avg_content_time
    );
}

#[test]
fn test_custom_max_entries() {
    let mut storage = Storage::new("store".to_string(), 5);

    // Fill beyond limit
    for i in 0..10 {
        storage
            .save_entry_at(&format!("entry {}", i), i as i64)
            .unwrap();
    }

    let index = storage.load_index();
    assert_eq!(index.entries.len(), 5);
    assert_eq!(index.max_entries, 5);
}

#[test]
fn test_max_entries_clamps_low() {
    let storage = Storage::new("store".to_string(), 0);
    assert_eq!(storage.max_entries(), 1);
}

#[test]
fn test_max_entries_clamps_high() {
    let storage = Storage::new("store".to_string(), 999999);
    assert_eq!(storage.max_entries(), 10000);
}

#[test]
fn test_reducing_max_entries_prunes_immediately() {
    // Create with high limit
    let mut storage = Storage::new("store".to_string(), 100);
    for i in 0..50 {
        storage
            .save_entry_at(&format!("entry {}", i), i as i64)
            .unwrap();
    }

    // Reopen the same state with a lower limit - should prune
    let entries: Vec<ClipEntry> = storage.load_index().entries;
    let storage = Storage::from_parts("store".to_string(), 10, entries, Vec::new());
    let index = storage.load_index();

    assert_eq!(index.entries.len(), 10);
}

#[test]
fn test_max_entries_getter() {
    let storage = Storage::new("store".to_string(), 42);
    assert_eq!(storage.max_entries(), 42);
}

#[test]
fn test_with_defaults_uses_100() {
    let storage = Storage::with_defaults("store".to_string());
    assert_eq!(storage.max_entries(), 100);
}
