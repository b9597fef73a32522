use clipstack::errors::StoreError;
use clipstack::store::Storage;

#[test]
fn test_toggle_pin() {
    let mut storage = Storage::with_defaults("store".to_string());

    let entry = storage.save_entry("test content").unwrap();
    assert!(!entry.pinned);

    // Toggle on
    let pinned = storage.toggle_pin(&entry.id).unwrap();
    assert!(pinned);

    // Verify recorded
    let index = storage.load_index();
    assert!(index.entries[0].pinned);

    // Toggle off
    let pinned = storage.toggle_pin(&entry.id).unwrap();
    assert!(!pinned);
}

#[test]
fn test_toggle_pin_nonexistent() {
    let mut storage = Storage::with_defaults("store".to_string());

    let result = storage.toggle_pin("nonexistent");
    assert!(result.is_err());
    assert!(result.unwrap_err().message().contains("not found"));
}

#[test]
fn test_toggle_pin_respects_max_pinned() {
    let mut storage = Storage::with_defaults("store".to_string());

    // Create 25 entries and pin them all
    let mut entry_ids = Vec::new();
    for i in 0..25 {
        let entry = storage
            .save_entry_at(&format!("content {}", i), i as i64)
            .unwrap();
        entry_ids.push(entry.id.clone());
        storage.toggle_pin(&entry.id).unwrap();
    }

    // Create one more entry
    let extra_entry = storage.save_entry_at("extra", 100).unwrap();

    // Trying to pin should fail
    let result = storage.toggle_pin(&extra_entry.id);
    assert!(result.is_err());
    assert!(result.unwrap_err().message().contains("Maximum pinned"));

    // But unpinning an existing one should work
    let result = storage.toggle_pin(&entry_ids[0]);
    assert!(result.is_ok());
    assert!(!result.unwrap()); // Now unpinned

    // And now pinning the extra should work
    let result = storage.toggle_pin(&extra_entry.id);
    assert!(result.is_ok());
    assert!(result.unwrap());
}

#[test]
fn test_set_pinned() {
    let mut storage = Storage::with_defaults("store".to_string());

    let entry = storage.save_entry("test content").unwrap();

    // Set to true
    storage.set_pinned(&entry.id, true).unwrap();
    let index = storage.load_index();
    assert!(index.entries[0].pinned);

    // Set to false
    storage.set_pinned(&entry.id, false).unwrap();
    let index = storage.load_index();
    assert!(!index.entries[0].pinned);

    // Setting nonexistent id is a no-op (no error)
    storage.set_pinned("nonexistent", true).unwrap();
}

#[test]
fn test_pinned_count() {
    let mut storage = Storage::with_defaults("store".to_string());

    assert_eq!(storage.pinned_count(), 0);

    // Distinct timestamps give each entry its own id
    let entry1 = storage.save_entry_at("one", 1).unwrap();
    let entry2 = storage.save_entry_at("two", 2).unwrap();
    storage.save_entry_at("three", 3).unwrap();

    storage.toggle_pin(&entry1.id).unwrap();
    assert_eq!(storage.pinned_count(), 1);

    storage.toggle_pin(&entry2.id).unwrap();
    assert_eq!(storage.pinned_count(), 2);

    storage.toggle_pin(&entry1.id).unwrap();
    assert_eq!(storage.pinned_count(), 1);
}

#[test]
fn test_pinned_survives_pruning() {
    let mut storage = Storage::new("store".to_string(), 5); // Small limit

    // Create and pin an entry
    let pinned_entry = storage.save_entry_at("keep me", 0).unwrap();
    storage.toggle_pin(&pinned_entry.id).unwrap();

    // Fill beyond limit with distinct timestamps
    for i in 0..10 {
        storage
            .save_entry_at(&format!("filler {}", i), 1 + i as i64)
            .unwrap();
    }

    // Verify pinned entry still exists
    let index = storage.load_index();
    let found = index.entries.iter().find(|e| e.id == pinned_entry.id);
    assert!(found.is_some(), "Pinned entry should survive pruning");
    assert!(found.unwrap().pinned, "Should still be pinned");

    // Verify unpinned count is at limit
    let unpinned = index.entries.iter().filter(|e| !e.pinned).count();
    assert_eq!(unpinned, 5, "Unpinned should be capped at max_entries");
}

#[test]
fn test_duplicate_preserves_pin_status() {
    let mut storage = Storage::with_defaults("store".to_string());

    // Create and pin an entry
    let original = storage.save_entry_at("duplicate me", 1).unwrap();
    storage.toggle_pin(&original.id).unwrap();

    // Add other entries
    storage.save_entry_at("other 1", 2).unwrap();
    storage.save_entry_at("other 2", 3).unwrap();

    // Re-copy same content
    let dup = storage.save_entry_at("duplicate me", 4).unwrap();

    // Should be same entry, moved to front, still pinned
    assert_eq!(dup.id, original.id, "Should return same entry ID");

    let index = storage.load_index();
    assert_eq!(index.entries[0].id, original.id, "Should be moved to front");
    assert!(index.entries[0].pinned, "Pin status should be preserved");
}

#[test]
fn test_set_pinned_respects_cap() {
    let mut storage = Storage::with_defaults("store".to_string());

    for i in 0..25 {
        let entry = storage
            .save_entry_at(&format!("pinned {}", i), i as i64)
            .unwrap();
        storage.set_pinned(&entry.id, true).unwrap();
    }
    let extra = storage.save_entry_at("extra", 100).unwrap();

    let result = storage.set_pinned(&extra.id, true);
    assert!(matches!(result, Err(StoreError::PinLimitExceeded)));

    // Re-pinning an already pinned entry is allowed at the cap
    let first = storage.load_index().entries.pop().unwrap();
    assert!(first.pinned);
    storage.set_pinned(&first.id, true).unwrap();
}
