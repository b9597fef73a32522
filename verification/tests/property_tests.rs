use clipstack::errors::StoreError;
use clipstack::store::{capture_decision, Storage};

#[test]
fn test_fingerprint_matches_known_digest() {
    // The SHA-256 of "abc" is a published test vector; the stored hash
    // must be that digest behind the scheme tag.
    let mut storage = Storage::with_defaults("store".to_string());
    let entry = storage.save_entry("abc").unwrap();
    assert_eq!(
        entry.hash,
        "sha256:ba7816bf8f01cfea414140de5dae2223b00361a396177a9cb410ff61f20015ad"
    );
}

#[test]
fn test_save_entry_uses_wall_clock() {
    let mut storage = Storage::with_defaults("store".to_string());
    let entry = storage.save_entry("clocked").unwrap();
    // The creation time lies after the year 2020 and the id renders it
    assert!(entry.timestamp > 1_577_836_800_000);
    assert_eq!(entry.id, entry.timestamp.to_string());
}

#[test]
fn test_save_entry_at_negative_timestamp() {
    let mut storage = Storage::with_defaults("store".to_string());
    let entry = storage.save_entry_at("pre-epoch", -1).unwrap();
    assert_eq!(entry.id, "-1");
    assert_eq!(entry.timestamp, -1);
}

#[test]
fn test_eviction_keeps_most_recent() {
    let mut storage = Storage::new("store".to_string(), 3);
    for i in 0..5 {
        storage
            .save_entry_at(&format!("payload {}", i), i as i64)
            .unwrap();
    }
    let index = storage.load_index();
    assert_eq!(index.entries.len(), 3);
    assert_eq!(index.entries[0].preview, "payload 4");
    assert_eq!(index.entries[1].preview, "payload 3");
    assert_eq!(index.entries[2].preview, "payload 2");
    // The evicted entries' content files are gone
    let oldest_id = 0i64.to_string();
    assert!(matches!(
        storage.load_content(&oldest_id),
        Err(StoreError::NotFound)
    ));
}

#[test]
fn test_load_content_missing_is_not_found() {
    let storage = Storage::with_defaults("store".to_string());
    assert!(matches!(
        storage.load_content("123456"),
        Err(StoreError::NotFound)
    ));
}

#[test]
fn test_clear_removes_content_files() {
    let mut storage = Storage::with_defaults("store".to_string());
    let one = storage.save_entry_at("one", 1).unwrap();
    let two = storage.save_entry_at("two", 2).unwrap();
    storage.clear();

    assert!(storage.load_index().entries.is_empty());
    assert!(matches!(storage.load_content(&one.id), Err(StoreError::NotFound)));
    assert!(matches!(storage.load_content(&two.id), Err(StoreError::NotFound)));
    assert_eq!(storage.max_entries(), 100);
}

#[test]
fn test_delete_removes_content_file() {
    let mut storage = Storage::with_defaults("store".to_string());
    let entry = storage.save_entry("going away").unwrap();
    storage.delete_entry(&entry.id);
    assert!(matches!(
        storage.load_content(&entry.id),
        Err(StoreError::NotFound)
    ));
}

#[test]
fn test_dedup_keeps_content_file() {
    let mut storage = Storage::with_defaults("store".to_string());
    let first = storage.save_entry_at("same bytes", 1).unwrap();
    let second = storage.save_entry_at("same bytes", 2).unwrap();
    assert_eq!(first.id, second.id);
    assert_eq!(storage.load_content(&first.id).unwrap(), "same bytes");
}

#[test]
fn test_base_dir_is_kept() {
    let storage = Storage::with_defaults("some/dir".to_string());
    assert_eq!(storage.base_dir().as_str(), "some/dir");
}

#[test]
fn test_capture_decision_skips_empty_and_repeats() {
    assert!(capture_decision("", &None).is_none());

    let fp = capture_decision("fresh text", &None).unwrap();
    assert!(fp.starts_with("sha256:"));
    assert_eq!(fp.len(), "sha256:".len() + 64);

    // The same reading again is not recorded
    assert!(capture_decision("fresh text", &Some(fp.clone())).is_none());
    // A different reading is
    assert!(capture_decision("other text", &Some(fp)).is_some());
}

#[test]
fn test_error_messages() {
    assert!(StoreError::NotFound.message().contains("not found"));
    assert!(StoreError::PinLimitExceeded.message().contains("Maximum pinned"));
}
