use clipstack::content::ContentFile;
use clipstack::store::Storage;

fn content_file(id: &str, data: &str) -> ContentFile {
    ContentFile { id: id.to_string(), data: data.to_string() }
}

#[test]
fn test_recovery_from_orphaned_files() {
    // Two orphaned content files (no index entries) and an empty index
    let timestamp1 = 1000i64;
    let timestamp2 = 2000i64;
    let files = vec![
        content_file(&timestamp1.to_string(), "orphan content 1"),
        content_file(&timestamp2.to_string(), "orphan content 2"),
    ];

    let mut storage = Storage::from_parts("store".to_string(), 100, Vec::new(), files);
    let recovered = storage.attempt_recovery();

    // Should have recovered both orphaned files
    assert_eq!(recovered, 2);

    // Verify index now has entries
    let index = storage.load_index();
    assert_eq!(index.entries.len(), 2);

    // Entries should be sorted by timestamp descending (newest first)
    assert_eq!(index.entries[0].timestamp, timestamp2);
    assert_eq!(index.entries[1].timestamp, timestamp1);
}

#[test]
fn test_recovery_with_corrupted_index() {
    // First create valid storage and save an entry normally
    let mut storage = Storage::with_defaults("store".to_string());
    storage.save_entry("saved content").unwrap();
    let index = storage.load_index();
    let entry_id = index.entries[0].id.clone();

    // Now the index is corrupted: nothing parses, only the content file
    // survives on disk
    let mut storage = Storage::from_parts(
        "store".to_string(),
        100,
        Vec::new(),
        vec![content_file(&entry_id, "saved content")],
    );

    // Verify the reopened index is empty (graceful degradation on corruption)
    let corrupted_index = storage.load_index();
    assert!(
        corrupted_index.entries.is_empty(),
        "Corrupted index should return empty"
    );

    // Run recovery
    let recovered = storage.attempt_recovery();

    // Should have recovered the content file
    assert_eq!(recovered, 1);

    // Verify index is valid now
    let index = storage.load_index();
    assert_eq!(index.entries.len(), 1);
    assert_eq!(index.entries[0].id, entry_id);
}

#[test]
fn test_recovery_deduplicates_by_hash() {
    // Content files with same content (same hash)
    let files = vec![
        content_file("1000", "duplicate content"),
        content_file("2000", "duplicate content"),
    ];

    let mut storage = Storage::from_parts("store".to_string(), 100, Vec::new(), files);
    let recovered = storage.attempt_recovery();

    // Should keep only one (most recent = 2000)
    assert_eq!(recovered, 1);
    let index = storage.load_index();
    assert_eq!(index.entries.len(), 1);
    assert_eq!(index.entries[0].timestamp, 2000);
}

#[test]
fn test_recovery_unparsable_id_gets_zero_timestamp() {
    let files = vec![content_file("not-a-number", "some payload")];

    let mut storage = Storage::from_parts("store".to_string(), 100, Vec::new(), files);
    let recovered = storage.attempt_recovery();

    assert_eq!(recovered, 1);
    let index = storage.load_index();
    assert_eq!(index.entries[0].timestamp, 0);
    assert_eq!(index.entries[0].id, "not-a-number");
    assert!(!index.entries[0].pinned);
}

#[test]
fn test_recovery_prefers_pinned_duplicate() {
    // A parsed index record, pinned, shares its payload with a newer
    // orphan file: the pinned record survives the merge.
    let mut seeded = Storage::from_parts(
        "store".to_string(),
        100,
        Vec::new(),
        vec![content_file("1000", "shared payload")],
    );
    seeded.attempt_recovery();
    let mut entries = seeded.load_index().entries;
    seeded.set_pinned(&entries[0].id, true).unwrap();
    entries = seeded.load_index().entries;
    assert!(entries[0].pinned);

    let files = vec![
        content_file("1000", "shared payload"),
        content_file("2000", "shared payload"),
    ];
    let mut storage = Storage::from_parts("store".to_string(), 100, entries, files);
    let recovered = storage.attempt_recovery();

    assert_eq!(recovered, 1);
    let index = storage.load_index();
    assert!(index.entries[0].pinned, "the pinned duplicate survives");
    assert_eq!(index.entries[0].timestamp, 1000);
}

#[test]
fn test_recovery_keeps_parsed_entries_and_adds_orphans() {
    // One record parsed from the index, one orphan file beside it
    let mut seeded = Storage::with_defaults("store".to_string());
    seeded.save_entry_at("kept content", 5000).unwrap();
    let entries = seeded.load_index().entries;
    let kept_id = entries[0].id.clone();

    let files = vec![
        content_file(&kept_id, "kept content"),
        content_file("9000", "orphan content"),
    ];
    let mut storage = Storage::from_parts("store".to_string(), 100, entries, files);
    let recovered = storage.attempt_recovery();

    assert_eq!(recovered, 2);
    let index = storage.load_index();
    assert_eq!(index.entries[0].timestamp, 9000);
    assert_eq!(index.entries[1].id, kept_id);
}
