use std::time::{SystemTime, UNIX_EPOCH};

use clipstack::format::{format_relative_time, format_size, relative_time_string};

#[test]
fn test_format_size() {
    assert_eq!(format_size(0), "0B");
    assert_eq!(format_size(500), "500B");
    assert_eq!(format_size(1024), "1.0KB");
    assert_eq!(format_size(1536), "1.5KB");
    assert_eq!(format_size(1048576), "1.0MB");
    assert_eq!(format_size(1572864), "1.5MB");
}

#[test]
fn test_format_relative_time() {
    let now = SystemTime::now()
        .duration_since(UNIX_EPOCH)
        .unwrap()
        .as_millis() as i64;

    // Just now
    assert_eq!(format_relative_time(now), "0s ago");

    // 30 seconds ago
    assert_eq!(format_relative_time(now - 30_000), "30s ago");

    // 5 minutes ago
    assert_eq!(format_relative_time(now - 300_000), "5m ago");

    // 2 hours ago
    assert_eq!(format_relative_time(now - 7_200_000), "2h ago");

    // 3 days ago
    assert_eq!(format_relative_time(now - 259_200_000), "3d ago");
}

#[test]
fn test_relative_time_string_exact() {
    assert_eq!(relative_time_string(1_000_000, 1_000_000), "0s ago");
    assert_eq!(relative_time_string(1_000_000, 1_000_000 - 59_000), "59s ago");
    assert_eq!(relative_time_string(1_000_000, 1_000_000 - 60_000), "1m ago");
    assert_eq!(relative_time_string(10_000_000, 10_000_000 - 3_600_000), "1h ago");
    assert_eq!(
        relative_time_string(100_000_000_000, 100_000_000_000 - 86_400_000),
        "1d ago"
    );
    // A timestamp slightly in the future still rounds to zero seconds
    assert_eq!(relative_time_string(1_000_000, 1_000_500), "0s ago");
    // A timestamp hours in the future shows as zero days
    assert_eq!(relative_time_string(1_000_000, 1_000_000 + 7_200_000), "0d ago");
    // A timestamp two days in the future shows as negative days
    assert_eq!(
        relative_time_string(1_000_000, 1_000_000 + 2 * 86_400_000),
        "-2d ago"
    );
}

#[test]
fn test_format_size_rounding() {
    // 1.25 KB = 1280 bytes: the half tenth rounds to even
    assert_eq!(format_size(1280), "1.2KB");
    // 1023 bytes is still plain bytes
    assert_eq!(format_size(1023), "1023B");
    // Just under a megabyte
    assert_eq!(format_size(1048575), "1024.0KB");
    // A large value in megabytes
    assert_eq!(format_size(10 * 1048576 + 524288), "10.5MB");
}
