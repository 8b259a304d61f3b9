use space_scanner::entry::{DirectoryEntry, EntryType, SizeState};

fn make_entry(entry_type: EntryType, size_state: SizeState) -> DirectoryEntry {
    DirectoryEntry {
        name: "test".into(),
        path: String::new(),
        depth: 0,
        kind: entry_type,
        size_state,
    }
}

fn path_text(path: &std::path::Path) -> String {
    path.to_string_lossy().into_owned()
}

#[test]
fn directory_entry_size_text() {
    let cases = vec![
        (SizeState::Pending, EntryType::File, "[Scanning]"),
        (SizeState::Pending, EntryType::Directory, "[Scanning]"),
        (SizeState::Error, EntryType::Directory, "ERR"),
        (SizeState::Error, EntryType::File, "ERR"),
        (SizeState::Calculated(512), EntryType::File, "512 B"),
        (SizeState::Calculated(10_000), EntryType::File, "9.77 KB"),
        (SizeState::Calculated(50), EntryType::Directory, "50 B"),
        (SizeState::Calculated(100_123_456_789), EntryType::Directory, "93.25 GB"),
    ];
    for (size_state, entry_type, expected) in cases {
        assert_eq!(make_entry(entry_type, size_state).size_text(), expected);
    }
}

#[test]
fn directory_entry_icon() {
    let cases = vec![
        (SizeState::Pending, EntryType::File, "📄"),
        (SizeState::Pending, EntryType::Directory, "📁"),
        (SizeState::Error, EntryType::File, "📄"),
        (SizeState::Error, EntryType::Directory, "📁"),
        (SizeState::Calculated(512), EntryType::File, "📄"),
        (SizeState::Calculated(512), EntryType::Directory, "📁"),
    ];
    for (size_state, entry_type, expected) in cases {
        assert_eq!(make_entry(entry_type, size_state).icon(), expected);
    }
}

#[test]
fn create_file_entry_success() {
    let dir = tempfile::tempdir().unwrap();
    let path = dir.path().join("test.txt");
    // The file would hold 512 bytes: its metadata gives that length.

    let depth = 0;
    let entry = DirectoryEntry {
        name: "test".to_string(),
        path: path_text(&path),
        depth: 0,
        kind: EntryType::File,
        size_state: SizeState::Calculated(512),
    };
    let len = Some(512);
    let file_entry = DirectoryEntry::file("test".to_string(), path_text(&path), depth, len);
    assert_eq!(entry, file_entry);
}

#[test]
fn create_file_entry_failure() {
    let dir = tempfile::tempdir().unwrap();
    let fake_path = dir.path().join("test_does_not_exist.txt");
    let depth = 0;
    let entry = DirectoryEntry {
        name: "test".to_string(),
        path: path_text(&fake_path),
        depth: 0,
        kind: EntryType::File,
        size_state: SizeState::Error,
    };
    // No file there: its metadata cannot be read.
    let len = None;
    let file_entry: DirectoryEntry =
        DirectoryEntry::file("test".to_string(), path_text(&fake_path), depth, len);
    assert_eq!(entry, file_entry);
}

#[test]
fn create_directory_entry() {
    let dir = tempfile::tempdir().unwrap();
    let path = dir.path();
    let depth = 0;
    let entry = DirectoryEntry {
        name: "test".to_string(),
        path: path_text(path),
        depth: 0,
        kind: EntryType::Directory,
        size_state: SizeState::Pending,
    };
    let file_entry: DirectoryEntry =
        DirectoryEntry::directory("test".to_string(), path_text(path), depth);
    assert_eq!(entry, file_entry);
}

/// The size column as the floating-point formatting computes it.
fn size_text_with_floats(size: u64) -> String {
    let bytes = size as f64;
    const KB: f64 = 1024.0;
    const MB: f64 = KB * 1024.0;
    const GB: f64 = MB * 1024.0;
    if bytes >= GB {
        format!("{:.2} GB", bytes / GB)
    } else if bytes >= MB {
        format!("{:.2} MB", bytes / MB)
    } else if bytes >= KB {
        format!("{:.2} KB", bytes / KB)
    } else {
        format!("{} B", bytes as u64)
    }
}

fn sizes_to_compare() -> Vec<u64> {
    let mut sizes: Vec<u64> = vec![
        0, 1, 9, 10, 99, 100, 1023, 1024, 1025, 1152, 1126, 1127, 1135, 1136, 1141, 1142,
        2047, 2048, 10_000, 10_239, 10_240, 1_048_575, 1_048_576, 1_048_577, 1_073_741_823,
        1_073_741_824, 1_073_741_825, 100_123_456_789,
        (1u64 << 53) - 1, 1u64 << 53, (1u64 << 53) + 1, (1u64 << 53) + 2, (1u64 << 53) + 3,
        (1u64 << 54) + 2, (1u64 << 54) + 6, (1u64 << 63) - 1, 1u64 << 63, u64::MAX - 1024,
        u64::MAX - 1, u64::MAX,
    ];
    // Sizes whose hundredths of a unit end exactly half way.
    for unit in [1u64 << 10, 1u64 << 20, 1u64 << 30] {
        for k in 1..200u64 {
            let twice = unit * 2 * k + unit / 100;
            sizes.push(twice / 2);
            sizes.push(k * unit + unit / 8);
            sizes.push(k * unit + 3 * unit / 8);
            sizes.push(k * unit + 5 * unit / 8);
            sizes.push(k * unit + unit / 200);
        }
    }
    let mut x: u64 = 0x9E37_79B9_7F4A_7C15;
    for _ in 0..20_000 {
        x ^= x << 13;
        x ^= x >> 7;
        x ^= x << 17;
        sizes.push(x >> (x % 60));
    }
    sizes
}

#[test]
fn size_text_matches_float_formatting() {
    for size in sizes_to_compare() {
        let entry = make_entry(EntryType::File, SizeState::Calculated(size));
        assert_eq!(entry.size_text(), size_text_with_floats(size), "size {}", size);
    }
}

#[test]
fn size_text_units() {
    let text = |n: u64| make_entry(EntryType::File, SizeState::Calculated(n)).size_text();
    assert_eq!(text(0), "0 B");
    assert_eq!(text(1023), "1023 B");
    assert_eq!(text(1024), "1.00 KB");
    assert_eq!(text(1152), "1.12 KB");
    assert_eq!(text(1_048_576), "1.00 MB");
    assert_eq!(text(1_073_741_824), "1.00 GB");
    assert_eq!(text(u64::MAX), "17179869184.00 GB");
}

#[test]
fn icon_follows_is_dir() {
    let dir = make_entry(EntryType::Directory, SizeState::Pending);
    let file = make_entry(EntryType::File, SizeState::Pending);
    assert!(dir.is_dir());
    assert!(!file.is_dir());
    assert_eq!(dir.icon(), "📁");
    assert_eq!(file.icon(), "📄");
}

#[test]
fn set_size_and_error() {
    let mut entry = make_entry(EntryType::Directory, SizeState::Pending);
    entry.set_size(2048);
    assert_eq!(entry.size_state, SizeState::Calculated(2048));
    assert_eq!(entry.size_text(), "2.00 KB");
    entry.set_error_size();
    assert_eq!(entry.size_state, SizeState::Error);
    assert_eq!(entry.name, "test");
    assert_eq!(entry.kind, EntryType::Directory);
}
