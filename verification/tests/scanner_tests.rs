use space_scanner::entry::{DirectoryEntry, EntryType, SizeState};
use space_scanner::entry::SizeState::Calculated;
use space_scanner::paths::{decode_path, encode_path};
use space_scanner::scanner::DirectoryScanner;
use space_scanner::sizes::{directory_size, ChildSize, SizeFailure};

fn create_empty_directory_scanner() -> DirectoryScanner {
    DirectoryScanner::new(String::new(), 0)
}

fn add_entry(
    directory_scanner: &mut DirectoryScanner,
    path: String,
    size_state: SizeState,
    depth: usize,
    kind: EntryType,
) {
    directory_scanner.entries.push(DirectoryEntry {
        name: "test_name".into(),
        path,
        depth,
        kind,
        size_state,
    });
}

fn text(path: &std::path::Path) -> String {
    path.to_string_lossy().into_owned()
}

#[test]
fn navigate_to_directory() {
    let mut scanner = create_empty_directory_scanner();

    let temp = tempfile::tempdir().unwrap();
    let subdir = temp.path().join("test1");

    scanner.entries.push(DirectoryEntry::directory("test".into(), text(&subdir), 0));

    assert!(scanner.navigate_to_index(0));
    assert_eq!(scanner.get_current_dir(), &text(&subdir));
}

#[test]
fn navigate_to_nested_directory() {
    let mut scanner = create_empty_directory_scanner();

    let temp = tempfile::tempdir().unwrap();

    let subdir1 = temp.path().join("test1");
    let subdir2 = temp.path().join("test2");
    let subdir3 = temp.path().join("test3");

    scanner.entries.push(DirectoryEntry::directory("test1".into(), text(&subdir1), 0));
    scanner.entries.push(DirectoryEntry::directory("test1".into(), text(&subdir2), 0));

    assert!(scanner.navigate_to_index(1));
    assert_eq!(scanner.get_current_dir(), &text(&subdir2));

    scanner.entries.push(DirectoryEntry::directory("test2".into(), text(&subdir3), 0));

    assert!(scanner.navigate_to_index(0));
    assert_eq!(scanner.get_current_dir(), &text(&subdir3));
}

#[test]
fn navigate_to_file_returns_false() {
    let mut scanner = create_empty_directory_scanner();

    let temp = tempfile::tempdir().unwrap();

    let file_path = temp.path().join("file.txt");

    // The file holds "hello": its metadata gives 5 bytes.
    let len = Some(5);
    scanner.entries.push(DirectoryEntry::file("file".into(), text(&file_path), 0, len));

    assert!(!scanner.navigate_to_index(0));
    assert_eq!(scanner.get_current_dir(), &String::new());
}

#[test]
fn sort() {
    let mut scanner = create_empty_directory_scanner();

    let temp = tempfile::tempdir().unwrap();

    let subdir_a = temp.path().join("test1");
    let subdir_b = temp.path().join("test2");
    let subdir_c = temp.path().join("test3");


    let file1 = subdir_a.join("a1.txt");
    let file2 = subdir_a.join("a2.txt");

    let file3 = subdir_b.join("b1.txt");

    add_entry(&mut scanner, text(&subdir_a), Calculated(300), 0, EntryType::Directory);
    add_entry(&mut scanner, text(&file1), Calculated(200), 1, EntryType::File);
    add_entry(&mut scanner, text(&file2), Calculated(100), 1, EntryType::File);
    add_entry(&mut scanner, text(&subdir_b), Calculated(500), 0, EntryType::Directory);
    add_entry(&mut scanner, text(&file3), Calculated(500), 1, EntryType::File);
    add_entry(&mut scanner, text(&subdir_c), Calculated(0), 0, EntryType::Directory);
    scanner.sort_entries();
    assert_eq!(scanner.entries[0].path, text(&subdir_b));
    assert_eq!(scanner.entries[1].path, text(&file3));
    assert_eq!(scanner.entries[2].path, text(&subdir_a));
    assert_eq!(scanner.entries[3].path, text(&file1));
    assert_eq!(scanner.entries[4].path, text(&file2));
    assert_eq!(scanner.entries[5].path, text(&subdir_c))
}

fn paths(scanner: &DirectoryScanner) -> Vec<&str> {
    scanner.entries().iter().map(|e| e.path.as_str()).collect()
}

#[test]
fn sort_orders_sizes_then_pending_then_errors_stably() {
    let mut scanner = create_empty_directory_scanner();
    add_entry(&mut scanner, "e1".into(), SizeState::Error, 0, EntryType::Directory);
    add_entry(&mut scanner, "p1".into(), SizeState::Pending, 0, EntryType::Directory);
    add_entry(&mut scanner, "p1/x".into(), Calculated(7), 1, EntryType::File);
    add_entry(&mut scanner, "c5".into(), Calculated(5), 0, EntryType::File);
    add_entry(&mut scanner, "e2".into(), SizeState::Error, 0, EntryType::File);
    add_entry(&mut scanner, "c9".into(), Calculated(9), 0, EntryType::Directory);
    add_entry(&mut scanner, "p2".into(), SizeState::Pending, 0, EntryType::Directory);
    add_entry(&mut scanner, "c5b".into(), Calculated(5), 0, EntryType::File);
    scanner.sort_entries();
    assert_eq!(paths(&scanner), vec!["c9", "c5", "c5b", "p1", "p1/x", "p2", "e1", "e2"]);
    // Sorting a sorted listing changes nothing.
    scanner.sort_entries();
    assert_eq!(paths(&scanner), vec!["c9", "c5", "c5b", "p1", "p1/x", "p2", "e1", "e2"]);
    assert_eq!(scanner.len(), 8);
}

#[test]
fn sort_keeps_a_leading_nested_entry_with_its_group() {
    let mut scanner = create_empty_directory_scanner();
    add_entry(&mut scanner, "deep".into(), Calculated(1), 2, EntryType::File);
    add_entry(&mut scanner, "deeper".into(), Calculated(1), 3, EntryType::File);
    add_entry(&mut scanner, "top".into(), Calculated(4), 0, EntryType::File);
    scanner.sort_entries();
    assert_eq!(paths(&scanner), vec!["top", "deep", "deeper"]);
}

#[test]
fn sort_of_empty_listing() {
    let mut scanner = create_empty_directory_scanner();
    scanner.sort_entries();
    assert_eq!(scanner.len(), 0);
}

#[test]
fn update_size_sets_first_matching_entry() {
    let mut scanner = create_empty_directory_scanner();
    add_entry(&mut scanner, "a".into(), SizeState::Pending, 0, EntryType::Directory);
    add_entry(&mut scanner, "b".into(), SizeState::Pending, 0, EntryType::Directory);
    add_entry(&mut scanner, "b".into(), SizeState::Pending, 0, EntryType::Directory);
    scanner.update_size("b", 42);
    assert_eq!(scanner.entries[0].size_state, SizeState::Pending);
    assert_eq!(scanner.entries[1].size_state, Calculated(42));
    assert_eq!(scanner.entries[2].size_state, SizeState::Pending);
    scanner.set_error_size("a");
    assert_eq!(scanner.entries[0].size_state, SizeState::Error);
    // A path that no entry has changes nothing.
    scanner.update_size("zzz", 1);
    assert_eq!(scanner.entries[0].size_state, SizeState::Error);
    assert_eq!(scanner.entries[1].size_state, Calculated(42));
    assert_eq!(scanner.entries[2].size_state, SizeState::Pending);
}

#[test]
fn update_size_compares_paths_as_paths() {
    let mut scanner = create_empty_directory_scanner();
    add_entry(&mut scanner, "dir/sub".into(), SizeState::Pending, 0, EntryType::Directory);
    scanner.update_size("dir//sub/", 9);
    assert_eq!(scanner.entries[0].size_state, Calculated(9));
}

#[test]
fn depth_and_parent() {
    let mut scanner = DirectoryScanner::new("/a/b".into(), 1);
    assert_eq!(scanner.get_depth(), 1);
    scanner.increase_depth();
    assert_eq!(scanner.get_depth(), 2);
    scanner.decrease_depth();
    assert_eq!(scanner.get_depth(), 1);
    assert_eq!(scanner.get_parent_dir(), Some("/a".to_string()));
    scanner.change_dir("/".into());
    assert_eq!(scanner.get_parent_dir(), None);
    assert_eq!(scanner.get_current_dir(), "/");
    assert_eq!(scanner.len(), 0);
}

#[test]
fn record_found_builds_entries_and_decides_descent() {
    let mut scanner = DirectoryScanner::new("/r".into(), 1);
    scanner.begin_walk();
    let d = scanner.record_found("d".into(), "/r/d".into(), true, None);
    assert!(d.measure_size && d.descend);
    assert_eq!(scanner.walk_level, 1);
    let e = scanner.record_found("e".into(), "/r/d/e".into(), true, None);
    assert!(e.measure_size && !e.descend);
    scanner.leave_dir();
    assert_eq!(scanner.walk_level, 0);
    let f = scanner.record_found("f".into(), "/r/f".into(), false, Some(12));
    assert!(!f.measure_size && !f.descend);
    let g = scanner.record_found("g".into(), "/r/g".into(), false, None);
    assert!(!g.measure_size && !g.descend);
    scanner.leave_dir();
    assert_eq!(scanner.walk_level, 0);
    let e = scanner.entries();
    assert_eq!(e.len(), 4);
    assert_eq!(e[0].kind, EntryType::Directory);
    assert_eq!(e[0].size_state, SizeState::Pending);
    assert_eq!(e[1].depth, 1);
    assert_eq!(e[2].depth, 0);
    assert_eq!(e[2].size_state, Calculated(12));
    assert_eq!(e[3].size_state, SizeState::Error);
    assert_eq!(e[3].name, "g");
}

#[test]
fn walk_puts_each_entry_after_its_parent() {
    // A walk two levels down: a/ { b/ { c }, d }, e
    let mut scanner = DirectoryScanner::new("/r".into(), 2);
    scanner.begin_walk();
    assert!(scanner.record_found("a".into(), "/r/a".into(), true, None).descend);
    assert!(scanner.record_found("b".into(), "/r/a/b".into(), true, None).descend);
    assert!(!scanner.record_found("c".into(), "/r/a/b/c".into(), false, Some(1)).descend);
    scanner.leave_dir();
    assert!(!scanner.record_found("d".into(), "/r/a/d".into(), false, Some(2)).descend);
    scanner.leave_dir();
    assert!(!scanner.record_found("e".into(), "/r/e".into(), false, Some(3)).descend);
    let depths: Vec<usize> = scanner.entries().iter().map(|e| e.depth).collect();
    assert_eq!(depths, vec![0, 1, 2, 1, 0]);
    // A new walk starts at the top again.
    scanner.begin_walk();
    assert_eq!(scanner.len(), 0);
    assert_eq!(scanner.walk_level, 0);
}

#[test]
fn directory_size_adds_files_and_subdirectories() {
    let children = vec![
        ChildSize::File(Some(10)),
        ChildSize::Directory(32),
        ChildSize::File(None),
        ChildSize::Other,
        ChildSize::File(Some(1)),
    ];
    assert_eq!(directory_size(&children), Ok(43));
    assert_eq!(directory_size(&Vec::new()), Ok(0));
    let too_big = vec![ChildSize::Directory(u64::MAX), ChildSize::File(Some(1))];
    assert_eq!(directory_size(&too_big), Err(SizeFailure::Overflow));
    let unreadable = vec![ChildSize::File(Some(3)), ChildSize::UnreadableDirectory, ChildSize::File(Some(4))];
    assert_eq!(directory_size(&unreadable), Err(SizeFailure::Unreadable));
    // The first failure in order decides.
    let overflow_first = vec![
        ChildSize::Directory(u64::MAX),
        ChildSize::File(Some(1)),
        ChildSize::UnreadableDirectory,
    ];
    assert_eq!(directory_size(&overflow_first), Err(SizeFailure::Overflow));
}

#[test]
fn path_text_keeps_every_byte() {
    let bytes: Vec<u8> = vec![b'/', b'a', 0xff, b'/', 0xc3, 0xa9, b'.', 0x80];
    let text = encode_path(&bytes);
    assert_eq!(text.chars().count(), bytes.len());
    assert!(text.starts_with("/a"));
    assert_eq!(decode_path(&text), Some(bytes));
    assert_eq!(encode_path(b"/plain/ascii"), "/plain/ascii");
    assert_eq!(decode_path("/x\u{263a}"), None);
}

#[test]
fn path_texts_compare_and_split_as_paths() {
    let mut scanner = DirectoryScanner::new(encode_path(&[b'/', b'd', 0xff, b'/', b'e']), 0);
    assert_eq!(scanner.get_parent_dir(), Some(encode_path(&[b'/', b'd', 0xff])));
    add_entry(&mut scanner, encode_path(&[b'/', b'd', 0xfe]), SizeState::Pending, 0, EntryType::Directory);
    add_entry(&mut scanner, encode_path(&[b'/', b'd', 0xff]), SizeState::Pending, 0, EntryType::Directory);
    scanner.update_size(&encode_path(&[b'/', b'd', 0xff, b'/']), 5);
    assert_eq!(scanner.entries[0].size_state, SizeState::Pending);
    assert_eq!(scanner.entries[1].size_state, Calculated(5));
}
