use space_scanner::app::App;
use space_scanner::entry::{DirectoryEntry, EntryType, SizeState};
use space_scanner::events::{Key, KeyInput, Step, UpdateEvent};

fn entry(path: &str, depth: usize, kind: EntryType, size_state: SizeState) -> DirectoryEntry {
    DirectoryEntry { name: path.to_string(), path: path.to_string(), depth, kind, size_state }
}

fn app_with(entries: Vec<DirectoryEntry>) -> App {
    let mut app = App::new("/top/dir".to_string());
    app.directory_scanner.entries = entries;
    app
}

fn press(key: Key) -> UpdateEvent {
    UpdateEvent::Input(KeyInput { key, is_press: true })
}

#[test]
fn new_app_starts_at_depth_zero() {
    let app = App::new("/x".to_string());
    assert_eq!(app.selected, 0);
    assert_eq!(app.max_depth, 5);
    assert_eq!(app.current_depth(), 0);
    assert_eq!(app.current_dir(), "/x");
}

#[test]
fn selection_stays_on_the_listing() {
    let mut app = app_with(vec![
        entry("a", 0, EntryType::File, SizeState::Pending),
        entry("b", 0, EntryType::File, SizeState::Pending),
    ]);
    app.move_up();
    assert_eq!(app.selected, 0);
    app.move_down();
    assert_eq!(app.selected, 1);
    app.move_down();
    assert_eq!(app.selected, 1);
    app.move_up();
    assert_eq!(app.selected, 0);
    let mut empty = app_with(Vec::new());
    empty.move_down();
    assert_eq!(empty.selected, 0);
}

#[test]
fn depth_stays_between_zero_and_maximum() {
    let mut app = app_with(vec![entry("a", 0, EntryType::File, SizeState::Pending)]);
    assert!(!app.decrease_depth());
    for level in 1..=5 {
        assert!(app.increase_depth());
        assert_eq!(app.current_depth(), level);
        assert_eq!(app.directory_scanner.len(), 0);
    }
    assert!(!app.increase_depth());
    assert_eq!(app.current_depth(), 5);
    assert!(app.decrease_depth());
    assert_eq!(app.current_depth(), 4);
}

#[test]
fn finishing_a_depth_change_sorts_and_resets_a_stray_selection() {
    let mut app = app_with(vec![
        entry("small", 0, EntryType::File, SizeState::Calculated(1)),
        entry("big", 0, EntryType::File, SizeState::Calculated(9)),
    ]);
    app.selected = 3;
    app.finish_depth_change();
    assert_eq!(app.selected, 0);
    assert_eq!(app.directory_scanner.entries[0].path, "big");
    // A selection just past the end is left as it is.
    app.selected = 2;
    app.finish_depth_change();
    assert_eq!(app.selected, 2);
}

#[test]
fn change_dir_opens_only_directories() {
    let mut app = app_with(vec![
        entry("file", 0, EntryType::File, SizeState::Calculated(3)),
        entry("/top/dir/sub", 0, EntryType::Directory, SizeState::Pending),
    ]);
    assert!(!app.change_dir());
    assert_eq!(app.current_dir(), "/top/dir");
    app.move_down();
    assert!(app.change_dir());
    assert_eq!(app.current_dir(), "/top/dir/sub");
    assert_eq!(app.selected, 0);
    assert_eq!(app.directory_scanner.len(), 0);
}

#[test]
fn go_up_dir_moves_to_the_parent() {
    let mut app = app_with(vec![entry("a", 0, EntryType::File, SizeState::Pending)]);
    app.move_down();
    assert!(app.go_up_dir());
    assert_eq!(app.current_dir(), "/top");
    assert_eq!(app.selected, 0);
    assert!(app.go_up_dir());
    assert_eq!(app.current_dir(), "/");
    assert!(!app.go_up_dir());
    assert_eq!(app.current_dir(), "/");
}

#[test]
fn size_updates_sort_and_errors_do_not() {
    let mut app = app_with(vec![
        entry("a", 0, EntryType::Directory, SizeState::Pending),
        entry("b", 0, EntryType::Directory, SizeState::Pending),
    ]);
    app.update_size("b", 10);
    assert_eq!(app.directory_scanner.entries[0].path, "b");
    assert_eq!(app.directory_scanner.entries[0].size_state, SizeState::Calculated(10));
    app.set_size_error("b");
    assert_eq!(app.directory_scanner.entries[0].path, "b");
    assert_eq!(app.directory_scanner.entries[0].size_state, SizeState::Error);
}

fn line(marker: &str, entry: &DirectoryEntry) -> String {
    format!(
        "{}{} {} {:<40} {:>10}\n",
        marker,
        "  ".repeat(entry.depth),
        entry.icon(),
        entry.name,
        entry.size_text(),
    )
}

#[test]
fn entries_as_string_lays_out_columns() {
    let long_name = "n".repeat(45);
    let mut app = app_with(vec![
        entry("top", 0, EntryType::Directory, SizeState::Calculated(2048)),
        entry("top/inner", 1, EntryType::File, SizeState::Calculated(5)),
        entry(&long_name, 2, EntryType::File, SizeState::Error),
        entry("pending", 0, EntryType::Directory, SizeState::Pending),
    ]);
    app.move_down();
    let text = app.entries_as_string();
    let e = &app.directory_scanner.entries;
    let expected = format!("{}{}{}{}", line(" ", &e[0]), line(">", &e[1]), line(" ", &e[2]), line(" ", &e[3]));
    assert_eq!(text, expected);
    assert!(text.starts_with("  📁 top"));
    assert!(text.contains(">   📄 top/inner"));
    assert!(text.contains("   2.00 KB\n"));
}

#[test]
fn handle_event_dispatches_keys_and_sizes() {
    let mut app = app_with(vec![
        entry("/top/dir/a", 0, EntryType::Directory, SizeState::Pending),
        entry("/top/dir/b", 0, EntryType::Directory, SizeState::Pending),
    ]);
    let released = UpdateEvent::Input(KeyInput { key: Key::Down, is_press: false });
    assert_eq!(app.handle_event(released), Step::Continue);
    assert_eq!(app.selected, 0);
    assert_eq!(app.handle_event(press(Key::Down)), Step::Continue);
    assert_eq!(app.selected, 1);
    assert_eq!(app.handle_event(press(Key::Char('x'))), Step::Continue);
    assert_eq!(app.handle_event(press(Key::Char('q'))), Step::Quit);
    let sized = UpdateEvent::SizeCalculated { path: "/top/dir/b".to_string(), size: 7 };
    assert_eq!(app.handle_event(sized), Step::Continue);
    assert_eq!(app.directory_scanner.entries[0].path, "/top/dir/b");
    let failed = UpdateEvent::SizeError { path: "/top/dir/a".to_string() };
    assert_eq!(app.handle_event(failed), Step::Continue);
    assert_eq!(app.directory_scanner.entries[1].size_state, SizeState::Error);
    assert_eq!(app.handle_event(press(Key::Right)), Step::RescanAndFinish);
    assert_eq!(app.current_depth(), 1);
    assert_eq!(app.handle_event(press(Key::Left)), Step::RescanAndFinish);
    assert_eq!(app.handle_event(press(Key::Left)), Step::Continue);
    app.directory_scanner.entries.push(entry("/top/dir/c", 0, EntryType::Directory, SizeState::Pending));
    app.selected = 0;
    assert_eq!(app.handle_event(press(Key::Enter)), Step::Rescan);
    assert_eq!(app.current_dir(), "/top/dir/c");
    assert_eq!(app.handle_event(press(Key::Backspace)), Step::RescanTwice);
    assert_eq!(app.current_dir(), "/top/dir");
    assert_eq!(app.handle_event(press(Key::Other)), Step::Continue);
    assert_eq!(app.handle_event(press(Key::Up)), Step::Continue);
}

#[test]
fn current_dir_shows_backslashes_as_arrows() {
    assert_eq!(App::format_current_dir("C:\\Users\\me"), "C: > Users > me");
    assert_eq!(App::format_current_dir("/home/me"), "/home/me");
    assert_eq!(App::format_current_dir("a\\"), "a > ");
}

#[test]
fn screen_text_holds_directory_depth_listing_and_keys() {
    let mut app = app_with(vec![entry("x", 0, EntryType::File, SizeState::Calculated(3))]);
    assert!(app.increase_depth());
    app.directory_scanner.entries.push(entry("x", 0, EntryType::File, SizeState::Calculated(3)));
    let expected = format!(
        "Current dir: {}\nCurrent depth: {}\n{}\n\n[q] Quit  [Enter] Open  [↑↓] Navigate  [Backspace] Parent",
        "/top/dir",
        1,
        app.entries_as_string(),
    );
    assert_eq!(app.screen_text("/top/dir"), expected);
}

#[test]
fn listing_has_one_line_per_entry_and_marks_only_the_selection() {
    let mut app = app_with(vec![
        entry("a", 0, EntryType::Directory, SizeState::Calculated(4096)),
        entry("a/b", 1, EntryType::File, SizeState::Pending),
        entry("a/b/c", 2, EntryType::File, SizeState::Error),
    ]);
    app.selected = 2;
    let text = app.entries_as_string();
    let lines: Vec<&str> = text.split_terminator('\n').collect();
    assert_eq!(lines.len(), 3);
    assert_eq!(text.matches('\n').count(), 3);
    for (i, line) in lines.iter().enumerate() {
        assert_eq!(line.starts_with('>'), i == 2);
        let depth = app.directory_scanner.entries[i].depth;
        assert!(line[1..].starts_with(&" ".repeat(2 * depth + 1)));
    }
    app.selected = 3;
    assert!(!app.entries_as_string().contains('>'));
}

#[test]
fn nested_entries_stay_under_their_top_level_entry() {
    let mut app = app_with(vec![
        entry("small", 0, EntryType::Directory, SizeState::Calculated(1)),
        entry("small/x", 1, EntryType::File, SizeState::Calculated(1)),
        entry("small/x/y", 2, EntryType::File, SizeState::Calculated(1)),
        entry("big", 0, EntryType::Directory, SizeState::Calculated(100)),
        entry("big/z", 1, EntryType::File, SizeState::Calculated(100)),
    ]);
    app.finish_depth_change();
    let order: Vec<&str> = app.directory_scanner.entries.iter().map(|e| e.path.as_str()).collect();
    assert_eq!(order, vec!["big", "big/z", "small", "small/x", "small/x/y"]);
}
