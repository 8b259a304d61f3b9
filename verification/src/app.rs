use vstd::prelude::*;
use crate::entry::{DirectoryEntry, size_text_of, icon_of, two_decimals};
use crate::decimal::{decimal, digit_char, push_decimal};
use crate::events::{Key, KeyInput, UpdateEvent, Step};
use crate::listing::{is_size_sorting, lemma_sorting_keeps_entries};
use crate::paths::parent_path;
use crate::scanner::{
    DirectoryScanner, set_state_at_path, is_first_match, with_state, lemma_state_set_at_first_match,
};
use crate::entry::{EntryType, SizeState};

verus! {

/// The browser: a listing and the line selected in it.
pub struct App {
    /// The position of the selected line.
    pub selected: usize,
    pub directory_scanner: DirectoryScanner,
    /// How many levels down the listing may reach at most.
    pub max_depth: usize,
}

/// `b` is `a` with the selection moved one line down, where there is a line
/// below.
pub open spec fn moved_down(a: App, b: App) -> bool {
    &&& b.selected == (if a.selected + 1 < a.directory_scanner.entries@.len() {
        a.selected + 1
    } else {
        a.selected as int
    })
    &&& b.directory_scanner == a.directory_scanner
    &&& b.max_depth == a.max_depth
}

/// `b` is `a` with the selection moved one line up, where there is a line
/// above.
pub open spec fn moved_up(a: App, b: App) -> bool {
    &&& b.selected == (if a.selected > 0 { a.selected - 1 } else { a.selected as int })
    &&& b.directory_scanner == a.directory_scanner
    &&& b.max_depth == a.max_depth
}

/// `b` is `a` with the listing set to reach `depth` levels down and emptied
/// for a new walk.
pub open spec fn depth_set(a: App, b: App, depth: int) -> bool {
    &&& b.directory_scanner.depth == depth
    &&& b.directory_scanner.current_dir == a.directory_scanner.current_dir
    &&& b.directory_scanner.entries@.len() == 0
    &&& b.directory_scanner.walk_level == 0
    &&& b.selected == a.selected
    &&& b.max_depth == a.max_depth
}

/// `b` is `a` after a request to reach one level further down: granted, with
/// `rescan`, below the maximum depth; refused, leaving `a` as it is, at it.
pub open spec fn depth_raised(a: App, b: App, rescan: bool) -> bool {
    &&& rescan == (a.directory_scanner.depth < a.max_depth)
    &&& rescan ==> depth_set(a, b, a.directory_scanner.depth + 1)
    &&& !rescan ==> b == a
}

/// `b` is `a` after a request to reach one level less far down: granted, with
/// `rescan`, above depth 0; refused, leaving `a` as it is, at 0.
pub open spec fn depth_lowered(a: App, b: App, rescan: bool) -> bool {
    &&& rescan == (a.directory_scanner.depth > 0)
    &&& rescan ==> depth_set(a, b, a.directory_scanner.depth - 1)
    &&& !rescan ==> b == a
}

/// `b` is `a` with the listing sorted after a new walk, and the selection
/// reset to the first line where it lies beyond the end of the listing.
pub open spec fn depth_change_finished(a: App, b: App) -> bool {
    &&& is_size_sorting(a.directory_scanner.entries@, b.directory_scanner.entries@)
    &&& b.directory_scanner.current_dir == a.directory_scanner.current_dir
    &&& b.directory_scanner.depth == a.directory_scanner.depth
    &&& b.directory_scanner.walk_level == a.directory_scanner.walk_level
    &&& b.selected == (if a.selected > a.directory_scanner.entries@.len() {
        0
    } else {
        a.selected as int
    })
    &&& b.max_depth == a.max_depth
}

/// `b` is `a` after a request to open the selected line: granted, with
/// `rescan`, where it is a directory, which becomes the listed one, with the
/// listing emptied for a new walk and the first line selected; refused,
/// leaving `a` as it is, otherwise.
pub open spec fn opened_selected(a: App, b: App, rescan: bool) -> bool {
    let entries = a.directory_scanner.entries@;
    &&& rescan == (a.selected < entries.len() && entries[a.selected as int].kind
        == EntryType::Directory)
    &&& rescan ==> {
        &&& b.directory_scanner.current_dir == entries[a.selected as int].path
        &&& b.directory_scanner.entries@.len() == 0
        &&& b.directory_scanner.walk_level == 0
        &&& b.directory_scanner.depth == a.directory_scanner.depth
        &&& b.selected == 0
        &&& b.max_depth == a.max_depth
    }
    &&& !rescan ==> b == a
}

/// `b` is `a` after a request to go to the parent directory: granted, with
/// `rescan`, where there is a parent, which becomes the listed directory,
/// with the listing emptied for a new walk and the first line selected;
/// refused, leaving `a` as it is, otherwise.
pub open spec fn went_up(a: App, b: App, rescan: bool) -> bool {
    &&& rescan == (parent_path(a.directory_scanner.current_dir@) is Some)
    &&& rescan ==> {
        &&& parent_path(a.directory_scanner.current_dir@) == Some(
            b.directory_scanner.current_dir@,
        )
        &&& b.directory_scanner.entries@.len() == 0
        &&& b.directory_scanner.walk_level == 0
        &&& b.directory_scanner.depth == a.directory_scanner.depth
        &&& b.selected == 0
        &&& b.max_depth == a.max_depth
    }
    &&& !rescan ==> b == a
}

/// `b` is `a` with the size state of the entry at `path` set to `state`, and
/// the listing sorted again where `sort` holds.
pub open spec fn state_recorded(a: App, b: App, path: Seq<char>, state: SizeState, sort: bool) -> bool {
    let updated = set_state_at_path(a.directory_scanner.entries@, path, state);
    &&& sort ==> is_size_sorting(updated, b.directory_scanner.entries@)
    &&& !sort ==> b.directory_scanner.entries@ == updated
    &&& b.directory_scanner.current_dir == a.directory_scanner.current_dir
    &&& b.directory_scanner.depth == a.directory_scanner.depth
    &&& b.directory_scanner.walk_level == a.directory_scanner.walk_level
    &&& b.selected == a.selected
    &&& b.max_depth == a.max_depth
}

/// Moving down selects exactly the next line where there is one, and keeps
/// the selection otherwise; moving up selects exactly the line before where
/// there is one, and keeps the selection at the first line. Neither touches
/// the listing.
pub proof fn lemma_moves_select_neighbours(a: App, b: App)
    ensures
        moved_down(a, b) ==> (if a.selected + 1 < a.directory_scanner.entries@.len() {
            b.selected == a.selected + 1
        } else {
            b.selected == a.selected
        }) && b.directory_scanner == a.directory_scanner,
        moved_up(a, b) ==> (if a.selected > 0 {
            b.selected == a.selected - 1
        } else {
            b.selected == 0
        }) && b.directory_scanner == a.directory_scanner,
{
}

/// Moving down keeps a selection that lies on the listing on the listing.
pub proof fn lemma_move_down_stays_on_listing(a: App, b: App)
    requires
        moved_down(a, b),
        a.selected < a.directory_scanner.entries@.len(),
    ensures
        b.selected < b.directory_scanner.entries@.len(),
{
}

/// Moving up after a move down that moved returns to where it started.
pub proof fn lemma_move_down_then_up(a: App, b: App, c: App)
    requires
        moved_down(a, b),
        moved_up(b, c),
        a.selected + 1 < a.directory_scanner.entries@.len(),
    ensures
        c == a,
{
}

/// Moving down after a move up that moved returns to where it started, on a
/// selection that lies on the listing.
pub proof fn lemma_move_up_then_down(a: App, b: App, c: App)
    requires
        moved_up(a, b),
        moved_down(b, c),
        0 < a.selected < a.directory_scanner.entries@.len(),
    ensures
        c == a,
{
}

/// Changing the depth keeps it between 0 and the maximum.
pub proof fn lemma_depth_stays_in_bounds(a: App, b: App, rescan: bool)
    requires
        depth_raised(a, b, rescan) || depth_lowered(a, b, rescan),
        a.directory_scanner.depth <= a.max_depth,
    ensures
        b.directory_scanner.depth <= b.max_depth,
{
}

/// Lowering the depth after raising it returns to the depth and the directory
/// that were listed.
pub proof fn lemma_raise_then_lower(a: App, b: App, c: App, raised: bool, lowered: bool)
    requires
        depth_raised(a, b, raised),
        raised,
        depth_lowered(b, c, lowered),
    ensures
        lowered,
        c.directory_scanner.depth == a.directory_scanner.depth,
        c.directory_scanner.current_dir == a.directory_scanner.current_dir,
        c.selected == a.selected,
{
}

/// A size that arrives for a path that the listing holds shows in the
/// listing afterwards, on the entry that had that path, however the listing
/// was sorted again.
pub proof fn lemma_recorded_size_is_listed(a: App, b: App, path: Seq<char>, size: u64, i: int)
    requires
        state_recorded(a, b, path, SizeState::Calculated(size), true),
        is_first_match(a.directory_scanner.entries@, path, i),
    ensures
        b.directory_scanner.entries@.contains(
            with_state(a.directory_scanner.entries@[i], SizeState::Calculated(size)),
        ),
{
    let s = a.directory_scanner.entries@;
    let updated = set_state_at_path(s, path, SizeState::Calculated(size));
    let e = with_state(s[i], SizeState::Calculated(size));
    lemma_state_set_at_first_match(s, path, SizeState::Calculated(size), i);
    assert(updated[i] == e);
    lemma_sorting_keeps_entries(updated, b.directory_scanner.entries@);
    updated.to_multiset_ensures();
    b.directory_scanner.entries@.to_multiset_ensures();
    assert(updated.contains(e));
    assert(updated.to_multiset().count(e) > 0);
    assert(b.directory_scanner.entries@.to_multiset().count(e) > 0);
}

/// A path for display: each backslash becomes ` > `.
pub open spec fn display_path(s: Seq<char>) -> Seq<char>
    decreases s.len(),
{
    if s.len() == 0 {
        Seq::empty()
    } else {
        display_path(s.drop_last()) + (if s.last() == '\\' {
            seq![' ', '>', ' ']
        } else {
            seq![s.last()]
        })
    }
}

/// Every backslash is shown as ` > `, and every other character as it is,
/// wherever it stands: showing a path shows its parts one after the other.
pub proof fn lemma_display_path_chars(a: Seq<char>, c: char)
    ensures
        display_path(a.push(c)) == display_path(a) + (if c == '\\' {
            seq![' ', '>', ' ']
        } else {
            seq![c]
        }),
        display_path(seq![c]) == (if c == '\\' { seq![' ', '>', ' '] } else { seq![c] }),
{
    assert(a.push(c).drop_last() == a);
    assert(seq![c].drop_last() == Seq::<char>::empty());
    assert(display_path(Seq::<char>::empty()) + (if c == '\\' { seq![' ', '>', ' '] } else { seq![c] })
        =~= (if c == '\\' { seq![' ', '>', ' '] } else { seq![c] }));
}

/// Showing two texts one after the other shows each in turn.
pub proof fn lemma_display_path_concat(a: Seq<char>, b: Seq<char>)
    ensures
        display_path(a + b) == display_path(a) + display_path(b),
    decreases b.len(),
{
    if b.len() == 0 {
        assert(a + b == a);
        assert(display_path(a) + display_path(b) == display_path(a));
    } else {
        let c = b.last();
        let f = b.drop_last();
        lemma_display_path_concat(a, f);
        assert(a + b == (a + f).push(c));
        assert(b == f.push(c));
        lemma_display_path_chars(a + f, c);
        lemma_display_path_chars(f, c);
    }
}

/// Whether a character is a backslash.
pub open spec fn backslash() -> spec_fn(char) -> bool {
    |c: char| c == '\\'
}

/// The number of characters shown: two more for each backslash; and no
/// backslash is left.
pub proof fn lemma_display_path_len(s: Seq<char>)
    ensures
        display_path(s).len() == s.len() + 2 * s.filter(backslash()).len(),
        (forall|k: int| 0 <= k < display_path(s).len() ==> display_path(s)[k] != '\\'),
    decreases s.len(),
{
    reveal(Seq::filter);
    if s.len() > 0 {
        let f = s.drop_last();
        lemma_display_path_len(f);
        assert(s == f.push(s.last()));
        lemma_display_path_chars(f, s.last());
        assert(s.drop_last() == f);
        assert(s.filter(backslash()) == (if backslash()(s.last()) {
            f.filter(backslash()).push(s.last())
        } else {
            f.filter(backslash())
        }));
        let d = display_path(s);
        assert forall|k: int| 0 <= k < d.len() implies d[k] != '\\' by {
            if k >= display_path(f).len() {
            } else {
                assert(d[k] == display_path(f)[k]);
            }
        }
    } else {
        assert(s.filter(backslash()) =~= Seq::<char>::empty());
    }
}

/// Text without backslashes is shown as it is.
proof fn lemma_display_path_plain_suffix(a: Seq<char>, b: Seq<char>)
    requires
        forall|k: int| 0 <= k < b.len() ==> b[k] != '\\',
    ensures
        display_path(a + b) == display_path(a) + b,
    decreases b.len(),
{
    if b.len() == 0 {
        assert(a + b == a);
    } else {
        let c = b.drop_last();
        lemma_display_path_plain_suffix(a, c);
        assert((a + b).drop_last() == a + c);
        assert((a + b).last() == b.last());
        assert(display_path(a) + c + seq![b.last()] == display_path(a) + b);
    }
}

/// What the browser shows: the listed directory (as `shown_dir`, the text in
/// which it is shown), the depth, the listing and the keys.
pub open spec fn screen_text_of(a: App, shown_dir: Seq<char>) -> Seq<char> {
    "Current dir: "@ + display_path(shown_dir) + "\nCurrent depth: "@
        + decimal(a.directory_scanner.depth as nat) + "\n"@ + listing_text(
        a.directory_scanner.entries@,
        a.selected as int,
    ) + "\n\n[q] Quit  [Enter] Open  [\u{2191}\u{2193}] Navigate  [Backspace] Parent"@
}

/// The screen shows the listing exactly as `entries_as_string` gives it, with
/// the App's own selection marked, after the lines of the directory and the
/// depth, which end in a line break.
pub proof fn lemma_screen_shows_listing(a: App, shown_dir: Seq<char>)
    ensures
        exists|k: int|
            0 < k && k + listing_text(a.directory_scanner.entries@, a.selected as int).len()
                <= screen_text_of(a, shown_dir).len() && screen_text_of(a, shown_dir)[k - 1] == '\n'
                && #[trigger] screen_text_of(a, shown_dir).subrange(
                k,
                k + listing_text(a.directory_scanner.entries@, a.selected as int).len(),
            ) == listing_text(a.directory_scanner.entries@, a.selected as int),
{
    reveal_strlit("\n");
    let listing = listing_text(a.directory_scanner.entries@, a.selected as int);
    let head = "Current dir: "@ + display_path(shown_dir) + "\nCurrent depth: "@ + decimal(
        a.directory_scanner.depth as nat,
    ) + "\n"@;
    let tail = "\n\n[q] Quit  [Enter] Open  [\u{2191}\u{2193}] Navigate  [Backspace] Parent"@;
    let screen = screen_text_of(a, shown_dir);
    assert(screen == head + listing + tail);
    let k = head.len() as int;
    assert(screen.subrange(k, k + listing.len()) =~= listing);
    assert(screen[k - 1] == head[k - 1]);
}

/// `n` spaces; none where `n` is not positive.
pub open spec fn spaces(n: int) -> Seq<char> {
    Seq::new(if n > 0 { n as nat } else { 0 }, |i: int| ' ')
}

/// `s` followed by spaces up to `width` characters (`{:<width}`).
pub open spec fn pad_end(s: Seq<char>, width: int) -> Seq<char> {
    s + spaces(width - s.len())
}

/// `s` preceded by spaces up to `width` characters (`{:>width}`).
pub open spec fn pad_start(s: Seq<char>, width: int) -> Seq<char> {
    spaces(width - s.len()) + s
}

/// The line of the listing that shows `e`: a `>` where it is selected, two
/// spaces of indent per level, the icon, the name in a column of 40
/// characters and the size right-aligned in a column of 10.
pub open spec fn entry_line(e: DirectoryEntry, marked: bool) -> Seq<char> {
    (if marked { seq!['>'] } else { seq![' '] }) + spaces(2 * e.depth) + seq![' '] + icon_of(e.kind)
        + seq![' '] + pad_end(e.name@, 40) + seq![' '] + pad_start(size_text_of(e.size_state), 10)
        + seq!['\n']
}

/// The whole listing, one line per entry, the line at `selected` marked.
pub open spec fn listing_text(entries: Seq<DirectoryEntry>, selected: int) -> Seq<char>
    decreases entries.len(),
{
    if entries.len() == 0 {
        Seq::empty()
    } else {
        listing_text(entries.drop_last(), selected) + entry_line(
            entries.last(),
            entries.len() - 1 == selected,
        )
    }
}

/// No character of `s` is a line break.
pub open spec fn no_newline(s: Seq<char>) -> bool {
    forall|k: int| 0 <= k < s.len() ==> s[k] != '\n'
}

/// The number of line breaks in `s`.
pub open spec fn newline_count(s: Seq<char>) -> nat
    decreases s.len(),
{
    if s.len() == 0 {
        0
    } else {
        newline_count(s.drop_last()) + (if s.last() == '\n' { 1nat } else { 0nat })
    }
}

proof fn lemma_newline_count_concat(a: Seq<char>, b: Seq<char>)
    ensures
        newline_count(a + b) == newline_count(a) + newline_count(b),
    decreases b.len(),
{
    if b.len() == 0 {
        assert(a + b == a);
    } else {
        lemma_newline_count_concat(a, b.drop_last());
        assert((a + b).drop_last() == a + b.drop_last());
        assert((a + b).last() == b.last());
    }
}

proof fn lemma_no_newline_count(s: Seq<char>)
    requires
        no_newline(s),
    ensures
        newline_count(s) == 0,
    decreases s.len(),
{
    if s.len() > 0 {
        lemma_no_newline_count(s.drop_last());
    }
}

proof fn lemma_no_newline_concat(a: Seq<char>, b: Seq<char>)
    requires
        no_newline(a),
        no_newline(b),
    ensures
        no_newline(a + b),
{
    assert forall|k: int| 0 <= k < (a + b).len() implies (a + b)[k] != '\n' by {
        if k < a.len() {
            assert((a + b)[k] == a[k]);
        } else {
            assert((a + b)[k] == b[k - a.len()]);
        }
    }
}

proof fn lemma_decimal_no_newline(n: nat)
    ensures
        no_newline(decimal(n)),
    decreases n,
{
    if n >= 10 {
        lemma_decimal_no_newline(n / 10);
        assert(digit_char(n % 10) != '\n');
        lemma_no_newline_concat(decimal(n / 10), seq![digit_char(n % 10)]);
    } else {
        assert(digit_char(n) != '\n');
    }
}

/// The size column never holds a line break.
proof fn lemma_size_text_no_newline(state: SizeState)
    ensures
        no_newline(size_text_of(state)),
{
    reveal_strlit("[Scanning]");
    reveal_strlit("ERR");
    reveal_strlit(" GB");
    reveal_strlit(" MB");
    reveal_strlit(" KB");
    reveal_strlit(" B");
    match state {
        SizeState::Calculated(n) => {
            lemma_decimal_no_newline(n as nat);
            assert forall|v: nat, unit: nat| unit > 0 implies no_newline(#[trigger] two_decimals(v, unit)) by {
                let h = crate::decimal::div_round_even(v * 100, unit);
                lemma_decimal_no_newline(h / 100);
                assert(digit_char((h % 100) / 10) != '\n');
                assert(digit_char(h % 10) != '\n');
                lemma_no_newline_concat(decimal(h / 100), seq!['.', digit_char((h % 100) / 10), digit_char(h % 10)]);
            }
            let v = crate::entry::f64_value(n as nat);
            assert(no_newline(two_decimals(v, 0x4000_0000)));
            assert(no_newline(two_decimals(v, 0x10_0000)));
            assert(no_newline(two_decimals(v, 0x400)));
            lemma_no_newline_concat(two_decimals(v, 0x4000_0000), " GB"@);
            lemma_no_newline_concat(two_decimals(v, 0x10_0000), " MB"@);
            lemma_no_newline_concat(two_decimals(v, 0x400), " KB"@);
            lemma_no_newline_concat(decimal(n as nat), " B"@);
        },
        _ => {},
    }
}

/// The shape of one line of the listing: a `>` first exactly where it is
/// marked, then two spaces of indent per level, a line break last, and, for
/// a name without line breaks, no other line break.
pub proof fn lemma_entry_line_shape(e: DirectoryEntry, marked: bool)
    ensures
        (entry_line(e, marked)[0] == '>') == marked,
        entry_line(e, marked).subrange(1, 1 + 2 * e.depth) == spaces(2 * e.depth),
        entry_line(e, marked).last() == '\n',
        no_newline(e.name@) ==> newline_count(entry_line(e, marked)) == 1,
{
    let line = entry_line(e, marked);
    let marker = if marked { seq!['>'] } else { seq![' '] };
    let indent = spaces(2 * e.depth);
    let body = marker + indent + seq![' '] + icon_of(e.kind) + seq![' '] + pad_end(e.name@, 40)
        + seq![' '] + pad_start(size_text_of(e.size_state), 10);
    assert(line == body + seq!['\n']);
    assert(line[0] == marker[0]);
    assert(line.subrange(1, 1 + 2 * e.depth) =~= indent);
    if no_newline(e.name@) {
        reveal_strlit("\u{1F4C1}");
        reveal_strlit("\u{1F4C4}");
        lemma_size_text_no_newline(e.size_state);
        let st = size_text_of(e.size_state);
        let sp1 = spaces(40 - e.name@.len());
        let sp2 = spaces(10 - st.len());
        assert(no_newline(marker));
        assert(no_newline(indent));
        assert(no_newline(sp1));
        assert(no_newline(sp2));
        assert(no_newline(icon_of(e.kind)));
        assert(no_newline(seq![' ']));
        lemma_no_newline_concat(marker, indent);
        lemma_no_newline_concat(marker + indent, seq![' ']);
        lemma_no_newline_concat(marker + indent + seq![' '], icon_of(e.kind));
        lemma_no_newline_concat(marker + indent + seq![' '] + icon_of(e.kind), seq![' ']);
        lemma_no_newline_concat(e.name@, sp1);
        lemma_no_newline_concat(marker + indent + seq![' '] + icon_of(e.kind) + seq![' '], pad_end(e.name@, 40));
        lemma_no_newline_concat(
            marker + indent + seq![' '] + icon_of(e.kind) + seq![' '] + pad_end(e.name@, 40),
            seq![' '],
        );
        lemma_no_newline_concat(sp2, st);
        lemma_no_newline_concat(
            marker + indent + seq![' '] + icon_of(e.kind) + seq![' '] + pad_end(e.name@, 40) + seq![' '],
            pad_start(st, 10),
        );
        lemma_no_newline_count(body);
        assert(line.drop_last() == body);
    }
}

/// The listing has one line per entry, in order: line `i` shows entry `i` and
/// is marked exactly where `i` is the selected position (so one line is
/// marked where the selection lies on the listing, and none otherwise). Where
/// no name holds a line break, the listing holds exactly one line break per
/// entry.
pub proof fn lemma_listing_lines(entries: Seq<DirectoryEntry>, selected: int)
    ensures
        listing_text(entries, selected) == Seq::new(
            entries.len(),
            |i: int| entry_line(entries[i], i == selected),
        ).flatten(),
        (forall|i: int| 0 <= i < entries.len() ==> no_newline(#[trigger] entries[i].name@))
            ==> newline_count(listing_text(entries, selected)) == entries.len(),
    decreases entries.len(),
{
    let n = entries.len() as int;
    let lines = Seq::new(entries.len(), |i: int| entry_line(entries[i], i == selected));
    if n == 0 {
        assert(lines =~= Seq::<Seq<char>>::empty());
    } else {
        let front = entries.drop_last();
        lemma_listing_lines(front, selected);
        let front_lines = Seq::new(front.len(), |i: int| entry_line(front[i], i == selected));
        assert(lines == front_lines.push(entry_line(entries.last(), n - 1 == selected))) by {
            assert(lines =~= front_lines.push(entry_line(entries.last(), n - 1 == selected)));
        }
        front_lines.lemma_flatten_push(entry_line(entries.last(), n - 1 == selected));
        if forall|i: int| 0 <= i < entries.len() ==> no_newline(#[trigger] entries[i].name@) {
            assert forall|i: int| 0 <= i < front.len() implies no_newline(#[trigger] front[i].name@) by {
                assert(front[i] == entries[i]);
            }
            assert(no_newline(entries[n - 1].name@));
            lemma_entry_line_shape(entries.last(), n - 1 == selected);
            lemma_newline_count_concat(
                listing_text(front, selected),
                entry_line(entries.last(), n - 1 == selected),
            );
        }
    }
}

/// Appends `n` spaces.
fn push_spaces(out: &mut String, n: usize)
    ensures
        final(out)@ == old(out)@ + spaces(n as int),
{
    let mut i: usize = 0;
    proof { reveal_strlit(" "); }
    while i < n
        invariant
            i <= n,
            out@ == old(out)@ + spaces(i as int),
        decreases n - i,
    {
        out.append(" ");
        proof {
            reveal_strlit(" ");
            assert(spaces(i as int) + seq![' '] =~= spaces(i + 1));
        }
        i = i + 1;
    }
}

/// Appends the line of the listing that shows `e`.
#[verifier::rlimit(40)]
fn push_entry_line(out: &mut String, e: &DirectoryEntry, marked: bool)
    ensures
        final(out)@ == old(out)@ + entry_line(*e, marked),
{
    proof {
        reveal_strlit(">");
        reveal_strlit(" ");
        reveal_strlit("\n");
    }
    if marked {
        out.append(">");
    } else {
        out.append(" ");
    }
    let ghost a = out@;
    let mut level: usize = 0;
    while level < e.depth
        invariant
            level <= e.depth,
            out@ == a + spaces(2 * level),
        decreases e.depth - level,
    {
        out.append(" ");
        out.append(" ");
        proof {
            reveal_strlit(" ");
            assert(spaces(2 * level) + seq![' '] + seq![' '] =~= spaces(2 * (level + 1)));
        }
        level = level + 1;
    }
    out.append(" ");
    out.append(e.icon());
    out.append(" ");
    out.append(e.name.as_str());
    let name_len = e.name.as_str().unicode_len();
    if name_len < 40 {
        push_spaces(out, 40 - name_len);
    } else {
        push_spaces(out, 0);
    }
    out.append(" ");
    let size = e.size_text();
    let size_len = size.as_str().unicode_len();
    if size_len < 10 {
        push_spaces(out, 10 - size_len);
    } else {
        push_spaces(out, 0);
    }
    out.append(size.as_str());
    out.append("\n");
    proof {
        assert(name_len >= 40 ==> spaces(0) =~= spaces(40 - e.name@.len()));
        assert(size_len >= 10 ==> spaces(0) =~= spaces(10 - size@.len()));
        assert(final(out)@ =~= old(out)@ + entry_line(*e, marked));
    }
}

impl App {
    /// The listing as text, one line per entry, with the selected line marked.
    pub fn entries_as_string(&self) -> (r: String)
        ensures
            r@ == listing_text(self.directory_scanner.entries@, self.selected as int),
    {
        let mut output = String::new();
        let entries = &self.directory_scanner.entries;
        let mut index: usize = 0;
        while index < entries.len()
            invariant
                index <= entries@.len(),
                output@ == listing_text(entries@.take(index as int), self.selected as int),
            decreases entries@.len() - index,
        {
            let ghost before = output@;
            push_entry_line(&mut output, &entries[index], index == self.selected);
            proof {
                assert(entries@.take(index + 1).drop_last() == entries@.take(index as int));
                assert(entries@.take(index + 1).last() == entries@[index as int]);
            }
            index = index + 1;
        }
        proof {
            assert(entries@.take(entries@.len() as int) == entries@);
        }
        output
    }
    /// A browser of `current_dir`: the listing reaches the directory's own
    /// entries only, may reach 5 levels down, and is empty until the first
    /// walk fills it; the first line is selected.
    pub fn new(current_dir: String) -> (r: Self)
        ensures
            r.selected == 0,
            r.max_depth == 5,
            r.directory_scanner.current_dir == current_dir,
            r.directory_scanner.depth == 0,
            r.directory_scanner.entries@.len() == 0,
            r.directory_scanner.walk_level == 0,
    {
        App { selected: 0, directory_scanner: DirectoryScanner::new(current_dir, 0), max_depth: 5 }
    }

    /// Moves the selection one line down, if there is a line below.
    pub fn move_down(&mut self)
        ensures
            moved_down(*old(self), *final(self)),
    {
        let len = self.directory_scanner.len();
        if len > 0 && self.selected < len - 1 {
            self.selected = self.selected + 1;
        }
    }

    /// Moves the selection one line up, if there is a line above.
    pub fn move_up(&mut self)
        ensures
            moved_up(*old(self), *final(self)),
    {
        if self.selected > 0 {
            self.selected = self.selected - 1;
        }
    }

    /// Lets the listing reach one level further down, up to the maximum.
    /// Returns whether it did; the listing is then empty, to be refilled by a
    /// walk and finished by `finish_depth_change`.
    pub fn increase_depth(&mut self) -> (rescan: bool)
        ensures
            depth_raised(*old(self), *final(self), rescan),
    {
        if self.directory_scanner.get_depth() < self.max_depth {
            self.directory_scanner.increase_depth();
            self.directory_scanner.begin_walk();
            true
        } else {
            false
        }
    }

    /// Lets the listing reach one level less far down, down to 0. Returns
    /// whether it did; the listing is then empty, to be refilled by a walk and
    /// finished by `finish_depth_change`.
    pub fn decrease_depth(&mut self) -> (rescan: bool)
        ensures
            depth_lowered(*old(self), *final(self), rescan),
    {
        if self.directory_scanner.get_depth() > 0 {
            self.directory_scanner.decrease_depth();
            self.directory_scanner.begin_walk();
            true
        } else {
            false
        }
    }

    /// After the walk that follows a change of depth: sorts the listing, and
    /// selects the first line where the selection lies beyond the end.
    pub fn finish_depth_change(&mut self)
        ensures
            depth_change_finished(*old(self), *final(self)),
    {
        let ghost before = self.directory_scanner.entries@;
        self.directory_scanner.sort_entries();
        proof {
            lemma_sorting_keeps_entries(before, self.directory_scanner.entries@);
        }
        if self.selected > self.directory_scanner.len() {
            self.selected = 0;
        }
    }

    /// Opens the selected line if it is a directory. Returns whether it did;
    /// the listing is then empty, to be refilled by a walk.
    pub fn change_dir(&mut self) -> (rescan: bool)
        ensures
            opened_selected(*old(self), *final(self), rescan),
    {
        if self.directory_scanner.navigate_to_index(self.selected) {
            self.selected = 0;
            true
        } else {
            false
        }
    }

    /// Goes to the parent of the listed directory, if it has one. Returns
    /// whether it did; the listing is then empty, to be refilled by walking
    /// the parent twice over (the change of directory walks it once, and the
    /// listing is then refreshed by a second walk), as `handle_event` asks
    /// with `Step::RescanTwice`.
    pub fn go_up_dir(&mut self) -> (rescan: bool)
        ensures
            went_up(*old(self), *final(self), rescan),
    {
        match self.directory_scanner.get_parent_dir() {
            Some(parent) => {
                self.directory_scanner.change_dir(parent);
                self.selected = 0;
                true
            },
            None => false,
        }
    }

    /// Records the computed size of the entry at `path` and sorts the listing
    /// again.
    pub fn update_size(&mut self, path: &str, size: u64)
        ensures
            state_recorded(*old(self), *final(self), path@, SizeState::Calculated(size), true),
    {
        self.directory_scanner.update_size(path, size);
        self.directory_scanner.sort_entries();
    }

    /// Records that the size of the entry at `path` could not be computed.
    pub fn set_size_error(&mut self, path: &str)
        ensures
            state_recorded(*old(self), *final(self), path@, SizeState::Error, false),
    {
        self.directory_scanner.set_error_size(path);
    }

    /// Reacts to one event: a pressed key moves the selection, opens the
    /// selected directory (Enter), goes to the parent (Backspace, walked twice
    /// over), changes
    /// the depth (Right, Left) or quits (`q`); other keys, and keys repeated
    /// or released, change nothing. A computed size is recorded and the
    /// listing sorted again; a failed one is recorded. The result tells what
    /// the caller has to do next.
    pub fn handle_event(&mut self, event: UpdateEvent) -> (step: Step)
        ensures
            match event {
                UpdateEvent::Input(input) => if !input.is_press {
                    step == Step::Continue && *final(self) == *old(self)
                } else {
                    match input.key {
                        Key::Enter => (step == Step::Rescan || step == Step::Continue)
                            && opened_selected(*old(self), *final(self), step == Step::Rescan),
                        Key::Backspace => (step == Step::RescanTwice || step == Step::Continue)
                            && went_up(*old(self), *final(self), step == Step::RescanTwice),
                        Key::Right => (step == Step::RescanAndFinish || step == Step::Continue)
                            && depth_raised(*old(self), *final(self), step == Step::RescanAndFinish),
                        Key::Left => (step == Step::RescanAndFinish || step == Step::Continue)
                            && depth_lowered(*old(self), *final(self), step == Step::RescanAndFinish),
                        Key::Up => step == Step::Continue && moved_up(*old(self), *final(self)),
                        Key::Down => step == Step::Continue && moved_down(*old(self), *final(self)),
                        Key::Char(c) => step == (if c == 'q' { Step::Quit } else { Step::Continue })
                            && *final(self) == *old(self),
                        Key::Other => step == Step::Continue && *final(self) == *old(self),
                    }
                },
                UpdateEvent::SizeCalculated { path, size } => step == Step::Continue
                    && state_recorded(*old(self), *final(self), path@, SizeState::Calculated(size), true),
                UpdateEvent::SizeError { path } => step == Step::Continue
                    && state_recorded(*old(self), *final(self), path@, SizeState::Error, false),
            },
    {
        match event {
            UpdateEvent::Input(input) => {
                if !input.is_press {
                    return Step::Continue;
                }
                match input.key {
                    Key::Enter => if self.change_dir() { Step::Rescan } else { Step::Continue },
                    Key::Backspace => if self.go_up_dir() {
                        Step::RescanTwice
                    } else {
                        Step::Continue
                    },
                    Key::Right => if self.increase_depth() {
                        Step::RescanAndFinish
                    } else {
                        Step::Continue
                    },
                    Key::Left => if self.decrease_depth() {
                        Step::RescanAndFinish
                    } else {
                        Step::Continue
                    },
                    Key::Up => {
                        self.move_up();
                        Step::Continue
                    },
                    Key::Down => {
                        self.move_down();
                        Step::Continue
                    },
                    Key::Char(c) => if c == 'q' { Step::Quit } else { Step::Continue },
                    Key::Other => Step::Continue,
                }
            },
            UpdateEvent::SizeCalculated { path, size } => {
                self.update_size(path.as_str(), size);
                Step::Continue
            },
            UpdateEvent::SizeError { path } => {
                self.set_size_error(path.as_str());
                Step::Continue
            },
        }
    }

    /// The listed directory for display, each backslash shown as ` > `.
    /// `shown_dir` is the directory as text for a reader: its path, with
    /// whatever is not UTF-8 replaced, as `to_string_lossy` gives it.
    pub fn format_current_dir(shown_dir: &str) -> (r: String)
        ensures
            r@ == display_path(shown_dir@),
    {
        let dir = shown_dir;
        let ghost s = dir@;
        let n = dir.unicode_len();
        let mut out = String::new();
        let mut start: usize = 0;
        let mut i: usize = 0;
        while i < n
            invariant
                n == s.len(),
                s == dir@,
                start <= i <= n,
                out@ == display_path(s.take(start as int)),
                forall|k: int| start <= k < i ==> s[k] != '\\',
            decreases n - i,
        {
            if dir.get_char(i) == '\\' {
                let ghost before = out@;
                out.append(dir.substring_char(start, i));
                proof { reveal_strlit(" > "); }
                out.append(" > ");
                proof {
                    let seg = s.subrange(start as int, i as int);
                    lemma_display_path_plain_suffix(s.take(start as int), seg);
                    assert(s.take(start as int) + seg == s.take(i as int));
                    assert(s.take(i + 1).drop_last() == s.take(i as int));
                    assert(s.take(i + 1).last() == '\\');
                    assert(out@ == display_path(s.take(i + 1)));
                }
                start = i + 1;
            }
            i = i + 1;
        }
        out.append(dir.substring_char(start, n));
        proof {
            let seg = s.subrange(start as int, n as int);
            lemma_display_path_plain_suffix(s.take(start as int), seg);
            assert(s.take(start as int) + seg == s);
        }
        out
    }

    /// The text of the whole screen (see `screen_text_of`).
    /// `shown_dir` is the listed directory as text for a reader (see
    /// `format_current_dir`).
    pub fn screen_text(&self, shown_dir: &str) -> (r: String)
        ensures
            r@ == screen_text_of(*self, shown_dir@),
    {
        let mut out = String::from_str("Current dir: ");
        let dir = App::format_current_dir(shown_dir);
        out.append(dir.as_str());
        out.append("\nCurrent depth: ");
        push_decimal(&mut out, self.directory_scanner.depth as u128);
        out.append("\n");
        let listing = self.entries_as_string();
        out.append(listing.as_str());
        out.append("\n\n[q] Quit  [Enter] Open  [\u{2191}\u{2193}] Navigate  [Backspace] Parent");
        out
    }

    /// The listed directory.
    pub fn current_dir(&self) -> (r: &String)
        ensures
            r == self.directory_scanner.current_dir,
    {
        self.directory_scanner.get_current_dir()
    }

    /// How many levels down the listing reaches.
    pub fn current_depth(&self) -> (r: usize)
        ensures
            r == self.directory_scanner.depth,
    {
        self.directory_scanner.get_depth()
    }
}

} // verus!
