use bnklaunch::action::{normalize_url, parse_action, InputAction};
use bnklaunch::app::{
    clamp_tick, dispatch_launch, handle_pointer_input, lock_path, lock_taken, navigate, next_tick,
    open_cache, record_launch, resolve_results, wake_of, AppState, Launch, Repaint, Screen, Wake,
    K_TIMER, K_WAYLAND, MIN_TICK_NANOS, TICK_NANOS,
};
use bnklaunch::cache::{decode, encode, Recents};
use bnklaunch::client::{Client, KeyRepeat, PendingAction};
use bnklaunch::config::{parse, Config};
use bnklaunch::desktop::{Catalog, DesktopEntry};
use bnklaunch::editor::INPUT_CAP;
use bnklaunch::font::RunGlyph;
use bnklaunch::keys::{key_action, KeyAction};
use bnklaunch::launch::URL_CAP;
use bnklaunch::platform::arena::{ArrayString, ArrayVec};
use bnklaunch::platform::conn::Connection;
use bnklaunch::platform::freetype::Glyph;
use bnklaunch::platform::syscall::kernel_timespec;
use bnklaunch::platform::time::Instant;
use bnklaunch::platform::wire::Fixed;
use bnklaunch::platform::xkb::{
    KEY_A, KEY_BACKSPACE, KEY_C, KEY_CAPSLOCK, KEY_ENTER, KEY_ESC, KEY_HOME, KEY_LEFTALT,
    KEY_LEFTCTRL, KEY_LEFTSHIFT, KEY_UP, KEY_V, KEY_X,
};
use bnklaunch::ui::{calculate_height, MAX_RESULTS, RESULTS_START_Y, RESULT_HEIGHT, TEXT_X};

fn entries(names: &[(&str, &str)]) -> Catalog {
    let mut out = Catalog::new();
    for (name, exec) in names {
        let _ = out.push(DesktopEntry::new(name, exec).expect("entry"));
    }
    out
}

fn recents(names: &[&str]) -> Recents {
    let mut out: Recents = ArrayVec::new();
    for n in names {
        let mut s = ArrayString::new();
        s.push_str(n).unwrap();
        out.push(s).unwrap();
    }
    out
}

fn norm(url: &str) -> String {
    let mut out: ArrayString<URL_CAP> = ArrayString::new();
    normalize_url(url, &mut out);
    out.as_str().to_string()
}

fn at_ms(ms: i64) -> Instant {
    Instant::now(kernel_timespec {
        tv_sec: 100,
        tv_nsec: ms * 1_000_000,
    })
}

/// Step the event loop: park for what the tick asks, then see whether the key is
/// due. Returns the gap between each repeat and the one before it, in
/// milliseconds.
fn repeat_gaps(repeat: &KeyRepeat, rounds: usize) -> Vec<u32> {
    let mut since_last = 0;
    let mut gaps = Vec::new();
    for _ in 0..rounds {
        let waited = (clamp_tick(repeat.due_in(0, Some(since_last))) / 1_000_000) as u32;
        since_last += waited;
        if repeat.due_in(0, Some(since_last)) == Some(0) {
            gaps.push(since_last);
            since_last = 0;
        }
    }
    gaps
}

#[test]
fn a_repeat_lands_on_its_interval_rather_than_on_the_next_tick() {
    // The default rate of 25 wants a repeat every 40ms, against a 33ms tick.
    // Waiting a fixed tick misses every deadline and takes the tick after it,
    // which comes out a steady 66.
    let repeat = KeyRepeat {
        held_key: Some(1),
        repeating: true,
        ..Default::default()
    };
    assert_eq!(1000 / repeat.rate, 40);
    let gaps = repeat_gaps(&repeat, 60);
    assert!(gaps.len() >= 5, "not enough repeats to judge: {gaps:?}");
    assert!(
        gaps.iter().all(|&g| g == 40),
        "every gap should be the interval: {gaps:?}"
    );
}

#[test]
fn a_repeat_rate_that_divides_the_tick_is_exact_too() {
    // 20 a second is 50ms, which no number of 33ms ticks lands on either.
    let repeat = KeyRepeat {
        held_key: Some(1),
        repeating: true,
        rate: 20,
        ..Default::default()
    };
    assert!(repeat_gaps(&repeat, 60).iter().all(|&g| g == 50));
}

#[test]
fn the_tick_never_runs_long_or_spins() {
    // Nothing held parks for the full tick, so the caret keeps blinking.
    let idle = KeyRepeat::default();
    assert_eq!(clamp_tick(idle.time_until_due(at_ms(0))), TICK_NANOS);

    // A deadline further out than a tick still parks only a tick.
    let waiting = KeyRepeat {
        held_key: Some(1),
        ..Default::default()
    };
    assert_eq!(clamp_tick(waiting.due_in(0, None)), TICK_NANOS);
    // One already past parks briefly rather than not at all.
    assert_eq!(clamp_tick(Some(0)), MIN_TICK_NANOS);

    // A repeat that has just gone out is not due again for an interval. Asked
    // before it goes out, the same key is due now: the floor.
    let held = KeyRepeat {
        held_key: Some(1),
        repeating: true,
        ..Default::default()
    };
    assert_eq!(clamp_tick(held.due_in(0, Some(0))), TICK_NANOS);
    assert_eq!(clamp_tick(held.due_in(0, Some(40))), MIN_TICK_NANOS);
}

#[test]
fn a_held_key_waits_out_its_delay_before_the_first_repeat() {
    let repeat = KeyRepeat {
        held_key: Some(1),
        ..Default::default()
    };
    assert_eq!(repeat.delay_ms, 400);
    // Most of the delay is longer than a tick, so it parks a tick at a time, then
    // exactly the remainder.
    assert_eq!(clamp_tick(repeat.due_in(0, None)), TICK_NANOS);
    assert_eq!(clamp_tick(repeat.due_in(390, None)), 10_000_000);
    assert_eq!(repeat.due_in(400, None), Some(0));
}

#[test]
fn the_next_tick_is_what_is_left_of_the_wait() {
    let repeat = KeyRepeat {
        held_key: Some(1),
        press_time: Some(at_ms(0)),
        ..Default::default()
    };
    assert_eq!(next_tick(&repeat, at_ms(388)), 12_000_000);
    assert_eq!(next_tick(&repeat, at_ms(500)), MIN_TICK_NANOS);
    assert_eq!(next_tick(&KeyRepeat::default(), at_ms(500)), TICK_NANOS);
}

/// The editing keys and the modifiers are layout-independent, so these read the
/// same with no keymap loaded, which is the launcher's startup state.
#[test]
fn the_editing_keys_are_read_off_the_physical_keycode() {
    assert_eq!(key_action(KEY_ENTER, false, None), KeyAction::Enter);
    assert_eq!(key_action(KEY_ESC, false, None), KeyAction::Escape);
    assert_eq!(key_action(KEY_BACKSPACE, false, None), KeyAction::Backspace);
    assert_eq!(key_action(KEY_UP, false, None), KeyAction::Up);
    assert_eq!(key_action(KEY_HOME, false, None), KeyAction::Home);
    // Whatever the layout types with them.
    assert_eq!(key_action(KEY_ENTER, true, Some('x')), KeyAction::Enter);
}

#[test]
fn a_modifier_on_its_own_is_not_an_action() {
    for key in [KEY_LEFTSHIFT, KEY_LEFTCTRL, KEY_CAPSLOCK, KEY_LEFTALT] {
        assert_eq!(key_action(key, false, None), KeyAction::Nothing);
    }
}

#[test]
fn a_letter_types_nothing_until_a_keymap_arrives() {
    // Character input is the one thing that needs the layout.
    assert_eq!(key_action(KEY_A, false, None), KeyAction::Nothing);
    assert_eq!(key_action(KEY_A, false, Some('q')), KeyAction::Char('q'));
}

#[test]
fn special_keys_route_correctly() {
    assert!(matches!(
        key_action(KEY_ENTER, false, None),
        KeyAction::Enter
    ));
    assert!(matches!(
        key_action(KEY_BACKSPACE, false, None),
        KeyAction::Backspace
    ));
    assert!(matches!(key_action(KEY_UP, false, None), KeyAction::Up));
    assert!(matches!(key_action(KEY_HOME, false, None), KeyAction::Home));
}

#[test]
fn modifier_keys_return_none() {
    assert!(matches!(
        key_action(KEY_LEFTSHIFT, false, None),
        KeyAction::Nothing
    ));
    assert!(matches!(
        key_action(KEY_LEFTCTRL, false, None),
        KeyAction::Nothing
    ));
    assert!(matches!(
        key_action(KEY_CAPSLOCK, false, None),
        KeyAction::Nothing
    ));
}

#[test]
fn character_keys_without_keymap_are_none() {
    assert!(matches!(
        key_action(KEY_A, false, None),
        KeyAction::Nothing
    ));
}

#[test]
fn ctrl_shortcuts_go_by_position_whatever_the_layout_types() {
    for typed in [None, Some('ж')] {
        assert_eq!(key_action(KEY_A, true, typed), KeyAction::SelectAll);
        assert_eq!(key_action(KEY_C, true, typed), KeyAction::Copy);
        assert_eq!(key_action(KEY_X, true, typed), KeyAction::Cut);
        assert_eq!(key_action(KEY_V, true, typed), KeyAction::Paste);
        assert_eq!(key_action(KEY_A + 1, true, typed), KeyAction::Nothing);
    }
}

#[test]
fn parse_action_reads_the_search_prefix_only_when_enabled() {
    assert!(matches!(
        parse_action("s: cats ", true),
        InputAction::Search("cats")
    ));
    // Without a configured search URL the prefix is ordinary text.
    assert!(matches!(
        parse_action("s: cats ", false),
        InputAction::AppSearch("s: cats ")
    ));
}

#[test]
fn parse_action_reads_the_url_prefix_regardless_of_search() {
    assert!(matches!(
        parse_action("u: example.com ", false),
        InputAction::OpenUrl("example.com")
    ));
}

#[test]
fn parse_action_leaves_plain_input_untrimmed() {
    // The app query is passed through as typed: a trailing space is part of what
    // the user is searching for.
    assert!(matches!(
        parse_action(" fire ", true),
        InputAction::AppSearch(" fire ")
    ));
}

#[test]
fn normalize_url_adds_a_scheme_only_when_missing() {
    assert_eq!(norm("example.com"), "https://example.com");
    assert_eq!(norm("http://example.com"), "http://example.com");
    assert_eq!(norm("file:///tmp/x"), "file:///tmp/x");
}

#[test]
fn resolve_results_caps_rows_at_what_the_list_shows() {
    // More matches than the UI paints: the row count stops at MAX_RESULTS so
    // selection cannot land on a row the user never sees.
    let names: Vec<(String, String)> = (0..MAX_RESULTS + 5)
        .map(|i| (format!("App{}", i), "app".to_string()))
        .collect();
    let refs: Vec<(&str, &str)> = names
        .iter()
        .map(|(n, e)| (n.as_str(), e.as_str()))
        .collect();
    let catalog = entries(&refs);
    let (results, rows) = resolve_results("app", true, catalog.as_slice(), &[]);
    assert!(results.len() > MAX_RESULTS);
    assert_eq!(rows, MAX_RESULTS);
}

#[test]
fn resolve_results_counts_one_row_for_a_non_empty_url() {
    let catalog = entries(&[("Firefox", "firefox")]);
    let (results, rows) = resolve_results("u:example.com", true, catalog.as_slice(), &[]);
    assert!(results.is_empty());
    assert_eq!(rows, 1);
    // An empty target has nothing to launch, so it offers no row.
    let (_, rows) = resolve_results("u:", true, catalog.as_slice(), &[]);
    assert_eq!(rows, 0);
}

#[test]
fn an_empty_input_lists_the_recent_launches() {
    let catalog = entries(&[("Firefox", "firefox"), ("GIMP", "gimp")]);
    let recent = recents(&["GIMP", "Gone", "Firefox"]);
    let (results, rows) = resolve_results("", true, catalog.as_slice(), recent.as_slice());
    let names: Vec<_> = results.as_slice().iter().map(|e| e.name.as_str()).collect();
    assert_eq!(names, ["GIMP", "Firefox"]);
    assert_eq!(rows, 2);
}

#[test]
fn the_lock_is_in_the_runtime_directory() {
    assert_eq!(
        lock_path(Some("/run/user/1000")).unwrap().as_str(),
        "/run/user/1000/bnklaunch.lock"
    );
    assert_eq!(lock_path(None).unwrap().as_str(), "/tmp/bnklaunch.lock");
    assert_eq!(
        lock_path(Some(&"d".repeat(1020))).err().unwrap().msg,
        "lock path too long"
    );
    assert!(lock_taken(0).is_ok());
    assert_eq!(
        lock_taken(-11).err().unwrap().msg,
        "another instance is already running"
    );
}

#[test]
fn a_cache_is_stale_unless_its_fingerprint_matches() {
    let none = open_cache(None);
    assert!(none.is_stale(0));
    assert!(none.entries.is_empty() && none.recents_offset.is_none());

    let recent = recents(&["A"]);
    let (file, offset) = encode(
        entries(&[("A", "a")]).as_slice(),
        7,
        recent.as_slice(),
    )
    .unwrap();
    let opened = open_cache(decode(file.as_slice()));
    assert_eq!(opened.entries.len(), 1);
    assert_eq!(opened.recents_offset, Some(offset));
    assert!(!opened.is_stale(7));
    assert!(opened.is_stale(8));
}

fn client() -> Client {
    Client::new(Connection::new(3))
}

#[test]
fn navigation_wraps_around_the_list() {
    let mut c = client();
    let mut selected = 0;
    let mut go = |c: &mut Client, action: PendingAction, rows: usize| {
        c.pending_action = action;
        let moved = navigate(c, &mut selected, rows);
        (moved, selected, c.pending_action)
    };
    let idle = PendingAction::Nothing;
    assert_eq!(go(&mut c, PendingAction::SelectUp, 3), (true, 2, idle));
    assert_eq!(go(&mut c, PendingAction::SelectDown, 3), (true, 0, idle));
    assert_eq!(go(&mut c, PendingAction::SelectDown, 3), (true, 1, idle));
    assert_eq!(go(&mut c, PendingAction::SelectUp, 3), (true, 0, idle));
    // No rows, nothing to move through.
    assert_eq!(go(&mut c, PendingAction::SelectDown, 0), (false, 0, idle));
    // Any other action is left for whoever handles it.
    assert_eq!(
        go(&mut c, PendingAction::Launch, 3),
        (false, 0, PendingAction::Launch)
    );
}

/// Characters that each move the pen ten pixels.
fn run_of(n: usize) -> Vec<Option<RunGlyph>> {
    (0..n)
        .map(|_| Some(RunGlyph::Own(Glyph::blank(640))))
        .collect()
}

fn fixed(px: u32) -> Fixed {
    Fixed {
        raw: 256 * px as i32,
    }
}

#[test]
fn a_click_on_a_row_launches_it() {
    let mut c = client();
    let mut selected = 0;
    c.input_changed = true;
    c.pointer.clicked = true;
    c.pointer.x = fixed(400);
    c.pointer.y = fixed(RESULTS_START_Y + RESULT_HEIGHT + 1);
    handle_pointer_input(&mut c, &mut selected, &[], 3);
    assert_eq!(selected, 1);
    assert!(!c.running && !c.input_changed && !c.pointer.clicked);
    assert_eq!(c.pending_action, PendingAction::Launch);
}

#[test]
fn a_click_in_the_input_places_the_caret_and_a_drag_selects() {
    let mut c = client();
    for ch in "hello".chars() {
        assert!(c.editor.insert(ch));
    }
    let mut selected = 0;
    c.pointer.clicked = true;
    c.pointer.click_count = 1;
    c.pointer.x = fixed(TEXT_X + 21);
    c.pointer.y = fixed(10);
    handle_pointer_input(&mut c, &mut selected, &run_of(5), 3);
    assert_eq!(c.editor.cursor(), 2);
    assert!(c.input_changed && c.running && !c.pointer.clicked);

    c.pointer.dragging = true;
    c.pointer.x = fixed(TEXT_X + 44);
    handle_pointer_input(&mut c, &mut selected, &run_of(5), 3);
    assert_eq!(c.editor.selection(), Some((2, 4)));
    assert!(!c.pointer.dragging);

    // A double click takes the word.
    c.pointer.clicked = true;
    c.pointer.click_count = 2;
    handle_pointer_input(&mut c, &mut selected, &run_of(5), 3);
    assert_eq!(c.editor.selection(), Some((0, 5)));
}

#[test]
fn a_click_anywhere_else_is_dropped() {
    let mut c = client();
    let mut selected = 0;
    c.pointer.clicked = true;
    c.pointer.dragging = true;
    c.pointer.x = fixed(2);
    c.pointer.y = fixed(10);
    handle_pointer_input(&mut c, &mut selected, &[], 3);
    assert!(!c.pointer.clicked && !c.pointer.dragging);
    assert!(c.running && !c.input_changed);
    assert_eq!(selected, 0);
}

fn query(s: &str) -> ArrayString<INPUT_CAP> {
    let mut q = ArrayString::new();
    q.push_str(s).unwrap();
    q
}

#[test]
fn a_new_query_resets_the_selection_and_a_caret_move_keeps_it() {
    let catalog = entries(&[("Git", "git"), ("Gitk", "gitk"), ("Vim", "vim")]);
    let mut c = client();
    let mut screen = Screen::open(query(""), false, catalog.as_slice(), &[], at_ms(0));
    assert_eq!(screen.total_rows, 0);
    let mut selected = 0;

    for ch in "gi".chars() {
        assert!(c.editor.insert(ch));
    }
    c.input_changed = true;
    let r = screen.settle(&mut c, &mut selected, false, false, catalog.as_slice(), &[], at_ms(5));
    assert_eq!(r, Repaint::Resized(calculate_height(2)));
    assert_eq!(screen.total_rows, 2);
    assert!(!c.input_changed);

    // The same text again: the row stays.
    selected = 1;
    c.input_changed = true;
    screen.settle(&mut c, &mut selected, false, false, catalog.as_slice(), &[], at_ms(6));
    assert_eq!(selected, 1);

    // One more character is another list.
    assert!(c.editor.insert('t'));
    c.input_changed = true;
    screen.settle(&mut c, &mut selected, false, false, catalog.as_slice(), &[], at_ms(7));
    assert_eq!(selected, 0);
    assert_eq!(screen.last_query.as_str(), "git");
}

#[test]
fn the_caret_blinks_and_a_moved_selection_leaves_its_phase() {
    let catalog = entries(&[("Git", "git")]);
    let mut c = client();
    let mut selected = 0;
    let mut screen = Screen::open(query("g"), false, catalog.as_slice(), &[], at_ms(0));
    let mut step = |screen: &mut Screen<'_>, moved: bool, ms: i64| {
        let r = screen.settle(&mut c, &mut selected, moved, false, &[], &[], at_ms(ms));
        (r, screen.cursor_visible)
    };
    assert_eq!(step(&mut screen, false, 529), (Repaint::Nothing, true));
    assert_eq!(step(&mut screen, true, 529), (Repaint::Frame, true));
    assert_eq!(step(&mut screen, false, 530), (Repaint::Frame, false));
    assert_eq!(step(&mut screen, false, 531), (Repaint::Nothing, false));
    assert_eq!(step(&mut screen, false, 1060), (Repaint::Frame, true));
    assert_eq!(screen.results.len(), 1);
}

fn state(list: &[(&str, &str)]) -> AppState {
    AppState::new(entries(list), recents(&[]))
}

fn argv<const N: usize>(c: &bnklaunch::launch::Command<N>) -> Vec<&str> {
    c.as_slice().iter().map(|a| a.as_str()).collect()
}

#[test]
fn a_launch_starts_the_selected_row() {
    let mut s = state(&[("Git", "git %u"), ("Gitk", "gitk --all"), ("Gitx", "")]);
    let cfg = Config::default();
    match dispatch_launch("git", &s, &cfg, false) {
        Launch::App(c, e) => {
            assert_eq!(argv(&c), ["git\0"]);
            assert_eq!(e.name.as_str(), "Git");
        }
        _ => panic!("an application"),
    }
    s.selected = 1;
    match dispatch_launch("git", &s, &cfg, false) {
        Launch::App(c, _) => assert_eq!(argv(&c), ["gitk\0", "--all\0"]),
        _ => panic!("an application"),
    }
    // A row that cannot run, and one that is not there.
    s.selected = 2;
    assert!(matches!(
        dispatch_launch("git", &s, &cfg, false),
        Launch::Nothing
    ));
    s.selected = 9;
    assert!(matches!(
        dispatch_launch("git", &s, &cfg, false),
        Launch::Nothing
    ));
}

#[test]
fn two_apps_of_one_name_launch_from_their_own_rows() {
    let mut s = state(&[
        ("Term", "alpha"),
        ("Term", "beta"),
        ("term", "gamma"),
        ("Terminal", "delta"),
    ]);
    let cfg = Config::default();
    let rows: Vec<String> = {
        let (results, total) = resolve_results("term", false, s.entries.as_slice(), &[]);
        assert_eq!(total, 4);
        results
            .as_slice()
            .iter()
            .map(|e| e.exec.as_str().to_string())
            .collect()
    };
    // Of those that rank the same, the first in the catalog is listed first.
    assert_eq!(rows, ["alpha", "beta", "gamma", "delta"]);
    for (i, row) in rows.iter().enumerate() {
        s.selected = i;
        match dispatch_launch("term", &s, &cfg, false) {
            Launch::App(c, e) => {
                assert_eq!(argv(&c), [format!("{row}\0")]);
                assert_eq!(e.exec.as_str(), row);
            }
            _ => panic!("an application"),
        }
    }
}

#[test]
fn prefix_actions_open_a_url() {
    let s = state(&[]);
    let cfg = parse("search_url https://x/?q=%s\n");
    match dispatch_launch("s: a b", &s, &cfg, true) {
        Launch::Search(Ok(c)) => assert_eq!(argv(&c), ["xdg-open\0", "https://x/?q=a%20b\0"]),
        _ => panic!("a search"),
    }
    match dispatch_launch("u:example.com", &s, &cfg, true) {
        Launch::Url(Ok(c)) => assert_eq!(argv(&c), ["xdg-open\0", "https://example.com\0"]),
        _ => panic!("a URL"),
    }
    match dispatch_launch("u:ftp://example.com", &s, &cfg, true) {
        Launch::Url(Err(e)) => assert_eq!(e.msg, "refusing to open URL with no allowed scheme"),
        _ => panic!("a refusal"),
    }
    for empty in ["s:", "u:  "] {
        assert!(matches!(
            dispatch_launch(empty, &s, &cfg, true),
            Launch::Nothing
        ));
    }
}

#[test]
fn a_launch_is_recorded_where_there_is_a_cache() {
    let mut r = recents(&["A", "B"]);
    assert!(record_launch(&mut r, None, "C").is_none());
    assert_eq!(r, recents(&["A", "B"]));
    let w = record_launch(&mut r, Some(40), "B").expect("a write");
    assert_eq!(r, recents(&["B", "A"]));
    assert_eq!(w.offset, 40);
    assert_eq!(w.block.as_slice(), &[2, 0, 1, 0, b'B', 1, 0, b'A']);
    assert_eq!(w.end, 48);
}

#[test]
fn completions_are_told_apart_by_their_tags() {
    assert_eq!(wake_of(K_WAYLAND), Wake::Wayland);
    assert_eq!(wake_of(K_TIMER), Wake::Timer);
    assert_eq!(wake_of(0), Wake::Other);
}
