//! The launcher application: which rows an input shows, what the event loop does
//! with a wakeup, and what a launch starts.
//!
//! The loop itself, the ring it parks on and the processes it starts are the
//! caller's.
use vstd::prelude::*;

use crate::action;
use crate::action::{normalize_url, parse_action, ActionView, InputAction};
use crate::cache;
use crate::cache::{record, resolve, Cached, RecordWrite, Recents, RECENTS_ENC_CAP};
use crate::client::{Client, ClientView, KeyRepeat, PendingAction, Pointer};
use crate::config::Config;
use crate::desktop;
use crate::desktop::{search, Catalog, DesktopEntry, NAME_CAP, RESULT_CAP};
use crate::editor;
use crate::editor::INPUT_CAP;
use crate::font;
use crate::font::{char_offset_at_x, RunGlyph};
use crate::launch;
use crate::launch::{
    launch_search, launch_url, Command, ARG_CSTR_CAP, URL_CAP, URL_CSTR_CAP,
};
use crate::platform::arena::{ArrayString, ArrayVec};
use crate::platform::error::{Error, Result};
use crate::platform::syscall::PATH_CAP;
use crate::platform::time::Instant;
use crate::platform::text;
use crate::platform::text::str_eq;
use crate::ui;
use crate::ui::{calculate_height, input_box_contains, row_at, MAX_RESULTS, TEXT_X};

verus! {

/// Caret blink half-period in milliseconds: solid this long, then hidden this
/// long.
pub const CURSOR_BLINK_MS: u64 = 530;

/// Longest tick the loop parks for. The caret blink needs a wake this often.
pub const TICK_NANOS: i64 = 33_000_000;

/// Shortest tick the loop arms, so a deadline already past cannot spin it.
pub const MIN_TICK_NANOS: i64 = 1_000_000;

/// Submission-queue depth for the event-loop ring. Two operations are in flight
/// at a time, the socket poll and the tick, and each is re-armed as it fires.
pub const RING_ENTRIES: u32 = 32;

/// The user_data of the socket poll's submissions.
pub const K_WAYLAND: u64 = 1;

/// The user_data of the tick's submissions.
pub const K_TIMER: u64 = 2;

/// What woke the loop.
#[derive(Debug, Clone, Copy, PartialEq, Eq, Structural)]
pub enum Wake {
    /// The socket has messages: re-arm the poll and drain them.
    Wayland,
    /// The tick fired: let a held key repeat, then re-arm the tick.
    Timer,
    /// Nothing the loop submitted.
    Other,
}

/// What woke the loop, by the tag of a completion.
pub fn wake_of(user_data: u64) -> (r: Wake)
    ensures
        r == if user_data == K_WAYLAND {
            Wake::Wayland
        } else if user_data == K_TIMER {
            Wake::Timer
        } else {
            Wake::Other
        },
{
    if user_data == K_WAYLAND {
        Wake::Wayland
    } else if user_data == K_TIMER {
        Wake::Timer
    } else {
        Wake::Other
    }
}

/// Where the lock file is.
pub open spec fn lock_file(runtime_dir: Option<Seq<char>>) -> Seq<char> {
    (match runtime_dir {
        Some(dir) => dir,
        None => "/tmp"@,
    }) + "/bnklaunch.lock"@
}

/// The path of the single-instance lock, under the runtime directory.
pub fn lock_path(runtime_dir: Option<&str>) -> (r: Result<ArrayString<PATH_CAP>>)
    ensures
        ({
            let path = lock_file(
                match runtime_dir {
                    Some(dir) => Some(dir@),
                    None => None,
                },
            );
            if text::byte_len(path) <= PATH_CAP {
                r is Ok && r->Ok_0.wf() && r->Ok_0@ == path
            } else {
                r == Err::<ArrayString<PATH_CAP>, Error>(Error::of_msg("lock path too long"))
            }
        }),
{
    let dir = match runtime_dir {
        Some(dir) => dir,
        None => "/tmp",
    };
    let mut path: ArrayString<PATH_CAP> = ArrayString::new();
    proof {
        assert(Seq::<char>::empty() + dir@ == dir@);
        text::lemma_encode_concat(dir@, "/bnklaunch.lock"@);
    }
    if path.push_str(dir).is_err() || path.push_str("/bnklaunch.lock").is_err() {
        return Err(Error::msg("lock path too long"));
    }
    Ok(path)
}

/// Whether the lock was taken, by what flock returned. A lock another instance
/// holds is an error.
pub fn lock_taken(flock: i32) -> (r: Result<()>)
    ensures
        flock == 0 ==> r is Ok,
        flock != 0 ==> r == Err::<(), Error>(Error::of_msg("another instance is already running")),
{
    if flock == 0 {
        Ok(())
    } else {
        Err(Error::msg("another instance is already running"))
    }
}

/// Application state
pub struct AppState {
    pub entries: Catalog,
    /// Recent launches in MRU order. Shown when the input is empty.
    pub recents: Recents,
    pub selected: usize,
}

impl AppState {
    /// Every entry and every name is within its capacity.
    pub open spec fn wf(&self) -> bool {
        &&& self.entries.wf()
        &&& desktop::entries_wf(self.entries@)
        &&& self.recents.wf()
        &&& desktop::all_wf(self.recents@)
    }

    pub fn new(entries: Catalog, recents: Recents) -> (r: Self)
        ensures
            r.entries == entries,
            r.recents == recents,
            r.selected == 0,
    {
        Self { entries, recents, selected: 0 }
    }
}

/// What a start begins with.
pub struct Opening {
    pub entries: Catalog,
    pub recents: Recents,
    /// Where a record overwrites the cache in place.
    pub recents_offset: Option<u64>,
    /// The fingerprint the cached entries were built from.
    pub fingerprint: Option<u64>,
}

/// What to begin with, by the cache. Without one the catalog stays empty: a
/// missing cache has no fingerprint to match, so the refresh always discovers.
pub fn open_cache(cached: Option<Cached>) -> (r: Opening)
    requires
        cached matches Some(c) ==> c.wf(),
    ensures
        cached matches Some(c) ==> r.entries == c.entries && r.recents == c.recents
            && r.recents_offset == Some(c.recents_offset) && r.fingerprint == Some(c.fingerprint),
        cached is None ==> r.entries.wf() && r.entries@.len() == 0 && r.recents.wf()
            && r.recents@.len() == 0 && r.recents_offset is None && r.fingerprint is None,
{
    match cached {
        Some(c) => Opening {
            entries: c.entries,
            recents: c.recents,
            recents_offset: Some(c.recents_offset),
            fingerprint: Some(c.fingerprint),
        },
        None => Opening {
            entries: ArrayVec::new(),
            recents: ArrayVec::new(),
            recents_offset: None,
            fingerprint: None,
        },
    }
}

impl Opening {
    /// Whether the application directories have to be walked again: they are
    /// not as the cache saw them.
    pub fn is_stale(&self, fingerprint: u64) -> (r: bool)
        ensures
            r == (self.fingerprint != Some(fingerprint)),
    {
        match self.fingerprint {
            Some(f) => f != fingerprint,
            None => true,
        }
    }
}

/// Entries at positions of a catalog.
pub open spec fn entries_at(entries: Seq<DesktopEntry>, at: Seq<int>) -> Seq<DesktopEntry> {
    Seq::new(at.len(), |k: int| entries[at[k]])
}

/// Whether rows are what an input lists: the best matches of a query, the recent
/// launches for an empty one, and none for a prefix action.
pub open spec fn lists(
    input: Seq<char>,
    search_enabled: bool,
    entries: Seq<DesktopEntry>,
    recents: Seq<Seq<char>>,
    rows: Seq<DesktopEntry>,
) -> bool {
    match action::action_of(input, search_enabled) {
        ActionView::AppSearch(q) => if q.len() > 0 {
            exists|top: Seq<int>|
                #[trigger] desktop::is_top(
                    entries,
                    q,
                    desktop::matching(entries, q),
                    top,
                    RESULT_CAP as int,
                ) && rows == entries_at(entries, top)
        } else {
            rows == entries_at(entries, cache::resolved(recents, entries))
        },
        _ => rows.len() == 0,
    }
}

/// An input lists its rows one way, entries that rank the same among them.
pub proof fn law_an_input_lists_one_set_of_rows(
    input: Seq<char>,
    search_enabled: bool,
    entries: Seq<DesktopEntry>,
    recents: Seq<Seq<char>>,
    a: Seq<DesktopEntry>,
    b: Seq<DesktopEntry>,
)
    requires
        lists(input, search_enabled, entries, recents, a),
        lists(input, search_enabled, entries, recents, b),
    ensures
        a == b,
{
    match action::action_of(input, search_enabled) {
        ActionView::AppSearch(q) => {
            if q.len() > 0 {
                let all = desktop::matching(entries, q);
                let x = choose|top: Seq<int>|
                    #[trigger] desktop::is_top(entries, q, all, top, RESULT_CAP as int) && a
                        == entries_at(entries, top);
                let y = choose|top: Seq<int>|
                    #[trigger] desktop::is_top(entries, q, all, top, RESULT_CAP as int) && b
                        == entries_at(entries, top);
                desktop::law_the_best_are_listed_one_way(
                    entries,
                    q,
                    all,
                    x,
                    y,
                    RESULT_CAP as int,
                );
            }
        },
        _ => {
            assert(a =~= b);
        },
    }
}

/// How many rows an input offers, of a number of entries listed. A prefix action
/// with something to act on offers one.
pub open spec fn row_count(input: Seq<char>, search_enabled: bool, listed: int) -> int {
    match action::action_of(input, search_enabled) {
        ActionView::AppSearch(_) => ui::rows_drawn(listed),
        ActionView::Search(q) => if q.len() == 0 {
            0
        } else {
            1
        },
        ActionView::OpenUrl(u) => if u.len() == 0 {
            0
        } else {
            1
        },
    }
}

/// The entries rows refer to.
pub open spec fn listed(rows: Seq<&DesktopEntry>) -> Seq<DesktopEntry> {
    Seq::new(rows.len(), |k: int| *rows[k])
}

fn rows_for(found: usize) -> (r: usize)
    ensures
        r == ui::rows_drawn(found as int),
{
    if found < MAX_RESULTS {
        found
    } else {
        MAX_RESULTS
    }
}

/// Resolve the current input to the rows to display plus the total row count.
/// The count can exceed the rendered rows: the list only paints MAX_RESULTS, so
/// capping it keeps selection (and Enter to launch) off a row the user can't see.
pub fn resolve_results<'a>(
    text: &str,
    search_enabled: bool,
    entries: &'a [DesktopEntry],
    recents: &[ArrayString<NAME_CAP>],
) -> (r: (ArrayVec<&'a DesktopEntry, RESULT_CAP>, usize))
    requires
        desktop::entries_wf(entries@),
        desktop::all_wf(recents@),
    ensures
        r.0.wf(),
        lists(text@, search_enabled, entries@, desktop::strings(recents@), listed(r.0@)),
        r.1 == row_count(text@, search_enabled, r.0@.len() as int),
        forall|k: int| 0 <= k < r.0@.len() ==> (#[trigger] r.0@[k]).wf(),
{
    match parse_action(text, search_enabled) {
        InputAction::AppSearch(q) => {
            if !q.is_empty() {
                let r = search(entries, q);
                let len: usize = rows_for(r.len());
                proof {
                    let top = choose|top: Seq<int>|
                        #[trigger] desktop::is_top(
                            entries@,
                            q@,
                            desktop::matching(entries@, q@),
                            top,
                            RESULT_CAP as int,
                        ) && r@.len() == top.len() && forall|k: int|
                            0 <= k < top.len() ==> *(#[trigger] r@[k]) == entries@[top[k]];
                    assert(listed(r@) =~= entries_at(entries@, top));
                    assert forall|k: int| 0 <= k < r@.len() implies (#[trigger] r@[k]).wf() by {
                        let all = desktop::matching(entries@, q@);
                        assert(all.contains(top[k]));
                        desktop::lemma_matching_bounds(entries@, q@);
                        assert(entries@[top[k]].wf());
                    }
                }
                (r, len)
            } else {
                let r = resolve(recents, entries);
                let len: usize = rows_for(r.len());
                proof {
                    let at = cache::resolved(desktop::strings(recents@), entries@);
                    assert(listed(r@) =~= entries_at(entries@, at));
                    cache::lemma_resolved_bounds(desktop::strings(recents@), entries@);
                    assert forall|k: int| 0 <= k < r@.len() implies (#[trigger] r@[k]).wf() by {
                        assert(entries@[at[k]].wf());
                    }
                }
                (r, len)
            }
        },
        InputAction::Search(q) => (
            ArrayVec::new(),
            if q.is_empty() {
                0
            } else {
                1
            },
        ),
        InputAction::OpenUrl(q) => (
            ArrayVec::new(),
            if q.is_empty() {
                0
            } else {
                1
            },
        ),
    }
}

/// How long a due time asks the loop to park for, in nanoseconds.
pub open spec fn tick(due_ms: Option<u32>) -> int {
    match due_ms {
        Some(ms) => if ms * 1_000_000 < MIN_TICK_NANOS {
            MIN_TICK_NANOS as int
        } else if ms * 1_000_000 > TICK_NANOS {
            TICK_NANOS as int
        } else {
            ms * 1_000_000
        },
        None => TICK_NANOS as int,
    }
}

/// How long to park before the loop next has something to do. Only a held key
/// asks for less than a full tick; parking for exactly its remaining time is
/// what lands each repeat on its interval.
pub fn next_tick(repeat: &KeyRepeat, now: Instant) -> (r: i64)
    ensures
        r == tick(repeat.due_at(now)),
{
    clamp_tick(repeat.time_until_due(now))
}

/// A due time in milliseconds as a tick to park for.
pub fn clamp_tick(due_ms: Option<u32>) -> (r: i64)
    ensures
        r == tick(due_ms),
{
    match due_ms {
        Some(ms) => {
            let nanos: i64 = ms as i64 * 1_000_000;
            if nanos < MIN_TICK_NANOS {
                MIN_TICK_NANOS
            } else if nanos > TICK_NANOS {
                TICK_NANOS
            } else {
                nanos
            }
        },
        None => TICK_NANOS,
    }
}

/// Whether the selection is a row of the list; an empty list has it at the top.
pub open spec fn on_a_row(selected: int, total_rows: int) -> bool {
    0 <= selected < total_rows || (total_rows == 0 && selected == 0)
}

/// Where a pending action moves the selection: up and down wrap around the
/// result list. None when it moves nothing.
pub open spec fn moved_to(action: PendingAction, selected: int, total_rows: int) -> Option<int> {
    if total_rows == 0 {
        None
    } else {
        match action {
            PendingAction::SelectUp => Some(
                if selected == 0 {
                    total_rows - 1
                } else {
                    selected - 1
                },
            ),
            PendingAction::SelectDown => Some((selected + 1) % total_rows),
            _ => None,
        }
    }
}

/// Handle a pending selection move. Up and Down wrap around the result list.
/// Returns whether the selection moved.
pub fn navigate(client: &mut Client, selected: &mut usize, total_rows: usize) -> (r: bool)
    requires
        old(client).wf(),
    ensures
        final(client).wf(),
        final(client)@ == (ClientView {
            pending_action: match old(client)@.pending_action {
                PendingAction::SelectUp => PendingAction::Nothing,
                PendingAction::SelectDown => PendingAction::Nothing,
                other => other,
            },
            ..old(client)@
        }),
        match moved_to(
            old(client)@.pending_action,
            *old(selected) as int,
            total_rows as int,
        ) {
            Some(row) => r && *final(selected) == row,
            None => !r && *final(selected) == *old(selected),
        },
        on_a_row(*old(selected) as int, total_rows as int) ==> on_a_row(
            *final(selected) as int,
            total_rows as int,
        ),
{
    match client.pending_action {
        PendingAction::SelectUp => {
            client.pending_action = PendingAction::Nothing;
            if total_rows > 0 {
                *selected = if *selected == 0 {
                    total_rows - 1
                } else {
                    *selected - 1
                };
                return true;
            }
        },
        PendingAction::SelectDown => {
            client.pending_action = PendingAction::Nothing;
            if total_rows > 0 {
                *selected = ((*selected as u128 + 1) % total_rows as u128) as usize;
                return true;
            }
        },
        _ => {},
    }
    false
}

/// Where the pointer is in the input text, in 256ths of a pixel from its start.
pub open spec fn text_offset(p: Pointer) -> int {
    if p.x.raw < 256 * TEXT_X {
        0
    } else {
        p.x.raw - 256 * TEXT_X
    }
}

/// Whether a click lands on a result row.
pub open spec fn clicks_a_row(v: ClientView, total_rows: int) -> bool {
    v.pointer.clicked && ui::row_under(v.pointer.x, v.pointer.y, total_rows) is Some
}

/// The client after its pointer's click and drag, in an input whose offset under
/// the pointer is `off` and whose word there is `word`. A click on a row ends
/// the loop on a launch; one in the input box moves the caret; a drag there
/// extends the selection; anywhere else both are dropped.
pub open spec fn pointed(v: ClientView, total_rows: int, off: int, word: (int, int)) -> ClientView {
    if clicks_a_row(v, total_rows) {
        ClientView {
            pointer: Pointer { clicked: false, ..v.pointer },
            input_changed: false,
            pending_action: PendingAction::Launch,
            running: false,
            ..v
        }
    } else {
        let inside = ui::in_input_box(v.pointer.x, v.pointer.y);
        let w = if v.pointer.clicked && inside {
            ClientView {
                pointer: Pointer { clicked: false, ..v.pointer },
                ..v.edited(v.editor.clicked(off, v.pointer.click_count, word))
            }
        } else {
            ClientView { pointer: Pointer { clicked: false, ..v.pointer }, ..v }
        };
        if w.pointer.dragging && inside {
            ClientView {
                pointer: Pointer { dragging: false, ..w.pointer },
                ..w.edited(w.editor.dragged(off))
            }
        } else {
            ClientView { pointer: Pointer { dragging: false, ..w.pointer }, ..w }
        }
    }
}

/// Process pointer events: a click on a result row launches it, and a click or
/// drag in the input box moves the caret or extends the selection. The glyphs of
/// the input text are handed in as `run`.
pub fn handle_pointer_input(
    client: &mut Client,
    selected: &mut usize,
    run: &[Option<RunGlyph>],
    total_rows: usize,
)
    requires
        old(client).wf(),
        run@.len() <= i16::MAX,
    ensures
        final(client).wf(),
        ({
            let v = old(client)@;
            let off = font::offset_at(font::advances(run@), 0, text_offset(v.pointer));
            exists|word: (int, int)|
                (v.pointer.clicked && v.pointer.click_count == 2 && !clicks_a_row(
                    v,
                    total_rows as int,
                ) && ui::in_input_box(v.pointer.x, v.pointer.y) ==> editor::is_word_at(
                    editor::word_kinds(v.editor.text),
                    off,
                    word,
                )) && final(client)@ == #[trigger] pointed(v, total_rows as int, off, word)
        }),
        match ui::row_under(old(client)@.pointer.x, old(client)@.pointer.y, total_rows as int) {
            Some(row) if old(client)@.pointer.clicked => *final(selected) == row,
            _ => *final(selected) == *old(selected),
        },
        on_a_row(*old(selected) as int, total_rows as int) ==> on_a_row(
            *final(selected) as int,
            total_rows as int,
        ),
{
    let ghost v = client@;
    let px = client.pointer.x;
    let py = client.pointer.y;
    // A click on a result row selects it and ends the loop on a launch, which
    // is where Enter arrives too. Clearing the redraw flag on the way out keeps
    // the last pass from resizing a window that is about to go away.
    if client.pointer.clicked {
        if let Some(row) = row_at(px, py, total_rows) {
            *selected = row;
            client.pointer.clicked = false;
            client.input_changed = false;
            client.pending_action = PendingAction::Launch;
            client.running = false;
            proof {
                let off = font::offset_at(font::advances(run@), 0, text_offset(v.pointer));
                assert(client@ == pointed(v, total_rows as int, off, (0, 0)));
            }
            return;
        }
    }
    let in_input_box = input_box_contains(px, py);
    let from_text: i64 = px.raw as i64 - 256 * TEXT_X as i64;
    let offset_px: i64 = if from_text < 0 {
        0
    } else {
        from_text
    };
    let char_offset: usize = char_offset_at_x(run, offset_px);
    let ghost off = char_offset as int;
    let ghost mut word: (int, int) = (0, 0);
    if client.pointer.clicked && in_input_box {
        client.handle_pointer_click(char_offset);
        proof {
            if v.pointer.click_count == 2 {
                word = choose|w: (int, int)|
                    editor::is_word_at(editor::word_kinds(v.editor.text), off, w)
                        && client@.editor == #[trigger] v.editor.clicked(
                        off,
                        v.pointer.click_count,
                        w,
                    );
            }
        }
    } else if client.pointer.clicked {
        // Click outside input box: clear click flag
        client.pointer.clicked = false;
    }
    if client.pointer.dragging && in_input_box {
        client.handle_pointer_drag(char_offset);
    } else if client.pointer.dragging {
        client.pointer.dragging = false;
    }
    assert(offset_px == text_offset(v.pointer));
    assert(client@ == pointed(v, total_rows as int, off, word));
}

/// What the screen shows, kept between wakeups.
pub struct Screen<'a> {
    /// The rows on screen, rebuilt only when the input changes. A selection move
    /// and a caret blink redraw the list that is already in hand, so neither
    /// searches the catalog again.
    pub results: ArrayVec<&'a DesktopEntry, RESULT_CAP>,
    pub total_rows: usize,
    /// The query the current result list was built from, so an edit to the text
    /// can be told apart from a cursor move or a click, which leave it standing.
    pub last_query: ArrayString<INPUT_CAP>,
    /// Caret blink state. The caret is solid for one interval then toggles; any
    /// input activity resets it to solid.
    pub cursor_visible: bool,
    pub last_blink: Instant,
}

/// What a wakeup asks to be drawn.
#[derive(Debug, Clone, Copy, PartialEq, Eq, Structural)]
pub enum Repaint {
    /// Nothing changed on screen.
    Nothing,
    /// Draw the frame again.
    Frame,
    /// Draw it in a window of this height.
    Resized(u32),
}

impl<'a> Screen<'a> {
    /// The rows are what the query lists.
    pub open spec fn shows(
        &self,
        query: Seq<char>,
        search_enabled: bool,
        entries: Seq<DesktopEntry>,
        recents: Seq<Seq<char>>,
    ) -> bool {
        &&& self.last_query.wf()
        &&& self.last_query@ == query
        &&& self.results.wf()
        &&& forall|k: int| 0 <= k < self.results@.len() ==> (#[trigger] self.results@[k]).wf()
        &&& lists(query, search_enabled, entries, recents, listed(self.results@))
        &&& self.total_rows == row_count(query, search_enabled, self.results@.len() as int)
    }

    /// The first screen: the rows of the input as it is, and a solid caret.
    pub fn open(
        query: ArrayString<INPUT_CAP>,
        search_enabled: bool,
        entries: &'a [DesktopEntry],
        recents: &[ArrayString<NAME_CAP>],
        now: Instant,
    ) -> (r: Self)
        requires
            query.wf(),
            desktop::entries_wf(entries@),
            desktop::all_wf(recents@),
        ensures
            r.shows(query@, search_enabled, entries@, desktop::strings(recents@)),
            r.cursor_visible,
            r.last_blink == now,
    {
        let (results, total_rows) = resolve_results(
            query.as_str(),
            search_enabled,
            entries,
            recents,
        );
        Screen { results, total_rows, last_query: query, cursor_visible: true, last_blink: now }
    }

    /// Settle what a wakeup changed, and say what has to be drawn: the input
    /// changed, the selection moved, or the caret blinked.
    ///
    /// A changed input rebuilds the rows, keeps the caret solid and restarts the
    /// blink, and the window grows and shrinks with the row count. A new query
    /// is a new list, so the selection goes back to its top: an index carried
    /// over from the previous one points at a row the user never scanned, and
    /// Enter would launch it. A selection move leaves the caret its phase and
    /// the window its size.
    pub fn settle(
        &mut self,
        client: &mut Client,
        selected: &mut usize,
        selection_moved: bool,
        search_enabled: bool,
        entries: &'a [DesktopEntry],
        recents: &[ArrayString<NAME_CAP>],
        now: Instant,
    ) -> (r: Repaint)
        requires
            old(client).wf(),
            old(self).last_query.wf(),
            desktop::entries_wf(entries@),
            desktop::all_wf(recents@),
        ensures
            final(client).wf(),
            final(client)@ == (ClientView { input_changed: false, ..old(client)@ }),
            old(client)@.input_changed ==> ({
                let text = old(client)@.editor.text;
                let kept = text == old(self).last_query@ && *old(selected)
                    < final(self).total_rows;
                &&& final(self).shows(text, search_enabled, entries@, desktop::strings(recents@))
                &&& final(self).cursor_visible
                &&& final(self).last_blink == now
                &&& *final(selected) == if kept {
                    *old(selected) as int
                } else {
                    0
                }
                &&& on_a_row(*final(selected) as int, final(self).total_rows as int)
                &&& r == Repaint::Resized(
                    ui::row_top(ui::rows_drawn(final(self).total_rows as int)) as u32,
                )
            }),
            !old(client)@.input_changed ==> ({
                let blinks = !selection_moved && now.ms_after(old(self).last_blink)
                    >= CURSOR_BLINK_MS;
                &&& *final(selected) == *old(selected)
                &&& final(self).results == old(self).results
                &&& final(self).total_rows == old(self).total_rows
                &&& final(self).last_query == old(self).last_query
                &&& final(self).cursor_visible == (old(self).cursor_visible != blinks)
                &&& final(self).last_blink == if blinks {
                    now
                } else {
                    old(self).last_blink
                }
                &&& r == if selection_moved || blinks {
                    Repaint::Frame
                } else {
                    Repaint::Nothing
                }
            }),
    {
        if client.input_changed {
            client.input_changed = false;
            // Activity keeps the caret solid; restart the blink from now.
            self.cursor_visible = true;
            self.last_blink = now;
            let text = client.editor.text_owned();
            let query_changed = !str_eq(text.as_str(), self.last_query.as_str());
            let (results, total_rows) = resolve_results(
                text.as_str(),
                search_enabled,
                entries,
                recents,
            );
            self.results = results;
            self.total_rows = total_rows;
            self.last_query = text;
            // The bounds check covers the rest (a cursor move or a click leaves
            // the query, and so the selection, alone).
            if query_changed || *selected >= total_rows {
                *selected = 0;
            }
            // The window grows and shrinks with the row count.
            Repaint::Resized(calculate_height(total_rows))
        } else if selection_moved {
            Repaint::Frame
        } else if now.ms_since(self.last_blink) >= CURSOR_BLINK_MS {
            self.cursor_visible = !self.cursor_visible;
            self.last_blink = now;
            Repaint::Frame
        } else {
            Repaint::Nothing
        }
    }
}

/// What ending on a launch starts.
pub enum Launch<'a> {
    /// Nothing to start.
    Nothing,
    /// Open a web search.
    Search(Result<Command<URL_CSTR_CAP>>),
    /// Open a URL.
    Url(Result<Command<URL_CSTR_CAP>>),
    /// Start an application, to be recorded as the most recent.
    App(Command<ARG_CSTR_CAP>, &'a DesktopEntry),
}

/// Whether a command is the one that starts an entry.
pub open spec fn starts(c: Command<ARG_CSTR_CAP>, e: DesktopEntry) -> bool {
    &&& runs(e)
    &&& c.wf()
    &&& desktop::all_wf(c@)
    &&& desktop::strings(c@) == launch::terminated(desktop::exec_args(e.exec@))
}

/// Whether an entry's command can be run.
pub open spec fn runs(e: DesktopEntry) -> bool {
    launch::tokenizes(e.exec@) && desktop::exec_args(e.exec@).len() > 0
}

/// Whether a launch is what an input asks for, with a row of its list selected.
pub open spec fn launches(
    input: Seq<char>,
    search_enabled: bool,
    search_url: Option<Seq<char>>,
    entries: Seq<DesktopEntry>,
    recents: Seq<Seq<char>>,
    selected: int,
    r: Launch<'_>,
) -> bool {
    match action::action_of(input, search_enabled) {
        ActionView::Search(q) => if q.len() > 0 && search_url is Some {
            r matches Launch::Search(c) && launch::searches(search_url->0, q, c)
        } else {
            r is Nothing
        },
        ActionView::OpenUrl(u) => if u.len() > 0 {
            r matches Launch::Url(c) && launch::opens(action::normalized(Seq::empty(), u), c)
        } else {
            r is Nothing
        },
        ActionView::AppSearch(_) => exists|rows: Seq<DesktopEntry>|
            #[trigger] lists(input, search_enabled, entries, recents, rows) && if selected
                < rows.len() && runs(rows[selected]) {
                r matches Launch::App(c, e) && *e == rows[selected] && starts(c, *e)
            } else {
                r is Nothing
            },
    }
}

/// What to launch for whatever the input resolved to. A query and an empty input
/// both land on a row of the same list; an application whose command cannot be
/// run is not launched.
pub fn dispatch_launch<'a>(
    text: &str,
    state: &'a AppState,
    cfg: &Config,
    search_enabled: bool,
) -> (r: Launch<'a>)
    requires
        state.wf(),
        cfg.wf(),
    ensures
        launches(
            text@,
            search_enabled,
            cfg@.search_url,
            state.entries@,
            desktop::strings(state.recents@),
            state.selected as int,
            r,
        ),
{
    match parse_action(text, search_enabled) {
        InputAction::Search(q) => {
            if q.is_empty() {
                return Launch::Nothing;
            }
            match &cfg.search_url {
                Some(url) => Launch::Search(launch_search(url.as_str(), q)),
                None => Launch::Nothing,
            }
        },
        InputAction::OpenUrl(u) => {
            if u.is_empty() {
                return Launch::Nothing;
            }
            let mut url: ArrayString<URL_CAP> = ArrayString::new();
            normalize_url(u, &mut url);
            Launch::Url(launch_url(url.as_str()))
        },
        InputAction::AppSearch(_) => {
            let (results, _) = resolve_results(
                text,
                search_enabled,
                state.entries.as_slice(),
                state.recents.as_slice(),
            );
            let ghost rows = listed(results@);
            if state.selected < results.len() {
                let entry = results.as_slice()[state.selected];
                assert(*entry == rows[state.selected as int]);
                match launch::launch(entry) {
                    Ok(c) => Launch::App(c, entry),
                    Err(_) => Launch::Nothing,
                }
            } else {
                Launch::Nothing
            }
        },
    }
}

/// The row on screen is the row that is launched: with the input the screen
/// shows, what starts is the selected one of its rows, and one that can be run
/// does start.
pub proof fn law_the_row_on_screen_is_launched(
    screen: Screen<'_>,
    input: Seq<char>,
    search_enabled: bool,
    search_url: Option<Seq<char>>,
    entries: Seq<DesktopEntry>,
    recents: Seq<Seq<char>>,
    selected: int,
    r: Launch<'_>,
)
    requires
        screen.shows(input, search_enabled, entries, recents),
        0 <= selected,
        launches(input, search_enabled, search_url, entries, recents, selected, r),
    ensures
        r matches Launch::App(c, e) ==> selected < screen.results@.len() && *e
            == *screen.results@[selected] && starts(c, *e),
        selected < screen.results@.len() && runs(*screen.results@[selected]) ==> r is App,
{
    if action::action_of(input, search_enabled) is AppSearch {
        let rows = choose|rows: Seq<DesktopEntry>|
            #[trigger] lists(input, search_enabled, entries, recents, rows) && if selected
                < rows.len() && runs(rows[selected]) {
                r matches Launch::App(c, e) && *e == rows[selected] && starts(c, *e)
            } else {
                r is Nothing
            };
        let shown = listed(screen.results@);
        law_an_input_lists_one_set_of_rows(
            input,
            search_enabled,
            entries,
            recents,
            rows,
            shown,
        );
        assert(shown.len() == screen.results@.len());
        if selected < shown.len() {
            assert(shown[selected] == *screen.results@[selected]);
        }
    }
}

/// A click on a result row launches it: the loop ends on a launch, with the text
/// as it was, and what starts is the entry drawn in the row under the pointer.
pub proof fn law_a_click_launches_the_row_under_it(
    screen: Screen<'_>,
    v: ClientView,
    search_enabled: bool,
    search_url: Option<Seq<char>>,
    entries: Seq<DesktopEntry>,
    recents: Seq<Seq<char>>,
    off: int,
    word: (int, int),
    r: Launch<'_>,
)
    requires
        screen.shows(v.editor.text, search_enabled, entries, recents),
        clicks_a_row(v, screen.total_rows as int),
        launches(
            pointed(v, screen.total_rows as int, off, word).editor.text,
            search_enabled,
            search_url,
            entries,
            recents,
            ui::row_under(v.pointer.x, v.pointer.y, screen.total_rows as int)->0,
            r,
        ),
    ensures
        ({
            let after = pointed(v, screen.total_rows as int, off, word);
            let row = ui::row_under(v.pointer.x, v.pointer.y, screen.total_rows as int)->0;
            &&& after.pending_action is Launch
            &&& !after.running
            &&& after.editor == v.editor
            &&& 0 <= row < screen.total_rows
            &&& r matches Launch::App(c, e) ==> row < screen.results@.len() && *e
                == *screen.results@[row] && starts(c, *e)
            &&& action::action_of(v.editor.text, search_enabled) is AppSearch ==> row
                < screen.results@.len() && (runs(*screen.results@[row]) ==> r is App)
        }),
{
    law_the_row_on_screen_is_launched(
        screen,
        v.editor.text,
        search_enabled,
        search_url,
        entries,
        recents,
        ui::row_under(v.pointer.x, v.pointer.y, screen.total_rows as int)->0,
        r,
    );
}

/// Record an application that was launched as the most recent: what to write to
/// the cache, where there is one.
pub fn record_launch(recents: &mut Recents, recents_offset: Option<u64>, name: &str) -> (r: Option<
    RecordWrite,
>)
    requires
        old(recents).wf(),
        desktop::all_wf(old(recents)@),
        recents_offset matches Some(offset) ==> offset + RECENTS_ENC_CAP <= u64::MAX,
    ensures
        final(recents).wf(),
        desktop::all_wf(final(recents)@),
        recents_offset is None ==> r is None && *final(recents) == *old(recents),
        recents_offset matches Some(offset) ==> ({
            let names = cache::recorded(desktop::strings(old(recents)@), name@);
            &&& desktop::strings(final(recents)@) == names
            &&& r matches Some(w) && w.offset == offset && w.block.wf() && w.block@
                == cache::recents_bytes(names) && w.end == offset + w.block@.len()
        }),
{
    match recents_offset {
        Some(offset) => record(offset, recents, name).ok(),
        None => None,
    }
}

/// A step down undoes a step up and the other way round, at the ends of the list
/// too.
pub proof fn law_steps_through_the_list_undo_each_other(selected: int, total_rows: int)
    requires
        0 <= selected < total_rows,
    ensures
        ({
            let up = moved_to(PendingAction::SelectUp, selected, total_rows)->0;
            let down = moved_to(PendingAction::SelectDown, selected, total_rows)->0;
            &&& on_a_row(up, total_rows)
            &&& on_a_row(down, total_rows)
            &&& moved_to(PendingAction::SelectDown, up, total_rows) == Some(selected)
            &&& moved_to(PendingAction::SelectUp, down, total_rows) == Some(selected)
        }),
{
    lemma_wrapped(selected, total_rows);
    if selected > 0 {
        lemma_wrapped(selected - 1, total_rows);
    } else {
        lemma_wrapped(total_rows - 1, total_rows);
    }
}

proof fn lemma_wrapped(selected: int, total_rows: int)
    requires
        0 <= selected < total_rows,
    ensures
        (selected + 1) % total_rows == if selected + 1 == total_rows {
            0
        } else {
            selected + 1
        },
{
    if selected + 1 == total_rows {
        vstd::arithmetic::div_mod::lemma_mod_self_0(total_rows);
    } else {
        vstd::arithmetic::div_mod::lemma_small_mod((selected + 1) as nat, total_rows as nat);
    }
}

/// The tick is never longer than the blink needs nor so short that the loop
/// spins, and is exact for any due time in between.
pub proof fn law_the_tick_never_runs_long_or_spins(due_ms: Option<u32>)
    ensures
        MIN_TICK_NANOS <= tick(due_ms) <= TICK_NANOS,
        due_ms matches Some(ms) ==> (1 <= ms <= 33 ==> tick(due_ms) == ms * 1_000_000),
        due_ms is None ==> tick(due_ms) == TICK_NANOS,
{
}

/// No input offers more rows than the list paints, so a row that can be selected
/// is a row the user can see.
pub proof fn law_every_row_is_drawn(input: Seq<char>, search_enabled: bool, listed: int)
    requires
        0 <= listed,
    ensures
        0 <= row_count(input, search_enabled, listed) <= MAX_RESULTS,
{
}

} // verus!
