//! The launcher's layout: where the input field and the result rows are, what a
//! frame is made of, and painting it into a pixel buffer.
//!
//! Text heights and pen positions are in 64ths of a pixel, and pointer positions
//! in 256ths, the units they are reported in.
use vstd::prelude::*;

use crate::action;
use crate::action::{normalize_url, parse_action, ActionView, InputAction};
use crate::config;
use crate::desktop;
use crate::desktop::{exec_subtitle, DesktopEntry, SUBTITLE_CAP};
use crate::font;
use crate::font::{
    x_at_char_offset, Drawn, GlyphCache, RunGlyph, INPUT_SIZE, NAME_SIZE, SUBTITLE_SIZE,
};
use crate::launch::URL_CAP;
use crate::platform::arena::ArrayString;
use crate::platform::wire::Fixed;
use crate::shm;
use crate::shm::{blend, PixelBuffer};
use crate::platform::text;
use crate::platform::text::chars_of;
use crate::theme::{Palette, Theme};

verus! {

/// Width of the launcher window in pixels.
pub const WINDOW_WIDTH: u32 = 800;

/// Result rows drawn under the input. The window grows and shrinks with the
/// number of rows, up to this many.
pub const MAX_RESULTS: usize = 5;

/// Input field height
pub const INPUT_BOX_H: u32 = 54;

/// X position where text starts: the inner padding, in from the window's left
/// edge.
pub const TEXT_X: u32 = 15;

/// Right edge of every text run, as a width from TEXT_X. The trailing gutter is
/// the wider of the two, so a name that fills the row stops well short of the
/// window edge.
pub const TEXT_W: u32 = 670;

/// Y position where results start, flush under the input field
pub const RESULTS_START_Y: u32 = 54;

/// Height of each result item
pub const RESULT_HEIGHT: u32 = 50;

/// How many rows are drawn of a number of results.
pub open spec fn rows_drawn(num_results: int) -> int {
    if num_results < MAX_RESULTS {
        num_results
    } else {
        MAX_RESULTS as int
    }
}

/// Where a row starts.
pub open spec fn row_top(row: int) -> int {
    RESULTS_START_Y + row * RESULT_HEIGHT
}

proof fn lemma_row_top(row: int)
    ensures
        row_top(row) == RESULTS_START_Y + 50 * row,
{
}

fn drawn_rows(num_results: usize) -> (r: usize)
    ensures
        r == rows_drawn(num_results as int),
{
    if num_results < MAX_RESULTS {
        num_results
    } else {
        MAX_RESULTS
    }
}

/// Window height for a number of result rows: the input field plus a row each,
/// up to MAX_RESULTS. It ends where the row after the last would start.
pub fn calculate_height(num_results: usize) -> (r: u32)
    ensures
        r == INPUT_BOX_H + rows_drawn(num_results as int) * RESULT_HEIGHT,
        r == row_top(rows_drawn(num_results as int)),
{
    INPUT_BOX_H + drawn_rows(num_results) as u32 * RESULT_HEIGHT
}

/// The result row under a pointer position, in 256ths of a pixel, of a number of
/// results.
pub open spec fn row_under(x: Fixed, y: Fixed, num_results: int) -> Option<int> {
    let row = (y.raw - 256 * RESULTS_START_Y) / 12_800;
    if 0 <= x.raw < 256 * WINDOW_WIDTH && 0 <= row < rows_drawn(num_results) {
        Some(row)
    } else {
        None
    }
}

/// Whether a pointer position, in 256ths of a pixel, is in the input field.
pub open spec fn in_input_box(x: Fixed, y: Fixed) -> bool {
    0 <= y.raw < 256 * INPUT_BOX_H && 256 * TEXT_X <= x.raw < 256 * WINDOW_WIDTH
}

/// The result row a pointer position falls in, given how many rows are drawn.
/// None for a position above the list, past the last row, or outside the window
/// horizontally. The same arithmetic the rows are laid out with, read backwards,
/// so the two cannot disagree about where a row is.
pub fn row_at(x: Fixed, y: Fixed, num_results: usize) -> (r: Option<usize>)
    ensures
        r is Some <==> row_under(x, y, num_results as int) is Some,
        r matches Some(i) ==> row_under(x, y, num_results as int) == Some(i as int),
        forall|row: int|
            (r matches Some(i) && i == row) <==> 0 <= x.raw < 256 * WINDOW_WIDTH && 0 <= row
                < rows_drawn(num_results as int) && 256 * #[trigger] row_top(row) <= y.raw < 256
                * row_top(row + 1),
{
    let rows: usize = drawn_rows(num_results);
    if x.raw < 0 || x.raw >= 256 * WINDOW_WIDTH as i32 {
        return None;
    }
    let offset: i64 = y.raw as i64 - 256 * RESULTS_START_Y as i64;
    if offset < 0 {
        return None;
    }
    let row_units: i64 = 256 * RESULT_HEIGHT as i64;
    assert(row_units == 12_800);
    let row: i64 = offset / row_units;
    assert forall|k: int| 256 * #[trigger] row_top(k) <= y.raw < 256 * row_top(k + 1) implies k
        == row by {
        lemma_row_top(k);
        lemma_row_top(k + 1);
    }
    proof {
        lemma_row_top(row as int);
        lemma_row_top(row + 1);
    }
    if row < rows as i64 {
        Some(row as usize)
    } else {
        None
    }
}

/// Whether a pointer position is in the input field.
pub fn input_box_contains(x: Fixed, y: Fixed) -> (r: bool)
    ensures
        r == in_input_box(x, y),
{
    y.raw >= 0 && y.raw < 256 * INPUT_BOX_H as i32 && x.raw >= 256 * TEXT_X as i32 && x.raw < 256
        * WINDOW_WIDTH as i32
}

/// What the caret and the selection look like this frame.
#[derive(Debug, Clone, Copy, PartialEq, Eq)]
pub struct Caret {
    /// Char offset of the caret in the input text.
    pub offset: usize,
    /// The selected range, as char offsets.
    pub selection: Option<(usize, usize)>,
    /// The caret is solid for half its blink period and hidden for the other.
    pub visible: bool,
}

/// Line heights at the sizes text is drawn in.
#[derive(Debug, Clone, Copy, PartialEq, Eq)]
pub struct Heights {
    pub input: i64,
    pub name: i64,
    pub subtitle: i64,
}

impl Heights {
    /// Heights a line of text can have.
    pub open spec fn wf(self) -> bool {
        &&& -0x1_0000_0000 <= self.input <= 0x1_0000_0000
        &&& -0x1_0000_0000 <= self.name <= 0x1_0000_0000
        &&& -0x1_0000_0000 <= self.subtitle <= 0x1_0000_0000
    }
}

/// One step of drawing a frame.
pub enum Draw {
    /// Fill the whole buffer.
    Fill(u32),
    /// Draw a rectangle over what is there.
    Rect { x: u32, y: u32, w: u32, h: u32, color: u32 },
    /// Put a rectangle in place of what is there.
    Stamp { x: u32, y: u32, w: u32, h: u32, color: u32 },
    /// Draw a line of text at a size.
    Text { x: u32, y: u32, text: Vec<char>, size: u32, color: u32, max_width: u32 },
}

/// One step of drawing a frame.
#[verifier::ext_equal]
pub enum DrawView {
    Fill(u32),
    Rect { x: u32, y: u32, w: u32, h: u32, color: u32 },
    Stamp { x: u32, y: u32, w: u32, h: u32, color: u32 },
    Text { x: u32, y: u32, text: Seq<char>, size: u32, color: u32, max_width: u32 },
}

impl View for Draw {
    type V = DrawView;

    open spec fn view(&self) -> DrawView {
        match self {
            Draw::Fill(c) => DrawView::Fill(*c),
            Draw::Rect { x, y, w, h, color } => DrawView::Rect {
                x: *x,
                y: *y,
                w: *w,
                h: *h,
                color: *color,
            },
            Draw::Stamp { x, y, w, h, color } => DrawView::Stamp {
                x: *x,
                y: *y,
                w: *w,
                h: *h,
                color: *color,
            },
            Draw::Text { x, y, text, size, color, max_width } => DrawView::Text {
                x: *x,
                y: *y,
                text: text@,
                size: *size,
                color: *color,
                max_width: *max_width,
            },
        }
    }
}

/// The steps of a frame.
pub open spec fn steps(v: Seq<Draw>) -> Seq<DrawView> {
    Seq::new(v.len(), |i: int| v[i]@)
}

/// Whole units of a length, none for a negative one.
pub open spec fn units(v: int, unit: int) -> u32 {
    if v <= 0 {
        0
    } else {
        (v / unit) as u32
    }
}

fn whole_units(v: i64, unit: i64) -> (r: u32)
    requires
        unit == 64 || unit == 128,
        v <= 0x1F_FFFF_FFFF,
    ensures
        r == units(v as int, unit as int),
        r <= 0x7FFF_FFFF,
        v <= 0xF_FFFF_FFFF ==> r <= 0x3FFF_FFFF,
{
    if v <= 0 {
        0
    } else {
        (v / unit) as u32
    }
}

/// Where the input text starts: centred in its field.
pub open spec fn input_y(h: Heights) -> u32 {
    units(64 * INPUT_BOX_H - h.input, 128)
}

/// How tall the caret is.
pub open spec fn caret_h(h: Heights) -> u32 {
    units(h.input as int, 64)
}

/// The pen at a char offset of the input.
pub open spec fn pen_at(run: Seq<Option<RunGlyph>>, offset: usize) -> int {
    font::caret_x(
        font::advances(run).take(
            if offset < run.len() {
                offset as int
            } else {
                run.len() as int
            },
        ),
    )
}

/// Whether the pen stays where a coordinate can follow.
pub open spec fn pen_fits(run: Seq<Option<RunGlyph>>) -> bool {
    &&& run.len() <= i16::MAX
    &&& forall|k: int|
        0 <= k <= run.len() ==> -0xF_FFFF_FFFF <= font::caret_x(
            #[trigger] font::advances(run).take(k),
        ) <= 0xF_FFFF_FFFF
}

/// The highlight behind a selection, when it is a pixel wide or more.
pub open spec fn selection_steps(
    run: Seq<Option<RunGlyph>>,
    selection: Option<(usize, usize)>,
    h: Heights,
    t: Palette,
) -> Seq<DrawView> {
    match selection {
        None => Seq::empty(),
        Some((start, end)) => {
            let from = pen_at(run, start);
            let w = units(pen_at(run, end) - from, 64);
            if w > 0 {
                seq![
                    DrawView::Rect {
                        x: (TEXT_X + units(from, 64)) as u32,
                        y: input_y(h),
                        w,
                        h: caret_h(h),
                        color: t.selection,
                    },
                ]
            } else {
                Seq::empty()
            }
        },
    }
}

/// A line of text in the text column.
pub open spec fn line(y: u32, s: Seq<char>, size: u32, color: u32) -> DrawView {
    DrawView::Text { x: TEXT_X, y, text: s, size, color, max_width: TEXT_W }
}

/// The input text, when there is any.
pub open spec fn input_steps(s: Seq<char>, h: Heights, t: Palette) -> Seq<DrawView> {
    if s.len() == 0 {
        Seq::empty()
    } else {
        seq![line(input_y(h), s, INPUT_SIZE, t.text)]
    }
}

/// The caret, on the solid phase of its blink.
pub open spec fn caret_steps(run: Seq<Option<RunGlyph>>, caret: Caret, h: Heights, t: Palette) -> Seq<
    DrawView,
> {
    if caret.visible {
        seq![
            DrawView::Rect {
                x: (TEXT_X + units(pen_at(run, caret.offset), 64)) as u32,
                y: input_y(h),
                w: 2,
                h: caret_h(h),
                color: t.caret,
            },
        ]
    } else {
        Seq::empty()
    }
}

/// The height of a row's two lines with the gap between them.
pub open spec fn block_h(h: Heights) -> int {
    h.name + 128 + h.subtitle
}

/// A row's two lines: title over subtitle, centred as a block in the row that
/// starts at y.
pub open spec fn row_steps(y: int, title: Seq<char>, subtitle: Seq<char>, h: Heights, t: Palette) -> Seq<
    DrawView,
> {
    let top = 128 * y + 64 * RESULT_HEIGHT - block_h(h);
    seq![
        line(units(top, 128), title, NAME_SIZE, t.text),
        line(units(top + 2 * h.name + 256, 128), subtitle, SUBTITLE_SIZE, t.subtitle),
    ]
}

/// The colour of the selected row: the wash over the background, worked out once.
/// Every pixel under the row is the background the frame started with, so
/// blending across the row lands on this same colour.
pub open spec fn washed(t: Palette) -> u32 {
    shm::blended(t.background, t.highlight, 255)
}

/// The wash behind the row that starts at y.
pub open spec fn wash_step(y: int, t: Palette) -> DrawView {
    DrawView::Stamp { x: 0, y: y as u32, w: WINDOW_WIDTH, h: RESULT_HEIGHT, color: washed(t) }
}

/// One result row; the selected one gets the wash.
pub open spec fn result_steps(
    row: int,
    entry: (Seq<char>, Seq<char>),
    selected: int,
    h: Heights,
    t: Palette,
) -> Seq<DrawView> {
    let wash = if row == selected {
        seq![wash_step(row_top(row), t)]
    } else {
        Seq::empty()
    };
    wash + row_steps(
        row_top(row),
        entry.0,
        desktop::joined(desktop::exec_args(entry.1), 0, Seq::empty()),
        h,
        t,
    )
}

/// The first n result rows.
pub open spec fn results_steps(
    rows: Seq<(Seq<char>, Seq<char>)>,
    n: nat,
    selected: int,
    h: Heights,
    t: Palette,
) -> Seq<DrawView>
    decreases n,
{
    if n == 0 {
        Seq::empty()
    } else {
        results_steps(rows, (n - 1) as nat, selected, h, t) + result_steps(
            n - 1,
            rows[n - 1],
            selected,
            h,
            t,
        )
    }
}

/// A preview row for a prefix action.
pub open spec fn preview_steps(title: Seq<char>, subtitle: Seq<char>, h: Heights, t: Palette) -> Seq<
    DrawView,
> {
    seq![wash_step(RESULTS_START_Y as int, t)] + row_steps(
        RESULTS_START_Y as int,
        title,
        subtitle,
        h,
        t,
    )
}

/// What goes under the input: either a prefix action's preview, which takes
/// precedence, or the results.
pub open spec fn list_steps(
    input: Seq<char>,
    search_enabled: bool,
    rows: Seq<(Seq<char>, Seq<char>)>,
    selected: int,
    h: Heights,
    t: Palette,
) -> Seq<DrawView> {
    let results = results_steps(rows, rows_drawn(rows.len() as int) as nat, selected, h, t);
    match action::action_of(input, search_enabled) {
        ActionView::Search(q) => if q.len() > 0 {
            preview_steps("Web search"@, q, h, t)
        } else {
            results
        },
        ActionView::OpenUrl(u) => if u.len() > 0 {
            preview_steps("Open URL"@, action::normalized(Seq::empty(), u), h, t)
        } else {
            results
        },
        ActionView::AppSearch(_) => results,
    }
}

/// Everything a frame is drawn from.
pub struct FrameInput {
    pub input: Seq<char>,
    pub run: Seq<Option<RunGlyph>>,
    pub search_enabled: bool,
    pub rows: Seq<(Seq<char>, Seq<char>)>,
    pub selected: int,
    pub caret: Caret,
    pub heights: Heights,
    pub theme: Palette,
}

impl FrameInput {
    /// The steps of the frame: the background, the selection under the text, the
    /// text, the caret, and what goes under the input.
    pub open spec fn frame(self) -> Seq<DrawView> {
        let h = self.heights;
        let t = self.theme;
        seq![DrawView::Fill(t.background)] + selection_steps(
            self.run,
            self.caret.selection,
            h,
            t,
        ) + input_steps(self.input, h, t) + caret_steps(self.run, self.caret, h, t) + list_steps(
            self.input,
            self.search_enabled,
            self.rows,
            self.selected,
            h,
            t,
        )
    }
}

/// The names and commands of result rows.
pub open spec fn row_texts(results: Seq<&DesktopEntry>) -> Seq<(Seq<char>, Seq<char>)> {
    Seq::new(results.len(), |i: int| desktop::summary(*results[i]))
}

fn push_step(out: &mut Vec<Draw>, d: Draw)
    ensures
        steps(final(out)@) == steps(old(out)@).push(d@),
{
    let ghost before = out@;
    out.push(d);
    assert(steps(out@) =~= steps(before).push(d@));
}

/// Draw a result row: title over subtitle, the two lines vertically centered as
/// a block in the row starting at y. Both lines stop at TEXT_W, so a long name
/// or command line cannot run off the row.
fn draw_row(out: &mut Vec<Draw>, y: u32, title: &str, subtitle: &str, h: &Heights, theme: &Theme)
    requires
        h.wf(),
        y <= 1000,
    ensures
        steps(final(out)@) == steps(old(out)@) + row_steps(
            y as int,
            title@,
            subtitle@,
            *h,
            theme@,
        ),
{
    let ghost before = steps(out@);
    let top: i64 = 128 * y as i64 + 64 * RESULT_HEIGHT as i64 - (h.name + 128 + h.subtitle);
    push_step(
        out,
        Draw::Text {
            x: TEXT_X,
            y: whole_units(top, 128),
            text: chars_of(title),
            size: NAME_SIZE,
            color: theme.text.argb(),
            max_width: TEXT_W,
        },
    );
    push_step(
        out,
        Draw::Text {
            x: TEXT_X,
            y: whole_units(top + 2 * h.name + 256, 128),
            text: chars_of(subtitle),
            size: SUBTITLE_SIZE,
            color: theme.subtitle.argb(),
            max_width: TEXT_W,
        },
    );
    assert(steps(out@) =~= before + row_steps(y as int, title@, subtitle@, *h, theme@));
}

fn wash(theme: &Theme) -> (r: u32)
    ensures
        r == washed(theme@),
{
    blend(theme.background.argb(), theme.highlight.argb(), 255)
}

fn stamp_row(out: &mut Vec<Draw>, y: u32, theme: &Theme)
    ensures
        steps(final(out)@) == steps(old(out)@).push(wash_step(y as int, theme@)),
{
    push_step(
        out,
        Draw::Stamp { x: 0, y, w: WINDOW_WIDTH, h: RESULT_HEIGHT, color: wash(theme) },
    );
}

/// Draw the result rows. They butt up against each other with no gaps; only the
/// selected row gets a wash so it stands out from the body.
fn draw_results(
    out: &mut Vec<Draw>,
    selected: usize,
    results: &[&DesktopEntry],
    h: &Heights,
    theme: &Theme,
)
    requires
        h.wf(),
        forall|i: int| 0 <= i < results@.len() ==> (#[trigger] results@[i]).wf(),
    ensures
        steps(final(out)@) == steps(old(out)@) + results_steps(
            row_texts(results@),
            rows_drawn(results@.len() as int) as nat,
            selected as int,
            *h,
            theme@,
        ),
{
    let n: usize = drawn_rows(results.len());
    let ghost before = steps(out@);
    let ghost rows = row_texts(results@);
    let mut i: usize = 0;
    assert(steps(out@) =~= before + results_steps(rows, 0, selected as int, *h, theme@));
    while i < n
        invariant
            i <= n <= results@.len(),
            n <= MAX_RESULTS,
            h.wf(),
            rows == row_texts(results@),
            forall|k: int| 0 <= k < results@.len() ==> (#[trigger] results@[k]).wf(),
            steps(out@) == before + results_steps(rows, i as nat, selected as int, *h, theme@),
        decreases n - i,
    {
        let ghost mid = steps(out@);
        let entry = results[i];
        assert(entry.wf());
        let y: u32 = RESULTS_START_Y + i as u32 * RESULT_HEIGHT;
        assert(y == row_top(i as int));
        if i == selected {
            stamp_row(out, y, theme);
        }
        // The subtitle previews the resolved command with field codes dropped.
        let mut subtitle: ArrayString<SUBTITLE_CAP> = ArrayString::new();
        exec_subtitle(entry.exec.as_str(), &mut subtitle);
        draw_row(out, y, entry.name.as_str(), subtitle.as_str(), h, theme);
        proof {
            let here = result_steps(i as int, rows[i as int], selected as int, *h, theme@);
            assert(rows[i as int] == (entry.name@, entry.exec@));
            assert(steps(out@) =~= mid + here);
            assert(results_steps(rows, (i + 1) as nat, selected as int, *h, theme@)
                == results_steps(rows, i as nat, selected as int, *h, theme@) + here);
            assert(steps(out@) =~= before + results_steps(
                rows,
                (i + 1) as nat,
                selected as int,
                *h,
                theme@,
            ));
        }
        i += 1;
    }
}

/// Draw a single preview row for prefix actions (s: / u:).
fn draw_preview_row(out: &mut Vec<Draw>, title: &str, subtitle: &str, h: &Heights, theme: &Theme)
    requires
        h.wf(),
    ensures
        steps(final(out)@) == steps(old(out)@) + preview_steps(title@, subtitle@, *h, theme@),
{
    let ghost before = steps(out@);
    stamp_row(out, RESULTS_START_Y, theme);
    draw_row(out, RESULTS_START_Y, title, subtitle, h, theme);
    assert(steps(out@) =~= before + preview_steps(title@, subtitle@, *h, theme@));
}

/// Lay out the whole launcher: the steps that draw a frame.
///
/// It takes the text and the caret rather than the client, so drawing a frame
/// needs no compositor: the same steps render into an offscreen buffer.
pub fn draw_ui(
    input_text: &str,
    run: &[Option<RunGlyph>],
    selected: usize,
    results: &[&DesktopEntry],
    search_enabled: bool,
    caret: &Caret,
    h: &Heights,
    theme: &Theme,
) -> (r: Vec<Draw>)
    requires
        h.wf(),
        pen_fits(run@),
        forall|i: int| 0 <= i < results@.len() ==> (#[trigger] results@[i]).wf(),
    ensures
        steps(r@) == (FrameInput {
            input: input_text@,
            run: run@,
            search_enabled,
            rows: row_texts(results@),
            selected: selected as int,
            caret: *caret,
            heights: *h,
            theme: theme@,
        }).frame(),
        forall|i: int| 0 <= i < r@.len() ==> paintable((#[trigger] r@[i])@),
{
    let mut out: Vec<Draw> = Vec::new();
    let ghost t = theme@;
    let ghost want0 = seq![DrawView::Fill(t.background)];
    // A single flat surface; the selected row is the only part that washes.
    push_step(&mut out, Draw::Fill(theme.background.argb()));
    assert(steps(out@) =~= want0);
    // Vertically center text in the input box
    let text_y: u32 = whole_units(64 * INPUT_BOX_H as i64 - h.input, 128);
    let cursor_h: u32 = whole_units(h.input, 64);
    // Selection highlight (drawn before text so text appears on top)
    let ghost want1 = want0 + selection_steps(run@, caret.selection, *h, t);
    if let Some((sel_start, sel_end)) = caret.selection {
        let start_px: i64 = x_at_char_offset(run, sel_start);
        let end_px: i64 = x_at_char_offset(run, sel_end);
        assert(start_px == pen_at(run@, sel_start) && end_px == pen_at(run@, sel_end));
        let w: u32 = whole_units(end_px - start_px, 64);
        if w > 0 {
            push_step(
                &mut out,
                Draw::Rect {
                    x: TEXT_X + whole_units(start_px, 64),
                    y: text_y,
                    w,
                    h: cursor_h,
                    color: theme.selection.argb(),
                },
            );
        }
    }
    assert(steps(out@) =~= want1);
    // Input text
    let ghost want2 = want1 + input_steps(input_text@, *h, t);
    let chars = chars_of(input_text);
    if chars.len() > 0 {
        push_step(
            &mut out,
            Draw::Text {
                x: TEXT_X,
                y: text_y,
                text: chars,
                size: INPUT_SIZE,
                color: theme.text.argb(),
                max_width: TEXT_W,
            },
        );
    }
    assert(steps(out@) =~= want2);
    // Cursor (hidden on the blink-off phase)
    let ghost want3 = want2 + caret_steps(run@, *caret, *h, t);
    if caret.visible {
        let cursor_px: i64 = x_at_char_offset(run, caret.offset);
        assert(cursor_px == pen_at(run@, caret.offset));
        push_step(
            &mut out,
            Draw::Rect {
                x: TEXT_X + whole_units(cursor_px, 64),
                y: text_y,
                w: 2,
                h: cursor_h,
                color: theme.caret.argb(),
            },
        );
    }
    assert(steps(out@) =~= want3);
    // Under the input goes either a prefix-action preview (s: / u:), which takes
    // precedence, or the app results.
    match parse_action(input_text, search_enabled) {
        InputAction::Search(q) => {
            if !q.is_empty() {
                draw_preview_row(&mut out, "Web search", q, h, theme);
            } else {
                draw_results(&mut out, selected, results, h, theme);
            }
        },
        InputAction::OpenUrl(u) => {
            if !u.is_empty() {
                let mut url: ArrayString<URL_CAP> = ArrayString::new();
                normalize_url(u, &mut url);
                draw_preview_row(&mut out, "Open URL", url.as_str(), h, theme);
            } else {
                draw_results(&mut out, selected, results, h, theme);
            }
        },
        InputAction::AppSearch(_) => {
            draw_results(&mut out, selected, results, h, theme);
        },
    }
    proof {
        let f = FrameInput {
            input: input_text@,
            run: run@,
            search_enabled,
            rows: row_texts(results@),
            selected: selected as int,
            caret: *caret,
            heights: *h,
            theme: t,
        };
        law_a_frame_draws_with_its_palette(f);
        assert forall|i: int| 0 <= i < out@.len() implies paintable((#[trigger] out@[i])@) by {
            assert(steps(out@)[i] == out@[i]@);
            assert(in_palette(f.frame()[i], t));
        }
    }
    out
}

/// The pixels after one step, in a buffer that is `width` across. A line of
/// text is drawn with the glyphs in `run`, its baseline `ascent` below its top.
pub open spec fn painted(
    px: Seq<u32>,
    width: int,
    d: DrawView,
    run: Seq<Option<Drawn>>,
    ascent: int,
) -> Seq<u32> {
    match d {
        DrawView::Fill(color) => Seq::new(px.len(), |i: int| color),
        DrawView::Rect { x, y, w, h, color } => shm::with_rect(
            px,
            width,
            x as int,
            y as int,
            w as int,
            h as int,
            shm::drawn(color),
        ),
        DrawView::Stamp { x, y, w, h, color } => shm::with_rect(
            px,
            width,
            x as int,
            y as int,
            w as int,
            h as int,
            shm::stamped(color),
        ),
        DrawView::Text { x, y, text, size, color, max_width } => font::rendered(
            px,
            width,
            x + max_width,
            font::whole(64 * y + ascent),
            64 * x,
            run,
            color,
        ).0,
    }
}

/// Whether the right edge a line of text stops at can be worked out.
pub open spec fn paintable(d: DrawView) -> bool {
    d matches DrawView::Text { x, y, text, size, color, max_width } ==> x + max_width <= u32::MAX
}

/// Whether a step's right and bottom edges are within reach of a coordinate.
pub open spec fn within_reach(d: DrawView) -> bool {
    match d {
        DrawView::Fill(_) => true,
        DrawView::Rect { x, y, w, h, color } => x + w <= u32::MAX && y + h <= u32::MAX,
        DrawView::Stamp { x, y, w, h, color } => x + w <= u32::MAX && y + h <= u32::MAX,
        DrawView::Text { x, y, text, size, color, max_width } => x + max_width <= u32::MAX,
    }
}

/// Carry out one step of a frame. The glyphs of a line of text are handed in as
/// `run`; the other steps have none.
pub fn paint(
    buf: &mut PixelBuffer,
    step: &Draw,
    glyphs: &GlyphCache,
    run: &[Option<RunGlyph>],
    ascent: i32,
)
    requires
        old(buf).wf(),
        glyphs.wf(),
        glyphs.holds_all(run@),
        run@.len() <= i32::MAX,
        paintable(step@),
    ensures
        final(buf).wf(),
        final(buf).same_shape(old(buf)),
        final(buf).pixels@ == painted(
            old(buf).pixels@,
            old(buf).width as int,
            step@,
            glyphs.glyphs(run@),
            ascent as int,
        ),
{
    match step {
        Draw::Fill(color) => buf.fill(*color),
        Draw::Rect { x, y, w, h, color } => buf.fill_rect(*x, *y, *w, *h, *color),
        Draw::Stamp { x, y, w, h, color } => buf.stamp_rect(*x, *y, *w, *h, *color),
        Draw::Text { x, y, text: _, size: _, color, max_width } => {
            glyphs.render_text(buf, *x, *y, ascent, run, *color, *max_width);
        },
    }
}

/// The pixels after every step of a frame; step i's text is drawn with the
/// glyphs and the ascent in lines[i].
pub open spec fn picture(
    px: Seq<u32>,
    width: int,
    frame: Seq<DrawView>,
    lines: Seq<(Seq<Option<Drawn>>, int)>,
) -> Seq<u32>
    decreases frame.len(),
{
    if frame.len() == 0 {
        px
    } else {
        let n = frame.len() - 1;
        painted(
            picture(px, width, frame.drop_last(), lines),
            width,
            frame[n],
            lines[n].0,
            lines[n].1,
        )
    }
}

/// A step that draws with the colours of a palette, or their wash, within reach
/// of a coordinate.
pub open spec fn in_palette(d: DrawView, t: Palette) -> bool {
    &&& within_reach(d)
    &&& match d {
        DrawView::Fill(color) => color == t.background,
        DrawView::Rect { x, y, w, h, color } => color == t.selection || color == t.caret,
        DrawView::Stamp { x, y, w, h, color } => color == washed(t),
        DrawView::Text { x, y, text, size, color, max_width } => color == t.text || color
            == t.subtitle,
    }
}

pub open spec fn all_in_palette(s: Seq<DrawView>, t: Palette) -> bool {
    forall|i: int| 0 <= i < s.len() ==> in_palette(#[trigger] s[i], t)
}

proof fn lemma_units(v: int, unit: int)
    requires
        unit == 64 || unit == 128,
        v <= 0x1F_FFFF_FFFF,
    ensures
        units(v, unit) <= 0x7FFF_FFFF,
        v <= 0xF_FFFF_FFFF ==> units(v, unit) <= 0x3FFF_FFFF,
{
}

proof fn lemma_rows_in_palette(
    rows: Seq<(Seq<char>, Seq<char>)>,
    n: nat,
    selected: int,
    h: Heights,
    t: Palette,
)
    requires
        n <= MAX_RESULTS,
    ensures
        all_in_palette(results_steps(rows, n, selected, h, t), t),
    decreases n,
{
    if n > 0 {
        lemma_rows_in_palette(rows, (n - 1) as nat, selected, h, t);
        lemma_row_top(n - 1);
        assert(all_in_palette(result_steps(n - 1, rows[n - 1], selected, h, t), t));
    }
}

impl FrameInput {
    /// Inputs a frame can be drawn from.
    pub open spec fn wf(self) -> bool {
        self.heights.wf() && pen_fits(self.run)
    }
}

/// A frame starts by filling the buffer with the background, and draws nothing
/// but the palette's colours over it, each within reach of a coordinate.
pub proof fn law_a_frame_draws_with_its_palette(f: FrameInput)
    requires
        f.wf(),
    ensures
        f.frame().len() > 0,
        f.frame()[0] == DrawView::Fill(f.theme.background),
        all_in_palette(f.frame(), f.theme),
{
    let h = f.heights;
    let t = f.theme;
    lemma_units(64 * INPUT_BOX_H - h.input, 128);
    lemma_units(h.input as int, 64);
    lemma_units(pen_at(f.run, f.caret.offset), 64);
    let marked = selection_steps(f.run, f.caret.selection, h, t);
    assert(all_in_palette(marked, t)) by {
        if let Some((start, end)) = f.caret.selection {
            lemma_units(pen_at(f.run, start), 64);
            lemma_units(pen_at(f.run, end) - pen_at(f.run, start), 64);
        }
    }
    assert(all_in_palette(caret_steps(f.run, f.caret, h, t), t));
    lemma_rows_in_palette(f.rows, rows_drawn(f.rows.len() as int) as nat, f.selected, h, t);
    assert(all_in_palette(
        list_steps(f.input, f.search_enabled, f.rows, f.selected, h, t),
        t,
    ));
}

/// Drawing depends on what a step does, not on what the buffer held: after a
/// step that agrees, two buffers that agreed still do.
proof fn lemma_picture_after_a_fill(
    a: Seq<u32>,
    b: Seq<u32>,
    width: int,
    frame: Seq<DrawView>,
    lines: Seq<(Seq<Option<Drawn>>, int)>,
)
    requires
        a.len() == b.len(),
        frame.len() > 0,
        frame[0] is Fill,
    ensures
        picture(a, width, frame, lines) == picture(b, width, frame, lines),
    decreases frame.len(),
{
    if frame.len() > 1 {
        lemma_picture_after_a_fill(a, b, width, frame.drop_last(), lines);
    } else {
        reveal_with_fuel(picture, 2);
        assert(picture(a, width, frame, lines) =~= picture(b, width, frame, lines));
    }
}

/// A frame drawn into a reused buffer is the frame drawn into a clean one:
/// nothing of what the buffer held is left, so drawing a frame twice into one
/// buffer gives the same picture.
pub proof fn law_a_frame_replaces_the_last(
    f: FrameInput,
    a: Seq<u32>,
    b: Seq<u32>,
    width: int,
    lines: Seq<(Seq<Option<Drawn>>, int)>,
)
    requires
        f.wf(),
        a.len() == b.len(),
    ensures
        picture(a, width, f.frame(), lines) == picture(b, width, f.frame(), lines),
        picture(picture(a, width, f.frame(), lines), width, f.frame(), lines) == picture(
            a,
            width,
            f.frame(),
            lines,
        ),
{
    law_a_frame_draws_with_its_palette(f);
    lemma_picture_after_a_fill(a, b, width, f.frame(), lines);
    lemma_picture_len(a, width, f.frame(), lines);
    lemma_picture_after_a_fill(
        picture(a, width, f.frame(), lines),
        a,
        width,
        f.frame(),
        lines,
    );
}

proof fn lemma_rendered_len(
    px: Seq<u32>,
    width: int,
    end: int,
    baseline: int,
    pen: int,
    run: Seq<Option<Drawn>>,
    color: u32,
)
    ensures
        font::rendered(px, width, end, baseline, pen, run, color).0.len() == px.len(),
    decreases run.len(),
{
    if run.len() > 0 {
        match run[0] {
            None => lemma_rendered_len(px, width, end, baseline, pen, run.drop_first(), color),
            Some(g) => {
                let next = font::blitted(
                    px,
                    width,
                    end,
                    font::whole(pen) + g.left,
                    baseline - g.top,
                    g,
                    color,
                );
                lemma_rendered_len(
                    next,
                    width,
                    end,
                    baseline,
                    pen + g.advance,
                    run.drop_first(),
                    color,
                );
            },
        }
    }
}

proof fn lemma_picture_len(
    px: Seq<u32>,
    width: int,
    frame: Seq<DrawView>,
    lines: Seq<(Seq<Option<Drawn>>, int)>,
)
    ensures
        picture(px, width, frame, lines).len() == px.len(),
    decreases frame.len(),
{
    if frame.len() > 0 {
        lemma_picture_len(px, width, frame.drop_last(), lines);
        let n = frame.len() - 1;
        if let DrawView::Text { x, y, text, size, color, max_width } = frame[n] {
            lemma_rendered_len(
                picture(px, width, frame.drop_last(), lines),
                width,
                x + max_width,
                font::whole(64 * y + lines[n].1),
                64 * x,
                lines[n].0,
                color,
            );
        }
    }
}

/// Pixels a compositor can read, none more see-through than a least alpha.
pub open spec fn solid(px: Seq<u32>, least: u32) -> bool {
    forall|i: int|
        0 <= i < px.len() ==> shm::premultiplied(#[trigger] px[i]) && shm::alpha(px[i]) >= least
}

proof fn lemma_rendered_solid(
    px: Seq<u32>,
    width: int,
    end: int,
    baseline: int,
    pen: int,
    run: Seq<Option<Drawn>>,
    color: u32,
    least: u32,
)
    requires
        solid(px, least),
        shm::premultiplied(color),
    ensures
        solid(font::rendered(px, width, end, baseline, pen, run, color).0, least),
    decreases run.len(),
{
    if run.len() > 0 {
        match run[0] {
            None => lemma_rendered_solid(
                px,
                width,
                end,
                baseline,
                pen,
                run.drop_first(),
                color,
                least,
            ),
            Some(g) => {
                let next = font::blitted(
                    px,
                    width,
                    end,
                    font::whole(pen) + g.left,
                    baseline - g.top,
                    g,
                    color,
                );
                assert forall|i: int| 0 <= i < next.len() implies shm::premultiplied(
                    #[trigger] next[i],
                ) && shm::alpha(next[i]) >= least by {
                    let c = shm::col_of(i, width) - (font::whole(pen) + g.left);
                    let r = shm::row_of(i, width) - (baseline - g.top);
                    let coverage = g.coverage[r * g.width + c];
                    shm::law_blend_stays_premultiplied(px[i], color, coverage);
                    shm::law_blend_never_clears(px[i], color, coverage);
                }
                lemma_rendered_solid(
                    next,
                    width,
                    end,
                    baseline,
                    pen + g.advance,
                    run.drop_first(),
                    color,
                    least,
                );
            },
        }
    }
}

proof fn lemma_drawn_solid(dst: u32, color: u32)
    requires
        shm::premultiplied(dst),
        shm::premultiplied(color),
    ensures
        shm::premultiplied(shm::drawn(color)(dst)),
        shm::alpha(shm::drawn(color)(dst)) >= shm::alpha(dst),
{
    shm::law_blend_stays_premultiplied(dst, color, 255);
    shm::law_blend_never_clears(dst, color, 255);
    shm::lemma_word_is_its_channels(color);
    shm::lemma_word_is_its_channels(dst);
}

proof fn lemma_picture_solid(
    px: Seq<u32>,
    width: int,
    frame: Seq<DrawView>,
    lines: Seq<(Seq<Option<Drawn>>, int)>,
    t: Palette,
)
    requires
        frame.len() > 0,
        frame[0] is Fill,
        all_in_palette(frame, t),
        config::drawable(t),
    ensures
        solid(picture(px, width, frame, lines), shm::alpha(t.background)),
    decreases frame.len(),
{
    let least = shm::alpha(t.background);
    let n = frame.len() - 1;
    assert(in_palette(frame[n], t));
    shm::law_blend_stays_premultiplied(t.background, t.highlight, 255);
    shm::law_blend_never_clears(t.background, t.highlight, 255);
    if n > 0 {
        lemma_picture_solid(px, width, frame.drop_last(), lines, t);
        let before = picture(px, width, frame.drop_last(), lines);
        let after = picture(px, width, frame, lines);
        match frame[n] {
            DrawView::Text { x, y, text, size, color, max_width } => {
                lemma_rendered_solid(
                    before,
                    width,
                    x + max_width,
                    font::whole(64 * y + lines[n].1),
                    64 * x,
                    lines[n].0,
                    color,
                    least,
                );
            },
            DrawView::Rect { x, y, w, h, color } => {
                assert forall|i: int| 0 <= i < after.len() implies shm::premultiplied(
                    #[trigger] after[i],
                ) && shm::alpha(after[i]) >= least by {
                    assert(shm::premultiplied(before[i]));
                    lemma_drawn_solid(before[i], color);
                }
            },
            _ => {},
        }
    } else {
        reveal_with_fuel(picture, 2);
    }
}

/// Nothing in a frame is more see-through than the background asked to be, and
/// every pixel is premultiplied: a colour the compositor can read.
pub proof fn law_a_frame_is_as_see_through_as_its_background(
    f: FrameInput,
    px: Seq<u32>,
    width: int,
    lines: Seq<(Seq<Option<Drawn>>, int)>,
)
    requires
        f.wf(),
        config::drawable(f.theme),
    ensures
        solid(picture(px, width, f.frame(), lines), shm::alpha(f.theme.background)),
{
    law_a_frame_draws_with_its_palette(f);
    lemma_picture_solid(px, width, f.frame(), lines, f.theme);
}

/// Stamping the wash over the background is drawing the highlight over it.
pub proof fn law_the_wash_is_the_highlight_over_the_background(t: Palette)
    requires
        config::drawable(t),
    ensures
        washed(t) == shm::drawn(t.highlight)(t.background),
{
    shm::lemma_word_is_its_channels(t.highlight);
    if t.highlight >> 24 == 0 {
        assert(t.highlight == 0) by {
            assert(0u32 << 24 | 0u32 << 16 | 0u32 << 8 | 0u32 == 0u32) by (bit_vector);
        }
        shm::law_blend_covering_nothing(t.background, 0, 255);
    } else if t.highlight >> 24 == 0xFF {
        shm::law_blend_of_an_opaque_source(t.background, t.highlight);
    }
}

} // verus!
