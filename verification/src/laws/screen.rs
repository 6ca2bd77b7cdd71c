//! What is where on the screen.
use vstd::prelude::*;

use crate::action;
use crate::action::ActionView;
use crate::app;
use crate::client::Pointer;
use crate::desktop;
use crate::font;
use crate::font::Drawn;
use crate::laws::colours;
use crate::platform::wire::Fixed;
use crate::shm;
use crate::theme::Palette;
use crate::ui;
use crate::ui::{DrawView, FrameInput, Heights};

verus! {

/// A position on the screen is on a result row exactly when it is inside the
/// window from side to side and between the row's top and the next row's: the
/// first row starts below the input box, and each is as high as the others.
pub proof fn law_the_row_under_a_position(x: Fixed, y: Fixed, results: int, row: int)
    requires
        results >= 0,
    ensures
        ui::row_under(x, y, results) == Some(row) <==> {
            &&& 0 <= row < 5
            &&& row < results
            &&& 0 <= x.raw < 800 * 256
            &&& (54 + 50 * row) * 256 <= y.raw < (54 + 50 * (row + 1)) * 256
        },
{
}

/// A position is in the input where it is right of the text's start, inside the
/// window and above the rows.
pub proof fn law_the_input_under_a_position(x: Fixed, y: Fixed)
    ensures
        ui::in_input_box(x, y) <==> 15 * 256 <= x.raw < 800 * 256 && 0 <= y.raw < 54 * 256,
        forall|n: int|
            n >= 0 && ui::in_input_box(x, y) ==> (#[trigger] ui::row_under(x, y, n)) is None,
{
}

/// The pointer's place in the text is how far it is right of the text's start,
/// or the start left of that.
pub proof fn law_the_pointers_place_in_the_text(p: Pointer)
    ensures
        p.x.raw >= 15 * 256 ==> app::text_offset(p) == p.x.raw - 15 * 256,
        p.x.raw < 15 * 256 ==> app::text_offset(p) == 0,
{
}

/// The caret stands behind the advances of the characters before it.
pub proof fn law_the_caret_stands_behind_its_text(a: Seq<int>, b: Seq<int>, n: int)
    ensures
        font::caret_x(a + b) == font::caret_x(a) + font::caret_x(b),
        font::caret_x(seq![n]) == n,
        font::caret_x(Seq::empty()) == 0,
    decreases b.len(),
{
    reveal_with_fuel(font::caret_x, 2);
    assert(seq![n].drop_last() =~= Seq::<int>::empty());
    if b.len() == 0 {
        assert(a + b =~= a);
    } else {
        law_the_caret_stands_behind_its_text(a, b.drop_last(), n);
        assert((a + b).drop_last() =~= a + b.drop_last());
    }
}

/// A click lands before the first character whose middle it is left of: the
/// middle of every character before is at or left of it. Positions are in 256ths
/// of a pixel and advances in 64ths.
pub proof fn law_a_click_lands_between_the_middles(advances: Seq<int>, x: int)
    ensures
        ({
            let k = font::offset_at(advances, 0, x);
            &&& 0 <= k <= advances.len()
            &&& k < advances.len() ==> x < 4 * font::caret_x(advances.take(k)) + 2 * advances[k]
            &&& forall|j: int|
                0 <= j < k ==> x >= 4 * font::caret_x(#[trigger] advances.take(j)) + 2
                    * advances[j]
        }),
{
    lemma_offset(advances, 0, x);
}

proof fn lemma_offset(advances: Seq<int>, pen: int, x: int)
    ensures
        ({
            let k = font::offset_at(advances, pen, x);
            &&& 0 <= k <= advances.len()
            &&& k < advances.len() ==> x < 4 * (pen + font::caret_x(advances.take(k))) + 2
                * advances[k]
            &&& forall|j: int|
                0 <= j < k ==> x >= 4 * (pen + font::caret_x(#[trigger] advances.take(j))) + 2
                    * advances[j]
        }),
    decreases advances.len(),
{
    let k = font::offset_at(advances, pen, x);
    if advances.len() == 0 || x < 4 * pen + 2 * advances[0] {
        assert(advances.take(0) =~= Seq::<int>::empty());
    } else {
        let rest = advances.drop_first();
        lemma_offset(rest, pen + advances[0], x);
        assert forall|j: int| 0 < j <= advances.len() implies font::caret_x(
            #[trigger] advances.take(j),
        ) == advances[0] + font::caret_x(rest.take(j - 1)) by {
            assert(advances.take(j) =~= seq![advances[0]] + rest.take(j - 1));
            law_the_caret_stands_behind_its_text(seq![advances[0]], rest.take(j - 1), advances[0]);
        }
        if k < advances.len() {
            assert(rest[k - 1] == advances[k]);
            assert(font::caret_x(advances.take(k)) == advances[0] + font::caret_x(
                rest.take(k - 1),
            ));
        }
        assert forall|j: int| 0 <= j < k implies x >= 4 * (pen + font::caret_x(
            #[trigger] advances.take(j),
        )) + 2 * advances[j] by {
            if j == 0 {
                assert(advances.take(0) =~= Seq::<int>::empty());
            } else {
                assert(rest[j - 1] == advances[j]);
                assert(x >= 4 * (pen + advances[0] + font::caret_x(rest.take(j - 1))) + 2 * rest[j
                    - 1]);
            }
        }
    }
}

/// Changing a rectangle changes the pixels inside it and no others.
pub proof fn law_a_rectangle_is_its_rows_and_columns(
    px: Seq<u32>,
    width: int,
    x: int,
    y: int,
    w: int,
    h: int,
    color: u32,
    col: int,
    row: int,
)
    requires
        0 <= col < width,
        0 <= row,
        row * width + col < px.len(),
    ensures
        ({
            let at = row * width + col;
            let inside = x <= col < x + w && y <= row < y + h;
            let stamped = shm::with_rect(px, width, x, y, w, h, shm::stamped(color));
            let drawn = shm::with_rect(px, width, x, y, w, h, shm::drawn(color));
            &&& stamped.len() == px.len() && drawn.len() == px.len()
            &&& inside ==> stamped[at] == color && drawn[at] == shm::drawn(color)(px[at])
            &&& !inside ==> stamped[at] == px[at] && drawn[at] == px[at]
        }),
{
    lemma_split(row, width, col);
}

proof fn lemma_split(row: int, width: int, col: int)
    requires
        0 <= col < width,
        0 <= row,
    ensures
        0 <= row * width + col,
        shm::col_of(row * width + col, width) == col,
        shm::row_of(row * width + col, width) == row,
{
    vstd::arithmetic::div_mod::lemma_fundamental_div_mod_converse(
        row * width + col,
        width,
        row,
        col,
    );
    assert(0 <= row * width) by (nonlinear_arith)
        requires
            0 <= row,
            0 <= width,
    ;
}

/// A glyph puts its coverage where it stands: a pixel under it left of the clip
/// is blended with the colour by the glyph's coverage there, and every other
/// pixel is left.
pub proof fn law_a_glyph_covers_what_is_under_it(
    px: Seq<u32>,
    width: int,
    clip: int,
    gx: int,
    gy: int,
    g: Drawn,
    color: u32,
    col: int,
    row: int,
)
    requires
        0 <= col < width,
        0 <= row,
        row * width + col < px.len(),
        g.coverage.len() >= g.width * g.rows,
    ensures
        ({
            let at = row * width + col;
            let after = font::blitted(px, width, clip, gx, gy, g, color);
            let under = gx <= col < gx + g.width && gy <= row < gy + g.rows && col < clip;
            &&& after.len() == px.len()
            &&& under ==> after[at] == shm::blended(
                px[at],
                color,
                g.coverage[(row - gy) * g.width + (col - gx)],
            )
            &&& !under ==> after[at] == px[at]
        }),
{
    lemma_split(row, width, col);
}

/// How far glyphs move the pen.
pub open spec fn travel(run: Seq<Option<Drawn>>) -> int
    decreases run.len(),
{
    if run.len() == 0 {
        0
    } else {
        travel(run.drop_last()) + match run.last() {
            Some(g) => g.advance,
            None => 0,
        }
    }
}

/// The pen stays within the line over a run of glyphs.
pub open spec fn stays_within(run: Seq<Option<Drawn>>, pen: int, end: int) -> bool {
    forall|k: int|
        0 <= k < run.len() && (#[trigger] run[k]) is Some ==> pen + travel(run.take(k + 1)) <= 64
            * end
}

/// Text is drawn glyph by glyph from the left: a further glyph that stays within
/// the line stands where those before it have moved the pen, its top above the
/// baseline, and moves it on by its advance; one that does not is not drawn.
pub proof fn law_a_glyph_stands_behind_those_before_it(
    px: Seq<u32>,
    width: int,
    end: int,
    baseline: int,
    pen: int,
    run: Seq<Option<Drawn>>,
    g: Drawn,
    color: u32,
)
    requires
        stays_within(run, pen, end),
    ensures
        ({
            let before = font::rendered(px, width, end, baseline, pen, run, color);
            let after = font::rendered(px, width, end, baseline, pen, run.push(Some(g)), color);
            let at = pen + travel(run);
            &&& before.1 == at
            &&& at + g.advance <= 64 * end ==> after == (
                font::blitted(
                    before.0,
                    width,
                    end,
                    font::whole(at) + g.left,
                    baseline - g.top,
                    g,
                    color,
                ),
                at + g.advance,
            )
            &&& at + g.advance > 64 * end ==> after == before
        }),
    decreases run.len(),
{
    let longer = run.push(Some(g));
    if run.len() == 0 {
        assert(longer.drop_first() =~= Seq::<Option<Drawn>>::empty());
        reveal_with_fuel(font::rendered, 2);
    } else {
        let rest = run.drop_first();
        assert(longer.drop_first() =~= rest.push(Some(g)));
        assert(longer[0] == run[0]);
        let step = match run[0] {
            Some(f) => f.advance,
            None => 0,
        };
        assert forall|k: int| 0 <= k <= rest.len() implies travel(#[trigger] rest.take(k)) + step
            == travel(run.take(k + 1)) by {
            lemma_travel(run.take(k + 1));
            assert(run.take(k + 1).drop_first() =~= rest.take(k));
        }
        assert(rest.take(rest.len() as int) =~= rest);
        assert(run.take(run.len() as int) =~= run);
        assert(travel(rest) + step == travel(run));
        assert forall|k: int| 0 <= k < rest.len() && (#[trigger] rest[k]) is Some implies pen + step
            + travel(rest.take(k + 1)) <= 64 * end by {
            assert(run[k + 1] == rest[k]);
            assert(travel(rest.take(k + 1)) + step == travel(run.take(k + 2)));
        }
        match run[0] {
            None => {
                law_a_glyph_stands_behind_those_before_it(
                    px,
                    width,
                    end,
                    baseline,
                    pen,
                    rest,
                    g,
                    color,
                );
            },
            Some(f) => {
                assert(pen + travel(run.take(1)) <= 64 * end);
                assert(run.take(1).drop_last() =~= Seq::<Option<Drawn>>::empty());
                assert(run.take(1).last() == run[0]);
                reveal_with_fuel(travel, 2);
                let next = font::blitted(
                    px,
                    width,
                    end,
                    font::whole(pen) + f.left,
                    baseline - f.top,
                    f,
                    color,
                );
                law_a_glyph_stands_behind_those_before_it(
                    next,
                    width,
                    end,
                    baseline,
                    pen + f.advance,
                    rest,
                    g,
                    color,
                );
            },
        }
    }
}

proof fn lemma_travel(run: Seq<Option<Drawn>>)
    requires
        run.len() > 0,
    ensures
        travel(run) == travel(run.drop_first()) + match run[0] {
            Some(g) => g.advance,
            None => 0,
        },
    decreases run.len(),
{
    reveal_with_fuel(travel, 2);
    if run.len() > 1 {
        lemma_travel(run.drop_last());
        assert(run.drop_last().drop_first() =~= run.drop_first().drop_last());
    }
}

/// Lengths in 64ths come to whole pixels towards zero.
pub proof fn law_whole_pixels(v: int)
    ensures
        v >= 0 ==> 64 * font::whole(v) <= v < 64 * font::whole(v) + 64,
        v <= 0 ==> 64 * font::whole(v) - 64 < v <= 64 * font::whole(v),
{
}

/// A pixel with a colour over it: each channel is the colour's by its coverage
/// and what was there by what the coverage of the alpha leaves, in 255ths.
pub proof fn law_a_colour_over_a_pixel(dst: u32, src: u32, coverage: u8)
    requires
        shm::premultiplied(src),
    ensures
        ({
            let left = 255 - shm::alpha(src) * coverage / 255;
            exists|a: int, r: int, g: int, b: int|
                shm::blended(dst, src, coverage) == #[trigger] colours::word(a, r, g, b)
                    && is_255th(a, shm::alpha(src) * coverage + shm::alpha(dst) * left) && is_255th(
                    r,
                    shm::red(src) * coverage + shm::red(dst) * left,
                ) && is_255th(g, shm::green(src) * coverage + shm::green(dst) * left) && is_255th(
                    b,
                    shm::blue(src) * coverage + shm::blue(dst) * left,
                )
        }),
{
    let cov = coverage as u32;
    let sa = shm::alpha(src);
    shm::lemma_word_is_its_channels(dst);
    shm::lemma_word_is_its_channels(src);
    lemma_mixed(shm::alpha(dst), sa, cov, sa);
    lemma_mixed(shm::red(dst), shm::red(src), cov, sa);
    lemma_mixed(shm::green(dst), shm::green(src), cov, sa);
    lemma_mixed(shm::blue(dst), shm::blue(src), cov, sa);
    let a = shm::mixed(shm::alpha(dst), sa, cov, sa);
    let r = shm::mixed(shm::red(dst), shm::red(src), cov, sa);
    let g = shm::mixed(shm::green(dst), shm::green(src), cov, sa);
    let b = shm::mixed(shm::blue(dst), shm::blue(src), cov, sa);
    assert((a & 0xFF) << 24 | (r & 0xFF) << 16 | (g & 0xFF) << 8 | (b & 0xFF) == (a & 0xFF)
        * 0x1000000 + (r & 0xFF) * 0x10000 + (g & 0xFF) * 0x100 + (b & 0xFF)) by (bit_vector);
    assert(a <= 255 && r <= 255 && g <= 255 && b <= 255 ==> a & 0xFF == a && r & 0xFF == r && g
        & 0xFF == g && b & 0xFF == b) by (bit_vector);
    assert(shm::blended(dst, src, coverage) == colours::word(
        a as int,
        r as int,
        g as int,
        b as int,
    ));
}

/// A number is a 255th of another, rounded down.
pub open spec fn is_255th(n: int, of: int) -> bool {
    255 * n <= of < 255 * n + 255
}

proof fn lemma_mixed(dst: u32, src: u32, cov: u32, sa: u32)
    requires
        dst <= 255,
        src <= 255,
        cov <= 255,
        src <= sa <= 255,
    ensures
        shm::mixed(dst, src, cov, sa) <= 255,
        is_255th(
            shm::mixed(dst, src, cov, sa) as int,
            src * cov + dst * (255 - sa * cov / 255),
        ),
{
    assert(0 <= sa * cov <= 65025) by (nonlinear_arith)
        requires
            sa <= 255,
            cov <= 255,
    ;
    assert(0 <= src * cov <= 65025) by (nonlinear_arith)
        requires
            src <= 255,
            cov <= 255,
    ;
    assert(src * cov <= sa * cov) by (nonlinear_arith)
        requires
            src <= sa,
    ;
    let inv = 255 - sa * cov / 255;
    assert(0 <= dst * inv <= 255 * inv) by (nonlinear_arith)
        requires
            dst <= 255,
            0 <= inv <= 255,
    ;
}

/// A line of text at a height, as every line is drawn: from the text's start and
/// no wider than the text may be.
pub open spec fn text_at(y: int, s: Seq<char>, size: u32, color: u32) -> DrawView {
    DrawView::Text { x: 15, y: y as u32, text: s, size, color, max_width: 670 }
}

/// Whether two lines stand in a row as they should: one under the other with two
/// pixels between them, and as far from the row's top as from its bottom, to the
/// pixel.
pub open spec fn centred(top: int, title: int, subtitle: int, h: Heights) -> bool {
    let block = h.name + 128 + h.subtitle;
    &&& title <= top + 25 - block / 128 <= title + 1
    &&& -1 <= subtitle - title - (h.name + 128) / 64 <= 1
}

proof fn lemma_row(y: int, title: Seq<char>, subtitle: Seq<char>, h: Heights, t: Palette)
    requires
        54 <= y <= 254,
        0 <= h.name,
        0 <= h.subtitle,
        h.name + 128 + h.subtitle <= 3200,
    ensures
        ({
            let s = ui::row_steps(y, title, subtitle, h, t);
            exists|a: int, b: int| #[trigger]
                centred(y, a, b, h) && 0 <= a && s == seq![
                    text_at(a, title, 16, t.text),
                    text_at(b, subtitle, 14, t.subtitle),
                ]
        }),
{
    let top = 128 * y + 64 * ui::RESULT_HEIGHT - ui::block_h(h);
    let a = ui::units(top, 128) as int;
    let b = ui::units(top + 2 * h.name + 256, 128) as int;
    let s = ui::row_steps(y, title, subtitle, h, t);
    assert(s[0] == text_at(a, title, 16, t.text));
    assert(s[1] == text_at(b, subtitle, 14, t.subtitle));
    assert(s =~= seq![text_at(a, title, 16, t.text), text_at(b, subtitle, 14, t.subtitle)]);
    assert(centred(y, a, b, h));
}

/// The steps that draw one row: its title and under it its subtitle, centred in
/// the row.
pub open spec fn draws_row(
    s: Seq<DrawView>,
    top: int,
    title: Seq<char>,
    subtitle: Seq<char>,
    h: Heights,
    t: Palette,
) -> bool {
    exists|a: int, b: int| #[trigger]
        centred(top, a, b, h) && s.contains(text_at(a, title, 16, t.text)) && s.contains(
            text_at(b, subtitle, 14, t.subtitle),
        )
}

/// The wash over a row.
pub open spec fn wash_at(top: int, t: Palette) -> DrawView {
    DrawView::Stamp {
        x: 0,
        y: top as u32,
        w: 800,
        h: 50,
        color: shm::blended(t.background, t.highlight, 255),
    }
}

proof fn lemma_contains(a: Seq<DrawView>, b: Seq<DrawView>, d: DrawView)
    ensures
        (a + b).contains(d) <==> a.contains(d) || b.contains(d),
{
    let s = a + b;
    if a.contains(d) {
        let i = choose|i: int| 0 <= i < a.len() && a[i] == d;
        assert(s[i] == d);
    }
    if b.contains(d) {
        let i = choose|i: int| 0 <= i < b.len() && b[i] == d;
        assert(s[a.len() + i] == d);
    }
    if s.contains(d) {
        let i = choose|i: int| 0 <= i < s.len() && s[i] == d;
        if i < a.len() {
            assert(a[i] == d);
        } else {
            assert(b[i - a.len()] == d);
        }
    }
}

/// A list of results draws each row it has room for: the application's name, and
/// under it its command line, in the row of its place. The row that is selected
/// has the wash over it and no other row does.
pub proof fn law_a_list_draws_each_row_in_its_place(
    rows: Seq<(Seq<char>, Seq<char>)>,
    n: nat,
    selected: int,
    h: Heights,
    t: Palette,
    row: int,
)
    requires
        n <= 5,
        n <= rows.len(),
        0 <= row < n,
        0 <= h.name,
        0 <= h.subtitle,
        h.name + 128 + h.subtitle <= 3200,
    ensures
        ({
            let s = ui::results_steps(rows, n, selected, h, t);
            let top = 54 + 50 * row;
            &&& draws_row(
                s,
                top,
                rows[row].0,
                desktop::joined(desktop::exec_args(rows[row].1), 0, Seq::empty()),
                h,
                t,
            )
            &&& s.contains(wash_at(top, t)) <==> row == selected
        }),
    decreases n,
{
    lemma_rows_drawn(rows, n, selected, h, t, row);
}

proof fn lemma_rows_drawn(
    rows: Seq<(Seq<char>, Seq<char>)>,
    n: nat,
    selected: int,
    h: Heights,
    t: Palette,
    row: int,
)
    requires
        n <= 5,
        n <= rows.len(),
        0 <= row < 5,
        0 <= h.name,
        0 <= h.subtitle,
        h.name + 128 + h.subtitle <= 3200,
    ensures
        ({
            let s = ui::results_steps(rows, n, selected, h, t);
            let top = 54 + 50 * row;
            &&& row < n ==> draws_row(
                s,
                top,
                rows[row].0,
                desktop::joined(desktop::exec_args(rows[row].1), 0, Seq::empty()),
                h,
                t,
            )
            &&& s.contains(wash_at(top, t)) <==> row == selected && row < n
        }),
    decreases n,
{
    let s = ui::results_steps(rows, n, selected, h, t);
    let top = 54 + 50 * row;
    let wash = wash_at(top, t);
    if n > 0 {
        let last = n - 1;
        lemma_rows_drawn(rows, last as nat, selected, h, t, row);
        let before = ui::results_steps(rows, last as nat, selected, h, t);
        let mine = ui::result_steps(last, rows[last], selected, h, t);
        let here = 54 + 50 * last;
        let line = desktop::joined(desktop::exec_args(rows[last].1), 0, Seq::empty());
        lemma_row(here, rows[last].0, line, h, t);
        let text = ui::row_steps(here, rows[last].0, line, h, t);
        let (a, b) = choose|a: int, b: int| #[trigger]
            centred(here, a, b, h) && 0 <= a && text == seq![
                text_at(a, rows[last].0, 16, t.text),
                text_at(b, line, 14, t.subtitle),
            ];
        let washes = if last == selected {
            seq![ui::wash_step(ui::row_top(last), t)]
        } else {
            Seq::<DrawView>::empty()
        };
        assert(mine == washes + text);
        lemma_contains(before, mine, wash);
        lemma_contains(washes, text, wash);
        assert(!text.contains(wash)) by {
            if text.contains(wash) {
                let i = choose|i: int| 0 <= i < text.len() && text[i] == wash;
                assert(text[0] is Text && text[1] is Text);
            }
        }
        assert(washes.contains(wash) <==> last == selected && last == row) by {
            if last == selected {
                assert(washes[0] == wash_at(here, t));
                if last == row {
                    assert(washes.contains(washes[0]));
                }
                if washes.contains(wash) {
                    let i = choose|i: int| 0 <= i < washes.len() && washes[i] == wash;
                    assert(i == 0);
                    assert(wash_at(here, t)->Stamp_y == wash_at(top, t)->Stamp_y);
                }
            }
        }
        if row == last {
            let p = text_at(a, rows[last].0, 16, t.text);
            let q = text_at(b, line, 14, t.subtitle);
            assert(text[0] == p && text[1] == q);
            assert(text.contains(p) && text.contains(q));
            lemma_contains(washes, text, p);
            lemma_contains(washes, text, q);
            lemma_contains(before, mine, p);
            lemma_contains(before, mine, q);
            assert(centred(top, a, b, h));
        } else if row < last {
            let line = desktop::joined(desktop::exec_args(rows[row].1), 0, Seq::empty());
            let (a, b) = choose|a: int, b: int| #[trigger]
                centred(top, a, b, h) && before.contains(text_at(a, rows[row].0, 16, t.text))
                    && before.contains(text_at(b, line, 14, t.subtitle));
            lemma_contains(before, mine, text_at(a, rows[row].0, 16, t.text));
            lemma_contains(before, mine, text_at(b, line, 14, t.subtitle));
            assert(centred(top, a, b, h));
        }
    }
}

/// What a frame draws for its input: five rows of results at most for a search of
/// the applications, and one washed row that says what a prefix does with the
/// text behind it.
pub proof fn law_a_frame_shows_what_the_input_does(
    input: Seq<char>,
    enabled: bool,
    rows: Seq<(Seq<char>, Seq<char>)>,
    selected: int,
    h: Heights,
    t: Palette,
)
    requires
        0 <= h.name,
        0 <= h.subtitle,
        h.name + 128 + h.subtitle <= 3200,
    ensures
        ({
            let s = ui::list_steps(input, enabled, rows, selected, h, t);
            match action::action_of(input, enabled) {
                ActionView::AppSearch(_) => s == ui::results_steps(
                    rows,
                    if rows.len() < 5 {
                        rows.len()
                    } else {
                        5
                    },
                    selected,
                    h,
                    t,
                ),
                ActionView::Search(q) => q.len() > 0 ==> s[0] == wash_at(54, t) && draws_row(
                    s,
                    54,
                    "Web search"@,
                    q,
                    h,
                    t,
                ),
                ActionView::OpenUrl(u) => u.len() > 0 ==> s[0] == wash_at(54, t) && draws_row(
                    s,
                    54,
                    "Open URL"@,
                    action::normalized(Seq::empty(), u),
                    h,
                    t,
                ),
            }
        }),
{
    match action::action_of(input, enabled) {
        ActionView::AppSearch(_) => {},
        ActionView::Search(q) => lemma_preview("Web search"@, q, h, t),
        ActionView::OpenUrl(u) => lemma_preview(
            "Open URL"@,
            action::normalized(Seq::empty(), u),
            h,
            t,
        ),
    }
}

proof fn lemma_preview(title: Seq<char>, subtitle: Seq<char>, h: Heights, t: Palette)
    requires
        0 <= h.name,
        0 <= h.subtitle,
        h.name + 128 + h.subtitle <= 3200,
    ensures
        ui::preview_steps(title, subtitle, h, t)[0] == wash_at(54, t),
        draws_row(ui::preview_steps(title, subtitle, h, t), 54, title, subtitle, h, t),
{
    lemma_row(54, title, subtitle, h, t);
    let text = ui::row_steps(54, title, subtitle, h, t);
    let (a, b) = choose|a: int, b: int| #[trigger]
        centred(54, a, b, h) && 0 <= a && text == seq![
            text_at(a, title, 16, t.text),
            text_at(b, subtitle, 14, t.subtitle),
        ];
    let washes = seq![ui::wash_step(54, t)];
    assert(text[0] == text_at(a, title, 16, t.text));
    assert(text[1] == text_at(b, subtitle, 14, t.subtitle));
    assert(text.contains(text[0]) && text.contains(text[1]));
    lemma_contains(washes, text, text[0]);
    lemma_contains(washes, text, text[1]);
    assert(centred(54, a, b, h));
}

/// A frame fills the window with the background first. The caret, where it shows,
/// is two pixels wide and stands in the text's colour of carets behind the
/// characters before it; what is selected is marked from its first character to
/// its last, under the text.
pub proof fn law_a_frame_marks_the_caret_and_the_selection(f: FrameInput)
    requires
        f.wf(),
    ensures
        ({
            let s = f.frame();
            let pen = |k: usize|
                font::caret_x(
                    font::advances(f.run).take(
                        if k < f.run.len() {
                            k as int
                        } else {
                            f.run.len() as int
                        },
                    ),
                );
            &&& s[0] == DrawView::Fill(f.theme.background)
            &&& f.caret.visible && pen(f.caret.offset) >= 0 ==> exists|i: int|
                #![trigger s[i]]
                0 < i < s.len() && (s[i] matches DrawView::Rect { x, y, w, h, color } && w == 2
                    && color == f.theme.caret && 64 * (x - 15) <= pen(f.caret.offset) < 64 * (x
                    - 15) + 64)
            &&& (f.caret.selection matches Some((a, b)) && pen(a) >= 0 && pen(b) - pen(a) >= 64)
                ==> (s[1] matches DrawView::Rect { x, y, w, h, color } && color
                == f.theme.selection && 64 * (x - 15) <= pen((f.caret.selection->0).0) < 64 * (x - 15)
                + 64 && 64 * w <= pen((f.caret.selection->0).1) - pen((f.caret.selection->0).0) < 64 * w
                + 64)
        }),
{
    let s = f.frame();
    let h = f.heights;
    let t = f.theme;
    let marks = ui::selection_steps(f.run, f.caret.selection, h, t);
    let text = ui::input_steps(f.input, h, t);
    let carets = ui::caret_steps(f.run, f.caret, h, t);
    let rest = ui::list_steps(f.input, f.search_enabled, f.rows, f.selected, h, t);
    let fill = seq![DrawView::Fill(t.background)];
    assert(s == fill + marks + text + carets + rest);
    let n = font::advances(f.run).len();
    assert(n == f.run.len());
    if f.caret.visible {
        let i = 1 + marks.len() + text.len();
        assert(s[i as int] == carets[0]);
        lemma_pen(f, f.caret.offset);
    }
    if let Some((a, b)) = f.caret.selection {
        lemma_pen(f, a);
        lemma_pen(f, b);
        if ui::pen_at(f.run, a) >= 0 && ui::pen_at(f.run, b) - ui::pen_at(f.run, a) >= 64 {
            assert(s[1] == marks[0]);
        }
    }
}

proof fn lemma_pen(f: FrameInput, k: usize)
    requires
        f.wf(),
    ensures
        -0xF_FFFF_FFFF <= ui::pen_at(f.run, k) <= 0xF_FFFF_FFFF,
{
    let m = if k < f.run.len() {
        k as int
    } else {
        f.run.len() as int
    };
    assert(-0xF_FFFF_FFFF <= font::caret_x(font::advances(f.run).take(m)) <= 0xF_FFFF_FFFF);
}

/// There are as many rows to pick from as are drawn: the results, five at most,
/// or the one that says what a prefix does, once there is text behind it.
pub proof fn law_the_rows_to_pick_from(input: Seq<char>, enabled: bool, listed: int)
    requires
        listed >= 0,
    ensures
        ({
            let n = app::row_count(input, enabled, listed);
            match action::action_of(input, enabled) {
                ActionView::AppSearch(_) => n <= listed && n <= 5 && (n == listed || n == 5),
                ActionView::Search(q) => n == 1 && q.len() > 0 || n == 0 && q.len() == 0,
                ActionView::OpenUrl(u) => n == 1 && u.len() > 0 || n == 0 && u.len() == 0,
            }
        }),
{
}

/// The input's text and the caret behind it stand in the middle of the input box,
/// and the caret is as high as the text.
pub proof fn law_the_input_stands_in_the_middle_of_its_box(f: FrameInput)
    requires
        f.wf(),
        0 <= f.heights.input <= 3456,
    ensures
        ({
            let s = f.frame();
            let y = (3456 - f.heights.input) / 128;
            &&& f.input.len() > 0 ==> s.contains(text_at(y, f.input, 20, f.theme.text))
            &&& f.caret.visible ==> exists|i: int|
                #![trigger s[i]]
                0 < i < s.len() && (s[i] matches DrawView::Rect { x, y: top, w, h, color } && top
                    == y && h == f.heights.input / 64 && color == f.theme.caret)
        }),
{
    let s = f.frame();
    let h = f.heights;
    let t = f.theme;
    let marks = ui::selection_steps(f.run, f.caret.selection, h, t);
    let text = ui::input_steps(f.input, h, t);
    let carets = ui::caret_steps(f.run, f.caret, h, t);
    let rest = ui::list_steps(f.input, f.search_enabled, f.rows, f.selected, h, t);
    let fill = seq![DrawView::Fill(t.background)];
    assert(s == fill + marks + text + carets + rest);
    if f.input.len() > 0 {
        let i = 1 + marks.len() as int;
        assert(s[i] == text[0]);
    }
    if f.caret.visible {
        let i = 1 + marks.len() as int + text.len() as int;
        assert(s[i] == carets[0]);
    }
}

/// A glyph comes back out of the cache only for the character and the size it was
/// drawn for.
pub proof fn law_a_cached_glyph_is_the_one_asked_for(cache: font::GlyphCache, ch: char, px: u32)
    ensures
        cache.cached(ch, px) matches Some(c) ==> c.ch == ch && c.px == px,
{
}

} // verus!
