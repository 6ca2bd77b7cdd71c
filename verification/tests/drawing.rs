use bnklaunch::desktop::DesktopEntry;
use bnklaunch::font::{
    char_offset_at_x, font_rank, font_roots, preferred_font, text_height, x_at_char_offset,
    FontHits, GlyphCache, RunGlyph, INK_CAP, INPUT_SIZE, NAME_SIZE, PREFERRED_COUNT, SUBTITLE_SIZE,
};
use bnklaunch::platform::arena::ArrayVec;
use bnklaunch::platform::error::Error;
use bnklaunch::platform::freetype::Glyph;
use bnklaunch::platform::wire::Fixed;
use bnklaunch::shm::{blend, buffer_size, PixelBuffer};
use bnklaunch::theme::{Color, Theme};
use bnklaunch::ui::{
    calculate_height, draw_ui, input_box_contains, paint, row_at, Caret, Draw, Heights,
    INPUT_BOX_H, MAX_RESULTS, RESULTS_START_Y, RESULT_HEIGHT, TEXT_X, WINDOW_WIDTH,
};

// === The pixel buffer ===

// PixelBuffer has no Debug impl, so the Result is matched, not unwrapped.
fn expect_overflow(width: u32, height: u32) {
    match PixelBuffer::new(width, height) {
        Ok(_) => panic!("expected an overflow error for {width}x{height}"),
        Err(e) => assert_eq!(e, Error::msg("buffer dimensions too large")),
    }
}

#[test]
fn new_rejects_stride_overflow() {
    // width * 4 overflows u32.
    expect_overflow(u32::MAX, 1);
}

#[test]
fn new_rejects_size_overflow() {
    // stride fits in u32 but stride * height exceeds off_t::MAX.
    expect_overflow(1_000_000_000, 3_000_000_000);
}

const BLACK: u32 = 0xFF00_0000;
const WHITE: u32 = 0xFFFF_FFFF;
/// White at half alpha, premultiplied: every channel is scaled, not just the
/// alpha.
const HALF_WHITE: u32 = 0x8080_8080;

#[test]
fn blend_leaves_an_opaque_source_alone() {
    // Full coverage of an opaque colour is the colour, whatever is under it.
    assert_eq!(blend(BLACK, WHITE, 255), WHITE);
    assert_eq!(blend(WHITE, BLACK, 255), BLACK);
}

#[test]
fn blend_covering_nothing_changes_nothing() {
    // Two ways to cover nothing: no coverage, or no alpha to cover with.
    assert_eq!(blend(BLACK, WHITE, 0), BLACK);
    assert_eq!(blend(BLACK, 0x0000_0000, 255), BLACK);
    assert_eq!(blend(BLACK, 0x0000_0000, 128), BLACK);
}

#[test]
fn blend_composites_a_translucent_source() {
    // Half white over black is half grey, and the result is still opaque: the
    // destination's own alpha survives what is laid over it.
    assert_eq!(blend(BLACK, HALF_WHITE, 255), 0xFF80_8080);

    // The same colour over nothing keeps its own alpha and no more, which is what
    // makes a translucent window's rows as see-through as its body.
    assert_eq!(blend(0x0000_0000, HALF_WHITE, 255), HALF_WHITE);
}

#[test]
fn blend_never_leaves_a_channel_above_the_alpha() {
    // Premultiplied is an invariant, not a convention: a channel brighter than
    // its own alpha is a colour the compositor cannot read. Walk a spread of
    // sources, destinations and coverages and hold the line.
    for &dst in &[0x0000_0000, 0x8040_2010, BLACK, WHITE, HALF_WHITE] {
        for &src in &[0x0000_0000, 0x4020_1008, BLACK, WHITE, HALF_WHITE] {
            for coverage in [0u8, 1, 63, 128, 200, 254, 255] {
                let out = blend(dst, src, coverage);
                let a = out >> 24 & 0xFF;
                for shift in [16, 8, 0] {
                    let c = out >> shift & 0xFF;
                    assert!(
                        c <= a,
                        "channel {c} above alpha {a} blending {src:08x} over \
                         {dst:08x} at coverage {coverage}"
                    );
                }
                assert!(a >= dst >> 24, "and never more see-through than before");
            }
        }
    }
}

#[test]
fn fill_replaces_what_the_buffer_held() {
    // A frame starts by filling over the frame before last, so a translucent
    // background has to replace those pixels, not land on them.
    let mut buf = PixelBuffer::new(4, 2).expect("buffer");
    buf.fill(WHITE);
    buf.fill(HALF_WHITE);
    assert!(buf.pixels_u32().iter().all(|&p| p == HALF_WHITE));
}

#[test]
fn fill_rect_stamps_an_opaque_colour_and_composites_a_translucent_one() {
    let mut buf = PixelBuffer::new(4, 2).expect("buffer");
    buf.fill(BLACK);

    buf.fill_rect(0, 0, 2, 1, WHITE);
    assert_eq!(buf.pixels_u32()[0], WHITE);

    buf.fill_rect(2, 0, 2, 1, HALF_WHITE);
    assert_eq!(buf.pixels_u32()[2], 0xFF80_8080);

    // The row below was never drawn into.
    assert_eq!(buf.pixels_u32()[4], BLACK);
}

#[test]
fn a_rectangle_is_clipped_however_wide() {
    let mut buf = PixelBuffer::new(2, 2).unwrap();
    buf.fill(0xFF00_0000);
    buf.fill_rect(1, 0, u32::MAX, 1, 0xFFFF_FFFF);
    assert_eq!(
        buf.pixels_u32(),
        [0xFF00_0000, 0xFFFF_FFFF, 0xFF00_0000, 0xFF00_0000]
    );
    buf.stamp_rect(1, 1, u32::MAX, u32::MAX, 0x1234_5678);
    assert_eq!(
        buf.pixels_u32(),
        [0xFF00_0000, 0xFFFF_FFFF, 0xFF00_0000, 0x1234_5678]
    );
    // One that starts past an edge is empty.
    buf.fill_rect(u32::MAX, 0, u32::MAX, 1, 0xFFFF_FFFF);
    buf.stamp_rect(0, u32::MAX, 1, u32::MAX, 0);
    assert_eq!(
        buf.pixels_u32(),
        [0xFF00_0000, 0xFFFF_FFFF, 0xFF00_0000, 0x1234_5678]
    );
}

#[test]
fn fill_rect_stops_at_the_buffer_edges() {
    let mut buf = PixelBuffer::new(2, 2).expect("buffer");
    buf.fill(BLACK);
    // Wider and taller than the buffer, which is what a rect anchored near the
    // right edge of the window is.
    buf.fill_rect(1, 1, 10, 10, WHITE);
    assert_eq!(buf.pixels_u32(), &[BLACK, BLACK, BLACK, WHITE]);
    // Starting past the edge altogether, which is where the caret ends up behind
    // long enough text, draws nothing.
    buf.fill_rect(5, 0, 2, 1, WHITE);
    assert_eq!(buf.pixels_u32(), &[BLACK, BLACK, BLACK, WHITE]);
}

#[test]
fn a_stamp_replaces_whatever_alpha_it_carries() {
    let mut buf = PixelBuffer::new(2, 1).expect("buffer");
    buf.fill(WHITE);
    buf.stamp_rect(1, 0, 9, 9, HALF_WHITE);
    assert_eq!(buf.pixels_u32(), &[WHITE, HALF_WHITE]);
    assert_eq!((buf.size(), buf.stride, buf.fd()), (8, 8, -1));
    buf.share(4);
    assert_eq!(buf.fd(), 4);
    assert_eq!(buffer_size(800, 304), Ok(972_800));
}

// === Colours ===

#[test]
fn an_opaque_color_survives_premultiplication_unchanged() {
    // Truncating instead of rounding would dim every channel by a step here,
    // which is a color the user did not ask for.
    assert_eq!(Color::rgba(0xFF, 0xFF, 0xFF, 0xFF).argb(), 0xFFFF_FFFF);
    assert_eq!(Color::rgba(0x29, 0x2b, 0x30, 0xFF).argb(), 0xFF29_2B30);
    assert_eq!(Color::rgba(0x01, 0x7F, 0xFE, 0xFF).argb(), 0xFF01_7FFE);
}

#[test]
fn alpha_scales_every_channel() {
    assert_eq!(Color::rgba(0xFF, 0xFF, 0xFF, 0x80).argb(), 0x8080_8080);
    assert_eq!(Color::rgba(0xFF, 0x00, 0x00, 0x40).argb(), 0x4040_0000);
    // No alpha is no color at all, whatever channels were written with it.
    assert_eq!(Color::rgba(0xFF, 0xFF, 0xFF, 0x00).argb(), 0x0000_0000);
}

#[test]
fn the_shipped_look_is_the_one_written_down() {
    // A config that sets no colors draws these.
    let t = Theme::default();
    assert_eq!(t.background.argb(), 0xF01D_1F22);
    assert_eq!(t.text.argb(), 0xFFEC_ECEC);
    assert_eq!(t.subtitle.argb(), 0xFF88_8888);
    assert_eq!(t.highlight.argb(), 0x0D0D_0D0D);
    assert_eq!(t.caret.argb(), 0xFF6F_D3EF);
    assert_eq!(t.selection.argb(), 0xFF2F_7BA6);

    // Two carry alpha, the rest do not.
    assert!(t.background.argb() >> 24 > 0xE0);
    assert!(t.highlight.argb() >> 24 < 0x20);
    for solid in [t.text, t.subtitle, t.caret, t.selection] {
        assert_eq!(
            solid.argb() >> 24,
            0xFF,
            "{:08x} is not opaque",
            solid.argb()
        );
    }
}

// === Text ===

/// A glyph of solid ink, a little narrower than its advance.
fn block(left: i32, width: usize, rows: usize, advance: i32) -> Glyph {
    let mut g = Glyph::blank(advance);
    g.left = left;
    g.top = rows as i32;
    g.width = width;
    g.rows = rows;
    for _ in 0..width * rows {
        let _ = g.coverage.push(255);
    }
    g
}

/// The glyphs of a line, each character a block that takes `px / 2` pixels.
fn line(cache: &mut GlyphCache, text: &str, px: u32) -> Vec<Option<RunGlyph>> {
    text.chars()
        .map(|c| {
            if let Some(hit) = cache.lookup(c, px) {
                return Some(RunGlyph::Kept(hit));
            }
            let wide = px as usize / 2;
            let g = if c == ' ' {
                Glyph::blank(32 * px as i32)
            } else {
                block(0, wide - 1, wide, 32 * px as i32)
            };
            Some(cache.insert(c, px, g))
        })
        .collect()
}

#[test]
fn text_height_is_positive() {
    assert!(text_height(18 * 64, -5 * 64) > 0);
    assert_eq!(text_height(18 * 64, -5 * 64), 23 * 64);
}

#[test]
fn cursor_x_grows_with_offset() {
    let mut cache = GlyphCache::new();
    let text = "Settings";
    let run = line(&mut cache, text, INPUT_SIZE);
    let mut last = -1;
    for offset in 0..=text.chars().count() {
        let x = x_at_char_offset(&run, offset);
        assert!(x > last, "x at offset {offset} should grow ({x} <= {last})");
        last = x;
    }
    assert_eq!(x_at_char_offset(&run, 3), 3 * 640);
    assert_eq!(x_at_char_offset(&run, 99), 8 * 640);
}

#[test]
fn char_offset_round_trips_to_ends() {
    let mut cache = GlyphCache::new();
    let text = "Files";
    let run = line(&mut cache, text, INPUT_SIZE);
    let count = text.chars().count();
    assert_eq!(char_offset_at_x(&run, -5 * 256), 0);
    let full = 4 * x_at_char_offset(&run, count);
    assert_eq!(char_offset_at_x(&run, full + 50 * 256), count);
    // A click on a caret position lands on it, and one past the middle of a
    // character lands behind it.
    for k in 0..=count {
        assert_eq!(char_offset_at_x(&run, 4 * x_at_char_offset(&run, k)), k);
    }
    assert_eq!(char_offset_at_x(&run, 5 * 256 - 1), 0);
    assert_eq!(char_offset_at_x(&run, 5 * 256), 1);
}

#[test]
fn a_cached_glyph_is_the_one_that_was_put_there() {
    let mut cache = GlyphCache::new();
    assert!(cache.lookup('A', 16).is_none());
    let put = match cache.insert('A', 16, block(1, 3, 2, 300)) {
        RunGlyph::Kept(put) => put,
        RunGlyph::Own(_) => panic!("there is room"),
    };
    assert_eq!(cache.lookup('A', 16), Some(put));
    assert!(cache.lookup('A', 20).is_none());
    assert_eq!(cache.coverage(&put), [255; 6]);
    assert_eq!((put.left, put.top, put.width, put.rows), (1, 2, 3, 2));
}

#[test]
fn a_full_arena_draws_a_glyph_without_caching_it() {
    let mut cache = GlyphCache::new();
    let mut kept = 0;
    let last = loop {
        let ch = char::from_u32(0x4E00 + kept).unwrap();
        let placed = cache.insert(ch, 16, block(1, 64, 64, 4096));
        assert_eq!(placed.advance(), 4096);
        if let RunGlyph::Own(ref g) = placed {
            assert_eq!((g.left, g.top, g.width, g.rows), (1, 64, 64, 64));
            assert!(cache.lookup(ch, 16).is_none());
            break placed;
        }
        kept += 1;
    };
    assert_eq!(kept as usize, INK_CAP / 4096);
    // It is drawn as one that was kept is.
    let mut buf = PixelBuffer::new(80, 80).expect("buffer");
    let first = cache.lookup('\u{4E00}', 16);
    let width = cache.render_text(&mut buf, 0, 0, 64 * 64, &[Some(last)], WHITE, 80);
    assert_eq!(width, 64);
    assert_eq!(buf.pixels_u32()[1], WHITE);
    assert_eq!(buf.pixels_u32()[63 * 80 + 64], WHITE);
    assert_eq!(buf.pixels_u32()[0], 0);
    if let Some(first) = first {
        let mut same = PixelBuffer::new(80, 80).expect("buffer");
        let run = [Some(RunGlyph::Kept(first))];
        cache.render_text(&mut same, 0, 0, 64 * 64, &run, WHITE, 80);
        assert_eq!(same.pixels_u32(), buf.pixels_u32());
    }
    // What holds no ink still fits.
    assert!(matches!(
        cache.insert(' ', 16, Glyph::blank(320)),
        RunGlyph::Kept(_)
    ));
}

fn render(
    buf: &mut PixelBuffer,
    x: u32,
    y: u32,
    text: &str,
    color: u32,
    max_width: u32,
    px: u32,
) -> u32 {
    let mut cache = GlyphCache::new();
    let run = line(&mut cache, text, px);
    cache.render_text(buf, x, y, 64 * px as i32, &run, color, max_width)
}

#[test]
fn render_text_blends_pixels_and_reports_width() {
    let mut buf = PixelBuffer::new(200, 40).expect("buffer");
    let width = render(&mut buf, 2, 2, "Hi", 0xFFFF_FFFF, 200, NAME_SIZE);
    assert!(width > 0, "rendered width should be positive");
    assert_eq!(width, 16);
    assert!(
        buf.pixels_u32().iter().any(|&p| p != 0),
        "rendering should leave at least one blended pixel"
    );
    // The first block's top left pixel: at the pen, its height above the
    // baseline.
    assert_eq!(buf.pixels_u32()[(2 + 16 - 8) * 200 + 2], 0xFFFF_FFFF);
    assert_eq!(buf.pixels_u32()[(2 + 16 - 9) * 200 + 2], 0);
}

/// Text is drawn with the same premultiplied compositing as everything else, so
/// a color carrying alpha lands over what is under it rather than replacing it,
/// and a color with no alpha at all covers nothing.
#[test]
fn render_text_composites_a_translucent_color() {
    let mut buf = PixelBuffer::new(200, 40).expect("buffer");
    buf.fill(BLACK);
    render(&mut buf, 2, 2, "Hi", 0x8080_8080, 200, NAME_SIZE);
    assert!(
        buf.pixels_u32().iter().any(|&p| p != BLACK),
        "half-alpha white should still mark the buffer"
    );
    // Half alpha over black tops out at half gray. A pixel brighter than that
    // would mean the color had been stamped rather than composited.
    assert!(
        buf.pixels_u32().iter().all(|&p| p >> 16 & 0xFF <= 0x80),
        "no channel should exceed the color's own alpha"
    );

    buf.fill(BLACK);
    render(&mut buf, 2, 2, "Hi", 0x0000_0000, 200, NAME_SIZE);
    assert!(
        buf.pixels_u32().iter().all(|&p| p == BLACK),
        "a color with no alpha should leave the buffer alone"
    );
}

/// A glyph can land partly outside the buffer: the last one in a run reaches past
/// the right edge, and a tall one at y=0 reaches above the top.
#[test]
fn a_glyph_hanging_off_the_edge_is_clipped_not_dropped() {
    // Text far wider than the buffer, drawn from the last few columns, so every
    // glyph but the first is entirely outside it.
    let mut buf = PixelBuffer::new(40, 24).expect("buffer");
    let width = render(&mut buf, 36, 2, "WWWWWWWW", WHITE, 160, NAME_SIZE);
    assert!(width > 0);
    assert!(buf.pixels_u32()[10 * 40 + 39] == WHITE);

    // Ink that rises above the top of the buffer.
    let mut buf = PixelBuffer::new(40, 24).expect("buffer");
    let mut cache = GlyphCache::new();
    let tall = cache.insert('|', 16, block(0, 2, 20, 640));
    cache.render_text(&mut buf, 0, 0, 10 * 64, &[Some(tall)], WHITE, 40);
    assert_eq!(buf.pixels_u32()[0], WHITE);
    assert_eq!(buf.pixels_u32()[10 * 40], 0);

    // And with the text box ending before the buffer does, which is the case the
    // input field draws: the glyph fits the buffer but not the box.
    let mut buf = PixelBuffer::new(40, 24).expect("buffer");
    let mut cache = GlyphCache::new();
    let wide = cache.insert('W', 16, block(0, 12, 4, 6 * 64));
    cache.render_text(&mut buf, 0, 2, 10 * 64, &[Some(wide)], WHITE, 6);
    assert_eq!(buf.pixels_u32()[8 * 40 + 5], WHITE);
    assert_eq!(buf.pixels_u32()[8 * 40 + 6], 0);
}

#[test]
fn render_text_respects_max_width() {
    let mut full = PixelBuffer::new(200, 40).expect("buffer");
    let mut clipped = PixelBuffer::new(200, 40).expect("buffer");

    let full_w = render(&mut full, 0, 2, "WWWWWW", WHITE, 200, NAME_SIZE);
    // A max_width well under the full extent must cut the run short.
    let narrow = full_w / 2;
    let clipped_w = render(&mut clipped, 0, 2, "WWWWWW", WHITE, narrow, NAME_SIZE);
    assert!(clipped_w <= narrow, "clipped width stays within max_width");
    assert!(clipped_w < full_w, "clipping should shorten the run");
}

fn roots(in_flatpak: bool, home: Option<&str>) -> Vec<String> {
    font_roots(in_flatpak, home)
        .as_slice()
        .iter()
        .map(|r| r.as_str().to_string())
        .collect()
}

#[test]
fn font_roots_end_with_the_users_own_tree() {
    assert_eq!(
        roots(false, Some("/home/u")),
        [
            "/usr/share/fonts",
            "/usr/local/share/fonts",
            "/home/u/.local/share/fonts"
        ]
    );
}

#[test]
fn font_roots_without_home_are_the_system_ones() {
    assert_eq!(
        roots(false, None),
        ["/usr/share/fonts", "/usr/local/share/fonts"]
    );
}

#[test]
fn flatpak_font_roots_put_the_hosts_first_and_walk_home_once() {
    assert_eq!(
        roots(true, Some("/home/u")),
        [
            "/run/host/fonts",
            "/run/host/user-fonts",
            "/usr/share/fonts",
            "/usr/local/share/fonts"
        ]
    );
}

/// The preference list is a ranking, not a search order. One walk of the tree
/// checks every file against the whole list, so the top choice wins however deep
/// it sits and a lesser name at the root does not shadow it.
#[test]
fn font_discovery_ranks_by_preference_not_by_depth() {
    let first = preferred_font(0);
    let last = preferred_font(PREFERRED_COUNT - 1);
    let mut hits = FontHits::new();
    assert_eq!(
        hits.visit("/sys", "vendor", true).unwrap().as_str(),
        "/sys/vendor"
    );
    assert!(hits.visit("/sys", last, false).is_none());
    assert!(hits.visit("/sys/vendor", first, false).is_none());
    assert!(hits.visit("/user", "Comic.ttf", false).is_none());
    assert!(hits.visit("/user", first, false).is_none());
    assert_eq!(
        hits.candidates(),
        [
            format!("/sys/vendor/{first}"),
            format!("/user/{first}"),
            format!("/sys/{last}")
        ]
    );
    assert_eq!(font_rank(last), Some(PREFERRED_COUNT - 1));
    assert_eq!(font_rank("Comic.ttf"), None);
}

/// A broken top choice must not cost the launcher its font: the candidates behind
/// it are still there to fall through to.
#[test]
fn a_top_choice_that_does_not_load_falls_through_to_the_next() {
    let mut hits = FontHits::new();
    for dir in ["/a", "/b", "/c", "/d"] {
        hits.visit(dir, preferred_font(0), false);
    }
    hits.visit("/e", preferred_font(1), false);
    let found = hits.candidates();
    // No amount of one name crowds out another.
    assert_eq!(found.len(), 4);
    let loads = |p: &&&str| p.ends_with(preferred_font(1));
    assert_eq!(
        found.iter().find(loads),
        Some(&format!("/e/{}", preferred_font(1)).as_str())
    );
}

// === The frame ===

fn fx(v: f64) -> Fixed {
    Fixed {
        raw: (v * 256.0) as i32,
    }
}

/// A point comfortably inside the window horizontally, which is what every
/// vertical case below wants to hold still.
const MID_X: f64 = (WINDOW_WIDTH / 2) as f64;

/// A column just inside the window's right edge, past where any text run can
/// reach, so a pixel read there is the window itself rather than a glyph.
const CLEAR_X: u32 = WINDOW_WIDTH - 1;

#[test]
fn the_window_grows_a_row_at_a_time_up_to_the_list() {
    assert_eq!(calculate_height(0), INPUT_BOX_H);
    assert_eq!(calculate_height(2), INPUT_BOX_H + 2 * RESULT_HEIGHT);
    // At most MAX_RESULTS rows are painted, so the window stops there too.
    assert_eq!(
        calculate_height(MAX_RESULTS + 5),
        calculate_height(MAX_RESULTS)
    );
}

const HEIGHTS: Heights = Heights {
    input: 24 * 64,
    name: 19 * 64,
    subtitle: 16 * 64,
};

fn hidden_caret() -> Caret {
    Caret {
        offset: 0,
        selection: None,
        visible: false,
    }
}

/// Draw a frame offscreen the way the launcher would, passes times over into the
/// same buffer: the launcher's buffers are reused turn about, so every frame
/// lands on the pixels of the frame before last.
fn frame(
    theme: &Theme,
    text: &str,
    search_enabled: bool,
    results: &[&DesktopEntry],
    rows: usize,
    passes: usize,
) -> Vec<u32> {
    let mut cache = GlyphCache::new();
    let mut buf = PixelBuffer::new(WINDOW_WIDTH, calculate_height(rows)).expect("offscreen buffer");
    for _ in 0..passes {
        let run = line(&mut cache, text, INPUT_SIZE);
        let steps = draw_ui(
            text,
            &run,
            0,
            results,
            search_enabled,
            &hidden_caret(),
            &HEIGHTS,
            theme,
        );
        for step in &steps {
            let (run, px) = match step {
                Draw::Text { text, size, .. } => {
                    let s: String = text.iter().collect();
                    (line(&mut cache, &s, *size), *size)
                }
                _ => (Vec::new(), 0),
            };
            paint(&mut buf, step, &cache, &run, 64 * px as i32);
        }
    }
    buf.pixels_u32().to_vec()
}

/// The usual frame: two results with the first selected, so the background, the
/// wash over the selected row and the text all land in the same buffer.
fn frame_with(theme: &Theme) -> Vec<u32> {
    let alpha = DesktopEntry::new("Alpha", "alpha").expect("entry");
    let beta = DesktopEntry::new("Beta", "beta").expect("entry");
    frame(theme, "app", false, &[&alpha, &beta], 2, 1)
}

fn at(frame: &[u32], x: u32, y: u32) -> u32 {
    frame[(y * WINDOW_WIDTH + x) as usize]
}

fn alpha_of(pixel: u32) -> u32 {
    pixel >> 24 & 0xFF
}

fn translucent() -> Theme {
    Theme {
        background: Color::rgba(0x29, 0x2b, 0x30, 0xE6),
        highlight: Color::rgba(0xFF, 0xFF, 0xFF, 0x14),
        ..Theme::default()
    }
}

#[test]
fn drawing_a_frame_twice_into_one_buffer_gives_the_same_picture() {
    // A frame that composites onto what the last one left drifts as it repaints: a
    // translucent wash over its own previous pass lightens a little every second
    // frame.
    let theme = translucent();
    let alpha = DesktopEntry::new("Alpha", "alpha").expect("entry");
    let one = [&alpha];
    let none: [&DesktopEntry; 0] = [];
    for (text, search_enabled, results) in [
        ("app", false, &one[..]),
        ("s:cats", true, &none[..]),
        ("u:example.com", false, &none[..]),
    ] {
        assert_eq!(
            frame(&theme, text, search_enabled, results, 1, 1),
            frame(&theme, text, search_enabled, results, 1, 2),
            "{text:?}: the second pass should land on a clean buffer, not on the first"
        );
    }
}

#[test]
fn a_translucent_background_shows_through_the_whole_frame() {
    let theme = translucent();
    let frame = frame_with(&theme);
    let background = theme.background.argb();

    // Away from the text, the window is the background exactly, alpha and all:
    // what the config asked for is what the compositor is handed.
    assert_eq!(at(&frame, CLEAR_X, 10), background);
    // The second row is not selected, so it is bare background too.
    let unselected_y = RESULTS_START_Y + RESULT_HEIGHT + RESULT_HEIGHT / 2;
    assert_eq!(at(&frame, CLEAR_X, unselected_y), background);

    // The selected row is the background plus the wash: lighter, and only a shade
    // less see-through, rather than a hole through the window.
    let washed = at(&frame, CLEAR_X, RESULTS_START_Y + RESULT_HEIGHT / 2);
    assert!(
        alpha_of(washed) > alpha_of(background) && alpha_of(washed) < 0xF0,
        "the wash should lift the row a little, not seal it: {washed:08x}"
    );
    for shift in [16, 8, 0] {
        assert!(
            washed >> shift & 0xFF > background >> shift & 0xFF,
            "the wash should lighten every channel: {washed:08x}"
        );
    }

    // Nothing anywhere is more transparent than the background asked to be, and
    // the text is more solid than the panel it sits on.
    let alphas = frame.iter().map(|&p| alpha_of(p));
    assert_eq!(alphas.clone().min(), Some(0xE6));
    assert!(
        alphas.max().unwrap_or(0) > 0xF0,
        "opaque text should stay opaque over a translucent window"
    );

    // Every pixel is still premultiplied. A channel above its own alpha is a color
    // the compositor cannot read.
    for (i, &p) in frame.iter().enumerate() {
        for shift in [16, 8, 0] {
            assert!(
                p >> shift & 0xFF <= alpha_of(p),
                "pixel {i} is {p:08x}, which is not premultiplied"
            );
        }
    }
}

#[test]
fn the_default_theme_is_as_see_through_as_it_asked_to_be() {
    let frame = frame_with(&Theme::default());
    let background = alpha_of(Theme::default().background.argb());
    assert!(
        frame.iter().all(|&p| alpha_of(p) >= background),
        "nothing is more transparent than the window asked to be"
    );
    assert!(
        frame.iter().any(|&p| alpha_of(p) == 0xFF),
        "text stays opaque over it"
    );
}

/// A step as a line of text, for comparing.
fn show(step: &Draw) -> String {
    match step {
        Draw::Fill(c) => format!("fill {c:08x}"),
        Draw::Rect { x, y, w, h, color } => format!("rect {x},{y} {w}x{h} {color:08x}"),
        Draw::Stamp { x, y, w, h, color } => format!("stamp {x},{y} {w}x{h} {color:08x}"),
        Draw::Text {
            x,
            y,
            text,
            size,
            color,
            max_width,
        } => {
            let s: String = text.iter().collect();
            format!("text {x},{y} {s:?} {size} {color:08x} {max_width}")
        }
    }
}

#[test]
fn the_layout_is_the_one_written_down() {
    let theme = Theme::default();
    let mut cache = GlyphCache::new();
    let run = line(&mut cache, "ab", INPUT_SIZE);
    let a = DesktopEntry::new("Alpha", "alpha %u --x").expect("entry");
    let b = DesktopEntry::new("Beta", "beta").expect("entry");
    let caret = Caret {
        offset: 2,
        selection: Some((0, 1)),
        visible: true,
    };
    let wash = blend(theme.background.argb(), theme.highlight.argb(), 255);
    let steps: Vec<String> = draw_ui("ab", &run, 1, &[&a, &b], false, &caret, &HEIGHTS, &theme)
        .iter()
        .map(show)
        .collect();
    assert_eq!(
        steps,
        [
            "fill f01d1f22".to_string(),
            "rect 15,15 10x24 ff2f7ba6".to_string(),
            format!("text 15,15 \"ab\" {INPUT_SIZE} ffececec 670"),
            "rect 35,15 2x24 ff6fd3ef".to_string(),
            format!("text 15,60 \"Alpha\" {NAME_SIZE} ffececec 670"),
            format!("text 15,81 \"alpha --x\" {SUBTITLE_SIZE} ff888888 670"),
            format!("stamp 0,104 800x50 {wash:08x}"),
            format!("text 15,110 \"Beta\" {NAME_SIZE} ffececec 670"),
            format!("text 15,131 \"beta\" {SUBTITLE_SIZE} ff888888 670"),
        ]
    );

    let preview: Vec<String> = draw_ui("u:x.org", &[], 0, &[&a], false, &hidden_caret(), &HEIGHTS, &theme)
        .iter()
        .map(show)
        .collect();
    assert_eq!(
        preview,
        [
            "fill f01d1f22".to_string(),
            format!("text 15,15 \"u:x.org\" {INPUT_SIZE} ffececec 670"),
            format!("stamp 0,54 800x50 {wash:08x}"),
            format!("text 15,60 \"Open URL\" {NAME_SIZE} ffececec 670"),
            format!("text 15,81 \"https://x.org\" {SUBTITLE_SIZE} ff888888 670"),
        ]
    );
    // An empty input with nothing listed is the background alone.
    assert_eq!(
        draw_ui("", &[], 0, &[], false, &hidden_caret(), &HEIGHTS, &theme).len(),
        1
    );
}

#[test]
fn row_at_maps_a_position_to_the_row_drawn_there() {
    let top = RESULTS_START_Y as f64;
    assert_eq!(row_at(fx(MID_X), fx(top), 3), Some(0));
    assert_eq!(row_at(fx(MID_X), fx(top + RESULT_HEIGHT as f64), 3), Some(1));
    assert_eq!(
        row_at(fx(MID_X), fx(top + 2.0 * RESULT_HEIGHT as f64), 3),
        Some(2)
    );
}

#[test]
fn a_row_boundary_belongs_to_the_row_below_it() {
    // The rows butt up against each other, so the pixel a row starts on is that
    // row's and the one before it ends a pixel short.
    let boundary = (RESULTS_START_Y + RESULT_HEIGHT) as f64;
    assert_eq!(row_at(fx(MID_X), fx(boundary - 0.5), 3), Some(0));
    assert_eq!(row_at(fx(MID_X), fx(boundary), 3), Some(1));
}

#[test]
fn row_at_ignores_everything_that_is_not_a_row() {
    let top = RESULTS_START_Y as f64;
    // The input field sits above the list.
    assert_eq!(row_at(fx(MID_X), fx(top - 1.0), 3), None);
    assert_eq!(row_at(fx(MID_X), fx(0.0), 3), None);
    // Past the last row drawn, which is not the same as past the window: a shorter
    // list leaves the rows below it undrawn.
    assert_eq!(
        row_at(fx(MID_X), fx(top + 3.0 * RESULT_HEIGHT as f64), 3),
        None
    );
    assert_eq!(row_at(fx(MID_X), fx(top + RESULT_HEIGHT as f64), 1), None);
    // No results at all means no row anywhere.
    assert_eq!(row_at(fx(MID_X), fx(top), 0), None);
}

#[test]
fn row_at_stops_at_the_edges_of_the_window() {
    let top = RESULTS_START_Y as f64;
    assert_eq!(row_at(fx(0.0), fx(top), 3), Some(0));
    assert_eq!(row_at(fx(-1.0), fx(top), 3), None);
    assert_eq!(row_at(fx((WINDOW_WIDTH - 1) as f64), fx(top), 3), Some(0));
    assert_eq!(row_at(fx(WINDOW_WIDTH as f64), fx(top), 3), None);
}

#[test]
fn row_at_never_points_past_what_the_list_draws() {
    // At most MAX_RESULTS rows are painted, whatever the count says, so the hit
    // test must not hand back an index into a row nothing painted.
    let top = RESULTS_START_Y as f64;
    let past = top + (MAX_RESULTS as f64) * RESULT_HEIGHT as f64;
    assert_eq!(row_at(fx(MID_X), fx(past), MAX_RESULTS + 5), None);
    assert_eq!(
        row_at(fx(MID_X), fx(past - 1.0), MAX_RESULTS + 5),
        Some(MAX_RESULTS - 1)
    );
}

#[test]
fn the_input_field_is_where_the_text_is() {
    let inside = fx(10.0);
    assert!(input_box_contains(fx(TEXT_X as f64), inside));
    assert!(input_box_contains(fx((WINDOW_WIDTH - 1) as f64), inside));
    // Left of the text, past the right edge, and below the field.
    assert!(!input_box_contains(fx(TEXT_X as f64 - 1.0), inside));
    assert!(!input_box_contains(fx(WINDOW_WIDTH as f64), inside));
    assert!(!input_box_contains(
        fx(TEXT_X as f64),
        fx(RESULTS_START_Y as f64)
    ));
}

#[test]
fn a_glyph_without_ink_to_match_its_size_is_not_drawn() {
    let mut buf = PixelBuffer::new(8, 8).expect("buffer");
    let mut cache = GlyphCache::new();
    let mut torn = Glyph::blank(640);
    torn.width = 4;
    torn.rows = 4;
    torn.coverage = ArrayVec::new();
    let c = cache.insert('x', 16, torn);
    assert_eq!(
        cache.render_text(&mut buf, 0, 0, 256, &[None, Some(c)], WHITE, 20),
        10
    );
    assert!(buf.pixels_u32().iter().all(|&p| p == 0));
}
