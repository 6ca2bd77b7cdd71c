use bnklaunch::desktop::DesktopEntry;
use bnklaunch::dev::measure::{
    band_mismatch, bands, differs, ink, ink_mismatch, straight_alpha, Band, BandChange, Ink,
    InkChange, Measured, GUTTER_X,
};
use bnklaunch::dev::reference::{read_reference, write_reference};
use bnklaunch::font::{GlyphCache, RunGlyph, INPUT_SIZE};
use bnklaunch::platform::freetype::Glyph;
use bnklaunch::shm::PixelBuffer;
use bnklaunch::theme::Theme;
use bnklaunch::ui::{calculate_height, draw_ui, paint, Caret, Draw, Heights, WINDOW_WIDTH};

/// What has been typed, and the rows a search for it turns up. The first row is
/// the selected one. The second exec carries a field code, which the subtitle
/// drops.
const QUERY: &str = "fi";
const RESULTS: [(&str, &str); 5] = [
    ("Firefox", "firefox"),
    ("Files", "nautilus --new-window %U"),
    ("Filelight", "filelight"),
    ("File Roller", "file-roller"),
    ("Firmware Updater", "gnome-firmware"),
];

/// The glyphs of a line, each character but the space a solid block.
fn line(cache: &mut GlyphCache, text: &[char], px: u32) -> Vec<Option<RunGlyph>> {
    text.iter()
        .map(|&c| {
            if let Some(hit) = cache.lookup(c, px) {
                return Some(RunGlyph::Kept(hit));
            }
            let side = px as usize / 2;
            let mut g = Glyph::blank(32 * px as i32);
            if c != ' ' {
                g.top = side as i32;
                g.width = side - 1;
                g.rows = side;
                for _ in 0..g.width * g.rows {
                    let _ = g.coverage.push(255);
                }
            }
            Some(cache.insert(c, px, g))
        })
        .collect()
}

/// Paint the scene into an offscreen buffer, and return it with its size.
fn frame() -> (Vec<u32>, u32, u32) {
    let entries: Vec<DesktopEntry> = RESULTS
        .iter()
        .map(|(name, exec)| DesktopEntry::new(name, exec).expect("scene entry"))
        .collect();
    let rows: Vec<&DesktopEntry> = entries.iter().collect();
    let caret = Caret {
        offset: QUERY.chars().count(),
        selection: None,
        visible: true,
    };
    let heights = Heights {
        input: 23 * 64,
        name: 19 * 64,
        subtitle: 16 * 64,
    };
    let mut cache = GlyphCache::new();
    let height = calculate_height(rows.len());
    let mut buffer = PixelBuffer::new(WINDOW_WIDTH, height).expect("offscreen buffer");
    let query: Vec<char> = QUERY.chars().collect();
    let run = line(&mut cache, &query, INPUT_SIZE);
    let steps = draw_ui(
        QUERY,
        &run,
        0,
        &rows,
        false,
        &caret,
        &heights,
        &Theme::default(),
    );
    for step in &steps {
        let (run, px) = match step {
            Draw::Text { text, size, .. } => (line(&mut cache, text, *size), *size),
            _ => (Vec::new(), 0),
        };
        paint(&mut buffer, step, &cache, &run, 64 * px as i32);
    }
    (buffer.pixels_u32().to_vec(), WINDOW_WIDTH, height)
}

/// A color or a pixel out of place moves the bands; text elsewhere moves the
/// ink.
#[test]
fn the_measurements_notice_a_frame_that_changed() {
    let (pixels, width, _) = frame();
    let here_bands = bands(&pixels, width).expect("the frame has bands");
    let here_ink = ink(&pixels, width);
    let banding = |other: &[u32]| band_mismatch(&bands(other, width).expect("bands"), &here_bands);
    let text = |other: &[u32]| ink_mismatch(&ink(other, width), &here_ink);

    assert!(banding(&pixels).is_none(), "a frame agrees with itself");
    assert!(text(&pixels).is_none(), "a frame agrees with itself");

    // The smallest layout change there is: the wash starts a pixel late.
    let moved: Vec<u32> = std::iter::repeat_n(pixels[0], width as usize)
        .chain(pixels.iter().copied())
        .take(pixels.len())
        .collect();
    assert!(
        banding(&moved).is_some(),
        "a frame one pixel out of place has to read as changed"
    );

    // Every channel a step darker, which is a color nobody asked for.
    let recolored: Vec<u32> = pixels
        .iter()
        .map(|p| {
            let channel = |shift: u32| ((p >> shift) & 0xff).saturating_sub(8) << shift;
            0xff00_0000 | channel(16) | channel(8) | channel(0)
        })
        .collect();
    assert!(
        banding(&recolored).is_some(),
        "a recolored frame has to read as changed"
    );

    // Text that moved sideways, which the columns past it never see.
    let sideways: Vec<u32> = pixels
        .chunks(width as usize)
        .flat_map(|row| {
            std::iter::repeat_n(row[0], 12)
                .chain(row.iter().copied())
                .take(row.len())
        })
        .collect();
    assert!(
        banding(&sideways).is_none(),
        "text that moved leaves the bands alone"
    );
    assert!(
        text(&sideways).is_some(),
        "text somewhere else has to read as changed"
    );

    // A row of text gone, painted out in the color the row already is, which no
    // band can see.
    let mut missing = pixels.clone();
    let row = (calculate_height(1) - calculate_height(0)) as usize * width as usize;
    let start = calculate_height(0) as usize * width as usize;
    let wash = pixels[start + GUTTER_X as usize];
    missing[start..start + row].fill(wash);
    assert!(
        banding(&missing).is_none(),
        "text that went missing leaves the bands alone"
    );
    assert!(
        text(&missing).is_some(),
        "a row of text that went missing has to read as changed"
    );
}

/// What is written to the file comes back the same.
#[test]
fn a_reference_round_trips_through_its_file() {
    let (pixels, width, height) = frame();
    let measured = match Measured::of(&pixels, width, height) {
        Ok(m) => m,
        Err(u) => panic!("measurements: {u:?}"),
    };

    let file: String = write_reference(&measured).iter().collect();
    let back = match read_reference(&file) {
        Ok(m) => m,
        Err(line) => panic!("line {line}"),
    };
    assert_eq!((back.width, back.height), (width, height));
    assert_eq!(back.bands, measured.bands);
    assert_eq!(back.ink, measured.ink);
}

#[test]
fn a_frame_is_bands_of_color_past_the_text() {
    let (pixels, width, height) = frame();
    let found = bands(&pixels, width).expect("bands");
    // The input and its background, the washed row, and the rows below it.
    let edges: Vec<(u32, u32)> = found.iter().map(|b| (b.top, b.bottom)).collect();
    assert_eq!(edges, [(0, 54), (54, 104), (104, height)]);
    assert_eq!(found[0].color, found[2].color);
    assert_ne!(found[0].color, found[1].color);
}

#[test]
fn a_row_drawn_past_the_text_is_told_where() {
    let width = GUTTER_X + 10;
    let mut pixels = vec![0xFF10_2030u32; width as usize * 3];
    pixels[(width + GUTTER_X + 4) as usize] = 0xFF10_2038;
    let u = bands(&pixels, width).err().expect("uneven");
    assert_eq!(
        (u.row, u.x, u.found, u.color),
        (1, GUTTER_X + 4, 0x10_2038, 0x10_2030)
    );
    assert!(Measured::of(&pixels, width, 3).is_err());
    // A difference too faint to count is none.
    pixels[(width + GUTTER_X + 4) as usize] = 0x0010_2034;
    assert_eq!(
        bands(&pixels, width).expect("even"),
        [Band {
            top: 0,
            bottom: 3,
            color: 0x10_2030
        }]
    );
    assert!(!differs(0x10_2030, 0xFF10_2034));
    assert!(differs(0x10_2030, 0x15_2030));
}

#[test]
fn the_ink_is_counted_and_boxed() {
    let width = GUTTER_X + 1;
    let mut pixels = vec![0u32; width as usize * 4];
    let blank = ink(&pixels, width);
    assert_eq!(
        blank,
        Ink {
            mass: 0,
            left: u32::MAX,
            top: u32::MAX,
            right: 0,
            bottom: 0
        }
    );
    pixels[(width + 7) as usize] = 0xFFFF_FFFF;
    pixels[(2 * width + 3) as usize] = 0xFFFF_FFFF;
    assert_eq!(
        ink(&pixels, width),
        Ink {
            mass: 2,
            left: 3,
            top: 1,
            right: 7,
            bottom: 2
        }
    );
}

#[test]
fn what_is_left_over_after_the_whole_rows_has_no_band() {
    let width = GUTTER_X + 10;
    // Two rows and most of a third, which is another colour.
    let mut pixels = vec![0xFF10_2030u32; width as usize * 2];
    pixels.extend(vec![0xFFFF_FFFFu32; GUTTER_X as usize + 5]);
    let whole = [Band {
        top: 0,
        bottom: 2,
        color: 0x10_2030,
    }];
    assert_eq!(bands(&pixels, width).expect("even"), whole);
    // Its ink counts.
    pixels[width as usize * 2 + 6] = 0xFF00_0000;
    let found = Ink {
        mass: 1,
        left: 6,
        top: 2,
        right: 6,
        bottom: 2,
    };
    assert_eq!(ink(&pixels, width), found);
    match Measured::of(&pixels, width, 2) {
        Ok(m) => {
            assert_eq!(m.bands, whole);
            assert_eq!(m.ink, found);
        }
        Err(u) => panic!("measurements: {u:?}"),
    }
    // A frame with no row to measure can be as narrow as it likes.
    assert_eq!(bands(&[], 1).expect("empty"), []);
    assert_eq!(bands(&[7, 8], 3).expect("no whole row"), []);
    assert_eq!(ink(&[], 1).mass, 0);
}

#[test]
fn the_first_uneven_pixel_is_the_one_told() {
    let width = GUTTER_X + 10;
    let mut pixels = vec![0xFF10_2030u32; width as usize * 3];
    for (row, x) in [(2, 1), (1, 8), (1, 5)] {
        pixels[(row * width + GUTTER_X + x) as usize] = 0xFFFF_FFFF;
    }
    match Measured::of(&pixels, width, 3) {
        Ok(_) => panic!("uneven"),
        Err(u) => assert_eq!((u.row, u.x, u.found), (1, GUTTER_X + 5, 0xFF_FFFF)),
    }
}

#[test]
fn ink_may_move_by_a_tenth_and_two_pixels() {
    let b = Ink {
        mass: 100,
        left: 10,
        top: 10,
        right: 50,
        bottom: 50,
    };
    assert_eq!(ink_mismatch(&Ink { mass: 110, ..b }, &b), None);
    assert_eq!(
        ink_mismatch(&Ink { mass: 111, ..b }, &b),
        Some(InkChange::Mass)
    );
    assert_eq!(
        ink_mismatch(
            &Ink {
                mass: 89,
                left: 0,
                ..b
            },
            &b
        ),
        Some(InkChange::Mass)
    );
    assert_eq!(ink_mismatch(&Ink { left: 12, ..b }, &b), None);
    for (a, change) in [
        (Ink { left: 13, ..b }, InkChange::Left),
        (Ink { top: 7, ..b }, InkChange::Top),
        (Ink { right: 53, ..b }, InkChange::Right),
        (Ink { bottom: 47, ..b }, InkChange::Bottom),
    ] {
        assert_eq!(ink_mismatch(&a, &b), Some(change));
    }
}

#[test]
fn the_first_band_that_changed_is_named() {
    let band = |top, bottom, color| Band { top, bottom, color };
    let a = [band(0, 5, 1), band(5, 9, 2)];
    assert_eq!(band_mismatch(&a, &a), None);
    assert_eq!(
        band_mismatch(&a, &[band(0, 5, 1), band(5, 9, 3)]),
        Some(BandChange::Band(1))
    );
    assert_eq!(band_mismatch(&a, &a[..1]), Some(BandChange::Count));
    assert_eq!(band_mismatch(&a[..1], &a), Some(BandChange::Count));
}

#[test]
fn a_reference_is_one_measurement_to_a_line() {
    let m = Measured {
        width: 800,
        height: 54,
        bands: vec![Band {
            top: 0,
            bottom: 54,
            color: 0xab,
        }],
        ink: Ink {
            mass: 7,
            left: 1,
            top: 2,
            right: 30,
            bottom: 4_294_967_295,
        },
    };
    let file: String = write_reference(&m).iter().collect();
    assert_eq!(
        file,
        "# What the frame in src/dev/screenshot.rs measures out to, colors as the\n\
         # frame holds them, premultiplied. Rewritten by `make frame-update`;\n\
         # look at assets/screenshot.png before committing.\n\
         size 800 54\nband 0 54 0000ab\nink 7 1 2 30 4294967295\n"
    );
}

#[test]
fn a_reference_says_which_line_it_cannot_read() {
    let m = match read_reference("\n  # note\n\tsize +3  4 ignored\r\nband 0 1 FFFFFFFF") {
        Ok(m) => m,
        Err(line) => panic!("line {line}"),
    };
    assert_eq!((m.width, m.height), (3, 4));
    assert_eq!(m.bands[0].color, u32::MAX);
    for bad in [
        "size 1",
        "size 1 x",
        "size -1 2",
        "size + 2",
        "size 1 4294967296",
        "band 1 2",
        "band 1 2 g",
        "ink 1 2 3 4",
        "unknown",
    ] {
        let file = format!("size 1 1\n{bad}\n");
        assert_eq!(read_reference(&file).err(), Some(1), "{bad}");
    }
}

#[test]
fn straight_alpha_undoes_the_premultiply() {
    let mut pixels = vec![0x0000_0000, 0xFF12_3456, 0x8080_4000];
    straight_alpha(&mut pixels);
    assert_eq!(pixels, [0x0000_0000, 0xFF12_3456, 0x80FF_8000]);
}
