//! The file a frame's measurements are kept in: one measurement to a line, so a
//! change to the frame reads as one.
use vstd::prelude::*;

use crate::dev::measure::{Band, Ink, Measured, MeasuredView};
use crate::platform::text;
use crate::platform::text::{chars_of, digits_of, is_text, is_whitespace};

verus! {

/// What the file starts with, a line each.
pub const HEADING_FIRST: &'static str = "# What the frame in src/dev/screenshot.rs measures out to, colors as the";

pub const HEADING_SECOND: &'static str = "# frame holds them, premultiplied. Rewritten by `make frame-update`;";

pub const HEADING_THIRD: &'static str = "# look at assets/screenshot.png before committing.";

/// The value of a digit in a base.
pub open spec fn digit_value(c: char, base: nat) -> Option<nat> {
    let d: int = if '0' <= c <= '9' {
        c as int - 0x30
    } else if 'a' <= c <= 'f' {
        c as int - 0x61 + 10
    } else if 'A' <= c <= 'F' {
        c as int - 0x41 + 10
    } else {
        16
    };
    if d < base {
        Some(d as nat)
    } else {
        None
    }
}

/// A colour as six hex digits, or as many as it takes.
pub open spec fn color_digits(n: nat) -> Seq<char> {
    let d = text::digits(n, 16);
    if d.len() >= 6 {
        d
    } else {
        Seq::new((6 - d.len()) as nat, |i: int| '0') + d
    }
}

/// What digits in a base amount to.
pub open spec fn value(s: Seq<char>, base: nat) -> Option<nat>
    decreases s.len(),
{
    if s.len() == 0 {
        Some(0)
    } else {
        match (value(s.drop_last(), base), digit_value(s.last(), base)) {
            (Some(v), Some(d)) => Some(v * base + d),
            _ => None,
        }
    }
}

/// The number a field spells: digits in a base, a plus sign before them or not,
/// that fit 32 bits.
pub open spec fn number(s: Seq<char>, base: nat) -> Option<u32> {
    let d = if s.len() > 0 && s[0] == '+' {
        s.skip(1)
    } else {
        s
    };
    match value(d, base) {
        Some(v) => if d.len() > 0 && v <= u32::MAX {
            Some(v as u32)
        } else {
            None
        },
        None => None,
    }
}

fn digit_of(c: char, base: u32) -> (r: Option<u32>)
    requires
        base == 10 || base == 16,
    ensures
        match digit_value(c, base as nat) {
            Some(d) => r == Some(d as u32) && d < base,
            None => r is None,
        },
{
    let u: u32 = c as u32;
    let d: u32 = if 0x30 <= u && u <= 0x39 {
        u - 0x30
    } else if 0x61 <= u && u <= 0x66 {
        u - 0x61 + 10
    } else if 0x41 <= u && u <= 0x46 {
        u - 0x41 + 10
    } else {
        16
    };
    if d < base {
        Some(d)
    } else {
        None
    }
}

/// A number that has outgrown 32 bits stays outgrown.
proof fn lemma_value_grows(s: Seq<char>, k: int, base: nat)
    requires
        0 <= k <= s.len(),
        base >= 2,
    ensures
        value(s, base) matches Some(v) ==> (value(s.take(k), base) matches Some(p) && p <= v),
    decreases s.len() - k,
{
    if k == s.len() {
        assert(s.take(k) =~= s);
    } else {
        lemma_value_grows(s, k + 1, base);
        assert(s.take(k + 1).drop_last() =~= s.take(k));
        if let Some(p) = value(s.take(k), base) {
            assert(p <= p * base) by (nonlinear_arith)
                requires
                    base >= 2,
                    p >= 0,
            ;
        }
    }
}

fn parse_number(s: &[char], base: u32) -> (r: Option<u32>)
    requires
        base == 10 || base == 16,
    ensures
        r == number(s@, base as nat),
{
    let from: usize = if s.len() > 0 && s[0] == '+' {
        1
    } else {
        0
    };
    let ghost d = s@.skip(from as int);
    assert(s@.skip(0) =~= s@);
    if from == s.len() {
        return None;
    }
    let mut v: u64 = 0;
    let mut i: usize = from;
    assert(d.take(0) =~= Seq::<char>::empty());
    while i < s.len()
        invariant
            from <= i <= s@.len(),
            from < s@.len(),
            d == s@.skip(from as int),
            d == if s@.len() > 0 && s@[0] == '+' {
                s@.skip(1)
            } else {
                s@
            },
            base == 10 || base == 16,
            v <= u32::MAX,
            value(d.take(i - from), base as nat) == Some(v as nat),
        decreases s.len() - i,
    {
        proof {
            lemma_value_grows(d, i - from + 1, base as nat);
            assert(d.take(i - from + 1).drop_last() =~= d.take(i - from));
            assert(d.take(i - from + 1).last() == s@[i as int]);
        }
        match digit_of(s[i], base) {
            Some(x) => {
                v = v * base as u64 + x as u64;
                if v > u32::MAX as u64 {
                    return None;
                }
            },
            None => {
                return None;
            },
        }
        i += 1;
    }
    assert(d.take(d.len() as int) =~= d);
    Some(v as u32)
}

/// How many characters there are before the first space.
pub open spec fn word_len(s: Seq<char>) -> nat
    decreases s.len(),
{
    if s.len() == 0 || text::is_space(s[0]) {
        0
    } else {
        1 + word_len(s.skip(1))
    }
}

proof fn lemma_word_len(s: Seq<char>)
    ensures
        word_len(s) <= s.len(),
        s.len() > 0 && !text::is_space(s[0]) ==> word_len(s) > 0,
    decreases s.len(),
{
    if s.len() > 0 {
        lemma_word_len(s.skip(1));
    }
}

/// The words of a line, between spaces.
pub open spec fn words(s: Seq<char>) -> Seq<Seq<char>>
    decreases s.len(),
    via words_decreases
{
    if s.len() == 0 {
        Seq::empty()
    } else if text::is_space(s[0]) {
        words(s.skip(1))
    } else {
        seq![s.take(word_len(s) as int)] + words(s.skip(word_len(s) as int))
    }
}

#[via_fn]
proof fn words_decreases(s: Seq<char>) {
    lemma_word_len(s);
}

fn split_words(s: &[char]) -> (r: Vec<Vec<char>>)
    ensures
        text::texts(r@) == words(s@),
{
    let mut out: Vec<Vec<char>> = Vec::new();
    let n: usize = s.len();
    let mut i: usize = 0;
    assert(s@.skip(0) =~= s@);
    assert(text::texts(out@) + words(s@.skip(0)) =~= words(s@));
    while i < n
        invariant
            i <= n == s@.len(),
            text::texts(out@) + words(s@.skip(i as int)) == words(s@),
        decreases n - i,
    {
        let ghost rest = s@.skip(i as int);
        if is_whitespace(s[i]) {
            assert(rest.skip(1) =~= s@.skip(i + 1));
            i += 1;
        } else {
            let start: usize = i;
            let ghost done = out@;
            let mut word: Vec<char> = Vec::new();
            assert(rest.take(0) =~= Seq::<char>::empty());
            while i < n && !is_whitespace(s[i])
                invariant
                    start <= i <= n == s@.len(),
                    rest == s@.skip(start as int),
                    word@ == rest.take(i - start),
                    word_len(rest) == i - start + word_len(s@.skip(i as int)),
                decreases n - i,
            {
                assert(s@.skip(i as int).skip(1) =~= s@.skip(i + 1));
                word.push(s[i]);
                assert(rest.take(i - start + 1) =~= rest.take(i - start).push(s@[i as int]));
                i += 1;
            }
            proof {
                lemma_word_len(rest);
                assert(word_len(rest) == i - start);
                assert(rest.skip(i - start) =~= s@.skip(i as int));
            }
            let ghost w = word@;
            out.push(word);
            assert(text::texts(out@) =~= text::texts(done).push(w));
            assert(text::texts(out@) + words(s@.skip(i as int)) =~= text::texts(done) + (seq![w]
                + words(s@.skip(i as int))));
        }
    }
    assert(words(s@.skip(n as int)) =~= Seq::<Seq<char>>::empty());
    assert(text::texts(out@) =~= words(s@));
    out
}

/// A field of a line, as a number in a base.
pub open spec fn field(w: Seq<Seq<char>>, i: int, base: nat) -> Option<u32> {
    if i < w.len() {
        number(w[i], base)
    } else {
        None
    }
}

fn field_of(w: &Vec<Vec<char>>, i: usize, base: u32) -> (r: Option<u32>)
    requires
        base == 10 || base == 16,
    ensures
        r == field(text::texts(w@), i as int, base as nat),
{
    if i < w.len() {
        parse_number(w[i].as_slice(), base)
    } else {
        None
    }
}

/// Measurements with one line taken in. Nothing and a comment say nothing; None
/// for a line that cannot be read.
pub open spec fn with_line(m: MeasuredView, line: Seq<char>) -> Option<MeasuredView> {
    let w = words(line);
    if w.len() == 0 || w[0][0] == '#' {
        Some(m)
    } else if w[0] == "size"@ {
        match (field(w, 1, 10), field(w, 2, 10)) {
            (Some(width), Some(height)) => Some(MeasuredView { width, height, ..m }),
            _ => None,
        }
    } else if w[0] == "band"@ {
        match (field(w, 1, 10), field(w, 2, 10), field(w, 3, 16)) {
            (Some(top), Some(bottom), Some(color)) => Some(
                MeasuredView { bands: m.bands.push(Band { top, bottom, color }), ..m },
            ),
            _ => None,
        }
    } else if w[0] == "ink"@ {
        match (
            field(w, 1, 10),
            field(w, 2, 10),
            field(w, 3, 10),
            field(w, 4, 10),
            field(w, 5, 10),
        ) {
            (Some(mass), Some(left), Some(top), Some(right), Some(bottom)) => Some(
                MeasuredView { ink: Ink { mass: mass as usize, left, top, right, bottom }, ..m },
            ),
            _ => None,
        }
    } else {
        None
    }
}

/// Measurements with lines taken in from line i on, or the first line that cannot
/// be read.
pub open spec fn with_lines(m: MeasuredView, lines: Seq<Seq<char>>, i: int) -> Result<
    MeasuredView,
    int,
>
    decreases lines.len() - i,
{
    if i >= lines.len() {
        Ok(m)
    } else {
        match with_line(m, lines[i]) {
            Some(next) => with_lines(next, lines, i + 1),
            None => Err(i),
        }
    }
}

/// Measurements of nothing.
pub open spec fn unmeasured() -> MeasuredView {
    MeasuredView {
        width: 0,
        height: 0,
        bands: Seq::empty(),
        ink: Ink { mass: 0, left: 0, top: 0, right: 0, bottom: 0 },
    }
}

/// What a file says, or the first of its lines that cannot be read.
pub open spec fn read(content: Seq<char>) -> Result<MeasuredView, int> {
    with_lines(unmeasured(), text::pieces(content, '\n'), 0)
}

proof fn lemma_words_nonempty(s: Seq<char>)
    ensures
        forall|i: int| 0 <= i < words(s).len() ==> (#[trigger] words(s)[i]).len() > 0,
    decreases s.len(),
{
    if s.len() > 0 {
        lemma_word_len(s);
        if text::is_space(s[0]) {
            lemma_words_nonempty(s.skip(1));
            assert(words(s) == words(s.skip(1)));
        } else {
            let rest = words(s.skip(word_len(s) as int));
            lemma_words_nonempty(s.skip(word_len(s) as int));
            assert forall|i: int| 0 <= i < words(s).len() implies (#[trigger] words(s)[i]).len()
                > 0 by {
                assert(words(s) == seq![s.take(word_len(s) as int)] + rest);
                if i > 0 {
                    assert(words(s)[i] == rest[i - 1]);
                }
            }
        }
    }
}

impl Measured {
    /// Take in one line. False when it cannot be read.
    fn read_line(&mut self, line: &[char]) -> (r: bool)
        ensures
            match with_line(old(self)@, line@) {
                Some(m) => r && final(self)@ == m,
                None => !r && final(self)@ == old(self)@,
            },
    {
        let w = split_words(line);
        proof {
            lemma_words_nonempty(line@);
        }
        if w.len() == 0 {
            return true;
        }
        let ghost names = text::texts(w@);
        assert(names[0] == w@[0]@ && names[0].len() > 0);
        let first = &w[0];
        if first[0] == '#' {
            return true;
        }
        if is_text(first.as_slice(), "size") {
            if let (Some(width), Some(height)) = (field_of(&w, 1, 10), field_of(&w, 2, 10)) {
                self.width = width;
                self.height = height;
                return true;
            }
        } else if is_text(first.as_slice(), "band") {
            if let (Some(top), Some(bottom), Some(color)) = (
                field_of(&w, 1, 10),
                field_of(&w, 2, 10),
                field_of(&w, 3, 16),
            ) {
                self.bands.push(Band { top, bottom, color });
                return true;
            }
        } else if is_text(first.as_slice(), "ink") {
            if let (Some(mass), Some(left), Some(top), Some(right), Some(bottom)) = (
                field_of(&w, 1, 10),
                field_of(&w, 2, 10),
                field_of(&w, 3, 10),
                field_of(&w, 4, 10),
                field_of(&w, 5, 10),
            ) {
                self.ink = Ink { mass: mass as usize, left, top, right, bottom };
                return true;
            }
        }
        false
    }
}

/// Read a file back. A malformed file is not a changed frame, so the error says
/// which line could not be read.
pub fn read_reference(content: &str) -> (r: Result<Measured, usize>)
    ensures
        match read(content@) {
            Ok(m) => r matches Ok(v) && v@ == m,
            Err(i) => r matches Err(line) && line == i,
        },
{
    let chars = chars_of(content);
    let lines = text::split(chars.as_slice(), '\n');
    let mut m = Measured {
        width: 0,
        height: 0,
        bands: Vec::new(),
        ink: Ink { mass: 0, left: 0, top: 0, right: 0, bottom: 0 },
    };
    assert(m@ =~= unmeasured());
    let ghost all = text::texts(lines@);
    let mut i: usize = 0;
    while i < lines.len()
        invariant
            i <= lines@.len(),
            all == text::texts(lines@),
            read(content@) == with_lines(m@, all, i as int),
        decreases lines.len() - i,
    {
        assert(all[i as int] == lines@[i as int]@);
        if !m.read_line(lines[i].as_slice()) {
            return Err(i);
        }
        i += 1;
    }
    Ok(m)
}

/// Characters with others behind them.
fn push_chars(out: &mut Vec<char>, s: &[char])
    ensures
        final(out)@ == old(out)@ + s@,
{
    let mut i: usize = 0;
    assert(out@ + s@.take(0) =~= out@);
    while i < s.len()
        invariant
            i <= s@.len(),
            out@ == old(out)@ + s@.take(i as int),
        decreases s.len() - i,
    {
        out.push(s[i]);
        assert(s@.take(i + 1) =~= s@.take(i as int).push(s@[i as int]));
        i += 1;
    }
    assert(s@.take(s@.len() as int) =~= s@);
}

fn push_text(out: &mut Vec<char>, s: &str)
    ensures
        final(out)@ == old(out)@ + s@,
{
    let c = chars_of(s);
    push_chars(out, c.as_slice());
}

fn color_of(n: u32) -> (r: Vec<char>)
    ensures
        r@ == color_digits(n as nat),
{
    let d = digits_of(n as u64, 16);
    let mut out: Vec<char> = Vec::new();
    let have: usize = d.len();
    if have < 6 {
        let need: usize = 6 - have;
        while out.len() < need
            invariant
                out@.len() <= need,
                need <= 6,
                out@ == Seq::new(out@.len(), |i: int| '0'),
            decreases need - out.len(),
        {
            let ghost k = out@.len();
            out.push('0');
            assert(out@ =~= Seq::new(k + 1, |i: int| '0'));
        }
    }
    push_chars(&mut out, d.as_slice());
    assert(out@ =~= color_digits(n as nat));
    out
}

/// A word with fields behind it, a space before each.
pub open spec fn spaced(word: Seq<char>, fields: Seq<Seq<char>>) -> Seq<char>
    decreases fields.len(),
{
    if fields.len() == 0 {
        word
    } else {
        spaced(word, fields.drop_last()).push(' ') + fields.last()
    }
}

/// The line of a band.
pub open spec fn band_line(b: Band) -> Seq<char> {
    spaced(
        "band"@,
        seq![text::digits(b.top as nat, 10), text::digits(b.bottom as nat, 10), color_digits(b.color as nat)],
    )
}

/// The lines of the first n bands.
pub open spec fn band_lines(bands: Seq<Band>, n: nat) -> Seq<char>
    decreases n,
{
    if n == 0 {
        Seq::empty()
    } else {
        band_lines(bands, (n - 1) as nat) + band_line(bands[n - 1]).push('\n')
    }
}

/// The line of a frame's size.
pub open spec fn size_line(m: MeasuredView) -> Seq<char> {
    spaced("size"@, seq![text::digits(m.width as nat, 10), text::digits(m.height as nat, 10)])
}

/// The line of a frame's ink.
pub open spec fn ink_line(ink: Ink) -> Seq<char> {
    spaced(
        "ink"@,
        seq![
            text::digits(ink.mass as nat, 10),
            text::digits(ink.left as nat, 10),
            text::digits(ink.top as nat, 10),
            text::digits(ink.right as nat, 10),
            text::digits(ink.bottom as nat, 10),
        ],
    )
}

/// What measurements are written as.
pub open spec fn written(m: MeasuredView) -> Seq<char> {
    heading() + (size_line(m).push('\n') + (band_lines(m.bands, m.bands.len()) + ink_line(
        m.ink,
    ).push('\n')))
}

/// The lines the file starts with.
pub open spec fn heading() -> Seq<char> {
    HEADING_FIRST@.push('\n') + HEADING_SECOND@.push('\n') + HEADING_THIRD@.push('\n')
}

fn push_field(out: &mut Vec<char>, f: &[char])
    ensures
        final(out)@ == old(out)@.push(' ') + f@,
{
    out.push(' ');
    push_chars(out, f);
}

fn push_decimal(out: &mut Vec<char>, n: u64)
    ensures
        final(out)@ == old(out)@.push(' ') + text::digits(n as nat, 10),
{
    let d = digits_of(n, 10);
    push_field(out, d.as_slice());
}

fn write_band(b: &Band) -> (r: Vec<char>)
    ensures
        r@ == band_line(*b),
{
    let mut line = chars_of("band");
    let ghost f = seq![
        text::digits(b.top as nat, 10),
        text::digits(b.bottom as nat, 10),
        color_digits(b.color as nat),
    ];
    push_decimal(&mut line, b.top as u64);
    push_decimal(&mut line, b.bottom as u64);
    let color = color_of(b.color);
    push_field(&mut line, color.as_slice());
    proof {
        lemma_spaced("band"@, f, 3);
        lemma_spaced("band"@, f, 2);
        lemma_spaced("band"@, f, 1);
        assert(f.take(3) =~= f);
        assert(f.take(0) =~= Seq::<Seq<char>>::empty());
    }
    line
}

proof fn lemma_spaced(word: Seq<char>, f: Seq<Seq<char>>, n: int)
    requires
        0 < n <= f.len(),
    ensures
        spaced(word, f.take(n)) == spaced(word, f.take(n - 1)).push(' ') + f[n - 1],
{
    assert(f.take(n).drop_last() =~= f.take(n - 1));
}

fn write_size(m: &Measured) -> (r: Vec<char>)
    ensures
        r@ == size_line(m@),
{
    let mut line = chars_of("size");
    let ghost f = seq![text::digits(m.width as nat, 10), text::digits(m.height as nat, 10)];
    push_decimal(&mut line, m.width as u64);
    push_decimal(&mut line, m.height as u64);
    proof {
        lemma_spaced("size"@, f, 2);
        lemma_spaced("size"@, f, 1);
        assert(f.take(2) =~= f);
        assert(f.take(0) =~= Seq::<Seq<char>>::empty());
    }
    line
}

fn write_ink(ink: &Ink) -> (r: Vec<char>)
    ensures
        r@ == ink_line(*ink),
{
    let mut line = chars_of("ink");
    let ghost f = seq![
        text::digits(ink.mass as nat, 10),
        text::digits(ink.left as nat, 10),
        text::digits(ink.top as nat, 10),
        text::digits(ink.right as nat, 10),
        text::digits(ink.bottom as nat, 10),
    ];
    push_decimal(&mut line, ink.mass as u64);
    push_decimal(&mut line, ink.left as u64);
    push_decimal(&mut line, ink.top as u64);
    push_decimal(&mut line, ink.right as u64);
    push_decimal(&mut line, ink.bottom as u64);
    proof {
        lemma_spaced("ink"@, f, 5);
        lemma_spaced("ink"@, f, 4);
        lemma_spaced("ink"@, f, 3);
        lemma_spaced("ink"@, f, 2);
        lemma_spaced("ink"@, f, 1);
        assert(f.take(5) =~= f);
        assert(f.take(0) =~= Seq::<Seq<char>>::empty());
    }
    line
}

/// One measurement to a line, so a change to the frame reads as one.
pub fn write_reference(measured: &Measured) -> (r: Vec<char>)
    ensures
        r@ == written(measured@),
{
    let mut out = chars_of(HEADING_FIRST);
    out.push('\n');
    push_text(&mut out, HEADING_SECOND);
    out.push('\n');
    push_text(&mut out, HEADING_THIRD);
    out.push('\n');
    assert(out@ =~= heading());
    let size = write_size(measured);
    push_chars(&mut out, size.as_slice());
    out.push('\n');
    let ghost top = out@;
    let mut i: usize = 0;
    while i < measured.bands.len()
        invariant
            i <= measured.bands@.len(),
            out@ == top + band_lines(measured.bands@, i as nat),
        decreases measured.bands.len() - i,
    {
        let ghost before = out@;
        let line = write_band(&measured.bands[i]);
        push_chars(&mut out, line.as_slice());
        out.push('\n');
        assert(out@ =~= before + band_line(measured.bands@[i as int]).push('\n'));
        i += 1;
        assert(out@ =~= top + band_lines(measured.bands@, i as nat));
    }
    let ghost before = out@;
    let ink = write_ink(&measured.ink);
    push_chars(&mut out, ink.as_slice());
    out.push('\n');
    assert(out@ =~= before + ink_line(measured.ink).push('\n'));
    assert(out@ =~= written(measured@));
    out
}

/// A character of a word or a number as they are written.
pub open spec fn plain(c: char) -> bool {
    '0' <= c <= '9' || 'a' <= c <= 'z'
}

/// A word or a number as they are written.
pub open spec fn all_plain(s: Seq<char>) -> bool {
    s.len() > 0 && forall|i: int| 0 <= i < s.len() ==> plain(#[trigger] s[i])
}

proof fn lemma_digits(n: nat, base: nat)
    requires
        base == 10 || base == 16,
    ensures
        all_plain(text::digits(n, base)),
        value(text::digits(n, base), base) == Some(n),
    decreases n,
{
    let d = text::digits(n, base);
    if n < base {
        assert(d.drop_last() =~= Seq::<char>::empty());
        assert(value(d.drop_last(), base) == Some(0nat));
        assert(0 * base == 0) by (nonlinear_arith);
    } else {
        assert(n / base < n) by (nonlinear_arith)
            requires
                base >= 2,
                n >= base,
        ;
        lemma_digits(n / base, base);
        assert(d.drop_last() =~= text::digits(n / base, base));
        vstd::arithmetic::div_mod::lemma_fundamental_div_mod(n as int, base as int);
        assert((n / base) * base == base * (n / base)) by (nonlinear_arith);
        assert(digit_value(text::digit_char(n as int % base as int), base) == Some(
            (n as int % base as int) as nat,
        ));
    }
}

proof fn lemma_leading_zeros(k: nat, d: Seq<char>)
    ensures
        value(Seq::new(k, |i: int| '0') + d, 16) == value(d, 16),
    decreases d.len(), k,
{
    let zeros = Seq::new(k, |i: int| '0');
    if d.len() > 0 {
        assert((zeros + d).drop_last() =~= zeros + d.drop_last());
        lemma_leading_zeros(k, d.drop_last());
    } else {
        assert(zeros + d =~= zeros);
        if k > 0 {
            let fewer = Seq::new((k - 1) as nat, |i: int| '0');
            assert(zeros.drop_last() =~= fewer + Seq::<char>::empty());
            lemma_leading_zeros((k - 1) as nat, Seq::empty());
        }
    }
}

proof fn lemma_color_digits(n: nat)
    ensures
        all_plain(color_digits(n)),
        value(color_digits(n), 16) == Some(n),
{
    let d = text::digits(n, 16);
    lemma_digits(n, 16);
    if d.len() < 6 {
        lemma_leading_zeros((6 - d.len()) as nat, d);
        let c = color_digits(n);
        assert forall|i: int| 0 <= i < c.len() implies plain(#[trigger] c[i]) by {
            if i >= 6 - d.len() {
                assert(c[i] == d[i - (6 - d.len())]);
            }
        }
    }
}

/// A written number reads back.
proof fn lemma_number(s: Seq<char>, base: nat, n: u32)
    requires
        all_plain(s),
        value(s, base) == Some(n as nat),
    ensures
        number(s, base) == Some(n),
{
    assert(plain(s[0]));
}

proof fn lemma_one_word(s: Seq<char>)
    requires
        all_plain(s),
    ensures
        word_len(s) == s.len(),
        words(s) == seq![s],
    decreases s.len(),
{
    assert(plain(s[0]));
    if s.len() == 1 {
        assert(s.skip(1) =~= Seq::<char>::empty());
        assert(word_len(s.skip(1)) == 0);
    } else {
        assert forall|i: int| 0 <= i < s.skip(1).len() implies plain(#[trigger] s.skip(1)[i]) by {
            assert(s.skip(1)[i] == s[i + 1]);
        }
        lemma_one_word(s.skip(1));
    }
    assert(word_len(s) == s.len());
    assert(s.take(s.len() as int) =~= s);
    assert(s.skip(s.len() as int) =~= Seq::<char>::empty());
    assert(words(s.skip(s.len() as int)) =~= Seq::<Seq<char>>::empty());
    assert(words(s) =~= seq![s]);
}

/// A field behind a line is one more word.
proof fn lemma_words_append(a: Seq<char>, f: Seq<char>)
    requires
        all_plain(f),
    ensures
        words(a.push(' ') + f) == words(a).push(f),
    decreases a.len(),
{
    let s = a.push(' ') + f;
    if a.len() == 0 {
        assert(s.skip(1) =~= f);
        lemma_one_word(f);
        assert(words(s) =~= words(a).push(f));
    } else if text::is_space(a[0]) {
        assert(s.skip(1) =~= a.skip(1).push(' ') + f);
        lemma_words_append(a.skip(1), f);
    } else {
        lemma_word_len(a);
        lemma_word_within(a, f);
        let n = word_len(a) as int;
        assert(s.take(n) =~= a.take(n));
        assert(s.skip(n) =~= a.skip(n).push(' ') + f);
        lemma_words_append(a.skip(n), f);
        assert(words(s) =~= words(a).push(f));
    }
}

/// The first word of a line does not run on past a space.
proof fn lemma_word_within(a: Seq<char>, f: Seq<char>)
    ensures
        word_len(a.push(' ') + f) == word_len(a),
    decreases a.len(),
{
    let s = a.push(' ') + f;
    if a.len() > 0 && !text::is_space(a[0]) {
        assert(s.skip(1) =~= a.skip(1).push(' ') + f);
        lemma_word_within(a.skip(1), f);
    }
}

/// Whether every field is a word or a number as they are written.
pub open spec fn fields_plain(f: Seq<Seq<char>>) -> bool {
    forall|i: int| 0 <= i < f.len() ==> all_plain(#[trigger] f[i])
}

/// Whether there is no newline.
pub open spec fn one_line(s: Seq<char>) -> bool {
    forall|i: int| 0 <= i < s.len() ==> #[trigger] s[i] != '\n'
}

/// The words of a written line are the word and the fields it was made of.
proof fn lemma_spaced_words(word: Seq<char>, f: Seq<Seq<char>>)
    requires
        all_plain(word),
        fields_plain(f),
    ensures
        words(spaced(word, f)) == seq![word] + f,
        one_line(spaced(word, f)),
    decreases f.len(),
{
    if f.len() == 0 {
        lemma_one_word(word);
        assert(seq![word] + f =~= seq![word]);
        assert forall|i: int| 0 <= i < word.len() implies #[trigger] word[i] != '\n' by {
            assert(plain(word[i]));
        }
    } else {
        lemma_spaced_words(word, f.drop_last());
        assert(all_plain(f.last()));
        lemma_words_append(spaced(word, f.drop_last()), f.last());
        assert((seq![word] + f.drop_last()).push(f.last()) =~= seq![word] + f);
        let s = spaced(word, f);
        let n = spaced(word, f.drop_last()).len();
        assert forall|i: int| 0 <= i < s.len() implies #[trigger] s[i] != '\n' by {
            if i < n {
                assert(s[i] == spaced(word, f.drop_last())[i]);
            } else if i > n {
                assert(s[i] == f.last()[i - n - 1]);
                assert(plain(f.last()[i - n - 1]));
            }
        }
    }
}

/// A line and its newline are the first piece of what they begin.
proof fn lemma_pieces_front(line: Seq<char>, rest: Seq<char>)
    requires
        one_line(line),
    ensures
        text::pieces(line.push('\n') + rest, '\n') == seq![line] + text::pieces(rest, '\n'),
    decreases rest.len(),
{
    let s = line.push('\n') + rest;
    if rest.len() == 0 {
        assert(s.drop_last() =~= line);
        lemma_one_piece(line);
        assert(text::pieces(s, '\n') =~= seq![line] + text::pieces(rest, '\n'));
    } else {
        let less = rest.drop_last();
        assert(s.drop_last() =~= line.push('\n') + less);
        lemma_pieces_front(line, less);
        text::lemma_pieces_nonempty(less, '\n');
        assert(text::pieces(s, '\n') =~= seq![line] + text::pieces(rest, '\n'));
    }
}

proof fn lemma_one_piece(line: Seq<char>)
    requires
        one_line(line),
    ensures
        text::pieces(line, '\n') == seq![line],
    decreases line.len(),
{
    if line.len() > 0 {
        lemma_one_piece(line.drop_last());
        assert(line[line.len() - 1] != '\n');
        assert(line.drop_last().push(line.last()) =~= line);
        assert(text::pieces(line, '\n') =~= seq![line]);
    } else {
        assert(line =~= Seq::<char>::empty());
    }
}

/// What a band's line reads as.
proof fn lemma_band_line(m: MeasuredView, b: Band)
    ensures
        one_line(band_line(b)),
        with_line(m, band_line(b)) == Some(MeasuredView { bands: m.bands.push(b), ..m }),
{
    reveal_strlit("band");
    reveal_strlit("size");
    let f = seq![text::digits(b.top as nat, 10), text::digits(b.bottom as nat, 10), color_digits(b.color as nat)];
    lemma_digits(b.top as nat, 10);
    lemma_digits(b.bottom as nat, 10);
    lemma_color_digits(b.color as nat);
    lemma_spaced_words("band"@, f);
    lemma_number(f[0], 10, b.top);
    lemma_number(f[1], 10, b.bottom);
    lemma_number(f[2], 16, b.color);
    let w = words(band_line(b));
    assert(w[0] == "band"@ && w[1] == f[0] && w[2] == f[1] && w[3] == f[2]);
    assert("band"@[0] != "size"@[0]);
}

/// What the line of a size reads as.
proof fn lemma_size_line(m: MeasuredView, frame: MeasuredView)
    ensures
        one_line(size_line(frame)),
        with_line(m, size_line(frame)) == Some(
            MeasuredView { width: frame.width, height: frame.height, ..m },
        ),
{
    reveal_strlit("size");
    let f = seq![text::digits(frame.width as nat, 10), text::digits(frame.height as nat, 10)];
    lemma_digits(frame.width as nat, 10);
    lemma_digits(frame.height as nat, 10);
    lemma_spaced_words("size"@, f);
    lemma_number(f[0], 10, frame.width);
    lemma_number(f[1], 10, frame.height);
    let w = words(size_line(frame));
    assert(w[0] == "size"@ && w[1] == f[0] && w[2] == f[1]);
}

/// What the line of some ink reads as.
proof fn lemma_ink_line(m: MeasuredView, ink: Ink)
    requires
        ink.mass <= u32::MAX,
    ensures
        one_line(ink_line(ink)),
        with_line(m, ink_line(ink)) == Some(MeasuredView { ink, ..m }),
{
    reveal_strlit("ink");
    reveal_strlit("size");
    reveal_strlit("band");
    let f = seq![
        text::digits(ink.mass as nat, 10),
        text::digits(ink.left as nat, 10),
        text::digits(ink.top as nat, 10),
        text::digits(ink.right as nat, 10),
        text::digits(ink.bottom as nat, 10),
    ];
    lemma_digits(ink.mass as nat, 10);
    lemma_digits(ink.left as nat, 10);
    lemma_digits(ink.top as nat, 10);
    lemma_digits(ink.right as nat, 10);
    lemma_digits(ink.bottom as nat, 10);
    lemma_spaced_words("ink"@, f);
    lemma_number(f[0], 10, ink.mass as u32);
    lemma_number(f[1], 10, ink.left);
    lemma_number(f[2], 10, ink.top);
    lemma_number(f[3], 10, ink.right);
    lemma_number(f[4], 10, ink.bottom);
    let w = words(ink_line(ink));
    assert(w[0] == "ink"@ && w[1] == f[0] && w[2] == f[1] && w[3] == f[2] && w[4] == f[3] && w[5]
        == f[4]);
    assert("ink"@[0] != "size"@[0] && "ink"@[0] != "band"@[0]);
}

/// Whether a line changes nothing.
#[verifier::opaque]
pub open spec fn says_nothing(s: Seq<char>) -> bool {
    forall|m: MeasuredView| #[trigger] with_line(m, s) == Some(m)
}

/// A comment changes nothing.
proof fn lemma_comment(s: Seq<char>)
    requires
        s.len() > 0,
        s[0] == '#',
    ensures
        says_nothing(s),
{
    reveal(says_nothing);
    lemma_word_len(s);
    assert(words(s)[0] == s.take(word_len(s) as int));
}

proof fn lemma_heading()
    ensures
        one_line(HEADING_FIRST@),
        one_line(HEADING_SECOND@),
        one_line(HEADING_THIRD@),
        says_nothing(HEADING_FIRST@),
        says_nothing(HEADING_SECOND@),
        says_nothing(HEADING_THIRD@),
{
    reveal_strlit("# What the frame in src/dev/screenshot.rs measures out to, colors as the");
    reveal_strlit("# frame holds them, premultiplied. Rewritten by `make frame-update`;");
    reveal_strlit("# look at assets/screenshot.png before committing.");
    lemma_comment(HEADING_FIRST@);
    lemma_comment(HEADING_SECOND@);
    lemma_comment(HEADING_THIRD@);
}

/// The lines of the first n bands.
pub open spec fn band_texts(bands: Seq<Band>, n: nat) -> Seq<Seq<char>> {
    Seq::new(n, |i: int| band_line(bands[i]))
}

proof fn lemma_band_pieces(bands: Seq<Band>, n: nat, rest: Seq<char>)
    requires
        n <= bands.len(),
    ensures
        text::pieces(band_lines(bands, n) + rest, '\n') == band_texts(bands, n) + text::pieces(
            rest,
            '\n',
        ),
    decreases n,
{
    if n == 0 {
        assert(band_lines(bands, n) + rest =~= rest);
        assert(band_texts(bands, n) + text::pieces(rest, '\n') =~= text::pieces(rest, '\n'));
    } else {
        let line = band_line(bands[n - 1]);
        let tail = line.push('\n') + rest;
        assert(band_lines(bands, n) + rest =~= band_lines(bands, (n - 1) as nat) + tail);
        lemma_band_pieces(bands, (n - 1) as nat, tail);
        lemma_band_line(unmeasured(), bands[n - 1]);
        lemma_pieces_front(line, rest);
        assert(band_texts(bands, (n - 1) as nat) + (seq![line] + text::pieces(rest, '\n'))
            =~= band_texts(bands, n) + text::pieces(rest, '\n'));
    }
}

/// Reading the bands' lines gives the bands.
proof fn lemma_read_bands(m: MeasuredView, lines: Seq<Seq<char>>, at: int, bands: Seq<Band>, k: nat)
    requires
        k <= bands.len(),
        m.bands == bands.take(k as int),
        0 <= at,
        at + bands.len() <= lines.len(),
        forall|i: int| 0 <= i < bands.len() ==> #[trigger] lines[at + i] == band_line(bands[i]),
    ensures
        with_lines(m, lines, at + k) == with_lines(
            MeasuredView { bands, ..m },
            lines,
            (at + bands.len()) as int,
        ),
    decreases bands.len() - k,
{
    if k == bands.len() {
        assert(bands.take(k as int) =~= bands);
    } else {
        assert(lines[at + k] == band_line(bands[k as int]));
        lemma_band_line(m, bands[k as int]);
        let next = MeasuredView { bands: m.bands.push(bands[k as int]), ..m };
        assert(next.bands =~= bands.take(k as int + 1));
        lemma_read_bands(next, lines, at, bands, k + 1);
    }
}

/// The lines of measurements.
pub open spec fn measure_lines(m: MeasuredView) -> Seq<Seq<char>> {
    seq![size_line(m)] + band_texts(m.bands, m.bands.len()) + seq![
        ink_line(m.ink),
        Seq::<char>::empty(),
    ]
}

proof fn lemma_measure_lines(m: MeasuredView)
    requires
        m.ink.mass <= u32::MAX,
    ensures
        text::pieces(
            size_line(m).push('\n') + (band_lines(m.bands, m.bands.len()) + ink_line(m.ink).push(
                '\n',
            )),
            '\n',
        ) == measure_lines(m),
{
    let n = m.bands.len();
    let last = ink_line(m.ink).push('\n');
    lemma_size_line(unmeasured(), m);
    lemma_ink_line(unmeasured(), m.ink);
    lemma_pieces_front(size_line(m), band_lines(m.bands, n) + last);
    lemma_band_pieces(m.bands, n, last);
    lemma_pieces_front(ink_line(m.ink), Seq::empty());
    assert(last + Seq::<char>::empty() =~= last);
    assert(text::pieces(Seq::<char>::empty(), '\n') =~= seq![Seq::<char>::empty()]);
    assert(seq![size_line(m)] + (band_texts(m.bands, n) + (seq![ink_line(m.ink)] + seq![
        Seq::<char>::empty(),
    ])) =~= measure_lines(m));
}

/// Three lines in front of others are their own pieces.
proof fn lemma_three_in_front(a: Seq<char>, b: Seq<char>, c: Seq<char>, rest: Seq<char>)
    requires
        one_line(a),
        one_line(b),
        one_line(c),
    ensures
        text::pieces(a.push('\n') + b.push('\n') + c.push('\n') + rest, '\n') == seq![a, b, c]
            + text::pieces(rest, '\n'),
{
    let third = c.push('\n') + rest;
    let second = b.push('\n') + third;
    assert(a.push('\n') + b.push('\n') + c.push('\n') + rest =~= a.push('\n') + second);
    lemma_pieces_front(a, second);
    lemma_pieces_front(b, third);
    lemma_pieces_front(c, rest);
    assert(seq![a] + (seq![b] + (seq![c] + text::pieces(rest, '\n'))) =~= seq![a, b, c]
        + text::pieces(rest, '\n'));
}

/// Lines in front that change nothing may be left out.
proof fn lemma_skip_front(m: MeasuredView, front: Seq<Seq<char>>, lines: Seq<Seq<char>>, k: int)
    requires
        0 <= k <= front.len(),
        forall|i: int| 0 <= i < front.len() ==> says_nothing(#[trigger] front[i]),
    ensures
        with_lines(m, front + lines, k) == with_lines(m, front + lines, front.len() as int),
    decreases front.len() - k,
{
    if k < front.len() {
        reveal(says_nothing);
        assert((front + lines)[k] == front[k]);
        assert(with_line(m, front[k]) == Some(m));
        lemma_skip_front(m, front, lines, k + 1);
    }
}

/// Reading the lines of measurements, from where they start, gives them.
proof fn lemma_read_measures(m: MeasuredView, front: Seq<Seq<char>>)
    requires
        m.ink.mass <= u32::MAX,
    ensures
        with_lines(unmeasured(), front + measure_lines(m), front.len() as int) == Ok::<
            MeasuredView,
            int,
        >(m),
{
    let n = m.bands.len();
    let at = front.len() as int;
    let lines = front + measure_lines(m);
    lemma_size_line(unmeasured(), m);
    let with_size = MeasuredView { width: m.width, height: m.height, ..unmeasured() };
    let banded = MeasuredView { bands: m.bands, ..with_size };
    lemma_ink_line(banded, m.ink);
    assert(lines[at] == size_line(m));
    assert forall|i: int| 0 <= i < n implies #[trigger] lines[at + 1 + i] == band_line(
        m.bands[i],
    ) by {
        assert(lines[at + 1 + i] == band_texts(m.bands, n)[i]);
    }
    assert(with_size.bands =~= m.bands.take(0));
    lemma_read_bands(with_size, lines, at + 1, m.bands, 0);
    assert(lines[at + 1 + n] == ink_line(m.ink));
    assert(lines[at + 2 + n] == Seq::<char>::empty());
    assert(with_line(m, Seq::empty()) == Some(m));
    assert(MeasuredView { ink: m.ink, ..banded } =~= m);
    assert(with_lines(banded, lines, at + 1 + n) == with_lines(m, lines, at + 2 + n));
    assert(with_lines(m, lines, at + 2 + n) == with_lines(m, lines, at + 3 + n));
}

/// Measurements under three lines that say nothing read back the same.
proof fn lemma_read_under(a: Seq<char>, b: Seq<char>, c: Seq<char>, m: MeasuredView)
    requires
        m.ink.mass <= u32::MAX,
        one_line(a) && says_nothing(a),
        one_line(b) && says_nothing(b),
        one_line(c) && says_nothing(c),
    ensures
        with_lines(
            unmeasured(),
            text::pieces(
                a.push('\n') + b.push('\n') + c.push('\n') + (size_line(m).push('\n') + (
                band_lines(m.bands, m.bands.len()) + ink_line(m.ink).push('\n'))),
                '\n',
            ),
            0,
        ) == Ok::<MeasuredView, int>(m),
{
    let front = seq![a, b, c];
    lemma_measure_lines(m);
    lemma_three_in_front(
        a,
        b,
        c,
        size_line(m).push('\n') + (band_lines(m.bands, m.bands.len()) + ink_line(m.ink).push('\n')),
    );
    lemma_skip_front(unmeasured(), front, measure_lines(m), 0);
    lemma_read_measures(m, front);
}

/// What is written to the file comes back the same. The number of pixels that
/// carry ink has to be one the file can hold.
pub proof fn law_a_reference_round_trips(m: MeasuredView)
    requires
        m.ink.mass <= u32::MAX,
    ensures
        read(written(m)) == Ok::<MeasuredView, int>(m),
{
    lemma_heading();
    lemma_read_under(HEADING_FIRST@, HEADING_SECOND@, HEADING_THIRD@, m);
}

} // verus!
