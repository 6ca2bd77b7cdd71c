//! User configuration.
//!
//! $XDG_CONFIG_HOME/bnklaunch/config (fallback ~/.config/bnklaunch/config), one
//! `field value` per line. Blank lines and # comments are ignored, and an
//! unknown field is skipped rather than refused, so a config written for a later
//! version still loads. A field may repeat: hidden takes one app name per line
//! and they accumulate.
//!
//! A colour is #RRGGBB, or #RRGGBBAA to carry alpha. One that does not parse
//! leaves its field at the default, as an unknown field does.
use vstd::prelude::*;
use vstd::utf8::*;

use crate::desktop;
use crate::desktop::NAME_CAP;
use crate::platform::arena::{ArrayString, ArrayVec};
use crate::platform::syscall::PATH_CAP;
use crate::shm;
use crate::platform::text;
use crate::platform::text::{chars_of, is_text, is_whitespace, same_chars, split, str_from_utf8, trim};
use crate::theme;
use crate::theme::{Color, Palette, Theme};

verus! {

/// Largest config file read; config is a handful of short lines.
pub const CONFIG_MAX: usize = 16384;

/// Byte capacity of the configured search URL template. Smaller than the URL
/// the launcher builds from it, which also carries the percent-encoded query.
pub const SEARCH_URL_CAP: usize = 512;

/// Most hidden app names the config holds.
pub const MAX_DENY: usize = 64;

/// Parsed configuration. A field absent from the file keeps its default.
#[derive(Debug, PartialEq, Eq)]
pub struct Config {
    /// Search URL for the s: prefix; None disables it. The URL holds %s where
    /// the percent-encoded query goes, or has the query appended when it has
    /// no placeholder.
    pub search_url: Option<ArrayString<SEARCH_URL_CAP>>,
    /// App names to hide from results, one per hidden line, deduplicated.
    pub denied: ArrayVec<ArrayString<NAME_CAP>, MAX_DENY>,
    /// The colours to draw with; one the file leaves out keeps its default.
    pub theme: Theme,
}

/// What a configuration holds.
#[verifier::ext_equal]
pub struct ConfigView {
    pub search_url: Option<Seq<char>>,
    pub denied: Seq<Seq<char>>,
    pub theme: Palette,
}

impl View for Config {
    type V = ConfigView;

    open spec fn view(&self) -> ConfigView {
        ConfigView {
            search_url: match self.search_url {
                Some(u) => Some(u@),
                None => None,
            },
            denied: desktop::strings(self.denied@),
            theme: self.theme@,
        }
    }
}

impl Config {
    /// Every field is within its capacity.
    pub open spec fn wf(&self) -> bool {
        &&& self.search_url matches Some(u) ==> u.wf()
        &&& self.denied.wf()
        &&& desktop::all_wf(self.denied@)
    }
}

/// The configuration without a file.
pub open spec fn defaults() -> ConfigView {
    ConfigView { search_url: None, denied: Seq::empty(), theme: theme::default_palette() }
}

impl Default for Config {
    fn default() -> (r: Self)
        ensures
            r.wf(),
            r@ == defaults(),
    {
        let r = Config { search_url: None, denied: ArrayVec::new(), theme: Theme::default() };
        assert(desktop::strings(r.denied@) == Seq::<Seq<char>>::empty());
        r
    }
}

/// Where the config file is.
pub open spec fn path_of(xdg: Option<Seq<char>>, home: Option<Seq<char>>) -> Option<Seq<char>> {
    match xdg {
        Some(dir) => Some(dir + "/bnklaunch/config"@),
        None => match home {
            Some(dir) => Some(dir + "/.config"@ + "/bnklaunch/config"@),
            None => None,
        },
    }
}

/// The config file's path, from the values of XDG_CONFIG_HOME and HOME. None
/// without either, or when the path is too long.
pub fn config_path(xdg: Option<&str>, home: Option<&str>) -> (r: Option<ArrayString<PATH_CAP>>)
    ensures
        ({
            let want = path_of(desktop::text_opt(xdg), desktop::text_opt(home));
            &&& r is Some <==> want is Some && text::byte_len(want->0) <= PATH_CAP
            &&& r matches Some(p) ==> p.wf() && p@ == want->0
        }),
{
    let mut p: ArrayString<PATH_CAP> = ArrayString::new();
    proof {
        text::lemma_byte_len_bounds(Seq::<char>::empty());
    }
    if let Some(dir) = xdg {
        proof {
            assert(Seq::<char>::empty() + dir@ == dir@);
            text::lemma_encode_concat(dir@, "/bnklaunch/config"@);
        }
        if p.push_str(dir).is_err() {
            return None;
        }
    } else if let Some(dir) = home {
        proof {
            assert(Seq::<char>::empty() + dir@ == dir@);
            text::lemma_encode_concat(dir@, "/.config"@);
            text::lemma_encode_concat(dir@ + "/.config"@, "/bnklaunch/config"@);
        }
        if p.push_str(dir).is_err() || p.push_str("/.config").is_err() {
            return None;
        }
    } else {
        return None;
    }
    if p.push_str("/bnklaunch/config").is_err() {
        return None;
    }
    Some(p)
}

/// The value of a hex digit, in either case.
pub open spec fn digit(c: char) -> Option<u8> {
    if '0' <= c <= '9' {
        Some((c as int - 0x30) as u8)
    } else if 'a' <= c <= 'f' {
        Some((c as int - 0x61 + 10) as u8)
    } else if 'A' <= c <= 'F' {
        Some((c as int - 0x41 + 10) as u8)
    } else {
        None
    }
}

/// The byte that two hex digits make.
pub open spec fn byte(s: Seq<char>, i: int) -> u8 {
    (digit(s[i])->0 * 16 + digit(s[i + 1])->0) as u8
}

/// The digits of a colour: the value without its hash.
pub open spec fn color_digits(value: Seq<char>) -> Seq<char> {
    if value.len() > 0 && value[0] == '#' {
        value.drop_first()
    } else {
        value
    }
}

/// The colour a value spells: six hex digits, or eight with an alpha.
pub open spec fn color_of(value: Seq<char>) -> Option<u32> {
    let s = color_digits(value);
    if (s.len() == 6 || s.len() == 8) && (forall|i: int|
        0 <= i < s.len() ==> digit(#[trigger] s[i]) is Some) {
        Some(
            theme::premultiply(
                byte(s, 0),
                byte(s, 2),
                byte(s, 4),
                if s.len() == 8 {
                    byte(s, 6)
                } else {
                    0xff
                },
            ),
        )
    } else {
        None
    }
}

fn hex_digit(c: char) -> (r: Option<u8>)
    ensures
        r == digit(c),
        r matches Some(d) ==> d < 16,
{
    let u: u32 = c as u32;
    if 0x30 <= u && u <= 0x39 {
        Some((u - 0x30) as u8)
    } else if 0x61 <= u && u <= 0x66 {
        Some((u - 0x61 + 10) as u8)
    } else if 0x41 <= u && u <= 0x46 {
        Some((u - 0x41 + 10) as u8)
    } else {
        None
    }
}

/// Two hex digits as a byte.
fn hex_byte(s: &[char], i: usize) -> (r: Option<u8>)
    requires
        i + 1 < s@.len(),
    ensures
        r is Some <==> digit(s@[i as int]) is Some && digit(s@[i + 1]) is Some,
        r matches Some(b) ==> b == byte(s@, i as int),
{
    match (hex_digit(s[i]), hex_digit(s[i + 1])) {
        (Some(hi), Some(lo)) => Some(hi * 16 + lo),
        _ => None,
    }
}

/// #RRGGBB or #RRGGBBAA, with the hash optional and the digits either case.
/// Six digits means fully opaque.
pub fn parse_color(value: &[char]) -> (r: Option<Color>)
    ensures
        r is Some <==> color_of(value@) is Some,
        r matches Some(c) ==> c.spec_argb() == color_of(value@)->0,
{
    let hex = if value.len() > 0 && value[0] == '#' {
        let s = vstd::slice::slice_subrange(value, 1, value.len());
        assert(s@ == value@.drop_first());
        s
    } else {
        value
    };
    let ghost s = hex@;
    assert(s == color_digits(value@));
    if hex.len() != 6 && hex.len() != 8 {
        return None;
    }
    let a: u8 = if hex.len() == 8 {
        match hex_byte(hex, 6) {
            Some(a) => a,
            None => {
                return None;
            },
        }
    } else {
        0xff
    };
    match (hex_byte(hex, 0), hex_byte(hex, 2), hex_byte(hex, 4)) {
        (Some(r), Some(g), Some(b)) => {
            assert forall|i: int| 0 <= i < s.len() implies digit(#[trigger] s[i]) is Some by {
                assert(i == 0 || i == 1 || i == 2 || i == 3 || i == 4 || i == 5 || i == 6 || i == 7);
            }
            Some(Color::rgba(r, g, b, a))
        },
        _ => None,
    }
}

/// A colour with a new value, or as it was when the value does not parse.
pub open spec fn recolored(c: u32, value: Seq<char>) -> u32 {
    match color_of(value) {
        Some(n) => n,
        None => c,
    }
}

/// Set a theme colour, leaving it as it was when the value does not parse.
fn set_color(field: &mut Color, value: &[char])
    ensures
        final(field).spec_argb() == recolored(old(field).spec_argb(), value@),
{
    if let Some(color) = parse_color(value) {
        *field = color;
    }
}

/// The names hidden once a further name is.
pub open spec fn with_hidden(denied: Seq<Seq<char>>, name: Seq<char>) -> Seq<Seq<char>> {
    if denied.contains(name) || text::byte_len(name) > NAME_CAP || denied.len() >= MAX_DENY {
        denied
    } else {
        denied.push(name)
    }
}

/// The configuration after a field is set.
pub open spec fn with_field(c: ConfigView, field: Seq<char>, value: Seq<char>) -> ConfigView {
    if field == "search_url"@ {
        if text::byte_len(value) <= SEARCH_URL_CAP {
            ConfigView { search_url: Some(value), ..c }
        } else {
            c
        }
    } else if field == "hidden"@ {
        ConfigView { denied: with_hidden(c.denied, value), ..c }
    } else {
        ConfigView { theme: with_color(c.theme, field, value), ..c }
    }
}

/// The palette after a field is set.
pub open spec fn with_color(t: Palette, field: Seq<char>, value: Seq<char>) -> Palette {
    if field == "background"@ {
        Palette { background: recolored(t.background, value), ..t }
    } else if field == "text"@ {
        Palette { text: recolored(t.text, value), ..t }
    } else if field == "subtitle"@ {
        Palette { subtitle: recolored(t.subtitle, value), ..t }
    } else if field == "highlight"@ {
        Palette { highlight: recolored(t.highlight, value), ..t }
    } else if field == "caret"@ {
        Palette { caret: recolored(t.caret, value), ..t }
    } else if field == "selection"@ {
        Palette { selection: recolored(t.selection, value), ..t }
    } else {
        t
    }
}

/// Where the first whitespace is, or the length without any.
pub open spec fn first_space(s: Seq<char>) -> int
    decreases s.len(),
{
    if s.len() == 0 || text::is_space(s[0]) {
        0
    } else {
        1 + first_space(s.drop_first())
    }
}

/// The configuration after a line is read: a comment, a blank line or a field
/// without a value changes nothing.
pub open spec fn with_line(c: ConfigView, raw: Seq<char>) -> ConfigView {
    let line = text::trimmed(raw);
    let k = first_space(line);
    let value = text::trimmed(line.skip(k + 1));
    if line.len() == 0 || line[0] == '#' || k >= line.len() || value.len() == 0 {
        c
    } else {
        with_field(c, line.take(k), value)
    }
}

/// The configuration after some lines.
pub open spec fn with_lines(lines: Seq<Seq<char>>) -> ConfigView
    decreases lines.len(),
{
    if lines.len() == 0 {
        defaults()
    } else {
        with_line(with_lines(lines.drop_last()), lines.last())
    }
}

/// The configuration a file's text spells.
pub open spec fn parsed(content: Seq<char>) -> ConfigView {
    with_lines(text::pieces(content, '\n'))
}

impl Config {
    /// Hide a name. One already hidden is not stored twice.
    fn deny(&mut self, value: &[char])
        requires
            old(self).wf(),
        ensures
            final(self).wf(),
            final(self)@ == (ConfigView {
                denied: with_hidden(old(self)@.denied, value@),
                ..old(self)@
            }),
    {
        let mut i: usize = 0;
        while i < self.denied.len()
            invariant
                self == old(self),
                self.wf(),
                i <= self.denied@.len(),
                forall|j: int| 0 <= j < i ==> desktop::strings(self.denied@)[j] != value@,
            decreases self.denied@.len() - i,
        {
            let name = chars_of(self.denied.as_slice()[i].as_str());
            assert(desktop::strings(self.denied@)[i as int] == name@);
            if same_chars(name.as_slice(), value) {
                assert(desktop::strings(self.denied@).contains(value@));
                return;
            }
            i += 1;
        }
        assert(!desktop::strings(self.denied@).contains(value@));
        let mut name: ArrayString<NAME_CAP> = ArrayString::new();
        proof {
            text::lemma_byte_len_bounds(Seq::<char>::empty());
            assert(Seq::<char>::empty() + value@ == value@);
        }
        if name.push_chars(value).is_ok() {
            let ghost before = self.denied@;
            let _ = self.denied.push(name);
            proof {
                if before.len() < MAX_DENY {
                    assert(desktop::strings(self.denied@) == desktop::strings(before).push(value@));
                }
            }
        }
    }

    /// Set a field. An unknown one is skipped.
    fn set(&mut self, field: &[char], value: &[char])
        requires
            old(self).wf(),
        ensures
            final(self).wf(),
            final(self)@ == with_field(old(self)@, field@, value@),
    {
        if is_text(field, "search_url") {
            let mut url: ArrayString<SEARCH_URL_CAP> = ArrayString::new();
            proof {
                text::lemma_byte_len_bounds(Seq::<char>::empty());
                assert(Seq::<char>::empty() + value@ == value@);
            }
            if url.push_chars(value).is_ok() {
                self.search_url = Some(url);
            }
        } else if is_text(field, "hidden") {
            self.deny(value);
        } else if is_text(field, "background") {
            set_color(&mut self.theme.background, value);
        } else if is_text(field, "text") {
            set_color(&mut self.theme.text, value);
        } else if is_text(field, "subtitle") {
            set_color(&mut self.theme.subtitle, value);
        } else if is_text(field, "highlight") {
            set_color(&mut self.theme.highlight, value);
        } else if is_text(field, "caret") {
            set_color(&mut self.theme.caret, value);
        } else if is_text(field, "selection") {
            set_color(&mut self.theme.selection, value);
        }
    }

    /// Read a line.
    fn read_line(&mut self, raw: &[char])
        requires
            old(self).wf(),
        ensures
            final(self).wf(),
            final(self)@ == with_line(old(self)@, raw@),
    {
        let line = trim(raw);
        if line.len() == 0 || line[0] == '#' {
            return;
        }
        // The first whitespace splits the field name from its value.
        let k = find_space(line);
        if k >= line.len() {
            return;
        }
        let field = vstd::slice::slice_subrange(line, 0, k);
        let rest = vstd::slice::slice_subrange(line, k + 1, line.len());
        assert(field@ == line@.take(k as int));
        assert(rest@ == line@.skip(k + 1));
        let value = trim(rest);
        if value.len() == 0 {
            return;
        }
        self.set(field, value);
    }
}

fn find_space(s: &[char]) -> (r: usize)
    ensures
        r == first_space(s@),
        r <= s@.len(),
{
    let mut i: usize = 0;
    assert(s@.skip(0) == s@);
    while i < s.len() && !is_whitespace(s[i])
        invariant
            i <= s@.len(),
            first_space(s@) == i + first_space(s@.skip(i as int)),
        decreases s.len() - i,
    {
        assert(s@.skip(i as int).drop_first() == s@.skip(i + 1));
        i += 1;
    }
    i
}

/// The configuration a file's text spells.
pub fn parse(content: &str) -> (r: Config)
    ensures
        r.wf(),
        r@ == parsed(content@),
{
    let chars = chars_of(content);
    let lines = split(chars.as_slice(), '\n');
    let mut config = Config::default();
    let ghost all = text::pieces(content@, '\n');
    let mut i: usize = 0;
    assert(all.take(0) == Seq::<Seq<char>>::empty());
    while i < lines.len()
        invariant
            i <= lines@.len(),
            config.wf(),
            text::texts(lines@) == all,
            config@ == with_lines(all.take(i as int)),
        decreases lines.len() - i,
    {
        assert(all[i as int] == lines@[i as int]@);
        assert(all.take(i + 1).drop_last() == all.take(i as int));
        config.read_line(lines[i].as_slice());
        i += 1;
    }
    assert(all.take(all.len() as int) == all);
    config
}

/// Load configuration from the config file's bytes. A missing or unreadable
/// file yields the defaults, so a typo or absent file never stops the launcher.
pub fn load(file: Option<&[u8]>) -> (r: Config)
    ensures
        r.wf(),
        match file {
            Some(data) => if data@.len() <= CONFIG_MAX && valid_utf8(data@) {
                r@ == parsed(decode_utf8(data@))
            } else {
                r@ == defaults()
            },
            None => r@ == defaults(),
        },
{
    match file {
        Some(data) => {
            if data.len() > CONFIG_MAX {
                return Config::default();
            }
            match str_from_utf8(data) {
                Some(content) => {
                    proof {
                        encode_utf8_decode_utf8(content@);
                    }
                    parse(content)
                },
                None => Config::default(),
            }
        },
        None => Config::default(),
    }
}

/// An unknown field is skipped rather than refused, so a config written for a
/// later version still loads.
pub proof fn law_an_unknown_field_changes_nothing(c: ConfigView, field: Seq<char>, value: Seq<char>)
    requires
        !(seq![
            "search_url"@,
            "hidden"@,
            "background"@,
            "text"@,
            "subtitle"@,
            "highlight"@,
            "caret"@,
            "selection"@,
        ]).contains(field),
    ensures
        with_field(c, field, value) == c,
{
    let known = seq![
        "search_url"@,
        "hidden"@,
        "background"@,
        "text"@,
        "subtitle"@,
        "highlight"@,
        "caret"@,
        "selection"@,
    ];
    assert(known[0] != field && known[1] != field && known[2] != field && known[3] != field
        && known[4] != field && known[5] != field && known[6] != field && known[7] != field);
}

/// A later search URL replaces an earlier one, and a later colour an earlier
/// one; the hidden names accumulate.
pub proof fn law_the_last_value_wins(c: ConfigView, field: Seq<char>, a: Seq<char>, b: Seq<char>)
    requires
        field == "search_url"@ ==> text::byte_len(b) <= SEARCH_URL_CAP,
        field != "search_url"@ && field != "hidden"@ ==> color_of(b) is Some,
    ensures
        field != "hidden"@ ==> with_field(with_field(c, field, a), field, b) == with_field(
            c,
            field,
            b,
        ),
        field == "hidden"@ ==> c.denied.is_prefix_of(with_field(c, field, a).denied),
{
    if field == "hidden"@ {
        assert(c.denied.is_prefix_of(with_hidden(c.denied, a)));
    }
}

proof fn lemma_lines_keep_names_distinct(lines: Seq<Seq<char>>)
    ensures
        with_lines(lines).denied.no_duplicates(),
        with_lines(lines).denied.len() <= MAX_DENY,
    decreases lines.len(),
{
    if lines.len() > 0 {
        lemma_lines_keep_names_distinct(lines.drop_last());
        let before = with_lines(lines.drop_last()).denied;
        let after = with_lines(lines).denied;
        let line = text::trimmed(lines.last());
        let value = text::trimmed(line.skip(first_space(line) + 1));
        assert(after == before || after == with_hidden(before, value));
        assert(with_hidden(before, value).no_duplicates());
    }
}

/// However often a name is hidden, it is held once.
pub proof fn law_hidden_names_are_distinct(content: Seq<char>)
    ensures
        parsed(content).denied.no_duplicates(),
        parsed(content).denied.len() <= MAX_DENY,
{
    lemma_lines_keep_names_distinct(text::pieces(content, '\n'));
}

/// Whether every colour of a palette is premultiplied.
pub open spec fn drawable(t: Palette) -> bool {
    &&& shm::premultiplied(t.background)
    &&& shm::premultiplied(t.text)
    &&& shm::premultiplied(t.subtitle)
    &&& shm::premultiplied(t.highlight)
    &&& shm::premultiplied(t.caret)
    &&& shm::premultiplied(t.selection)
}

proof fn lemma_recolored_is_premultiplied(c: u32, value: Seq<char>)
    requires
        shm::premultiplied(c),
    ensures
        shm::premultiplied(recolored(c, value)),
{
    if color_of(value) is Some {
        let s = color_digits(value);
        theme::law_colours_are_premultiplied(
            byte(s, 0),
            byte(s, 2),
            byte(s, 4),
            if s.len() == 8 {
                byte(s, 6)
            } else {
                0xff
            },
        );
    }
}

proof fn lemma_lines_keep_the_palette_drawable(lines: Seq<Seq<char>>)
    ensures
        drawable(with_lines(lines).theme),
    decreases lines.len(),
{
    if lines.len() == 0 {
        theme::law_colours_are_premultiplied(0x1f, 0x21, 0x24, 0xf0);
        theme::law_colours_are_premultiplied(0xec, 0xec, 0xec, 0xff);
        theme::law_colours_are_premultiplied(0x88, 0x88, 0x88, 0xff);
        theme::law_colours_are_premultiplied(0xff, 0xff, 0xff, 0x0d);
        theme::law_colours_are_premultiplied(0x6f, 0xd3, 0xef, 0xff);
        theme::law_colours_are_premultiplied(0x2f, 0x7b, 0xa6, 0xff);
    } else {
        lemma_lines_keep_the_palette_drawable(lines.drop_last());
        let t = with_lines(lines.drop_last()).theme;
        let line = text::trimmed(lines.last());
        let value = text::trimmed(line.skip(first_space(line) + 1));
        lemma_recolored_is_premultiplied(t.background, value);
        lemma_recolored_is_premultiplied(t.text, value);
        lemma_recolored_is_premultiplied(t.subtitle, value);
        lemma_recolored_is_premultiplied(t.highlight, value);
        lemma_recolored_is_premultiplied(t.caret, value);
        lemma_recolored_is_premultiplied(t.selection, value);
    }
}

/// Whatever a config says, the colours it leaves to draw with are premultiplied.
pub proof fn law_every_palette_is_drawable(content: Seq<char>)
    ensures
        drawable(parsed(content).theme),
{
    lemma_lines_keep_the_palette_drawable(text::pieces(content, '\n'));
}

} // verus!
