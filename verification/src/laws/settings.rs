//! What a config file says, line by line, and what comes of it.
use vstd::prelude::*;
use vstd::utf8::*;

use crate::config;
use crate::laws::strings;
use crate::platform::text;
use crate::theme;
use crate::theme::Palette;

verus! {

/// A line is a field, white space and a value, with white space at will around.
pub open spec fn sets_field(raw: Seq<char>, field: Seq<char>, value: Seq<char>) -> bool {
    &&& exists|a: Seq<char>, w: Seq<char>, b: Seq<char>|
        raw == #[trigger] (a + field + w + value + b) && strings::all_white(a)
            && strings::all_white(w) && w.len() > 0 && strings::all_white(b)
    &&& field.len() > 0 && field[0] != '#'
    &&& forall|i: int|
        0 <= i < field.len() ==> !strings::white_space().contains(#[trigger] field[i])
    &&& value.len() > 0 && !strings::white_space().contains(value[0])
        && !strings::white_space().contains(value.last())
}

proof fn lemma_first_space(s: Seq<char>)
    ensures
        0 <= config::first_space(s) <= s.len(),
        config::first_space(s) < s.len() ==> strings::white_space().contains(
            s[config::first_space(s)],
        ),
        forall|i: int|
            0 <= i < config::first_space(s) ==> !strings::white_space().contains(#[trigger] s[i]),
    decreases s.len(),
{
    if s.len() > 0 {
        strings::law_white_space_is_unicodes(s[0]);
        let rest = s.drop_first();
        lemma_first_space(rest);
        assert forall|i: int| 0 <= i < config::first_space(s) implies
            !strings::white_space().contains(#[trigger] s[i]) by {
            if i > 0 {
                assert(rest[i - 1] == s[i]);
            }
        }
    }
}

/// What a field and value line is to the parser.
spec fn reads(raw: Seq<char>, field: Seq<char>, value: Seq<char>) -> bool {
    let line = text::trimmed(raw);
    let k = config::first_space(line);
    &&& line.len() > 0
    &&& line[0] != '#'
    &&& k < line.len()
    &&& field == line.take(k)
    &&& value == text::trimmed(line.skip(k + 1))
    &&& value.len() > 0
}

proof fn lemma_white_parts(s: Seq<char>, k: int)
    requires
        strings::all_white(s),
        0 <= k <= s.len(),
    ensures
        strings::all_white(s.skip(k)),
{
    let t = s.skip(k);
    assert forall|i: int| 0 <= i < t.len() implies strings::white_space().contains(
        #[trigger] t[i],
    ) by {
        assert(t[i] == s[k + i]);
    }
}

proof fn lemma_white_joined(s: Seq<char>, t: Seq<char>)
    requires
        strings::all_white(s),
        strings::all_white(t),
    ensures
        strings::all_white(s + t),
{
    let u = s + t;
    assert forall|i: int| 0 <= i < u.len() implies strings::white_space().contains(
        #[trigger] u[i],
    ) by {
        if i < s.len() {
            assert(u[i] == s[i]);
        } else {
            assert(u[i] == t[i - s.len()]);
        }
    }
}

proof fn lemma_sets_reads(raw: Seq<char>, field: Seq<char>, value: Seq<char>)
    requires
        sets_field(raw, field, value),
    ensures
        reads(raw, field, value),
{
    let (a, w, b) = choose|a: Seq<char>, w: Seq<char>, b: Seq<char>|
        raw == #[trigger] (a + field + w + value + b) && strings::all_white(a)
            && strings::all_white(w) && w.len() > 0 && strings::all_white(b);
    let t = field + w + value;
    assert(a + t + b =~= raw);
    assert(t[0] == field[0]);
    assert(t.last() == value.last());
    strings::law_trimming_undoes_padding(a, t, b);
    lemma_first_space(t);
    let k = config::first_space(t);
    assert(k == field.len()) by {
        if k < field.len() {
            assert(t[k] == field[k]);
        } else if k > field.len() {
            assert(t[field.len() as int] == w[0]);
            assert(strings::white_space().contains(w[0]));
        }
    }
    assert(t.take(k) =~= field);
    let none = Seq::<char>::empty();
    lemma_white_parts(w, 1);
    strings::law_trimming_undoes_padding(w.skip(1), value, none);
    assert(t.skip(k + 1) =~= w.skip(1) + value + none);
}

proof fn lemma_reads_sets(raw: Seq<char>, field: Seq<char>, value: Seq<char>)
    requires
        reads(raw, field, value),
    ensures
        sets_field(raw, field, value),
{
    let t = text::trimmed(raw);
    let k = config::first_space(t);
    let rest = t.skip(k + 1);
    lemma_first_space(t);
    strings::law_trimming_takes_off_white_space(raw);
    strings::law_trimming_takes_off_white_space(rest);
    let (a, y) = choose|a: Seq<char>, y: Seq<char>| #[trigger]
        (a + t + y) == raw && strings::all_white(a) && strings::all_white(y) && (t.len() > 0 ==>
            !strings::white_space().contains(t[0]) && !strings::white_space().contains(t.last()));
    let (p, q) = choose|p: Seq<char>, q: Seq<char>| #[trigger]
        (p + value + q) == rest && strings::all_white(p) && strings::all_white(q) && (value.len()
            > 0 ==> !strings::white_space().contains(value[0]) && !strings::white_space().contains(
            value.last(),
        ));
    let space = seq![t[k]];
    assert(strings::all_white(space)) by {
        assert(space[0] == t[k]);
    }
    lemma_white_joined(space, p);
    lemma_white_joined(q, y);
    let w = space + p;
    let b = q + y;
    assert(t =~= field + space + rest);
    assert(raw =~= a + field + w + value + b);
    assert(k > 0);
    assert(field[0] == t[0]);
    assert forall|i: int| 0 <= i < field.len() implies !strings::white_space().contains(
        #[trigger] field[i],
    ) by {
        assert(field[i] == t[i]);
    }
}

/// The lines give a field a value: a line sets it to one that is accepted, and
/// none after it sets it to another that is.
pub open spec fn gives(
    lines: Seq<Seq<char>>,
    field: Seq<char>,
    accepted: spec_fn(Seq<char>) -> bool,
    value: Seq<char>,
) -> bool {
    accepted(value) && exists|i: int|
        0 <= i < lines.len() && #[trigger] sets_field(lines[i], field, value) && forall|
            j: int,
            v: Seq<char>,
        |
            i < j < lines.len() && accepted(v) ==> !#[trigger] sets_field(lines[j], field, v)
}

/// No line gives a field a value that is accepted.
pub open spec fn never_gives(
    lines: Seq<Seq<char>>,
    field: Seq<char>,
    accepted: spec_fn(Seq<char>) -> bool,
) -> bool {
    forall|i: int, v: Seq<char>|
        0 <= i < lines.len() && accepted(v) ==> !#[trigger] sets_field(lines[i], field, v)
}

spec fn value_of(
    lines: Seq<Seq<char>>,
    field: Seq<char>,
    accepted: spec_fn(Seq<char>) -> bool,
) -> Option<Seq<char>>
    decreases lines.len(),
{
    if lines.len() == 0 {
        None
    } else if exists|v: Seq<char>| accepted(v) && sets_field(lines.last(), field, v) {
        Some(choose|v: Seq<char>| accepted(v) && sets_field(lines.last(), field, v))
    } else {
        value_of(lines.drop_last(), field, accepted)
    }
}

proof fn lemma_value_of(
    lines: Seq<Seq<char>>,
    field: Seq<char>,
    accepted: spec_fn(Seq<char>) -> bool,
    value: Seq<char>,
)
    ensures
        gives(lines, field, accepted, value) <==> value_of(lines, field, accepted) == Some(value),
        never_gives(lines, field, accepted) <==> value_of(lines, field, accepted) is None,
    decreases lines.len(),
{
    if lines.len() > 0 {
        let n = lines.len() - 1;
        let less = lines.drop_last();
        lemma_value_of(less, field, accepted, value);
        assert(lines[n] == lines.last());
        if exists|v: Seq<char>| accepted(v) && sets_field(lines.last(), field, v) {
            let v = choose|v: Seq<char>| accepted(v) && sets_field(lines.last(), field, v);
            assert(sets_field(lines[n], field, v));
            lemma_sets_reads(lines[n], field, v);
            if gives(lines, field, accepted, value) {
                let i = choose|i: int|
                    0 <= i < lines.len() && #[trigger] sets_field(lines[i], field, value)
                        && forall|j: int, v: Seq<char>|
                        i < j < lines.len() && accepted(v) ==> !#[trigger] sets_field(
                            lines[j],
                            field,
                            v,
                        );
                assert(i == n);
                lemma_sets_reads(lines[n], field, value);
            }
        } else {
            if gives(less, field, accepted, value) {
                let i = choose|i: int|
                    0 <= i < less.len() && #[trigger] sets_field(less[i], field, value) && forall|
                        j: int,
                        v: Seq<char>,
                    |
                        i < j < less.len() && accepted(v) ==> !#[trigger] sets_field(
                            less[j],
                            field,
                            v,
                        );
                assert(sets_field(lines[i], field, value));
                assert forall|j: int, v: Seq<char>|
                    i < j < lines.len() && accepted(v) implies !#[trigger] sets_field(
                    lines[j],
                    field,
                    v,
                ) by {
                    if j < n {
                        assert(!sets_field(less[j], field, v));
                    }
                }
                assert(gives(lines, field, accepted, value));
            }
            if gives(lines, field, accepted, value) {
                let i = choose|i: int|
                    0 <= i < lines.len() && #[trigger] sets_field(lines[i], field, value)
                        && forall|j: int, v: Seq<char>|
                        i < j < lines.len() && accepted(v) ==> !#[trigger] sets_field(
                            lines[j],
                            field,
                            v,
                        );
                assert(i < n);
                assert(sets_field(less[i], field, value));
                assert forall|j: int, v: Seq<char>|
                    i < j < less.len() && accepted(v) implies !#[trigger] sets_field(
                    less[j],
                    field,
                    v,
                ) by {
                    assert(!sets_field(lines[j], field, v));
                }
                assert(gives(less, field, accepted, value));
            }
            if never_gives(less, field, accepted) {
                assert forall|i: int, v: Seq<char>|
                    0 <= i < lines.len() && accepted(v) implies !#[trigger] sets_field(
                    lines[i],
                    field,
                    v,
                ) by {
                    if i < n {
                        assert(!sets_field(less[i], field, v));
                    }
                }
            }
            if never_gives(lines, field, accepted) {
                assert forall|i: int, v: Seq<char>|
                    0 <= i < less.len() && accepted(v) implies !#[trigger] sets_field(
                    less[i],
                    field,
                    v,
                ) by {
                    assert(!sets_field(lines[i], field, v));
                }
            }
        }
    }
}

/// The values a search URL may have.
pub open spec fn fits_url() -> spec_fn(Seq<char>) -> bool {
    |v: Seq<char>| encode_utf8(v).len() <= 512
}

/// The values a colour may have.
pub open spec fn is_colour() -> spec_fn(Seq<char>) -> bool {
    |v: Seq<char>| config::color_of(v) is Some
}

/// The colours of a palette by the names of their fields.
pub open spec fn colour(t: Palette, field: Seq<char>) -> u32 {
    if field == "background"@ {
        t.background
    } else if field == "text"@ {
        t.text
    } else if field == "subtitle"@ {
        t.subtitle
    } else if field == "highlight"@ {
        t.highlight
    } else if field == "caret"@ {
        t.caret
    } else {
        t.selection
    }
}

/// Whether a field is one of the six colours.
pub open spec fn names_colour(field: Seq<char>) -> bool {
    ||| field == "background"@
    ||| field == "text"@
    ||| field == "subtitle"@
    ||| field == "highlight"@
    ||| field == "caret"@
    ||| field == "selection"@
}

proof fn lemma_names_differ()
    ensures
        !names_colour("search_url"@),
        !names_colour("hidden"@),
        "search_url"@ != "hidden"@,
        "background"@ != "text"@,
        "background"@ != "subtitle"@,
        "background"@ != "highlight"@,
        "background"@ != "caret"@,
        "background"@ != "selection"@,
        "text"@ != "subtitle"@,
        "text"@ != "highlight"@,
        "text"@ != "caret"@,
        "text"@ != "selection"@,
        "subtitle"@ != "highlight"@,
        "subtitle"@ != "caret"@,
        "subtitle"@ != "selection"@,
        "highlight"@ != "caret"@,
        "highlight"@ != "selection"@,
        "caret"@ != "selection"@,
{
    reveal_strlit("search_url");
    reveal_strlit("hidden");
    reveal_strlit("background");
    reveal_strlit("text");
    reveal_strlit("subtitle");
    reveal_strlit("highlight");
    reveal_strlit("caret");
    reveal_strlit("selection");
    assert("search_url"@[1] == 'e' && "background"@[1] == 'a');
    assert("search_url"@.len() == 10 && "background"@.len() == 10 && "hidden"@.len() == 6);
    assert("text"@.len() == 4 && "subtitle"@.len() == 8 && "highlight"@.len() == 9);
    assert("caret"@.len() == 5 && "selection"@.len() == 9);
    assert("highlight"@[0] == 'h' && "selection"@[0] == 's');
}

spec fn agrees(lines: Seq<Seq<char>>) -> bool {
    let c = config::with_lines(lines);
    &&& c.search_url == value_of(lines, "search_url"@, fits_url())
    &&& forall|field: Seq<char>| #[trigger]
        names_colour(field) ==> colour(c.theme, field) == match value_of(
            lines,
            field,
            is_colour(),
        ) {
            Some(v) => config::color_of(v)->0,
            None => colour(theme::default_palette(), field),
        }
}

proof fn lemma_agrees(lines: Seq<Seq<char>>)
    ensures
        agrees(lines),
    decreases lines.len(),
{
    lemma_names_differ();
    if lines.len() > 0 {
        let less = lines.drop_last();
        let raw = lines.last();
        lemma_agrees(less);
        let line = text::trimmed(raw);
        let k = config::first_space(line);
        let field = line.take(k);
        let value = text::trimmed(line.skip(k + 1));
        let reads_it = line.len() > 0 && line[0] != '#' && k < line.len() && value.len() > 0;
        if reads_it {
            lemma_reads_sets(raw, field, value);
        }
        assert forall|f: Seq<char>, v: Seq<char>| #[trigger] sets_field(raw, f, v) implies reads_it
            && f == field && v == value by {
            lemma_sets_reads(raw, f, v);
        }
        assert forall|f: Seq<char>, accepted: spec_fn(Seq<char>) -> bool| #[trigger]
            value_of(lines, f, accepted) == if reads_it && f == field && accepted(value) {
                Some(value)
            } else {
                value_of(less, f, accepted)
            } by {
            if reads_it && f == field && accepted(value) {
                assert(accepted(value) && sets_field(raw, f, value));
            }
        }
        assert(fits_url()(value) == (encode_utf8(value).len() <= 512));
        assert(is_colour()(value) == (config::color_of(value) is Some));
    }
}

/// The search URL is the value of the last line that gives one that fits, and
/// there is none where no line does.
pub proof fn law_the_search_url_is_the_last_that_fits(lines: Seq<Seq<char>>, value: Seq<char>)
    requires
        lines.len() > 0,
        forall|i: int| 0 <= i < lines.len() ==> !(#[trigger] lines[i]).contains('\n'),
    ensures
        ({
            let c = config::parsed(strings::joined_by(lines, '\n'));
            &&& c.search_url == Some(value) <==> gives(lines, "search_url"@, fits_url(), value)
            &&& c.search_url is None <==> never_gives(lines, "search_url"@, fits_url())
        }),
{
    strings::law_splitting_undoes_joining(lines, '\n');
    lemma_agrees(lines);
    lemma_value_of(lines, "search_url"@, fits_url(), value);
}

/// A colour is the one the last line that spells one for it gives, and stays the
/// default where no line does; a line for one colour changes no other.
pub proof fn law_a_colour_is_the_last_that_is_one(
    lines: Seq<Seq<char>>,
    field: Seq<char>,
    value: Seq<char>,
)
    requires
        lines.len() > 0,
        forall|i: int| 0 <= i < lines.len() ==> !(#[trigger] lines[i]).contains('\n'),
        names_colour(field),
    ensures
        ({
            let c = config::parsed(strings::joined_by(lines, '\n'));
            &&& gives(lines, field, is_colour(), value) ==> colour(c.theme, field)
                == config::color_of(value)->0
            &&& never_gives(lines, field, is_colour()) ==> colour(c.theme, field) == colour(
                theme::default_palette(),
                field,
            )
        }),
{
    strings::law_splitting_undoes_joining(lines, '\n');
    lemma_agrees(lines);
    lemma_value_of(lines, field, is_colour(), value);
}

/// A line hides a name.
pub open spec fn hides(raw: Seq<char>, name: Seq<char>) -> bool {
    sets_field(raw, "hidden"@, name) && encode_utf8(name).len() <= 256
}

spec fn hidden_agrees(lines: Seq<Seq<char>>) -> bool {
    let d = config::with_lines(lines).denied;
    &&& forall|k: int|
        0 <= k < d.len() ==> exists|i: int|
            0 <= i < lines.len() && hides(lines[i], #[trigger] d[k])
    &&& d.len() < 64 ==> forall|i: int, name: Seq<char>|
        0 <= i < lines.len() && #[trigger] hides(lines[i], name) ==> d.contains(name)
    &&& forall|k: int, l: int| #[trigger] in_line_order(lines, d, k, l)
    &&& d.len() <= 64
}

/// Of two hidden names the one held first was hidden by a line before any that
/// hides the other.
pub open spec fn in_line_order(
    lines: Seq<Seq<char>>,
    d: Seq<Seq<char>>,
    k: int,
    l: int,
) -> bool {
    0 <= k < l < d.len() ==> exists|i: int|
        0 <= i < lines.len() && #[trigger] hides(lines[i], d[k]) && forall|j: int|
            0 <= j <= i ==> !#[trigger] hides(lines[j], d[l])
}

proof fn lemma_hidden(lines: Seq<Seq<char>>)
    ensures
        hidden_agrees(lines),
    decreases lines.len(),
{
    lemma_names_differ();
    if lines.len() > 0 {
        let less = lines.drop_last();
        let raw = lines.last();
        let n = lines.len() - 1;
        lemma_hidden(less);
        let line = text::trimmed(raw);
        let at = config::first_space(line);
        let field = line.take(at);
        let value = text::trimmed(line.skip(at + 1));
        let reads_it = line.len() > 0 && line[0] != '#' && at < line.len() && value.len() > 0;
        if reads_it {
            lemma_reads_sets(raw, field, value);
        }
        assert forall|f: Seq<char>, v: Seq<char>| #[trigger] sets_field(raw, f, v) implies reads_it
            && f == field && v == value by {
            lemma_sets_reads(raw, f, v);
        }
        let before = config::with_lines(less).denied;
        let d = config::with_lines(lines).denied;
        let hides_it = reads_it && field == "hidden"@ && encode_utf8(value).len() <= 256;
        assert(lines[n] == raw);
        assert forall|k: int| 0 <= k < d.len() implies exists|i: int|
            0 <= i < lines.len() && hides(lines[i], #[trigger] d[k]) by {
            if k < before.len() {
                assert(d[k] == before[k]);
                let i = choose|i: int| 0 <= i < less.len() && hides(less[i], before[k]);
                assert(hides(lines[i], d[k]));
            } else {
                assert(hides(lines[n], d[k]));
            }
        }
        if d.len() < 64 {
            assert forall|i: int, name: Seq<char>|
                0 <= i < lines.len() && #[trigger] hides(lines[i], name) implies d.contains(
                name,
            ) by {
                if i < n {
                    assert(hides(less[i], name));
                    assert(before.contains(name));
                    let k = choose|k: int| 0 <= k < before.len() && before[k] == name;
                    assert(d[k] == name);
                } else {
                    assert(name == value && hides_it);
                    if !before.contains(value) {
                        assert(d == before.push(value));
                        assert(d[before.len() as int] == value);
                    }
                }
            }
        }
        assert forall|k: int, l: int| #[trigger] in_line_order(lines, d, k, l) by {
            if 0 <= k < l < d.len() {
                if l < before.len() {
                    assert(d[k] == before[k] && d[l] == before[l]);
                    assert(in_line_order(less, before, k, l));
                    let i = choose|i: int|
                        0 <= i < less.len() && #[trigger] hides(less[i], before[k]) && forall|
                            j: int,
                        |
                            0 <= j <= i ==> !#[trigger] hides(less[j], before[l]);
                    assert(hides(lines[i], d[k]));
                    assert forall|j: int| 0 <= j <= i implies !#[trigger] hides(lines[j], d[l]) by {
                        assert(!hides(less[j], before[l]));
                    }
                } else {
                    assert(d[k] == before[k] && d[l] == value);
                    let i = choose|i: int| 0 <= i < less.len() && hides(less[i], before[k]);
                    assert(hides(lines[i], d[k]));
                    assert forall|j: int| 0 <= j <= i implies !#[trigger] hides(lines[j], d[l]) by {
                        if hides(lines[j], d[l]) {
                            assert(hides(less[j], d[l]));
                            assert(before.len() < 64);
                            assert(before.contains(d[l]));
                        }
                    }
                }
            }
        }
    }
}

/// The hidden names are those that lines hide, in the order the lines first do,
/// all of them as long as there are fewer than the most that are held.
pub proof fn law_the_hidden_names_are_those_of_the_lines(
    lines: Seq<Seq<char>>,
    name: Seq<char>,
    k: int,
    l: int,
)
    requires
        lines.len() > 0,
        forall|i: int| 0 <= i < lines.len() ==> !(#[trigger] lines[i]).contains('\n'),
    ensures
        ({
            let d = config::parsed(strings::joined_by(lines, '\n')).denied;
            &&& d.contains(name) ==> exists|i: int|
                0 <= i < lines.len() && #[trigger] hides(lines[i], name)
            &&& d.len() < 64 && (exists|i: int|
                0 <= i < lines.len() && #[trigger] hides(lines[i], name)) ==> d.contains(name)
            &&& in_line_order(lines, d, k, l)
            &&& d.no_duplicates()
            &&& d.len() <= 64
        }),
{
    strings::law_splitting_undoes_joining(lines, '\n');
    lemma_hidden(lines);
    config::law_hidden_names_are_distinct(strings::joined_by(lines, '\n'));
    let d = config::with_lines(lines).denied;
    if d.contains(name) {
        let at = choose|at: int| 0 <= at < d.len() && d[at] == name;
        assert(exists|i: int| 0 <= i < lines.len() && hides(lines[i], d[at]));
    }
}

} // verus!
