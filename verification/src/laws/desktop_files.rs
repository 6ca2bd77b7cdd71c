//! What a desktop file says, line by line, and what comes of it.
use vstd::prelude::*;
use vstd::utf8::*;

use crate::desktop;
use crate::desktop::FieldsView;
use crate::laws::strings;
use crate::platform::text;

verus! {

/// One sign of a string value.
pub enum Sign {
    /// A character that stands for itself.
    Plain(char),
    /// A backslash and a letter that stand for a space.
    Space,
    /// A backslash and a letter that stand for a line break.
    Newline,
    /// A backslash and a letter that stand for a tab.
    Tab,
    /// A backslash and a letter that stand for a carriage return.
    Return,
    /// Two backslashes that stand for one.
    Backslash,
    /// A backslash and any other character, which are kept as they are.
    Kept(char),
}

impl Sign {
    pub open spec fn wf(self) -> bool {
        match self {
            Sign::Plain(c) => c != '\\',
            Sign::Kept(c) => c != 's' && c != 'n' && c != 't' && c != 'r' && c != '\\',
            _ => true,
        }
    }

    pub open spec fn written(self) -> Seq<char> {
        match self {
            Sign::Plain(c) => seq![c],
            Sign::Space => seq!['\\', 's'],
            Sign::Newline => seq!['\\', 'n'],
            Sign::Tab => seq!['\\', 't'],
            Sign::Return => seq!['\\', 'r'],
            Sign::Backslash => seq!['\\', '\\'],
            Sign::Kept(c) => seq!['\\', c],
        }
    }

    pub open spec fn value(self) -> Seq<char> {
        match self {
            Sign::Plain(c) => seq![c],
            Sign::Space => seq!['\u{20}'],
            Sign::Newline => seq!['\u{a}'],
            Sign::Tab => seq!['\u{9}'],
            Sign::Return => seq!['\u{d}'],
            Sign::Backslash => seq!['\u{5c}'],
            Sign::Kept(c) => seq!['\u{5c}', c],
        }
    }
}

pub open spec fn signs_written(m: Seq<Sign>) -> Seq<char>
    decreases m.len(),
{
    if m.len() == 0 {
        Seq::empty()
    } else {
        m[0].written() + signs_written(m.drop_first())
    }
}

pub open spec fn signs_value(m: Seq<Sign>) -> Seq<char>
    decreases m.len(),
{
    if m.len() == 0 {
        Seq::empty()
    } else {
        m[0].value() + signs_value(m.drop_first())
    }
}

proof fn lemma_signs(m: Seq<Sign>, rest: Seq<char>)
    requires
        forall|i: int| 0 <= i < m.len() ==> (#[trigger] m[i]).wf(),
    ensures
        desktop::unescaped(signs_written(m) + rest) == signs_value(m) + desktop::unescaped(rest),
    decreases m.len(),
{
    if m.len() == 0 {
        assert(signs_written(m) + rest =~= rest);
        assert(signs_value(m) + desktop::unescaped(rest) =~= desktop::unescaped(rest));
    } else {
        let more = m.drop_first();
        assert(m[0].wf());
        assert forall|i: int| 0 <= i < more.len() implies (#[trigger] more[i]).wf() by {
            assert(more[i] == m[i + 1]);
        }
        lemma_signs(more, rest);
        let tail = signs_written(more) + rest;
        let s = signs_written(m) + rest;
        assert(s =~= m[0].written() + tail);
        if m[0] is Plain {
            assert(s.skip(1) =~= tail);
        } else {
            assert(s[0] == '\\');
            assert(s[1] == m[0].written()[1]);
            assert(s.skip(2) =~= tail);
            assert(desktop::escape(s[1]) =~= m[0].value());
        }
        assert(desktop::unescaped(s) =~= signs_value(m) + desktop::unescaped(rest));
    }
}

/// Escape sequences come out as what they stand for, everything else as it is,
/// in order; a backslash at the very end stands for itself.
pub proof fn law_escapes_stand_for_their_characters(m: Seq<Sign>)
    requires
        forall|i: int| 0 <= i < m.len() ==> (#[trigger] m[i]).wf(),
    ensures
        desktop::unescaped(signs_written(m)) == signs_value(m),
        desktop::unescaped(signs_written(m).push('\\')) == signs_value(m).push('\\'),
{
    let none = Seq::<char>::empty();
    lemma_signs(m, none);
    assert(signs_written(m) + none =~= signs_written(m));
    assert(signs_value(m) + none =~= signs_value(m));
    let one = seq!['\\'];
    lemma_signs(m, one);
    assert(signs_written(m) + one =~= signs_written(m).push('\\'));
    assert(one.skip(1) =~= none);
    assert(desktop::unescaped(one) =~= one);
    assert(signs_value(m) + one =~= signs_value(m).push('\\'));
}

/// A line is a section header.
pub open spec fn is_header(raw: Seq<char>) -> bool {
    exists|t: Seq<char>| #[trigger] strings::is_core(t, raw) && t.len() > 0 && t[0] == '['
}

/// A line opens the section of the entry.
pub open spec fn opens_entry(raw: Seq<char>) -> bool {
    strings::is_core("[Desktop Entry]"@, raw)
}

/// A line stands in the section of the entry: that was opened before it and no
/// other since.
pub open spec fn in_entry(lines: Seq<Seq<char>>, i: int) -> bool {
    exists|h: int|
        0 <= h < i && #[trigger] opens_entry(lines[h]) && forall|j: int|
            h < j < i ==> !is_header(#[trigger] lines[j])
}

/// A line is a key, an equals sign and a value, with white space at will before
/// and behind each.
pub open spec fn sets(raw: Seq<char>, key: Seq<char>, value: Seq<char>) -> bool {
    &&& exists|a: Seq<char>, b: Seq<char>, c: Seq<char>, d: Seq<char>|
        raw == #[trigger] (a + key + b + seq!['='] + c + value + d) && strings::all_white(a)
            && strings::all_white(b) && strings::all_white(c) && strings::all_white(d)
    &&& !key.contains('=')
    &&& key.len() > 0 ==> key[0] != '#' && key[0] != '[' && !strings::white_space().contains(key[0])
        && !strings::white_space().contains(key.last())
    &&& value.len() > 0 ==> !strings::white_space().contains(value[0])
        && !strings::white_space().contains(value.last())
}

/// The lines of the entry's section give a key a value: a line there sets it,
/// and none after it sets that key again.
pub open spec fn gives(lines: Seq<Seq<char>>, key: Seq<char>, value: Seq<char>) -> bool {
    exists|i: int|
        0 <= i < lines.len() && in_entry(lines, i) && #[trigger] sets(lines[i], key, value)
            && forall|j: int, v: Seq<char>|
            i < j < lines.len() && in_entry(lines, j) ==> !#[trigger] sets(lines[j], key, v)
}

proof fn lemma_core(t: Seq<char>, s: Seq<char>)
    ensures
        strings::is_core(t, s) <==> t == text::trimmed(s),
{
    strings::law_trimming_takes_off_white_space(s);
    if strings::is_core(t, s) {
        let (a, b) = choose|a: Seq<char>, b: Seq<char>| #[trigger]
            (a + t + b) == s && strings::all_white(a) && strings::all_white(b) && (t.len() > 0 ==>
                !strings::white_space().contains(t[0]) && !strings::white_space().contains(
                t.last(),
            ));
        strings::law_trimming_undoes_padding(a, t, b);
    }
}

proof fn lemma_headers(raw: Seq<char>)
    ensures
        is_header(raw) <==> text::trimmed(raw).len() > 0 && text::trimmed(raw)[0] == '[',
        opens_entry(raw) <==> text::trimmed(raw) == "[Desktop Entry]"@,
        opens_entry(raw) ==> is_header(raw),
{
    let t = text::trimmed(raw);
    lemma_core(t, raw);
    lemma_core("[Desktop Entry]"@, raw);
    reveal_strlit("[Desktop Entry]");
    if is_header(raw) {
        let u = choose|u: Seq<char>| #[trigger]
            strings::is_core(u, raw) && u.len() > 0 && u[0] == '[';
        lemma_core(u, raw);
    }
}

proof fn lemma_white(s: Seq<char>, t: Seq<char>)
    requires
        strings::all_white(s),
        strings::all_white(t),
    ensures
        strings::all_white(s + t),
        !s.contains('='),
        !strings::white_space().contains('='),
{
    let u = s + t;
    assert forall|i: int| 0 <= i < u.len() implies strings::white_space().contains(
        #[trigger] u[i],
    ) by {
        if i < s.len() {
            assert(u[i] == s[i]);
        } else {
            assert(u[i] == t[i - s.len()]);
        }
    }
    strings::law_white_space_is_unicodes('=');
    if s.contains('=') {
        let i = choose|i: int| 0 <= i < s.len() && s[i] == '=';
        assert(strings::white_space().contains(s[i]));
    }
}

/// What a key and value line is to the parser.
spec fn reads(raw: Seq<char>, key: Seq<char>, value: Seq<char>) -> bool {
    let t = text::trimmed(raw);
    let at = text::first_of(t, '=');
    &&& t.len() > 0
    &&& t[0] != '#'
    &&& t[0] != '['
    &&& t.contains('=')
    &&& key == text::trimmed(t.take(at))
    &&& value == text::trimmed(t.skip(at + 1))
}

proof fn lemma_sets_reads(raw: Seq<char>, key: Seq<char>, value: Seq<char>)
    requires
        sets(raw, key, value),
    ensures
        reads(raw, key, value),
{
    let (a, b, c, d) = choose|a: Seq<char>, b: Seq<char>, c: Seq<char>, d: Seq<char>|
        raw == #[trigger] (a + key + b + seq!['='] + c + value + d) && strings::all_white(a)
            && strings::all_white(b) && strings::all_white(c) && strings::all_white(d);
    let none = Seq::<char>::empty();
    assert(strings::all_white(none));
    lemma_white(a, b);
    lemma_white(c, d);
    lemma_white(b, none);
    // The white space beside an empty side counts as outside.
    let front = if key.len() > 0 {
        a
    } else {
        a + b
    };
    let left = if key.len() > 0 {
        key + b
    } else {
        none
    };
    let right = if value.len() > 0 {
        c + value
    } else {
        none
    };
    let back = if value.len() > 0 {
        d
    } else {
        c + d
    };
    let t = left + seq!['='] + right;
    assert(front + t + back =~= raw) by {
        if key.len() == 0 {
            assert(key =~= none);
        }
        if value.len() == 0 {
            assert(value =~= none);
        }
    }
    assert(t[0] == (if key.len() > 0 {
        key[0]
    } else {
        '='
    }));
    assert(t.last() == (if value.len() > 0 {
        value.last()
    } else {
        '='
    }));
    strings::law_trimming_undoes_padding(front, t, back);
    assert(t[left.len() as int] == '=');
    strings::law_the_first_is_the_first(t, '=');
    let at = text::first_of(t, '=');
    assert(at == left.len()) by {
        assert(t.contains('='));
        if at < left.len() {
            assert(t[at] == left[at]);
            if at < key.len() {
                assert(key[at] == '=');
                assert(key.contains('='));
            } else {
                assert(b[at - key.len()] == '=');
                assert(b.contains('='));
            }
        }
    }
    assert(t.take(at) =~= left);
    assert(t.skip(at + 1) =~= right);
    if key.len() > 0 {
        strings::law_trimming_undoes_padding(none, key, b);
        assert(none + key + b =~= left);
    } else {
        strings::law_trimming_undoes_padding(none, none, none);
        assert(none + none + none =~= none);
        assert(key =~= none);
    }
    if value.len() > 0 {
        strings::law_trimming_undoes_padding(c, value, none);
        assert(c + value + none =~= right);
    } else {
        strings::law_trimming_undoes_padding(none, none, none);
        assert(none + none + none =~= none);
        assert(value =~= none);
    }
}

proof fn lemma_reads_sets(raw: Seq<char>, key: Seq<char>, value: Seq<char>)
    requires
        reads(raw, key, value),
    ensures
        sets(raw, key, value),
{
    let t = text::trimmed(raw);
    let at = text::first_of(t, '=');
    strings::law_the_first_is_the_first(t, '=');
    let left = t.take(at);
    let right = t.skip(at + 1);
    strings::law_trimming_takes_off_white_space(raw);
    strings::law_trimming_takes_off_white_space(left);
    strings::law_trimming_takes_off_white_space(right);
    let (x, y) = choose|x: Seq<char>, y: Seq<char>| #[trigger]
        (x + t + y) == raw && strings::all_white(x) && strings::all_white(y) && (t.len() > 0 ==>
            !strings::white_space().contains(t[0]) && !strings::white_space().contains(t.last()));
    let (p, b) = choose|p: Seq<char>, b: Seq<char>| #[trigger]
        (p + key + b) == left && strings::all_white(p) && strings::all_white(b) && (key.len() > 0
            ==> !strings::white_space().contains(key[0]) && !strings::white_space().contains(
            key.last(),
        ));
    let (c, q) = choose|c: Seq<char>, q: Seq<char>| #[trigger]
        (c + value + q) == right && strings::all_white(c) && strings::all_white(q) && (value.len()
            > 0 ==> !strings::white_space().contains(value[0]) && !strings::white_space().contains(
            value.last(),
        ));
    lemma_white(x, p);
    lemma_white(q, y);
    let a = x + p;
    let d = q + y;
    assert(t =~= left + seq!['='] + right);
    assert(raw =~= a + key + b + seq!['='] + c + value + d);
    if p.len() > 0 {
        assert(strings::white_space().contains(p[0]));
        assert(left[0] == p[0]);
        assert(t[0] == left[0]);
    }
    if key.len() > 0 {
        assert(left[0] == key[0]);
        assert(t[0] == left[0]);
    }
    if key.contains('=') {
        let i = choose|i: int| 0 <= i < key.len() && key[i] == '=';
        assert(left[p.len() + i] == '=');
        assert(t[p.len() + i] == '=');
    }
}

/// The section flag and the value of a key after the lines of a file.
spec fn value_of(lines: Seq<Seq<char>>, key: Seq<char>) -> Option<Seq<char>>
    decreases lines.len(),
{
    if lines.len() == 0 {
        None
    } else if in_entry(lines, lines.len() - 1) && exists|v: Seq<char>| sets(lines.last(), key, v) {
        Some(choose|v: Seq<char>| sets(lines.last(), key, v))
    } else {
        value_of(lines.drop_last(), key)
    }
}

proof fn lemma_in_entry_shorter(lines: Seq<Seq<char>>, i: int)
    requires
        lines.len() > 0,
        i < lines.len(),
    ensures
        in_entry(lines, i) <==> in_entry(lines.drop_last(), i),
{
    let less = lines.drop_last();
    if in_entry(lines, i) {
        let h = choose|h: int|
            0 <= h < i && #[trigger] opens_entry(lines[h]) && forall|j: int|
                h < j < i ==> !is_header(#[trigger] lines[j]);
        assert(less[h] == lines[h]);
        assert forall|j: int| h < j < i implies !is_header(#[trigger] less[j]) by {
            assert(less[j] == lines[j]);
        }
        assert(opens_entry(less[h]));
    }
    if in_entry(less, i) {
        let h = choose|h: int|
            0 <= h < i && #[trigger] opens_entry(less[h]) && forall|j: int|
                h < j < i ==> !is_header(#[trigger] less[j]);
        assert(less[h] == lines[h]);
        assert forall|j: int| h < j < i implies !is_header(#[trigger] lines[j]) by {
            assert(less[j] == lines[j]);
        }
        assert(opens_entry(lines[h]));
    }
}

proof fn lemma_sets_once(raw: Seq<char>, key: Seq<char>, v: Seq<char>, w: Seq<char>)
    requires
        sets(raw, key, v),
        sets(raw, key, w),
    ensures
        v == w,
{
    lemma_sets_reads(raw, key, v);
    lemma_sets_reads(raw, key, w);
}

proof fn lemma_value_of(lines: Seq<Seq<char>>, key: Seq<char>, value: Seq<char>)
    ensures
        gives(lines, key, value) <==> value_of(lines, key) == Some(value),
    decreases lines.len(),
{
    if lines.len() > 0 {
        let n = lines.len() - 1;
        let less = lines.drop_last();
        lemma_value_of(less, key, value);
        if in_entry(lines, n) && exists|v: Seq<char>| sets(lines.last(), key, v) {
            let v = choose|v: Seq<char>| sets(lines.last(), key, v);
            if v == value {
                assert(sets(lines[n], key, value));
                assert(gives(lines, key, value));
            }
            if gives(lines, key, value) {
                let i = choose|i: int|
                    0 <= i < lines.len() && in_entry(lines, i) && #[trigger] sets(
                        lines[i],
                        key,
                        value,
                    ) && forall|j: int, v: Seq<char>|
                        i < j < lines.len() && in_entry(lines, j) ==> !#[trigger] sets(
                            lines[j],
                            key,
                            v,
                        );
                assert(sets(lines[n], key, v));
                assert(i == n);
                lemma_sets_once(lines[n], key, v, value);
            }
        } else {
            if gives(less, key, value) {
                let i = choose|i: int|
                    0 <= i < less.len() && in_entry(less, i) && #[trigger] sets(less[i], key, value)
                        && forall|j: int, v: Seq<char>|
                        i < j < less.len() && in_entry(less, j) ==> !#[trigger] sets(
                            less[j],
                            key,
                            v,
                        );
                lemma_in_entry_shorter(lines, i);
                assert(less[i] == lines[i]);
                assert forall|j: int, v: Seq<char>|
                    i < j < lines.len() && in_entry(lines, j) implies !#[trigger] sets(
                    lines[j],
                    key,
                    v,
                ) by {
                    if j < n {
                        lemma_in_entry_shorter(lines, j);
                        assert(!sets(less[j], key, v));
                    } else {
                        assert(lines[j] == lines.last());
                    }
                }
                assert(sets(lines[i], key, value));
                assert(gives(lines, key, value));
            }
            if gives(lines, key, value) {
                let i = choose|i: int|
                    0 <= i < lines.len() && in_entry(lines, i) && #[trigger] sets(
                        lines[i],
                        key,
                        value,
                    ) && forall|j: int, v: Seq<char>|
                        i < j < lines.len() && in_entry(lines, j) ==> !#[trigger] sets(
                            lines[j],
                            key,
                            v,
                        );
                assert(lines[n] == lines.last());
                assert(i < n);
                lemma_in_entry_shorter(lines, i);
                assert(less[i] == lines[i]);
                assert forall|j: int, v: Seq<char>|
                    i < j < less.len() && in_entry(less, j) implies !#[trigger] sets(
                    less[j],
                    key,
                    v,
                ) by {
                    lemma_in_entry_shorter(lines, j);
                    assert(!sets(lines[j], key, v));
                }
                assert(sets(less[i], key, value));
                assert(gives(less, key, value));
            }
        }
    }
}

proof fn lemma_in_entry_flag(lines: Seq<Seq<char>>)
    ensures
        desktop::fields_of(lines).in_entry == in_entry(lines, lines.len() as int),
    decreases lines.len(),
{
    if lines.len() > 0 {
        let less = lines.drop_last();
        let n = lines.len() - 1;
        lemma_in_entry_flag(less);
        lemma_in_entry_shorter(lines, n);
        lemma_headers(lines[n]);
        assert(lines.last() == lines[n]);
        if opens_entry(lines[n]) {
            assert(in_entry(lines, lines.len() as int));
        } else if is_header(lines[n]) {
            if in_entry(lines, lines.len() as int) {
                let h = choose|h: int|
                    0 <= h < lines.len() && #[trigger] opens_entry(lines[h]) && forall|j: int|
                        h < j < lines.len() ==> !is_header(#[trigger] lines[j]);
                assert(h == n);
            }
        } else {
            if in_entry(lines, n) {
                let h = choose|h: int|
                    0 <= h < n && #[trigger] opens_entry(lines[h]) && forall|j: int|
                        h < j < n ==> !is_header(#[trigger] lines[j]);
                assert(opens_entry(lines[h]));
            }
            if in_entry(lines, lines.len() as int) {
                let h = choose|h: int|
                    0 <= h < lines.len() && #[trigger] opens_entry(lines[h]) && forall|j: int|
                        h < j < lines.len() ==> !is_header(#[trigger] lines[j]);
                assert(h != n);
                assert(opens_entry(lines[h]));
            }
            assert(desktop::fields_of(lines).in_entry == desktop::fields_of(less).in_entry);
        }
    }
}

proof fn lemma_keys_differ()
    ensures
        "Type"@ != "Name"@,
        "Type"@ != "Exec"@,
        "Name"@ != "Exec"@,
        "NoDisplay"@ != "Type"@,
        "NoDisplay"@ != "Name"@,
        "NoDisplay"@ != "Exec"@,
        "NoDisplay"@ != "Hidden"@,
        "Hidden"@ != "Type"@,
        "Hidden"@ != "Name"@,
        "Hidden"@ != "Exec"@,
        !"Type"@.contains('['),
        !"Name"@.contains('['),
        !"Exec"@.contains('['),
        !"NoDisplay"@.contains('['),
        !"Hidden"@.contains('['),
{
    reveal_strlit("Type");
    reveal_strlit("Name");
    reveal_strlit("Exec");
    reveal_strlit("NoDisplay");
    reveal_strlit("Hidden");
    assert("Type"@[0] != "Name"@[0]);
    assert("Type"@[0] != "Exec"@[0]);
    assert("Name"@[0] != "Exec"@[0]);
    assert("NoDisplay"@.len() == 9 && "Hidden"@.len() == 6 && "Type"@.len() == 4);
}

spec fn fields_agree(f: FieldsView, lines: Seq<Seq<char>>) -> bool {
    &&& f.type_value == match value_of(lines, "Type"@) {
        Some(v) => v,
        None => Seq::empty(),
    }
    &&& f.name == value_of(lines, "Name"@)
    &&& f.exec == value_of(lines, "Exec"@)
    &&& f.no_display == (value_of(lines, "NoDisplay"@) == Some("true"@))
    &&& f.hidden == (value_of(lines, "Hidden"@) == Some("true"@))
}

proof fn lemma_fields(lines: Seq<Seq<char>>)
    ensures
        fields_agree(desktop::fields_of(lines), lines),
    decreases lines.len(),
{
    if lines.len() > 0 {
        let n = lines.len() - 1;
        let less = lines.drop_last();
        let raw = lines.last();
        let f = desktop::fields_of(less);
        lemma_fields(less);
        lemma_in_entry_flag(less);
        lemma_in_entry_shorter(lines, n);
        lemma_keys_differ();
        let t = text::trimmed(raw);
        let at = text::first_of(t, '=');
        let key = text::trimmed(t.take(at));
        let value = text::trimmed(t.skip(at + 1));
        let plain = t.len() > 0 && t[0] != '#' && t[0] != '[' && t.contains('=');
        if plain {
            lemma_reads_sets(raw, key, value);
        }
        assert forall|k: Seq<char>, v: Seq<char>| #[trigger] sets(raw, k, v) implies plain && k
            == key && v == value by {
            lemma_sets_reads(raw, k, v);
        }
        if in_entry(lines, n) && plain {
            assert(value_of(lines, key) == Some(value));
            assert forall|k: Seq<char>| k != key implies #[trigger] value_of(lines, k) == value_of(
                less,
                k,
            ) by {}
        } else {
            assert forall|k: Seq<char>| #[trigger] value_of(lines, k) == value_of(less, k) by {}
        }
    }
}

/// A desktop file describes an application exactly when its Desktop Entry
/// section gives it the type Application, a name and a command that fit, and
/// neither NoDisplay nor Hidden the value true; the application then has that
/// name and command, with their escapes resolved.
pub proof fn law_a_desktop_file_describes_an_application(
    lines: Seq<Seq<char>>,
    name: Seq<char>,
    command: Seq<char>,
)
    requires
        lines.len() > 0,
        forall|i: int| 0 <= i < lines.len() ==> !(#[trigger] lines[i]).contains('\n'),
    ensures
        ({
            let got = desktop::parsed(strings::joined_by(lines, '\n'));
            let wanted = gives(lines, "Type"@, "Application"@) && !gives(
                lines,
                "NoDisplay"@,
                "true"@,
            ) && !gives(lines, "Hidden"@, "true"@);
            &&& wanted && gives(lines, "Name"@, name) && gives(lines, "Exec"@, command)
                && encode_utf8(desktop::unescaped(name)).len() <= 256 && encode_utf8(
                desktop::unescaped(command),
            ).len() <= 1024 ==> got == Some(
                (desktop::unescaped(name), desktop::unescaped(command)),
            )
            &&& got is Some ==> wanted && exists|n: Seq<char>, c: Seq<char>| #[trigger]
                gives(lines, "Name"@, n) && #[trigger] gives(lines, "Exec"@, c) && got == Some(
                    (desktop::unescaped(n), desktop::unescaped(c)),
                ) && encode_utf8(desktop::unescaped(n)).len() <= 256 && encode_utf8(
                    desktop::unescaped(c),
                ).len() <= 1024
        }),
{
    let content = strings::joined_by(lines, '\n');
    strings::law_splitting_undoes_joining(lines, '\n');
    assert(text::pieces(content, '\n') == lines);
    let f = desktop::fields_of(lines);
    lemma_fields(lines);
    lemma_value_of(lines, "Type"@, "Application"@);
    lemma_value_of(lines, "NoDisplay"@, "true"@);
    lemma_value_of(lines, "Hidden"@, "true"@);
    lemma_value_of(lines, "Name"@, name);
    lemma_value_of(lines, "Exec"@, command);
    reveal_strlit("Application");
    assert("Application"@.len() == 11);
    assert(f.type_value == "Application"@ <==> gives(lines, "Type"@, "Application"@));
    let got = desktop::parsed(content);
    if got is Some {
        let n = f.name->0;
        let c = f.exec->0;
        lemma_value_of(lines, "Name"@, n);
        lemma_value_of(lines, "Exec"@, c);
        assert(gives(lines, "Name"@, n) && gives(lines, "Exec"@, c));
    }
}

} // verus!
