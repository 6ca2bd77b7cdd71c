//! What the operations on text come to, in terms of the text alone.
use vstd::prelude::*;
use vstd::utf8::*;

use crate::platform::text;

verus! {

/// The characters Unicode counts as white space.
pub open spec fn white_space() -> Seq<char> {
    seq![
        '\u{9}',
        '\u{a}',
        '\u{b}',
        '\u{c}',
        '\u{d}',
        '\u{20}',
        '\u{85}',
        '\u{a0}',
        '\u{1680}',
        '\u{2000}',
        '\u{2001}',
        '\u{2002}',
        '\u{2003}',
        '\u{2004}',
        '\u{2005}',
        '\u{2006}',
        '\u{2007}',
        '\u{2008}',
        '\u{2009}',
        '\u{200a}',
        '\u{2028}',
        '\u{2029}',
        '\u{202f}',
        '\u{205f}',
        '\u{3000}',
    ]
}

/// A character is white space exactly when Unicode counts it as such.
pub proof fn law_white_space_is_unicodes(c: char)
    ensures
        text::is_space(c) <==> white_space().contains(c),
{
    let w = white_space();
    if text::is_space(c) {
        let n = c as int;
        let i: int = if 9 <= n <= 13 {
            n - 9
        } else if n == 0x20 {
            5
        } else if n == 0x85 {
            6
        } else if n == 0xa0 {
            7
        } else if n == 0x1680 {
            8
        } else if 0x2000 <= n <= 0x200a {
            n - 0x2000 + 9
        } else if n == 0x2028 {
            20
        } else if n == 0x2029 {
            21
        } else if n == 0x202f {
            22
        } else if n == 0x205f {
            23
        } else {
            24
        };
        assert(0 <= i < w.len());
        assert(w[i] as int == n);
    }
}

proof fn lemma_trim_start(s: Seq<char>)
    ensures
        exists|a: int|
            0 <= a <= s.len() && #[trigger] s.skip(a) == text::trim_start(s) && (forall|i: int|
                0 <= i < a ==> text::is_space(#[trigger] s[i])),
        text::trim_start(s).len() > 0 ==> !text::is_space(text::trim_start(s)[0]),
    decreases s.len(),
{
    if s.len() > 0 && text::is_space(s[0]) {
        let rest = s.drop_first();
        lemma_trim_start(rest);
        let a = choose|a: int|
            0 <= a <= rest.len() && #[trigger] rest.skip(a) == text::trim_start(rest) && (forall|
                i: int,
            |
                0 <= i < a ==> text::is_space(#[trigger] rest[i]));
        assert(s.skip(a + 1) =~= rest.skip(a));
        assert forall|i: int| 0 <= i < a + 1 implies text::is_space(#[trigger] s[i]) by {
            if i > 0 {
                assert(rest[i - 1] == s[i]);
            }
        }
    } else {
        assert(s.skip(0) =~= s);
    }
}

proof fn lemma_trim_end(s: Seq<char>)
    ensures
        exists|b: int|
            0 <= b <= s.len() && #[trigger] s.take(b) == text::trim_end(s) && (forall|i: int|
                b <= i < s.len() ==> text::is_space(#[trigger] s[i])),
        text::trim_end(s).len() > 0 ==> !text::is_space(text::trim_end(s).last()),
    decreases s.len(),
{
    if s.len() > 0 && text::is_space(s.last()) {
        let rest = s.drop_last();
        lemma_trim_end(rest);
        let b = choose|b: int|
            0 <= b <= rest.len() && #[trigger] rest.take(b) == text::trim_end(rest) && (forall|
                i: int,
            |
                b <= i < rest.len() ==> text::is_space(#[trigger] rest[i]));
        assert(s.take(b) =~= rest.take(b));
        assert forall|i: int| b <= i < s.len() implies text::is_space(#[trigger] s[i]) by {
            if i < rest.len() {
                assert(rest[i] == s[i]);
            }
        }
    } else {
        assert(s.take(s.len() as int) =~= s);
    }
}

/// Whether a text is another with only white space around it, and neither begins
/// nor ends with any itself.
pub open spec fn is_core(t: Seq<char>, s: Seq<char>) -> bool {
    exists|a: Seq<char>, b: Seq<char>| #[trigger]
        (a + t + b) == s && all_white(a) && all_white(b) && (t.len() > 0 ==>
            !white_space().contains(t[0]) && !white_space().contains(t.last()))
}

/// Whether a text is nothing but white space.
pub open spec fn all_white(s: Seq<char>) -> bool {
    forall|i: int| 0 <= i < s.len() ==> white_space().contains(#[trigger] s[i])
}

/// Trimming takes off the white space around a text, all of it and nothing else.
pub proof fn law_trimming_takes_off_white_space(s: Seq<char>)
    ensures
        is_core(text::trimmed(s), s),
{
    lemma_trim_start(s);
    let m = text::trim_start(s);
    lemma_trim_end(m);
    let t = text::trimmed(s);
    let a = choose|a: int|
        0 <= a <= s.len() && #[trigger] s.skip(a) == m && (forall|i: int|
            0 <= i < a ==> text::is_space(#[trigger] s[i]));
    let b = choose|b: int|
        0 <= b <= m.len() && #[trigger] m.take(b) == t && (forall|i: int|
            b <= i < m.len() ==> text::is_space(#[trigger] m[i]));
    let front = s.take(a);
    let back = m.skip(b);
    assert(front + t + back =~= s);
    assert forall|i: int| 0 <= i < front.len() implies white_space().contains(
        #[trigger] front[i],
    ) by {
        law_white_space_is_unicodes(s[i]);
        assert(front[i] == s[i]);
    }
    assert forall|i: int| 0 <= i < back.len() implies white_space().contains(
        #[trigger] back[i],
    ) by {
        law_white_space_is_unicodes(m[b + i]);
        assert(back[i] == m[b + i]);
    }
    if t.len() > 0 {
        assert(t[0] == m[0]);
        law_white_space_is_unicodes(t[0]);
        law_white_space_is_unicodes(t.last());
    }
    assert(all_white(front) && all_white(back));
}

/// A text that neither begins nor ends with white space is what trimming leaves
/// of it, whatever white space is put around it.
pub proof fn law_trimming_undoes_padding(a: Seq<char>, t: Seq<char>, b: Seq<char>)
    requires
        all_white(a),
        all_white(b),
        t.len() > 0 ==> !white_space().contains(t[0]) && !white_space().contains(t.last()),
    ensures
        text::trimmed(a + t + b) == t,
    decreases a.len() + b.len(),
{
    let s = a + t + b;
    if a.len() > 0 {
        assert(white_space().contains(a[0]));
        law_white_space_is_unicodes(a[0]);
        assert(s[0] == a[0]);
        let rest = a.drop_first();
        assert(s.drop_first() =~= rest + t + b);
        assert forall|i: int| 0 <= i < rest.len() implies white_space().contains(
            #[trigger] rest[i],
        ) by {
            assert(rest[i] == a[i + 1]);
        }
        law_trimming_undoes_padding(rest, t, b);
    } else if t.len() == 0 {
        if b.len() > 0 {
            assert(white_space().contains(b[0]));
            law_white_space_is_unicodes(b[0]);
            assert(s[0] == b[0]);
            let rest = b.drop_first();
            assert(s.drop_first() =~= a + t + rest);
            assert forall|i: int| 0 <= i < rest.len() implies white_space().contains(
                #[trigger] rest[i],
            ) by {
                assert(rest[i] == b[i + 1]);
            }
            law_trimming_undoes_padding(a, t, rest);
        } else {
            assert(s =~= t);
        }
    } else {
        law_white_space_is_unicodes(t[0]);
        assert(s[0] == t[0]);
        assert(text::trim_start(s) == s);
        if b.len() > 0 {
            let n = b.len() - 1;
            assert(white_space().contains(b[n]));
            law_white_space_is_unicodes(b[n]);
            assert(s.last() == b[n]);
            let rest = b.drop_last();
            assert(s.drop_last() =~= a + t + rest);
            assert forall|i: int| 0 <= i < rest.len() implies white_space().contains(
                #[trigger] rest[i],
            ) by {
                assert(rest[i] == b[i]);
            }
            law_trimming_undoes_padding(a, t, rest);
            assert((a + t + rest)[0] == t[0]);
        } else {
            assert(s =~= t);
            law_white_space_is_unicodes(t.last());
        }
    }
}

/// Texts one after the other, with a character between each and the next.
pub open spec fn joined_by(parts: Seq<Seq<char>>, sep: char) -> Seq<char>
    decreases parts.len(),
{
    if parts.len() == 0 {
        Seq::empty()
    } else if parts.len() == 1 {
        parts[0]
    } else {
        joined_by(parts.drop_last(), sep).push(sep) + parts.last()
    }
}

/// Splitting undoes joining: texts without the separator come back, each as it
/// was and in their order.
pub proof fn law_splitting_undoes_joining(parts: Seq<Seq<char>>, sep: char)
    requires
        parts.len() > 0,
        forall|i: int| 0 <= i < parts.len() ==> !(#[trigger] parts[i]).contains(sep),
    ensures
        text::pieces(joined_by(parts, sep), sep) == parts,
    decreases parts.len(),
{
    if parts.len() == 1 {
        lemma_pieces_behind(Seq::empty(), parts[0], sep);
        assert(Seq::<char>::empty() + parts[0] =~= parts[0]);
        assert(text::pieces(Seq::<char>::empty(), sep) =~= seq![Seq::<char>::empty()]);
        assert(text::pieces(parts[0], sep) =~= parts);
    } else {
        let before = parts.drop_last();
        assert forall|i: int| 0 <= i < before.len() implies !(#[trigger] before[i]).contains(
            sep,
        ) by {
            assert(before[i] == parts[i]);
        }
        law_splitting_undoes_joining(before, sep);
        let head = joined_by(before, sep).push(sep);
        assert(head.drop_last() =~= joined_by(before, sep));
        assert(parts.last() == parts[parts.len() - 1]);
        lemma_pieces_behind(head, parts.last(), sep);
        assert(text::pieces(head, sep) == before.push(Seq::empty()));
        assert(Seq::<char>::empty() + parts.last() =~= parts.last());
        assert(text::pieces(joined_by(parts, sep), sep) =~= parts);
    }
}

/// Text without the separator goes to the last piece.
proof fn lemma_pieces_behind(head: Seq<char>, tail: Seq<char>, sep: char)
    requires
        !tail.contains(sep),
    ensures
        ({
            let p = text::pieces(head, sep);
            text::pieces(head + tail, sep) == p.drop_last().push(p.last() + tail)
        }),
    decreases tail.len(),
{
    let p = text::pieces(head, sep);
    text::lemma_pieces_nonempty(head, sep);
    if tail.len() == 0 {
        assert(head + tail =~= head);
        assert(p.last() + tail =~= p.last());
        assert(p.drop_last().push(p.last()) =~= p);
    } else {
        let less = tail.drop_last();
        assert(!less.contains(sep)) by {
            if less.contains(sep) {
                let i = choose|i: int| 0 <= i < less.len() && less[i] == sep;
                assert(tail[i] == sep);
            }
        }
        lemma_pieces_behind(head, less, sep);
        assert((head + tail).drop_last() =~= head + less);
        assert(tail[tail.len() - 1] == tail.last());
        let q = text::pieces(head + less, sep);
        assert(q.drop_last() =~= p.drop_last());
        assert((p.last() + less).push(tail.last()) =~= p.last() + tail);
    }
}

/// Joining undoes splitting, and no piece holds the separator.
pub proof fn law_joining_undoes_splitting(s: Seq<char>, sep: char)
    ensures
        joined_by(text::pieces(s, sep), sep) == s,
        text::pieces(s, sep).len() >= 1,
        forall|i: int|
            0 <= i < text::pieces(s, sep).len() ==> !(#[trigger] text::pieces(s, sep)[i]).contains(
                sep,
            ),
    decreases s.len(),
{
    let p = text::pieces(s, sep);
    if s.len() == 0 {
        assert(p.len() == 1);
        assert(p[0] =~= s);
    } else {
        let rest = s.drop_last();
        let q = text::pieces(rest, sep);
        law_joining_undoes_splitting(rest, sep);
        assert(rest.push(s.last()) =~= s);
        if s.last() == sep {
            assert(p.drop_last() =~= q);
            assert(joined_by(q, sep).push(sep) + Seq::<char>::empty() =~= s);
            assert forall|i: int| 0 <= i < p.len() implies !(#[trigger] p[i]).contains(sep) by {
                if i < q.len() {
                    assert(p[i] == q[i]);
                }
            }
        } else {
            let last = q.last().push(s.last());
            assert(q[q.len() - 1] == q.last());
            assert forall|i: int| 0 <= i < p.len() implies !(#[trigger] p[i]).contains(sep) by {
                if i < q.len() - 1 {
                    assert(p[i] == q[i]);
                } else {
                    if last.contains(sep) {
                        let k = choose|k: int| 0 <= k < last.len() && last[k] == sep;
                        if k < q.last().len() {
                            assert(q.last()[k] == sep);
                            assert(q.last().contains(sep));
                        }
                    }
                }
            }
            if q.len() == 1 {
                assert(p.len() == 1);
                assert(p[0] =~= s);
            } else {
                assert(p.drop_last() =~= q.drop_last());
                assert(joined_by(p, sep) =~= joined_by(q, sep).push(s.last()));
            }
        }
    }
}

/// A text begins with another exactly when it is that and more, and holds
/// another exactly when there is something before it and something behind it.
pub proof fn law_prefixes_and_substrings(a: Seq<char>, b: Seq<char>)
    ensures
        text::has_prefix(a, b) <==> exists|rest: Seq<char>| a == #[trigger] (b + rest),
        text::has_substring(a, b) <==> exists|x: Seq<char>, y: Seq<char>| a == #[trigger] (x + b
            + y),
{
    if text::has_prefix(a, b) {
        assert(a =~= b + a.skip(b.len() as int));
    }
    if exists|rest: Seq<char>| a == #[trigger] (b + rest) {
        let rest = choose|rest: Seq<char>| a == #[trigger] (b + rest);
        assert(a.take(b.len() as int) =~= b);
    }
    if text::has_substring(a, b) {
        let i = choose|i: int| 0 <= i <= a.len() && #[trigger] text::has_prefix(a.skip(i), b);
        let y = a.skip(i).skip(b.len() as int);
        assert(a.skip(i) =~= b + y);
        assert(a =~= a.take(i) + b + y);
    }
    if exists|x: Seq<char>, y: Seq<char>| a == #[trigger] (x + b + y) {
        let (x, y) = choose|x: Seq<char>, y: Seq<char>| a == #[trigger] (x + b + y);
        assert(a.skip(x.len() as int).take(b.len() as int) =~= b);
        assert(text::has_prefix(a.skip(x.len() as int), b));
    }
}

/// The lowercase of a text is that of its parts end to end; an ASCII capital
/// becomes its small letter, and other ASCII stays.
pub proof fn law_lowercase_goes_letter_by_letter(a: Seq<char>, b: Seq<char>, c: char)
    ensures
        text::lower(a + b) == text::lower(a) + text::lower(b),
        text::lower(Seq::empty()) == Seq::<char>::empty(),
        0x41 <= c as int <= 0x5a ==> text::lower(seq![c]).len() == 1 && text::lower(
            seq![c],
        )[0] as int == c as int + 0x20,
        c as int <= 0x7f && !(0x41 <= c as int <= 0x5a) ==> text::lower(seq![c]) == seq![c],
        c as int > 0x7f ==> text::lower(seq![c]) == text::lowercase(c),
    decreases b.len(),
{
    reveal_with_fuel(text::lower, 2);
    assert(seq![c].drop_last() =~= Seq::<char>::empty());
    assert(Seq::<char>::empty() + text::lower_char(c) =~= text::lower_char(c));
    if b.len() == 0 {
        assert(a + b =~= a);
        assert(text::lower(a) + text::lower(b) =~= text::lower(a));
    } else {
        law_lowercase_goes_letter_by_letter(a, b.drop_last(), c);
        assert((a + b).drop_last() =~= a + b.drop_last());
        assert(text::lower(a + b) =~= text::lower(a) + text::lower(b));
    }
}

/// Bytes sort by the first that differs, and what another goes on from sorts
/// before it.
pub proof fn law_bytes_sort_by_the_first_difference(a: Seq<u8>, b: Seq<u8>)
    ensures
        text::sorts_before(a, b) <==> exists|k: int|
            0 <= k <= a.len() && k < b.len() && #[trigger] a.take(k) == b.take(k) && (k == a.len()
                || a[k] < b[k]),
    decreases a.len(),
{
    if b.len() == 0 {
    } else if a.len() == 0 {
        assert(a.take(0) =~= b.take(0));
    } else {
        let x = a.drop_first();
        let y = b.drop_first();
        law_bytes_sort_by_the_first_difference(x, y);
        if text::sorts_before(a, b) {
            if a[0] != b[0] {
                assert(a.take(0) =~= b.take(0));
            } else {
                let k = choose|k: int|
                    0 <= k <= x.len() && k < y.len() && #[trigger] x.take(k) == y.take(k) && (k
                        == x.len() || x[k] < y[k]);
                assert forall|i: int| 0 <= i < k + 1 implies a[i] == b[i] by {
                    if i > 0 {
                        assert(x.take(k)[i - 1] == y.take(k)[i - 1]);
                    }
                }
                assert(a.take(k + 1) =~= b.take(k + 1));
            }
        }
        if exists|k: int|
            0 <= k <= a.len() && k < b.len() && #[trigger] a.take(k) == b.take(k) && (k == a.len()
                || a[k] < b[k]) {
            let k = choose|k: int|
                0 <= k <= a.len() && k < b.len() && #[trigger] a.take(k) == b.take(k) && (k
                    == a.len() || a[k] < b[k]);
            if k > 0 {
                assert(a.take(k)[0] == b.take(k)[0]);
                assert forall|i: int| 0 <= i < k - 1 implies x[i] == y[i] by {
                    assert(a.take(k)[i + 1] == b.take(k)[i + 1]);
                }
                assert(x.take(k - 1) =~= y.take(k - 1));
            }
        }
    }
}

/// Filling takes as much as fits, in order and from the front: all of it, or up
/// to the first character that does not fit.
pub proof fn law_filling_takes_what_fits(out: Seq<char>, s: Seq<char>, cap: nat)
    requires
        encode_utf8(out).len() <= cap,
    ensures
        exists|k: int|
            0 <= k <= s.len() && text::filled(out, s, cap) == out + #[trigger] s.take(k)
                && encode_utf8(out + s.take(k)).len() <= cap && (k < s.len() ==> encode_utf8(
                (out + s.take(k)).push(s[k]),
            ).len() > cap),
    decreases s.len(),
{
    if s.len() == 0 || text::byte_len(out.push(s[0])) > cap {
        assert(out + s.take(0) =~= out);
    } else {
        let next = out.push(s[0]);
        let rest = s.drop_first();
        law_filling_takes_what_fits(next, rest, cap);
        let k = choose|k: int|
            0 <= k <= rest.len() && text::filled(next, rest, cap) == next + #[trigger] rest.take(k)
                && encode_utf8(next + rest.take(k)).len() <= cap && (k < rest.len()
                ==> encode_utf8((next + rest.take(k)).push(rest[k])).len() > cap);
        assert(out + s.take(k + 1) =~= next + rest.take(k));
        if k < rest.len() {
            assert(rest[k] == s[k + 1]);
        }
    }
}

/// The first place of a character: it is there, and nowhere before.
pub proof fn law_the_first_is_the_first(s: Seq<char>, c: char)
    ensures
        s.contains(c) ==> 0 <= text::first_of(s, c) < s.len() && s[text::first_of(s, c)] == c,
        !s.contains(c) ==> text::first_of(s, c) == s.len(),
        forall|i: int| 0 <= i < text::first_of(s, c) ==> #[trigger] s[i] != c,
    decreases s.len(),
{
    if s.len() > 0 && s[0] != c {
        let rest = s.drop_first();
        law_the_first_is_the_first(rest, c);
        if s.contains(c) {
            let i = choose|i: int| 0 <= i < s.len() && s[i] == c;
            assert(rest[i - 1] == c);
        }
        if rest.contains(c) {
            let i = choose|i: int| 0 <= i < rest.len() && rest[i] == c;
            assert(s[i + 1] == c);
        }
        assert forall|i: int| 0 <= i < text::first_of(s, c) implies #[trigger] s[i] != c by {
            if i > 0 {
                assert(rest[i - 1] == s[i]);
            }
        }
    } else if s.len() > 0 {
        assert(s.contains(s[0]));
    }
}

/// A number is written with its digits, the highest first and without zeros
/// before them.
pub proof fn law_numbers_are_written_by_their_digits(n: nat, d: nat, base: nat)
    requires
        2 <= base <= 16,
        d < base,
    ensures
        text::digits(d, base).len() == 1,
        text::digits(d, base)[0] == seq![
            '0',
            '1',
            '2',
            '3',
            '4',
            '5',
            '6',
            '7',
            '8',
            '9',
            'a',
            'b',
            'c',
            'd',
            'e',
            'f',
        ][d as int],
        n > 0 ==> text::digits(n * base + d, base) == text::digits(n, base) + text::digits(d, base),
{
    let all = seq!['0', '1', '2', '3', '4', '5', '6', '7', '8', '9', 'a', 'b', 'c', 'd', 'e', 'f'];
    if d < 10 {
        assert(all[d as int] as int == 0x30 + d);
    } else {
        assert(all[d as int] as int == 0x61 + d - 10);
    }
    if n > 0 {
        let v = n * base + d;
        assert(v >= base) by (nonlinear_arith)
            requires
                v == n * base + d,
                n >= 1,
        ;
        vstd::arithmetic::div_mod::lemma_fundamental_div_mod_converse(
            v as int,
            base as int,
            n as int,
            d as int,
        );
        assert(text::digits(v, base) =~= text::digits(n, base) + text::digits(d, base));
    }
}

} // verus!
