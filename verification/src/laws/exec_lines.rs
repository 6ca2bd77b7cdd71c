//! What the arguments of a command line are, for a line put together from words.
use vstd::prelude::*;
use vstd::utf8::*;

use crate::desktop;
use crate::laws::strings;
use crate::platform::text;

verus! {

/// One mark inside double quotes.
pub enum Mark {
    /// A character that stands for itself.
    Plain(char),
    /// A backslash before one of the four characters it escapes.
    Escaped(char),
    /// A backslash before any other character, which keeps both.
    Kept(char),
}

/// Whether a character is one of the four a backslash escapes inside quotes.
pub open spec fn escapable(c: char) -> bool {
    seq!['"', '`', '$', '\\'].contains(c)
}

impl Mark {
    pub open spec fn wf(self) -> bool {
        match self {
            Mark::Plain(c) => c != '"' && c != '\\',
            Mark::Escaped(c) => escapable(c),
            Mark::Kept(c) => !escapable(c),
        }
    }

    /// As it is written in the line.
    pub open spec fn written(self) -> Seq<char> {
        match self {
            Mark::Plain(c) => seq![c],
            Mark::Escaped(c) => seq!['\\', c],
            Mark::Kept(c) => seq!['\\', c],
        }
    }

    /// What it adds to the argument.
    pub open spec fn value(self) -> Seq<char> {
        match self {
            Mark::Plain(c) => seq![c],
            Mark::Escaped(c) => seq![c],
            Mark::Kept(c) => seq!['\\', c],
        }
    }
}

/// Marks, one behind the other, as they are written.
pub open spec fn marks_written(m: Seq<Mark>) -> Seq<char>
    decreases m.len(),
{
    if m.len() == 0 {
        Seq::empty()
    } else {
        m[0].written() + marks_written(m.drop_first())
    }
}

/// Marks, one behind the other, as they come out.
pub open spec fn marks_value(m: Seq<Mark>) -> Seq<char>
    decreases m.len(),
{
    if m.len() == 0 {
        Seq::empty()
    } else {
        m[0].value() + marks_value(m.drop_first())
    }
}

pub open spec fn marks_wf(m: Seq<Mark>) -> bool {
    forall|i: int| 0 <= i < m.len() ==> (#[trigger] m[i]).wf()
}

/// A piece of a word.
pub enum Piece {
    /// A character outside quotes that stands for itself.
    Bare(char),
    /// A doubled percent sign.
    Percent,
    /// A field code, which expands to nothing.
    Code(char),
    /// A run in double quotes.
    Quoted(Seq<Mark>),
}

impl Piece {
    pub open spec fn wf(self) -> bool {
        match self {
            Piece::Bare(c) => c != ' ' && c != '\t' && c != '"' && c != '%',
            Piece::Percent => true,
            Piece::Code(c) => c != ' ' && c != '\t' && c != '%',
            Piece::Quoted(m) => marks_wf(m),
        }
    }

    /// As it is written in the line.
    pub open spec fn written(self) -> Seq<char> {
        match self {
            Piece::Bare(c) => seq![c],
            Piece::Percent => seq!['%', '%'],
            Piece::Code(c) => seq!['%', c],
            Piece::Quoted(m) => seq!['"'] + marks_written(m) + seq!['"'],
        }
    }

    /// What it adds to the argument.
    pub open spec fn value(self) -> Seq<char> {
        match self {
            Piece::Bare(c) => seq![c],
            Piece::Percent => seq!['%'],
            Piece::Code(_) => Seq::empty(),
            Piece::Quoted(m) => marks_value(m),
        }
    }

    /// Whether it makes its word an argument, if only an empty one.
    pub open spec fn counts(self) -> bool {
        !(self is Code)
    }
}

pub open spec fn pieces_written(p: Seq<Piece>) -> Seq<char>
    decreases p.len(),
{
    if p.len() == 0 {
        Seq::empty()
    } else {
        p[0].written() + pieces_written(p.drop_first())
    }
}

pub open spec fn pieces_value(p: Seq<Piece>) -> Seq<char>
    decreases p.len(),
{
    if p.len() == 0 {
        Seq::empty()
    } else {
        p[0].value() + pieces_value(p.drop_first())
    }
}

/// A word of a command line: the spaces and tabs before it, its pieces, and
/// whether a lone percent sign ends it.
pub struct Word {
    pub gap: Seq<char>,
    pub pieces: Seq<Piece>,
    pub lone: bool,
}

impl Word {
    pub open spec fn wf(self) -> bool {
        &&& forall|i: int| 0 <= i < self.gap.len() ==> #[trigger] self.gap[i] == ' ' || self.gap[i]
            == '\t'
        &&& forall|i: int| 0 <= i < self.pieces.len() ==> (#[trigger] self.pieces[i]).wf()
    }

    pub open spec fn written(self) -> Seq<char> {
        self.gap + pieces_written(self.pieces) + if self.lone {
            seq!['%']
        } else {
            Seq::empty()
        }
    }

    /// Whether the word is an argument: something in it is more than a field
    /// code.
    pub open spec fn counts(self) -> bool {
        exists|i: int| 0 <= i < self.pieces.len() && (#[trigger] self.pieces[i]).counts()
    }
}

/// A command line, written out.
pub open spec fn line(words: Seq<Word>) -> Seq<char>
    decreases words.len(),
{
    if words.len() == 0 {
        Seq::empty()
    } else {
        words[0].written() + line(words.drop_first())
    }
}

/// The words of a command line that are arguments, as they come out.
pub open spec fn values(words: Seq<Word>) -> Seq<Seq<char>>
    decreases words.len(),
{
    if words.len() == 0 {
        Seq::empty()
    } else if words[0].counts() {
        seq![pieces_value(words[0].pieces)] + values(words.drop_first())
    } else {
        values(words.drop_first())
    }
}

/// Words with something between each and the next.
pub open spec fn words_wf(words: Seq<Word>) -> bool {
    &&& forall|i: int| 0 <= i < words.len() ==> (#[trigger] words[i]).wf()
    &&& forall|i: int| 1 <= i < words.len() ==> (#[trigger] words[i]).gap.len() > 0
}

proof fn lemma_escapable(c: char)
    ensures
        escapable(c) <==> c == '"' || c == '`' || c == '$' || c == '\\',
{
    let s = seq!['"', '`', '$', '\\'];
    assert(s[0] == '"' && s[1] == '`' && s[2] == '$' && s[3] == '\\');
    if s.contains(c) {
        let i = choose|i: int| 0 <= i < s.len() && s[i] == c;
        assert(i == 0 || i == 1 || i == 2 || i == 3);
    }
}

proof fn lemma_marks(m: Seq<Mark>, rest: Seq<char>)
    requires
        marks_wf(m),
    ensures
        desktop::quoted(marks_written(m) + rest).0 == marks_value(m) + desktop::quoted(rest).0,
        desktop::quoted(marks_written(m) + rest).1 == marks_written(m).len() + desktop::quoted(
            rest,
        ).1,
    decreases m.len(),
{
    if m.len() == 0 {
        assert(marks_written(m) + rest =~= rest);
        assert(marks_value(m) + desktop::quoted(rest).0 =~= desktop::quoted(rest).0);
    } else {
        let more = m.drop_first();
        assert(m[0].wf());
        assert forall|i: int| 0 <= i < more.len() implies (#[trigger] more[i]).wf() by {
            assert(more[i] == m[i + 1]);
        }
        lemma_marks(more, rest);
        let s = marks_written(m) + rest;
        let tail = marks_written(more) + rest;
        match m[0] {
            Mark::Plain(c) => {
                assert(s[0] == c);
                assert(s.skip(1) =~= tail);
                assert(desktop::quoted(s).0 =~= marks_value(m) + desktop::quoted(rest).0);
            },
            Mark::Escaped(c) => {
                lemma_escapable(c);
                assert(s[0] == '\\' && s[1] == c);
                assert(s.skip(2) =~= tail);
                assert(desktop::quoted(s).0 =~= marks_value(m) + desktop::quoted(rest).0);
            },
            Mark::Kept(c) => {
                lemma_escapable(c);
                assert(s[0] == '\\' && s[1] == c);
                let t = s.skip(1);
                assert(t[0] == c);
                assert(t.skip(1) =~= tail);
                assert(desktop::quoted(s).0 == seq![s[0]] + desktop::quoted(t).0);
                assert(desktop::quoted(t).0 == seq![c] + desktop::quoted(tail).0);
                assert(desktop::quoted(s).0 =~= marks_value(m) + desktop::quoted(rest).0);
            },
        }
    }
}

proof fn lemma_piece(p: Piece, rest: Seq<char>, cur: Seq<char>, has_arg: bool)
    requires
        p.wf(),
    ensures
        desktop::args_from(p.written() + rest, cur, has_arg) == desktop::args_from(
            rest,
            cur + p.value(),
            has_arg || p.counts(),
        ),
{
    let s = p.written() + rest;
    match p {
        Piece::Bare(c) => {
            assert(s[0] == c);
            assert(s.skip(1) =~= rest);
            assert(cur.push(c) =~= cur + p.value());
        },
        Piece::Percent => {
            assert(s[0] == '%' && s[1] == '%');
            assert(s.skip(2) =~= rest);
            assert(cur.push('%') =~= cur + p.value());
        },
        Piece::Code(c) => {
            assert(s[0] == '%' && s[1] == c);
            assert(s.skip(2) =~= rest);
            assert(cur =~= cur + p.value());
        },
        Piece::Quoted(m) => {
            let inside = marks_written(m);
            let close = seq!['"'] + rest;
            assert(s[0] == '"');
            assert(s.skip(1) =~= inside + close);
            lemma_marks(m, close);
            assert(close[0] == '"');
            assert(desktop::quoted(close) == (Seq::<char>::empty(), 1int));
            assert(marks_value(m) + Seq::<char>::empty() =~= marks_value(m));
            assert((inside + close).skip(inside.len() as int + 1) =~= rest);
        },
    }
}

proof fn lemma_pieces(p: Seq<Piece>, rest: Seq<char>, cur: Seq<char>, has_arg: bool)
    requires
        forall|i: int| 0 <= i < p.len() ==> (#[trigger] p[i]).wf(),
    ensures
        desktop::args_from(pieces_written(p) + rest, cur, has_arg) == desktop::args_from(
            rest,
            cur + pieces_value(p),
            has_arg || exists|i: int| 0 <= i < p.len() && (#[trigger] p[i]).counts(),
        ),
        (forall|i: int| 0 <= i < p.len() ==> !(#[trigger] p[i]).counts()) ==> pieces_value(p)
            == Seq::<char>::empty(),
    decreases p.len(),
{
    if p.len() == 0 {
        assert(pieces_written(p) + rest =~= rest);
        assert(cur + pieces_value(p) =~= cur);
    } else {
        let more = p.drop_first();
        assert forall|i: int| 0 <= i < more.len() implies (#[trigger] more[i]).wf() by {
            assert(more[i] == p[i + 1]);
        }
        lemma_piece(p[0], pieces_written(more) + rest, cur, has_arg);
        assert(pieces_written(p) + rest =~= p[0].written() + (pieces_written(more) + rest));
        lemma_pieces(more, rest, cur + p[0].value(), has_arg || p[0].counts());
        assert(cur + pieces_value(p) =~= cur + p[0].value() + pieces_value(more));
        let some = exists|i: int| 0 <= i < p.len() && (#[trigger] p[i]).counts();
        let rest_some = exists|i: int| 0 <= i < more.len() && (#[trigger] more[i]).counts();
        assert(some == (p[0].counts() || rest_some)) by {
            if rest_some {
                let i = choose|i: int| 0 <= i < more.len() && (#[trigger] more[i]).counts();
                assert(p[i + 1].counts());
            }
            if some && !p[0].counts() {
                let i = choose|i: int| 0 <= i < p.len() && (#[trigger] p[i]).counts();
                assert(more[i - 1].counts());
            }
        }
        if forall|i: int| 0 <= i < p.len() ==> !(#[trigger] p[i]).counts() {
            assert(!p[0].counts());
            assert forall|i: int| 0 <= i < more.len() implies !(#[trigger] more[i]).counts() by {
                assert(more[i] == p[i + 1]);
            }
            assert(pieces_value(p) =~= Seq::<char>::empty());
        }
    }
}

proof fn lemma_gap(gap: Seq<char>, rest: Seq<char>, cur: Seq<char>, has_arg: bool)
    requires
        forall|i: int| 0 <= i < gap.len() ==> #[trigger] gap[i] == ' ' || gap[i] == '\t',
        has_arg ==> gap.len() > 0,
        !has_arg ==> cur == Seq::<char>::empty(),
    ensures
        desktop::args_from(gap + rest, cur, has_arg) == (if has_arg {
            seq![cur]
        } else {
            Seq::empty()
        }) + desktop::args_from(rest, Seq::empty(), false),
    decreases gap.len(),
{
    let none = Seq::<char>::empty();
    let after = desktop::args_from(rest, none, false);
    if gap.len() == 0 {
        assert(gap + rest =~= rest);
        assert(Seq::<Seq<char>>::empty() + after =~= after);
    } else {
        let more = gap.drop_first();
        let s = gap + rest;
        assert(gap[0] == ' ' || gap[0] == '\t');
        assert(s[0] == gap[0]);
        assert(s.skip(1) =~= more + rest);
        lemma_gap(more, rest, none, false);
        assert(Seq::<Seq<char>>::empty() + after =~= after);
    }
}

proof fn lemma_line(words: Seq<Word>, cur: Seq<char>, has_arg: bool)
    requires
        words_wf(words),
        has_arg && words.len() > 0 ==> words[0].gap.len() > 0,
        !has_arg ==> cur == Seq::<char>::empty(),
    ensures
        desktop::args_from(line(words), cur, has_arg) == (if has_arg {
            seq![cur]
        } else {
            Seq::empty()
        }) + values(words),
    decreases words.len(),
{
    let none = Seq::<char>::empty();
    if words.len() == 0 {
        assert(seq![cur] + values(words) =~= seq![cur]);
        assert(Seq::<Seq<char>>::empty() + values(words) =~= values(words));
    } else {
        let w = words[0];
        let more = words.drop_first();
        assert(w.wf());
        assert forall|i: int| 0 <= i < more.len() implies (#[trigger] more[i]).wf() by {
            assert(more[i] == words[i + 1]);
        }
        assert forall|i: int| 0 <= i < more.len() implies (#[trigger] more[i]).gap.len() > 0 by {
            assert(more[i] == words[i + 1]);
        }
        let end = if w.lone {
            seq!['%']
        } else {
            none
        };
        let rest = end + line(more);
        let body = pieces_written(w.pieces) + rest;
        assert(line(words) =~= w.gap + body);
        lemma_gap(w.gap, body, cur, has_arg);
        lemma_pieces(w.pieces, rest, none, false);
        assert(none + pieces_value(w.pieces) =~= pieces_value(w.pieces));
        let got = pieces_value(w.pieces);
        assert(desktop::args_from(body, none, false) == desktop::args_from(rest, got, w.counts()));
        assert(desktop::args_from(rest, got, w.counts()) == desktop::args_from(
            line(more),
            got,
            w.counts(),
        )) by {
            if w.lone {
                assert(rest[0] == '%');
                assert(rest.skip(1) =~= line(more));
                if more.len() > 0 {
                    assert(more[0].gap.len() > 0);
                    assert(line(more)[0] == more[0].gap[0]);
                    assert(rest[1] == line(more)[0]);
                }
            } else {
                assert(rest =~= line(more));
            }
        }
        if !w.counts() {
            assert forall|i: int| 0 <= i < w.pieces.len() implies !(
            #[trigger] w.pieces[i]).counts() by {}
        }
        lemma_line(more, got, w.counts());
        let lead = if has_arg {
            seq![cur]
        } else {
            Seq::<Seq<char>>::empty()
        };
        assert(lead + values(words) =~= lead + ((if w.counts() {
            seq![got]
        } else {
            Seq::<Seq<char>>::empty()
        }) + values(more)));
    }
}

/// A command line put together from words is taken apart into them: each word
/// that is more than field codes is one argument, made of its pieces end to end,
/// whether they stand in quotes or not.
pub proof fn law_a_line_comes_apart_into_its_words(words: Seq<Word>)
    requires
        words_wf(words),
    ensures
        desktop::exec_args(line(words)) == values(words),
{
    lemma_line(words, Seq::empty(), false);
    assert(Seq::<Seq<char>>::empty() + values(words) =~= values(words));
}

/// A quoted run goes on with the argument it stands in: plain text before it and
/// behind it and what it holds are one argument.
pub proof fn law_quotes_do_not_part_an_argument(before: Seq<char>, m: Seq<Mark>, after: Seq<char>)
    requires
        marks_wf(m),
        forall|i: int| 0 <= i < before.len() ==> Piece::Bare(#[trigger] before[i]).wf(),
        forall|i: int| 0 <= i < after.len() ==> Piece::Bare(#[trigger] after[i]).wf(),
    ensures
        desktop::exec_args(before + seq!['"'] + marks_written(m) + seq!['"'] + after)
            == seq![before + marks_value(m) + after],
{
    let none = Seq::<char>::empty();
    let q = Piece::Quoted(m);
    let tail = q.written() + after;
    lemma_bare(before, tail, none, false);
    lemma_piece(q, after, none + before, before.len() > 0);
    lemma_bare(after, none, none + before + q.value(), true);
    assert(after + none =~= after);
    assert(before + tail =~= before + seq!['"'] + marks_written(m) + seq!['"'] + after);
    assert(none + before + q.value() + after =~= before + marks_value(m) + after);
}

proof fn lemma_bare(s: Seq<char>, rest: Seq<char>, cur: Seq<char>, has_arg: bool)
    requires
        forall|i: int| 0 <= i < s.len() ==> Piece::Bare(#[trigger] s[i]).wf(),
    ensures
        desktop::args_from(s + rest, cur, has_arg) == desktop::args_from(
            rest,
            cur + s,
            has_arg || s.len() > 0,
        ),
    decreases s.len(),
{
    if s.len() == 0 {
        assert(s + rest =~= rest);
        assert(cur + s =~= cur);
    } else {
        let more = s.drop_first();
        assert forall|i: int| 0 <= i < more.len() implies Piece::Bare(#[trigger] more[i]).wf() by {
            assert(more[i] == s[i + 1]);
        }
        lemma_piece(Piece::Bare(s[0]), more + rest, cur, has_arg);
        assert(s + rest =~= seq![s[0]] + (more + rest));
        lemma_bare(more, rest, cur + seq![s[0]], true);
        assert(cur + seq![s[0]] + more =~= cur + s);
    }
}

/// A quote that is never closed ends with the line, as if closed there; a
/// backslash at the very end stands for itself.
pub proof fn law_an_open_quote_ends_with_the_line(words: Seq<Word>, m: Seq<Mark>)
    requires
        words_wf(words),
        words.len() > 0 ==> !words.last().lone,
        marks_wf(m),
    ensures
        desktop::exec_args(line(words) + seq!['"'] + marks_written(m)) == desktop::exec_args(
            line(words) + seq!['"'] + marks_written(m) + seq!['"'],
        ),
        desktop::exec_args(line(words) + seq!['"'] + marks_written(m) + seq!['\\'])
            == desktop::exec_args(
            line(words) + seq!['"'] + marks_written(m) + seq!['\\', '\\', '"'],
        ),
{
    let inside = marks_written(m);
    let none = Seq::<char>::empty();
    assert(inside + none =~= inside);
    lemma_marks(m, none);
    lemma_marks(m, seq!['"']);
    assert(seq!['"'][0] == '"');
    lemma_open(words, inside, inside + seq!['"'], none, false);
    assert(line(words) + seq!['"'] + inside =~= line(words) + (seq!['"'] + inside));
    assert(line(words) + seq!['"'] + inside + seq!['"'] =~= line(words) + (seq!['"'] + (inside
        + seq!['"'])));
    let one = seq!['\\'];
    let two = seq!['\\', '\\', '"'];
    lemma_marks(m, one);
    lemma_marks(m, two);
    assert(one.skip(1) =~= none);
    assert(two.skip(2) =~= seq!['"']);
    assert(desktop::quoted(one) == (one, 1int)) by {
        assert(desktop::quoted(one.skip(1)) == (none, 0int));
        assert(seq![one[0]] + none =~= one);
    }
    assert(desktop::quoted(two) == (one, 3int)) by {
        assert(desktop::quoted(two.skip(2)) == (none, 1int));
        assert(seq![two[1]] + none =~= one);
    }
    lemma_open(words, inside + one, inside + two, none, false);
    assert(line(words) + seq!['"'] + inside + one =~= line(words) + (seq!['"'] + (inside + one)));
    assert(line(words) + seq!['"'] + inside + two =~= line(words) + (seq!['"'] + (inside + two)));
}

/// Quoted runs that hold the same and both reach the end give the same.
proof fn lemma_quote_ends(a: Seq<char>, b: Seq<char>, cur: Seq<char>, has_arg: bool)
    requires
        desktop::quoted(a) == (desktop::quoted(b).0, a.len() as int),
        desktop::quoted(b).1 == b.len(),
    ensures
        desktop::args_from(seq!['"'] + a, cur, has_arg) == desktop::args_from(
            seq!['"'] + b,
            cur,
            has_arg,
        ),
{
    let s = seq!['"'] + a;
    let t = seq!['"'] + b;
    assert(s[0] == '"' && t[0] == '"');
    assert(s.skip(1) =~= a);
    assert(t.skip(1) =~= b);
    assert(a.skip(a.len() as int) =~= Seq::<char>::empty());
    assert(b.skip(b.len() as int) =~= Seq::<char>::empty());
}

proof fn lemma_open(words: Seq<Word>, a: Seq<char>, b: Seq<char>, cur: Seq<char>, has_arg: bool)
    requires
        words_wf(words),
        words.len() > 0 ==> !words.last().lone,
        has_arg && words.len() > 0 ==> words[0].gap.len() > 0,
        !has_arg ==> cur == Seq::<char>::empty(),
        desktop::quoted(a) == (desktop::quoted(b).0, a.len() as int),
        desktop::quoted(b).1 == b.len(),
    ensures
        desktop::args_from(line(words) + (seq!['"'] + a), cur, has_arg) == desktop::args_from(
            line(words) + (seq!['"'] + b),
            cur,
            has_arg,
        ),
    decreases words.len(),
{
    let none = Seq::<char>::empty();
    let p = seq!['"'] + a;
    let q = seq!['"'] + b;
    if words.len() == 0 {
        lemma_quote_ends(a, b, cur, has_arg);
        assert(line(words) + p =~= p);
        assert(line(words) + q =~= q);
    } else {
        let w = words[0];
        let more = words.drop_first();
        assert(w.wf());
        assert forall|i: int| 0 <= i < more.len() implies (#[trigger] more[i]).wf() by {
            assert(more[i] == words[i + 1]);
        }
        assert forall|i: int| 0 <= i < more.len() implies (#[trigger] more[i]).gap.len() > 0 by {
            assert(more[i] == words[i + 1]);
        }
        if more.len() > 0 {
            assert(more.last() == words.last());
        }
        let got = pieces_value(w.pieces);
        lemma_word(w, more, p, cur, has_arg);
        lemma_word(w, more, q, cur, has_arg);
        if !w.counts() {
            lemma_pieces(w.pieces, none, none, false);
            assert forall|i: int| 0 <= i < w.pieces.len() implies !(
            #[trigger] w.pieces[i]).counts() by {}
        }
        lemma_open(more, a, b, got, w.counts());
        assert(line(words) + p =~= w.written() + (line(more) + p));
        assert(line(words) + q =~= w.written() + (line(more) + q));
    }
}

/// What a word adds, whatever follows it.
proof fn lemma_word(w: Word, more: Seq<Word>, p: Seq<char>, cur: Seq<char>, has_arg: bool)
    requires
        w.wf(),
        has_arg ==> w.gap.len() > 0,
        !has_arg ==> cur == Seq::<char>::empty(),
        words_wf(more),
        more.len() > 0 ==> more[0].gap.len() > 0,
        w.lone ==> more.len() > 0,
    ensures
        desktop::args_from(w.written() + (line(more) + p), cur, has_arg) == (if has_arg {
            seq![cur]
        } else {
            Seq::empty()
        }) + desktop::args_from(line(more) + p, pieces_value(w.pieces), w.counts()),
{
    let none = Seq::<char>::empty();
    let end = if w.lone {
        seq!['%']
    } else {
        none
    };
    let after = line(more) + p;
    let rest = end + after;
    let body = pieces_written(w.pieces) + rest;
    assert(w.written() + after =~= w.gap + body);
    lemma_gap(w.gap, body, cur, has_arg);
    lemma_pieces(w.pieces, rest, none, false);
    assert(none + pieces_value(w.pieces) =~= pieces_value(w.pieces));
    if w.lone {
        assert(more[0].wf());
        assert(line(more)[0] == more[0].gap[0]);
        assert(rest[0] == '%');
        assert(rest[1] == more[0].gap[0]);
        assert(rest.skip(1) =~= after);
    } else {
        assert(rest =~= after);
    }
}

/// What may be left behind the words of a line: a quote that is never closed.
pub open spec fn is_open_quote(t: Seq<char>) -> bool {
    exists|m: Seq<Mark>| #[trigger]
        marks_wf(m) && (t == seq!['"'] + marks_written(m) || t == seq!['"'] + marks_written(m)
            + seq!['\\'])
}

spec fn marks_split(s: Seq<char>, m: Seq<Mark>, rest: Seq<char>) -> bool {
    &&& marks_wf(m)
    &&& s == marks_written(m) + rest
    &&& rest.len() == 0 || rest[0] == '"' || rest == seq!['\\']
}

proof fn lemma_marks_of(s: Seq<char>)
    ensures
        exists|m: Seq<Mark>, rest: Seq<char>| marks_split(s, m, rest),
    decreases s.len(),
{
    let none = Seq::<Mark>::empty();
    if s.len() == 0 || s[0] == '"' || s =~= seq!['\\'] {
        assert(marks_written(none) + s =~= s);
        assert(marks_split(s, none, s));
    } else if s[0] != '\\' {
        lemma_marks_of(s.skip(1));
        lemma_marks_more(s.skip(1), Mark::Plain(s[0]));
        assert(s =~= Mark::Plain(s[0]).written() + s.skip(1));
    } else {
        assert(s.len() > 1) by {
            if s.len() == 1 {
                assert(s =~= seq!['\\']);
            }
        }
        lemma_marks_of(s.skip(2));
        if escapable(s[1]) {
            lemma_marks_more(s.skip(2), Mark::Escaped(s[1]));
            assert(s =~= Mark::Escaped(s[1]).written() + s.skip(2));
        } else {
            lemma_marks_more(s.skip(2), Mark::Kept(s[1]));
            assert(s =~= Mark::Kept(s[1]).written() + s.skip(2));
        }
    }
}

proof fn lemma_marks_more(s: Seq<char>, mark: Mark)
    requires
        mark.wf(),
        exists|m: Seq<Mark>, rest: Seq<char>| marks_split(s, m, rest),
    ensures
        exists|m: Seq<Mark>, rest: Seq<char>| marks_split(mark.written() + s, m, rest),
{
    let (more, rest) = choose|m: Seq<Mark>, rest: Seq<char>| marks_split(s, m, rest);
    let m = seq![mark] + more;
    assert(m.drop_first() =~= more);
    assert(mark.written() + s =~= marks_written(m) + rest);
    assert forall|i: int| 0 <= i < m.len() implies (#[trigger] m[i]).wf() by {
        if i > 0 {
            assert(m[i] == more[i - 1]);
        }
    }
    assert(marks_split(mark.written() + s, m, rest));
}

spec fn starts_with_gap(s: Seq<char>) -> bool {
    s.len() > 0 && (s[0] == ' ' || s[0] == '\t')
}

proof fn lemma_line_of(w: Word, words: Seq<Word>)
    requires
        w.wf(),
        words_wf(words),
        words.len() > 0 ==> words[0].gap.len() > 0,
    ensures
        words_wf(seq![w] + words),
        line(seq![w] + words) == w.written() + line(words),
        words.len() > 0 ==> (seq![w] + words).last() == words.last(),
        words.len() == 0 ==> (seq![w] + words).last() == w,
{
    let all = seq![w] + words;
    assert(all.drop_first() =~= words);
    assert forall|i: int| 0 <= i < all.len() implies (#[trigger] all[i]).wf() by {
        if i > 0 {
            assert(all[i] == words[i - 1]);
        }
    }
    assert forall|i: int| 1 <= i < all.len() implies (#[trigger] all[i]).gap.len() > 0 by {
        assert(all[i] == words[i - 1]);
    }
}

/// A word in place of the first one.
proof fn lemma_line_with(w: Word, words: Seq<Word>, more: Seq<char>)
    requires
        w.wf(),
        words_wf(words),
        words.len() > 0,
        w.written() == more + words[0].written(),
        w.lone == words[0].lone,
    ensures
        words_wf(words.update(0, w)),
        line(words.update(0, w)) == more + line(words),
        words.update(0, w).last().lone == words.last().lone,
{
    let all = words.update(0, w);
    assert(all.drop_first() =~= words.drop_first());
    assert(line(all) =~= more + line(words));
    assert forall|i: int| 0 <= i < all.len() implies (#[trigger] all[i]).wf() by {
        if i > 0 {
            assert(all[i] == words[i]);
        }
    }
    assert forall|i: int| 1 <= i < all.len() implies (#[trigger] all[i]).gap.len() > 0 by {
        assert(all[i] == words[i]);
    }
    if words.len() > 1 {
        assert(all.last() == words.last());
    }
}

spec fn is_split(s: Seq<char>, words: Seq<Word>, tail: Seq<char>) -> bool {
    &&& words_wf(words)
    &&& s == line(words) + tail
    &&& tail.len() == 0 || is_open_quote(tail)
    &&& tail.len() > 0 && words.len() > 0 ==> !words.last().lone
    &&& starts_with_gap(s) ==> words.len() > 0 && words[0].gap.len() > 0
}

/// A piece before what is split already.
proof fn lemma_split_piece(s: Seq<char>, p: Piece, words: Seq<Word>, tail: Seq<char>) -> (r: (
    Seq<Word>,
    Seq<char>,
))
    requires
        p.wf(),
        is_split(s, words, tail),
        !starts_with_gap(p.written() + s),
    ensures
        is_split(p.written() + s, r.0, r.1),
{
    let none = Seq::<char>::empty();
    if words.len() > 0 && words[0].gap.len() == 0 {
        let old = words[0];
        let w = Word { pieces: seq![p] + old.pieces, ..old };
        assert(w.pieces.drop_first() =~= old.pieces);
        assert forall|i: int| 0 <= i < w.pieces.len() implies (#[trigger] w.pieces[i]).wf() by {
            if i > 0 {
                assert(w.pieces[i] == old.pieces[i - 1]);
            }
        }
        assert(w.written() =~= p.written() + old.written());
        lemma_line_with(w, words, p.written());
        assert(p.written() + s =~= line(words.update(0, w)) + tail);
        (words.update(0, w), tail)
    } else {
        let w = Word { gap: none, pieces: seq![p], lone: false };
        assert(w.pieces.drop_first() =~= Seq::<Piece>::empty());
        reveal_with_fuel(pieces_written, 2);
        assert(pieces_written(w.pieces) =~= p.written());
        assert(w.written() =~= p.written());
        lemma_line_of(w, words);
        assert(p.written() + s =~= line(seq![w] + words) + tail);
        (seq![w] + words, tail)
    }
}

proof fn lemma_split(s: Seq<char>) -> (r: (Seq<Word>, Seq<char>))
    ensures
        is_split(s, r.0, r.1),
    decreases s.len(),
{
    let none = Seq::<char>::empty();
    let no_words = Seq::<Word>::empty();
    if s.len() == 0 {
        assert(line(no_words) + none =~= s);
        (no_words, none)
    } else if s[0] == ' ' || s[0] == '\t' {
        let rest = s.skip(1);
        let (words, tail) = lemma_split(rest);
        assert(s =~= seq![s[0]] + rest);
        if words.len() > 0 {
            let old = words[0];
            let w = Word { gap: seq![s[0]] + old.gap, ..old };
            assert forall|i: int| 0 <= i < w.gap.len() implies #[trigger] w.gap[i] == ' '
                || w.gap[i] == '\t' by {
                if i > 0 {
                    assert(w.gap[i] == old.gap[i - 1]);
                }
            }
            assert(old.wf());
            assert(w.written() =~= seq![s[0]] + old.written());
            lemma_line_with(w, words, seq![s[0]]);
            assert(s =~= line(words.update(0, w)) + tail);
            (words.update(0, w), tail)
        } else {
            let w = Word { gap: seq![s[0]], pieces: Seq::empty(), lone: false };
            assert(w.written() =~= seq![s[0]]);
            lemma_line_of(w, words);
            assert(s =~= line(seq![w] + words) + tail);
            (seq![w] + words, tail)
        }
    } else if s[0] == '"' {
        lemma_marks_of(s.skip(1));
        let (m, rest) = choose|m: Seq<Mark>, rest: Seq<char>| marks_split(s.skip(1), m, rest);
        assert(s =~= seq!['"'] + s.skip(1));
        assert(s =~= seq!['"'] + marks_written(m) + rest);
        if rest.len() > 0 && rest[0] == '"' {
            let p = Piece::Quoted(m);
            let after = rest.skip(1);
            let (words, tail) = lemma_split(after);
            assert(s =~= p.written() + after);
            lemma_split_piece(after, p, words, tail)
        } else {
            assert(rest.len() > 0 || s =~= seq!['"'] + marks_written(m));
            assert(is_open_quote(s));
            assert(line(no_words) + s =~= s);
            (no_words, s)
        }
    } else if s[0] == '%' && (s.len() == 1 || s[1] == ' ' || s[1] == '\t') {
        let rest = s.skip(1);
        let (words, tail) = lemma_split(rest);
        assert(s =~= seq!['%'] + rest);
        if s.len() > 1 {
            assert(rest[0] == s[1]);
        } else {
            assert(rest =~= none);
            if is_open_quote(tail) {
                let m = choose|m: Seq<Mark>| #[trigger]
                    marks_wf(m) && (tail == seq!['"'] + marks_written(m) || tail == seq!['"']
                        + marks_written(m) + seq!['\\']);
                assert(tail.len() > 0);
                assert(rest.len() >= tail.len());
            }
            if words.len() > 0 {
                assert(line(words).len() == 0);
            }
        }
        if words.len() > 0 && words[0].gap.len() == 0 {
            // Nothing is left behind the sign: a word of no pieces stands there.
            assert(s.len() == 1);
        }
        let w = Word { gap: none, pieces: Seq::empty(), lone: true };
        assert(w.written() =~= seq!['%']);
        if s.len() == 1 {
            lemma_line_of(w, no_words);
            assert(line(no_words) =~= none);
            assert(s =~= line(seq![w] + no_words) + none);
            (seq![w] + no_words, none)
        } else {
            lemma_line_of(w, words);
            assert(s =~= line(seq![w] + words) + tail);
            (seq![w] + words, tail)
        }
    } else {
        let p = if s[0] != '%' {
            Piece::Bare(s[0])
        } else if s[1] == '%' {
            Piece::Percent
        } else {
            Piece::Code(s[1])
        };
        let n = p.written().len() as int;
        let after = s.skip(n);
        assert(s =~= p.written() + after);
        let (words, tail) = lemma_split(after);
        lemma_split_piece(after, p, words, tail)
    }
}

/// Every command line is made of words, and perhaps a quote at its end that is
/// never closed.
pub proof fn law_every_line_is_made_of_words(s: Seq<char>)
    ensures
        exists|words: Seq<Word>, tail: Seq<char>|
            words_wf(words) && s == #[trigger] (line(words) + tail) && (tail.len() == 0
                || is_open_quote(tail) && (words.len() > 0 ==> !words.last().lone)),
{
    let (words, tail) = lemma_split(s);
    assert(s == line(words) + tail);
}

proof fn lemma_joined(args: Seq<Seq<char>>, i: int)
    requires
        0 <= i <= args.len(),
        encode_utf8(strings::joined_by(args, ' ')).len() <= 320,
    ensures
        desktop::joined(args, 0, Seq::empty()) == desktop::joined(
            args,
            i,
            strings::joined_by(args.take(i), ' '),
        ),
    decreases i,
{
    if i == 0 {
        assert(args.take(0) =~= Seq::<Seq<char>>::empty());
    } else {
        lemma_joined(args, i - 1);
        lemma_joined_prefix(args, i);
        lemma_joined_prefix(args, i - 1);
        let before = strings::joined_by(args.take(i - 1), ' ');
        let now = strings::joined_by(args.take(i), ' ');
        assert(args.take(i).drop_last() =~= args.take(i - 1));
        assert(args.take(i).last() == args[i - 1]);
        if i == 1 {
            assert(args.take(1)[0] == args[0]);
            assert(before =~= Seq::<char>::empty());
            assert(before + args[0] =~= now);
            text::lemma_encode_concat(before, args[0]);
        } else {
            text::lemma_encode_concat(before.push(' '), args[i - 1]);
        }
    }
}

proof fn lemma_joined_prefix(args: Seq<Seq<char>>, i: int)
    requires
        0 <= i <= args.len(),
    ensures
        encode_utf8(strings::joined_by(args.take(i), ' ')).len() <= encode_utf8(
            strings::joined_by(args, ' '),
        ).len(),
    decreases args.len(),
{
    if i == args.len() {
        assert(args.take(i) =~= args);
    } else if i == 0 {
        text::lemma_byte_len_bounds(strings::joined_by(args.take(0), ' '));
        assert(strings::joined_by(args.take(0), ' ').len() == 0);
    } else {
        let less = args.drop_last();
        assert(less.take(i) =~= args.take(i));
        lemma_joined_prefix(less, i);
        let s = strings::joined_by(less, ' ');
        text::lemma_encode_concat(s.push(' '), args.last());
        assert(s.push(' ') =~= s + seq![' ']);
        text::lemma_encode_concat(s, seq![' ']);
    }
}

/// The line under a result is the arguments with one space between each and the
/// next, where all of that fits.
pub proof fn law_the_subtitle_is_the_arguments(args: Seq<Seq<char>>)
    requires
        encode_utf8(strings::joined_by(args, ' ')).len() <= 320,
    ensures
        desktop::joined(args, 0, Seq::empty()) == strings::joined_by(args, ' '),
{
    lemma_joined(args, args.len() as int);
    assert(args.take(args.len() as int) =~= args);
}

/// What the pieces of all words come to, end to end.
pub open spec fn all_values(words: Seq<Word>) -> Seq<char>
    decreases words.len(),
{
    if words.len() == 0 {
        Seq::empty()
    } else {
        pieces_value(words[0].pieces) + all_values(words.drop_first())
    }
}

/// Nothing of a line is lost but its separators, its quotes and its field codes:
/// the arguments end to end are the pieces of the line end to end.
pub proof fn law_no_character_of_a_line_is_lost(words: Seq<Word>)
    requires
        words_wf(words),
    ensures
        desktop::exec_args(line(words)).flatten() == all_values(words),
{
    law_a_line_comes_apart_into_its_words(words);
    lemma_flat(words);
}

proof fn lemma_flat(words: Seq<Word>)
    requires
        words_wf(words),
    ensures
        values(words).flatten() == all_values(words),
    decreases words.len(),
{
    if words.len() > 0 {
        let w = words[0];
        let more = words.drop_first();
        assert(w.wf());
        assert forall|i: int| 0 <= i < more.len() implies (#[trigger] more[i]).wf() by {
            assert(more[i] == words[i + 1]);
        }
        assert forall|i: int| 1 <= i < more.len() implies (#[trigger] more[i]).gap.len() > 0 by {
            assert(more[i] == words[i + 1]);
        }
        lemma_flat(more);
        let got = pieces_value(w.pieces);
        if w.counts() {
            assert(values(words).drop_first() =~= values(more));
            assert(values(words).first() == got);
        } else {
            lemma_pieces(w.pieces, Seq::empty(), Seq::empty(), false);
            assert forall|i: int| 0 <= i < w.pieces.len() implies !(
            #[trigger] w.pieces[i]).counts() by {}
            assert(got + all_values(more) =~= all_values(more));
        }
    }
}

/// Of too many or too long arguments those before the first that does not fit
/// are taken, and no more than the most there may be.
pub proof fn law_the_arguments_that_are_taken(args: Seq<Seq<char>>)
    ensures
        ({
            let n = desktop::args_taken(args);
            &&& 0 <= n <= args.len() && n <= 32
            &&& forall|i: int| 0 <= i < n ==> encode_utf8(#[trigger] args[i]).len() <= 1024
            &&& n < args.len() && n < 32 ==> encode_utf8(args[n]).len() > 1024
        }),
    decreases args.len(),
{
    if args.len() > 0 {
        let less = args.drop_last();
        law_the_arguments_that_are_taken(less);
        let m = desktop::args_taken(less);
        let n = desktop::args_taken(args);
        assert(args[args.len() - 1] == args.last());
        assert forall|i: int| 0 <= i < n implies encode_utf8(#[trigger] args[i]).len() <= 1024 by {
            if i < m {
                assert(less[i] == args[i]);
            }
        }
        if n < args.len() && n < 32 && n < less.len() {
            assert(less[n] == args[n]);
        }
    }
}

proof fn lemma_cut(args: Seq<Seq<char>>, i: int)
    requires
        0 <= i <= args.len(),
        encode_utf8(strings::joined_by(args.take(i), ' ')).len() <= 320,
    ensures
        exists|k: int| #[trigger]
            is_cut(args, k, desktop::joined(args, i, strings::joined_by(args.take(i), ' '))),
    decreases args.len() - i,
{
    let out = strings::joined_by(args.take(i), ' ');
    let r = desktop::joined(args, i, out);
    if i == args.len() {
        assert(is_cut(args, i, r));
    } else {
        let next = strings::joined_by(args.take(i + 1), ' ');
        assert(args.take(i + 1).drop_last() =~= args.take(i));
        assert(args.take(i + 1).last() == args[i]);
        if i == 0 {
            assert(args.take(1)[0] == args[0]);
            assert(out =~= Seq::<char>::empty());
            assert(next =~= out + args[0]);
        } else {
            text::lemma_encode_concat(out.push(' '), args[i]);
        }
        let lead = if i > 0 {
            out.push(' ')
        } else {
            out
        };
        assert(next == lead + args[i]);
        if encode_utf8(args[i]).len() > 1024 || encode_utf8(next).len() > 320 {
            assert(is_cut(args, i, r));
        } else {
            lemma_cut(args, i + 1);
        }
    }
}

/// A command line too long for the line under a result is cut before the first
/// argument that does not fit.
pub proof fn law_a_long_subtitle_is_cut_before_an_argument(args: Seq<Seq<char>>)
    ensures
        exists|k: int| #[trigger]
            is_cut(args, k, desktop::joined(args, 0, Seq::empty())),
{
    assert(args.take(0) =~= Seq::<Seq<char>>::empty());
    text::lemma_byte_len_bounds(Seq::<char>::empty());
    lemma_cut(args, 0);
}

/// A line is the first so many arguments with a space between each and the next,
/// perhaps a space more, and the next argument would not have fitted.
pub open spec fn is_cut(args: Seq<Seq<char>>, k: int, out: Seq<char>) -> bool {
    let upto = strings::joined_by(args.take(k), ' ');
    &&& 0 <= k <= args.len()
    &&& out == upto || out == upto.push(' ')
    &&& encode_utf8(out).len() <= 320
    &&& k < args.len() ==> encode_utf8(args[k]).len() > 1024 || encode_utf8(
        strings::joined_by(args.take(k + 1), ' '),
    ).len() > 320
}

} // verus!
