//! Desktop entry (.desktop file) parsing, the Exec tokenizer, and the search
//! over the applications they describe.
use vstd::prelude::*;
use vstd::slice::slice_subrange;
use vstd::utf8::*;

use crate::laws;
use crate::platform::arena::{ArrayString, ArrayVec};
use crate::platform::fs;
use crate::platform::fs::{join, ScanPath};
use crate::platform::syscall::PATH_CAP;
use crate::platform::text;
use crate::platform::text::chars_of;

verus! {

/// Largest desktop file read. Real ones are a few kilobytes; one past this is
/// skipped.
pub const DESKTOP_FILE_MAX: usize = 65536;

/// Byte capacity of an entry's display name. Names longer than this are skipped
/// rather than truncated.
pub const NAME_CAP: usize = 256;

/// Byte capacity of an entry's raw Exec value.
pub const EXEC_CAP: usize = 1024;

/// Byte capacity of one tokenized Exec argument. Tokenizing only ever removes
/// characters from the Exec value, so an argument cannot outgrow the value it
/// came from.
pub const ARG_CAP: usize = 1024;

/// Most arguments a tokenized Exec value yields.
pub const MAX_ARGS: usize = 32;

/// Byte capacity of the rendered command-line subtitle under a result.
pub const SUBTITLE_CAP: usize = 320;

/// Most desktop entries the catalog holds; extras past this are dropped.
pub const MAX_ENTRIES: usize = 1024;

/// Most results search or recents resolution return.
pub const RESULT_CAP: usize = 32;

/// Whether a backslash inside quotes escapes this character.
pub open spec fn is_reserved(c: char) -> bool {
    c == '"' || c == '`' || c == '$' || c == '\\'
}

/// What a quoted run holds, and how many characters it takes with its closing
/// quote. A run that is never closed takes the rest.
pub open spec fn quoted(s: Seq<char>) -> (Seq<char>, int)
    decreases s.len(),
{
    if s.len() == 0 {
        (Seq::empty(), 0)
    } else if s[0] == '"' {
        (Seq::empty(), 1)
    } else if s[0] == '\\' && s.len() > 1 && is_reserved(s[1]) {
        let rest = quoted(s.skip(2));
        (seq![s[1]] + rest.0, 2 + rest.1)
    } else {
        let rest = quoted(s.skip(1));
        (seq![s[0]] + rest.0, 1 + rest.1)
    }
}

pub proof fn lemma_quoted_bounds(s: Seq<char>)
    ensures
        0 <= quoted(s).1 <= s.len(),
    decreases s.len(),
{
    if s.len() > 0 && s[0] != '"' {
        if s[0] == '\\' && s.len() > 1 && is_reserved(s[1]) {
            lemma_quoted_bounds(s.skip(2));
        } else {
            lemma_quoted_bounds(s.skip(1));
        }
    }
}

/// The arguments the rest of an Exec value yields, where `cur` is what the
/// argument in progress holds so far and `has_arg` whether there is one.
///
/// Spaces and tabs separate arguments. Double quotes group one. %% is a literal
/// percent sign, and every other field code expands to nothing: only the code
/// letter is consumed, so a lone % before a separator cannot swallow it.
pub open spec fn args_from(s: Seq<char>, cur: Seq<char>, has_arg: bool) -> Seq<Seq<char>>
    decreases s.len(),
{
    if s.len() == 0 {
        if has_arg {
            seq![cur]
        } else {
            Seq::empty()
        }
    } else if s[0] == ' ' || s[0] == '\t' {
        if has_arg {
            seq![cur] + args_from(s.skip(1), Seq::empty(), false)
        } else {
            args_from(s.skip(1), cur, false)
        }
    } else if s[0] == '"' {
        proof {
            lemma_quoted_bounds(s.skip(1));
        }
        let q = quoted(s.skip(1));
        args_from(s.skip(1).skip(q.1), cur + q.0, true)
    } else if s[0] == '%' {
        if s.len() == 1 || s[1] == ' ' || s[1] == '\t' {
            args_from(s.skip(1), cur, has_arg)
        } else if s[1] == '%' {
            args_from(s.skip(2), cur.push('%'), true)
        } else {
            args_from(s.skip(2), cur, has_arg)
        }
    } else {
        args_from(s.skip(1), cur.push(s[0]), true)
    }
}

/// The arguments of an Exec value.
pub open spec fn exec_args(exec: Seq<char>) -> Seq<Seq<char>> {
    args_from(exec, Seq::empty(), false)
}

/// Read a quoted run onto `cur`, and return how far it reaches.
fn take_quoted(s: &[char], start: usize, cur: &mut Vec<char>) -> (r: usize)
    requires
        start <= s@.len(),
    ensures
        start <= r <= s@.len(),
        r == start + quoted(s@.skip(start as int)).1,
        final(cur)@ == old(cur)@ + quoted(s@.skip(start as int)).0,
{
    let ghost orig = cur@;
    let mut i: usize = start;
    assert(cur@ + quoted(s@.skip(i as int)).0 == orig + quoted(s@.skip(start as int)).0);
    while i < s.len()
        invariant
            start <= i <= s@.len(),
            orig == old(cur)@,
            cur@ + quoted(s@.skip(i as int)).0 == orig + quoted(s@.skip(start as int)).0,
            i + quoted(s@.skip(i as int)).1 == start + quoted(s@.skip(start as int)).1,
        decreases s.len() - i,
    {
        let ghost tail = s@.skip(i as int);
        let ghost before = cur@;
        assert(tail.skip(1) == s@.skip(i + 1));
        let c = s[i];
        if c == '"' {
            assert(cur@ + Seq::<char>::empty() == cur@);
            return i + 1;
        }
        if c == '\\' && i + 1 < s.len() && (s[i + 1] == '"' || s[i + 1] == '`' || s[i + 1] == '$'
            || s[i + 1] == '\\') {
            assert(tail.skip(2) == s@.skip(i + 2));
            cur.push(s[i + 1]);
            assert(before + (seq![tail[1]] + quoted(tail.skip(2)).0) == cur@ + quoted(
                tail.skip(2),
            ).0);
            i += 2;
        } else {
            cur.push(c);
            assert(before + (seq![tail[0]] + quoted(tail.skip(1)).0) == cur@ + quoted(
                tail.skip(1),
            ).0);
            i += 1;
        }
    }
    assert(cur@ + Seq::<char>::empty() == cur@);
    i
}

/// Tokenize an Exec value.
fn tokenize(s: &[char]) -> (r: Vec<Vec<char>>)
    ensures
        text::texts(r@) == exec_args(s@),
{
    let mut out: Vec<Vec<char>> = Vec::new();
    let mut cur: Vec<char> = Vec::new();
    let mut has_arg = false;
    let mut i: usize = 0;
    assert(s@.skip(0) == s@);
    assert(text::texts(out@) + args_from(s@, cur@, false) == exec_args(s@));
    while i < s.len()
        invariant
            i <= s@.len(),
            exec_args(s@) == text::texts(out@) + args_from(s@.skip(i as int), cur@, has_arg),
        decreases s.len() - i,
    {
        let ghost tail = s@.skip(i as int);
        assert(tail.skip(1) == s@.skip(i + 1));
        let c = s[i];
        if c == ' ' || c == '\t' {
            if has_arg {
                let ghost before = out@;
                let ghost done = cur@;
                out.push(cur);
                cur = Vec::new();
                has_arg = false;
                assert(text::texts(out@) == text::texts(before).push(done));
                assert(text::texts(before) + (seq![done] + args_from(
                    tail.skip(1),
                    Seq::empty(),
                    false,
                )) == text::texts(out@) + args_from(tail.skip(1), Seq::empty(), false));
            }
            i += 1;
        } else if c == '"' {
            has_arg = true;
            i = take_quoted(s, i + 1, &mut cur);
            assert(tail.skip(1).skip(quoted(tail.skip(1)).1) == s@.skip(i as int));
        } else if c == '%' {
            if i + 1 < s.len() && s[i + 1] == '%' {
                assert(tail.skip(2) == s@.skip(i + 2));
                cur.push('%');
                has_arg = true;
                i += 2;
            } else if i + 1 < s.len() && s[i + 1] != ' ' && s[i + 1] != '\t' {
                assert(tail.skip(2) == s@.skip(i + 2));
                i += 2;
            } else {
                i += 1;
            }
        } else {
            cur.push(c);
            has_arg = true;
            i += 1;
        }
    }
    if has_arg {
        let ghost before = out@;
        let ghost done = cur@;
        out.push(cur);
        assert(text::texts(out@) == text::texts(before).push(done));
        assert(text::texts(before) + seq![done] == text::texts(out@));
    } else {
        assert(text::texts(out@) + Seq::<Seq<char>>::empty() == text::texts(out@));
    }
    out
}

/// The characters of each string.
pub open spec fn strings<const N: usize>(v: Seq<ArrayString<N>>) -> Seq<Seq<char>> {
    Seq::new(v.len(), |i: int| v[i]@)
}

/// Every string is within its capacity.
pub open spec fn all_wf<const N: usize>(v: Seq<ArrayString<N>>) -> bool {
    forall|i: int| 0 <= i < v.len() ==> (#[trigger] v[i]).wf()
}

/// How many of the first arguments an argument vector takes: up to the first
/// one past a capacity.
pub open spec fn args_taken(args: Seq<Seq<char>>) -> int
    decreases args.len(),
{
    if args.len() == 0 {
        0
    } else {
        let n = args_taken(args.drop_last());
        if n == args.len() - 1 && n < MAX_ARGS && text::byte_len(args.last()) <= ARG_CAP {
            n + 1
        } else {
            n
        }
    }
}

proof fn lemma_args_taken_bounds(args: Seq<Seq<char>>)
    ensures
        0 <= args_taken(args) <= args.len(),
        args_taken(args) <= MAX_ARGS,
    decreases args.len(),
{
    if args.len() > 0 {
        lemma_args_taken_bounds(args.drop_last());
    }
}

/// What is refused stays refused, whatever follows.
proof fn lemma_args_taken_stays(args: Seq<Seq<char>>, k: int)
    requires
        0 <= k <= args.len(),
        args_taken(args.take(k)) < k,
    ensures
        args_taken(args) == args_taken(args.take(k)),
    decreases args.len(),
{
    if k == args.len() {
        assert(args.take(k) == args);
    } else {
        assert(args.drop_last().take(k) == args.take(k));
        lemma_args_taken_stays(args.drop_last(), k);
    }
}

/// All arguments are taken exactly when each fits and there are not too many.
pub proof fn lemma_all_args_taken(args: Seq<Seq<char>>)
    ensures
        args_taken(args) == args.len() <==> args.len() <= MAX_ARGS && forall|i: int|
            0 <= i < args.len() ==> text::byte_len(#[trigger] args[i]) <= ARG_CAP,
    decreases args.len(),
{
    lemma_args_taken_bounds(args);
    if args.len() > 0 {
        let prev = args.drop_last();
        lemma_all_args_taken(prev);
        lemma_args_taken_bounds(prev);
        if args_taken(args) == args.len() {
            assert forall|i: int| 0 <= i < args.len() implies text::byte_len(#[trigger] args[i])
                <= ARG_CAP by {
                if i < prev.len() {
                    assert(prev[i] == args[i]);
                }
            }
        }
        if args.len() <= MAX_ARGS && forall|i: int|
            0 <= i < args.len() ==> text::byte_len(#[trigger] args[i]) <= ARG_CAP {
            assert forall|i: int| 0 <= i < prev.len() implies text::byte_len(#[trigger] prev[i])
                <= ARG_CAP by {
                assert(prev[i] == args[i]);
            }
        }
    }
}

/// Tokenize an Exec value into an argument vector per the Desktop Entry spec
/// quoting rules. The result is exec'd directly, never through a shell, so shell
/// metacharacters in a .desktop file are inert.
///
/// Err when the value yields more arguments than MAX_ARGS or one too long: a
/// truncated argv would exec a mangled command line, so the caller refuses the
/// launch instead.
pub fn exec_argv(exec: &str, out: &mut ArrayVec<ArrayString<ARG_CAP>, MAX_ARGS>) -> (r: Result<
    (),
    (),
>)
    ensures
        final(out).wf(),
        all_wf(final(out)@),
        strings(final(out)@) == exec_args(exec@).take(args_taken(exec_args(exec@))),
        r is Ok <==> exec_args(exec@).len() <= MAX_ARGS && forall|i: int|
            0 <= i < exec_args(exec@).len() ==> text::byte_len(#[trigger] exec_args(exec@)[i])
                <= ARG_CAP,
        r is Ok ==> strings(final(out)@) == exec_args(exec@),
{
    out.clear();
    let chars = chars_of(exec);
    let args = tokenize(chars.as_slice());
    let ghost all = exec_args(exec@);
    proof {
        lemma_all_args_taken(all);
        lemma_args_taken_bounds(all);
        assert(all.take(0) == Seq::<Seq<char>>::empty());
        assert(strings(out@) == all.take(0));
    }
    let mut i: usize = 0;
    while i < args.len()
        invariant
            i <= args@.len(),
            out.wf(),
            all_wf(out@),
            text::texts(args@) == all,
            strings(out@) == all.take(i as int),
            args_taken(all.take(i as int)) == i,
            all == exec_args(exec@),
            args_taken(all) == all.len() <==> all.len() <= MAX_ARGS && forall|j: int|
                0 <= j < all.len() ==> text::byte_len(#[trigger] all[j]) <= ARG_CAP,
        decreases args.len() - i,
    {
        let ghost before = out@;
        assert(strings(out@).len() == i);
        assert(all.take(i + 1).drop_last() == all.take(i as int));
        assert(all[i as int] == args@[i as int]@);
        let mut s: ArrayString<ARG_CAP> = ArrayString::new();
        assert(Seq::<char>::empty() + args@[i as int]@ == args@[i as int]@);
        if s.push_chars(args[i].as_slice()).is_err() {
            proof {
                lemma_args_taken_stays(all, i + 1);
            }
            return Err(());
        }
        if out.push(s).is_err() {
            proof {
                lemma_args_taken_stays(all, i + 1);
            }
            return Err(());
        }
        assert(strings(out@) == strings(before).push(all[i as int]));
        assert(all.take(i + 1) == all.take(i as int).push(all[i as int]));
        i += 1;
    }
    assert(all.take(all.len() as int) == all);
    Ok(())
}

proof fn lemma_quoted_bytes(s: Seq<char>)
    ensures
        text::byte_len(quoted(s).0) + text::byte_len(s.skip(quoted(s).1)) <= text::byte_len(s),
    decreases s.len(),
{
    lemma_quoted_bounds(s);
    if s.len() == 0 {
        assert(s.skip(0) == s);
    } else if s[0] == '"' {
        text::lemma_encode_split(s, 1);
    } else if s[0] == '\\' && s.len() > 1 && is_reserved(s[1]) {
        let rest = quoted(s.skip(2));
        lemma_quoted_bytes(s.skip(2));
        lemma_quoted_bounds(s.skip(2));
        text::lemma_encode_split(s, 2);
        text::lemma_encode_concat(seq![s[1]], rest.0);
        assert(s.skip(2).skip(rest.1) == s.skip(2 + rest.1));
        assert(s.take(2) == seq![s[0]] + seq![s[1]]);
        text::lemma_encode_concat(seq![s[0]], seq![s[1]]);
    } else {
        let rest = quoted(s.skip(1));
        lemma_quoted_bytes(s.skip(1));
        lemma_quoted_bounds(s.skip(1));
        text::lemma_encode_split(s, 1);
        text::lemma_encode_concat(seq![s[0]], rest.0);
        assert(s.skip(1).skip(rest.1) == s.skip(1 + rest.1));
        assert(s.take(1) == seq![s[0]]);
    }
}

proof fn lemma_args_bytes(s: Seq<char>, cur: Seq<char>, has_arg: bool, i: int)
    requires
        0 <= i < args_from(s, cur, has_arg).len(),
    ensures
        text::byte_len(args_from(s, cur, has_arg)[i]) <= text::byte_len(cur) + text::byte_len(s),
    decreases s.len(),
{
    let empty = Seq::<char>::empty();
    if s.len() > 0 {
        text::lemma_encode_split(s, 1);
        assert(s.take(1) == seq![s[0]]);
        if s[0] == ' ' || s[0] == '\t' {
            if has_arg {
                if i > 0 {
                    lemma_args_bytes(s.skip(1), empty, false, i - 1);
                }
            } else {
                lemma_args_bytes(s.skip(1), cur, false, i);
            }
        } else if s[0] == '"' {
            let q = quoted(s.skip(1));
            lemma_quoted_bounds(s.skip(1));
            lemma_quoted_bytes(s.skip(1));
            text::lemma_encode_concat(cur, q.0);
            lemma_args_bytes(s.skip(1).skip(q.1), cur + q.0, true, i);
        } else if s[0] == '%' {
            if s.len() == 1 || s[1] == ' ' || s[1] == '\t' {
                lemma_args_bytes(s.skip(1), cur, has_arg, i);
            } else {
                text::lemma_encode_split(s, 2);
                if s[1] == '%' {
                    assert(s.take(2) == seq!['%'] + seq!['%']);
                    text::lemma_encode_concat(seq!['%'], seq!['%']);
                    assert(cur.push('%') == cur + seq!['%']);
                    text::lemma_encode_concat(cur, seq!['%']);
                    lemma_args_bytes(s.skip(2), cur.push('%'), true, i);
                } else {
                    lemma_args_bytes(s.skip(2), cur, has_arg, i);
                }
            }
        } else {
            assert(cur.push(s[0]) == cur + seq![s[0]]);
            text::lemma_encode_concat(cur, seq![s[0]]);
            lemma_args_bytes(s.skip(1), cur.push(s[0]), true, i);
        }
    }
}

/// Tokenizing only ever removes characters: no argument is longer than the Exec
/// value it came from, so an entry's own Exec value never yields an argument
/// past the capacity.
pub proof fn law_an_argument_never_outgrows_its_exec(exec: Seq<char>, i: int)
    requires
        0 <= i < exec_args(exec).len(),
    ensures
        text::byte_len(exec_args(exec)[i]) <= text::byte_len(exec),
        text::byte_len(exec) <= EXEC_CAP ==> text::byte_len(exec_args(exec)[i]) <= ARG_CAP,
{
    lemma_args_bytes(exec, Seq::empty(), false, i);
}

/// What the subtitle line holds after the arguments from `i` on: arguments
/// joined by single spaces, stopping before the first that does not fit.
pub open spec fn joined(args: Seq<Seq<char>>, i: int, out: Seq<char>) -> Seq<char>
    decreases args.len() - i,
{
    if i < 0 || i >= args.len() || text::byte_len(args[i]) > ARG_CAP {
        out
    } else {
        let lead = if i > 0 {
            out.push(' ')
        } else {
            out
        };
        if text::byte_len(lead) > SUBTITLE_CAP {
            out
        } else if text::byte_len(lead + args[i]) > SUBTITLE_CAP {
            lead
        } else {
            joined(args, i + 1, lead + args[i])
        }
    }
}

/// Render the tokenized Exec value as a single space-joined line for the result
/// subtitle, with field codes already dropped. The subtitle is cosmetic, so a
/// command line longer than the line renders as much as fits and stops.
pub fn exec_subtitle(exec: &str, out: &mut ArrayString<SUBTITLE_CAP>)
    ensures
        final(out).wf(),
        final(out)@ == joined(exec_args(exec@), 0, Seq::empty()),
{
    out.clear();
    let chars = chars_of(exec);
    let args = tokenize(chars.as_slice());
    let ghost all = exec_args(exec@);
    let mut i: usize = 0;
    while i < args.len()
        invariant
            i <= args@.len(),
            out.wf(),
            text::texts(args@) == all,
            all == exec_args(exec@),
            joined(all, 0, Seq::empty()) == joined(all, i as int, out@),
        decreases args.len() - i,
    {
        let ghost arg = all[i as int];
        assert(arg == args@[i as int]@);
        proof {
            out.lemma_wf();
        }
        let bytes = text::bytes_of(args[i].as_slice());
        if bytes.len() > ARG_CAP {
            return;
        }
        if i > 0 {
            if out.push(' ').is_err() {
                return;
            }
        }
        proof {
            out.lemma_wf();
            text::lemma_encode_concat(out@, arg);
        }
        if out.push_chars(args[i].as_slice()).is_err() {
            return;
        }
        i += 1;
    }
}

/// The key search compares a name or a query by: its lowercase, as much as fits
/// a name.
pub open spec fn search_key(s: Seq<char>) -> Seq<char> {
    text::filled(Seq::empty(), text::lower(s), NAME_CAP as nat)
}

proof fn lemma_filled_concat(out: Seq<char>, a: Seq<char>, b: Seq<char>, cap: nat)
    ensures
        text::byte_len(out + a) <= cap ==> text::filled(out, a + b, cap) == text::filled(
            out + a,
            b,
            cap,
        ),
        text::byte_len(out + a) > cap && text::byte_len(out) <= cap ==> text::filled(
            out,
            a + b,
            cap,
        ) == text::filled(out, a, cap),
    decreases a.len(),
{
    if a.len() == 0 {
        assert(out + a == out);
        assert(a + b == b);
    } else {
        let next = out.push(a[0]);
        assert((a + b).drop_first() == a.drop_first() + b);
        assert(next + a.drop_first() == out + a);
        text::lemma_encode_concat(next, a.drop_first());
        lemma_filled_concat(next, a.drop_first(), b, cap);
    }
}

proof fn lemma_lower_take(s: Seq<char>, i: int)
    requires
        0 <= i < s.len(),
    ensures
        text::lower(s.take(i + 1)) == text::lower(s.take(i)) + text::lower_char(s[i]),
{
    assert(s.take(i + 1).drop_last() == s.take(i));
    assert(s.take(i + 1).last() == s[i]);
}

/// A prefix that no longer fits decides the rest.
proof fn lemma_filled_stuck(out: Seq<char>, s: Seq<char>, i: int, cap: nat)
    requires
        0 <= i <= s.len(),
        text::byte_len(out) <= cap,
        text::byte_len(out + text::lower(s.take(i))) > cap,
    ensures
        text::filled(out, text::lower(s), cap) == text::filled(out, text::lower(s.take(i)), cap),
    decreases s.len() - i,
{
    if i < s.len() {
        lemma_lower_take(s, i);
        let a = text::lower(s.take(i));
        let b = text::lower_char(s[i]);
        assert(out + (a + b) == (out + a) + b);
        text::lemma_encode_concat(out + a, b);
        lemma_filled_stuck(out, s, i + 1, cap);
        lemma_filled_concat(out, a, b, cap);
    } else {
        assert(s.take(i) == s);
    }
}

/// Append the lowercase of s to out, dropping anything past out's capacity.
fn push_lower<const N: usize>(out: &mut ArrayString<N>, s: &str)
    requires
        old(out).wf(),
    ensures
        final(out).wf(),
        final(out)@ == text::filled(old(out)@, text::lower(s@), N as nat),
        s@.len() > 0 && text::byte_len(old(out)@) + 4 <= N ==> final(out)@.len() > old(out)@.len(),
{
    let ghost orig = out@;
    let chars = chars_of(s);
    let mut i: usize = 0;
    proof {
        out.lemma_wf();
        assert(s@.take(0) == Seq::<char>::empty());
        assert(orig + text::lower(s@.take(0)) == orig);
    }
    while i < chars.len()
        invariant
            i <= chars@.len(),
            chars@ == s@,
            orig == old(out)@,
            out.wf(),
            text::byte_len(orig) <= N,
            out@ == orig + text::lower(s@.take(i as int)),
            i > 0 ==> out@.len() > orig.len(),
        decreases chars.len() - i,
    {
        let low = text::lower_of(chars[i]);
        let ghost prefix = text::lower(s@.take(i as int));
        let ghost l = text::lower_char(s@[i as int]);
        proof {
            lemma_lower_take(s@, i as int);
            assert(l.take(0) == Seq::<char>::empty());
            assert(out@ + l.take(0) == out@);
        }
        let ghost base = out@;
        let mut k: usize = 0;
        while k < low.len()
            invariant
                k <= low@.len(),
                low@ == l,
                l.len() >= 1,
                i > 0 ==> base.len() > orig.len(),
                i < s@.len(),
                orig == old(out)@,
                text::byte_len(orig) <= N,
                base == orig + prefix,
                prefix == text::lower(s@.take(i as int)),
                text::lower(s@.take(i + 1)) == prefix + l,
                out.wf(),
                out@ == base + l.take(k as int),
            decreases low.len() - k,
        {
            proof {
                assert(base + l.take(k as int).push(l[k as int]) == out@.push(l[k as int]));
                assert(l.take(k + 1) == l.take(k as int).push(l[k as int]));
            }
            if out.push(low[k]).is_err() {
                proof {
                    out.lemma_wf();
                    if out@.len() == orig.len() {
                        assert(out@ == orig);
                        text::lemma_byte_len_bounds(seq![l[k as int]]);
                        text::lemma_encode_concat(orig, seq![l[k as int]]);
                        assert(orig.push(l[k as int]) == orig + seq![l[k as int]]);
                    }
                    let a = prefix + l.take(k as int);
                    let b = l.skip(k as int);
                    assert(a + b == prefix + l) by {
                        assert(l.take(k as int) + l.skip(k as int) == l);
                    }
                    assert(orig + a == out@);
                    lemma_filled_concat(orig, a, b, N as nat);
                    assert(b[0] == l[k as int]);
                    assert(text::filled(out@, b, N as nat) == out@);
                    // Past this point nothing more fits.
                    assert(orig + (prefix + l) == (out@.push(b[0])) + b.drop_first());
                    text::lemma_encode_concat(out@.push(b[0]), b.drop_first());
                    lemma_filled_stuck(orig, s@, i + 1, N as nat);
                }
                return;
            }
            k += 1;
        }
        assert(l.take(l.len() as int) == l);
        assert(base + l == orig + (prefix + l));
        i += 1;
    }
    proof {
        assert(s@.take(s@.len() as int) == s@);
        out.lemma_wf();
        text::lemma_filled_whole(orig, text::lower(s@), N as nat);
    }
}

/// A parsed desktop entry representing an application.
pub struct DesktopEntry {
    /// Application name (from the Name field).
    pub name: ArrayString<NAME_CAP>,
    /// The name lowercased, which is what search compares against.
    pub name_lower: ArrayString<NAME_CAP>,
    /// Character count of the name, the length ranking reads.
    pub name_chars: u32,
    /// Raw Exec value, tokenized per the spec at launch time (see exec_argv).
    pub exec exec: ArrayString<EXEC_CAP>,
}

impl DesktopEntry {
    /// The fields are within their capacities, and what search compares and
    /// ranks by is derived from the name.
    pub open spec fn wf(&self) -> bool {
        &&& self.name.wf()
        &&& self.exec.wf()
        &&& self.name_lower.wf()
        &&& self.name_lower@ == search_key(self.name@)
        &&& self.name_chars == self.name@.len()
    }

    /// A well-formed entry's fields can be read.
    pub proof fn lemma_wf(self)
        requires
            self.wf(),
        ensures
            self.name.wf(),
            self.exec.wf(),
            text::byte_len(self.name@) <= NAME_CAP,
            text::byte_len(self.exec@) <= EXEC_CAP,
    {
        self.name.lemma_wf();
        self.exec.lemma_wf();
    }

    /// Build an entry from its fields. None when a field exceeds its capacity,
    /// so an absurdly long field skips the entry rather than truncating it.
    pub fn new(name: &str, exec: &str) -> (r: Option<Self>)
        ensures
            r is Some <==> text::byte_len(name@) <= NAME_CAP && text::byte_len(exec@) <= EXEC_CAP,
            r matches Some(e) ==> e.wf() && e.name@ == name@ && e.exec@ == exec@,
    {
        let mut n: ArrayString<NAME_CAP> = ArrayString::new();
        let mut x: ArrayString<EXEC_CAP> = ArrayString::new();
        assert(Seq::<char>::empty() + name@ == name@);
        assert(Seq::<char>::empty() + exec@ == exec@);
        if n.push_str(name).is_err() {
            return None;
        }
        if x.push_str(exec).is_err() {
            return None;
        }
        Some(Self::of(n, x))
    }

    /// An entry with its search keys derived from the name.
    fn of(name: ArrayString<NAME_CAP>, exec: ArrayString<EXEC_CAP>) -> (r: Self)
        requires
            name.wf(),
            exec.wf(),
        ensures
            r.wf(),
            r.name@ == name@,
            r.exec@ == exec@,
    {
        let mut name_lower: ArrayString<NAME_CAP> = ArrayString::new();
        push_lower(&mut name_lower, name.as_str());
        proof {
            name.lemma_wf();
            text::lemma_byte_len_bounds(name@);
        }
        let name_chars: u32 = name.as_str().unicode_len() as u32;
        DesktopEntry { name, name_lower, name_chars, exec }
    }

    /// Score this entry against a query that is already lowercased. Zero means
    /// it does not match at all.
    ///
    /// Tiers: an exact match, then a prefix, then a substring anywhere. Within a
    /// tier a shorter name ranks higher, on the reasoning that a query is a
    /// larger fraction of it.
    pub fn score(&self, query_lower: &str) -> (r: i32)
        requires
            self.wf(),
        ensures
            r == rank(search_key(self.name@), self.name@.len(), query_lower@),
    {
        if query_lower.is_empty() {
            return 1;
        }
        let name = chars_of(self.name_lower.as_str());
        let query = chars_of(query_lower);
        if text::same_chars(name.as_slice(), query.as_slice()) {
            return 300;
        }
        let len_penalty: i32 = if self.name_chars < 50 {
            self.name_chars as i32
        } else {
            50
        };
        if text::starts_with(name.as_slice(), query.as_slice()) {
            return 200 - len_penalty;
        }
        if text::contains(name.as_slice(), query.as_slice()) {
            return 100 - len_penalty;
        }
        0
    }

    /// Whether this entry matches a search query, case-insensitively.
    pub fn matches(&self, query: &str) -> (r: bool)
        requires
            self.wf(),
        ensures
            r == (query_rank(self.name@, query@) > 0),
            query@.len() > 0 ==> r == holds_query(self.name@, query@),
    {
        let mut q: ArrayString<NAME_CAP> = ArrayString::new();
        proof {
            text::lemma_byte_len_bounds(Seq::<char>::empty());
            lemma_rank_of_a_match(search_key(self.name@), self.name@.len(), search_key(query@));
        }
        push_lower(&mut q, query);
        self.score(q.as_str()) > 0
    }

    /// The relevance of this entry to a query: higher sorts first, zero does not
    /// match.
    pub fn relevance(&self, query: &str) -> (r: i32)
        requires
            self.wf(),
        ensures
            r == (if query@.len() == 0 {
                0
            } else {
                query_rank(self.name@, query@)
            }),
            r > 0 <==> query@.len() > 0 && holds_query(self.name@, query@),
    {
        if query.is_empty() {
            return 0;
        }
        let mut q: ArrayString<NAME_CAP> = ArrayString::new();
        proof {
            text::lemma_byte_len_bounds(Seq::<char>::empty());
            lemma_rank_of_a_match(search_key(self.name@), self.name@.len(), search_key(query@));
        }
        push_lower(&mut q, query);
        self.score(q.as_str())
    }
}

/// How well a name answers a query, both lowercased: higher is better, zero is
/// no match. An empty query matches everything alike.
pub open spec fn rank(name: Seq<char>, name_chars: nat, query: Seq<char>) -> int {
    let penalty = if name_chars < 50 {
        name_chars as int
    } else {
        50
    };
    if query.len() == 0 {
        1
    } else if name == query {
        300
    } else if text::has_prefix(name, query) {
        200 - penalty
    } else if text::has_substring(name, query) {
        100 - penalty
    } else {
        0
    }
}

/// How well an application's name answers what was typed.
pub open spec fn query_rank(name: Seq<char>, query: Seq<char>) -> int {
    rank(search_key(name), name.len(), search_key(query))
}

/// Whether a name holds what was typed, in either case: there is something to
/// look for, and it is in the name.
pub open spec fn holds_query(name: Seq<char>, query: Seq<char>) -> bool {
    &&& search_key(query).len() > 0
    &&& text::has_substring(search_key(name), search_key(query))
}

/// With something to look for, a name ranks exactly when that is in it.
proof fn lemma_rank_of_a_match(name: Seq<char>, name_chars: nat, query: Seq<char>)
    ensures
        query.len() > 0 ==> (rank(name, name_chars, query) > 0 <==> text::has_substring(
            name,
            query,
        )),
{
    if name == query || text::has_prefix(name, query) {
        assert(name.skip(0) == name);
        assert(query.take(query.len() as int) == query);
        assert(text::has_prefix(name.skip(0), query));
    }
}

/// What an escape sequence in a string value stands for: a backslash and the
/// character after it. An unknown one is kept as written.
pub open spec fn escape(c: char) -> Seq<char> {
    if c == 's' {
        seq![' ']
    } else if c == 'n' {
        seq!['\n']
    } else if c == 't' {
        seq!['\t']
    } else if c == 'r' {
        seq!['\r']
    } else if c == '\\' {
        seq!['\\']
    } else {
        seq!['\\', c]
    }
}

/// A Desktop Entry string value with its escape sequences resolved.
pub open spec fn unescaped(s: Seq<char>) -> Seq<char>
    decreases s.len(),
{
    if s.len() == 0 {
        Seq::empty()
    } else if s[0] != '\\' || s.len() == 1 {
        seq![s[0]] + unescaped(s.skip(1))
    } else {
        escape(s[1]) + unescaped(s.skip(2))
    }
}

/// Resolve the escape sequences of a string value.
///
/// The spec applies these before the Exec quoting rules, so a doubled backslash
/// has to collapse here: leave it, and the tokenizer reads two backslashes where
/// the file meant one.
fn unescape(s: &[char]) -> (r: Vec<char>)
    ensures
        r@ == unescaped(s@),
{
    let mut out: Vec<char> = Vec::new();
    let mut i: usize = 0;
    assert(s@.skip(0) == s@);
    assert(out@ + unescaped(s@) == unescaped(s@));
    while i < s.len()
        invariant
            i <= s@.len(),
            unescaped(s@) == out@ + unescaped(s@.skip(i as int)),
        decreases s.len() - i,
    {
        let ghost tail = s@.skip(i as int);
        let ghost before = out@;
        let c = s[i];
        if c != '\\' || i + 1 >= s.len() {
            assert(tail.skip(1) == s@.skip(i + 1));
            out.push(c);
            assert(before + (seq![tail[0]] + unescaped(tail.skip(1))) == out@ + unescaped(
                tail.skip(1),
            ));
            i += 1;
        } else {
            assert(tail.skip(2) == s@.skip(i + 2));
            let next = s[i + 1];
            if next == 's' {
                out.push(' ');
            } else if next == 'n' {
                out.push('\n');
            } else if next == 't' {
                out.push('\t');
            } else if next == 'r' {
                out.push('\r');
            } else if next == '\\' {
                out.push('\\');
            } else {
                out.push('\\');
                out.push(next);
            }
            assert(out@ == before + escape(next));
            assert(before + (escape(tail[1]) + unescaped(tail.skip(2))) == out@ + unescaped(
                tail.skip(2),
            ));
            i += 2;
        }
    }
    assert(out@ + Seq::<char>::empty() == out@);
    out
}

/// The keys of a desktop file that matter, as its lines set them. A repeated key
/// keeps the last value.
pub struct Fields {
    pub in_entry: bool,
    pub type_value: Vec<char>,
    pub name: Option<Vec<char>>,
    pub exec exec: Option<Vec<char>>,
    pub no_display: bool,
    pub hidden: bool,
}

/// What the lines of a desktop file have said so far.
#[verifier::ext_equal]
pub struct FieldsView {
    pub in_entry: bool,
    pub type_value: Seq<char>,
    pub name: Option<Seq<char>>,
    pub exec exec: Option<Seq<char>>,
    pub no_display: bool,
    pub hidden: bool,
}

pub open spec fn text_of(v: Option<Vec<char>>) -> Option<Seq<char>> {
    match v {
        Some(v) => Some(v@),
        None => None,
    }
}

impl View for Fields {
    type V = FieldsView;

    open spec fn view(&self) -> FieldsView {
        FieldsView {
            in_entry: self.in_entry,
            type_value: self.type_value@,
            name: text_of(self.name),
            exec: text_of(self.exec),
            no_display: self.no_display,
            hidden: self.hidden,
        }
    }
}

/// Before any line is read.
pub open spec fn no_fields() -> FieldsView {
    FieldsView {
        in_entry: false,
        type_value: Seq::empty(),
        name: None,
        exec: None,
        no_display: false,
        hidden: false,
    }
}

/// What a key=value line of the entry's section changes.
pub open spec fn with_key(f: FieldsView, key: Seq<char>, value: Seq<char>) -> FieldsView {
    if key.contains('[') {
        // A localized key, such as Name[de].
        f
    } else if key == "Type"@ {
        FieldsView { type_value: value, ..f }
    } else if key == "Name"@ {
        FieldsView { name: Some(value), ..f }
    } else if key == "Exec"@ {
        FieldsView { exec: Some(value), ..f }
    } else if key == "NoDisplay"@ {
        FieldsView { no_display: value == "true"@, ..f }
    } else if key == "Hidden"@ {
        FieldsView { hidden: value == "true"@, ..f }
    } else {
        f
    }
}

/// What one line changes: blank lines and comments nothing, a section header
/// which section is being read, and a key=value line of the entry's own section
/// the key it sets.
pub open spec fn with_line(f: FieldsView, raw: Seq<char>) -> FieldsView {
    let line = text::trimmed(raw);
    if line.len() == 0 || line[0] == '#' {
        f
    } else if line[0] == '[' {
        FieldsView { in_entry: line == "[Desktop Entry]"@, ..f }
    } else if !f.in_entry || !line.contains('=') {
        f
    } else {
        let at = text::first_of(line, '=');
        with_key(f, text::trimmed(line.take(at)), text::trimmed(line.skip(at + 1)))
    }
}

/// What the lines of a file say.
pub open spec fn fields_of(lines: Seq<Seq<char>>) -> FieldsView
    decreases lines.len(),
{
    if lines.len() == 0 {
        no_fields()
    } else {
        with_line(fields_of(lines.drop_last()), lines.last())
    }
}

/// The name and command a desktop file's text describes: those of a visible
/// Application that has both and whose values fit an entry.
pub open spec fn parsed(content: Seq<char>) -> Option<(Seq<char>, Seq<char>)> {
    let f = fields_of(text::pieces(content, '\n'));
    if f.type_value != "Application"@ || f.no_display || f.hidden || f.name is None
        || f.exec is None {
        None
    } else {
        let name = unescaped(f.name->0);
        let command = unescaped(f.exec->0);
        if text::byte_len(name) <= NAME_CAP && text::byte_len(command) <= EXEC_CAP {
            Some((name, command))
        } else {
            None
        }
    }
}

fn to_vec(s: &[char]) -> (r: Vec<char>)
    ensures
        r@ == s@,
{
    vstd::slice::slice_to_vec(s)
}

impl Fields {
    fn new() -> (r: Self)
        ensures
            r@ == no_fields(),
    {
        Fields {
            in_entry: false,
            type_value: Vec::new(),
            name: None,
            exec: None,
            no_display: false,
            hidden: false,
        }
    }

    fn set_key(&mut self, key: &[char], value: &[char])
        ensures
            final(self)@ == with_key(old(self)@, key@, value@),
    {
        if text::find_char(key, '[').is_some() {
            return;
        }
        if text::is_text(key, "Type") {
            self.type_value = to_vec(value);
        } else if text::is_text(key, "Name") {
            self.name = Some(to_vec(value));
        } else if text::is_text(key, "Exec") {
            self.exec = Some(to_vec(value));
        } else if text::is_text(key, "NoDisplay") {
            self.no_display = text::is_text(value, "true");
        } else if text::is_text(key, "Hidden") {
            self.hidden = text::is_text(value, "true");
        }
    }

    fn read_line(&mut self, raw: &[char])
        ensures
            final(self)@ == with_line(old(self)@, raw@),
    {
        let line = text::trim(raw);
        if line.len() == 0 || line[0] == '#' {
            return;
        }
        if line[0] == '[' {
            self.in_entry = text::is_text(line, "[Desktop Entry]");
            return;
        }
        if !self.in_entry {
            return;
        }
        if let Some(at) = text::find_char(line, '=') {
            let left = slice_subrange(line, 0, at);
            let right = slice_subrange(line, at + 1, line.len());
            assert(left@ == line@.take(at as int));
            assert(right@ == line@.skip(at + 1));
            self.set_key(text::trim(left), text::trim(right));
        }
    }
}

impl DesktopEntry {
    /// Parse desktop entry content. None when the entry is not a launchable,
    /// visible Application or a required field is missing or oversized.
    pub fn parse(content: &str) -> (r: Option<Self>)
        ensures
            match parsed(content@) {
                Some(p) => r is Some && r->0.wf() && r->0.name@ == p.0 && r->0.exec@ == p.1,
                None => r is None,
            },
    {
        let chars = chars_of(content);
        let lines = text::split(chars.as_slice(), '\n');
        let ghost all = text::pieces(content@, '\n');
        let mut fields = Fields::new();
        let mut i: usize = 0;
        assert(all.take(0) == Seq::<Seq<char>>::empty());
        while i < lines.len()
            invariant
                i <= lines@.len(),
                text::texts(lines@) == all,
                fields@ == fields_of(all.take(i as int)),
            decreases lines.len() - i,
        {
            assert(all.take(i + 1).drop_last() == all.take(i as int));
            assert(all[i as int] == lines@[i as int]@);
            fields.read_line(lines[i].as_slice());
            i += 1;
        }
        assert(all.take(all.len() as int) == all);
        if !text::is_text(fields.type_value.as_slice(), "Application") {
            return None;
        }
        if fields.no_display || fields.hidden {
            return None;
        }
        match (fields.name, fields.exec) {
            (Some(name), Some(command)) => {
                let mut n: ArrayString<NAME_CAP> = ArrayString::new();
                let mut x: ArrayString<EXEC_CAP> = ArrayString::new();
                let un = unescape(name.as_slice());
                let ux = unescape(command.as_slice());
                assert(Seq::<char>::empty() + un@ == un@);
                assert(Seq::<char>::empty() + ux@ == ux@);
                if n.push_chars(un.as_slice()).is_err() {
                    return None;
                }
                if x.push_chars(ux.as_slice()).is_err() {
                    return None;
                }
                Some(Self::of(n, x))
            },
            _ => None,
        }
    }

    /// The entry a desktop file's bytes describe, if they are text and describe
    /// one.
    pub fn from_file(data: &[u8]) -> (r: Option<Self>)
        ensures
            match parsed_file(data@) {
                Some(p) => r is Some && r->0.wf() && r->0.name@ == p.0 && r->0.exec@ == p.1,
                None => r is None,
            },
    {
        if data.len() > DESKTOP_FILE_MAX {
            return None;
        }
        match text::str_from_utf8(data) {
            Some(s) => {
                proof {
                    encode_utf8_decode_utf8(s@);
                }
                Self::parse(s)
            },
            None => None,
        }
    }
}

/// Whether an entry comes before another in a result list: by relevance, then
/// by name.
pub open spec fn ranks_before(a: DesktopEntry, b: DesktopEntry, query: Seq<char>) -> bool {
    let x = query_rank(a.name@, query);
    let y = query_rank(b.name@, query);
    x > y || (x == y && text::sorts_before(
        encode_utf8(search_key(a.name@)),
        encode_utf8(search_key(b.name@)),
    ))
}

proof fn lemma_ranks_before_transitive(
    a: DesktopEntry,
    b: DesktopEntry,
    c: DesktopEntry,
    query: Seq<char>,
)
    requires
        ranks_before(a, b, query),
        ranks_before(b, c, query),
    ensures
        ranks_before(a, c, query),
{
    let x = encode_utf8(search_key(a.name@));
    let y = encode_utf8(search_key(b.name@));
    let z = encode_utf8(search_key(c.name@));
    if text::sorts_before(x, y) && text::sorts_before(y, z) {
        text::lemma_sorts_before_transitive(x, y, z);
    }
}

/// Entries neither of which comes before the other are alike in relevance and in
/// lowercased name.
proof fn lemma_ranks_alike(a: DesktopEntry, b: DesktopEntry, query: Seq<char>)
    requires
        !ranks_before(a, b, query),
        !ranks_before(b, a, query),
    ensures
        query_rank(a.name@, query) == query_rank(b.name@, query),
        encode_utf8(search_key(a.name@)) == encode_utf8(search_key(b.name@)),
{
    text::lemma_sorts_before_total(
        encode_utf8(search_key(a.name@)),
        encode_utf8(search_key(b.name@)),
    );
}

/// Whether the entry at one position is listed before that at another: the one
/// that ranks before the other, and of two alike the one that comes first in the
/// catalog.
pub open spec fn listed_before(
    entries: Seq<DesktopEntry>,
    query: Seq<char>,
    i: int,
    j: int,
) -> bool {
    &&& !ranks_before(entries[j], entries[i], query)
    &&& ranks_before(entries[i], entries[j], query) || i < j
}

/// Of two positions one is listed before the other, and not both.
pub proof fn lemma_listed_before_total(
    entries: Seq<DesktopEntry>,
    query: Seq<char>,
    i: int,
    j: int,
)
    ensures
        !(listed_before(entries, query, i, j) && listed_before(entries, query, j, i)),
        listed_before(entries, query, i, j) || listed_before(entries, query, j, i) || i == j,
{
    let (a, b) = (entries[i], entries[j]);
    if ranks_before(a, b, query) && ranks_before(b, a, query) {
        lemma_ranks_before_transitive(a, b, a, query);
        text::lemma_sorts_before_irreflexive(encode_utf8(search_key(a.name@)));
    }
}

proof fn lemma_listed_before_transitive(
    entries: Seq<DesktopEntry>,
    query: Seq<char>,
    i: int,
    j: int,
    k: int,
)
    requires
        listed_before(entries, query, i, j),
        listed_before(entries, query, j, k),
    ensures
        listed_before(entries, query, i, k),
{
    let (a, b, c) = (entries[i], entries[j], entries[k]);
    if !ranks_before(a, b, query) {
        lemma_ranks_alike(a, b, query);
    }
    if !ranks_before(b, c, query) {
        lemma_ranks_alike(b, c, query);
    }
    if ranks_before(a, b, query) && ranks_before(b, c, query) {
        lemma_ranks_before_transitive(a, b, c, query);
    }
    if ranks_before(c, a, query) {
        if ranks_before(a, b, query) {
            lemma_ranks_before_transitive(c, a, b, query);
        }
    }
}

/// The positions of the entries that match a query, in catalog order, up to the
/// most a catalog holds.
pub open spec fn matching(entries: Seq<DesktopEntry>, query: Seq<char>) -> Seq<int>
    decreases entries.len(),
{
    if entries.len() == 0 {
        Seq::empty()
    } else {
        let before = matching(entries.drop_last(), query);
        if query_rank(entries.last().name@, query) > 0 && before.len() < MAX_ENTRIES {
            before.push(entries.len() - 1)
        } else {
            before
        }
    }
}

/// `top` lists positions out of `all`, each listed before the next, and before
/// every position left out. It is as long as the cap and `all` allow.
pub open spec fn is_top(
    entries: Seq<DesktopEntry>,
    query: Seq<char>,
    all: Seq<int>,
    top: Seq<int>,
    cap: int,
) -> bool {
    &&& top.len() == (if all.len() < cap {
        all.len() as int
    } else {
        cap
    })
    &&& forall|k: int| 0 <= k < top.len() ==> #[trigger] all.contains(top[k])
    &&& forall|k: int, l: int|
        0 <= k < l < top.len() ==> listed_before(
            entries,
            query,
            #[trigger] top[k],
            #[trigger] top[l],
        )
    &&& forall|i: int, k: int|
        0 <= k < top.len() && #[trigger] all.contains(i) && !top.contains(i) ==> listed_before(
            entries,
            query,
            #[trigger] top[k],
            i,
        )
}

/// There is one way to list the best: two such lists are the same, ties and all.
pub proof fn law_the_best_are_listed_one_way(
    entries: Seq<DesktopEntry>,
    query: Seq<char>,
    all: Seq<int>,
    a: Seq<int>,
    b: Seq<int>,
    cap: int,
)
    requires
        is_top(entries, query, all, a, cap),
        is_top(entries, query, all, b, cap),
    ensures
        a == b,
{
    lemma_listed_alike(entries, query, all, a, b, cap, a.len() as int);
    assert(a == b);
}

proof fn lemma_listed_alike(
    entries: Seq<DesktopEntry>,
    query: Seq<char>,
    all: Seq<int>,
    a: Seq<int>,
    b: Seq<int>,
    cap: int,
    n: int,
)
    requires
        is_top(entries, query, all, a, cap),
        is_top(entries, query, all, b, cap),
        0 <= n <= a.len(),
    ensures
        forall|k: int| 0 <= k < n ==> #[trigger] a[k] == b[k],
    decreases n,
{
    if n > 0 {
        let k = n - 1;
        lemma_listed_alike(entries, query, all, a, b, cap, k);
        lemma_listed_before_total(entries, query, a[k], b[k]);
        if listed_before(entries, query, a[k], b[k]) {
            lemma_listed_no_earlier(entries, query, all, a, b, cap, k);
        } else if listed_before(entries, query, b[k], a[k]) {
            lemma_listed_no_earlier(entries, query, all, b, a, cap, k);
        }
    }
}

/// Lists that agree up to a point do not part there with the first one ahead.
proof fn lemma_listed_no_earlier(
    entries: Seq<DesktopEntry>,
    query: Seq<char>,
    all: Seq<int>,
    a: Seq<int>,
    b: Seq<int>,
    cap: int,
    k: int,
)
    requires
        is_top(entries, query, all, a, cap),
        is_top(entries, query, all, b, cap),
        0 <= k < a.len(),
        forall|m: int| 0 <= m < k ==> #[trigger] a[m] == b[m],
    ensures
        !listed_before(entries, query, a[k], b[k]),
{
    assert(all.contains(a[k]));
    lemma_listed_before_total(entries, query, a[k], b[k]);
    if b.contains(a[k]) {
        let l = choose|l: int| 0 <= l < b.len() && b[l] == a[k];
        lemma_listed_before_total(entries, query, a[k], a[k]);
        if l < k {
            assert(a[l] == b[l]);
            assert(listed_before(entries, query, a[l], a[k]));
        } else if l > k {
            assert(listed_before(entries, query, b[k], b[l]));
        }
    }
}

/// The positions a list of scored positions holds.
pub open spec fn positions(v: Seq<usize>) -> Seq<int> {
    Seq::new(v.len(), |i: int| v[i] as int)
}

fn entry_before(a: &DesktopEntry, b: &DesktopEntry, q: &str, Ghost(query): Ghost<Seq<char>>) -> (r:
    bool)
    requires
        a.wf(),
        b.wf(),
        q@ == search_key(query),
    ensures
        r == ranks_before(*a, *b, query),
{
    let x: i32 = a.score(q);
    let y: i32 = b.score(q);
    x > y || (x == y && text::str_before(a.name_lower.as_str(), b.name_lower.as_str()))
}

pub proof fn lemma_matching_bounds(entries: Seq<DesktopEntry>, query: Seq<char>)
    ensures
        forall|k: int, l: int|
            0 <= k < l < matching(entries, query).len() ==> #[trigger] matching(entries, query)[k]
                < #[trigger] matching(entries, query)[l],
        matching(entries, query).len() <= MAX_ENTRIES,
        forall|k: int|
            0 <= k < matching(entries, query).len() ==> 0 <= #[trigger] matching(
                entries,
                query,
            )[k] < entries.len() && query_rank(
                entries[matching(entries, query)[k]].name@,
                query,
            ) > 0,
    decreases entries.len(),
{
    if entries.len() > 0 {
        lemma_matching_bounds(entries.drop_last(), query);
    }
}

/// The best of a nonempty list of ascending positions.
fn best_of(
    entries: &[DesktopEntry],
    rest: &Vec<usize>,
    q: &str,
    Ghost(query): Ghost<Seq<char>>,
) -> (r: usize)
    requires
        rest@.len() > 0,
        forall|i: int| 0 <= i < entries@.len() ==> (#[trigger] entries@[i]).wf(),
        forall|k: int| 0 <= k < rest@.len() ==> #[trigger] rest@[k] < entries@.len(),
        forall|k: int, l: int| 0 <= k < l < rest@.len() ==> #[trigger] rest@[k] < #[trigger] rest@[l],
        q@ == search_key(query),
    ensures
        r < rest@.len(),
        forall|k: int|
            0 <= k < rest@.len() && k != r ==> listed_before(
                entries@,
                query,
                rest@[r as int] as int,
                #[trigger] rest@[k] as int,
            ),
{
    let mut best: usize = 0;
    let mut i: usize = 1;
    while i < rest.len()
        invariant
            best < i <= rest@.len(),
            forall|i: int| 0 <= i < entries@.len() ==> (#[trigger] entries@[i]).wf(),
            forall|k: int| 0 <= k < rest@.len() ==> #[trigger] rest@[k] < entries@.len(),
            forall|k: int, l: int|
                0 <= k < l < rest@.len() ==> #[trigger] rest@[k] < #[trigger] rest@[l],
            q@ == search_key(query),
            forall|k: int|
                0 <= k < i && k != best ==> listed_before(
                    entries@,
                    query,
                    rest@[best as int] as int,
                    #[trigger] rest@[k] as int,
                ),
        decreases rest.len() - i,
    {
        let ghost there = rest@[best as int] as int;
        let ghost here = rest@[i as int] as int;
        assert(rest@[i as int] < entries@.len());
        assert(rest@[best as int] < entries@.len());
        proof {
            lemma_listed_before_total(entries@, query, there, here);
        }
        if entry_before(&entries[rest[i]], &entries[rest[best]], q, Ghost(query)) {
            proof {
                assert(listed_before(entries@, query, here, there));
                assert forall|k: int| 0 <= k < i implies listed_before(
                    entries@,
                    query,
                    here,
                    #[trigger] rest@[k] as int,
                ) by {
                    if k != best {
                        lemma_listed_before_transitive(
                            entries@,
                            query,
                            here,
                            there,
                            rest@[k] as int,
                        );
                    }
                }
            }
            best = i;
        }
        i += 1;
    }
    best
}

/// Search entries and return the top matches ranked by relevance, then name.
pub fn search<'a>(entries: &'a [DesktopEntry], query: &str) -> (r: ArrayVec<
    &'a DesktopEntry,
    RESULT_CAP,
>)
    requires
        forall|i: int| 0 <= i < entries@.len() ==> (#[trigger] entries@[i]).wf(),
    ensures
        r.wf(),
        exists|top: Seq<int>|
            #[trigger] is_top(
                entries@,
                query@,
                matching(entries@, query@),
                top,
                RESULT_CAP as int,
            ) && r@.len() == top.len() && forall|k: int|
                0 <= k < top.len() ==> *(#[trigger] r@[k]) == entries@[top[k]],
        query@.len() > 0 ==> forall|k: int|
            0 <= k < r@.len() ==> holds_query((#[trigger] r@[k]).name@, query@),
        forall|k: int, l: int|
            0 <= k < l < r@.len() ==> query_rank((#[trigger] r@[k]).name@, query@) >= query_rank(
                (#[trigger] r@[l]).name@,
                query@,
            ),
{
    proof {
        text::lemma_byte_len_bounds(Seq::<char>::empty());
    }
    // The query is lowercased once, for the whole catalog. Every name it is
    // compared against is lowercase already.
    let mut q: ArrayString<NAME_CAP> = ArrayString::new();
    push_lower(&mut q, query);
    let mut rest: Vec<usize> = Vec::new();
    let mut i: usize = 0;
    assert(entries@.take(0) == Seq::<DesktopEntry>::empty());
    assert(positions(rest@) == matching(entries@.take(0), query@));
    while i < entries.len()
        invariant
            i <= entries@.len(),
            q.wf(),
            q@ == search_key(query@),
            forall|i: int| 0 <= i < entries@.len() ==> (#[trigger] entries@[i]).wf(),
            positions(rest@) == matching(entries@.take(i as int), query@),
        decreases entries.len() - i,
    {
        assert(entries@.take(i + 1).drop_last() == entries@.take(i as int));
        assert(entries@.take(i + 1).last() == entries@[i as int]);
        let ghost before = rest@;
        if entries[i].score(q.as_str()) > 0 && rest.len() < MAX_ENTRIES {
            rest.push(i);
            assert(positions(rest@) == positions(before).push(i as int));
        }
        assert(rest@.len() == positions(rest@).len());
        assert(before.len() == positions(before).len());
        i += 1;
    }
    assert(entries@.take(entries@.len() as int) == entries@);
    let ghost all = matching(entries@, query@);
    let ghost mut top = Seq::<int>::empty();
    let mut out: ArrayVec<&'a DesktopEntry, RESULT_CAP> = ArrayVec::new();
    proof {
        lemma_matching_bounds(entries@, query@);
        assert forall|k: int| 0 <= k < rest@.len() implies #[trigger] rest@[k] < entries@.len() by {
            assert(positions(rest@)[k] == rest@[k]);
        }
        assert forall|i: int| all.contains(i) implies positions(rest@).contains(i) by {}
        assert(all.len() == rest@.len());
        assert forall|k: int, l: int| 0 <= k < l < rest@.len() implies #[trigger] rest@[k]
            < #[trigger] rest@[l] by {
            assert(all[k] == rest@[k] && all[l] == rest@[l]);
        }
    }
    while out.len() < RESULT_CAP && rest.len() > 0
        invariant
            out.wf(),
            q.wf(),
            q@ == search_key(query@),
            all == matching(entries@, query@),
            forall|i: int| 0 <= i < entries@.len() ==> (#[trigger] entries@[i]).wf(),
            forall|k: int| 0 <= k < rest@.len() ==> #[trigger] rest@[k] < entries@.len(),
            top.len() == out@.len(),
            top.len() + rest@.len() == all.len(),
            forall|k: int| 0 <= k < top.len() ==> *(#[trigger] out@[k]) == entries@[top[k]],
            forall|k: int, l: int|
                0 <= k < l < rest@.len() ==> #[trigger] rest@[k] < #[trigger] rest@[l],
            forall|k: int| 0 <= k < top.len() ==> #[trigger] all.contains(top[k]),
            forall|k: int| 0 <= k < rest@.len() ==> all.contains(#[trigger] positions(rest@)[k]),
            forall|i: int| #[trigger]
                all.contains(i) ==> top.contains(i) || positions(rest@).contains(i),
            forall|k: int, l: int|
                0 <= k < l < top.len() ==> listed_before(
                    entries@,
                    query@,
                    #[trigger] top[k],
                    #[trigger] top[l],
                ),
            forall|k: int, l: int|
                0 <= k < top.len() && 0 <= l < rest@.len() ==> listed_before(
                    entries@,
                    query@,
                    #[trigger] top[k],
                    #[trigger] positions(rest@)[l],
                ),
        decreases rest.len(),
    {
        let b: usize = best_of(entries, &rest, q.as_str(), Ghost(query@));
        let ghost old_rest = rest@;
        let ghost old_top = top;
        let ghost pick = old_rest[b as int] as int;
        let at: usize = rest.remove(b);
        let _ = out.push(&entries[at]);
        proof {
            top = top.push(pick);
            lemma_pick(entries@, query@, all, old_top, old_rest, rest@, b as int);
        }
    }
    proof {
        assert forall|i: int, k: int|
            0 <= k < top.len() && #[trigger] all.contains(i) && !top.contains(
                i,
            ) implies listed_before(entries@, query@, #[trigger] top[k], i) by {
            let l = choose|l: int| 0 <= l < positions(rest@).len() && positions(rest@)[l] == i;
            assert(positions(rest@)[l] == i);
        }
        assert(is_top(entries@, query@, all, top, RESULT_CAP as int));
        assert forall|k: int, l: int| 0 <= k < l < out@.len() implies query_rank(
            (#[trigger] out@[k]).name@,
            query@,
        ) >= query_rank((#[trigger] out@[l]).name@, query@) by {
            laws::search::law_results_are_listed_in_order(entries@, query@, top, k, l);
        }
        if query@.len() > 0 {
            lemma_matching_bounds(entries@, query@);
            assert forall|k: int| 0 <= k < out@.len() implies holds_query(
                (#[trigger] out@[k]).name@,
                query@,
            ) by {
                assert(all.contains(top[k]));
                let e = entries@[top[k]];
                lemma_rank_of_a_match(search_key(e.name@), e.name@.len(), search_key(query@));
            }
        }
    }
    out
}

/// Moving the best remaining position to the end of the list keeps it a list of
/// the best.
proof fn lemma_pick(
    entries: Seq<DesktopEntry>,
    query: Seq<char>,
    all: Seq<int>,
    top: Seq<int>,
    rest: Seq<usize>,
    left: Seq<usize>,
    b: int,
)
    requires
        0 <= b < rest.len(),
        left == rest.remove(b),
        forall|k: int, l: int| 0 <= k < l < rest.len() ==> #[trigger] rest[k] < #[trigger] rest[l],
        forall|k: int| 0 <= k < top.len() ==> #[trigger] all.contains(top[k]),
        forall|k: int| 0 <= k < rest.len() ==> all.contains(#[trigger] positions(rest)[k]),
        forall|i: int| #[trigger]
            all.contains(i) ==> top.contains(i) || positions(rest).contains(i),
        forall|k: int, l: int|
            0 <= k < l < top.len() ==> listed_before(
                entries,
                query,
                #[trigger] top[k],
                #[trigger] top[l],
            ),
        forall|k: int, l: int|
            0 <= k < top.len() && 0 <= l < rest.len() ==> listed_before(
                entries,
                query,
                #[trigger] top[k],
                #[trigger] positions(rest)[l],
            ),
        forall|k: int|
            0 <= k < rest.len() && k != b ==> listed_before(
                entries,
                query,
                rest[b] as int,
                #[trigger] rest[k] as int,
            ),
    ensures
        ({
            let next = top.push(rest[b] as int);
            &&& forall|k: int, l: int|
                0 <= k < l < left.len() ==> #[trigger] left[k] < #[trigger] left[l]
            &&& forall|k: int| 0 <= k < next.len() ==> #[trigger] all.contains(next[k])
            &&& forall|k: int| 0 <= k < left.len() ==> all.contains(#[trigger] positions(left)[k])
            &&& forall|i: int| #[trigger]
                all.contains(i) ==> next.contains(i) || positions(left).contains(i)
            &&& forall|k: int, l: int|
                0 <= k < l < next.len() ==> listed_before(
                    entries,
                    query,
                    #[trigger] next[k],
                    #[trigger] next[l],
                )
            &&& forall|k: int, l: int|
                0 <= k < next.len() && 0 <= l < left.len() ==> listed_before(
                    entries,
                    query,
                    #[trigger] next[k],
                    #[trigger] positions(left)[l],
                )
        }),
{
    let pick = rest[b] as int;
    let next = top.push(pick);
    let p = positions(rest);
    let q = positions(left);
    assert(q == p.remove(b));
    assert(p[b] == pick);
    assert forall|k: int, l: int| 0 <= k < next.len() && 0 <= l < left.len() implies listed_before(
        entries,
        query,
        #[trigger] next[k],
        #[trigger] q[l],
    ) by {
        let m = if l < b {
            l
        } else {
            l + 1
        };
        assert(q[l] == p[m]);
        if k == top.len() {
            assert(listed_before(entries, query, rest[b] as int, rest[m] as int));
        } else {
            assert(listed_before(entries, query, top[k], p[m]));
        }
    }
    assert forall|k: int, l: int| 0 <= k < l < next.len() implies listed_before(
        entries,
        query,
        #[trigger] next[k],
        #[trigger] next[l],
    ) by {
        if l == top.len() {
            assert(listed_before(entries, query, top[k], p[b]));
        } else {
            assert(listed_before(entries, query, top[k], top[l]));
        }
    }
    assert forall|k: int| 0 <= k < next.len() implies #[trigger] all.contains(next[k]) by {
        if k == top.len() {
            assert(all.contains(p[b]));
        } else {
            assert(all.contains(top[k]));
        }
    }
    assert forall|k: int| 0 <= k < left.len() implies all.contains(#[trigger] q[k]) by {
        let m = if k < b {
            k
        } else {
            k + 1
        };
        assert(q[k] == p[m]);
        assert(all.contains(p[m]));
    }
    assert forall|i: int| #[trigger] all.contains(i) implies next.contains(i) || q.contains(i) by {
        if top.contains(i) {
            let k = choose|k: int| 0 <= k < top.len() && top[k] == i;
            assert(next[k] == i);
        } else {
            let m = choose|m: int| 0 <= m < p.len() && p[m] == i;
            if m == b {
                assert(next[top.len() as int] == i);
            } else if m < b {
                assert(q[m] == i);
            } else {
                assert(q[m - 1] == i);
            }
        }
    }
}

/// Byte capacity of a desktop file ID (the flattened relative path).
pub const ID_CAP: usize = 256;

/// Most XDG data directories scanned for applications.
pub const MAX_DATA_DIRS: usize = 16;

/// Whether `b` is a suffix of `a`.
pub open spec fn has_suffix(a: Seq<char>, b: Seq<char>) -> bool {
    b.len() <= a.len() && a.skip(a.len() - b.len()) == b
}

/// A relative path with directory separators turned into dashes.
pub open spec fn dashed(s: Seq<char>) -> Seq<char> {
    Seq::new(
        s.len(),
        |i: int|
            if s[i] == '/' {
                '-'
            } else {
                s[i]
            },
    )
}

/// The desktop file ID for a path under an applications root: the relative path
/// with directory separators turned into dashes and the .desktop suffix removed
/// (so kde4/foo.desktop becomes kde4-foo).
pub open spec fn id_of(root: Seq<char>, path: Seq<char>) -> Option<Seq<char>> {
    if !text::has_prefix(path, root) {
        None
    } else {
        let under = path.skip(root.len() as int);
        let rel = if under.len() > 0 && under[0] == '/' {
            under.skip(1)
        } else {
            under
        };
        let stem = if has_suffix(rel, ".desktop"@) {
            rel.take(rel.len() - 8)
        } else {
            rel
        };
        if text::byte_len(dashed(stem)) <= ID_CAP {
            Some(dashed(stem))
        } else {
            None
        }
    }
}

fn ends_with(a: &[char], suffix: &str) -> (r: bool)
    ensures
        r == has_suffix(a@, suffix@),
{
    let b = chars_of(suffix);
    if b.len() > a.len() {
        return false;
    }
    let tail = slice_subrange(a, a.len() - b.len(), a.len());
    assert(tail@ == a@.skip(a@.len() - b@.len()));
    text::same_chars(tail, b.as_slice())
}

/// The desktop file ID for a path under an applications root. None for a path
/// that is not under it, or an ID too long.
pub fn desktop_id(root: &str, path: &str) -> (r: Option<ArrayString<ID_CAP>>)
    ensures
        match id_of(root@, path@) {
            Some(id) => r is Some && r->0.wf() && r->0@ == id,
            None => r is None,
        },
{
    let whole = chars_of(path);
    let prefix = chars_of(root);
    if !text::starts_with(whole.as_slice(), prefix.as_slice()) {
        return None;
    }
    let mut start: usize = prefix.len();
    if start < whole.len() && whole[start] == '/' {
        start += 1;
    }
    let mut end: usize = whole.len();
    let rel = slice_subrange(whole.as_slice(), start, end);
    proof {
        let under = path@.skip(root@.len() as int);
        assert(rel@ == (if under.len() > 0 && under[0] == '/' {
            under.skip(1)
        } else {
            under
        }));
        reveal_strlit(".desktop");
        assert(".desktop"@.len() == 8);
    }
    if ends_with(rel, ".desktop") {
        end -= 8;
    }
    let stem = slice_subrange(whole.as_slice(), start, end);
    assert(stem@ == (if has_suffix(rel@, ".desktop"@) {
        rel@.take(rel@.len() - 8)
    } else {
        rel@
    }));
    let mut flat: Vec<char> = Vec::new();
    let mut i: usize = 0;
    while i < stem.len()
        invariant
            i <= stem@.len(),
            flat@ == dashed(stem@).take(i as int),
        decreases stem.len() - i,
    {
        let c = if stem[i] == '/' { '-' } else { stem[i] };
        flat.push(c);
        assert(flat@ == dashed(stem@).take(i + 1));
        i += 1;
    }
    assert(dashed(stem@).take(stem@.len() as int) == dashed(stem@));
    let mut out: ArrayString<ID_CAP> = ArrayString::new();
    assert(Seq::<char>::empty() + flat@ == flat@);
    if out.push_chars(flat.as_slice()).is_err() {
        return None;
    }
    Some(out)
}

/// The desktop files a scan has come across: their IDs and where they are. The
/// first file seen for an ID wins, so visiting the data directories in
/// precedence order makes an earlier one shadow a later one.
pub struct Scan {
    pub seen: ArrayVec<ArrayString<ID_CAP>, MAX_ENTRIES>,
    pub paths: ArrayVec<ScanPath, MAX_ENTRIES>,
}

impl Scan {
    /// Every path has its ID, and no ID occurs twice.
    pub open spec fn wf(&self) -> bool {
        &&& self.seen.wf()
        &&& self.paths.wf()
        &&& self.seen@.len() == self.paths@.len()
        &&& all_wf(self.seen@)
        &&& all_wf(self.paths@)
        &&& strings(self.seen@).no_duplicates()
    }

    pub fn new() -> (r: Self)
        ensures
            r.wf(),
            strings(r.seen@) == Seq::<Seq<char>>::empty(),
            strings(r.paths@) == Seq::<Seq<char>>::empty(),
    {
        let r = Scan { seen: ArrayVec::new(), paths: ArrayVec::new() };
        assert(strings(r.seen@) == Seq::<Seq<char>>::empty());
        assert(strings(r.paths@) == Seq::<Seq<char>>::empty());
        r
    }

    /// Visit one name of a directory being walked. `root` is the applications
    /// directory each ID is computed against. Returns the path to descend into
    /// when the name is a directory; a desktop file with a new ID is noted.
    pub fn visit(&mut self, root: &str, dir: &str, name: &str, is_directory: bool) -> (r: Option<
        ScanPath,
    >)
        requires
            old(self).wf(),
        ensures
            final(self).wf(),
            ({
                let path = fs::joined(dir@, name@);
                let fits = text::byte_len(path) <= PATH_CAP;
                &&& r is Some <==> fits && is_directory
                &&& r matches Some(p) ==> p.wf() && p@ == path
                &&& if fits && !is_directory && has_suffix(name@, ".desktop"@) && id_of(
                    root@,
                    path,
                ) is Some && !strings(old(self).seen@).contains(id_of(root@, path)->0) && old(
                    self,
                ).seen@.len() < MAX_ENTRIES {
                    &&& strings(final(self).seen@) == strings(old(self).seen@).push(
                        id_of(root@, path)->0,
                    )
                    &&& strings(final(self).paths@) == strings(old(self).paths@).push(path)
                } else {
                    &&& strings(final(self).seen@) == strings(old(self).seen@)
                    &&& strings(final(self).paths@) == strings(old(self).paths@)
                }
            }),
    {
        let path = match join(dir, name) {
            Some(p) => p,
            None => return None,
        };
        if is_directory {
            return Some(path);
        }
        let name_chars = chars_of(name);
        if !ends_with(name_chars.as_slice(), ".desktop") {
            return None;
        }
        let id = match desktop_id(root, path.as_str()) {
            Some(id) => id,
            None => return None,
        };
        let ghost ids = strings(self.seen@);
        let mut i: usize = 0;
        while i < self.seen.len()
            invariant
                i <= self.seen@.len(),
                *self == *old(self),
                self.wf(),
                id.wf(),
                !is_directory,
                id_of(root@, fs::joined(dir@, name@)) is Some,
                ids == strings(self.seen@),
                id@ == id_of(root@, fs::joined(dir@, name@))->0,
                forall|k: int| 0 <= k < i ==> ids[k] != id@,
            decreases self.seen@.len() - i,
        {
            let known = &self.seen.as_slice()[i];
            assert(known.wf() && known@ == ids[i as int]);
            if text::str_eq(known.as_str(), id.as_str()) {
                assert(ids.contains(ids[i as int]));
                return None;
            }
            i += 1;
        }
        let ghost before_seen = self.seen@;
        let ghost before_paths = self.paths@;
        let ghost new_id = id@;
        let ghost new_path = path@;
        if self.seen.push(id).is_ok() {
            let _ = self.paths.push(path);
            proof {
                assert(strings(self.seen@) == strings(before_seen).push(new_id));
                assert(strings(self.paths@) == strings(before_paths).push(new_path));
            }
        }
        None
    }
}

/// The data directories to try, highest priority first.
pub open spec fn candidate_dirs(
    in_flatpak: bool,
    home: Option<Seq<char>>,
    data_home: Option<Seq<char>>,
    data_dirs: Option<Seq<char>>,
) -> Seq<Seq<char>> {
    if in_flatpak {
        let user = if home is Some {
            seq![
                home->0 + "/.local/share"@,
                home->0 + "/.local/share/flatpak/exports/share"@,
            ]
        } else {
            Seq::empty()
        };
        user + seq![
            "/var/lib/flatpak/exports/share"@,
            "/run/host/usr/local/share"@,
            "/run/host/usr/share"@,
        ]
    } else {
        let user = if data_home is Some && data_home->0.len() > 0 {
            seq![data_home->0]
        } else if home is Some {
            seq![home->0 + "/.local/share"@]
        } else {
            Seq::empty()
        };
        let system = if data_dirs is Some && data_dirs->0.len() > 0 {
            data_dirs->0
        } else {
            "/usr/local/share:/usr/share"@
        };
        user + nonempty(text::pieces(system, ':'))
    }
}

/// The pieces that are not empty.
pub open spec fn nonempty(s: Seq<Seq<char>>) -> Seq<Seq<char>>
    decreases s.len(),
{
    if s.len() == 0 {
        Seq::empty()
    } else if s.last().len() == 0 {
        nonempty(s.drop_last())
    } else {
        nonempty(s.drop_last()).push(s.last())
    }
}

/// The candidates that fit a path, as many as are kept.
pub open spec fn kept_dirs(s: Seq<Seq<char>>) -> Seq<Seq<char>>
    decreases s.len(),
{
    if s.len() == 0 {
        Seq::empty()
    } else {
        let before = kept_dirs(s.drop_last());
        if text::byte_len(s.last()) <= PATH_CAP && before.len() < MAX_DATA_DIRS {
            before.push(s.last())
        } else {
            before
        }
    }
}

pub open spec fn text_opt(s: Option<&str>) -> Option<Seq<char>> {
    match s {
        Some(s) => Some(s@),
        None => None,
    }
}

/// Fill out with the XDG data directories to search, highest priority first.
///
/// Inside a Flatpak sandbox the XDG variables describe the sandbox, where
/// nothing is installed; the host's trees are used instead.
pub fn collect_data_dirs(
    out: &mut ArrayVec<ScanPath, MAX_DATA_DIRS>,
    in_flatpak: bool,
    home: Option<&str>,
    data_home: Option<&str>,
    data_dirs: Option<&str>,
)
    ensures
        final(out).wf(),
        all_wf(final(out)@),
        strings(final(out)@) == kept_dirs(
            candidate_dirs(in_flatpak, text_opt(home), text_opt(data_home), text_opt(data_dirs)),
        ),
{
    out.clear();
    let ghost mut done = Seq::<Seq<char>>::empty();
    assert(strings(out@) == kept_dirs(done));
    proof {
        reveal_strlit("");
    }
    if in_flatpak {
        if let Some(home) = home {
            push_data_dir(out, home, "/.local/share", Ghost(done));
            proof {
                done = done.push(home@ + "/.local/share"@);
            }
            push_data_dir(out, home, "/.local/share/flatpak/exports/share", Ghost(done));
            proof {
                done = done.push(home@ + "/.local/share/flatpak/exports/share"@);
            }
        }
        push_data_dir(out, "/var/lib/flatpak/exports/share", "", Ghost(done));
        push_data_dir(
            out,
            "/run/host/usr/local/share",
            "",
            Ghost(done.push("/var/lib/flatpak/exports/share"@)),
        );
        push_data_dir(
            out,
            "/run/host/usr/share",
            "",
            Ghost(
                done.push("/var/lib/flatpak/exports/share"@).push("/run/host/usr/local/share"@),
            ),
        );
        assert(done.push("/var/lib/flatpak/exports/share"@).push(
            "/run/host/usr/local/share"@,
        ).push("/run/host/usr/share"@) == candidate_dirs(
            in_flatpak,
            text_opt(home),
            text_opt(data_home),
            text_opt(data_dirs),
        ));
        return;
    }
    // XDG_DATA_HOME stands on its own; HOME only supplies the base for the
    // default when it is unset or empty.
    let own_data_home = match data_home {
        Some(dir) => !dir.is_empty(),
        None => false,
    };
    if own_data_home {
        if let Some(dir) = data_home {
            push_data_dir(out, dir, "", Ghost(done));
            proof {
                done = done.push(dir@);
            }
        }
    } else if let Some(home) = home {
        push_data_dir(out, home, "/.local/share", Ghost(done));
        proof {
            done = done.push(home@ + "/.local/share"@);
        }
    }
    // Unset and empty both mean the spec's default.
    let system = match data_dirs {
        Some(dirs) => if dirs.is_empty() {
            "/usr/local/share:/usr/share"
        } else {
            dirs
        },
        None => "/usr/local/share:/usr/share",
    };
    let chars = chars_of(system);
    let parts = text::split(chars.as_slice(), ':');
    let ghost all = text::pieces(system@, ':');
    let ghost user = done;
    let mut i: usize = 0;
    proof {
        assert(all.take(0) == Seq::<Seq<char>>::empty());
        assert(user + nonempty(all.take(0)) == user);
    }
    while i < parts.len()
        invariant
            i <= parts@.len(),
            text::texts(parts@) == all,
            out.wf(),
            all_wf(out@),
            strings(out@) == kept_dirs(user + nonempty(all.take(i as int))),
        decreases parts.len() - i,
    {
        proof {
            assert(all.take(i + 1).drop_last() == all.take(i as int));
            assert(all.take(i + 1).last() == all[i as int]);
            assert(all[i as int] == parts@[i as int]@);
        }
        if parts[i].len() > 0 {
            let ghost before = user + nonempty(all.take(i as int));
            push_dir(out, parts[i].as_slice(), Ghost(before));
            assert(before.push(all[i as int]) == user + nonempty(all.take(i + 1)));
        }
        i += 1;
    }
    assert(all.take(all.len() as int) == all);
    assert(user + nonempty(all) == candidate_dirs(
        in_flatpak,
        text_opt(home),
        text_opt(data_home),
        text_opt(data_dirs),
    ));
}

/// Push a directory, dropping it if it does not fit a path. `done` is what was
/// tried before.
fn push_dir(
    out: &mut ArrayVec<ScanPath, MAX_DATA_DIRS>,
    dir: &[char],
    Ghost(done): Ghost<Seq<Seq<char>>>,
)
    requires
        old(out).wf(),
        all_wf(old(out)@),
        strings(old(out)@) == kept_dirs(done),
    ensures
        final(out).wf(),
        all_wf(final(out)@),
        strings(final(out)@) == kept_dirs(done.push(dir@)),
{
    assert(done.push(dir@).drop_last() == done);
    let mut path: ScanPath = ArrayString::new();
    assert(Seq::<char>::empty() + dir@ == dir@);
    let ghost before = out@;
    assert(strings(before).len() == before.len());
    if path.push_chars(dir).is_ok() {
        let ghost one = path@;
        if out.push(path).is_ok() {
            assert(strings(out@) == strings(before).push(one));
        }
    }
}

/// Push base with suffix appended, dropping it if the two do not fit a path.
fn push_data_dir(
    out: &mut ArrayVec<ScanPath, MAX_DATA_DIRS>,
    base: &str,
    suffix: &str,
    Ghost(done): Ghost<Seq<Seq<char>>>,
)
    requires
        old(out).wf(),
        all_wf(old(out)@),
        strings(old(out)@) == kept_dirs(done),
    ensures
        final(out).wf(),
        all_wf(final(out)@),
        strings(final(out)@) == kept_dirs(done.push(base@ + suffix@)),
        suffix@.len() == 0 ==> strings(final(out)@) == kept_dirs(done.push(base@)),
{
    let mut whole = chars_of(base);
    let mut tail = chars_of(suffix);
    whole.append(&mut tail);
    proof {
        if suffix@.len() == 0 {
            assert(base@ + suffix@ == base@);
        }
    }
    push_dir(out, whole.as_slice(), Ghost(done));
}

/// The newest of some modification times, or zero when none is known.
pub open spec fn newest(times: Seq<Option<u64>>) -> u64
    decreases times.len(),
{
    if times.len() == 0 {
        0
    } else {
        let before = newest(times.drop_last());
        match times.last() {
            Some(t) => if t > before {
                t
            } else {
                before
            },
            None => before,
        }
    }
}

/// Fingerprint of the application directories: the newest modification time
/// across them. A directory's time moves whenever a .desktop file is added to or
/// removed from it, which is the install/uninstall signal the cache needs to
/// notice. Zero when no directory resolves.
pub fn dirs_fingerprint(times: &[Option<u64>]) -> (r: u64)
    ensures
        r == newest(times@),
{
    let mut best: u64 = 0;
    let mut i: usize = 0;
    assert(times@.take(0) == Seq::<Option<u64>>::empty());
    while i < times.len()
        invariant
            i <= times@.len(),
            best == newest(times@.take(i as int)),
        decreases times.len() - i,
    {
        assert(times@.take(i + 1).drop_last() == times@.take(i as int));
        if let Some(t) = times[i] {
            if t > best {
                best = t;
            }
        }
        i += 1;
    }
    assert(times@.take(times@.len() as int) == times@);
    best
}

/// The discovered set of applications.
pub type Catalog = ArrayVec<DesktopEntry, MAX_ENTRIES>;

/// What an entry holds: its name and its command.
pub open spec fn summary(e: DesktopEntry) -> (Seq<char>, Seq<char>) {
    (e.name@, e.exec@)
}

pub open spec fn summaries(v: Seq<DesktopEntry>) -> Seq<(Seq<char>, Seq<char>)> {
    Seq::new(v.len(), |i: int| summary(v[i]))
}

/// Every entry of a catalog is well formed.
pub open spec fn entries_wf(v: Seq<DesktopEntry>) -> bool {
    forall|i: int| 0 <= i < v.len() ==> (#[trigger] v[i]).wf()
}

/// What the bytes of a desktop file describe. One that is too large or not UTF-8
/// describes nothing.
pub open spec fn parsed_file(data: Seq<u8>) -> Option<(Seq<char>, Seq<char>)> {
    if data.len() <= DESKTOP_FILE_MAX && valid_utf8(data) {
        parsed(decode_utf8(data))
    } else {
        None
    }
}

/// Some applications with the one a desktop file describes behind them, up to
/// the most a catalog holds.
pub open spec fn with_file(entries: Seq<(Seq<char>, Seq<char>)>, file: Option<Seq<u8>>) -> Seq<
    (Seq<char>, Seq<char>),
> {
    match file {
        Some(data) => match parsed_file(data) {
            Some(e) => if entries.len() < MAX_ENTRIES {
                entries.push(e)
            } else {
                entries
            },
            None => entries,
        },
        None => entries,
    }
}

/// Some applications with those that desktop files describe behind them.
pub open spec fn with_files(entries: Seq<(Seq<char>, Seq<char>)>, files: Seq<Vec<u8>>) -> Seq<
    (Seq<char>, Seq<char>),
>
    decreases files.len(),
{
    if files.len() == 0 {
        entries
    } else {
        with_file(with_files(entries, files.drop_last()), Some(files.last()@))
    }
}

/// The applications some desktop files describe.
pub open spec fn described(files: Seq<Vec<u8>>) -> Seq<(Seq<char>, Seq<char>)> {
    with_files(Seq::empty(), files)
}

/// Entries in the order of their names.
pub open spec fn sorted_by_name(v: Seq<DesktopEntry>) -> bool {
    forall|i: int, j: int|
        0 <= i < j < v.len() ==> !text::sorts_before(
            encode_utf8(search_key((#[trigger] v[j]).name@)),
            encode_utf8(search_key((#[trigger] v[i]).name@)),
        )
}

/// Read one file into a catalog that has room for it.
fn read_entry(file: &[u8], out: &mut Catalog)
    requires
        old(out).wf(),
        entries_wf(old(out)@),
    ensures
        final(out).wf(),
        entries_wf(final(out)@),
        summaries(final(out)@) == with_file(summaries(old(out)@), Some(file@)),
{
    let ghost before = out@;
    assert(summaries(before).len() == before.len());
    if let Some(entry) = DesktopEntry::from_file(file) {
        let ghost e = entry;
        if out.push(entry).is_ok() {
            assert(summaries(out@) == summaries(before).push(summary(e)));
        }
    }
}

/// Read and parse every discovered file, one at a time and in order.
pub fn read_entries(files: &[Vec<u8>], out: &mut Catalog)
    requires
        old(out).wf(),
        entries_wf(old(out)@),
    ensures
        final(out).wf(),
        entries_wf(final(out)@),
        summaries(final(out)@) == with_files(summaries(old(out)@), files@),
{
    let ghost had = summaries(out@);
    let mut i: usize = 0;
    assert(files@.take(0) == Seq::<Vec<u8>>::empty());
    while i < files.len()
        invariant
            i <= files@.len(),
            out.wf(),
            entries_wf(out@),
            summaries(out@) == with_files(had, files@.take(i as int)),
        decreases files.len() - i,
    {
        assert(files@.take(i + 1).drop_last() == files@.take(i as int));
        assert(files@.take(i + 1).last() == files@[i as int]);
        read_entry(files[i].as_slice(), out);
        i += 1;
    }
    assert(files@.take(files@.len() as int) == files@);
}

/// Files read together in one batch.
pub const BATCH: usize = 32;

/// The bytes a batch reserves for each of its files. A desktop file runs to a
/// couple of kilobytes; the largest on a full desktop is a few tens, and one
/// that fills its slot is read again whole rather than parsed from a buffer that
/// may have been cut short.
pub const FILE_SLOT: usize = 16384;

/// Submission queue depth for a batch's ring: one open per file, then a read and
/// a close per file that opened.
pub const RING_ENTRIES: u32 = 64;

/// What a batch gives of its file i, of which `len` bytes landed in its slot:
/// nothing of a file that could not be read or is empty, and for one that filled
/// its slot what reading it again gave.
pub open spec fn slot_file(
    bufs: Seq<u8>,
    len: int,
    again: Option<Vec<u8>>,
    i: int,
) -> Option<Seq<u8>> {
    if len == 0 {
        None
    } else if len == FILE_SLOT {
        match again {
            Some(whole) => Some(whole@),
            None => None,
        }
    } else {
        Some(bufs.subrange(i * FILE_SLOT, i * FILE_SLOT + len))
    }
}

/// Some applications with those of the first n files of a batch behind them.
pub open spec fn with_batch(
    entries: Seq<(Seq<char>, Seq<char>)>,
    bufs: Seq<u8>,
    lens: Seq<usize>,
    again: Seq<Option<Vec<u8>>>,
    n: nat,
) -> Seq<(Seq<char>, Seq<char>)>
    decreases n,
{
    if n == 0 {
        entries
    } else {
        let i = n - 1;
        with_file(
            with_batch(entries, bufs, lens, again, i as nat),
            slot_file(bufs, lens[i] as int, again[i], i),
        )
    }
}

/// Whether file i of a batch filled its slot, so that it has to be read again
/// whole.
pub fn fills_slot(lens: &[usize], i: usize) -> (r: bool)
    requires
        i < lens@.len(),
    ensures
        r == (lens@[i as int] == FILE_SLOT),
{
    lens[i] == FILE_SLOT
}

/// Parse the files a batch read: the buffer with a slot for each, how many bytes
/// landed in each slot, and for each file that filled its slot what reading it
/// again gave.
pub fn read_entries_batched(
    bufs: &[u8],
    lens: &[usize],
    again: &[Option<Vec<u8>>],
    out: &mut Catalog,
)
    requires
        lens@.len() * FILE_SLOT <= bufs@.len(),
        lens@.len() == again@.len(),
        forall|i: int| 0 <= i < lens@.len() ==> #[trigger] lens@[i] <= FILE_SLOT,
        old(out).wf(),
        entries_wf(old(out)@),
    ensures
        final(out).wf(),
        entries_wf(final(out)@),
        summaries(final(out)@) == with_batch(
            summaries(old(out)@),
            bufs@,
            lens@,
            again@,
            lens@.len(),
        ),
{
    let ghost had = summaries(out@);
    let size: usize = bufs.len();
    let mut i: usize = 0;
    while i < lens.len()
        invariant
            i <= lens@.len(),
            size == bufs@.len(),
            lens@.len() * FILE_SLOT <= bufs@.len(),
            lens@.len() == again@.len(),
            forall|i: int| 0 <= i < lens@.len() ==> #[trigger] lens@[i] <= FILE_SLOT,
            out.wf(),
            entries_wf(out@),
            summaries(out@) == with_batch(had, bufs@, lens@, again@, i as nat),
        decreases lens.len() - i,
    {
        let len: usize = lens[i];
        if len == FILE_SLOT {
            // It filled the slot, so it may have more to give.
            if let Some(whole) = &again[i] {
                read_entry(whole.as_slice(), out);
            }
        } else if len > 0 {
            let from: usize = i * FILE_SLOT;
            let file = slice_subrange(bufs, from, from + len);
            read_entry(file, out);
        }
        i += 1;
    }
}

/// The position of the entry whose name comes first.
fn first_by_name(v: &Catalog) -> (r: usize)
    requires
        v.wf(),
        v@.len() > 0,
        entries_wf(v@),
    ensures
        r < v@.len(),
        forall|k: int|
            0 <= k < v@.len() ==> !text::sorts_before(
                encode_utf8(search_key((#[trigger] v@[k]).name@)),
                encode_utf8(search_key(v@[r as int].name@)),
            ),
{
    let all = v.as_slice();
    let mut best: usize = 0;
    let mut i: usize = 1;
    proof {
        text::lemma_sorts_before_irreflexive(encode_utf8(search_key(v@[0].name@)));
    }
    while i < all.len()
        invariant
            best < i <= all@.len(),
            all@ == v@,
            entries_wf(v@),
            forall|k: int|
                0 <= k < i ==> !text::sorts_before(
                    encode_utf8(search_key((#[trigger] v@[k]).name@)),
                    encode_utf8(search_key(v@[best as int].name@)),
                ),
        decreases all.len() - i,
    {
        let ghost old_key = encode_utf8(search_key(v@[best as int].name@));
        let ghost new_key = encode_utf8(search_key(v@[i as int].name@));
        assert(v@[i as int].wf() && v@[best as int].wf());
        if text::str_before(all[i].name_lower.as_str(), all[best].name_lower.as_str()) {
            proof {
                assert forall|k: int| 0 <= k <= i implies !text::sorts_before(
                    encode_utf8(search_key((#[trigger] v@[k]).name@)),
                    new_key,
                ) by {
                    let key = encode_utf8(search_key(v@[k].name@));
                    if text::sorts_before(key, new_key) {
                        if k < i {
                            text::lemma_sorts_before_transitive(key, new_key, old_key);
                        } else {
                            text::lemma_sorts_before_irreflexive(key);
                        }
                    }
                }
            }
            best = i;
        }
        i += 1;
    }
    best
}

/// Sort a catalog by name.
fn sort_by_name(out: &mut Catalog)
    requires
        old(out).wf(),
        entries_wf(old(out)@),
    ensures
        final(out).wf(),
        entries_wf(final(out)@),
        sorted_by_name(final(out)@),
        summaries(final(out)@).to_multiset() == summaries(old(out)@).to_multiset(),
        final(out)@.len() == old(out)@.len(),
{
    let mut sorted: Catalog = ArrayVec::new();
    let ghost total = out@.len();
    let ghost bag = summaries(out@).to_multiset();
    proof {
        broadcast use vstd::seq_lib::group_to_multiset_ensures;

        assert(summaries(sorted@) == Seq::<(Seq<char>, Seq<char>)>::empty());
        assert(summaries(sorted@).to_multiset().add(summaries(out@).to_multiset()) =~= bag);
    }
    while !out.is_empty()
        invariant
            out.wf(),
            sorted.wf(),
            entries_wf(out@),
            entries_wf(sorted@),
            sorted_by_name(sorted@),
            sorted@.len() + out@.len() == total,
            total == old(out)@.len(),
            total <= MAX_ENTRIES,
            bag == summaries(old(out)@).to_multiset(),
            summaries(sorted@).to_multiset().add(summaries(out@).to_multiset()) =~= bag,
            forall|i: int, k: int|
                0 <= i < sorted@.len() && 0 <= k < out@.len() ==> !text::sorts_before(
                    encode_utf8(search_key((#[trigger] out@[k]).name@)),
                    encode_utf8(search_key((#[trigger] sorted@[i]).name@)),
                ),
        decreases out@.len(),
    {
        let at: usize = first_by_name(out);
        let ghost before = out@;
        let ghost done = sorted@;
        let ghost pick = before[at as int];
        if let Some(e) = out.remove(at) {
            let _ = sorted.push(e);
        }
        proof {
            broadcast use vstd::seq_lib::group_to_multiset_ensures;

            assert(summaries(out@) == summaries(before).remove(at as int));
            assert(summaries(sorted@) == summaries(done).push(summary(pick)));
            assert(summaries(before)[at as int] == summary(pick));
            assert(summaries(sorted@).to_multiset() =~= summaries(done).to_multiset().insert(
                summary(pick),
            ));
            assert(summaries(out@).to_multiset() =~= summaries(before).to_multiset().remove(
                summary(pick),
            ));
            assert(summaries(before).to_multiset().count(summary(pick)) > 0) by {
                assert(summaries(before).contains(summary(pick)));
            }
            assert(summaries(sorted@).to_multiset().add(summaries(out@).to_multiset()) =~= bag);
            assert forall|i: int, k: int|
                0 <= i < sorted@.len() && 0 <= k < out@.len() implies !text::sorts_before(
                encode_utf8(search_key((#[trigger] out@[k]).name@)),
                encode_utf8(search_key((#[trigger] sorted@[i]).name@)),
            ) by {
                let m = if k < at {
                    k
                } else {
                    k + 1
                };
                assert(out@[k] == before[m]);
                if i < done.len() {
                    assert(sorted@[i] == done[i]);
                } else {
                    assert(sorted@[i] == pick);
                }
            }
            assert forall|i: int, j: int| 0 <= i < j < sorted@.len() implies !text::sorts_before(
                encode_utf8(search_key((#[trigger] sorted@[j]).name@)),
                encode_utf8(search_key((#[trigger] sorted@[i]).name@)),
            ) by {
                assert(sorted@[i] == done[i]);
                if j < done.len() {
                    assert(sorted@[j] == done[j]);
                } else {
                    assert(sorted@[j] == before[at as int]);
                }
            }
        }
    }
    proof {
        broadcast use vstd::seq_lib::group_to_multiset_ensures;

        assert(summaries(out@) == Seq::<(Seq<char>, Seq<char>)>::empty());
        assert(summaries(sorted@).to_multiset() =~= bag);
    }
    *out = sorted;
}

/// Turn the desktop files a scan found, in precedence order, into the catalog:
/// every one that describes a launchable application, sorted by name. Replaces
/// what out held.
pub fn discover_entries(files: &[Vec<u8>], out: &mut Catalog)
    ensures
        final(out).wf(),
        entries_wf(final(out)@),
        sorted_by_name(final(out)@),
        summaries(final(out)@).to_multiset() == described(files@).to_multiset(),
        final(out)@.len() == described(files@).len(),
{
    out.clear();
    assert(summaries(out@) == Seq::<(Seq<char>, Seq<char>)>::empty());
    read_entries(files, out);
    assert(summaries(out@).len() == out@.len());
    sort_by_name(out);
}

/// What reading a file on its own gives, where a batch has read it: the slot
/// holds its first bytes, as many as there are up to the slot's size, and a file
/// that fills the slot was read again whole. A file that cannot be read leaves
/// its slot empty.
pub open spec fn batch_read(
    bufs: Seq<u8>,
    len: int,
    again: Option<Vec<u8>>,
    i: int,
    file: Option<Seq<u8>>,
) -> bool {
    match file {
        Some(data) => {
            &&& len == if data.len() < FILE_SLOT {
                data.len() as int
            } else {
                FILE_SLOT as int
            }
            &&& bufs.subrange(i * FILE_SLOT, i * FILE_SLOT + len) == data.take(len)
            &&& len == FILE_SLOT ==> again is Some && again->0@ == data
        },
        None => len == 0,
    }
}

/// Some applications with those of the first n files behind them, where each
/// file is what reading it gives.
pub open spec fn with_each(
    entries: Seq<(Seq<char>, Seq<char>)>,
    files: Seq<Option<Seq<u8>>>,
    n: nat,
) -> Seq<(Seq<char>, Seq<char>)>
    decreases n,
{
    if n == 0 {
        entries
    } else {
        with_file(with_each(entries, files, (n - 1) as nat), files[n - 1])
    }
}

/// A batch finds the same applications, in the same order, as reading its files
/// one at a time.
pub proof fn law_a_batch_finds_what_single_reads_do(
    entries: Seq<(Seq<char>, Seq<char>)>,
    bufs: Seq<u8>,
    lens: Seq<usize>,
    again: Seq<Option<Vec<u8>>>,
    files: Seq<Option<Seq<u8>>>,
    n: nat,
)
    requires
        n <= lens.len(),
        n <= again.len(),
        n <= files.len(),
        forall|i: int|
            0 <= i < n ==> #[trigger] batch_read(bufs, lens[i] as int, again[i], i, files[i]),
    ensures
        with_batch(entries, bufs, lens, again, n) == with_each(entries, files, n),
    decreases n,
{
    if n > 0 {
        let i = n - 1;
        law_a_batch_finds_what_single_reads_do(entries, bufs, lens, again, files, i as nat);
        assert(batch_read(bufs, lens[i] as int, again[i], i, files[i]));
        if let Some(data) = files[i] {
            if data.len() == 0 {
                assert(data =~= Seq::<u8>::empty());
                lemma_an_empty_file_describes_nothing();
            } else if data.len() < FILE_SLOT {
                assert(data.take(lens[i] as int) =~= data);
            }
        }
    }
}

proof fn lemma_an_empty_file_describes_nothing()
    ensures
        parsed_file(Seq::empty()) is None,
{
    reveal_strlit("Application");
    let none = Seq::<u8>::empty();
    if valid_utf8(none) {
        let content = decode_utf8(none);
        assert(content =~= Seq::<char>::empty());
        let lines = text::pieces(content, '\n');
        assert(lines =~= seq![Seq::<char>::empty()]);
        assert(lines.drop_last() =~= Seq::<Seq<char>>::empty());
        assert(fields_of(lines.drop_last()) == no_fields());
        assert(fields_of(lines) == no_fields());
    }
}

/// An exact match outranks a prefix, a prefix outranks a match anywhere else,
/// and any match outranks none. Within a tier the shorter name ranks no lower.
pub proof fn law_rank_tiers(
    a: Seq<char>,
    a_chars: nat,
    b: Seq<char>,
    b_chars: nat,
    query: Seq<char>,
)
    requires
        query.len() > 0,
    ensures
        a == query && b != query ==> rank(a, a_chars, query) > rank(b, b_chars, query),
        text::has_prefix(a, query) && !text::has_prefix(b, query) ==> rank(a, a_chars, query)
            > rank(b, b_chars, query),
        text::has_substring(a, query) && !text::has_substring(b, query) ==> rank(
            a,
            a_chars,
            query,
        ) > rank(b, b_chars, query),
        rank(a, a_chars, query) > 0 <==> text::has_substring(a, query),
        a != query && b != query && a_chars <= b_chars && text::has_prefix(a, query)
            == text::has_prefix(b, query) && text::has_substring(a, query)
            == text::has_substring(b, query) ==> rank(a, a_chars, query) >= rank(
            b,
            b_chars,
            query,
        ),
{
    if text::has_prefix(a, query) {
        assert(a.skip(0) == a);
        assert(text::has_prefix(a.skip(0), query));
    }
    if text::has_prefix(b, query) {
        assert(b.skip(0) == b);
        assert(text::has_prefix(b.skip(0), query));
    }
    if a == query {
        assert(a.take(query.len() as int) == query);
        assert(a.skip(0) == a);
        assert(text::has_prefix(a.skip(0), query));
    }
    if b == query {
        assert(b.take(query.len() as int) == query);
    }
}

/// Matching ignores case: two spellings of a query with the same lowercase find
/// the same entries with the same relevance.
pub proof fn law_matching_ignores_case(name: Seq<char>, p: Seq<char>, q: Seq<char>)
    requires
        text::lower(p) == text::lower(q),
    ensures
        query_rank(name, p) == query_rank(name, q),
{
}

/// An empty query matches every entry, and nothing outranks anything.
pub proof fn law_an_empty_query_matches_everything(name: Seq<char>)
    ensures
        query_rank(name, Seq::empty()) == 1,
{
}

} // verus!
