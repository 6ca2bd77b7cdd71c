//! What launching an application runs: the argument vector of a desktop entry or
//! of a URL handed to the browser.
use vstd::prelude::*;
use vstd::utf8::*;

use crate::desktop;
use crate::desktop::{exec_argv, DesktopEntry, ARG_CAP, MAX_ARGS};
use crate::platform::arena::{ArrayString, ArrayVec};
use crate::platform::error::{Error, Result};
use crate::platform::text;
use crate::platform::text::{chars_of, starts_with};

verus! {

/// Byte capacity of a URL the launcher builds or opens.
pub const URL_CAP: usize = 2048;

/// Most strings a command runs with: the program and its arguments.
pub const MAX_ARGV: usize = 33;

/// Bytes of an exec token with its terminator.
pub const ARG_CSTR_CAP: usize = 1025;

/// Bytes of a URL with its terminator.
pub const URL_CSTR_CAP: usize = 2049;

/// A command ready to exec: the program then its arguments, each ended by a NUL.
pub type Command<const CAP: usize> = ArrayVec<ArrayString<CAP>, MAX_ARGV>;

/// Strings, each ended by a NUL.
pub open spec fn terminated(args: Seq<Seq<char>>) -> Seq<Seq<char>> {
    Seq::new(args.len(), |i: int| args[i].push('\0'))
}

/// Why a command of these strings cannot be built, with a budget of bytes for
/// each: the first string that is too long, or one too many.
pub open spec fn spawn_error(args: Seq<Seq<char>>, cap: nat) -> Option<Error>
    decreases args.len(),
{
    if args.len() == 0 {
        None
    } else if spawn_error(args.drop_last(), cap) is Some {
        spawn_error(args.drop_last(), cap)
    } else if text::byte_len(args.last()) + 1 > cap {
        Some(Error::of_msg("argument too long"))
    } else if args.len() > MAX_ARGV {
        Some(Error::of_msg("too many arguments"))
    } else {
        None
    }
}

/// Strings short and few enough make a command.
proof fn lemma_spawnable(args: Seq<Seq<char>>, cap: nat)
    requires
        args.len() <= MAX_ARGV,
        forall|i: int| 0 <= i < args.len() ==> text::byte_len(#[trigger] args[i]) < cap,
    ensures
        spawn_error(args, cap) is None,
    decreases args.len(),
{
    if args.len() > 0 {
        lemma_spawnable(args.drop_last(), cap);
        assert(args[args.len() - 1] == args.last());
    }
}

/// An error in the first strings is the error of all of them.
proof fn lemma_spawn_error_stays(args: Seq<Seq<char>>, cap: nat, k: int)
    requires
        0 <= k <= args.len(),
        spawn_error(args.take(k), cap) is Some,
    ensures
        spawn_error(args, cap) == spawn_error(args.take(k), cap),
    decreases args.len() - k,
{
    if k < args.len() {
        assert(args.take(k + 1).drop_last() == args.take(k));
        lemma_spawn_error_stays(args, cap, k + 1);
    } else {
        assert(args.take(k) == args);
    }
}

/// The strings as characters.
pub open spec fn str_texts(args: Seq<&str>) -> Seq<Seq<char>> {
    Seq::new(args.len(), |i: int| args[i]@)
}

fn push_cstr<const CAP: usize>(out: &mut Command<CAP>, s: &str) -> (r: Result<()>)
    requires
        old(out).wf(),
        desktop::all_wf(old(out)@),
    ensures
        final(out).wf(),
        desktop::all_wf(final(out)@),
        text::byte_len(s@) + 1 > CAP ==> r == Err::<(), Error>(Error::of_msg("argument too long")),
        text::byte_len(s@) + 1 <= CAP && old(out)@.len() == MAX_ARGV ==> r == Err::<(), Error>(
            Error::of_msg("too many arguments"),
        ),
        text::byte_len(s@) + 1 <= CAP && old(out)@.len() < MAX_ARGV ==> r == Ok::<(), Error>(())
            && desktop::strings(final(out)@) == desktop::strings(old(out)@).push(s@.push('\0')),
{
    let mut c: ArrayString<CAP> = ArrayString::new();
    proof {
        text::lemma_encode_push(s@, '\0');
        text::lemma_byte_len_bounds(Seq::<char>::empty());
        assert(Seq::<char>::empty() + s@ == s@);
    }
    if c.push_str(s).is_err() || c.push('\0').is_err() {
        return Err(Error::msg("argument too long"));
    }
    let ghost before = out@;
    match out.push(c) {
        Ok(_) => {
            assert(desktop::strings(out@) == desktop::strings(before).push(s@.push('\0')));
            Ok(())
        },
        Err(_) => Err(Error::msg("too many arguments")),
    }
}

/// Build the command that runs a program with arguments. CAP is the budget of
/// bytes for each string, terminator and all.
pub fn spawn<const CAP: usize>(program: &str, args: &[&str]) -> (r: Result<Command<CAP>>)
    ensures
        ({
            let all = seq![program@] + str_texts(args@);
            match spawn_error(all, CAP as nat) {
                Some(e) => r == Err::<Command<CAP>, Error>(e),
                None => r matches Ok(c) && c.wf() && desktop::all_wf(c@) && desktop::strings(c@)
                    == terminated(all),
            }
        }),
{
    let ghost all = seq![program@] + str_texts(args@);
    let mut out: Command<CAP> = ArrayVec::new();
    proof {
        assert(all.take(1) == seq![program@]);
        assert(all.take(1).drop_last() == Seq::<Seq<char>>::empty());
        reveal_with_fuel(spawn_error, 2);
    }
    let first = push_cstr::<CAP>(&mut out, program);
    if let Err(e) = first {
        proof {
            lemma_spawn_error_stays(all, CAP as nat, 1);
        }
        return Err(e);
    }
    assert(desktop::strings(out@) == terminated(all.take(1)));
    let mut i: usize = 0;
    while i < args.len()
        invariant
            i <= args@.len(),
            out.wf(),
            desktop::all_wf(out@),
            all == seq![program@] + str_texts(args@),
            spawn_error(all.take(i + 1), CAP as nat) is None,
            desktop::strings(out@) == terminated(all.take(i + 1)),
        decreases args.len() - i,
    {
        assert(all.take(i + 2).drop_last() == all.take(i + 1));
        assert(all[i + 1] == args@[i as int]@);
        assert(desktop::strings(out@).len() == i + 1);
        let next = push_cstr::<CAP>(&mut out, args[i]);
        if let Err(e) = next {
            proof {
                lemma_spawn_error_stays(all, CAP as nat, i + 2);
            }
            return Err(e);
        }
        assert(desktop::strings(out@) == terminated(all.take(i + 2)));
        i += 1;
    }
    assert(all.take(all.len() as int) == all);
    Ok(out)
}

/// Whether an Exec value tokenizes whole.
pub open spec fn tokenizes(exec: Seq<char>) -> bool {
    desktop::exec_args(exec).len() <= MAX_ARGS && forall|i: int|
        0 <= i < desktop::exec_args(exec).len() ==> text::byte_len(
            #[trigger] desktop::exec_args(exec)[i],
        ) <= ARG_CAP
}

/// The command that launches an application, from its desktop entry.
///
/// The Exec value is tokenized per the Desktop Entry spec and run directly,
/// never through a shell, so quoting metacharacters in a .desktop file cannot
/// run subcommands. One that does not tokenize whole is refused, never trimmed
/// to fit: running a mangled command is worse than not launching.
pub fn launch(entry: &DesktopEntry) -> (r: Result<Command<ARG_CSTR_CAP>>)
    requires
        entry.wf(),
    ensures
        !tokenizes(entry.exec@) ==> r == Err::<Command<ARG_CSTR_CAP>, Error>(
            Error::of_msg("exec command has too many arguments"),
        ),
        tokenizes(entry.exec@) && desktop::exec_args(entry.exec@).len() == 0 ==> r == Err::<
            Command<ARG_CSTR_CAP>,
            Error,
        >(Error::of_msg("empty exec command")),
        tokenizes(entry.exec@) && desktop::exec_args(entry.exec@).len() > 0 ==> (r matches Ok(c)
            && c.wf() && desktop::all_wf(c@) && desktop::strings(c@) == terminated(
            desktop::exec_args(entry.exec@),
        )),
{
    let mut argv: ArrayVec<ArrayString<ARG_CAP>, MAX_ARGS> = ArrayVec::new();
    if exec_argv(entry.exec.as_str(), &mut argv).is_err() {
        return Err(Error::msg("exec command has too many arguments"));
    }
    let ghost all = desktop::exec_args(entry.exec@);
    assert(desktop::strings(argv@).len() == argv@.len());
    if argv.len() == 0 {
        return Err(Error::msg("empty exec command"));
    }
    assert(desktop::strings(argv@)[0] == argv@[0]@);
    let program = argv.as_slice()[0].as_str();
    let mut rest: Vec<&str> = Vec::new();
    let mut i: usize = 1;
    while i < argv.len()
        invariant
            1 <= i <= argv@.len(),
            argv.wf(),
            desktop::all_wf(argv@),
            desktop::strings(argv@) == all,
            str_texts(rest@) == all.subrange(1, i as int),
        decreases argv@.len() - i,
    {
        let ghost before = rest@;
        rest.push(argv.as_slice()[i].as_str());
        assert(desktop::strings(argv@)[i as int] == argv@[i as int]@);
        assert(str_texts(rest@) == str_texts(before).push(all[i as int]));
        assert(all.subrange(1, i + 1) == all.subrange(1, i as int).push(all[i as int]));
        i += 1;
    }
    proof {
        assert(seq![program@] + str_texts(rest@) == all);
        lemma_spawnable(all, ARG_CSTR_CAP as nat);
    }
    spawn::<ARG_CSTR_CAP>(program, rest.as_slice())
}

/// Whether a URL carries a scheme the launcher is willing to open.
pub open spec fn allowed(url: Seq<char>) -> bool {
    ||| text::has_prefix(url, "http://"@)
    ||| text::has_prefix(url, "https://"@)
    ||| text::has_prefix(url, "file://"@)
    ||| text::has_prefix(url, "mailto:"@)
}

fn has_prefix(url: &[char], prefix: &str) -> (r: bool)
    ensures
        r == text::has_prefix(url@, prefix@),
{
    let p = chars_of(prefix);
    starts_with(url, p.as_slice())
}

/// Whether a URL carries a scheme the launcher is willing to open.
pub fn has_allowed_scheme(url: &str) -> (r: bool)
    ensures
        r == allowed(url@),
{
    let u = chars_of(url);
    let u = u.as_slice();
    has_prefix(u, "http://") || has_prefix(u, "https://") || has_prefix(u, "file://") || has_prefix(
        u,
        "mailto:",
    )
}

/// A URL with an allowed scheme does not begin like an option.
proof fn lemma_allowed_is_no_option(url: Seq<char>)
    requires
        allowed(url),
    ensures
        url.len() > 0,
        url[0] != '-',
{
    reveal_strlit("http://");
    reveal_strlit("https://");
    reveal_strlit("file://");
    reveal_strlit("mailto:");
    assert("http://"@[0] == 'h' && "https://"@[0] == 'h' && "file://"@[0] == 'f' && "mailto:"@[0]
        == 'm');
    assert(url.take(7)[0] == url[0]);
    if text::has_prefix(url, "https://"@) {
        assert(url.take(8)[0] == url[0]);
    }
}

/// What opening a URL runs or why it is refused.
pub open spec fn opens(url: Seq<char>, r: Result<Command<URL_CSTR_CAP>>) -> bool {
    if !allowed(url) {
        r == Err::<Command<URL_CSTR_CAP>, Error>(
            Error::of_msg("refusing to open URL with no allowed scheme"),
        )
    } else if text::byte_len(url) > URL_CAP {
        r == Err::<Command<URL_CSTR_CAP>, Error>(Error::of_msg("argument too long"))
    } else {
        r matches Ok(c) && c.wf() && desktop::all_wf(c@) && desktop::strings(c@) == terminated(
            seq!["xdg-open"@, url],
        )
    }
}

/// The command that opens a URL in the user's default browser.
///
/// xdg-open is a shell wrapper, so it is only handed a vetted URL: nothing with
/// a leading dash, which it could read as an option, and nothing without a
/// scheme we are willing to open.
pub fn launch_url(url: &str) -> (r: Result<Command<URL_CSTR_CAP>>)
    ensures
        opens(url@, r),
{
    proof {
        if allowed(url@) {
            lemma_allowed_is_no_option(url@);
        }
    }
    if !has_allowed_scheme(url) || url.get_char(0) == '-' {
        return Err(Error::msg("refusing to open URL with no allowed scheme"));
    }
    let mut args: Vec<&str> = Vec::new();
    args.push(url);
    proof {
        let all = seq!["xdg-open"@, url@];
        assert(seq!["xdg-open"@] + str_texts(args@) == all);
        reveal_strlit("xdg-open");
        text::lemma_byte_len_bounds("xdg-open"@);
        if text::byte_len(url@) <= URL_CAP {
            lemma_spawnable(all, URL_CSTR_CAP as nat);
        } else {
            assert(all.drop_last() == seq!["xdg-open"@]);
            lemma_spawnable(all.drop_last(), URL_CSTR_CAP as nat);
        }
    }
    spawn::<URL_CSTR_CAP>("xdg-open", args.as_slice())
}

/// One URL part after another, until one does not fit.
pub open spec fn appended(out: Seq<char>, parts: Seq<Seq<char>>, cap: nat) -> Seq<char>
    decreases parts.len(),
{
    if parts.len() == 0 || text::byte_len(out) + text::byte_len(parts[0]) > cap {
        out
    } else {
        appended(out + parts[0], parts.drop_first(), cap)
    }
}

/// The parts end to end.
pub open spec fn concat(parts: Seq<Seq<char>>) -> Seq<char>
    decreases parts.len(),
{
    if parts.len() == 0 {
        Seq::empty()
    } else {
        concat(parts.drop_last()) + parts.last()
    }
}

/// The first parts take no more bytes than all of them.
proof fn lemma_concat_grows(parts: Seq<Seq<char>>, k: int)
    requires
        0 <= k <= parts.len(),
    ensures
        text::byte_len(concat(parts.take(k))) <= text::byte_len(concat(parts)),
    decreases parts.len() - k,
{
    if k < parts.len() {
        lemma_concat_grows(parts, k + 1);
        assert(parts.take(k + 1).drop_last() == parts.take(k));
        text::lemma_encode_concat(concat(parts.take(k)), parts[k]);
    } else {
        assert(parts.take(k) == parts);
    }
}

/// The next part goes on the end when there is room for it.
fn push_part<const N: usize>(
    out: &mut ArrayString<N>,
    part: &[char],
    Ghost(first): Ghost<Seq<char>>,
    Ghost(parts): Ghost<Seq<Seq<char>>>,
    Ghost(k): Ghost<int>,
) -> (r: Result<()>)
    requires
        old(out).wf(),
        0 <= k < parts.len(),
        part@ == parts[k],
        old(out)@ == first + concat(parts.take(k)),
    ensures
        final(out).wf(),
        appended(old(out)@, parts.skip(k), N as nat) == appended(
            final(out)@,
            parts.skip(k + 1),
            N as nat,
        ) || r is Err,
        r is Ok ==> final(out)@ == first + concat(parts.take(k + 1)),
        r is Err ==> r == Err::<(), Error>(Error::of_msg("URL too long")) && final(out)@ == appended(
            old(out)@,
            parts.skip(k),
            N as nat,
        ) && text::byte_len(first) + text::byte_len(concat(parts)) > N,
{
    proof {
        assert(parts.take(k + 1).drop_last() == parts.take(k));
        assert(parts.skip(k).drop_first() == parts.skip(k + 1));
        assert((first + concat(parts.take(k))) + parts[k] == first + (concat(parts.take(k))
            + parts[k]));
        text::lemma_encode_concat(first, concat(parts.take(k)));
        text::lemma_encode_concat(concat(parts.take(k)), parts[k]);
        lemma_concat_grows(parts, k + 1);
    }
    if out.push_chars(part).is_err() {
        return Err(url_too_long());
    }
    Ok(())
}

/// The one way these builders fail: the result outgrew its capacity.
fn url_too_long() -> (r: Error)
    ensures
        r == Error::of_msg("URL too long"),
{
    Error::msg("URL too long")
}

/// Whether a byte stands for itself in a URL: a letter, a digit, or one of the
/// four marks.
pub open spec fn unreserved(b: u8) -> bool {
    ||| 0x41 <= b <= 0x5a
    ||| 0x61 <= b <= 0x7a
    ||| 0x30 <= b <= 0x39
    ||| b == 0x2d
    ||| b == 0x2e
    ||| b == 0x5f
    ||| b == 0x7e
}

/// An uppercase hex digit.
pub open spec fn hex_char(d: int) -> char {
    if d < 10 {
        (0x30 + d) as char
    } else {
        (0x41 + d - 10) as char
    }
}

/// A byte as a URL spells it.
pub open spec fn escape(b: u8) -> Seq<char> {
    if unreserved(b) {
        seq![b as char]
    } else {
        seq!['%', hex_char(b as int / 16), hex_char(b as int % 16)]
    }
}

/// Bytes as a URL spells them.
pub open spec fn escapes(bytes: Seq<u8>) -> Seq<Seq<char>> {
    Seq::new(bytes.len(), |i: int| escape(bytes[i]))
}

/// Some text percent-encoded.
pub open spec fn encoded(s: Seq<char>) -> Seq<char> {
    concat(escapes(encode_utf8(s)))
}

fn hex_digit(d: u8) -> (r: char)
    requires
        d < 16,
    ensures
        r == hex_char(d as int),
{
    if d < 10 {
        (0x30 + d) as char
    } else {
        (0x41 + (d - 10)) as char
    }
}

/// Percent-encode a string per RFC 3986: only unreserved characters
/// (ALPHA, DIGIT, and the four marks - . _ ~) pass through unchanged.
///
/// An escape is appended whole or not at all, so a buffer with room for only
/// part of it takes none of it: a URL cut mid-escape asks for something other
/// than what the user typed.
pub fn percent_encode<const N: usize>(s: &str, out: &mut ArrayString<N>) -> (r: Result<()>)
    requires
        old(out).wf(),
    ensures
        final(out).wf(),
        final(out)@ == appended(old(out)@, escapes(encode_utf8(s@)), N as nat),
        text::byte_len(old(out)@) + text::byte_len(encoded(s@)) <= N ==> r == Ok::<(), Error>(())
            && final(out)@ == old(out)@ + encoded(s@),
        text::byte_len(old(out)@) + text::byte_len(encoded(s@)) > N ==> r == Err::<(), Error>(
            Error::of_msg("URL too long"),
        ),
{
    let bytes = s.as_bytes();
    let ghost parts = escapes(bytes@);
    let ghost first = out@;
    let mut i: usize = 0;
    proof {
        assert(parts.take(0).len() == 0);
        assert(first + Seq::<char>::empty() == first);
        assert(parts.skip(0) == parts);
        out.lemma_wf();
    }
    while i < bytes.len()
        invariant
            i <= bytes@.len(),
            out.wf(),
            parts == escapes(bytes@),
            bytes@ == encode_utf8(s@),
            first == old(out)@,
            out@ == first + concat(parts.take(i as int)),
            appended(first, parts, N as nat) == appended(out@, parts.skip(i as int), N as nat),
        decreases bytes.len() - i,
    {
        let b: u8 = bytes[i];
        let mut part: Vec<char> = Vec::new();
        if (0x41 <= b && b <= 0x5a) || (0x61 <= b && b <= 0x7a) || (0x30 <= b && b <= 0x39) || b
            == 0x2d || b == 0x2e || b == 0x5f || b == 0x7e {
            part.push(b as char);
        } else {
            part.push('%');
            part.push(hex_digit(b / 16));
            part.push(hex_digit(b % 16));
        }
        assert(part@ == parts[i as int]);
        let ghost k = i as int;
        push_part::<N>(out, part.as_slice(), Ghost(first), Ghost(parts), Ghost(k))?;
        i += 1;
    }
    proof {
        assert(parts.take(i as int) == parts);
        text::lemma_encode_concat(first, concat(parts));
        out.lemma_wf();
    }
    Ok(())
}

/// Where a template's first %s is, or its length without one.
pub open spec fn place_of(t: Seq<char>) -> int
    decreases t.len(),
{
    if t.len() < 2 {
        t.len() as int
    } else if t[0] == '%' && t[1] == 's' {
        0
    } else {
        1 + place_of(t.drop_first())
    }
}

/// A template with the encoded query at its first %s, or at the end without one.
pub open spec fn substituted(t: Seq<char>, query: Seq<char>) -> Seq<char> {
    let p = place_of(t);
    if p < t.len() {
        t.take(p) + query + t.skip(p + 2)
    } else {
        t + query
    }
}

/// The parts a search URL is put together from.
pub open spec fn search_parts(t: Seq<char>, query: Seq<char>) -> Seq<Seq<char>> {
    let p = place_of(t);
    if p < t.len() {
        seq![t.take(p), query, t.skip(p + 2)]
    } else {
        seq![t, query]
    }
}

proof fn lemma_place_of(t: Seq<char>)
    ensures
        0 <= place_of(t) <= t.len(),
        place_of(t) < t.len() ==> place_of(t) + 2 <= t.len() && t[place_of(t)] == '%' && t[place_of(
            t,
        ) + 1] == 's',
    decreases t.len(),
{
    if t.len() >= 2 {
        lemma_place_of(t.drop_first());
    }
}

proof fn lemma_parts_spell_the_url(t: Seq<char>, query: Seq<char>)
    ensures
        concat(search_parts(t, query)) == substituted(t, query),
{
    reveal_with_fuel(concat, 4);
    let parts = search_parts(t, query);
    let p = place_of(t);
    if p < t.len() {
        assert(parts.drop_last().drop_last() == seq![t.take(p)]);
        assert(parts.drop_last().drop_last().drop_last().len() == 0);
        assert(concat(parts.drop_last().drop_last()) == t.take(p));
    } else {
        assert(parts.drop_last() == seq![t]);
        assert(parts.drop_last().drop_last().len() == 0);
        assert(concat(parts.drop_last()) == t);
    }
}

fn find_placeholder(t: &[char]) -> (r: Option<usize>)
    ensures
        r is Some <==> place_of(t@) < t@.len(),
        r matches Some(p) ==> p == place_of(t@),
{
    let n: usize = t.len();
    let mut i: usize = 0;
    assert(t@.skip(0) == t@);
    while n - i >= 2
        invariant
            i <= n == t@.len(),
            place_of(t@) == i + place_of(t@.skip(i as int)),
        decreases t@.len() - i,
    {
        assert(t@.skip(i as int).drop_first() == t@.skip(i + 1));
        if t[i] == '%' && t[i + 1] == 's' {
            return Some(i);
        }
        i += 1;
    }
    None
}

/// Substitute the percent-encoded query into the search URL: replace the first
/// %s, or append it when the template has no placeholder.
///
/// Err when the result does not fit. A truncated URL is not a shorter search,
/// it is a different one: the cut can land mid percent-escape and change the
/// query, or lop the tail off the template.
pub fn build_search_url(template: &str, query: &str, out: &mut ArrayString<URL_CAP>) -> (r: Result<
    (),
>)
    requires
        old(out).wf(),
    ensures
        final(out).wf(),
        final(out)@ == if text::byte_len(encoded(query@)) <= URL_CAP {
            appended(old(out)@, search_parts(template@, encoded(query@)), URL_CAP as nat)
        } else {
            old(out)@
        },
        text::byte_len(old(out)@) + text::byte_len(substituted(template@, encoded(query@)))
            <= URL_CAP ==> r == Ok::<(), Error>(()) && final(out)@ == old(out)@ + substituted(
            template@,
            encoded(query@),
        ),
        text::byte_len(old(out)@) + text::byte_len(substituted(template@, encoded(query@))) > URL_CAP
            ==> r == Err::<(), Error>(Error::of_msg("URL too long")),
{
    let mut enc: ArrayString<URL_CAP> = ArrayString::new();
    let ghost parts = search_parts(template@, encoded(query@));
    let ghost first = out@;
    proof {
        lemma_parts_spell_the_url(template@, encoded(query@));
        lemma_place_of(template@);
        text::lemma_byte_len_bounds(Seq::<char>::empty());
        assert(Seq::<char>::empty() + encoded(query@) == encoded(query@));
        lemma_concat_grows(parts, 2);
        assert(parts.take(2).drop_last() == parts.take(1));
        text::lemma_encode_concat(concat(parts.take(1)), encoded(query@));
        assert(parts.take(0).len() == 0);
        assert(first + Seq::<char>::empty() == first);
        assert(parts.skip(0) == parts);
        out.lemma_wf();
    }
    percent_encode(query, &mut enc)?;
    let enc = chars_of(enc.as_str());
    let t = chars_of(template);
    let t = t.as_slice();
    if let Some(pos) = find_placeholder(t) {
        let head = vstd::slice::slice_subrange(t, 0, pos);
        let n: usize = t.len();
        let tail = vstd::slice::slice_subrange(t, pos + 2, n);
        assert(head@ == parts[0]);
        assert(tail@ == parts[2]);
        push_part(out, head, Ghost(first), Ghost(parts), Ghost(0int))?;
        push_part(out, enc.as_slice(), Ghost(first), Ghost(parts), Ghost(1int))?;
        push_part(out, tail, Ghost(first), Ghost(parts), Ghost(2int))?;
        assert(parts.take(3) == parts);
    } else {
        push_part(out, t, Ghost(first), Ghost(parts), Ghost(0int))?;
        push_part(out, enc.as_slice(), Ghost(first), Ghost(parts), Ghost(1int))?;
        assert(parts.take(2) == parts);
    }
    proof {
        text::lemma_encode_concat(first, concat(parts));
        out.lemma_wf();
    }
    Ok(())
}

/// Whether a result is what a web search gives: a URL that fits is opened.
pub open spec fn searches(
    search_url: Seq<char>,
    query: Seq<char>,
    r: Result<Command<URL_CSTR_CAP>>,
) -> bool {
    let url = substituted(search_url, encoded(query));
    if text::byte_len(url) > URL_CAP {
        r == Err::<Command<URL_CSTR_CAP>, Error>(Error::of_msg("URL too long"))
    } else {
        opens(url, r)
    }
}

/// The command that opens a web search for the given query using the configured
/// search URL.
pub fn launch_search(search_url: &str, query: &str) -> (r: Result<Command<URL_CSTR_CAP>>)
    ensures
        searches(search_url@, query@, r),
{
    let mut url: ArrayString<URL_CAP> = ArrayString::new();
    proof {
        text::lemma_byte_len_bounds(Seq::<char>::empty());
        let all = substituted(search_url@, encoded(query@));
        assert(Seq::<char>::empty() + all == all);
    }
    match build_search_url(search_url, query, &mut url) {
        Ok(_) => launch_url(url.as_str()),
        Err(e) => Err(e),
    }
}

/// The value of a hex digit.
pub open spec fn hex_value(c: char) -> int {
    if c <= '9' {
        c as int - 0x30
    } else {
        c as int - 0x41 + 10
    }
}

/// The bytes a percent-encoded string stands for.
pub open spec fn decoded(s: Seq<char>) -> Seq<u8>
    decreases s.len(),
{
    if s.len() == 0 {
        Seq::empty()
    } else if s[0] == '%' && s.len() >= 3 {
        seq![(16 * hex_value(s[1]) + hex_value(s[2])) as u8] + decoded(s.skip(3))
    } else {
        seq![s[0] as u8] + decoded(s.skip(1))
    }
}

proof fn lemma_concat_first(parts: Seq<Seq<char>>)
    requires
        parts.len() > 0,
    ensures
        concat(parts) == parts[0] + concat(parts.drop_first()),
    decreases parts.len(),
{
    reveal_with_fuel(concat, 2);
    if parts.len() == 1 {
        assert(parts.drop_last().len() == 0);
        assert(parts.drop_first().len() == 0);
        assert(concat(parts) == parts[0] + Seq::<char>::empty());
    } else {
        lemma_concat_first(parts.drop_last());
        assert(parts.drop_last().drop_first() == parts.drop_first().drop_last());
        assert(parts[0] + (concat(parts.drop_first().drop_last()) + parts.last()) == (parts[0]
            + concat(parts.drop_first().drop_last())) + parts.last());
    }
}

proof fn lemma_escapes_decode(bytes: Seq<u8>)
    ensures
        decoded(concat(escapes(bytes))) == bytes,
    decreases bytes.len(),
{
    let parts = escapes(bytes);
    if bytes.len() == 0 {
    } else {
        let b = bytes[0];
        let rest = concat(parts.drop_first());
        lemma_concat_first(parts);
        assert(parts.drop_first() == escapes(bytes.drop_first()));
        lemma_escapes_decode(bytes.drop_first());
        let all = escape(b) + rest;
        if unreserved(b) {
            assert(all.skip(1) == rest);
        } else {
            assert(all.skip(3) == rest);
            assert(hex_value(hex_char(b as int / 16)) == b as int / 16);
            assert(hex_value(hex_char(b as int % 16)) == b as int % 16);
        }
        assert(seq![b] + bytes.drop_first() == bytes);
    }
}

/// Percent-encoding loses nothing: the query's bytes read back out of the URL.
pub proof fn law_percent_encoding_is_reversible(s: Seq<char>)
    ensures
        decoded(encoded(s)) == encode_utf8(s),
{
    lemma_escapes_decode(encode_utf8(s));
}

proof fn lemma_escapes_are_plain(bytes: Seq<u8>, i: int)
    requires
        0 <= i < concat(escapes(bytes)).len(),
    ensures
        plain(concat(escapes(bytes))[i]),
    decreases bytes.len(),
{
    let parts = escapes(bytes);
    if bytes.len() > 0 {
        assert(parts.drop_last() == escapes(bytes.drop_last()));
        let n = concat(parts.drop_last()).len();
        if i < n {
            lemma_escapes_are_plain(bytes.drop_last(), i);
        } else {
            let b = bytes.last();
            assert(concat(parts)[i] == escape(b)[i - n]);
            if !unreserved(b) {
                let hi = b as int / 16;
                let lo = b as int % 16;
                assert(plain(hex_char(hi)) && plain(hex_char(lo)));
            }
        }
    }
}

/// Whether a character is one an encoded query is made of.
pub open spec fn plain(c: char) -> bool {
    c == '%' || (c <= '\u{7f}' && unreserved(c as u8))
}

/// An encoded query is made of unreserved characters and escapes alone, so
/// nothing typed can add a separator to the URL.
pub proof fn law_encoded_queries_are_plain(s: Seq<char>)
    ensures
        forall|i: int| 0 <= i < encoded(s).len() ==> plain(#[trigger] encoded(s)[i]),
{
    assert forall|i: int| 0 <= i < encoded(s).len() implies plain(#[trigger] encoded(s)[i]) by {
        lemma_escapes_are_plain(encode_utf8(s), i);
    }
}

proof fn lemma_prefix_kept(t: Seq<char>, query: Seq<char>, prefix: Seq<char>)
    requires
        text::has_prefix(t, prefix),
        forall|i: int| 0 <= i < prefix.len() ==> prefix[i] != '%',
    ensures
        text::has_prefix(substituted(t, query), prefix),
{
    lemma_place_of(t);
    let p = place_of(t);
    let u = substituted(t, query);
    if p < prefix.len() {
        assert(t.take(prefix.len() as int)[p] == prefix[p]);
    }
    assert(u.take(prefix.len() as int) == t.take(prefix.len() as int));
}

/// A search with an allowed template is an allowed search: the query cannot
/// change the scheme.
pub proof fn law_a_search_keeps_its_scheme(template: Seq<char>, query: Seq<char>)
    requires
        allowed(template),
    ensures
        allowed(substituted(template, encoded(query))),
{
    reveal_strlit("http://");
    reveal_strlit("https://");
    reveal_strlit("file://");
    reveal_strlit("mailto:");
    let enc = encoded(query);
    if text::has_prefix(template, "http://"@) {
        lemma_prefix_kept(template, enc, "http://"@);
    } else if text::has_prefix(template, "https://"@) {
        lemma_prefix_kept(template, enc, "https://"@);
    } else if text::has_prefix(template, "file://"@) {
        lemma_prefix_kept(template, enc, "file://"@);
    } else {
        lemma_prefix_kept(template, enc, "mailto:"@);
    }
}

} // verus!
