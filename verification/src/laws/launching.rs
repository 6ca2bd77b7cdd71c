//! What an input asks for, and the command line that comes of it.
use vstd::prelude::*;
use vstd::utf8::*;

use crate::action;
use crate::action::ActionView;
use crate::desktop;
use crate::laws::search;
use crate::laws::strings;
use crate::launch;
use crate::launch::{Command, URL_CSTR_CAP};
use crate::platform::error::Result;
use crate::platform::text;

verus! {

/// Text behind `u:` is a URL to open, and behind `s:`, where a search is
/// configured, a query to search for, without the white space around it.
/// Anything else, and `s:` without a search, searches the applications for all
/// of what was typed.
pub proof fn law_the_prefixes_of_an_input(
    before: Seq<char>,
    middle: Seq<char>,
    after: Seq<char>,
    input: Seq<char>,
    enabled: bool,
)
    requires
        strings::all_white(before),
        strings::all_white(after),
        middle.len() > 0 ==> !strings::white_space().contains(middle[0])
            && !strings::white_space().contains(middle.last()),
    ensures
        ({
            let rest = before + middle + after;
            &&& action::action_of(seq!['u', ':'] + rest, enabled) == ActionView::OpenUrl(middle)
            &&& action::action_of(seq!['s', ':'] + rest, true) == ActionView::Search(middle)
            &&& action::action_of(seq!['s', ':'] + rest, false) == ActionView::AppSearch(
                seq!['s', ':'] + rest,
            )
        }),
        !(input.len() >= 2 && (input[0] == 'u' || input[0] == 's') && input[1] == ':')
            ==> action::action_of(input, enabled) == ActionView::AppSearch(input),
{
    reveal_strlit("s:");
    reveal_strlit("u:");
    let rest = before + middle + after;
    let u = seq!['u', ':'] + rest;
    let s = seq!['s', ':'] + rest;
    strings::law_trimming_undoes_padding(before, middle, after);
    assert(u.skip(2) =~= rest);
    assert(s.skip(2) =~= rest);
    assert(u.take(2) =~= "u:"@);
    assert(s.take(2) =~= "s:"@);
    assert(u.take(2)[0] == 'u');
    assert(s.take(2)[0] == 's');
    assert("s:"@[0] == 's' && "u:"@[0] == 'u' && "s:"@[1] == ':' && "u:"@[1] == ':');
    if text::has_prefix(input, "u:"@) {
        assert(input.take(2)[0] == input[0] && input.take(2)[1] == input[1]);
    }
    if text::has_prefix(input, "s:"@) {
        assert(input.take(2)[0] == input[0] && input.take(2)[1] == input[1]);
    }
}

/// A URL with `://` in it is left as it is, and any other gets `https://` before
/// it.
pub proof fn law_a_url_without_a_scheme_is_https(url: Seq<char>)
    requires
        encode_utf8(url).len() + 8 <= 2048,
    ensures
        search::holds(url, seq![':', '/', '/']) ==> action::normalized(Seq::empty(), url) == url,
        !search::holds(url, seq![':', '/', '/']) ==> action::normalized(Seq::empty(), url)
            == seq!['h', 't', 't', 'p', 's', ':', '/', '/'] + url,
{
    reveal_strlit("://");
    reveal_strlit("https://");
    let none = Seq::<char>::empty();
    let sep = seq![':', '/', '/'];
    let https = seq!['h', 't', 't', 'p', 's', ':', '/', '/'];
    assert("://"@ =~= sep);
    assert("https://"@ =~= https);
    strings::law_prefixes_and_substrings(url, sep);
    text::lemma_byte_len_bounds(none);
    assert forall|i: int| 0 <= i < https.len() implies #[trigger] https[i] as u32 <= 0x7f by {
        assert(i == 0 || i == 1 || i == 2 || i == 3 || i == 4 || i == 5 || i == 6 || i == 7);
    }
    text::lemma_ascii_len(https);
    assert(none + url =~= url);
    assert(none + https =~= https);
}

/// The URLs that are opened are those of the web, of files and of mail, and no
/// others.
pub proof fn law_the_schemes_that_are_opened(url: Seq<char>)
    ensures
        launch::allowed(url) <==> search::begins(url, seq!['h', 't', 't', 'p', ':', '/', '/'])
            || search::begins(url, seq!['h', 't', 't', 'p', 's', ':', '/', '/']) || search::begins(
            url,
            seq!['f', 'i', 'l', 'e', ':', '/', '/'],
        ) || search::begins(url, seq!['m', 'a', 'i', 'l', 't', 'o', ':']),
{
    reveal_strlit("http://");
    reveal_strlit("https://");
    reveal_strlit("file://");
    reveal_strlit("mailto:");
    let a = seq!['h', 't', 't', 'p', ':', '/', '/'];
    let b = seq!['h', 't', 't', 'p', 's', ':', '/', '/'];
    let c = seq!['f', 'i', 'l', 'e', ':', '/', '/'];
    let d = seq!['m', 'a', 'i', 'l', 't', 'o', ':'];
    assert("http://"@ =~= a);
    assert("https://"@ =~= b);
    assert("file://"@ =~= c);
    assert("mailto:"@ =~= d);
    strings::law_prefixes_and_substrings(url, a);
    strings::law_prefixes_and_substrings(url, b);
    strings::law_prefixes_and_substrings(url, c);
    strings::law_prefixes_and_substrings(url, d);
}

/// An allowed URL that fits is opened by one command of two strings: xdg-open
/// and the URL as it is, each with a NUL behind it. Any other runs nothing.
pub proof fn law_opening_a_url_runs_one_command(
    url: Seq<char>,
    r: Result<Command<URL_CSTR_CAP>>,
)
    requires
        launch::opens(url, r),
    ensures
        launch::allowed(url) && encode_utf8(url).len() <= 2048 <==> r is Ok,
        r matches Ok(c) ==> desktop::strings(c@) == seq![
            seq!['x', 'd', 'g', '-', 'o', 'p', 'e', 'n', '\0'],
            url + seq!['\0'],
        ],
{
    reveal_strlit("xdg-open");
    if let Ok(c) = r {
        let want = launch::terminated(seq!["xdg-open"@, url]);
        assert("xdg-open"@.push('\0') =~= seq!['x', 'd', 'g', '-', 'o', 'p', 'e', 'n', '\0']);
        assert(url.push('\0') =~= url + seq!['\0']);
        assert(want =~= seq![
            seq!['x', 'd', 'g', '-', 'o', 'p', 'e', 'n', '\0'],
            url + seq!['\0'],
        ]);
    }
}

/// Strings make a command exactly when there are no more than the most it runs
/// with and each has room for itself and a NUL.
pub proof fn law_a_command_holds_what_fits(args: Seq<Seq<char>>, cap: nat)
    ensures
        launch::spawn_error(args, cap) is None <==> args.len() <= 33 && forall|i: int|
            0 <= i < args.len() ==> encode_utf8(#[trigger] args[i]).len() < cap,
    decreases args.len(),
{
    if args.len() > 0 {
        let less = args.drop_last();
        law_a_command_holds_what_fits(less, cap);
        assert(args[args.len() - 1] == args.last());
        if launch::spawn_error(args, cap) is None {
            assert forall|i: int| 0 <= i < args.len() implies encode_utf8(#[trigger] args[i]).len()
                < cap by {
                if i < less.len() {
                    assert(less[i] == args[i]);
                }
            }
        }
        if args.len() <= 33 && forall|i: int|
            0 <= i < args.len() ==> encode_utf8(#[trigger] args[i]).len() < cap {
            assert forall|i: int| 0 <= i < less.len() implies encode_utf8(#[trigger] less[i]).len()
                < cap by {
                assert(less[i] == args[i]);
            }
        }
    }
}

/// A text has `%s` nowhere in it.
pub open spec fn no_place(s: Seq<char>) -> bool {
    forall|i: int| 0 <= i < s.len() - 1 ==> !(#[trigger] s[i] == '%' && s[i + 1] == 's')
}

proof fn lemma_place(a: Seq<char>, b: Seq<char>)
    requires
        no_place(a),
    ensures
        launch::place_of(a + seq!['%', 's'] + b) == a.len(),
        launch::place_of(a) == a.len(),
    decreases a.len(),
{
    let t = a + seq!['%', 's'] + b;
    if a.len() == 0 {
        assert(t[0] == '%' && t[1] == 's');
    } else {
        let more = a.drop_first();
        assert forall|i: int| 0 <= i < more.len() - 1 implies !(#[trigger] more[i] == '%' && more[i
            + 1] == 's') by {
            assert(more[i] == a[i + 1]);
        }
        lemma_place(more, b);
        assert(t.drop_first() =~= more + seq!['%', 's'] + b);
        assert(t[0] == a[0]);
        if a.len() > 1 {
            assert(t[1] == a[1]);
        } else {
            assert(t[1] == '%');
        }
    }
}

/// The query takes the place of the first `%s` of the template, and stands at
/// the end of a template without one.
pub proof fn law_the_query_takes_the_first_place(a: Seq<char>, b: Seq<char>, query: Seq<char>)
    requires
        no_place(a),
    ensures
        launch::substituted(a + seq!['%', 's'] + b, query) == a + query + b,
        launch::substituted(a, query) == a + query,
{
    lemma_place(a, b);
    let t = a + seq!['%', 's'] + b;
    assert(t.take(a.len() as int) =~= a);
    assert(t.skip(a.len() as int + 2) =~= b);
}

/// A query is encoded byte by byte: letters, digits and the four marks as they
/// are, every other byte as a percent sign and two capital hex digits.
pub proof fn law_a_query_is_encoded_byte_by_byte(a: Seq<char>, b: Seq<char>, n: u8)
    ensures
        launch::encoded(a + b) == launch::encoded(a) + launch::encoded(b),
        launch::encoded(a) == launch::concat(
            Seq::new(encode_utf8(a).len(), |i: int| launch::escape(encode_utf8(a)[i])),
        ),
        ({
            let c = n as char;
            let kept = 'a' <= c <= 'z' || 'A' <= c <= 'Z' || '0' <= c <= '9' || c == '-' || c
                == '.' || c == '_' || c == '~';
            let digits = seq![
                '0',
                '1',
                '2',
                '3',
                '4',
                '5',
                '6',
                '7',
                '8',
                '9',
                'A',
                'B',
                'C',
                'D',
                'E',
                'F',
            ];
            &&& kept ==> launch::escape(n) == seq![c]
            &&& !kept ==> launch::escape(n) == seq![
                '%',
                digits[n as int / 16],
                digits[n as int % 16],
            ]
        }),
{
    text::lemma_encode_concat(a, b);
    let (x, y) = (encode_utf8(a), encode_utf8(b));
    lemma_concat(launch::escapes(x), launch::escapes(y));
    assert(launch::escapes(x + y) =~= launch::escapes(x) + launch::escapes(y));
    assert(launch::escapes(x) =~= Seq::new(x.len(), |i: int| launch::escape(x[i])));
    let digits = seq!['0', '1', '2', '3', '4', '5', '6', '7', '8', '9', 'A', 'B', 'C', 'D', 'E', 'F'];
    assert forall|d: int| 0 <= d < 16 implies launch::hex_char(d) == #[trigger] digits[d] by {
        if d < 10 {
            assert(digits[d] as int == 0x30 + d);
        } else {
            assert(digits[d] as int == 0x41 + d - 10);
        }
    }
    assert(launch::hex_char(n as int / 16) == digits[n as int / 16]);
    assert(launch::hex_char(n as int % 16) == digits[n as int % 16]);
}

proof fn lemma_concat(a: Seq<Seq<char>>, b: Seq<Seq<char>>)
    ensures
        launch::concat(a + b) == launch::concat(a) + launch::concat(b),
    decreases b.len(),
{
    if b.len() == 0 {
        assert(a + b =~= a);
        assert(launch::concat(a) + launch::concat(b) =~= launch::concat(a));
    } else {
        lemma_concat(a, b.drop_last());
        assert((a + b).drop_last() =~= a + b.drop_last());
        assert(launch::concat(a + b) =~= launch::concat(a) + launch::concat(b));
    }
}

/// The parts of a text end to end.
pub proof fn law_the_parts_end_to_end(a: Seq<Seq<char>>, b: Seq<Seq<char>>, s: Seq<char>)
    ensures
        launch::concat(a + b) == launch::concat(a) + launch::concat(b),
        launch::concat(seq![s]) == s,
        launch::concat(Seq::empty()) == Seq::<char>::empty(),
{
    lemma_concat(a, b);
    reveal_with_fuel(launch::concat, 2);
    assert(seq![s].drop_last() =~= Seq::<Seq<char>>::empty());
    assert(Seq::<char>::empty() + s =~= s);
}

/// A search opens the template with the encoded query in its place, and a URL
/// that does not fit opens nothing.
pub proof fn law_a_search_opens_the_template_with_the_query(
    a: Seq<char>,
    b: Seq<char>,
    query: Seq<char>,
    r: Result<Command<URL_CSTR_CAP>>,
)
    requires
        no_place(a),
        launch::searches(a + seq!['%', 's'] + b, query, r),
    ensures
        ({
            let url = a + launch::encoded(query) + b;
            &&& encode_utf8(url).len() <= 2048 && launch::allowed(url) <==> r is Ok
            &&& r matches Ok(c) ==> desktop::strings(c@).len() == 2 && desktop::strings(c@)[1]
                == url + seq!['\0']
        }),
{
    law_the_query_takes_the_first_place(a, b, launch::encoded(query));
    let url = a + launch::encoded(query) + b;
    if encode_utf8(url).len() <= 2048 {
        law_opening_a_url_runs_one_command(url, r);
    }
}

/// An application's command is run only whole: with no more arguments than may be
/// taken and each short enough; every string it runs with has a NUL behind it.
pub proof fn law_a_command_is_run_whole(exec: Seq<char>, args: Seq<Seq<char>>, i: int)
    requires
        0 <= i < args.len(),
    ensures
        launch::tokenizes(exec) <==> desktop::exec_args(exec).len() <= 32 && forall|k: int|
            0 <= k < desktop::exec_args(exec).len() ==> encode_utf8(
                #[trigger] desktop::exec_args(exec)[k],
            ).len() <= 1024,
        launch::terminated(args).len() == args.len(),
        launch::terminated(args)[i] == args[i] + seq!['\0'],
{
    assert(args[i].push('\0') =~= args[i] + seq!['\0']);
}

/// Of the parts of a URL those before the first that does not fit are put down,
/// one behind the other, and nothing of that one or behind it.
pub proof fn law_a_part_goes_down_whole_or_not_at_all(
    out: Seq<char>,
    parts: Seq<Seq<char>>,
    cap: nat,
)
    requires
        encode_utf8(out).len() <= cap,
    ensures
        exists|k: int|
            0 <= k <= parts.len() && launch::appended(out, parts, cap) == out + launch::concat(
                #[trigger] parts.take(k),
            ) && encode_utf8(out + launch::concat(parts.take(k))).len() <= cap && (k < parts.len()
                ==> encode_utf8(out + launch::concat(parts.take(k)) + parts[k]).len() > cap),
    decreases parts.len(),
{
    assert(parts.take(0) =~= Seq::<Seq<char>>::empty());
    assert(out + launch::concat(parts.take(0)) =~= out);
    if parts.len() > 0 {
        text::lemma_encode_concat(out, parts[0]);
        if encode_utf8(out + parts[0]).len() <= cap {
            let rest = parts.drop_first();
            law_a_part_goes_down_whole_or_not_at_all(out + parts[0], rest, cap);
            let k = choose|k: int|
                0 <= k <= rest.len() && launch::appended(out + parts[0], rest, cap) == out
                    + parts[0] + launch::concat(#[trigger] rest.take(k)) && encode_utf8(
                    out + parts[0] + launch::concat(rest.take(k)),
                ).len() <= cap && (k < rest.len() ==> encode_utf8(
                    out + parts[0] + launch::concat(rest.take(k)) + rest[k],
                ).len() > cap);
            law_the_parts_end_to_end(seq![parts[0]], rest.take(k), parts[0]);
            assert(parts.take(k + 1) =~= seq![parts[0]] + rest.take(k));
            assert(out + launch::concat(parts.take(k + 1)) =~= out + parts[0] + launch::concat(
                rest.take(k),
            ));
            if k < rest.len() {
                assert(rest[k] == parts[k + 1]);
            }
        }
    }
}

} // verus!
