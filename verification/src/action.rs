//! What the input text stands for: an application search, a web search, or a URL
//! to open.
use vstd::prelude::*;

use crate::launch::URL_CAP;
use crate::platform::arena::ArrayString;
use crate::platform::text;
use crate::platform::text::{chars_of, contains, starts_with, sub_str, trim_span};

verus! {

/// What the current input text resolves to when launched.
pub enum InputAction<'a> {
    /// s:<query> runs a web search for the trimmed query via the configured
    /// search URL. Only produced when a search URL is set.
    Search(&'a str),
    /// u:<url> opens the trimmed URL (https:// prepended if no scheme).
    OpenUrl(&'a str),
    /// Anything else searches desktop entries by the raw input.
    AppSearch(&'a str),
}

/// What an action holds.
pub enum ActionView {
    Search(Seq<char>),
    OpenUrl(Seq<char>),
    AppSearch(Seq<char>),
}

impl<'a> View for InputAction<'a> {
    type V = ActionView;

    open spec fn view(&self) -> ActionView {
        match self {
            InputAction::Search(q) => ActionView::Search(q@),
            InputAction::OpenUrl(u) => ActionView::OpenUrl(u@),
            InputAction::AppSearch(q) => ActionView::AppSearch(q@),
        }
    }
}

/// What an input stands for.
pub open spec fn action_of(input: Seq<char>, search_enabled: bool) -> ActionView {
    if search_enabled && text::has_prefix(input, "s:"@) {
        ActionView::Search(text::trimmed(input.skip(2)))
    } else if text::has_prefix(input, "u:"@) {
        ActionView::OpenUrl(text::trimmed(input.skip(2)))
    } else {
        ActionView::AppSearch(input)
    }
}

/// The rest of an input behind a two-character prefix, without the whitespace
/// around it.
fn after_prefix<'a>(input: &'a str, chars: &[char]) -> (r: &'a str)
    requires
        chars@ == input@,
        input@.len() >= 2,
    ensures
        r@ == text::trimmed(input@.skip(2)),
{
    let n: usize = chars.len();
    let rest = vstd::slice::slice_subrange(chars, 2, n);
    assert(rest@ =~= input@.skip(2));
    let (a, b) = trim_span(rest);
    let r = sub_str(input, 2 + a, 2 + b);
    assert(input@.subrange(2 + a, 2 + b) =~= input@.skip(2).subrange(a as int, b as int));
    r
}

/// Read the input as the action it stands for.
pub fn parse_action(input: &str, search_enabled: bool) -> (r: InputAction<'_>)
    ensures
        r@ == action_of(input@, search_enabled),
{
    let chars = chars_of(input);
    let chars = chars.as_slice();
    proof {
        reveal_strlit("s:");
        reveal_strlit("u:");
    }
    if search_enabled {
        let p = chars_of("s:");
        if starts_with(chars, p.as_slice()) {
            return InputAction::Search(after_prefix(input, chars));
        }
    }
    let p = chars_of("u:");
    if starts_with(chars, p.as_slice()) {
        InputAction::OpenUrl(after_prefix(input, chars))
    } else {
        InputAction::AppSearch(input)
    }
}

/// A string with another behind it, when it fits.
pub open spec fn with_str(out: Seq<char>, s: Seq<char>, cap: nat) -> Seq<char> {
    if text::byte_len(out) + text::byte_len(s) <= cap {
        out + s
    } else {
        out
    }
}

/// A URL with a scheme, behind what is there already.
pub open spec fn normalized(out: Seq<char>, url: Seq<char>) -> Seq<char> {
    if text::has_substring(url, "://"@) {
        with_str(out, url, URL_CAP as nat)
    } else {
        with_str(with_str(out, "https://"@, URL_CAP as nat), url, URL_CAP as nat)
    }
}

/// Prepend https:// if the URL has no scheme, into out.
pub fn normalize_url(url: &str, out: &mut ArrayString<URL_CAP>)
    requires
        old(out).wf(),
    ensures
        final(out).wf(),
        final(out)@ == normalized(old(out)@, url@),
{
    let u = chars_of(url);
    let sep = chars_of("://");
    if !contains(u.as_slice(), sep.as_slice()) {
        let _ = out.push_str("https://");
    }
    let _ = out.push_str(url);
}

/// A URL that fits comes out with a scheme, and one that has a scheme comes out
/// as it is.
pub proof fn law_a_normalized_url_has_a_scheme(url: Seq<char>)
    requires
        text::byte_len(url) + 8 <= URL_CAP,
    ensures
        text::has_substring(normalized(Seq::empty(), url), "://"@),
        text::has_substring(url, "://"@) ==> normalized(Seq::empty(), url) == url,
        normalized(Seq::empty(), normalized(Seq::empty(), url)) == normalized(Seq::empty(), url),
{
    let https = "https://"@;
    let sep = "://"@;
    reveal_strlit("https://");
    reveal_strlit("://");
    text::lemma_byte_len_bounds(Seq::<char>::empty());
    lemma_https_bytes();
    assert(Seq::<char>::empty() + url =~= url);
    assert(Seq::<char>::empty() + https =~= https);
    let n = normalized(Seq::empty(), url);
    text::lemma_encode_concat(https, url);
    if !text::has_substring(url, sep) {
        assert(n == https + url);
        assert(n.skip(5).take(3) =~= sep);
        assert(text::has_prefix(n.skip(5), sep));
    }
    assert(Seq::<char>::empty() + n =~= n);
}

proof fn lemma_https_bytes()
    ensures
        text::byte_len("https://"@) <= 8,
{
    reveal_strlit("https://");
    let s = "https://"@;
    assert forall|i: int| 0 <= i < s.len() implies #[trigger] s[i] as u32 <= 0x7f by {
        assert(i == 0 || i == 1 || i == 2 || i == 3 || i == 4 || i == 5 || i == 6 || i == 7);
    }
    text::lemma_ascii_len(s);
}

/// The search prefix is ordinary text unless a search is configured, and plain
/// input is taken as typed, spaces and all.
pub proof fn law_prefixes_are_read_as_configured(input: Seq<char>)
    ensures
        !(action_of(input, false) is Search),
        !text::has_prefix(input, "u:"@) ==> action_of(input, false) == ActionView::AppSearch(input),
        !text::has_prefix(input, "u:"@) && !text::has_prefix(input, "s:"@) ==> action_of(input, true)
            == ActionView::AppSearch(input),
{
}

} // verus!
