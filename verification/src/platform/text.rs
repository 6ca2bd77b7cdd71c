//! Text at the level of code points: the UTF-8 facts the fixed-capacity strings
//! rest on, and the small string operations the rest of the library shares.
use vstd::prelude::*;
use vstd::string::*;
use vstd::utf8::*;

verus! {

/// The number of bytes a string takes in UTF-8.
pub open spec fn byte_len(s: Seq<char>) -> nat {
    encode_utf8(s).len()
}

pub proof fn lemma_encode_concat(a: Seq<char>, b: Seq<char>)
    ensures
        encode_utf8(a + b) == encode_utf8(a) + encode_utf8(b),
    decreases a.len(),
{
    if a.len() == 0 {
        assert(a + b == b);
        assert(encode_utf8(a) + encode_utf8(b) == encode_utf8(b));
    } else {
        lemma_encode_concat(a.drop_first(), b);
        assert((a + b).drop_first() == a.drop_first() + b);
        assert(encode_utf8(a + b) == encode_utf8(a) + encode_utf8(b));
    }
}

pub proof fn lemma_encode_one(c: char)
    ensures
        encode_utf8(seq![c]) == encode_scalar(c as u32),
        1 <= encode_scalar(c as u32).len() <= 4,
{
    reveal_with_fuel(encode_utf8, 2);
    assert(seq![c].drop_first() == Seq::<char>::empty());
    assert(encode_utf8(Seq::<char>::empty()) == Seq::<u8>::empty());
    assert(encode_scalar(c as u32) + Seq::<u8>::empty() == encode_scalar(c as u32));
}

pub proof fn lemma_encode_push(s: Seq<char>, c: char)
    ensures
        encode_utf8(s.push(c)) == encode_utf8(s) + encode_scalar(c as u32),
        byte_len(s) + 1 <= byte_len(s.push(c)) <= byte_len(s) + 4,
{
    lemma_encode_one(c);
    lemma_encode_concat(s, seq![c]);
    assert(s + seq![c] == s.push(c));
}

/// Strings with the same bytes are the same string.
pub proof fn lemma_encode_injective(a: Seq<char>, b: Seq<char>)
    requires
        encode_utf8(a) == encode_utf8(b),
    ensures
        a == b,
{
    encode_utf8_decode_utf8(a);
    encode_utf8_decode_utf8(b);
}

/// Every character takes at least one byte and at most four.
pub proof fn lemma_byte_len_bounds(s: Seq<char>)
    ensures
        s.len() <= byte_len(s) <= 4 * s.len(),
    decreases s.len(),
{
    if s.len() > 0 {
        lemma_byte_len_bounds(s.drop_last());
        lemma_encode_push(s.drop_last(), s.last());
        assert(s.drop_last().push(s.last()) == s);
    }
}

/// An ASCII string takes a byte for each character.
pub proof fn lemma_ascii_len(s: Seq<char>)
    requires
        forall|i: int| 0 <= i < s.len() ==> #[trigger] s[i] as u32 <= 0x7f,
    ensures
        byte_len(s) == s.len(),
    decreases s.len(),
{
    if s.len() > 0 {
        assert(s.last() == s[s.len() - 1]);
        lemma_ascii_len(s.drop_last());
        lemma_encode_push(s.drop_last(), s.last());
        assert(s.drop_last().push(s.last()) == s);
        assert(encode_scalar(s.last() as u32).len() == 1);
    } else {
        lemma_byte_len_bounds(s);
    }
}

/// Splitting a string at a character splits its bytes at that character's
/// offset, which is a character boundary.
pub proof fn lemma_encode_split(s: Seq<char>, k: int)
    requires
        0 <= k <= s.len(),
    ensures
        encode_utf8(s) == encode_utf8(s.take(k)) + encode_utf8(s.skip(k)),
        byte_len(s) == byte_len(s.take(k)) + byte_len(s.skip(k)),
        is_char_boundary(encode_utf8(s), byte_len(s.take(k)) as int),
        encode_utf8(s).subrange(0, byte_len(s.take(k)) as int) == encode_utf8(s.take(k)),
        encode_utf8(s).subrange(byte_len(s.take(k)) as int, byte_len(s) as int) == encode_utf8(
            s.skip(k),
        ),
    decreases k,
{
    lemma_encode_concat(s.take(k), s.skip(k));
    assert(s.take(k) + s.skip(k) == s);
    encode_utf8_valid_utf8(s);
    if k > 0 {
        encode_utf8_first_scalar(s);
        let rest = s.drop_first();
        lemma_encode_split(rest, k - 1);
        assert(pop_first_scalar(encode_utf8(s)) == encode_utf8(rest));
        assert(s.take(k).drop_first() == rest.take(k - 1));
        assert(byte_len(s.take(k)) == encode_scalar(s[0] as u32).len() + byte_len(rest.take(k - 1)));
    }
    assert(encode_utf8(s).subrange(0, byte_len(s.take(k)) as int) == encode_utf8(s.take(k)));
    assert(encode_utf8(s).subrange(byte_len(s.take(k)) as int, byte_len(s) as int) == encode_utf8(
        s.skip(k),
    ));
}

/// Every character boundary is the offset of some character.
pub proof fn lemma_boundary_is_char_offset(s: Seq<char>, i: int) -> (k: int)
    requires
        is_char_boundary(encode_utf8(s), i),
    ensures
        0 <= k <= s.len(),
        byte_len(s.take(k)) == i,
    decreases s.len(),
{
    encode_utf8_valid_utf8(s);
    if i == 0 {
        assert(s.take(0) == Seq::<char>::empty());
        0
    } else {
        encode_utf8_first_scalar(s);
        let rest = s.drop_first();
        assert(pop_first_scalar(encode_utf8(s)) == encode_utf8(rest));
        let k = lemma_boundary_is_char_offset(
            rest,
            i - length_of_first_scalar(encode_utf8(s)),
        );
        assert(s.take(k + 1).drop_first() == rest.take(k));
        k + 1
    }
}

/// `core::str::from_utf8`: the string a byte slice holds when it is valid
/// UTF-8, and nothing otherwise.
#[verifier::external_body]
pub(crate) fn str_from_utf8(v: &[u8]) -> (r: Option<&str>)
    ensures
        r is Some <==> valid_utf8(v@),
        r matches Some(s) ==> s.spec_bytes() == v@,
{
    core::str::from_utf8(v).ok()
}

/// The UTF-8 bytes of one character.
pub fn char_bytes(c: char) -> (r: Vec<u8>)
    ensures
        r@ == encode_scalar(c as u32),
{
    let u: u32 = c as u32;
    proof {
        char_is_scalar(c);
    }
    let mut r: Vec<u8> = Vec::new();
    if u < 0x80 {
        r.push((u & 0x7F) as u8);
    } else if u < 0x800 {
        r.push(0xC0 | ((u >> 6) & 0x1F) as u8);
        r.push(0x80 | (u & 0x3F) as u8);
    } else if u < 0x10000 {
        r.push(0xE0 | ((u >> 12) & 0x0F) as u8);
        r.push(0x80 | ((u >> 6) & 0x3F) as u8);
        r.push(0x80 | (u & 0x3F) as u8);
    } else {
        r.push(0xF0 | ((u >> 18) & 0x7) as u8);
        r.push(0x80 | ((u >> 12) & 0x3F) as u8);
        r.push(0x80 | ((u >> 6) & 0x3F) as u8);
        r.push(0x80 | (u & 0x3F) as u8);
    }
    assert(r@ == encode_scalar(c as u32));
    r
}

/// How many bytes a character takes in UTF-8.
pub fn char_len(c: char) -> (r: usize)
    ensures
        r == encode_scalar(c as u32).len(),
        1 <= r <= 4,
{
    let u: u32 = c as u32;
    if u < 0x80 {
        1
    } else if u < 0x800 {
        2
    } else if u < 0x10000 {
        3
    } else {
        4
    }
}

/// The characters of a string.
pub fn chars_of(s: &str) -> (r: Vec<char>)
    ensures
        r@ == s@,
{
    let mut r: Vec<char> = Vec::new();
    for c in it: s.chars()
        invariant
            it.seq() == s@,
            r@ == s@.take(it.index() as int),
    {
        r.push(c);
    }
    assert(s@.take(s@.len() as int) == s@);
    r
}

/// Whether two strings hold the same characters.
pub fn str_eq(a: &str, b: &str) -> (r: bool)
    ensures
        r == (a@ == b@),
{
    let x = a.as_bytes();
    let y = b.as_bytes();
    if x.len() != y.len() {
        return false;
    }
    let mut i: usize = 0;
    while i < x.len()
        invariant
            x@.len() == y@.len(),
            i <= x@.len(),
            x@ == encode_utf8(a@),
            y@ == encode_utf8(b@),
            forall|j: int| 0 <= j < i ==> x@[j] == y@[j],
        decreases x.len() - i,
    {
        if x[i] != y[i] {
            return false;
        }
        i += 1;
    }
    assert(x@ == y@);
    proof {
        lemma_encode_injective(a@, b@);
    }
    true
}

/// Whether a character has the Unicode White_Space property.
pub open spec fn is_space(c: char) -> bool {
    ||| '\u{9}' <= c <= '\u{d}'
    ||| c == ' '
    ||| c == '\u{85}'
    ||| c == '\u{a0}'
    ||| c == '\u{1680}'
    ||| '\u{2000}' <= c <= '\u{200a}'
    ||| c == '\u{2028}'
    ||| c == '\u{2029}'
    ||| c == '\u{202f}'
    ||| c == '\u{205f}'
    ||| c == '\u{3000}'
}

pub fn is_whitespace(c: char) -> (r: bool)
    ensures
        r == is_space(c),
{
    let u: u32 = c as u32;
    (9 <= u && u <= 13) || u == 32 || u == 0x85 || u == 0xa0 || u == 0x1680 || (0x2000 <= u && u
        <= 0x200a) || u == 0x2028 || u == 0x2029 || u == 0x202f || u == 0x205f || u == 0x3000
}

/// A string without its leading whitespace.
pub open spec fn trim_start(s: Seq<char>) -> Seq<char>
    decreases s.len(),
{
    if s.len() > 0 && is_space(s[0]) {
        trim_start(s.drop_first())
    } else {
        s
    }
}

/// A string without its trailing whitespace.
pub open spec fn trim_end(s: Seq<char>) -> Seq<char>
    decreases s.len(),
{
    if s.len() > 0 && is_space(s.last()) {
        trim_end(s.drop_last())
    } else {
        s
    }
}

/// A string without the whitespace around it.
pub open spec fn trimmed(s: Seq<char>) -> Seq<char> {
    trim_end(trim_start(s))
}

/// Where a string's text starts and ends, without the whitespace around it.
pub fn trim_span(s: &[char]) -> (r: (usize, usize))
    ensures
        r.0 <= r.1 <= s@.len(),
        s@.subrange(r.0 as int, r.1 as int) == trimmed(s@),
{
    let mut a: usize = 0;
    assert(s@.skip(0) == s@);
    while a < s.len() && is_whitespace(s[a])
        invariant
            a <= s@.len(),
            trim_start(s@) == trim_start(s@.skip(a as int)),
        decreases s.len() - a,
    {
        assert(s@.skip(a as int).drop_first() == s@.skip(a + 1));
        a += 1;
    }
    let mut b: usize = s.len();
    assert(s@.subrange(a as int, b as int) == s@.skip(a as int));
    while b > a && is_whitespace(s[b - 1])
        invariant
            a <= b <= s@.len(),
            trimmed(s@) == trim_end(s@.subrange(a as int, b as int)),
        decreases b,
    {
        assert(s@.subrange(a as int, b as int).drop_last() == s@.subrange(a as int, b - 1));
        b -= 1;
    }
    (a, b)
}

pub fn trim(s: &[char]) -> (r: &[char])
    ensures
        r@ == trimmed(s@),
{
    let (a, b) = trim_span(s);
    vstd::slice::slice_subrange(s, a, b)
}

/// A string cut at every separator. There is one more piece than separators.
pub open spec fn pieces(s: Seq<char>, sep: char) -> Seq<Seq<char>>
    decreases s.len(),
{
    if s.len() == 0 {
        seq![Seq::empty()]
    } else {
        let before = pieces(s.drop_last(), sep);
        if s.last() == sep {
            before.push(Seq::empty())
        } else {
            before.drop_last().push(before.last().push(s.last()))
        }
    }
}

pub proof fn lemma_pieces_nonempty(s: Seq<char>, sep: char)
    ensures
        pieces(s, sep).len() >= 1,
    decreases s.len(),
{
    if s.len() > 0 {
        lemma_pieces_nonempty(s.drop_last(), sep);
    }
}

/// The characters of each piece.
pub open spec fn texts(v: Seq<Vec<char>>) -> Seq<Seq<char>> {
    Seq::new(v.len(), |i: int| v[i]@)
}

pub fn split(s: &[char], sep: char) -> (r: Vec<Vec<char>>)
    ensures
        texts(r@) == pieces(s@, sep),
        r@.len() >= 1,
{
    let mut out: Vec<Vec<char>> = Vec::new();
    let mut cur: Vec<char> = Vec::new();
    let mut i: usize = 0;
    assert(s@.take(0) == Seq::<char>::empty());
    assert(texts(out@).push(cur@) == pieces(s@.take(0), sep));
    while i < s.len()
        invariant
            i <= s@.len(),
            texts(out@).push(cur@) == pieces(s@.take(i as int), sep),
        decreases s.len() - i,
    {
        proof {
            assert(s@.take(i + 1).drop_last() == s@.take(i as int));
            assert(texts(out@).push(cur@).drop_last() == texts(out@));
        }
        if s[i] == sep {
            let ghost before = out@;
            let ghost last = cur@;
            out.push(cur);
            cur = Vec::new();
            assert(texts(out@) == texts(before).push(last));
        } else {
            cur.push(s[i]);
        }
        i += 1;
    }
    assert(s@.take(s@.len() as int) == s@);
    let ghost before = out@;
    let ghost last = cur@;
    out.push(cur);
    assert(texts(out@) == texts(before).push(last));
    out
}

/// Whether some text holds exactly the characters of a string.
pub fn is_text(a: &[char], s: &str) -> (r: bool)
    ensures
        r == (a@ == s@),
{
    let b = chars_of(s);
    same_chars(a, b.as_slice())
}

pub fn same_chars(a: &[char], b: &[char]) -> (r: bool)
    ensures
        r == (a@ == b@),
{
    if a.len() != b.len() {
        return false;
    }
    assert(a@.take(a@.len() as int) == a@);
    starts_with(a, b)
}

/// The part of a string between two character offsets.
pub fn sub_str(s: &str, from: usize, to: usize) -> (r: &str)
    requires
        from <= to <= s@.len(),
    ensures
        r@ == s@.subrange(from as int, to as int),
{
    let chars = chars_of(s);
    let bytes = s.as_bytes();
    let n: usize = bytes.len();
    let mut start: usize = 0;
    let mut end: usize = 0;
    let mut i: usize = 0;
    proof {
        assert(s@.take(0) == Seq::<char>::empty());
        lemma_byte_len_bounds(Seq::<char>::empty());
    }
    while i < to
        invariant
            i <= to <= s@.len(),
            from <= to,
            chars@ == s@,
            n == byte_len(s@),
            end == byte_len(s@.take(i as int)),
            start == byte_len(
                s@.take(
                    if i < from {
                        i as int
                    } else {
                        from as int
                    },
                ),
            ),
        decreases to - i,
    {
        proof {
            assert(s@.take(i + 1) == s@.take(i as int).push(s@[i as int]));
            lemma_encode_push(s@.take(i as int), s@[i as int]);
            lemma_encode_split(s@, i + 1);
        }
        end += char_len(chars[i]);
        i += 1;
        if i <= from {
            start = end;
        }
    }
    let ghost part = s@.subrange(from as int, to as int);
    proof {
        let head = s@.take(from as int);
        lemma_encode_split(s@, to as int);
        assert(s@.take(to as int) == head + part);
        lemma_encode_concat(head, part);
        encode_utf8_valid_utf8(part);
    }
    let b = vstd::slice::slice_subrange(bytes, start, end);
    assert(b@ == encode_utf8(part));
    match str_from_utf8(b) {
        Some(r) => {
            proof {
                lemma_encode_injective(r@, part);
            }
            r
        },
        None => "",
    }
}

/// Whether `b` is a prefix of `a`.
pub open spec fn has_prefix(a: Seq<char>, b: Seq<char>) -> bool {
    b.len() <= a.len() && a.take(b.len() as int) == b
}

pub fn starts_with(a: &[char], b: &[char]) -> (r: bool)
    ensures
        r == has_prefix(a@, b@),
{
    if b.len() > a.len() {
        return false;
    }
    let mut i: usize = 0;
    while i < b.len()
        invariant
            i <= b@.len() <= a@.len(),
            forall|j: int| 0 <= j < i ==> a@[j] == b@[j],
        decreases b.len() - i,
    {
        if a[i] != b[i] {
            assert(a@.take(b@.len() as int)[i as int] != b@[i as int]);
            return false;
        }
        i += 1;
    }
    assert(a@.take(b@.len() as int) == b@);
    true
}

/// Whether `b` occurs somewhere in `a`.
pub open spec fn has_substring(a: Seq<char>, b: Seq<char>) -> bool {
    exists|i: int| 0 <= i <= a.len() && #[trigger] has_prefix(a.skip(i), b)
}

pub fn contains(a: &[char], b: &[char]) -> (r: bool)
    ensures
        r == has_substring(a@, b@),
{
    let mut i: usize = 0;
    while i <= a.len()
        invariant
            i <= a@.len() + 1,
            a@.len() == a.len(),
            forall|j: int| 0 <= j < i ==> !#[trigger] has_prefix(a@.skip(j), b@),
        decreases a.len() + 1 - i,
    {
        let tail = vstd::slice::slice_subrange(a, i, a.len());
        assert(tail@ == a@.skip(i as int));
        if starts_with(tail, b) {
            return true;
        }
        if i == a.len() {
            return false;
        }
        i += 1;
    }
    false
}

/// The position of the first occurrence of a character, or the length.
pub open spec fn first_of(s: Seq<char>, c: char) -> int
    decreases s.len(),
{
    if s.len() == 0 || s[0] == c {
        0
    } else {
        1 + first_of(s.drop_first(), c)
    }
}

pub fn find_char(s: &[char], c: char) -> (r: Option<usize>)
    ensures
        r is Some <==> s@.contains(c),
        r matches Some(i) ==> i < s@.len() && s@[i as int] == c && i == first_of(s@, c),
        r is None ==> first_of(s@, c) == s@.len(),
{
    let mut i: usize = 0;
    assert(s@.skip(0) == s@);
    while i < s.len()
        invariant
            i <= s@.len(),
            first_of(s@, c) == i + first_of(s@.skip(i as int), c),
            forall|j: int| 0 <= j < i ==> s@[j] != c,
        decreases s.len() - i,
    {
        if s[i] == c {
            assert(s@.contains(s@[i as int]));
            return Some(i);
        }
        assert(s@.skip(i as int).drop_first() == s@.skip(i + 1));
        i += 1;
    }
    None
}

/// As much of `s` as fits after `out` within a byte capacity, a character at a
/// time.
pub open spec fn filled(out: Seq<char>, s: Seq<char>, cap: nat) -> Seq<char>
    decreases s.len(),
{
    if s.len() == 0 || byte_len(out.push(s[0])) > cap {
        out
    } else {
        filled(out.push(s[0]), s.drop_first(), cap)
    }
}

/// What fits whole is appended whole.
pub proof fn lemma_filled_whole(out: Seq<char>, s: Seq<char>, cap: nat)
    requires
        byte_len(out + s) <= cap,
    ensures
        filled(out, s, cap) == out + s,
    decreases s.len(),
{
    if s.len() == 0 {
        assert(out + s == out);
    } else {
        assert(out.push(s[0]) + s.drop_first() == out + s);
        lemma_encode_concat(out.push(s[0]), s.drop_first());
        lemma_filled_whole(out.push(s[0]), s.drop_first(), cap);
    }
}

/// The lowercase of one character: an ASCII letter folds to one ASCII letter,
/// anything else as the Unicode tables say.
pub open spec fn lower_char(c: char) -> Seq<char> {
    if 'A' <= c <= 'Z' {
        seq![(c as u32 + 32) as char]
    } else if c <= '\u{7f}' {
        seq![c]
    } else {
        lowercase(c)
    }
}

/// The lowercase of a string, a character at a time.
pub open spec fn lower(s: Seq<char>) -> Seq<char>
    decreases s.len(),
{
    if s.len() == 0 {
        Seq::empty()
    } else {
        lower(s.drop_last()) + lower_char(s.last())
    }
}

/// What `char::to_lowercase` yields for a character.
pub uninterp spec fn lowercase(c: char) -> Seq<char>;

/// `char::to_lowercase`: the lowercase mapping of a character in the Unicode
/// tables, one or more characters, the same every time.
#[verifier::external_body]
fn char_to_lowercase(c: char) -> (r: Vec<char>)
    ensures
        r@ == lowercase(c),
        r@.len() >= 1,
{
    c.to_lowercase().collect()
}

/// The lowercase of one character.
pub fn lower_of(c: char) -> (r: Vec<char>)
    ensures
        r@ == lower_char(c),
        r@.len() >= 1,
{
    let u: u32 = c as u32;
    if 65 <= u && u <= 90 {
        let b: u8 = u as u8 + 32;
        vec![b as char]
    } else if u < 0x80 {
        vec![c]
    } else {
        char_to_lowercase(c)
    }
}

/// The UTF-8 bytes of some text.
pub fn bytes_of(s: &[char]) -> (r: Vec<u8>)
    ensures
        r@ == encode_utf8(s@),
{
    let mut out: Vec<u8> = Vec::new();
    let mut i: usize = 0;
    assert(s@.take(0) == Seq::<char>::empty());
    assert(encode_utf8(s@.take(0)) == Seq::<u8>::empty());
    while i < s.len()
        invariant
            i <= s@.len(),
            out@ == encode_utf8(s@.take(i as int)),
        decreases s.len() - i,
    {
        let mut b = char_bytes(s[i]);
        proof {
            lemma_encode_push(s@.take(i as int), s@[i as int]);
            assert(s@.take(i as int).push(s@[i as int]) == s@.take(i + 1));
        }
        out.append(&mut b);
        i += 1;
    }
    assert(s@.take(s@.len() as int) == s@);
    out
}

/// Lexicographic order on bytes, the order strings sort in.
pub open spec fn sorts_before(a: Seq<u8>, b: Seq<u8>) -> bool
    decreases a.len(),
{
    if b.len() == 0 {
        false
    } else if a.len() == 0 {
        true
    } else if a[0] != b[0] {
        a[0] < b[0]
    } else {
        sorts_before(a.drop_first(), b.drop_first())
    }
}

pub proof fn lemma_sorts_before_irreflexive(a: Seq<u8>)
    ensures
        !sorts_before(a, a),
    decreases a.len(),
{
    if a.len() > 0 {
        lemma_sorts_before_irreflexive(a.drop_first());
    }
}

pub proof fn lemma_sorts_before_transitive(a: Seq<u8>, b: Seq<u8>, c: Seq<u8>)
    requires
        sorts_before(a, b),
        sorts_before(b, c),
    ensures
        sorts_before(a, c),
    decreases a.len(),
{
    if a.len() > 0 && a[0] == b[0] && b[0] == c[0] {
        lemma_sorts_before_transitive(a.drop_first(), b.drop_first(), c.drop_first());
    }
}

/// Strings neither of which sorts before the other are the same.
pub proof fn lemma_sorts_before_total(a: Seq<u8>, b: Seq<u8>)
    ensures
        sorts_before(a, b) || sorts_before(b, a) || a == b,
    decreases a.len(),
{
    if a.len() > 0 && b.len() > 0 && a[0] == b[0] {
        lemma_sorts_before_total(a.drop_first(), b.drop_first());
        if a.drop_first() == b.drop_first() {
            assert(a == seq![a[0]] + a.drop_first());
            assert(b == seq![b[0]] + b.drop_first());
        }
    } else if a.len() == 0 && b.len() == 0 {
        assert(a == b);
    }
}

/// Whether one string sorts before another.
pub fn str_before(a: &str, b: &str) -> (r: bool)
    ensures
        r == sorts_before(encode_utf8(a@), encode_utf8(b@)),
{
    let x = a.as_bytes();
    let y = b.as_bytes();
    let mut i: usize = 0;
    assert(x@.skip(0) == x@);
    assert(y@.skip(0) == y@);
    while i < x.len() && i < y.len()
        invariant
            i <= x@.len(),
            i <= y@.len(),
            x@ == encode_utf8(a@),
            y@ == encode_utf8(b@),
            sorts_before(x@, y@) == sorts_before(x@.skip(i as int), y@.skip(i as int)),
        decreases x.len() - i,
    {
        if x[i] != y[i] {
            return x[i] < y[i];
        }
        assert(x@.skip(i as int).drop_first() == x@.skip(i + 1));
        assert(y@.skip(i as int).drop_first() == y@.skip(i + 1));
        i += 1;
    }
    i < y.len()
}

/// The digit of a value below sixteen.
pub open spec fn digit_char(d: int) -> char {
    if d < 10 {
        (0x30 + d) as char
    } else {
        (0x61 + d - 10) as char
    }
}

/// A number in a base of at least two, without leading zeros.
pub open spec fn digits(n: nat, base: nat) -> Seq<char>
    decreases n,
    when base >= 2
    via digits_decreases
{
    if n < base {
        seq![digit_char(n as int)]
    } else {
        digits(n / base, base).push(digit_char(n as int % base as int))
    }
}

#[via_fn]
proof fn digits_decreases(n: nat, base: nat) {
    if base >= 2 && n >= base {
        assert(n / base < n) by (nonlinear_arith)
            requires
                base >= 2,
                n >= base,
        ;
    }
}

fn char_of(d: u32) -> (r: char)
    requires
        d < 16,
    ensures
        r == digit_char(d as int),
{
    if d < 10 {
        (0x30u8 + d as u8) as char
    } else {
        (0x61u8 + (d as u8 - 10)) as char
    }
}

/// A number in a base, without leading zeros.
pub fn digits_of(n: u64, base: u32) -> (r: Vec<char>)
    requires
        base == 10 || base == 16,
    ensures
        r@ == digits(n as nat, base as nat),
    decreases n,
{
    if n < base as u64 {
        let mut out: Vec<char> = Vec::new();
        out.push(char_of(n as u32));
        assert(out@ =~= seq![digit_char(n as int)]);
        out
    } else {
        assert(n / (base as u64) < n) by (nonlinear_arith)
            requires
                base >= 2,
                n >= base,
        ;
        let mut out = digits_of(n / base as u64, base);
        out.push(char_of((n % base as u64) as u32));
        out
    }
}

} // verus!
