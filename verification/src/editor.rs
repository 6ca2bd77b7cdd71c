//! The text input widget: the text, the caret, and the selection anchor.
//!
//! Pure logic. Nothing here knows about Wayland, the clipboard, or the results
//! list; the client turns key presses into these calls and takes the answers
//! back.
//!
//! Positions are char offsets, not byte offsets. Every public boundary speaks
//! chars, because that is what a caret is; bytes appear only where the text is
//! actually indexed.
use vstd::prelude::*;

use crate::platform::arena::ArrayString;
use crate::platform::text;
use crate::platform::text::{char_len, chars_of};

verus! {

/// Capacity of the search input field.
pub const INPUT_CAP: usize = 1024;

/// The text being edited, the caret, and where a selection started.
///
/// An anchor equal to the cursor is not a selection: Shift+Left then
/// Shift+Right lands exactly there, and treating it as one selects a character
/// the user never asked for.
pub struct Editor {
    text: ArrayString<INPUT_CAP>,
    cursor: usize,
    anchor: Option<usize>,
}

/// What an editor holds.
#[verifier::ext_equal]
pub struct EditorView {
    pub text: Seq<char>,
    pub cursor: int,
    pub anchor: Option<int>,
}

impl View for Editor {
    type V = EditorView;

    closed spec fn view(&self) -> EditorView {
        EditorView {
            text: self.text@,
            cursor: self.cursor as int,
            anchor: match self.anchor {
                Some(a) => Some(a as int),
                None => None,
            },
        }
    }
}

impl EditorView {
    /// The caret and the anchor are positions of the text, and the text fits.
    pub open spec fn wf(self) -> bool {
        &&& text::byte_len(self.text) <= INPUT_CAP
        &&& 0 <= self.cursor <= self.text.len()
        &&& self.anchor matches Some(a) ==> 0 <= a <= self.text.len()
    }

    /// The selection as (start, end) char offsets, or None when there is none.
    pub open spec fn selection(self) -> Option<(int, int)> {
        match self.anchor {
            Some(a) => if a == self.cursor {
                None
            } else if a < self.cursor {
                Some((a, self.cursor))
            } else {
                Some((self.cursor, a))
            },
            None => None,
        }
    }

    /// The selection's text; empty without one.
    pub open spec fn selected(self) -> Seq<char> {
        match self.selection() {
            Some((start, end)) => self.text.subrange(start, end),
            None => Seq::empty(),
        }
    }

    /// With the selection deleted and the caret where it started.
    pub open spec fn without_selection(self) -> EditorView {
        match self.selection() {
            Some((start, end)) => EditorView {
                text: self.text.take(start) + self.text.skip(end),
                cursor: start,
                anchor: None,
            },
            None => self,
        }
    }

    /// With some text at the caret, the caret behind it.
    pub open spec fn with_text(self, s: Seq<char>) -> EditorView {
        EditorView {
            text: self.text.take(self.cursor) + s + self.text.skip(self.cursor),
            cursor: self.cursor + s.len(),
            anchor: None,
        }
    }

    /// With the character at a position gone and the caret there.
    pub open spec fn without_char(self, at: int) -> EditorView {
        EditorView { text: self.text.remove(at), cursor: at, anchor: None }
    }

    /// Whether a character typed is taken.
    pub open spec fn has_room(self, ch: char) -> bool {
        text::byte_len(self.without_selection().text) + text::byte_len(seq![ch]) <= INPUT_CAP
    }

    /// After a character is typed.
    pub open spec fn inserted(self, ch: char) -> EditorView {
        let v = self.without_selection();
        if self.has_room(ch) {
            v.with_text(seq![ch])
        } else {
            EditorView { anchor: None, ..v }
        }
    }

    /// Whether a paste is taken.
    pub open spec fn can_paste(self, s: Seq<char>) -> bool {
        text::byte_len(self.without_selection().text) + text::byte_len(s) <= INPUT_CAP
    }

    /// After a paste: all of it or none.
    pub open spec fn pasted(self, s: Seq<char>) -> EditorView {
        if self.can_paste(s) {
            self.without_selection().with_text(s)
        } else {
            self
        }
    }

    /// After a backspace.
    pub open spec fn backspaced(self) -> EditorView {
        if self.selection() is Some {
            self.without_selection()
        } else if self.cursor > 0 {
            self.without_char(self.cursor - 1)
        } else {
            EditorView { anchor: None, ..self }
        }
    }

    /// After a forward delete.
    pub open spec fn deleted(self) -> EditorView {
        if self.selection() is Some {
            self.without_selection()
        } else if self.cursor < self.text.len() {
            self.without_char(self.cursor)
        } else {
            EditorView { anchor: None, ..self }
        }
    }

    /// The anchor once the caret is about to move: with shift the selection
    /// extends from where it began, without it there is none.
    pub open spec fn held(self, shift: bool) -> Option<int> {
        if !shift {
            None
        } else if self.anchor is Some {
            self.anchor
        } else {
            Some(self.cursor)
        }
    }

    /// After the caret is moved to a position.
    pub open spec fn moved(self, to: int, shift: bool) -> EditorView {
        EditorView { cursor: to, anchor: self.held(shift), ..self }
    }

    /// After a step left.
    pub open spec fn stepped_left(self, shift: bool) -> EditorView {
        if !shift && self.selection() is Some {
            self.moved((self.selection()->0).0, false)
        } else {
            self.moved(
                if self.cursor > 0 {
                    self.cursor - 1
                } else {
                    0
                },
                shift,
            )
        }
    }

    /// After a step right.
    pub open spec fn stepped_right(self, shift: bool) -> EditorView {
        if !shift && self.selection() is Some {
            self.moved((self.selection()->0).1, false)
        } else {
            self.moved(
                if self.cursor < self.text.len() {
                    self.cursor + 1
                } else {
                    self.cursor
                },
                shift,
            )
        }
    }

    /// With everything selected.
    pub open spec fn all_selected(self) -> EditorView {
        EditorView { cursor: self.text.len() as int, anchor: Some(0), ..self }
    }

    /// The nearest position of the text.
    pub open spec fn clamped(self, at: int) -> int {
        if at < self.text.len() {
            at
        } else {
            self.text.len() as int
        }
    }

    /// After a click, given the word around it.
    pub open spec fn clicked(self, at: int, count: u32, word: (int, int)) -> EditorView {
        if count == 2 {
            EditorView { cursor: word.1, anchor: Some(word.0), ..self }
        } else if count >= 3 {
            self.all_selected()
        } else {
            EditorView { cursor: self.clamped(at), anchor: None, ..self }
        }
    }

    /// After a drag.
    pub open spec fn dragged(self, to: int) -> EditorView {
        self.moved(self.clamped(to), true)
    }
}

/// Whether a span is the longest run of one kind around a position.
pub open spec fn is_run(kinds: Seq<bool>, pos: int, span: (int, int)) -> bool {
    &&& 0 <= span.0 <= pos < span.1 <= kinds.len()
    &&& forall|i: int| span.0 <= i < span.1 ==> #[trigger] kinds[i] == kinds[pos]
    &&& span.0 > 0 ==> kinds[span.0 - 1] != kinds[pos]
    &&& span.1 < kinds.len() ==> kinds[span.1] != kinds[pos]
}

/// What `char::is_alphanumeric` says of a character.
pub uninterp spec fn alphanumeric(c: char) -> bool;

/// `char::is_alphanumeric`: whether the Unicode tables class a character as a
/// letter or a number, the same every time.
#[verifier::external_body]
fn char_is_alphanumeric(c: char) -> (r: bool)
    ensures
        r == alphanumeric(c),
{
    c.is_alphanumeric()
}

/// Whether a character is part of a word.
pub open spec fn in_word(c: char) -> bool {
    alphanumeric(c) || c == '_'
}

/// Which characters are part of a word.
pub open spec fn word_kinds(s: Seq<char>) -> Seq<bool> {
    Seq::new(s.len(), |i: int| in_word(s[i]))
}

/// Whether a span is the word around an offset: the run of the same kind as the
/// character there, so a click in the separators between two words selects
/// those. Past the end is the last character; in no text there is no word.
pub open spec fn is_word_at(kinds: Seq<bool>, at: int, span: (int, int)) -> bool {
    if kinds.len() == 0 {
        span == (0int, 0int)
    } else {
        is_run(
            kinds,
            if at < kinds.len() {
                at
            } else {
                kinds.len() - 1
            },
            span,
        )
    }
}

/// The run around an offset of characters told apart as word or separator.
pub fn run_at(kinds: &[bool], at: usize) -> (r: (usize, usize))
    ensures
        is_word_at(kinds@, at as int, (r.0 as int, r.1 as int)),
{
    let len: usize = kinds.len();
    if len == 0 {
        return (0, 0);
    }
    let pos: usize = if at < len {
        at
    } else {
        len - 1
    };
    // Grow both ways over chars of the same kind as the one clicked.
    let want = kinds[pos];
    let mut start: usize = pos;
    while start > 0 && kinds[start - 1] == want
        invariant
            start <= pos < kinds@.len(),
            want == kinds@[pos as int],
            forall|i: int| start <= i <= pos ==> #[trigger] kinds@[i] == want,
        decreases start,
    {
        start -= 1;
    }
    let mut end: usize = pos;
    while end < len && kinds[end] == want
        invariant
            start <= pos <= end <= len == kinds@.len(),
            pos < len,
            want == kinds@[pos as int],
            forall|i: int| start <= i <= pos ==> #[trigger] kinds@[i] == want,
            forall|i: int| start <= i < end ==> #[trigger] kinds@[i] == want,
        decreases len - end,
    {
        end += 1;
    }
    (start, end)
}

/// A position has one word around it.
pub proof fn law_the_word_at_a_position_is_unique(
    kinds: Seq<bool>,
    at: int,
    a: (int, int),
    b: (int, int),
)
    requires
        at >= 0,
        is_word_at(kinds, at, a),
        is_word_at(kinds, at, b),
    ensures
        a == b,
{
    if kinds.len() > 0 {
        let pos = if at < kinds.len() {
            at
        } else {
            kinds.len() - 1
        };
        if a.0 < b.0 {
            assert(kinds[b.0 - 1] == kinds[pos]);
        } else if b.0 < a.0 {
            assert(kinds[a.0 - 1] == kinds[pos]);
        }
        if a.1 < b.1 {
            assert(kinds[a.1] == kinds[pos]);
        } else if b.1 < a.1 {
            assert(kinds[b.1] == kinds[pos]);
        }
    }
}

impl Default for Editor {
    fn default() -> (r: Self)
        ensures
            r.wf(),
            r@ == (EditorView { text: Seq::empty(), cursor: 0, anchor: None }),
    {
        Editor { text: ArrayString::new(), cursor: 0, anchor: None }
    }
}

impl Editor {
    /// The text is well formed, and the caret and the anchor are positions of
    /// it.
    pub closed spec fn wf(&self) -> bool {
        &&& self.text.wf()
        &&& self.cursor <= self.text@.len()
        &&& self.anchor matches Some(a) ==> a <= self.text@.len()
    }

    /// What a well-formed editor holds is well formed.
    pub proof fn lemma_wf(&self)
        requires
            self.wf(),
        ensures
            self@.wf(),
            self@.text.len() <= INPUT_CAP,
    {
        self.text.lemma_wf();
        text::lemma_byte_len_bounds(self.text@);
    }

    pub fn new() -> (r: Self)
        ensures
            r.wf(),
            r@ == (EditorView { text: Seq::empty(), cursor: 0, anchor: None }),
    {
        Self::default()
    }

    pub fn text(&self) -> (r: &str)
        requires
            self.wf(),
        ensures
            r@ == self@.text,
    {
        self.text.as_str()
    }

    /// A copy of the text. The caret and the results both need it while the
    /// editor itself is borrowed.
    pub fn text_owned(&self) -> (r: ArrayString<INPUT_CAP>)
        requires
            self.wf(),
        ensures
            r.wf(),
            r@ == self@.text,
    {
        self.text.clone()
    }

    pub fn cursor(&self) -> (r: usize)
        ensures
            r == self@.cursor,
    {
        self.cursor
    }

    /// How many chars the text holds. The caret can sit at any of them, or one
    /// past the last.
    pub fn len(&self) -> (r: usize)
        requires
            self.wf(),
        ensures
            r == self@.text.len(),
    {
        proof {
            self.lemma_wf();
        }
        self.text.as_str().unicode_len()
    }

    /// The selection as (start, end) char offsets, or None when there is none.
    pub fn selection(&self) -> (r: Option<(usize, usize)>)
        ensures
            r is Some <==> self@.selection() is Some,
            r matches Some((s, e)) ==> (s as int, e as int) == self@.selection()->0,
    {
        match self.anchor {
            None => None,
            Some(a) => {
                if a == self.cursor {
                    None
                } else if a < self.cursor {
                    Some((a, self.cursor))
                } else {
                    Some((self.cursor, a))
                }
            },
        }
    }

    /// The byte offset of a char offset. Past the end maps to the end, so a
    /// caret one past the last char indexes the text's length.
    fn byte(&self, char_idx: usize) -> (r: usize)
        requires
            self.wf(),
            char_idx <= self.text@.len(),
        ensures
            r == text::byte_len(self.text@.take(char_idx as int)),
            r <= text::byte_len(self.text@) <= INPUT_CAP,
    {
        let chars = chars_of(self.text.as_str());
        let ghost s = self.text@;
        proof {
            self.text.lemma_wf();
            text::lemma_encode_split(s, char_idx as int);
            assert(s.take(0) == Seq::<char>::empty());
            text::lemma_byte_len_bounds(Seq::<char>::empty());
        }
        let mut at: usize = 0;
        let mut i: usize = 0;
        while i < char_idx
            invariant
                i <= char_idx <= s.len(),
                chars@ == s,
                text::byte_len(s) <= INPUT_CAP,
                at == text::byte_len(s.take(i as int)),
            decreases char_idx - i,
        {
            proof {
                assert(s.take(i + 1) == s.take(i as int).push(s[i as int]));
                text::lemma_encode_push(s.take(i as int), s[i as int]);
                text::lemma_encode_split(s, i + 1);
            }
            at += char_len(chars[i]);
            i += 1;
        }
        at
    }

    /// The selected text, if any.
    pub fn selected_text(&self) -> (r: Option<ArrayString<INPUT_CAP>>)
        requires
            self.wf(),
        ensures
            r is Some <==> self@.selection() is Some,
            r matches Some(t) ==> t.wf() && t@ == self@.selected(),
    {
        let (start, end) = match self.selection() {
            Some(s) => s,
            None => {
                return None;
            },
        };
        let mut out: ArrayString<INPUT_CAP> = ArrayString::new();
        let chars = chars_of(self.text.as_str());
        let part = vstd::slice::slice_subrange(chars.as_slice(), start, end);
        proof {
            self.text.lemma_wf();
            text::lemma_encode_split(self.text@, end as int);
            text::lemma_encode_split(self.text@.take(end as int), start as int);
            assert(self.text@.take(end as int).skip(start as int) == part@);
            text::lemma_byte_len_bounds(Seq::<char>::empty());
            assert(Seq::<char>::empty() + part@ == part@);
        }
        if out.push_chars(part).is_err() {
            return None;
        }
        Some(out)
    }

    /// Clear everything.
    pub fn clear(&mut self)
        ensures
            final(self).wf(),
            final(self)@ == (EditorView { text: Seq::empty(), cursor: 0, anchor: None }),
    {
        self.text.clear();
        self.cursor = 0;
        self.anchor = None;
    }

    /// Delete the chars of a range.
    fn cut(&mut self, start: usize, end: usize)
        requires
            old(self).wf(),
            start <= end <= old(self).text@.len(),
        ensures
            final(self).text.wf(),
            final(self).text@ == old(self).text@.take(start as int) + old(self).text@.skip(
                end as int,
            ),
            final(self).cursor == old(self).cursor,
            final(self).anchor == old(self).anchor,
    {
        let a: usize = self.byte(start);
        let b: usize = self.byte(end);
        proof {
            let s = self.text@;
            text::lemma_encode_split(s, start as int);
            text::lemma_encode_split(s, end as int);
            text::lemma_encode_split(s.take(end as int), start as int);
            assert(s.take(end as int).take(start as int) == s.take(start as int));
            text::lemma_encode_concat(s.take(start as int), s.skip(end as int));
        }
        let _ = self.text.delete_range(a, b);
        proof {
            let s = old(self).text@;
            text::lemma_encode_injective(self.text@, s.take(start as int) + s.skip(end as int));
        }
    }

    /// Delete the selection and put the caret where it started. False when there
    /// was nothing selected.
    pub fn delete_selection(&mut self) -> (r: bool)
        requires
            old(self).wf(),
        ensures
            final(self).wf(),
            r == old(self)@.selection() is Some,
            final(self)@ == old(self)@.without_selection(),
    {
        let (start, end) = match self.selection() {
            Some(s) => s,
            None => {
                return false;
            },
        };
        self.cut(start, end);
        self.cursor = start;
        self.anchor = None;
        true
    }

    /// Type a character, replacing the selection. Ignored when the text is full:
    /// advancing the caret past text that was never inserted desyncs it, and
    /// every later edit lands in the wrong place.
    pub fn insert(&mut self, ch: char) -> (r: bool)
        requires
            old(self).wf(),
        ensures
            final(self).wf(),
            r == old(self)@.has_room(ch),
            final(self)@ == old(self)@.inserted(ch),
    {
        self.delete_selection();
        let ghost mid = self@;
        let at: usize = self.byte(self.cursor);
        proof {
            let s = self.text@;
            let c = self.cursor as int;
            self.lemma_wf();
            text::lemma_encode_split(s, c);
            text::lemma_encode_one(ch);
            text::lemma_encode_concat(s.take(c), seq![ch]);
            text::lemma_encode_concat(s.take(c) + seq![ch], s.skip(c));
        }
        let inserted = self.text.insert(at, ch).is_ok();
        if inserted {
            proof {
                text::lemma_encode_injective(
                    self.text@,
                    mid.text.take(mid.cursor) + seq![ch] + mid.text.skip(mid.cursor),
                );
            }
            self.cursor += 1;
        }
        self.anchor = None;
        inserted
    }

    /// Replace the selection with s, or insert it at the caret when there is no
    /// selection.
    ///
    /// Nothing changes when the result would not fit. Deleting the selection
    /// first and then failing to insert would leave the user with neither their
    /// own text nor the pasted text.
    pub fn paste(&mut self, s: &str) -> (r: bool)
        requires
            old(self).wf(),
        ensures
            final(self).wf(),
            r == old(self)@.can_paste(s@),
            final(self)@ == old(self)@.pasted(s@),
    {
        let selected_bytes: usize = match self.selection() {
            Some((start, end)) => {
                proof {
                    let t = self.text@;
                    text::lemma_encode_split(t, end as int);
                    text::lemma_encode_split(t.take(end as int), start as int);
                    assert(t.take(end as int).take(start as int) == t.take(start as int));
                    text::lemma_encode_concat(t.take(start as int), t.skip(end as int));
                }
                self.byte(end) - self.byte(start)
            },
            None => 0,
        };
        proof {
            self.text.lemma_wf();
        }
        assert(text::byte_len(self@.without_selection().text) == text::byte_len(self.text@)
            - selected_bytes);
        if s.as_bytes().len() > INPUT_CAP - (self.text.len() - selected_bytes) {
            return false;
        }
        self.delete_selection();
        let ghost mid = self@;
        let at: usize = self.byte(self.cursor);
        proof {
            let t = self.text@;
            let c = self.cursor as int;
            text::lemma_encode_split(t, c);
            text::lemma_encode_concat(t.take(c), s@);
            text::lemma_encode_concat(t.take(c) + s@, t.skip(c));
        }
        if self.text.insert_str(at, s).is_err() {
            return false;
        }
        proof {
            let want = mid.text.take(mid.cursor) + s@ + mid.text.skip(mid.cursor);
            text::lemma_encode_injective(self.text@, want);
            self.text.lemma_wf();
            text::lemma_byte_len_bounds(want);
            text::lemma_byte_len_bounds(s@);
        }
        self.cursor += s.unicode_len();
        self.anchor = None;
        true
    }

    /// Delete the selection, or the char before the caret.
    pub fn backspace(&mut self)
        requires
            old(self).wf(),
        ensures
            final(self).wf(),
            final(self)@ == old(self)@.backspaced(),
    {
        if self.delete_selection() {
            return;
        }
        // The anchor survives an edit it took no part in, and once the delete
        // moves the caret off it, it reads as a one-character selection the next
        // keystroke would eat.
        self.anchor = None;
        if self.cursor > 0 {
            let at: usize = self.cursor;
            self.cut(at - 1, at);
            self.cursor = at - 1;
            assert(self.text@ == old(self).text@.remove(at - 1));
        }
    }

    /// Delete the selection, or the char after the caret.
    pub fn delete(&mut self)
        requires
            old(self).wf(),
        ensures
            final(self).wf(),
            final(self)@ == old(self)@.deleted(),
    {
        if self.delete_selection() {
            return;
        }
        self.anchor = None;
        if self.cursor < self.len() {
            let at: usize = self.cursor;
            proof {
                self.lemma_wf();
            }
            self.cut(at, at + 1);
            assert(self.text@ == old(self).text@.remove(at as int));
        }
    }

    /// Move the caret, extending the selection or dropping it.
    fn move_to(&mut self, to: usize, shift: bool)
        requires
            old(self).wf(),
            to <= old(self)@.text.len(),
        ensures
            final(self).wf(),
            final(self)@ == old(self)@.moved(to as int, shift),
    {
        if !shift {
            self.anchor = None;
        } else if self.anchor.is_none() {
            self.anchor = Some(self.cursor);
        }
        self.cursor = to;
    }

    /// Move the caret one char left. With shift, extend the selection; without
    /// it, a selection collapses to its start rather than moving the caret.
    pub fn left(&mut self, shift: bool)
        requires
            old(self).wf(),
        ensures
            final(self).wf(),
            final(self)@ == old(self)@.stepped_left(shift),
    {
        if !shift {
            if let Some((start, _)) = self.selection() {
                self.move_to(start, false);
                return;
            }
        }
        let to: usize = if self.cursor > 0 {
            self.cursor - 1
        } else {
            0
        };
        self.move_to(to, shift);
    }

    /// Move the caret one char right, or collapse a selection to its end.
    pub fn right(&mut self, shift: bool)
        requires
            old(self).wf(),
        ensures
            final(self).wf(),
            final(self)@ == old(self)@.stepped_right(shift),
    {
        if !shift {
            if let Some((_, end)) = self.selection() {
                self.move_to(end, false);
                return;
            }
        }
        let to: usize = if self.cursor < self.len() {
            self.cursor + 1
        } else {
            self.cursor
        };
        self.move_to(to, shift);
    }

    pub fn home(&mut self, shift: bool)
        requires
            old(self).wf(),
        ensures
            final(self).wf(),
            final(self)@ == old(self)@.moved(0, shift),
    {
        self.move_to(0, shift);
    }

    pub fn end(&mut self, shift: bool)
        requires
            old(self).wf(),
        ensures
            final(self).wf(),
            final(self)@ == old(self)@.moved(old(self)@.text.len() as int, shift),
    {
        let to: usize = self.len();
        self.move_to(to, shift);
    }

    pub fn select_all(&mut self)
        requires
            old(self).wf(),
        ensures
            final(self).wf(),
            final(self)@ == old(self)@.all_selected(),
    {
        self.anchor = Some(0);
        self.cursor = self.len();
    }

    /// The word around a char offset, as (start, end) char offsets. A click in
    /// the run of separators between two words selects that run, which is what
    /// every other text field does.
    fn word_at(&self, at: usize) -> (r: (usize, usize))
        requires
            self.wf(),
        ensures
            is_word_at(word_kinds(self@.text), at as int, (r.0 as int, r.1 as int)),
            r.0 <= r.1 <= self@.text.len(),
    {
        let chars = chars_of(self.text.as_str());
        let mut kinds: Vec<bool> = Vec::new();
        let mut i: usize = 0;
        while i < chars.len()
            invariant
                i <= chars@.len(),
                kinds@.len() == i,
                forall|j: int| 0 <= j < i ==> #[trigger] kinds@[j] == in_word(chars@[j]),
            decreases chars.len() - i,
        {
            let c = chars[i];
            kinds.push(char_is_alphanumeric(c) || c == '_');
            i += 1;
        }
        assert(kinds@ == word_kinds(self@.text));
        run_at(kinds.as_slice(), at)
    }

    /// A click at a char offset. One click places the caret, two select the word
    /// under it, three or more select everything.
    pub fn click(&mut self, at: usize, count: u32)
        requires
            old(self).wf(),
        ensures
            final(self).wf(),
            count == 2 ==> exists|word: (int, int)|
                is_word_at(word_kinds(old(self)@.text), at as int, word) && final(self)@
                    == #[trigger] old(self)@.clicked(at as int, count, word),
            count != 2 ==> final(self)@ == old(self)@.clicked(at as int, count, (0, 0)),
    {
        if count == 2 {
            let (start, end) = self.word_at(at);
            self.anchor = Some(start);
            self.cursor = end;
            assert(self@ == old(self)@.clicked(at as int, count, (start as int, end as int)));
        } else if count >= 3 {
            self.select_all();
        } else {
            let len: usize = self.len();
            self.cursor = if at < len {
                at
            } else {
                len
            };
            self.anchor = None;
        }
    }

    /// A drag to a char offset, extending from wherever the drag began.
    pub fn drag(&mut self, to: usize)
        requires
            old(self).wf(),
        ensures
            final(self).wf(),
            final(self)@ == old(self)@.dragged(to as int),
    {
        let len: usize = self.len();
        self.move_to(
            if to < len {
                to
            } else {
                len
            },
            true,
        );
    }
}

/// A character typed and taken back leaves the text and the caret as they were.
pub proof fn law_backspace_undoes_typing(v: EditorView, ch: char)
    requires
        v.wf(),
        v.selection() is None,
        v.has_room(ch),
    ensures
        v.inserted(ch).backspaced() == (EditorView { anchor: None, ..v }),
{
    assert(v.inserted(ch).backspaced().text == v.text);
}

/// A character deleted forwards and typed again leaves the text as it was.
pub proof fn law_typing_undoes_delete(v: EditorView)
    requires
        v.wf(),
        v.selection() is None,
        v.cursor < v.text.len(),
    ensures
        v.deleted().has_room(v.text[v.cursor]),
        v.deleted().inserted(v.text[v.cursor]).text == v.text,
{
    let c = v.text[v.cursor];
    let before = v.text.take(v.cursor);
    let after = v.text.skip(v.cursor + 1);
    assert(v.deleted().text == before + after);
    assert(v.text == before + seq![c] + after);
    text::lemma_encode_concat(before, after);
    text::lemma_encode_concat(before, seq![c]);
    text::lemma_encode_concat(before + seq![c], after);
    assert(v.deleted().inserted(c).text == v.text);
}

/// An edit leaves no selection behind, so the next keystroke eats nothing nobody
/// selected. A paste that does not fit is no edit: it changes nothing.
pub proof fn law_an_edit_leaves_no_selection(v: EditorView, ch: char, s: Seq<char>)
    ensures
        v.inserted(ch).selection() is None,
        v.backspaced().selection() is None,
        v.deleted().selection() is None,
        v.can_paste(s) ==> v.pasted(s).selection() is None,
        !v.can_paste(s) ==> v.pasted(s) == v,
{
}

/// Pasting what was cut puts it back.
pub proof fn law_a_paste_puts_back_what_was_cut(v: EditorView)
    requires
        v.wf(),
        v.selection() is Some,
    ensures
        v.without_selection().can_paste(v.selected()),
        v.without_selection().pasted(v.selected()).text == v.text,
{
    let (a, b) = v.selection()->0;
    let s = v.selected();
    let before = v.text.take(a);
    let after = v.text.skip(b);
    assert(v.text == before + s + after);
    text::lemma_encode_concat(before, after);
    text::lemma_encode_concat(before, s);
    text::lemma_encode_concat(before + s, after);
    assert(v.without_selection().pasted(s).text == v.text);
}

/// Editing everything selected is starting over.
pub proof fn law_editing_everything_starts_over(v: EditorView, ch: char)
    requires
        v.wf(),
        v.text.len() > 0,
    ensures
        v.all_selected().selected() == v.text,
        v.all_selected().backspaced().text == Seq::<char>::empty(),
        v.all_selected().deleted().text == Seq::<char>::empty(),
        v.all_selected().inserted(ch).text == seq![ch],
{
    let e = v.all_selected();
    assert(e.selected() == v.text);
    assert(e.without_selection().text == Seq::<char>::empty());
    text::lemma_byte_len_bounds(Seq::<char>::empty());
    text::lemma_byte_len_bounds(seq![ch]);
    assert(e.inserted(ch).text == seq![ch]);
}

/// A step there and a step back under shift selects nothing, and a step without
/// shift only ever collapses a selection to its near end.
pub proof fn law_steps_undo_each_other(v: EditorView)
    requires
        v.wf(),
    ensures
        v.anchor is None && v.cursor > 0 ==> v.stepped_left(true).stepped_right(true).selection() is None
            && v.stepped_left(true).stepped_right(true).cursor == v.cursor,
        v.anchor is None && v.cursor < v.text.len() ==> v.stepped_right(true).stepped_left(
            true,
        ).selection() is None && v.stepped_right(true).stepped_left(true).cursor == v.cursor,
        v.selection() matches Some((a, b)) ==> v.stepped_left(false).cursor == a && v.stepped_right(
            false,
        ).cursor == b && v.stepped_left(false).selection() is None && v.stepped_right(
            false,
        ).selection() is None,
{
}

} // verus!
