//! Keyboard translation: what the launcher makes of the bytes a keymap arrives
//! as and the text a key produces.
//!
//! The layout itself, dead keys and group switching are libxkbcommon's. This
//! answers only machine questions: which character a key typed, and which part
//! of the keymap file is text. What a key means is the app's to decide.
use vstd::prelude::*;
use vstd::utf8::*;

use crate::platform::error::{Error, Result};
use crate::platform::text::str_from_utf8;

verus! {

// Linux evdev keycodes, as wl_keyboard reports them. Physical key positions, so
// they say nothing about what a key types under the user's layout.
pub const KEY_ESC: u32 = 1;

pub const KEY_BACKSPACE: u32 = 14;

pub const KEY_TAB: u32 = 15;

pub const KEY_ENTER: u32 = 28;

pub const KEY_LEFTCTRL: u32 = 29;

pub const KEY_A: u32 = 30;

pub const KEY_LEFTSHIFT: u32 = 42;

pub const KEY_X: u32 = 45;

pub const KEY_C: u32 = 46;

pub const KEY_V: u32 = 47;

pub const KEY_RIGHTSHIFT: u32 = 54;

pub const KEY_LEFTALT: u32 = 56;

pub const KEY_CAPSLOCK: u32 = 58;

pub const KEY_RIGHTCTRL: u32 = 97;

pub const KEY_RIGHTALT: u32 = 100;

pub const KEY_HOME: u32 = 102;

pub const KEY_UP: u32 = 103;

pub const KEY_LEFT: u32 = 105;

pub const KEY_RIGHT: u32 = 106;

pub const KEY_END: u32 = 107;

pub const KEY_DOWN: u32 = 108;

pub const KEY_DELETE: u32 = 111;

/// Wayland passes raw evdev keycodes; XKB expects them offset by 8.
pub const EVDEV_OFFSET: u32 = 8;

/// The one keymap format there is.
pub const XKB_KEYMAP_FORMAT_TEXT_V1: u32 = 1;

/// The keycode XKB knows a key by. One near the top of the range stays there
/// rather than wrap round to some other key.
pub fn xkb_keycode(keycode: u32) -> (r: u32)
    ensures
        r == if keycode + EVDEV_OFFSET > u32::MAX {
            u32::MAX as int
        } else {
            keycode + EVDEV_OFFSET
        },
{
    keycode.saturating_add(EVDEV_OFFSET)
}

/// Bytes without the NULs at their end.
pub open spec fn trimmed(b: Seq<u8>) -> Seq<u8>
    decreases b.len(),
{
    if b.len() > 0 && b.last() == 0 {
        trimmed(b.drop_last())
    } else {
        b
    }
}

/// The text of the keymap the compositor sent.
///
/// The payload is NUL-terminated and padded, so the trailing NULs are trimmed.
/// A format that is not text and an empty keymap are errors before any parsing.
pub fn load_keymap(bytes: &[u8], format: u32) -> (r: Result<&[u8]>)
    ensures
        format != XKB_KEYMAP_FORMAT_TEXT_V1 ==> r == Err::<&[u8], Error>(
            Error::of_msg("compositor sent an unsupported keymap format"),
        ),
        format == XKB_KEYMAP_FORMAT_TEXT_V1 && trimmed(bytes@).len() == 0 ==> r == Err::<
            &[u8],
            Error,
        >(Error::of_msg("compositor sent an empty keymap")),
        format == XKB_KEYMAP_FORMAT_TEXT_V1 && trimmed(bytes@).len() > 0 ==> (r matches Ok(t)
            && t@ == trimmed(bytes@)),
{
    if format != XKB_KEYMAP_FORMAT_TEXT_V1 {
        return Err(Error::msg("compositor sent an unsupported keymap format"));
    }
    let mut end: usize = bytes.len();
    assert(bytes@.take(end as int) =~= bytes@);
    while end > 0 && bytes[end - 1] == 0
        invariant
            end <= bytes@.len(),
            trimmed(bytes@) == trimmed(bytes@.take(end as int)),
        decreases end,
    {
        assert(bytes@.take(end as int).drop_last() =~= bytes@.take(end - 1));
        end -= 1;
    }
    if end == 0 {
        return Err(Error::msg("compositor sent an empty keymap"));
    }
    let text = vstd::slice::slice_subrange(bytes, 0, end);
    assert(text@ =~= bytes@.take(end as int));
    Ok(text)
}

/// Whether a character can be typed: it is not a control character.
pub open spec fn types(c: char) -> bool {
    c >= ' ' && c != '\u{7f}'
}

/// The character a key typed, from the bytes it produced: one character that is
/// not a control character.
pub open spec fn typed(b: Seq<u8>) -> Option<char> {
    if valid_utf8(b) && decode_utf8(b).len() == 1 && types(decode_utf8(b)[0]) {
        Some(decode_utf8(b)[0])
    } else {
        None
    }
}

/// How many bytes are in the buffer, when the key needed `needed` of them.
pub open spec fn written(len: int, needed: int) -> int {
    if needed <= 0 {
        0
    } else if needed < len {
        needed
    } else {
        len
    }
}

/// The character a key types, if it types one at all, from the buffer its text
/// was written to and the length that text needed.
///
/// None for a key that produces no text (a modifier, an arrow), for a control
/// character, and for a compose or dead-key sequence that yields more than one
/// code point: a launcher's input box carries single chars. The length can
/// exceed the buffer for a long compose sequence or a hostile keymap, so it is
/// clamped to what was written.
pub fn key_char(buf: &[u8], needed: i32) -> (r: Option<char>)
    ensures
        r == typed(buf@.take(written(buf@.len() as int, needed as int))),
{
    proof {
        lemma_nothing_types_nothing();
        assert(buf@.take(0) =~= Seq::<u8>::empty());
    }
    if needed <= 0 {
        return None;
    }
    let n: usize = if (needed as u64) < buf.len() as u64 {
        needed as usize
    } else {
        buf.len()
    };
    let part = vstd::slice::slice_subrange(buf, 0, n);
    assert(part@ =~= buf@.take(n as int));
    match str_from_utf8(part) {
        None => None,
        Some(s) => {
            proof {
                encode_utf8_decode_utf8(s@);
            }
            if s.unicode_len() != 1 {
                return None;
            }
            let c = s.get_char(0);
            if (c as u32) < 0x20 || c as u32 == 0x7f {
                return None;
            }
            Some(c)
        },
    }
}

proof fn lemma_nothing_types_nothing()
    ensures
        typed(Seq::<u8>::empty()) is None,
{
    assert(encode_utf8(Seq::<char>::empty()) =~= Seq::<u8>::empty());
    encode_utf8_decode_utf8(Seq::<char>::empty());
}

/// Whatever a key types can be put in the input: a single character, never a
/// control character.
pub proof fn law_a_key_types_one_printable_character(b: Seq<u8>)
    ensures
        typed(b) matches Some(c) ==> types(c) && encode_utf8(seq![c]) == b,
{
    if typed(b) is Some {
        decode_utf8_encode_utf8(b);
        assert(decode_utf8(b) =~= seq![decode_utf8(b)[0]]);
    }
}

} // verus!
