//! What a key press means to the launcher.
//!
//! The platform layer answers only machine questions (which character a key
//! types under the modifiers in effect), so the meaning is assigned here.
use vstd::prelude::*;

use crate::platform::xkb::{
    KEY_A, KEY_BACKSPACE, KEY_C, KEY_CAPSLOCK, KEY_DELETE, KEY_DOWN, KEY_END, KEY_ENTER, KEY_ESC,
    KEY_HOME, KEY_LEFT, KEY_LEFTALT, KEY_LEFTCTRL, KEY_LEFTSHIFT, KEY_RIGHT, KEY_RIGHTALT,
    KEY_RIGHTCTRL, KEY_RIGHTSHIFT, KEY_TAB, KEY_UP, KEY_V, KEY_X,
};

verus! {

/// What a key press means to the launcher.
#[derive(Debug, Clone, Copy, PartialEq, Eq, Structural)]
pub enum KeyAction {
    Char(char),
    Backspace,
    Delete,
    Enter,
    Escape,
    Tab,
    Up,
    Down,
    Left,
    Right,
    Home,
    End,
    SelectAll,
    Copy,
    Cut,
    Paste,
    Nothing,
}

/// Whether a key is a modifier.
pub open spec fn is_modifier(keycode: u32) -> bool {
    ||| keycode == KEY_LEFTSHIFT
    ||| keycode == KEY_RIGHTSHIFT
    ||| keycode == KEY_LEFTCTRL
    ||| keycode == KEY_RIGHTCTRL
    ||| keycode == KEY_LEFTALT
    ||| keycode == KEY_RIGHTALT
    ||| keycode == KEY_CAPSLOCK
}

/// What an editing key does, whatever the layout and the modifiers.
pub open spec fn editing_key(keycode: u32) -> KeyAction {
    if keycode == KEY_ENTER {
        KeyAction::Enter
    } else if keycode == KEY_ESC {
        KeyAction::Escape
    } else if keycode == KEY_TAB {
        KeyAction::Tab
    } else if keycode == KEY_BACKSPACE {
        KeyAction::Backspace
    } else if keycode == KEY_DELETE {
        KeyAction::Delete
    } else if keycode == KEY_UP {
        KeyAction::Up
    } else if keycode == KEY_DOWN {
        KeyAction::Down
    } else if keycode == KEY_LEFT {
        KeyAction::Left
    } else if keycode == KEY_RIGHT {
        KeyAction::Right
    } else if keycode == KEY_HOME {
        KeyAction::Home
    } else if keycode == KEY_END {
        KeyAction::End
    } else {
        KeyAction::Nothing
    }
}

/// What a key does with Ctrl held.
pub open spec fn shortcut(keycode: u32) -> KeyAction {
    if keycode == KEY_A {
        KeyAction::SelectAll
    } else if keycode == KEY_C {
        KeyAction::Copy
    } else if keycode == KEY_X {
        KeyAction::Cut
    } else if keycode == KEY_V {
        KeyAction::Paste
    } else {
        KeyAction::Nothing
    }
}

/// What a key press stands for, given whether Ctrl is in effect and the
/// character the key types under the layout.
pub open spec fn meaning(keycode: u32, ctrl: bool, typed: Option<char>) -> KeyAction {
    if is_modifier(keycode) {
        KeyAction::Nothing
    } else if editing_key(keycode) != KeyAction::Nothing {
        editing_key(keycode)
    } else if ctrl {
        shortcut(keycode)
    } else {
        match typed {
            Some(c) => KeyAction::Char(c),
            None => KeyAction::Nothing,
        }
    }
}

/// Read a key press as the action it stands for.
///
/// The editing keys and the Ctrl shortcuts dispatch on the physical evdev
/// keycode, not on the character the key would type. That is the convention
/// every other Linux app follows: Ctrl+V is the V-position key, whatever the
/// user's layout makes that key type. Only ordinary text input goes through the
/// layout, as the character it types.
pub fn key_action(keycode: u32, ctrl: bool, typed: Option<char>) -> (r: KeyAction)
    ensures
        r == meaning(keycode, ctrl, typed),
{
    match keycode {
        // A modifier on its own is not an action.
        KEY_LEFTSHIFT | KEY_RIGHTSHIFT | KEY_LEFTCTRL | KEY_RIGHTCTRL | KEY_LEFTALT
        | KEY_RIGHTALT | KEY_CAPSLOCK => return KeyAction::Nothing,
        KEY_ENTER => return KeyAction::Enter,
        KEY_ESC => return KeyAction::Escape,
        KEY_TAB => return KeyAction::Tab,
        KEY_BACKSPACE => return KeyAction::Backspace,
        KEY_DELETE => return KeyAction::Delete,
        KEY_UP => return KeyAction::Up,
        KEY_DOWN => return KeyAction::Down,
        KEY_LEFT => return KeyAction::Left,
        KEY_RIGHT => return KeyAction::Right,
        KEY_HOME => return KeyAction::Home,
        KEY_END => return KeyAction::End,
        _ => {},
    }
    if ctrl {
        return match keycode {
            KEY_A => KeyAction::SelectAll,
            KEY_C => KeyAction::Copy,
            KEY_X => KeyAction::Cut,
            KEY_V => KeyAction::Paste,
            _ => KeyAction::Nothing,
        };
    }
    match typed {
        Some(c) => KeyAction::Char(c),
        None => KeyAction::Nothing,
    }
}

/// The editing keys and the modifiers read the same under any layout, with or
/// without Ctrl; without a layout a letter types nothing.
pub proof fn law_editing_keys_ignore_the_layout(
    keycode: u32,
    ctrl: bool,
    other_ctrl: bool,
    typed: Option<char>,
    other: Option<char>,
)
    ensures
        is_modifier(keycode) || editing_key(keycode) != KeyAction::Nothing ==> meaning(
            keycode,
            ctrl,
            typed,
        ) == meaning(keycode, other_ctrl, other),
        meaning(keycode, true, typed) == meaning(keycode, true, other),
        editing_key(keycode) == KeyAction::Nothing ==> meaning(keycode, false, None)
            == KeyAction::Nothing,
{
}

} // verus!
