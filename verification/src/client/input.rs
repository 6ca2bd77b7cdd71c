//! What key presses, clicks and clipboard operations do to the client.
use vstd::prelude::*;

use crate::client::{Client, ClientView, KeyRepeat, PendingAction, Pointer};
use crate::clipboard;
use crate::clipboard::{Op, OpView, Source, TextMime};
use crate::editor;
use crate::editor::EditorView;
use crate::keys::KeyAction;
use crate::platform::error::Error;
use crate::platform::time::Instant;

verus! {

impl ClientView {
    /// With the input edited.
    pub open spec fn edited(self, editor: EditorView) -> ClientView {
        ClientView { editor, input_changed: true, ..self }
    }

    /// After a key press, by what it means.
    pub open spec fn acted(self, action: KeyAction, shift: bool) -> ClientView {
        let e = self.editor;
        match action {
            KeyAction::Char(ch) => if e.has_room(ch) {
                self.edited(e.inserted(ch))
            } else {
                ClientView { editor: e.inserted(ch), ..self }
            },
            KeyAction::Backspace => self.edited(e.backspaced()),
            KeyAction::Delete => self.edited(e.deleted()),
            KeyAction::Left => self.edited(e.stepped_left(shift)),
            KeyAction::Right => self.edited(e.stepped_right(shift)),
            KeyAction::Home => self.edited(e.moved(0, shift)),
            KeyAction::End => self.edited(e.moved(e.text.len() as int, shift)),
            KeyAction::SelectAll => self.edited(e.all_selected()),
            KeyAction::Copy => if e.selection() is Some {
                ClientView { clipboard_op: OpView::Copy(e.selected()), ..self }
            } else {
                self
            },
            KeyAction::Cut => if e.selection() is Some {
                ClientView { clipboard_op: OpView::Cut(e.selected()), ..self }
            } else {
                self
            },
            KeyAction::Paste => ClientView { clipboard_op: OpView::Paste, ..self },
            KeyAction::Enter => ClientView {
                pending_action: PendingAction::Launch,
                running: false,
                ..self
            },
            KeyAction::Escape => ClientView {
                editor: EditorView { text: Seq::empty(), cursor: 0, anchor: None },
                running: false,
                ..self
            },
            KeyAction::Up => if shift {
                self.edited(e.all_selected())
            } else {
                ClientView { pending_action: PendingAction::SelectUp, ..self }
            },
            KeyAction::Down => if shift {
                self.edited(e.all_selected())
            } else {
                ClientView { pending_action: PendingAction::SelectDown, ..self }
            },
            KeyAction::Tab => self,
            KeyAction::Nothing => self,
        }
    }

    /// The key to act on again, when the held one is due.
    pub open spec fn repeats(self, now: Instant) -> Option<u32> {
        if self.key_repeat.due_at(now) == Some(0u32) {
            self.key_repeat.held_key
        } else {
            None
        }
    }

    /// After a copy or a cut is handed to the clipboard. What the clipboard made
    /// of it comes back too.
    pub open spec fn copied(self, s: Seq<char>) -> (
        ClientView,
        core::result::Result<(), Error>,
    ) {
        let (clip, socket, ids, r) = self.clipboard.owned(
            self.socket,
            self.ids,
            self.bindings.data_device_manager,
            self.last_serial,
            s,
        );
        (ClientView { clipboard: clip, socket, ids, clipboard_op: OpView::Nothing, ..self }, r)
    }
}

/// What is left to do of a clipboard operation.
pub enum ClipboardStep {
    /// Nothing: it is done, or there was none.
    Done,
    /// Say why a copy failed.
    CopyFailed(Error),
    /// Say why a cut failed.
    CutFailed(Error),
    /// Say why a paste failed.
    PasteFailed(Error),
    /// Say that the pasted text does not fit the input.
    TooLong,
    /// Ask for the data of an offer, as a type, and paste what comes.
    Receive(u32, TextMime),
}

impl Client {
    /// Turn a key press into editor calls plus whatever the launcher has to do
    /// about it: a clipboard transfer, a move in the result list, a launch.
    pub fn handle_key_action(&mut self, action: KeyAction, shift: bool)
        requires
            old(self).wf(),
        ensures
            final(self).wf(),
            final(self)@ == old(self)@.acted(action, shift),
    {
        match action {
            KeyAction::Char(ch) => {
                if self.editor.insert(ch) {
                    self.input_changed = true;
                }
            },
            KeyAction::Backspace => {
                self.editor.backspace();
                self.input_changed = true;
            },
            KeyAction::Delete => {
                self.editor.delete();
                self.input_changed = true;
            },
            KeyAction::Left => {
                self.editor.left(shift);
                self.input_changed = true;
            },
            KeyAction::Right => {
                self.editor.right(shift);
                self.input_changed = true;
            },
            KeyAction::Home => {
                self.editor.home(shift);
                self.input_changed = true;
            },
            KeyAction::End => {
                self.editor.end(shift);
                self.input_changed = true;
            },
            KeyAction::SelectAll => {
                self.editor.select_all();
                self.input_changed = true;
            },
            KeyAction::Copy => {
                if let Some(text) = self.editor.selected_text() {
                    self.clipboard_op = Op::Copy(text);
                }
            },
            KeyAction::Cut => {
                if let Some(text) = self.editor.selected_text() {
                    self.clipboard_op = Op::Cut(text);
                }
            },
            KeyAction::Paste => {
                self.clipboard_op = Op::Paste;
            },
            KeyAction::Enter => {
                self.pending_action = PendingAction::Launch;
                self.running = false;
            },
            KeyAction::Escape => {
                self.editor.clear();
                self.running = false;
            },
            KeyAction::Up => {
                if shift {
                    self.editor.select_all();
                    self.input_changed = true;
                } else {
                    // Result-list navigation leaves the text caret where it is,
                    // so it moves the selection rather than changing the input.
                    self.pending_action = PendingAction::SelectUp;
                }
            },
            KeyAction::Down => {
                if shift {
                    self.editor.select_all();
                    self.input_changed = true;
                } else {
                    self.pending_action = PendingAction::SelectDown;
                }
            },
            KeyAction::Tab => {},
            KeyAction::Nothing => {},
        }
    }

    /// Process key repeat if a key is being held. The key to act on again, when
    /// it is due.
    pub fn process_key_repeat(&mut self, now: Instant) -> (r: Option<u32>)
        requires
            old(self).wf(),
        ensures
            final(self).wf(),
            r == old(self)@.repeats(now),
            final(self)@ == if r is Some {
                ClientView {
                    key_repeat: KeyRepeat {
                        repeating: true,
                        last_repeat: Some(now),
                        ..old(self)@.key_repeat
                    },
                    ..old(self)@
                }
            } else {
                old(self)@
            },
    {
        if self.key_repeat.should_repeat(now) {
            if let Some(key) = self.key_repeat.held_key {
                self.key_repeat.repeating = true;
                self.key_repeat.last_repeat = Some(now);
                return Some(key);
            }
        }
        None
    }

    /// A pointer click inside the input box, at a char offset in the text.
    pub fn handle_pointer_click(&mut self, char_offset: usize)
        requires
            old(self).wf(),
        ensures
            final(self).wf(),
            final(self)@ == (ClientView {
                pointer: Pointer { clicked: false, ..old(self)@.pointer },
                ..old(self)@.edited(final(self)@.editor)
            }),
            ({
                let before = old(self)@.editor;
                let count = old(self)@.pointer.click_count;
                &&& count == 2 ==> exists|w: (int, int)|
                    editor::is_word_at(editor::word_kinds(before.text), char_offset as int, w)
                        && final(self)@.editor == #[trigger] before.clicked(
                        char_offset as int,
                        count,
                        w,
                    )
                &&& count != 2 ==> final(self)@.editor == before.clicked(
                    char_offset as int,
                    count,
                    (0, 0),
                )
            }),
    {
        self.editor.click(char_offset, self.pointer.click_count);
        self.pointer.clicked = false;
        self.input_changed = true;
    }

    /// A pointer drag inside the input box, to a char offset in the text.
    pub fn handle_pointer_drag(&mut self, char_offset: usize)
        requires
            old(self).wf(),
        ensures
            final(self).wf(),
            final(self)@ == (ClientView {
                pointer: Pointer { dragging: false, ..old(self)@.pointer },
                ..old(self)@.edited(old(self)@.editor.dragged(char_offset as int))
            }),
    {
        self.editor.drag(char_offset);
        self.pointer.dragging = false;
        self.input_changed = true;
    }

    /// Service the clipboard operation the last key press asked for.
    pub fn process_clipboard(&mut self) -> (r: ClipboardStep)
        requires
            old(self).wf(),
            old(self)@.ids.room(1),
        ensures
            final(self).wf(),
            ({
                let v = old(self)@;
                let idle = ClientView { clipboard_op: OpView::Nothing, ..v };
                match v.clipboard_op {
                    OpView::Nothing => r is Done && final(self)@ == v,
                    OpView::Copy(s) => final(self)@ == v.copied(s).0 && match v.copied(s).1 {
                        Ok(_) => r is Done,
                        Err(e) => r == ClipboardStep::CopyFailed(e),
                    },
                    OpView::Cut(s) => ({
                        let w = v.copied(s).0;
                        final(self)@ == w.edited(w.editor.without_selection())
                    }) && match v.copied(s).1 {
                        Ok(_) => r is Done,
                        Err(e) => r == ClipboardStep::CutFailed(e),
                    },
                    OpView::Paste => match v.clipboard.source_text {
                        Some(s) => final(self)@ == idle.edited(v.editor.pasted(s))
                            && if v.editor.can_paste(s) {
                            r is Done
                        } else {
                            r is TooLong
                        },
                        None => final(self)@ == idle && match v.clipboard.selection_offer {
                            None => r == ClipboardStep::PasteFailed(
                                Error::of_msg("no clipboard selection"),
                            ),
                            Some(offer) => match v.clipboard.selection_mime {
                                None => r == ClipboardStep::PasteFailed(
                                    Error::of_msg("the clipboard has no text on it"),
                                ),
                                Some(m) => r == ClipboardStep::Receive(offer, m),
                            },
                        },
                    },
                }
            }),
    {
        let mut op = Op::Nothing;
        std::mem::swap(&mut op, &mut self.clipboard_op);
        let manager_id = self.bindings.data_device_manager;
        let serial: u32 = self.last_serial;
        match op {
            Op::Copy(text) => {
                match self.clipboard.set(
                    &mut self.socket,
                    manager_id,
                    &mut self.ids,
                    serial,
                    text.as_str(),
                ) {
                    Ok(_) => ClipboardStep::Done,
                    Err(e) => ClipboardStep::CopyFailed(e),
                }
            },
            Op::Cut(text) => {
                let done = self.clipboard.set(
                    &mut self.socket,
                    manager_id,
                    &mut self.ids,
                    serial,
                    text.as_str(),
                );
                self.editor.delete_selection();
                self.input_changed = true;
                match done {
                    Ok(_) => ClipboardStep::Done,
                    Err(e) => ClipboardStep::CutFailed(e),
                }
            },
            Op::Paste => match self.clipboard.read() {
                Ok(Source::Owned(text)) => {
                    if self.paste(text.as_str()) {
                        ClipboardStep::Done
                    } else {
                        ClipboardStep::TooLong
                    }
                },
                Ok(Source::Offer(offer, mime)) => ClipboardStep::Receive(offer, mime),
                Err(e) => ClipboardStep::PasteFailed(e),
            },
            Op::Nothing => ClipboardStep::Done,
        }
    }

    /// Paste text into the input. False when it does not fit, and nothing
    /// changes but that the input is drawn again.
    pub fn paste(&mut self, text: &str) -> (r: bool)
        requires
            old(self).wf(),
        ensures
            final(self).wf(),
            r == old(self)@.editor.can_paste(text@),
            final(self)@ == old(self)@.edited(old(self)@.editor.pasted(text@)),
    {
        let fits = self.editor.paste(text);
        self.input_changed = true;
        fits
    }
}

/// Moving through the result list leaves the text and the caret where they are.
pub proof fn law_list_navigation_leaves_the_text(v: ClientView, action: KeyAction)
    requires
        action == KeyAction::Up || action == KeyAction::Down,
    ensures
        v.acted(action, false).editor == v.editor,
        v.acted(action, false).input_changed == v.input_changed,
{
}

/// Only Enter and Escape end the launcher from the keyboard, and only Enter
/// launches.
pub proof fn law_only_enter_and_escape_end_it(v: ClientView, action: KeyAction, shift: bool)
    requires
        v.running,
    ensures
        v.acted(action, shift).running == !(action == KeyAction::Enter || action
            == KeyAction::Escape),
        action == KeyAction::Enter ==> v.acted(action, shift).pending_action
            == PendingAction::Launch,
        v.pending_action != PendingAction::Launch && action != KeyAction::Enter ==> v.acted(
            action,
            shift,
        ).pending_action != PendingAction::Launch,
{
}

/// A cut hands over exactly what it removes.
pub proof fn law_a_cut_keeps_the_text(v: ClientView, shift: bool)
    requires
        v.editor.wf(),
        v.editor.selection() is Some,
    ensures
        v.acted(KeyAction::Cut, shift).clipboard_op == OpView::Cut(v.editor.selected()),
        v.editor.without_selection().pasted(v.editor.selected()).text == v.editor.text,
{
    editor::law_a_paste_puts_back_what_was_cut(v.editor);
}

} // verus!
