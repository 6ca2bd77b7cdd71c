//! What each event the compositor sends does to the client. What a message asks
//! of the caller comes back as an effect.
use vstd::prelude::*;
use vstd::utf8::*;

use crate::client::{
    Client, ClientView, Global, GlobalView, Interface, Keyboard, Pointer, IFACE_CAP,
    MAX_GLOBALS, REPEAT_CLICK_MS,
};
use crate::clipboard::{Handled, HandledView, is_id};
use crate::clipboard;
use crate::editor::INPUT_CAP;
use crate::platform::arena::ArrayString;
use crate::platform::bytes::from_le_bytes;
use crate::platform::bytes;
use crate::platform::conn::{ConnView, Out};
use crate::platform::conn;
use crate::platform::error::{Error, Result};
use crate::platform::protocol::{
    BTN_LEFT, BUFFER_EV_RELEASE, BUTTON_PRESSED, CALLBACK_EV_DONE, DISPLAY_EV_DELETE_ID,
    DISPLAY_EV_ERROR, KEYBOARD_EV_ENTER, KEYBOARD_EV_KEY, KEYBOARD_EV_KEYMAP, KEYBOARD_EV_LEAVE,
    KEYBOARD_EV_MODIFIERS, KEYBOARD_EV_REPEAT_INFO, KEY_PRESSED, LAYER_SURFACE_ACK_CONFIGURE,
    LAYER_SURFACE_EV_CLOSED, LAYER_SURFACE_EV_CONFIGURE, POINTER_EV_BUTTON, POINTER_EV_ENTER,
    POINTER_EV_MOTION, REGISTRY_EV_GLOBAL, REGISTRY_EV_GLOBAL_REMOVE, SEAT_CAP_KEYBOARD,
    SEAT_CAP_POINTER, SEAT_EV_CAPABILITIES, SEAT_GET_KEYBOARD, SEAT_GET_POINTER, WL_DISPLAY,
};
use crate::platform::syscall::{Fd, RawFd};
use crate::platform::time::Instant;
use crate::platform::wire::{Arg, Fixed, Message, Reader};
use crate::platform::wire;
use crate::present::{PresentView, Surface, MAX_SURFACE_DIM};
use crate::platform::text;

verus! {

/// What a message asks of the caller.
pub enum Effect {
    Nothing,
    /// Say that the compositor reported an error: the object at fault, the code,
    /// and the reason as UTF-8.
    ProtocolError(u32, u32, Vec<u8>),
    /// Load the keymap behind a descriptor: its size and its format. Without a
    /// descriptor no key types anything, which is worth saying.
    Keymap(Option<Fd>, u32, u32),
    /// The modifiers in effect: depressed, latched, locked, and the group.
    Modifiers(u32, u32, u32, u32),
    /// A key was pressed; act on what it means.
    Key(u32),
    /// Write the text to the descriptor, if there is any, and close it.
    Serve(Fd, Option<ArrayString<INPUT_CAP>>),
}

/// What a message asks of the caller, or why it could not be handled.
pub enum EffectView {
    Nothing,
    ProtocolError(nat, nat, Seq<u8>),
    Keymap(Option<RawFd>, u32, u32),
    Modifiers(u32, u32, u32, u32),
    Key(u32),
    Serve(RawFd, Option<Seq<char>>),
    Failed(Error),
}

impl Effect {
    /// Whether an outcome is the one described.
    pub open spec fn is(r: Result<Effect>, v: EffectView) -> bool {
        match v {
            EffectView::Failed(e) => r == Err::<Effect, Error>(e),
            EffectView::Nothing => r matches Ok(Effect::Nothing),
            EffectView::ProtocolError(object, code, t) => r matches Ok(
                Effect::ProtocolError(o, c, b),
            ) && o == object && c == code && b@ == t,
            EffectView::Keymap(fd, size, format) => r matches Ok(Effect::Keymap(f, s, m)) && s
                == size && m == format && match (f, fd) {
                (Some(f), Some(raw)) => f.spec_raw() == raw,
                (None, None) => true,
                _ => false,
            },
            EffectView::Modifiers(d, l, k, g) => r == Ok::<Effect, Error>(
                Effect::Modifiers(d, l, k, g),
            ),
            EffectView::Key(key) => r == Ok::<Effect, Error>(Effect::Key(key)),
            EffectView::Serve(fd, t) => r matches Ok(Effect::Serve(f, s)) && f.spec_raw() == fd
                && clipboard::text_view(s) == t && (s matches Some(s) ==> s.wf()),
        }
    }
}

/// A word of a message body.
pub open spec fn word(body: Seq<u8>, i: int) -> u32 {
    bytes::from_le(body.subrange(4 * i, 4 * i + 4)) as u32
}

/// How many whole words a message body holds.
pub open spec fn words_in(body: Seq<u8>) -> int {
    body.len() as int / 4
}

/// The first words of a message body, as many as there are up to n.
fn words(body: &[u8], n: usize) -> (r: Vec<u32>)
    ensures
        r@.len() == (if words_in(body@) < n {
            words_in(body@)
        } else {
            n as int
        }),
        forall|i: int| 0 <= i < r@.len() ==> #[trigger] r@[i] == word(body@, i),
{
    let mut out: Vec<u32> = Vec::new();
    let mut at: usize = 0;
    let len: usize = body.len();
    while out.len() < n && len - at >= 4
        invariant
            at == 4 * out@.len(),
            at <= len == body@.len(),
            out@.len() <= n,
            forall|i: int| 0 <= i < out@.len() ==> #[trigger] out@[i] == word(body@, i),
        decreases len - at,
    {
        let b = vstd::slice::slice_subrange(body, at, at + 4);
        let v: u64 = from_le_bytes(b);
        proof {
            bytes::lemma_le_of_from_le(b@);
            bytes::lemma_pow256_values();
            let k = out@.len() as int;
            assert(b@ == body@.subrange(4 * k, 4 * k + 4));
        }
        out.push(v as u32);
        at += 4;
    }
    out
}

impl ClientView {
    /// After a wl_display event.
    pub open spec fn display_event(self, opcode: u16, body: Seq<u8>) -> (ClientView, EffectView) {
        if opcode == DISPLAY_EV_ERROR {
            (
                ClientView { running: false, ..self },
                match conn::error_body(body) {
                    Some(e) => EffectView::ProtocolError(e.0, e.1, encode_utf8(e.2)),
                    None => EffectView::Nothing,
                },
            )
        } else if opcode == DISPLAY_EV_DELETE_ID && words_in(body) >= 1 {
            (ClientView { ids: self.ids.recycled(word(body, 0)), ..self }, EffectView::Nothing)
        } else {
            (self, EffectView::Nothing)
        }
    }

    /// The global with a name, or the number of globals.
    pub open spec fn global_named(self, name: u32, i: int) -> int
        decreases self.globals.len() - i,
    {
        if i >= self.globals.len() {
            self.globals.len() as int
        } else if self.globals[i].name == name {
            i
        } else {
            self.global_named(name, i + 1)
        }
    }

    /// With a global tracked, when it is one the launcher binds and there is
    /// room for it.
    pub open spec fn with_global(self, g: GlobalView) -> ClientView {
        if Interface::of_name(g.interface) is Some && text::byte_len(g.interface) <= IFACE_CAP
            && self.globals.len() < MAX_GLOBALS {
            ClientView { globals: self.globals.push(g), ..self }
        } else {
            self
        }
    }

    /// With a global gone.
    pub open spec fn without_global(self, name: u32) -> ClientView {
        let i = self.global_named(name, 0);
        if i < self.globals.len() {
            ClientView { globals: self.globals.update(i, self.globals.last()).drop_last(), ..self }
        } else {
            self
        }
    }

    /// After a wl_registry event.
    pub open spec fn registry_event(self, opcode: u16, body: Seq<u8>) -> (ClientView, EffectView) {
        if opcode == REGISTRY_EV_GLOBAL {
            let rest = body.skip(4);
            let s = wire::read_string(rest);
            let tail = rest.skip(s.1 as int);
            if body.len() < 4 {
                (self, EffectView::Failed(clipboard::truncated()))
            } else {
                match s.0 {
                    Err(e) => (self, EffectView::Failed(e)),
                    Ok(interface) => if tail.len() < 4 {
                        (self, EffectView::Failed(clipboard::truncated()))
                    } else {
                        (
                            self.with_global(
                                GlobalView {
                                    name: clipboard::first_word(body),
                                    interface,
                                    version: clipboard::first_word(tail),
                                },
                            ),
                            EffectView::Nothing,
                        )
                    },
                }
            }
        } else if opcode == REGISTRY_EV_GLOBAL_REMOVE {
            if words_in(body) < 1 {
                (self, EffectView::Failed(clipboard::truncated()))
            } else {
                (self.without_global(word(body, 0)), EffectView::Nothing)
            }
        } else {
            (self, EffectView::Nothing)
        }
    }

    /// With another surface.
    pub open spec fn with_surface(self, s: Surface) -> ClientView {
        ClientView { present: PresentView { surface: Some(s), ..self.present }, ..self }
    }

    /// After an event of the layer surface. A size the launcher can draw at is
    /// taken over; the configure is acknowledged either way.
    pub open spec fn surface_event(self, opcode: u16, body: Seq<u8>) -> (ClientView, EffectView) {
        let s = self.present.surface->0;
        if opcode == LAYER_SURFACE_EV_CONFIGURE {
            if words_in(body) < 3 {
                (self, EffectView::Failed(clipboard::truncated()))
            } else {
                let (w, h) = (word(body, 1), word(body, 2));
                let sized = if 1 <= w <= MAX_SURFACE_DIM && 1 <= h <= MAX_SURFACE_DIM {
                    Surface { width: w, height: h, ..s }
                } else {
                    s
                };
                let ack = wire::message_bytes(
                    s.layer_surface_id,
                    LAYER_SURFACE_ACK_CONFIGURE,
                    seq![Arg::Uint(word(body, 0))],
                );
                match self.socket.put(Out::Msg(ack)) {
                    None => (self.with_surface(sized), EffectView::Failed(conn::full())),
                    Some(c) => (
                        ClientView { socket: c, ..self }.with_surface(
                            Surface { configured: true, ..sized },
                        ),
                        EffectView::Nothing,
                    ),
                }
            }
        } else if opcode == LAYER_SURFACE_EV_CLOSED {
            (ClientView { running: false, ..self }, EffectView::Nothing)
        } else {
            (self, EffectView::Nothing)
        }
    }

    /// With the keyboard asked for, when the seat has one and it was not asked
    /// for before.
    pub open spec fn with_keyboard(self, seat: u32, caps: u32) -> (ClientView, bool) {
        if caps & SEAT_CAP_KEYBOARD != 0 && self.keyboard.id is None {
            let id = self.ids.id();
            let v = ClientView { ids: self.ids.taken(), ..self };
            match self.socket.put(
                Out::Msg(wire::message_bytes(seat, SEAT_GET_KEYBOARD, seq![Arg::NewId(id)])),
            ) {
                None => (v, false),
                Some(c) => (
                    ClientView {
                        socket: c,
                        keyboard: Keyboard { id: Some(id), ..self.keyboard },
                        ..v
                    },
                    true,
                ),
            }
        } else {
            (self, true)
        }
    }

    /// With the pointer asked for, when the seat has one and it was not asked
    /// for before.
    pub open spec fn with_pointer(self, seat: u32, caps: u32) -> (ClientView, bool) {
        if caps & SEAT_CAP_POINTER != 0 && self.pointer.id is None {
            let id = self.ids.id();
            let v = ClientView { ids: self.ids.taken(), ..self };
            match self.socket.put(
                Out::Msg(wire::message_bytes(seat, SEAT_GET_POINTER, seq![Arg::NewId(id)])),
            ) {
                None => (v, false),
                Some(c) => (
                    ClientView {
                        socket: c,
                        pointer: Pointer { id: Some(id), ..self.pointer },
                        ..v
                    },
                    true,
                ),
            }
        } else {
            (self, true)
        }
    }

    /// After a wl_seat event.
    pub open spec fn seat_event(self, seat: u32, opcode: u16, body: Seq<u8>) -> (
        ClientView,
        EffectView,
    ) {
        if opcode == SEAT_EV_CAPABILITIES {
            if words_in(body) < 1 {
                (self, EffectView::Failed(clipboard::truncated()))
            } else {
                let caps = word(body, 0);
                let (v1, ok1) = self.with_keyboard(seat, caps);
                let (v2, ok2) = v1.with_pointer(seat, caps);
                if !ok1 {
                    (v1, EffectView::Failed(conn::full()))
                } else if !ok2 {
                    (v2, EffectView::Failed(conn::full()))
                } else {
                    (ClientView { socket: v2.socket.flushed(), ..v2 }, EffectView::Nothing)
                }
            }
        } else {
            (self, EffectView::Nothing)
        }
    }

    /// With the serial of an input event, when the message got that far.
    pub open spec fn with_serial(self, body: Seq<u8>) -> ClientView {
        if words_in(body) >= 1 {
            ClientView { last_serial: word(body, 0), ..self }
        } else {
            self
        }
    }

    /// After a wl_keyboard event.
    pub open spec fn keyboard_event(self, opcode: u16, body: Seq<u8>, now: Instant) -> (
        ClientView,
        EffectView,
    ) {
        let n = words_in(body);
        if opcode == KEYBOARD_EV_KEYMAP {
            if n < 2 {
                (self, EffectView::Failed(clipboard::truncated()))
            } else if self.socket.fds.len() > 0 {
                (
                    ClientView {
                        socket: ConnView { fds: self.socket.fds.drop_first(), ..self.socket },
                        ..self
                    },
                    EffectView::Keymap(Some(self.socket.fds[0]), word(body, 1), word(body, 0)),
                )
            } else {
                (self, EffectView::Keymap(None, word(body, 1), word(body, 0)))
            }
        } else if opcode == KEYBOARD_EV_ENTER {
            if n < 1 {
                (self, EffectView::Failed(clipboard::truncated()))
            } else {
                (
                    ClientView {
                        keyboard: Keyboard { focused: true, ..self.keyboard },
                        ..self.with_serial(body)
                    },
                    EffectView::Nothing,
                )
            }
        } else if opcode == KEYBOARD_EV_LEAVE {
            (
                ClientView {
                    keyboard: Keyboard { focused: false, ..self.keyboard },
                    running: false,
                    ..self
                },
                EffectView::Nothing,
            )
        } else if opcode == KEYBOARD_EV_KEY {
            let v = self.with_serial(body);
            if n < 4 {
                (v, EffectView::Failed(clipboard::truncated()))
            } else if word(body, 3) == KEY_PRESSED {
                (
                    ClientView { key_repeat: self.key_repeat.pressed(word(body, 2), now), ..v },
                    EffectView::Key(word(body, 2)),
                )
            } else {
                (
                    ClientView { key_repeat: self.key_repeat.released(word(body, 2)), ..v },
                    EffectView::Nothing,
                )
            }
        } else if opcode == KEYBOARD_EV_MODIFIERS {
            if n < 5 {
                (self, EffectView::Failed(clipboard::truncated()))
            } else {
                (
                    self,
                    EffectView::Modifiers(
                        word(body, 1),
                        word(body, 2),
                        word(body, 3),
                        word(body, 4),
                    ),
                )
            }
        } else if opcode == KEYBOARD_EV_REPEAT_INFO {
            if n < 2 {
                (self, EffectView::Failed(clipboard::truncated()))
            } else {
                (
                    ClientView {
                        key_repeat: self.key_repeat.configured(
                            word(body, 0) as i32,
                            word(body, 1) as i32,
                        ),
                        ..self
                    },
                    EffectView::Nothing,
                )
            }
        } else {
            (self, EffectView::Nothing)
        }
    }

    /// With the pointer where words i and i + 1 of a message say, as far as the
    /// message got.
    pub open spec fn pointer_at(self, body: Seq<u8>, i: int) -> ClientView {
        let n = words_in(body);
        ClientView {
            pointer: Pointer {
                x: if n > i {
                    Fixed { raw: word(body, i) as i32 }
                } else {
                    self.pointer.x
                },
                y: if n > i + 1 {
                    Fixed { raw: word(body, i + 1) as i32 }
                } else {
                    self.pointer.y
                },
                ..self.pointer
            },
            ..self
        }
    }

    /// After a wl_pointer event.
    pub open spec fn pointer_event(self, opcode: u16, body: Seq<u8>, now: Instant) -> (
        ClientView,
        EffectView,
    ) {
        let n = words_in(body);
        if opcode == POINTER_EV_ENTER {
            (
                self.with_serial(body).pointer_at(body, 2),
                if n < 4 {
                    EffectView::Failed(clipboard::truncated())
                } else {
                    EffectView::Nothing
                },
            )
        } else if opcode == POINTER_EV_MOTION {
            let v = self.pointer_at(body, 1);
            if n < 3 {
                (v, EffectView::Failed(clipboard::truncated()))
            } else if self.pointer.button_pressed {
                (
                    ClientView {
                        pointer: Pointer { dragging: true, ..v.pointer },
                        input_changed: true,
                        ..v
                    },
                    EffectView::Nothing,
                )
            } else {
                (v, EffectView::Nothing)
            }
        } else if opcode == POINTER_EV_BUTTON {
            let v = self.with_serial(body);
            if n < 4 {
                (v, EffectView::Failed(clipboard::truncated()))
            } else if word(body, 2) != BTN_LEFT {
                (v, EffectView::Nothing)
            } else if word(body, 3) == BUTTON_PRESSED {
                (
                    ClientView { pointer: self.pointer.pressed(now), input_changed: true, ..v },
                    EffectView::Nothing,
                )
            } else {
                (ClientView { pointer: self.pointer.let_go(), ..v }, EffectView::Nothing)
            }
        } else {
            (self, EffectView::Nothing)
        }
    }

    /// After an event of the clipboard's objects.
    pub open spec fn clipboard_event(self, object: u32, opcode: u16, body: Seq<u8>) -> (
        ClientView,
        EffectView,
    ) {
        let (v, c, h) = self.clipboard.handled(self.socket, object, opcode, body);
        (
            ClientView { clipboard: v, socket: c, ..self },
            match h {
                HandledView::Failed(e) => EffectView::Failed(e),
                HandledView::Serve(fd, t) => EffectView::Serve(fd, t),
                _ => EffectView::Nothing,
            },
        )
    }

    /// After a message: which object it is for decides what it does.
    pub open spec fn after(self, object: u32, opcode: u16, body: Seq<u8>, now: Instant) -> (
        ClientView,
        EffectView,
    ) {
        if self.sync_callback == Some(object) {
            (
                ClientView {
                    sync_done: self.sync_done || opcode == CALLBACK_EV_DONE,
                    ..self
                },
                EffectView::Nothing,
            )
        } else if object == WL_DISPLAY {
            self.display_event(opcode, body)
        } else if self.bindings.registry == Some(object) {
            self.registry_event(opcode, body)
        } else if self.present.surface is Some && self.present.surface->0.layer_surface_id
            == object {
            self.surface_event(opcode, body)
        } else if opcode == BUFFER_EV_RELEASE && self.present.owns(object) {
            let (p, c, r) = self.present.released(self.socket, object);
            (
                ClientView { present: p, socket: c, ..self },
                match r {
                    Ok(_) => EffectView::Nothing,
                    Err(e) => EffectView::Failed(e),
                },
            )
        } else if self.bindings.seat == Some(object) {
            self.seat_event(object, opcode, body)
        } else if self.keyboard.id == Some(object) {
            self.keyboard_event(opcode, body, now)
        } else if self.pointer.id == Some(object) {
            self.pointer_event(opcode, body, now)
        } else {
            self.clipboard_event(object, opcode, body)
        }
    }
}

impl Client {
    fn on_display(&mut self, opcode: u16, body: &[u8]) -> (r: Result<Effect>)
        requires
            old(self).wf(),
        ensures
            final(self).wf(),
            final(self)@ == old(self)@.display_event(opcode, body@).0,
            Effect::is(r, old(self)@.display_event(opcode, body@).1),
    {
        if opcode == DISPLAY_EV_ERROR {
            self.running = false;
            if let Some(e) = conn::read_protocol_error(body) {
                let text = vstd::slice::slice_to_vec(e.text.as_bytes());
                return Ok(Effect::ProtocolError(e.object, e.code, text));
            }
        } else if opcode == DISPLAY_EV_DELETE_ID {
            let w = words(body, 1);
            if w.len() == 1 {
                self.ids.recycle(w[0]);
            }
        }
        Ok(Effect::Nothing)
    }

    /// Track a global, when it is one the launcher binds.
    fn add_global(&mut self, name: u32, interface: &str, version: u32)
        requires
            old(self).wf(),
        ensures
            final(self).wf(),
            final(self)@ == old(self)@.with_global(
                GlobalView { name, interface: interface@, version },
            ),
    {
        if Interface::bindable(interface).is_none() {
            return;
        }
        let ghost v = self@;
        let ghost g = GlobalView { name, interface: interface@, version };
        let mut stored: ArrayString<IFACE_CAP> = ArrayString::new();
        proof {
            text::lemma_byte_len_bounds(Seq::<char>::empty());
            assert(Seq::<char>::empty() + interface@ =~= interface@);
        }
        if stored.push_str(interface).is_ok() {
            let _ = self.globals.push(Global { name, interface: stored, version });
        }
        proof {
            if v.globals.len() < MAX_GLOBALS && text::byte_len(interface@) <= IFACE_CAP {
                assert(self@.globals =~= v.globals.push(g));
            } else {
                assert(self@.globals =~= v.globals);
            }
        }
    }

    /// Forget a global.
    fn remove_global(&mut self, name: u32)
        requires
            old(self).wf(),
        ensures
            final(self).wf(),
            final(self)@ == old(self)@.without_global(name),
    {
        let ghost v = self@;
        let mut i: usize = 0;
        while i < self.globals.len()
            invariant
                i <= self.globals@.len(),
                *self == *old(self),
                self.wf(),
                v == self@,
                v.global_named(name, 0) == v.global_named(name, i as int),
            decreases self.globals@.len() - i,
        {
            assert(v.globals[i as int] == self.globals@[i as int]@);
            if self.globals.as_slice()[i].name == name {
                let _ = self.globals.swap_remove(i);
                assert(self@.globals =~= v.globals.update(
                    i as int,
                    v.globals.last(),
                ).drop_last());
                return;
            }
            i += 1;
        }
    }

    fn on_registry(&mut self, opcode: u16, body: &[u8]) -> (r: Result<Effect>)
        requires
            old(self).wf(),
        ensures
            final(self).wf(),
            final(self)@ == old(self)@.registry_event(opcode, body@).0,
            Effect::is(r, old(self)@.registry_event(opcode, body@).1),
    {
        if opcode == REGISTRY_EV_GLOBAL {
            let mut reader = Reader::new(body);
            let name: u32 = reader.u32()?;
            let interface = reader.string()?;
            let version: u32 = reader.u32()?;
            self.add_global(name, interface, version);
        } else if opcode == REGISTRY_EV_GLOBAL_REMOVE {
            let w = words(body, 1);
            if w.len() < 1 {
                return Err(truncated());
            }
            self.remove_global(w[0]);
        }
        Ok(Effect::Nothing)
    }

    fn on_surface(&mut self, opcode: u16, body: &[u8]) -> (r: Result<Effect>)
        requires
            old(self).wf(),
            old(self)@.present.surface is Some,
        ensures
            final(self).wf(),
            final(self)@ == old(self)@.surface_event(opcode, body@).0,
            Effect::is(r, old(self)@.surface_event(opcode, body@).1),
    {
        let ghost v = self@;
        if let Some(mut s) = self.present.surface {
            if opcode == LAYER_SURFACE_EV_CONFIGURE {
                let w = words(body, 3);
                if w.len() < 3 {
                    return Err(truncated());
                }
                if 1 <= w[1] && w[1] <= MAX_SURFACE_DIM && 1 <= w[2] && w[2] <= MAX_SURFACE_DIM {
                    s.width = w[1];
                    s.height = w[2];
                }
                self.present.surface = Some(s);
                let args = [Arg::Uint(w[0])];
                assert(args@ =~= seq![Arg::Uint(word(body@, 0))]);
                self.socket.request(s.layer_surface_id, LAYER_SURFACE_ACK_CONFIGURE, &args)?;
                s.configured = true;
                self.present.surface = Some(s);
            } else if opcode == LAYER_SURFACE_EV_CLOSED {
                self.running = false;
            }
        }
        Ok(Effect::Nothing)
    }

    fn on_seat(&mut self, seat: u32, opcode: u16, body: &[u8]) -> (r: Result<Effect>)
        requires
            old(self).wf(),
            old(self)@.ids.room(2),
        ensures
            final(self).wf(),
            final(self)@ == old(self)@.seat_event(seat, opcode, body@).0,
            Effect::is(r, old(self)@.seat_event(seat, opcode, body@).1),
    {
        if opcode != SEAT_EV_CAPABILITIES {
            return Ok(Effect::Nothing);
        }
        let w = words(body, 1);
        if w.len() < 1 {
            return Err(truncated());
        }
        let caps: u32 = w[0];
        let ghost v = self@;
        // Request keyboard if available
        if caps & SEAT_CAP_KEYBOARD != 0 && self.keyboard.id.is_none() {
            let id: u32 = self.ids.allocate();
            let args = [Arg::NewId(id)];
            assert(args@ =~= seq![Arg::NewId(id)]);
            self.socket.request(seat, SEAT_GET_KEYBOARD, &args)?;
            self.keyboard.id = Some(id);
        }
        assert((self@, true) == v.with_keyboard(seat, caps));
        let ghost v1 = self@;
        // Request pointer if available
        if caps & SEAT_CAP_POINTER != 0 && self.pointer.id.is_none() {
            let id: u32 = self.ids.allocate();
            let args = [Arg::NewId(id)];
            assert(args@ =~= seq![Arg::NewId(id)]);
            self.socket.request(seat, SEAT_GET_POINTER, &args)?;
            self.pointer.id = Some(id);
        }
        assert((self@, true) == v1.with_pointer(seat, caps));
        self.socket.flush();
        Ok(Effect::Nothing)
    }

    fn on_keyboard(&mut self, opcode: u16, body: &[u8], now: Instant) -> (r: Result<Effect>)
        requires
            old(self).wf(),
        ensures
            final(self).wf(),
            final(self)@ == old(self)@.keyboard_event(opcode, body@, now).0,
            Effect::is(r, old(self)@.keyboard_event(opcode, body@, now).1),
    {
        if opcode == KEYBOARD_EV_KEYMAP {
            let w = words(body, 2);
            if w.len() < 2 {
                return Err(truncated());
            }
            let fd = self.socket.take_fd();
            return Ok(Effect::Keymap(fd, w[1], w[0]));
        }
        if opcode == KEYBOARD_EV_ENTER {
            let w = words(body, 1);
            if w.len() < 1 {
                return Err(truncated());
            }
            self.last_serial = w[0];
            self.keyboard.focused = true;
        } else if opcode == KEYBOARD_EV_LEAVE {
            self.keyboard.focused = false;
            self.running = false;
        } else if opcode == KEYBOARD_EV_KEY {
            let w = words(body, 4);
            if w.len() >= 1 {
                self.last_serial = w[0];
            }
            if w.len() < 4 {
                return Err(truncated());
            }
            let key: u32 = w[2];
            if w[3] == KEY_PRESSED {
                self.key_repeat.held_key = Some(key);
                self.key_repeat.press_time = Some(now);
                self.key_repeat.last_repeat = None;
                self.key_repeat.repeating = false;
                return Ok(Effect::Key(key));
            }
            if is_id(self.key_repeat.held_key, key) {
                self.key_repeat.held_key = None;
                self.key_repeat.press_time = None;
                self.key_repeat.repeating = false;
            }
        } else if opcode == KEYBOARD_EV_MODIFIERS {
            let w = words(body, 5);
            if w.len() < 5 {
                return Err(truncated());
            }
            return Ok(Effect::Modifiers(w[1], w[2], w[3], w[4]));
        } else if opcode == KEYBOARD_EV_REPEAT_INFO {
            let w = words(body, 2);
            if w.len() < 2 {
                return Err(truncated());
            }
            let rate: i32 = w[0] as i32;
            let delay: i32 = w[1] as i32;
            if rate >= 0 {
                self.key_repeat.rate = rate as u32;
            }
            if delay >= 0 {
                self.key_repeat.delay_ms = delay as u32;
            }
        }
        Ok(Effect::Nothing)
    }

    fn on_pointer(&mut self, opcode: u16, body: &[u8], now: Instant) -> (r: Result<Effect>)
        requires
            old(self).wf(),
            old(self)@.pointer.click_count < u32::MAX,
        ensures
            final(self).wf(),
            final(self)@ == old(self)@.pointer_event(opcode, body@, now).0,
            Effect::is(r, old(self)@.pointer_event(opcode, body@, now).1),
    {
        if opcode == POINTER_EV_ENTER {
            let w = words(body, 4);
            if w.len() >= 1 {
                self.last_serial = w[0];
            }
            if w.len() >= 3 {
                self.pointer.x = Fixed { raw: w[2] as i32 };
            }
            if w.len() < 4 {
                return Err(truncated());
            }
            self.pointer.y = Fixed { raw: w[3] as i32 };
        } else if opcode == POINTER_EV_MOTION {
            let w = words(body, 3);
            if w.len() >= 2 {
                self.pointer.x = Fixed { raw: w[1] as i32 };
            }
            if w.len() < 3 {
                return Err(truncated());
            }
            self.pointer.y = Fixed { raw: w[2] as i32 };
            if self.pointer.button_pressed {
                self.pointer.dragging = true;
                self.input_changed = true;
            }
        } else if opcode == POINTER_EV_BUTTON {
            let w = words(body, 4);
            if w.len() >= 1 {
                self.last_serial = w[0];
            }
            if w.len() < 4 {
                return Err(truncated());
            }
            if w[2] == BTN_LEFT {
                if w[3] == BUTTON_PRESSED {
                    // Double/triple click detection
                    let again = match self.pointer.last_click_time {
                        Some(t) => now.ms_since(t) < REPEAT_CLICK_MS,
                        None => false,
                    };
                    self.pointer.button_pressed = true;
                    self.pointer.click_count = if again {
                        self.pointer.click_count + 1
                    } else {
                        1
                    };
                    self.pointer.last_click_time = Some(now);
                    self.pointer.clicked = true;
                    self.input_changed = true;
                } else {
                    self.pointer.button_pressed = false;
                    self.pointer.dragging = false;
                }
            }
        }
        Ok(Effect::Nothing)
    }

    /// Handle a received message.
    pub fn handle_message(&mut self, msg: &Message, now: Instant) -> (r: Result<Effect>)
        requires
            old(self).wf(),
            old(self)@.ids.room(2),
            old(self)@.pointer.click_count < u32::MAX,
        ensures
            final(self).wf(),
            final(self)@ == old(self)@.after(msg.object, msg.opcode, msg.body@, now).0,
            Effect::is(r, old(self)@.after(msg.object, msg.opcode, msg.body@, now).1),
    {
        let body = msg.body.as_slice();
        // wl_callback.done (for sync)
        if is_id(self.sync_callback, msg.object) {
            if msg.opcode == CALLBACK_EV_DONE {
                self.sync_done = true;
            }
            return Ok(Effect::Nothing);
        }
        if msg.object == WL_DISPLAY {
            return self.on_display(msg.opcode, body);
        }
        if is_id(self.bindings.registry, msg.object) {
            return self.on_registry(msg.opcode, body);
        }
        if let Some(s) = self.present.surface {
            if s.layer_surface_id == msg.object {
                return self.on_surface(msg.opcode, body);
            }
        }
        // A wl_buffer.release says the compositor has finished with a frame: it
        // is free to draw into again, or, if it was retired by a resize, free to
        // unmap.
        if msg.opcode == BUFFER_EV_RELEASE {
            let ghost v = self@;
            proof {
                lemma_released_foreign(v.present, v.socket, msg.object);
            }
            if self.present.release(&mut self.socket, msg.object)? {
                return Ok(Effect::Nothing);
            }
            assert(self@ == v);
        }
        if is_id(self.bindings.seat, msg.object) {
            return self.on_seat(msg.object, msg.opcode, body);
        }
        if is_id(self.keyboard.id, msg.object) {
            return self.on_keyboard(msg.opcode, body, now);
        }
        if is_id(self.pointer.id, msg.object) {
            return self.on_pointer(msg.opcode, body, now);
        }
        // The clipboard's own events: the offers the compositor describes, the
        // selection it names, and the requests to serve what we copied.
        match self.clipboard.handle(&mut self.socket, msg.object, msg.opcode, body)? {
            Handled::Serve(fd, text) => Ok(Effect::Serve(fd, text)),
            _ => Ok(Effect::Nothing),
        }
    }
}

proof fn lemma_released_foreign(p: PresentView, c: ConnView, buffer: u32)
    ensures
        p.owns(buffer) ==> !(p.released(c, buffer).2 matches Ok(false)),
        !p.owns(buffer) ==> p.released(c, buffer) == (p, c, Ok::<bool, Error>(false)),
{
    lemma_frame_with(p, buffer, 0);
    lemma_retired_with(p, buffer, 0);
}

proof fn lemma_frame_with(p: PresentView, buffer: u32, i: int)
    requires
        0 <= i,
    ensures
        i <= p.frames.len() ==> i <= p.frame_with(buffer, i) <= p.frames.len(),
    decreases p.frames.len() - i,
{
    if i < p.frames.len() {
        lemma_frame_with(p, buffer, i + 1);
    }
}

proof fn lemma_retired_with(p: PresentView, buffer: u32, i: int)
    requires
        0 <= i,
    ensures
        i <= p.retired.len() ==> i <= p.retired_with(buffer, i) <= p.retired.len(),
    decreases p.retired.len() - i,
{
    if i < p.retired.len() {
        lemma_retired_with(p, buffer, i + 1);
    }
}

/// The error of a message that ends too soon.
fn truncated() -> (r: Error)
    ensures
        r == clipboard::truncated(),
{
    Error::msg("truncated wayland message")
}

/// What the compositor sends never edits the text, picks an action or asks the
/// clipboard for anything: only the user does.
pub proof fn law_messages_leave_the_input_alone(
    v: ClientView,
    object: u32,
    opcode: u16,
    body: Seq<u8>,
    now: Instant,
)
    ensures
        v.after(object, opcode, body, now).0.editor == v.editor,
        v.after(object, opcode, body, now).0.pending_action == v.pending_action,
        v.after(object, opcode, body, now).0.clipboard_op == v.clipboard_op,
{
}

/// A protocol error ends the session, whatever it says and whether or not it can
/// be read, and nothing a message does starts it again.
pub proof fn law_a_protocol_error_ends_the_session(
    v: ClientView,
    object: u32,
    opcode: u16,
    body: Seq<u8>,
    now: Instant,
)
    ensures
        v.sync_callback != Some(WL_DISPLAY) ==> !v.after(
            WL_DISPLAY,
            DISPLAY_EV_ERROR,
            body,
            now,
        ).0.running,
        !v.running ==> !v.after(object, opcode, body, now).0.running,
{
}

/// Whether a surface can be drawn at its size.
pub open spec fn drawable(v: ClientView) -> bool {
    v.present.surface matches Some(s) ==> 1 <= s.width <= MAX_SURFACE_DIM && 1 <= s.height
        <= MAX_SURFACE_DIM
}

/// Whatever size the compositor names, the surface keeps one it can be drawn at.
pub proof fn law_the_surface_stays_drawable(
    v: ClientView,
    object: u32,
    opcode: u16,
    body: Seq<u8>,
    now: Instant,
)
    requires
        drawable(v),
    ensures
        drawable(v.after(object, opcode, body, now).0),
{
}

/// Whether every tracked global is one the launcher binds.
pub open spec fn globals_bindable(v: ClientView) -> bool {
    v.globals.len() <= MAX_GLOBALS && forall|i: int|
        0 <= i < v.globals.len() ==> Interface::of_name((#[trigger] v.globals[i]).interface) is Some
}

/// Only globals the launcher binds are tracked, however many are advertised.
pub proof fn law_only_bindable_globals_are_tracked(
    v: ClientView,
    object: u32,
    opcode: u16,
    body: Seq<u8>,
    now: Instant,
)
    requires
        globals_bindable(v),
    ensures
        globals_bindable(v.after(object, opcode, body, now).0),
{
    let w = v.after(object, opcode, body, now).0;
    if w.globals != v.globals {
        lemma_global_named(v, word(body, 0), 0);
        assert forall|i: int| 0 <= i < w.globals.len() implies Interface::of_name(
            (#[trigger] w.globals[i]).interface,
        ) is Some by {
            if i < v.globals.len() {
                assert(w.globals[i] == v.globals[i] || w.globals[i] == v.globals[v.globals.len()
                    - 1]);
            }
        }
    }
}

proof fn lemma_global_named(v: ClientView, name: u32, i: int)
    requires
        0 <= i <= v.globals.len(),
    ensures
        i <= v.global_named(name, i) <= v.globals.len(),
    decreases v.globals.len() - i,
{
    if i < v.globals.len() {
        lemma_global_named(v, name, i + 1);
    }
}

} // verus!
