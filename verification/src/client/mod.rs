//! The Wayland client as a state machine: its state, what each event the
//! compositor sends does to it, what each key press does, and the requests that
//! set it up.
//!
//! Reading the socket, the clock and the keyboard layout is the caller's.
pub mod events;
pub mod input;
pub mod setup;

use vstd::prelude::*;

use crate::clipboard::{ClipView, Clipboard, Op, OpView};
use crate::clipboard;
use crate::editor::{Editor, EditorView};
use crate::ids::{IdAllocator, IdsView};
use crate::platform::arena::{ArrayString, ArrayVec};
use crate::platform::conn::{ConnView, Connection};
use crate::platform::protocol::{
    IFACE_COMPOSITOR, IFACE_DATA_DEVICE_MANAGER, IFACE_LAYER_SHELL, IFACE_SEAT, IFACE_SHM,
    VERSION_COMPOSITOR, VERSION_DATA_DEVICE_MANAGER, VERSION_LAYER_SHELL, VERSION_SEAT,
    VERSION_SHM,
};
use crate::platform::time::Instant;
use crate::platform::wire::Fixed;
use crate::present::{Present, PresentView};
use crate::platform::text::str_eq;

verus! {

/// Most globals the compositor advertises that we track.
pub const MAX_GLOBALS: usize = 64;

/// Byte capacity of a stored interface name. Every name kept is one of the five
/// the launcher binds, and each fits.
pub const IFACE_CAP: usize = 64;

/// Two clicks closer than this count as one more of the same.
pub const REPEAT_CLICK_MS: u64 = 400;

/// Information about a global object advertised by the compositor.
pub struct Global {
    pub name: u32,
    pub interface: ArrayString<IFACE_CAP>,
    pub version: u32,
}

/// What a global is.
#[verifier::ext_equal]
pub struct GlobalView {
    pub name: u32,
    pub interface: Seq<char>,
    pub version: u32,
}

impl View for Global {
    type V = GlobalView;

    open spec fn view(&self) -> GlobalView {
        GlobalView { name: self.name, interface: self.interface@, version: self.version }
    }
}

/// What globals are.
pub open spec fn global_views(g: Seq<Global>) -> Seq<GlobalView> {
    Seq::new(g.len(), |i: int| g[i]@)
}

/// An interface the launcher binds.
#[derive(Debug, Clone, Copy, PartialEq, Eq, Structural)]
pub enum Interface {
    Compositor,
    Shm,
    Seat,
    LayerShell,
    DataDeviceManager,
}

impl Interface {
    /// The interface's name.
    pub open spec fn name(self) -> &'static str {
        match self {
            Interface::Compositor => IFACE_COMPOSITOR,
            Interface::Shm => IFACE_SHM,
            Interface::Seat => IFACE_SEAT,
            Interface::LayerShell => IFACE_LAYER_SHELL,
            Interface::DataDeviceManager => IFACE_DATA_DEVICE_MANAGER,
        }
    }

    /// The version the launcher speaks.
    pub open spec fn version(self) -> u32 {
        match self {
            Interface::Compositor => VERSION_COMPOSITOR,
            Interface::Shm => VERSION_SHM,
            Interface::Seat => VERSION_SEAT,
            Interface::LayerShell => VERSION_LAYER_SHELL,
            Interface::DataDeviceManager => VERSION_DATA_DEVICE_MANAGER,
        }
    }

    /// The interface of a name, if the launcher binds it.
    pub open spec fn of_name(s: Seq<char>) -> Option<Interface> {
        if s == IFACE_COMPOSITOR@ {
            Some(Interface::Compositor)
        } else if s == IFACE_SHM@ {
            Some(Interface::Shm)
        } else if s == IFACE_SEAT@ {
            Some(Interface::Seat)
        } else if s == IFACE_LAYER_SHELL@ {
            Some(Interface::LayerShell)
        } else if s == IFACE_DATA_DEVICE_MANAGER@ {
            Some(Interface::DataDeviceManager)
        } else {
            None
        }
    }

    /// Whether the launcher binds this interface, so the global is worth
    /// tracking. A multi-monitor session advertises dozens of wl_output and
    /// per-output globals; filtering at advertise time keeps that flood from
    /// pushing wl_seat or the layer shell past the bounded globals array and
    /// dropping it.
    pub fn bindable(iface: &str) -> (r: Option<Interface>)
        ensures
            r == Self::of_name(iface@),
    {
        if str_eq(iface, IFACE_COMPOSITOR) {
            Some(Interface::Compositor)
        } else if str_eq(iface, IFACE_SHM) {
            Some(Interface::Shm)
        } else if str_eq(iface, IFACE_SEAT) {
            Some(Interface::Seat)
        } else if str_eq(iface, IFACE_LAYER_SHELL) {
            Some(Interface::LayerShell)
        } else if str_eq(iface, IFACE_DATA_DEVICE_MANAGER) {
            Some(Interface::DataDeviceManager)
        } else {
            None
        }
    }

    fn as_str(self) -> (r: &'static str)
        ensures
            r == self.name(),
    {
        match self {
            Interface::Compositor => IFACE_COMPOSITOR,
            Interface::Shm => IFACE_SHM,
            Interface::Seat => IFACE_SEAT,
            Interface::LayerShell => IFACE_LAYER_SHELL,
            Interface::DataDeviceManager => IFACE_DATA_DEVICE_MANAGER,
        }
    }

    fn wanted_version(self) -> (r: u32)
        ensures
            r == self.version(),
    {
        match self {
            Interface::Compositor => VERSION_COMPOSITOR,
            Interface::Shm => VERSION_SHM,
            Interface::Seat => VERSION_SEAT,
            Interface::LayerShell => VERSION_LAYER_SHELL,
            Interface::DataDeviceManager => VERSION_DATA_DEVICE_MANAGER,
        }
    }
}

/// Bound object IDs for essential interfaces.
#[derive(Debug, Clone, Copy, PartialEq, Eq)]
pub struct Bindings {
    pub registry: Option<u32>,
    pub compositor: Option<u32>,
    pub shm: Option<u32>,
    pub seat: Option<u32>,
    pub layer_shell: Option<u32>,
    pub data_device_manager: Option<u32>,
}

impl Default for Bindings {
    fn default() -> (r: Self)
        ensures
            r == Bindings::unbound(),
    {
        Bindings {
            registry: None,
            compositor: None,
            shm: None,
            seat: None,
            layer_shell: None,
            data_device_manager: None,
        }
    }
}

impl Bindings {
    /// Nothing bound.
    pub open spec fn unbound() -> Bindings {
        Bindings {
            registry: None,
            compositor: None,
            shm: None,
            seat: None,
            layer_shell: None,
            data_device_manager: None,
        }
    }

    /// The object bound for an interface.
    pub open spec fn bound(self, i: Interface) -> Option<u32> {
        match i {
            Interface::Compositor => self.compositor,
            Interface::Shm => self.shm,
            Interface::Seat => self.seat,
            Interface::LayerShell => self.layer_shell,
            Interface::DataDeviceManager => self.data_device_manager,
        }
    }

    /// With an interface bound to an object.
    pub open spec fn with(self, i: Interface, id: u32) -> Bindings {
        match i {
            Interface::Compositor => Bindings { compositor: Some(id), ..self },
            Interface::Shm => Bindings { shm: Some(id), ..self },
            Interface::Seat => Bindings { seat: Some(id), ..self },
            Interface::LayerShell => Bindings { layer_shell: Some(id), ..self },
            Interface::DataDeviceManager => Bindings { data_device_manager: Some(id), ..self },
        }
    }

    fn get(&self, i: Interface) -> (r: Option<u32>)
        ensures
            r == self.bound(i),
    {
        match i {
            Interface::Compositor => self.compositor,
            Interface::Shm => self.shm,
            Interface::Seat => self.seat,
            Interface::LayerShell => self.layer_shell,
            Interface::DataDeviceManager => self.data_device_manager,
        }
    }

    fn set(&mut self, i: Interface, id: u32)
        ensures
            *final(self) == old(self).with(i, id),
    {
        match i {
            Interface::Compositor => {
                self.compositor = Some(id);
            },
            Interface::Shm => {
                self.shm = Some(id);
            },
            Interface::Seat => {
                self.seat = Some(id);
            },
            Interface::LayerShell => {
                self.layer_shell = Some(id);
            },
            Interface::DataDeviceManager => {
                self.data_device_manager = Some(id);
            },
        }
    }
}

/// Keyboard state.
#[derive(Debug, Clone, Copy, PartialEq, Eq)]
pub struct Keyboard {
    pub id: Option<u32>,
    pub focused: bool,
}

/// Key repeat state.
#[derive(Debug, Clone, Copy, PartialEq, Eq)]
pub struct KeyRepeat {
    /// Delay before repeat starts (milliseconds)
    pub delay_ms: u32,
    /// Repeat rate (repeats per second)
    pub rate: u32,
    /// Currently held key (keycode)
    pub held_key: Option<u32>,
    /// Time when key was pressed
    pub press_time: Option<Instant>,
    /// Time of last repeat
    pub last_repeat: Option<Instant>,
    /// Whether initial delay has passed
    pub repeating: bool,
}

impl Default for KeyRepeat {
    fn default() -> (r: Self)
        ensures
            r == KeyRepeat::initial(),
    {
        Self {
            delay_ms: 400,
            rate: 25,
            held_key: None,
            press_time: None,
            last_repeat: None,
            repeating: false,
        }
    }
}

/// What is left of a wait.
pub open spec fn left(wait: u32, spent: u32) -> u32 {
    if spent >= wait {
        0
    } else {
        (wait - spent) as u32
    }
}

impl KeyRepeat {
    /// Nothing held, at the usual delay and rate.
    pub open spec fn initial() -> KeyRepeat {
        KeyRepeat {
            delay_ms: 400,
            rate: 25,
            held_key: None,
            press_time: None,
            last_repeat: None,
            repeating: false,
        }
    }

    /// How long until the held key repeats, given the time since it was pressed
    /// and since it last repeated. None when nothing is held, or when the
    /// compositor turned repeat off.
    pub open spec fn due(self, elapsed: u32, since_last: Option<u32>) -> Option<u32> {
        if self.held_key is None || self.rate == 0 {
            None
        } else if !self.repeating {
            Some(left(self.delay_ms, elapsed))
        } else {
            match since_last {
                None => Some(0),
                Some(since) => Some(left(1000u32 / self.rate, since)),
            }
        }
    }

    /// How long until the held key repeats, by the clock.
    pub open spec fn due_at(self, now: Instant) -> Option<u32> {
        match self.press_time {
            None => None,
            Some(press) => self.due(
                ms_between(press, now),
                match self.last_repeat {
                    Some(last) => Some(ms_between(last, now)),
                    None => None,
                },
            ),
        }
    }

    /// With a key pressed.
    pub open spec fn pressed(self, key: u32, now: Instant) -> KeyRepeat {
        KeyRepeat {
            held_key: Some(key),
            press_time: Some(now),
            last_repeat: None,
            repeating: false,
            ..self
        }
    }

    /// With a key released. Another key's release leaves the held one alone.
    pub open spec fn released(self, key: u32) -> KeyRepeat {
        if self.held_key == Some(key) {
            KeyRepeat { held_key: None, press_time: None, repeating: false, ..self }
        } else {
            self
        }
    }

    /// With the rate and the delay the compositor asks for. A rate of zero is
    /// the compositor turning key repeat off, so it is stored; only a negative
    /// rate or delay, which the protocol does not define, keeps the setting.
    pub open spec fn configured(self, rate: i32, delay: i32) -> KeyRepeat {
        KeyRepeat {
            rate: if rate >= 0 {
                rate as u32
            } else {
                self.rate
            },
            delay_ms: if delay >= 0 {
                delay as u32
            } else {
                self.delay_ms
            },
            ..self
        }
    }

    /// How long until the held key repeats, given the time since it was pressed
    /// and since it last repeated.
    pub fn due_in(&self, elapsed: u32, since_last: Option<u32>) -> (r: Option<u32>)
        ensures
            r == self.due(elapsed, since_last),
    {
        // A rate of zero is the compositor turning key repeat off.
        if self.held_key.is_none() || self.rate == 0 {
            return None;
        }
        if !self.repeating {
            return Some(self.delay_ms.saturating_sub(elapsed));
        }
        match since_last {
            None => Some(0),
            // rate is repeats per second, so the gap between repeats is
            // 1000 / rate milliseconds.
            Some(since) => Some((1000 / self.rate).saturating_sub(since)),
        }
    }

    /// How long until the held key repeats.
    pub fn time_until_due(&self, now: Instant) -> (r: Option<u32>)
        ensures
            r == self.due_at(now),
    {
        match self.press_time {
            None => None,
            Some(press) => {
                let since_last: Option<u32> = match self.last_repeat {
                    Some(last) => Some(now.ms_since(last) as u32),
                    None => None,
                };
                self.due_in(now.ms_since(press) as u32, since_last)
            },
        }
    }

    /// Check if it's time to emit a repeat.
    pub fn should_repeat(&self, now: Instant) -> (r: bool)
        ensures
            r == (self.due_at(now) == Some(0u32)),
    {
        match self.time_until_due(now) {
            Some(ms) => ms == 0,
            None => false,
        }
    }
}

/// Milliseconds from one instant to another.
pub open spec fn ms_between(earlier: Instant, now: Instant) -> u32 {
    (if now.at() >= earlier.at() {
        ((now.at() - earlier.at()) / 1_000_000) as u64
    } else {
        0
    }) as u32
}

/// Pointer (mouse) state. Positions are signed 24.8 fixed point, as they come.
#[derive(Debug, Clone, Copy, PartialEq, Eq)]
pub struct Pointer {
    pub id: Option<u32>,
    pub x: Fixed,
    pub y: Fixed,
    pub button_pressed: bool,
    /// Set when a click just happened (cleared by the main loop)
    pub clicked: bool,
    /// Set when dragging with button held (cleared by the main loop)
    pub dragging: bool,
    /// Timestamp of the last click for double-click detection
    pub last_click_time: Option<Instant>,
    /// Click count for double/triple click detection
    pub click_count: u32,
}

impl Pointer {
    /// No pointer.
    pub open spec fn absent() -> Pointer {
        Pointer {
            id: None,
            x: Fixed { raw: 0 },
            y: Fixed { raw: 0 },
            button_pressed: false,
            clicked: false,
            dragging: false,
            last_click_time: None,
            click_count: 0,
        }
    }

    /// With the left button pressed: one more click when it comes soon after the
    /// last, and the first of a new run otherwise.
    pub open spec fn pressed(self, now: Instant) -> Pointer {
        let again = match self.last_click_time {
            Some(t) => (if now.at() >= t.at() {
                (now.at() - t.at()) / 1_000_000
            } else {
                0
            }) < REPEAT_CLICK_MS,
            None => false,
        };
        Pointer {
            button_pressed: true,
            click_count: if again {
                (self.click_count + 1) as u32
            } else {
                1
            },
            last_click_time: Some(now),
            clicked: true,
            ..self
        }
    }

    /// With the left button released.
    pub open spec fn let_go(self) -> Pointer {
        Pointer { button_pressed: false, dragging: false, ..self }
    }
}

impl Default for Pointer {
    fn default() -> (r: Self)
        ensures
            r == Pointer::absent(),
    {
        Pointer {
            id: None,
            x: Fixed { raw: 0 },
            y: Fixed { raw: 0 },
            button_pressed: false,
            clicked: false,
            dragging: false,
            last_click_time: None,
            click_count: 0,
        }
    }
}

#[derive(Debug, Clone, Copy, PartialEq, Eq, Structural)]
pub enum PendingAction {
    Nothing,
    SelectUp,
    SelectDown,
    Launch,
}

/// Client state.
pub struct Client {
    pub socket: Connection,
    pub ids: IdAllocator,
    pub globals: ArrayVec<Global, MAX_GLOBALS>,
    pub bindings: Bindings,
    /// The surface and the frames drawn into it.
    pub present: Present,
    pub running: bool,
    /// Pending sync callback ID
    pub sync_callback: Option<u32>,
    /// Sync completed flag
    pub sync_done: bool,
    /// Keyboard state
    pub keyboard: Keyboard,
    /// Key repeat state
    pub key_repeat: KeyRepeat,
    /// Pointer state
    pub pointer: Pointer,
    /// The search input: text, caret, and selection.
    pub editor: Editor,
    /// What the user asked the clipboard to do, serviced by the event loop.
    pub clipboard_op: Op,
    /// The clipboard's protocol state.
    pub clipboard: Clipboard,
    /// Serial of the most recent input event, required to set the selection.
    pub last_serial: u32,
    /// Flag indicating input changed (for redraw)
    pub input_changed: bool,
    /// Pending action from input
    pub pending_action: PendingAction,
}

/// What a client's state is.
#[verifier::ext_equal]
pub struct ClientView {
    pub socket: ConnView,
    pub ids: IdsView,
    pub globals: Seq<GlobalView>,
    pub bindings: Bindings,
    pub present: PresentView,
    pub running: bool,
    pub sync_callback: Option<u32>,
    pub sync_done: bool,
    pub keyboard: Keyboard,
    pub key_repeat: KeyRepeat,
    pub pointer: Pointer,
    pub editor: EditorView,
    pub clipboard_op: OpView,
    pub clipboard: ClipView,
    pub last_serial: u32,
    pub input_changed: bool,
    pub pending_action: PendingAction,
}

impl View for Client {
    type V = ClientView;

    open spec fn view(&self) -> ClientView {
        ClientView {
            socket: self.socket@,
            ids: self.ids@,
            globals: global_views(self.globals@),
            bindings: self.bindings,
            present: self.present@,
            running: self.running,
            sync_callback: self.sync_callback,
            sync_done: self.sync_done,
            keyboard: self.keyboard,
            key_repeat: self.key_repeat,
            pointer: self.pointer,
            editor: self.editor@,
            clipboard_op: self.clipboard_op@,
            clipboard: self.clipboard@,
            last_serial: self.last_serial,
            input_changed: self.input_changed,
            pending_action: self.pending_action,
        }
    }
}

impl Client {
    pub open spec fn wf(&self) -> bool {
        &&& self.socket.wf()
        &&& self.ids.wf()
        &&& self.globals.wf()
        &&& forall|i: int|
            0 <= i < self.globals@.len() ==> (#[trigger] self.globals@[i]).interface.wf()
        &&& self.present.wf()
        &&& self.editor.wf()
        &&& self.clipboard_op.wf()
        &&& self.clipboard.wf()
    }

    /// Start on a connected socket.
    pub fn new(socket: Connection) -> (r: Self)
        requires
            socket.wf(),
        ensures
            r.wf(),
            r@ == (ClientView {
                socket: socket@,
                ids: IdsView { next: 2, free: Seq::empty() },
                globals: Seq::empty(),
                bindings: Bindings::unbound(),
                present: PresentView {
                    surface: None,
                    frames: Seq::empty(),
                    current: 0,
                    retired: Seq::empty(),
                    gone: Seq::empty(),
                },
                running: true,
                sync_callback: None,
                sync_done: false,
                keyboard: Keyboard { id: None, focused: false },
                key_repeat: KeyRepeat::initial(),
                pointer: Pointer::absent(),
                editor: EditorView { text: Seq::empty(), cursor: 0, anchor: None },
                clipboard_op: OpView::Nothing,
                clipboard: clipboard::no_clipboard(),
                last_serial: 0,
                input_changed: false,
                pending_action: PendingAction::Nothing,
            }),
    {
        let r = Client {
            socket,
            ids: IdAllocator::new(),
            globals: ArrayVec::new(),
            bindings: Bindings::default(),
            present: Present::new(),
            running: true,
            sync_callback: None,
            sync_done: false,
            keyboard: Keyboard { id: None, focused: false },
            key_repeat: KeyRepeat::default(),
            pointer: Pointer::default(),
            editor: Editor::new(),
            clipboard_op: Op::Nothing,
            clipboard: Clipboard::default(),
            last_serial: 0,
            input_changed: false,
            pending_action: PendingAction::Nothing,
        };
        assert(r@.globals =~= Seq::<GlobalView>::empty());
        r
    }
}

/// A repeat lands on its interval rather than on the next wake: waiting part of
/// what is left leaves exactly the rest, so waiting all of it lands on zero.
pub proof fn law_a_repeat_lands_on_its_interval(
    k: KeyRepeat,
    elapsed: u32,
    since: Option<u32>,
    waited: u32,
)
    requires
        k.due(elapsed, since) is Some,
        waited <= k.due(elapsed, since)->0,
        elapsed + waited <= u32::MAX,
        since matches Some(s) ==> s + waited <= u32::MAX,
    ensures
        k.due(
            (elapsed + waited) as u32,
            match since {
                Some(s) => Some((s + waited) as u32),
                None => None,
            },
        ) == Some((k.due(elapsed, since)->0 - waited) as u32),
{
}

/// A rate of zero turns repeat off, and a key let go repeats no more.
pub proof fn law_repeat_can_be_turned_off(k: KeyRepeat, delay: i32, now: Instant, key: u32)
    ensures
        k.configured(0, delay).due_at(now) is None,
        k.held_key == Some(key) ==> k.released(key).due_at(now) is None,
{
}

} // verus!
