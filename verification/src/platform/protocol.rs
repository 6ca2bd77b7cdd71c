//! Opcodes and constants of the Wayland interfaces the launcher uses.
//!
//! A request's or event's opcode is its position in the interface's list. Only
//! what the launcher sends and receives is here, so a gap in the numbering means
//! an opcode nobody needs. Events are prefixed EV_ after the interface, since
//! requests and events share a numbering space.
use vstd::prelude::*;

verus! {

/// The wl_display object always has id 1.
pub const WL_DISPLAY: u32 = 1;

pub const DISPLAY_SYNC: u16 = 0;

pub const DISPLAY_GET_REGISTRY: u16 = 1;

pub const DISPLAY_EV_ERROR: u16 = 0;

pub const DISPLAY_EV_DELETE_ID: u16 = 1;

pub const REGISTRY_BIND: u16 = 0;

pub const REGISTRY_EV_GLOBAL: u16 = 0;

pub const REGISTRY_EV_GLOBAL_REMOVE: u16 = 1;

pub const CALLBACK_EV_DONE: u16 = 0;

pub const COMPOSITOR_CREATE_SURFACE: u16 = 0;

pub const SURFACE_ATTACH: u16 = 1;

pub const SURFACE_DAMAGE: u16 = 2;

pub const SURFACE_COMMIT: u16 = 6;

pub const SEAT_GET_POINTER: u16 = 0;

pub const SEAT_GET_KEYBOARD: u16 = 1;

pub const SEAT_EV_CAPABILITIES: u16 = 0;

/// Capability bits reported by wl_seat's capabilities event.
pub const SEAT_CAP_POINTER: u32 = 1;

pub const SEAT_CAP_KEYBOARD: u32 = 2;

pub const KEYBOARD_EV_KEYMAP: u16 = 0;

pub const KEYBOARD_EV_ENTER: u16 = 1;

pub const KEYBOARD_EV_LEAVE: u16 = 2;

pub const KEYBOARD_EV_KEY: u16 = 3;

pub const KEYBOARD_EV_MODIFIERS: u16 = 4;

pub const KEYBOARD_EV_REPEAT_INFO: u16 = 5;

/// The state argument of a key event.
pub const KEY_PRESSED: u32 = 1;

pub const POINTER_EV_ENTER: u16 = 0;

pub const POINTER_EV_LEAVE: u16 = 1;

pub const POINTER_EV_MOTION: u16 = 2;

pub const POINTER_EV_BUTTON: u16 = 3;

/// The state argument of a button event.
pub const BUTTON_PRESSED: u32 = 1;

/// Linux input button code of the left button.
pub const BTN_LEFT: u32 = 0x110;

// The clipboard. Setting and reading the selection both require keyboard focus,
// which the launcher holds while it is open.
pub const DATA_DEVICE_MANAGER_CREATE_DATA_SOURCE: u16 = 0;

pub const DATA_DEVICE_MANAGER_GET_DATA_DEVICE: u16 = 1;

pub const DATA_DEVICE_SET_SELECTION: u16 = 1;

pub const DATA_DEVICE_EV_DATA_OFFER: u16 = 0;

pub const DATA_DEVICE_EV_SELECTION: u16 = 5;

pub const DATA_SOURCE_OFFER: u16 = 0;

pub const DATA_SOURCE_DESTROY: u16 = 1;

pub const DATA_SOURCE_EV_SEND: u16 = 1;

pub const DATA_SOURCE_EV_CANCELLED: u16 = 2;

pub const DATA_OFFER_RECEIVE: u16 = 1;

pub const DATA_OFFER_DESTROY: u16 = 2;

pub const DATA_OFFER_EV_OFFER: u16 = 0;

// Shared-memory buffers. The launcher renders in software and posts pixels
// through wl_shm.
pub const SHM_CREATE_POOL: u16 = 0;

pub const SHM_POOL_CREATE_BUFFER: u16 = 0;

pub const SHM_POOL_DESTROY: u16 = 1;

pub const BUFFER_DESTROY: u16 = 0;

pub const BUFFER_EV_RELEASE: u16 = 0;

/// wl_shm pixel formats. Only the one the renderer writes is listed.
#[derive(Debug, Clone, Copy, PartialEq, Eq, Structural)]
pub enum ShmFormat {
    Argb8888,
}

impl ShmFormat {
    /// The format's number on the wire.
    pub open spec fn spec_value(self) -> u32 {
        0
    }

    pub fn value(self) -> (r: u32)
        ensures
            r == self.spec_value(),
    {
        0
    }
}

// The layer shell (wlr-layer-shell-unstable-v1): surfaces that sit above
// ordinary windows, which is what makes the launcher an overlay.
pub const LAYER_SHELL_GET_LAYER_SURFACE: u16 = 0;

pub const LAYER_SURFACE_SET_SIZE: u16 = 0;

pub const LAYER_SURFACE_SET_ANCHOR: u16 = 1;

pub const LAYER_SURFACE_SET_EXCLUSIVE_ZONE: u16 = 2;

pub const LAYER_SURFACE_SET_MARGIN: u16 = 3;

pub const LAYER_SURFACE_SET_KEYBOARD_INTERACTIVITY: u16 = 4;

pub const LAYER_SURFACE_ACK_CONFIGURE: u16 = 6;

pub const LAYER_SURFACE_EV_CONFIGURE: u16 = 0;

pub const LAYER_SURFACE_EV_CLOSED: u16 = 1;

/// Which layer a layer surface sits in. The launcher is an overlay, above
/// everything else.
#[derive(Debug, Clone, Copy, PartialEq, Eq, Structural)]
pub enum Layer {
    Overlay,
}

impl Layer {
    /// The layer's number on the wire.
    pub open spec fn spec_value(self) -> u32 {
        3
    }

    pub fn value(self) -> (r: u32)
        ensures
            r == self.spec_value(),
    {
        3
    }
}

/// How a layer surface takes keyboard input.
///
/// OnDemand needs layer-shell v4; on v1 through v3 the field is a 0/1 boolean.
/// Exclusive holds a keyboard grab, OnDemand can yield focus to other windows,
/// which is what lets a click elsewhere dismiss the launcher.
#[derive(Debug, Clone, Copy, PartialEq, Eq, Structural)]
pub enum KeyboardInteractivity {
    Exclusive,
    OnDemand,
}

impl KeyboardInteractivity {
    /// The mode's number on the wire.
    pub open spec fn spec_value(self) -> u32 {
        match self {
            KeyboardInteractivity::Exclusive => 1,
            KeyboardInteractivity::OnDemand => 2,
        }
    }

    pub fn value(self) -> (r: u32)
        ensures
            r == self.spec_value(),
    {
        match self {
            KeyboardInteractivity::Exclusive => 1,
            KeyboardInteractivity::OnDemand => 2,
        }
    }
}

/// The top anchor edge of a layer surface. The launcher only ever anchors to the
/// top and offsets with a margin.
pub const ANCHOR_TOP: u32 = 1;

// Interface names and the versions bound against them. A bind asks for a
// version and the compositor answers with an object speaking it, so the number
// is a promise about which requests and events exist.
pub const IFACE_COMPOSITOR: &'static str = "wl_compositor";

pub const IFACE_SHM: &'static str = "wl_shm";

pub const IFACE_SEAT: &'static str = "wl_seat";

pub const IFACE_LAYER_SHELL: &'static str = "zwlr_layer_shell_v1";

pub const IFACE_DATA_DEVICE_MANAGER: &'static str = "wl_data_device_manager";

pub const VERSION_COMPOSITOR: u32 = 4;

pub const VERSION_SHM: u32 = 1;

pub const VERSION_SEAT: u32 = 5;

/// v4 is what KeyboardInteractivity::OnDemand needs.
pub const VERSION_LAYER_SHELL: u32 = 4;

pub const VERSION_DATA_DEVICE_MANAGER: u32 = 3;

} // verus!
