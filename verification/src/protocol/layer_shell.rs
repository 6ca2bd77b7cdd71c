//! zwlr_layer_shell_v1 and zwlr_layer_surface_v1 requests.
//!
//! The layer shell protocol allows creating surfaces that appear as overlays above
//! all windows, perfect for launchers, panels, etc.
use vstd::prelude::*;

use crate::platform::error::Result;
use crate::platform::protocol::{
    Layer, LAYER_SHELL_GET_LAYER_SURFACE, LAYER_SURFACE_ACK_CONFIGURE,
    LAYER_SURFACE_SET_ANCHOR, LAYER_SURFACE_SET_EXCLUSIVE_ZONE,
    LAYER_SURFACE_SET_KEYBOARD_INTERACTIVITY, LAYER_SURFACE_SET_MARGIN, LAYER_SURFACE_SET_SIZE,
};
use crate::platform::wire::Arg;
use crate::socket;
use crate::socket::WaylandSocket;

verus! {

/// Keyboard interactivity for a layer surface.
///
/// OnDemand requires layer-shell v4; on v1-v3 the field is a 0/1 boolean.
/// Exclusive holds a keyboard grab; OnDemand can yield focus to other windows.
#[derive(Debug, Clone, Copy, PartialEq, Eq, Structural)]
pub enum KeyboardInteractivity {
    /// No keyboard focus.
    Off,
    /// Exclusive keyboard focus (grab); never yields to other windows.
    Exclusive,
    /// Focusable like a normal window; loses focus on click-away or alt-tab.
    OnDemand,
}

impl KeyboardInteractivity {
    /// The mode's number on the wire.
    pub open spec fn spec_value(self) -> u32 {
        match self {
            KeyboardInteractivity::Off => 0,
            KeyboardInteractivity::Exclusive => 1,
            KeyboardInteractivity::OnDemand => 2,
        }
    }

    pub fn value(self) -> (r: u32)
        ensures
            r == self.spec_value(),
    {
        match self {
            KeyboardInteractivity::Off => 0,
            KeyboardInteractivity::Exclusive => 1,
            KeyboardInteractivity::OnDemand => 2,
        }
    }
}

/// Send zwlr_layer_shell_v1.get_layer_surface request.
/// Creates a layer surface from a wl_surface. An output of 0 lets the compositor
/// choose.
pub fn get_layer_surface(
    socket: &mut WaylandSocket,
    layer_shell_id: u32,
    layer_surface_id: u32,
    surface_id: u32,
    output_id: u32,
    layer: Layer,
    namespace: &str,
) -> (r: Result<()>)
    requires
        old(socket).wf(),
    ensures
        final(socket).wf(),
        socket::requests(
            old(socket)@,
            final(socket)@,
            r,
            layer_shell_id,
            LAYER_SHELL_GET_LAYER_SURFACE,
            seq![
                Arg::NewId(layer_surface_id),
                Arg::Object(surface_id),
                Arg::Object(output_id),
                Arg::Uint(layer.spec_value()),
                Arg::Str(namespace),
            ],
            Seq::empty(),
        ),
{
    let args = [
        Arg::NewId(layer_surface_id),
        Arg::Object(surface_id),
        Arg::Object(output_id),
        Arg::Uint(layer.value()),
        Arg::Str(namespace),
    ];
    let fds: [i32; 0] = [];
    assert(fds@ =~= Seq::<i32>::empty());
    assert(args@ =~= seq![
        Arg::NewId(layer_surface_id),
        Arg::Object(surface_id),
        Arg::Object(output_id),
        Arg::Uint(layer.spec_value()),
        Arg::Str(namespace),
    ]);
    socket::request(socket, layer_shell_id, LAYER_SHELL_GET_LAYER_SURFACE, args.as_slice(), fds.as_slice())
}

/// Send zwlr_layer_surface_v1.set_size request.
/// Sets the desired size of the surface. If either value is 0, the compositor
/// will assign a size based on anchoring.
pub fn set_size(
    socket: &mut WaylandSocket,
    layer_surface_id: u32,
    width: u32,
    height: u32,
) -> (r: Result<()>)
    requires
        old(socket).wf(),
    ensures
        final(socket).wf(),
        socket::requests(
            old(socket)@,
            final(socket)@,
            r,
            layer_surface_id,
            LAYER_SURFACE_SET_SIZE,
            seq![Arg::Uint(width), Arg::Uint(height)],
            Seq::empty(),
        ),
{
    let args = [Arg::Uint(width), Arg::Uint(height)];
    let fds: [i32; 0] = [];
    assert(fds@ =~= Seq::<i32>::empty());
    assert(args@ =~= seq![Arg::Uint(width), Arg::Uint(height)]);
    socket::request(socket, layer_surface_id, LAYER_SURFACE_SET_SIZE, args.as_slice(), fds.as_slice())
}

/// Send zwlr_layer_surface_v1.set_anchor request.
/// Anchor edges determine where the surface is placed on the output.
pub fn set_anchor(
    socket: &mut WaylandSocket,
    layer_surface_id: u32,
    anchor_flags: u32,
) -> (r: Result<()>)
    requires
        old(socket).wf(),
    ensures
        final(socket).wf(),
        socket::requests(
            old(socket)@,
            final(socket)@,
            r,
            layer_surface_id,
            LAYER_SURFACE_SET_ANCHOR,
            seq![Arg::Uint(anchor_flags)],
            Seq::empty(),
        ),
{
    let args = [Arg::Uint(anchor_flags)];
    let fds: [i32; 0] = [];
    assert(fds@ =~= Seq::<i32>::empty());
    assert(args@ =~= seq![Arg::Uint(anchor_flags)]);
    socket::request(socket, layer_surface_id, LAYER_SURFACE_SET_ANCHOR, args.as_slice(), fds.as_slice())
}

/// Send zwlr_layer_surface_v1.set_exclusive_zone request.
/// Exclusive zone reserves space for the surface (like a panel). Set to -1 to
/// ignore exclusive zones from other surfaces. Set to 0 to not reserve any space.
pub fn set_exclusive_zone(
    socket: &mut WaylandSocket,
    layer_surface_id: u32,
    zone: i32,
) -> (r: Result<()>)
    requires
        old(socket).wf(),
    ensures
        final(socket).wf(),
        socket::requests(
            old(socket)@,
            final(socket)@,
            r,
            layer_surface_id,
            LAYER_SURFACE_SET_EXCLUSIVE_ZONE,
            seq![Arg::Int(zone)],
            Seq::empty(),
        ),
{
    let args = [Arg::Int(zone)];
    let fds: [i32; 0] = [];
    assert(fds@ =~= Seq::<i32>::empty());
    assert(args@ =~= seq![Arg::Int(zone)]);
    socket::request(socket, layer_surface_id, LAYER_SURFACE_SET_EXCLUSIVE_ZONE, args.as_slice(), fds.as_slice())
}

/// Send zwlr_layer_surface_v1.set_margin request.
/// Sets the margin from the anchor edges.
pub fn set_margin(
    socket: &mut WaylandSocket,
    layer_surface_id: u32,
    top: i32,
    right: i32,
    bottom: i32,
    left: i32,
) -> (r: Result<()>)
    requires
        old(socket).wf(),
    ensures
        final(socket).wf(),
        socket::requests(
            old(socket)@,
            final(socket)@,
            r,
            layer_surface_id,
            LAYER_SURFACE_SET_MARGIN,
            seq![Arg::Int(top), Arg::Int(right), Arg::Int(bottom), Arg::Int(left)],
            Seq::empty(),
        ),
{
    let args = [Arg::Int(top), Arg::Int(right), Arg::Int(bottom), Arg::Int(left)];
    let fds: [i32; 0] = [];
    assert(fds@ =~= Seq::<i32>::empty());
    assert(args@ =~= seq![
        Arg::Int(top),
        Arg::Int(right),
        Arg::Int(bottom),
        Arg::Int(left),
    ]);
    socket::request(socket, layer_surface_id, LAYER_SURFACE_SET_MARGIN, args.as_slice(), fds.as_slice())
}

/// Send zwlr_layer_surface_v1.set_keyboard_interactivity request.
/// Sets how the surface interacts with keyboard input.
pub fn set_keyboard_interactivity(
    socket: &mut WaylandSocket,
    layer_surface_id: u32,
    interactivity: KeyboardInteractivity,
) -> (r: Result<()>)
    requires
        old(socket).wf(),
    ensures
        final(socket).wf(),
        socket::requests(
            old(socket)@,
            final(socket)@,
            r,
            layer_surface_id,
            LAYER_SURFACE_SET_KEYBOARD_INTERACTIVITY,
            seq![Arg::Uint(interactivity.spec_value())],
            Seq::empty(),
        ),
{
    let args = [Arg::Uint(interactivity.value())];
    let fds: [i32; 0] = [];
    assert(fds@ =~= Seq::<i32>::empty());
    assert(args@ =~= seq![Arg::Uint(interactivity.spec_value())]);
    socket::request(socket, layer_surface_id, LAYER_SURFACE_SET_KEYBOARD_INTERACTIVITY, args.as_slice(), fds.as_slice())
}

/// Send zwlr_layer_surface_v1.ack_configure request.
/// Acknowledges a configure event.
pub fn ack_configure(
    socket: &mut WaylandSocket,
    layer_surface_id: u32,
    serial: u32,
) -> (r: Result<()>)
    requires
        old(socket).wf(),
    ensures
        final(socket).wf(),
        socket::requests(
            old(socket)@,
            final(socket)@,
            r,
            layer_surface_id,
            LAYER_SURFACE_ACK_CONFIGURE,
            seq![Arg::Uint(serial)],
            Seq::empty(),
        ),
{
    let args = [Arg::Uint(serial)];
    let fds: [i32; 0] = [];
    assert(fds@ =~= Seq::<i32>::empty());
    assert(args@ =~= seq![Arg::Uint(serial)]);
    socket::request(socket, layer_surface_id, LAYER_SURFACE_ACK_CONFIGURE, args.as_slice(), fds.as_slice())
}

} // verus!
