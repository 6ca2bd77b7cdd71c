//! wl_compositor and wl_surface requests.
use vstd::prelude::*;

use crate::platform::error::Result;
use crate::platform::protocol::{
    COMPOSITOR_CREATE_SURFACE, SURFACE_ATTACH, SURFACE_COMMIT, SURFACE_DAMAGE,
};
use crate::platform::wire::Arg;
use crate::socket;
use crate::socket::WaylandSocket;

verus! {

/// Send wl_compositor.create_surface request.
pub fn create_surface(
    socket: &mut WaylandSocket,
    compositor_id: u32,
    surface_id: u32,
) -> (r: Result<()>)
    requires
        old(socket).wf(),
    ensures
        final(socket).wf(),
        socket::requests(
            old(socket)@,
            final(socket)@,
            r,
            compositor_id,
            COMPOSITOR_CREATE_SURFACE,
            seq![Arg::NewId(surface_id)],
            Seq::empty(),
        ),
{
    let args = [Arg::NewId(surface_id)];
    let fds: [i32; 0] = [];
    assert(fds@ =~= Seq::<i32>::empty());
    assert(args@ =~= seq![Arg::NewId(surface_id)]);
    socket::request(socket, compositor_id, COMPOSITOR_CREATE_SURFACE, args.as_slice(), fds.as_slice())
}

/// Send wl_surface.attach request.
/// Attaches a buffer to the surface.
pub fn surface_attach(
    socket: &mut WaylandSocket,
    surface_id: u32,
    buffer_id: u32,
    x: i32,
    y: i32,
) -> (r: Result<()>)
    requires
        old(socket).wf(),
    ensures
        final(socket).wf(),
        socket::requests(
            old(socket)@,
            final(socket)@,
            r,
            surface_id,
            SURFACE_ATTACH,
            seq![Arg::Object(buffer_id), Arg::Int(x), Arg::Int(y)],
            Seq::empty(),
        ),
{
    let args = [Arg::Object(buffer_id), Arg::Int(x), Arg::Int(y)];
    let fds: [i32; 0] = [];
    assert(fds@ =~= Seq::<i32>::empty());
    assert(args@ =~= seq![Arg::Object(buffer_id), Arg::Int(x), Arg::Int(y)]);
    socket::request(socket, surface_id, SURFACE_ATTACH, args.as_slice(), fds.as_slice())
}

/// Send wl_surface.damage request.
/// Marks a region as damaged (needs redraw).
pub fn surface_damage(
    socket: &mut WaylandSocket,
    surface_id: u32,
    x: i32,
    y: i32,
    width: i32,
    height: i32,
) -> (r: Result<()>)
    requires
        old(socket).wf(),
    ensures
        final(socket).wf(),
        socket::requests(
            old(socket)@,
            final(socket)@,
            r,
            surface_id,
            SURFACE_DAMAGE,
            seq![Arg::Int(x), Arg::Int(y), Arg::Int(width), Arg::Int(height)],
            Seq::empty(),
        ),
{
    let args = [Arg::Int(x), Arg::Int(y), Arg::Int(width), Arg::Int(height)];
    let fds: [i32; 0] = [];
    assert(fds@ =~= Seq::<i32>::empty());
    assert(args@ =~= seq![Arg::Int(x), Arg::Int(y), Arg::Int(width), Arg::Int(height)]);
    socket::request(socket, surface_id, SURFACE_DAMAGE, args.as_slice(), fds.as_slice())
}

/// Send wl_surface.commit request.
/// Commits pending surface state.
pub fn surface_commit(socket: &mut WaylandSocket, surface_id: u32) -> (r: Result<()>)
    requires
        old(socket).wf(),
    ensures
        final(socket).wf(),
        socket::requests(
            old(socket)@,
            final(socket)@,
            r,
            surface_id,
            SURFACE_COMMIT,
            Seq::<Arg<'_>>::empty(),
            Seq::empty(),
        ),
{
    let args: [Arg<'static>; 0] = [];
    let fds: [i32; 0] = [];
    assert(fds@ =~= Seq::<i32>::empty());
    assert(args@ =~= Seq::<Arg<'static>>::empty());
    socket::request(socket, surface_id, SURFACE_COMMIT, args.as_slice(), fds.as_slice())
}

} // verus!
