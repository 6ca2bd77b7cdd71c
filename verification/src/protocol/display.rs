//! wl_display and wl_registry requests.
use vstd::prelude::*;

use crate::platform::error::Result;
use crate::platform::protocol::{
    DISPLAY_GET_REGISTRY, DISPLAY_SYNC, REGISTRY_BIND, WL_DISPLAY,
};
use crate::platform::wire::Arg;
use crate::socket;
use crate::socket::WaylandSocket;

verus! {

/// Send wl_display.get_registry request.
/// Creates a new wl_registry object with the given ID.
pub fn get_registry(socket: &mut WaylandSocket, registry_id: u32) -> (r: Result<()>)
    requires
        old(socket).wf(),
    ensures
        final(socket).wf(),
        socket::requests(
            old(socket)@,
            final(socket)@,
            r,
            WL_DISPLAY,
            DISPLAY_GET_REGISTRY,
            seq![Arg::NewId(registry_id)],
            Seq::empty(),
        ),
{
    let args = [Arg::NewId(registry_id)];
    let fds: [i32; 0] = [];
    assert(fds@ =~= Seq::<i32>::empty());
    assert(args@ =~= seq![Arg::NewId(registry_id)]);
    socket::request(socket, WL_DISPLAY, DISPLAY_GET_REGISTRY, args.as_slice(), fds.as_slice())
}

/// Send wl_display.sync request.
/// Creates a callback that fires when all previous requests are processed.
pub fn sync(socket: &mut WaylandSocket, callback_id: u32) -> (r: Result<()>)
    requires
        old(socket).wf(),
    ensures
        final(socket).wf(),
        socket::requests(
            old(socket)@,
            final(socket)@,
            r,
            WL_DISPLAY,
            DISPLAY_SYNC,
            seq![Arg::NewId(callback_id)],
            Seq::empty(),
        ),
{
    let args = [Arg::NewId(callback_id)];
    let fds: [i32; 0] = [];
    assert(fds@ =~= Seq::<i32>::empty());
    assert(args@ =~= seq![Arg::NewId(callback_id)]);
    socket::request(socket, WL_DISPLAY, DISPLAY_SYNC, args.as_slice(), fds.as_slice())
}

/// Send wl_registry.bind request.
/// Binds to a global object, creating a client-side proxy.
pub fn registry_bind(
    socket: &mut WaylandSocket,
    registry_id: u32,
    name: u32,
    interface: &str,
    version: u32,
    new_id: u32,
) -> (r: Result<()>)
    requires
        old(socket).wf(),
    ensures
        final(socket).wf(),
        socket::requests(
            old(socket)@,
            final(socket)@,
            r,
            registry_id,
            REGISTRY_BIND,
            seq![Arg::Uint(name), Arg::Bind { interface, version, new_id }],
            Seq::empty(),
        ),
{
    let args = [Arg::Uint(name), Arg::Bind { interface, version, new_id }];
    let fds: [i32; 0] = [];
    assert(fds@ =~= Seq::<i32>::empty());
    assert(args@ =~= seq![Arg::Uint(name), Arg::Bind { interface, version, new_id }]);
    socket::request(socket, registry_id, REGISTRY_BIND, args.as_slice(), fds.as_slice())
}

} // verus!
