//! Core wl_data_device clipboard requests.
//!
//! wl_data_device_manager, wl_data_device, wl_data_source, and wl_data_offer
//! together implement the standard Wayland clipboard. Setting and reading the
//! selection both require keyboard focus, which the launcher holds while open.
use vstd::prelude::*;

use crate::platform::error::Result;
use crate::platform::protocol::{
    DATA_DEVICE_MANAGER_CREATE_DATA_SOURCE, DATA_DEVICE_MANAGER_GET_DATA_DEVICE,
    DATA_DEVICE_SET_SELECTION, DATA_OFFER_DESTROY, DATA_OFFER_RECEIVE, DATA_SOURCE_DESTROY,
    DATA_SOURCE_OFFER,
};
use crate::platform::syscall::RawFd;
use crate::platform::wire::Arg;
use crate::socket;
use crate::socket::WaylandSocket;

verus! {

/// Create a data source for offering clipboard content.
pub fn create_data_source(
    socket: &mut WaylandSocket,
    manager_id: u32,
    source_id: u32,
) -> (r: Result<()>)
    requires
        old(socket).wf(),
    ensures
        final(socket).wf(),
        socket::requests(
            old(socket)@,
            final(socket)@,
            r,
            manager_id,
            DATA_DEVICE_MANAGER_CREATE_DATA_SOURCE,
            seq![Arg::NewId(source_id)],
            Seq::empty(),
        ),
{
    let args = [Arg::NewId(source_id)];
    let fds: [i32; 0] = [];
    assert(fds@ =~= Seq::<i32>::empty());
    assert(args@ =~= seq![Arg::NewId(source_id)]);
    socket::request(socket, manager_id, DATA_DEVICE_MANAGER_CREATE_DATA_SOURCE, args.as_slice(), fds.as_slice())
}

/// Get a data device for the given seat.
pub fn get_data_device(
    socket: &mut WaylandSocket,
    manager_id: u32,
    device_id: u32,
    seat_id: u32,
) -> (r: Result<()>)
    requires
        old(socket).wf(),
    ensures
        final(socket).wf(),
        socket::requests(
            old(socket)@,
            final(socket)@,
            r,
            manager_id,
            DATA_DEVICE_MANAGER_GET_DATA_DEVICE,
            seq![Arg::NewId(device_id), Arg::Object(seat_id)],
            Seq::empty(),
        ),
{
    let args = [Arg::NewId(device_id), Arg::Object(seat_id)];
    let fds: [i32; 0] = [];
    assert(fds@ =~= Seq::<i32>::empty());
    assert(args@ =~= seq![Arg::NewId(device_id), Arg::Object(seat_id)]);
    socket::request(socket, manager_id, DATA_DEVICE_MANAGER_GET_DATA_DEVICE, args.as_slice(), fds.as_slice())
}

/// Offer a MIME type on a data source.
pub fn source_offer(
    socket: &mut WaylandSocket,
    source_id: u32,
    mime_type: &str,
) -> (r: Result<()>)
    requires
        old(socket).wf(),
    ensures
        final(socket).wf(),
        socket::requests(
            old(socket)@,
            final(socket)@,
            r,
            source_id,
            DATA_SOURCE_OFFER,
            seq![Arg::Str(mime_type)],
            Seq::empty(),
        ),
{
    let args = [Arg::Str(mime_type)];
    let fds: [i32; 0] = [];
    assert(fds@ =~= Seq::<i32>::empty());
    assert(args@ =~= seq![Arg::Str(mime_type)]);
    socket::request(socket, source_id, DATA_SOURCE_OFFER, args.as_slice(), fds.as_slice())
}

/// Destroy a data source.
pub fn source_destroy(socket: &mut WaylandSocket, source_id: u32) -> (r: Result<()>)
    requires
        old(socket).wf(),
    ensures
        final(socket).wf(),
        socket::requests(
            old(socket)@,
            final(socket)@,
            r,
            source_id,
            DATA_SOURCE_DESTROY,
            Seq::<Arg<'_>>::empty(),
            Seq::empty(),
        ),
{
    let args: [Arg<'static>; 0] = [];
    let fds: [i32; 0] = [];
    assert(fds@ =~= Seq::<i32>::empty());
    assert(args@ =~= Seq::<Arg<'static>>::empty());
    socket::request(socket, source_id, DATA_SOURCE_DESTROY, args.as_slice(), fds.as_slice())
}

/// Set the clipboard selection to a data source. The serial must come from the
/// input event that triggered the copy; the compositor rejects a stale one.
pub fn set_selection(
    socket: &mut WaylandSocket,
    device_id: u32,
    source_id: u32,
    serial: u32,
) -> (r: Result<()>)
    requires
        old(socket).wf(),
    ensures
        final(socket).wf(),
        socket::requests(
            old(socket)@,
            final(socket)@,
            r,
            device_id,
            DATA_DEVICE_SET_SELECTION,
            seq![Arg::Object(source_id), Arg::Uint(serial)],
            Seq::empty(),
        ),
{
    let args = [Arg::Object(source_id), Arg::Uint(serial)];
    let fds: [i32; 0] = [];
    assert(fds@ =~= Seq::<i32>::empty());
    assert(args@ =~= seq![Arg::Object(source_id), Arg::Uint(serial)]);
    socket::request(socket, device_id, DATA_DEVICE_SET_SELECTION, args.as_slice(), fds.as_slice())
}

/// Request clipboard data from an offer, passing the write end of a pipe.
pub fn offer_receive(
    socket: &mut WaylandSocket,
    offer_id: u32,
    mime_type: &str,
    fd: RawFd,
) -> (r: Result<()>)
    requires
        old(socket).wf(),
    ensures
        final(socket).wf(),
        socket::requests(
            old(socket)@,
            final(socket)@,
            r,
            offer_id,
            DATA_OFFER_RECEIVE,
            seq![Arg::Str(mime_type)],
            seq![fd],
        ),
{
    let args = [Arg::Str(mime_type)];
    let fds: [RawFd; 1] = [fd];
    assert(fds@ =~= seq![fd]);
    assert(args@ =~= seq![Arg::Str(mime_type)]);
    socket::request(socket, offer_id, DATA_OFFER_RECEIVE, args.as_slice(), fds.as_slice())
}

/// Destroy an offer.
pub fn offer_destroy(socket: &mut WaylandSocket, offer_id: u32) -> (r: Result<()>)
    requires
        old(socket).wf(),
    ensures
        final(socket).wf(),
        socket::requests(
            old(socket)@,
            final(socket)@,
            r,
            offer_id,
            DATA_OFFER_DESTROY,
            Seq::<Arg<'_>>::empty(),
            Seq::empty(),
        ),
{
    let args: [Arg<'static>; 0] = [];
    let fds: [i32; 0] = [];
    assert(fds@ =~= Seq::<i32>::empty());
    assert(args@ =~= Seq::<Arg<'static>>::empty());
    socket::request(socket, offer_id, DATA_OFFER_DESTROY, args.as_slice(), fds.as_slice())
}

} // verus!
