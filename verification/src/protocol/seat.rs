//! wl_seat requests.
use vstd::prelude::*;

use crate::platform::error::Result;
use crate::platform::protocol::{
    SEAT_GET_KEYBOARD, SEAT_GET_POINTER,
};
use crate::platform::wire::Arg;
use crate::socket;
use crate::socket::WaylandSocket;

verus! {

/// Send wl_seat.get_pointer request.
pub fn get_pointer(socket: &mut WaylandSocket, seat_id: u32, pointer_id: u32) -> (r: Result<()>)
    requires
        old(socket).wf(),
    ensures
        final(socket).wf(),
        socket::requests(
            old(socket)@,
            final(socket)@,
            r,
            seat_id,
            SEAT_GET_POINTER,
            seq![Arg::NewId(pointer_id)],
            Seq::empty(),
        ),
{
    let args = [Arg::NewId(pointer_id)];
    let fds: [i32; 0] = [];
    assert(fds@ =~= Seq::<i32>::empty());
    assert(args@ =~= seq![Arg::NewId(pointer_id)]);
    socket::request(socket, seat_id, SEAT_GET_POINTER, args.as_slice(), fds.as_slice())
}

/// Send wl_seat.get_keyboard request.
pub fn get_keyboard(
    socket: &mut WaylandSocket,
    seat_id: u32,
    keyboard_id: u32,
) -> (r: Result<()>)
    requires
        old(socket).wf(),
    ensures
        final(socket).wf(),
        socket::requests(
            old(socket)@,
            final(socket)@,
            r,
            seat_id,
            SEAT_GET_KEYBOARD,
            seq![Arg::NewId(keyboard_id)],
            Seq::empty(),
        ),
{
    let args = [Arg::NewId(keyboard_id)];
    let fds: [i32; 0] = [];
    assert(fds@ =~= Seq::<i32>::empty());
    assert(args@ =~= seq![Arg::NewId(keyboard_id)]);
    socket::request(socket, seat_id, SEAT_GET_KEYBOARD, args.as_slice(), fds.as_slice())
}

} // verus!
