//! wl_shm, wl_shm_pool, and wl_buffer requests.
use vstd::prelude::*;

use crate::platform::error::Result;
use crate::platform::protocol::{
    ShmFormat, BUFFER_DESTROY, SHM_CREATE_POOL, SHM_POOL_CREATE_BUFFER, SHM_POOL_DESTROY,
};
use crate::platform::syscall::RawFd;
use crate::platform::wire::Arg;
use crate::socket;
use crate::socket::WaylandSocket;

verus! {

/// Send wl_shm.create_pool request.
/// Creates a shared memory pool from a file descriptor.
pub fn create_pool(
    socket: &mut WaylandSocket,
    shm_id: u32,
    pool_id: u32,
    fd: RawFd,
    size: i32,
) -> (r: Result<()>)
    requires
        old(socket).wf(),
    ensures
        final(socket).wf(),
        socket::requests(
            old(socket)@,
            final(socket)@,
            r,
            shm_id,
            SHM_CREATE_POOL,
            seq![Arg::NewId(pool_id), Arg::Int(size)],
            seq![fd],
        ),
{
    let args = [Arg::NewId(pool_id), Arg::Int(size)];
    let fds: [RawFd; 1] = [fd];
    assert(fds@ =~= seq![fd]);
    assert(args@ =~= seq![Arg::NewId(pool_id), Arg::Int(size)]);
    socket::request(socket, shm_id, SHM_CREATE_POOL, args.as_slice(), fds.as_slice())
}

/// Send wl_shm_pool.create_buffer request.
/// Creates a buffer from the pool.
pub fn pool_create_buffer(
    socket: &mut WaylandSocket,
    pool_id: u32,
    buffer_id: u32,
    offset: i32,
    width: i32,
    height: i32,
    stride: i32,
    format: ShmFormat,
) -> (r: Result<()>)
    requires
        old(socket).wf(),
    ensures
        final(socket).wf(),
        socket::requests(
            old(socket)@,
            final(socket)@,
            r,
            pool_id,
            SHM_POOL_CREATE_BUFFER,
            seq![
                Arg::NewId(buffer_id),
                Arg::Int(offset),
                Arg::Int(width),
                Arg::Int(height),
                Arg::Int(stride),
                Arg::Uint(format.spec_value()),
            ],
            Seq::empty(),
        ),
{
    let args = [
        Arg::NewId(buffer_id),
        Arg::Int(offset),
        Arg::Int(width),
        Arg::Int(height),
        Arg::Int(stride),
        Arg::Uint(format.value()),
    ];
    let fds: [i32; 0] = [];
    assert(fds@ =~= Seq::<i32>::empty());
    assert(args@ =~= seq![
        Arg::NewId(buffer_id),
        Arg::Int(offset),
        Arg::Int(width),
        Arg::Int(height),
        Arg::Int(stride),
        Arg::Uint(format.spec_value()),
    ]);
    socket::request(socket, pool_id, SHM_POOL_CREATE_BUFFER, args.as_slice(), fds.as_slice())
}

/// Send wl_shm_pool.destroy request.
/// Destroys the shared memory pool.
pub fn pool_destroy(socket: &mut WaylandSocket, pool_id: u32) -> (r: Result<()>)
    requires
        old(socket).wf(),
    ensures
        final(socket).wf(),
        socket::requests(
            old(socket)@,
            final(socket)@,
            r,
            pool_id,
            SHM_POOL_DESTROY,
            Seq::<Arg<'_>>::empty(),
            Seq::empty(),
        ),
{
    let args: [Arg<'static>; 0] = [];
    let fds: [i32; 0] = [];
    assert(fds@ =~= Seq::<i32>::empty());
    assert(args@ =~= Seq::<Arg<'static>>::empty());
    socket::request(socket, pool_id, SHM_POOL_DESTROY, args.as_slice(), fds.as_slice())
}

/// Send wl_buffer.destroy request.
/// Destroys the buffer.
pub fn buffer_destroy(socket: &mut WaylandSocket, buffer_id: u32) -> (r: Result<()>)
    requires
        old(socket).wf(),
    ensures
        final(socket).wf(),
        socket::requests(
            old(socket)@,
            final(socket)@,
            r,
            buffer_id,
            BUFFER_DESTROY,
            Seq::<Arg<'_>>::empty(),
            Seq::empty(),
        ),
{
    let args: [Arg<'static>; 0] = [];
    let fds: [i32; 0] = [];
    assert(fds@ =~= Seq::<i32>::empty());
    assert(args@ =~= Seq::<Arg<'static>>::empty());
    socket::request(socket, buffer_id, BUFFER_DESTROY, args.as_slice(), fds.as_slice())
}

} // verus!
