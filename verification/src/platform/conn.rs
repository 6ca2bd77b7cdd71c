//! The Wayland connection: queues outgoing requests and parses framed messages
//! out of the incoming byte stream.
//!
//! The socket itself is polled, read and written by the caller; what arrives and
//! what the socket accepts is handed in here. The socket is non-blocking, so a
//! write can be cut short halfway through a request: the bytes already in the
//! compositor's buffer are half a message, and only finishing them makes the
//! stream whole again.
use vstd::prelude::*;
use vstd::slice::slice_subrange;
use vstd::utf8::*;

use crate::platform::arena::{ArrayString, ArrayVec};
use crate::platform::bytes;
use crate::platform::error::{Error, Result, EAGAIN};
use crate::platform::protocol::{DISPLAY_EV_ERROR, WL_DISPLAY};
use crate::platform::syscall;
use crate::platform::syscall::{nonblocking_flags, Fd, RawFd, EINTR, PATH_CAP};
use crate::platform::wire;
use crate::platform::wire::{Arg, Message, Reader, HEADER_SIZE, MSG_BODY_CAP};
use crate::platform::text;

verus! {

/// Incoming-data buffer: a full message plus headroom for the next partial read.
pub const RECV_CAP: usize = 131072;

/// Outgoing-request buffer.
pub const OUT_CAP: usize = 8192;

/// Capacity of the scratch buffer one fd-carrying request is encoded into.
pub const REQUEST_CAP: usize = 1024;

/// Most received fds awaiting consumption at once.
pub const MAX_RECV_FDS: usize = 16;

/// How long to wait for the compositor's parting words after a failed send.
pub const DIAGNOSE_TIMEOUT_MS: i32 = 200;

/// Bytes a Unix socket address has for its path.
pub const SUN_PATH_CAP: usize = 108;

/// A connection to the compositor.
pub struct Connection {
    fd: RawFd,
    /// Requests queued since the last flush.
    out: ArrayVec<u8, OUT_CAP>,
    /// Flushed requests on their way out.
    sending: Vec<Packet>,
    pub in_buf: ArrayVec<u8, RECV_CAP>,
    /// How many bytes at the front of in_buf next_message has already consumed.
    /// The consumed prefix is compacted away once per fill.
    pub in_pos: usize,
    /// Received fds awaiting consumption, in arrival order.
    fds: ArrayVec<Fd, MAX_RECV_FDS>,
}

/// What to do next to get the flushed requests out.
#[derive(Clone, Copy, Debug, PartialEq, Eq)]
pub enum SendStep {
    /// Go on with the next write, if there is one.
    Send,
    /// Wait for the socket to become writable, then go on.
    Wait,
    /// The connection is dead; what was left was dropped.
    Failed(Error),
}

/// What wl_display.error says: the object at fault, the code, and the reason.
pub struct ProtocolError<'a> {
    pub object: u32,
    pub code: u32,
    pub text: &'a str,
}

/// The protocol error a wl_display.error body spells, if it can be read.
pub open spec fn error_body(body: Seq<u8>) -> Option<(nat, nat, Seq<char>)> {
    if body.len() < 8 {
        None
    } else {
        match wire::read_string(body.skip(8)).0 {
            Ok(s) => Some(
                (bytes::from_le(body.take(4)), bytes::from_le(body.subrange(4, 8)), s),
            ),
            Err(_) => None,
        }
    }
}

/// The first readable wl_display.error among the whole messages of a stream. A
/// header that cannot be read and a message cut short end the search.
pub open spec fn first_protocol_error(b: Seq<u8>) -> Option<(nat, nat, Seq<char>)>
    decreases b.len(),
{
    let h = wire::header(b);
    if b.len() < HEADER_SIZE || h.2 < HEADER_SIZE || h.2 > b.len() {
        None
    } else if h.0 == WL_DISPLAY && h.1 == DISPLAY_EV_ERROR && error_body(
        b.subrange(HEADER_SIZE as int, h.2 as int),
    ) is Some {
        error_body(b.subrange(HEADER_SIZE as int, h.2 as int))
    } else {
        first_protocol_error(b.skip(h.2 as int))
    }
}

/// The path the compositor's socket is at.
pub open spec fn display_path(runtime_dir: Seq<char>, display: Seq<char>) -> Seq<char> {
    if display.len() > 0 && display[0] == '/' {
        display
    } else {
        runtime_dir.push('/') + display
    }
}

/// Where the compositor listens: $XDG_RUNTIME_DIR/$WAYLAND_DISPLAY, with
/// wayland-0 for an unset display. An absolute WAYLAND_DISPLAY is used as it
/// stands.
pub fn socket_path(runtime_dir: Option<&str>, display: Option<&str>) -> (r: Result<
    ArrayString<PATH_CAP>,
>)
    ensures
        runtime_dir is None ==> r == Err::<ArrayString<PATH_CAP>, Error>(
            Error::of_msg("XDG_RUNTIME_DIR is not set"),
        ),
        runtime_dir matches Some(dir) ==> ({
            let path = display_path(
                dir@,
                if display is Some {
                    display->0@
                } else {
                    "wayland-0"@
                },
            );
            if text::byte_len(path) <= PATH_CAP {
                r is Ok && r->Ok_0.wf() && r->Ok_0@ == path
            } else {
                r == Err::<ArrayString<PATH_CAP>, Error>(
                    Error::of_msg("wayland socket path too long"),
                )
            }
        }),
{
    let dir = match runtime_dir {
        Some(d) => d,
        None => return Err(Error::msg("XDG_RUNTIME_DIR is not set")),
    };
    let name = match display {
        Some(d) => d,
        None => "wayland-0",
    };
    let mut path: ArrayString<PATH_CAP> = ArrayString::new();
    if !name.is_empty() && name.get_char(0) == '/' {
        if path.push_str(name).is_err() {
            return Err(Error::msg("wayland socket path too long"));
        }
        assert(path@ == name@);
    } else {
        let ghost full = display_path(dir@, name@);
        proof {
            text::lemma_encode_concat(dir@.push('/'), name@);
            text::lemma_encode_push(dir@, '/');
        }
        if path.push_str(dir).is_err() {
            return Err(Error::msg("wayland socket path too long"));
        }
        assert(path@ == dir@);
        if path.push('/').is_err() {
            return Err(Error::msg("wayland socket path too long"));
        }
        if path.push_str(name).is_err() {
            return Err(Error::msg("wayland socket path too long"));
        }
        assert(path@ == full);
    }
    Ok(path)
}

/// Whether a result is the address of a socket path: a path with no room for the
/// NUL behind it is an error.
pub open spec fn addresses(path: Seq<char>, r: Result<(Vec<u8>, u32)>) -> bool {
    if text::byte_len(path) >= SUN_PATH_CAP {
        r == Err::<(Vec<u8>, u32), Error>(Error::of_msg("socket path too long"))
    } else {
        &&& r is Ok
        &&& r->Ok_0.0@ == encode_utf8(path) + Seq::new(
            (SUN_PATH_CAP - text::byte_len(path)) as nat,
            |i: int| 0u8,
        )
        &&& r->Ok_0.1 == 2 + text::byte_len(path) + 1
    }
}

/// A Unix socket address: the path field, zero-filled, and the address length
/// that spans the family, the used path bytes and their NUL.
pub fn socket_address(path: &str) -> (r: Result<(Vec<u8>, u32)>)
    ensures
        addresses(path@, r),
{
    let b = path.as_bytes();
    // Leave room for the trailing NUL the kernel expects.
    if b.len() >= SUN_PATH_CAP {
        return Err(Error::msg("socket path too long"));
    }
    let mut field: Vec<u8> = vstd::slice::slice_to_vec(b);
    while field.len() < SUN_PATH_CAP
        invariant
            b@.len() <= field@.len() <= SUN_PATH_CAP,
            field@ == b@ + Seq::new((field@.len() - b@.len()) as nat, |i: int| 0u8),
        decreases SUN_PATH_CAP - field.len(),
    {
        let ghost before = field@;
        field.push(0);
        assert(field@ == b@ + Seq::new((before.len() + 1 - b@.len()) as nat, |i: int| 0u8));
    }
    Ok((field, (b.len() + 3) as u32))
}

/// One write to the socket: bytes, and the fds that ride with the first of them.
pub struct Packet {
    pub bytes: Vec<u8>,
    pub fds: Vec<RawFd>,
}

/// What a packet holds.
#[verifier::ext_equal]
pub struct PacketView {
    pub bytes: Seq<u8>,
    pub fds: Seq<RawFd>,
}

impl View for Packet {
    type V = PacketView;

    open spec fn view(&self) -> PacketView {
        PacketView { bytes: self.bytes@, fds: self.fds@ }
    }
}

/// What a connection holds.
#[verifier::ext_equal]
pub struct ConnView {
    /// The socket.
    pub raw: RawFd,
    /// The requests queued since the last flush.
    pub queued: Seq<u8>,
    /// The flushed requests the socket has not accepted yet.
    pub sending: Seq<PacketView>,
    /// The received bytes no message was parsed out of yet.
    pub pending: Seq<u8>,
    /// How many bytes of the input buffer were parsed already.
    pub consumed: nat,
    /// The received fds awaiting consumption.
    pub fds: Seq<RawFd>,
}

/// What packets hold.
pub open spec fn packets(v: Seq<Packet>) -> Seq<PacketView> {
    Seq::new(v.len(), |i: int| v[i]@)
}

/// One thing put on its way to the compositor.
pub enum Out {
    /// A request.
    Msg(Seq<u8>),
    /// A request that carries fds.
    WithFds(Seq<u8>, Seq<RawFd>),
    /// Everything queued so far is to be written.
    Flush,
}

impl ConnView {
    /// With the queue handed to the writer.
    pub open spec fn flushed(self) -> ConnView {
        if self.queued.len() == 0 {
            self
        } else {
            ConnView {
                queued: Seq::empty(),
                sending: self.sending.push(
                    PacketView { bytes: self.queued, fds: Seq::empty() },
                ),
                ..self
            }
        }
    }

    /// After one thing is put on its way, or None when it does not fit.
    pub open spec fn put(self, o: Out) -> Option<ConnView> {
        match o {
            Out::Msg(msg) => if self.queued.len() + msg.len() > OUT_CAP {
                None
            } else {
                Some(ConnView { queued: self.queued + msg, ..self })
            },
            Out::WithFds(msg, fds) => if msg.len() > REQUEST_CAP {
                None
            } else {
                let c = self.flushed();
                Some(ConnView { sending: c.sending.push(PacketView { bytes: msg, fds }), ..c })
            },
            Out::Flush => Some(self.flushed()),
        }
    }

    /// After a script from step i on: where it gets, and whether every step fit.
    pub open spec fn put_from(self, script: Seq<Out>, i: int) -> (ConnView, bool)
        decreases script.len() - i,
    {
        if i >= script.len() {
            (self, true)
        } else {
            match self.put(script[i]) {
                Some(c) => c.put_from(script, i + 1),
                None => (
                    if script[i] is WithFds {
                        self.flushed()
                    } else {
                        self
                    },
                    false,
                ),
            }
        }
    }

    /// After a script: where it gets, and whether every step fit.
    pub open spec fn put_all(self, script: Seq<Out>) -> (ConnView, bool) {
        self.put_from(script, 0)
    }
}

/// The error of a request that does not fit.
pub open spec fn full() -> Error {
    Error::of_msg("wayland send buffer full")
}

impl View for Connection {
    type V = ConnView;

    closed spec fn view(&self) -> ConnView {
        ConnView {
            raw: self.fd,
            queued: self.out@,
            sending: packets(self.sending@),
            pending: self.in_buf@.skip(self.in_pos as int),
            consumed: self.in_pos as nat,
            fds: Seq::new(self.fds@.len(), |i: int| self.fds@[i].spec_raw()),
        }
    }
}

impl Connection {
    pub closed spec fn wf(&self) -> bool {
        &&& self.out.wf()
        &&& self.in_buf.wf()
        &&& self.fds.wf()
        &&& self.in_pos <= self.in_buf@.len()
    }

    /// Take over a connected socket.
    pub fn new(fd: RawFd) -> (r: Self)
        ensures
            r.wf(),
            r@ == (ConnView {
                raw: fd,
                queued: Seq::empty(),
                sending: Seq::empty(),
                pending: Seq::empty(),
                consumed: 0,
                fds: Seq::empty(),
            }),
    {
        let r = Self {
            fd,
            out: ArrayVec::new(),
            sending: Vec::new(),
            in_buf: ArrayVec::new(),
            in_pos: 0,
            fds: ArrayVec::new(),
        };
        assert(r@.pending =~= Seq::<u8>::empty());
        assert(r@.fds =~= Seq::<RawFd>::empty());
        assert(r@.sending =~= Seq::<PacketView>::empty());
        r
    }

    /// The address of the compositor's socket, to connect to.
    pub fn connect(runtime_dir: Option<&str>, display: Option<&str>) -> (r: Result<(Vec<u8>, u32)>)
        ensures
            match runtime_dir {
                None => r == Err::<(Vec<u8>, u32), Error>(
                    Error::of_msg("XDG_RUNTIME_DIR is not set"),
                ),
                Some(dir) => ({
                    let path = display_path(
                        dir@,
                        if display is Some {
                            display->0@
                        } else {
                            "wayland-0"@
                        },
                    );
                    if text::byte_len(path) <= PATH_CAP {
                        addresses(path, r)
                    } else {
                        r == Err::<(Vec<u8>, u32), Error>(
                            Error::of_msg("wayland socket path too long"),
                        )
                    }
                }),
            },
    {
        let path = socket_path(runtime_dir, display)?;
        socket_address(path.as_str())
    }

    /// The status flags that set the socket to non-blocking mode, or back to
    /// blocking, given what reading its flags returned.
    pub fn set_nonblocking(&self, flags: i32, nonblocking: bool) -> (r: Result<i32>)
        requires
            flags > i32::MIN,
        ensures
            syscall::toggles(flags, nonblocking, r),
    {
        if flags < 0 {
            return Err(Error::from_errno(-flags));
        }
        Ok(nonblocking_flags(flags, nonblocking))
    }

    /// The socket's raw fd, so the event loop can poll it.
    pub fn fd(&self) -> (r: RawFd)
        ensures
            r == self@.raw,
    {
        self.fd
    }

    /// Queue a request for the next flush.
    pub fn request(&mut self, object: u32, opcode: u16, args: &[Arg<'_>]) -> (r: Result<()>)
        requires
            old(self).wf(),
        ensures
            final(self).wf(),
            match old(self)@.put(Out::Msg(wire::message_bytes(object, opcode, args@))) {
                Some(c) => r == Ok::<(), Error>(()) && final(self)@ == c,
                None => r == Err::<(), Error>(full()) && final(self)@ == old(self)@,
            },
    {
        wire::encode(&mut self.out, object, opcode, args)
    }

    /// Flush what is queued, then put one request carrying fds behind it. The
    /// flush keeps the fds attached to the request that declares them, with no
    /// earlier bytes riding along.
    pub fn request_with_fd(
        &mut self,
        object: u32,
        opcode: u16,
        args: &[Arg<'_>],
        fds: &[RawFd],
    ) -> (r: Result<()>)
        requires
            old(self).wf(),
        ensures
            final(self).wf(),
            match old(self)@.put(
                Out::WithFds(wire::message_bytes(object, opcode, args@), fds@),
            ) {
                Some(c) => r == Ok::<(), Error>(()) && final(self)@ == c,
                None => r == Err::<(), Error>(full()) && final(self)@ == old(self)@.flushed(),
            },
    {
        self.flush();
        let ghost c = self@;
        let mut msg: ArrayVec<u8, REQUEST_CAP> = ArrayVec::new();
        wire::encode(&mut msg, object, opcode, args)?;
        assert(msg@ =~= wire::message_bytes(object, opcode, args@));
        let bytes = vstd::slice::slice_to_vec(msg.as_slice());
        let fds = vstd::slice::slice_to_vec(fds);
        self.sending.push(Packet { bytes, fds });
        assert(self@.sending =~= c.sending.push(PacketView { bytes: msg@, fds: fds@ }));
        Ok(())
    }

    /// Hand every queued request to the writer.
    pub fn flush(&mut self)
        requires
            old(self).wf(),
        ensures
            final(self).wf(),
            final(self)@ == old(self)@.flushed(),
    {
        if self.out.is_empty() {
            return;
        }
        let ghost c = self@;
        let bytes = vstd::slice::slice_to_vec(self.out.as_slice());
        let fds: Vec<RawFd> = Vec::new();
        self.sending.push(Packet { bytes, fds });
        self.out.clear();
        assert(self@.sending =~= c.sending.push(
            PacketView { bytes: c.queued, fds: Seq::empty() },
        ));
    }

    /// What to write to the socket next: the bytes, and the fds to pass with
    /// them. None when everything flushed was accepted.
    pub fn next_send(&self) -> (r: Option<(&[u8], &[RawFd])>)
        ensures
            r is Some <==> self@.sending.len() > 0,
            r matches Some((b, f)) ==> b@ == self@.sending[0].bytes && f@ == self@.sending[0].fds,
    {
        if self.sending.len() == 0 {
            return None;
        }
        let p = &self.sending[0];
        assert(self@.sending[0] == p@);
        Some((p.bytes.as_slice(), p.fds.as_slice()))
    }

    /// Take in what a write of the next packet returned: a count of bytes
    /// accepted, or a negated errno.
    ///
    /// A partial write followed by EAGAIN is the case this exists for. Giving up
    /// there would strand the tail, and the next request would be appended
    /// straight onto the fragment, which the compositor reads as a corrupt
    /// stream. So the writer waits for the socket and finishes the job.
    pub fn sent(&mut self, result: isize) -> (r: SendStep)
        requires
            old(self).wf(),
            old(self)@.sending.len() > 0,
            result > isize::MIN,
        ensures
            final(self).wf(),
            r == send_step(result as int),
            final(self)@ == (ConnView {
                sending: after_send(old(self)@.sending, result as int),
                ..old(self)@
            }),
    {
        let ghost s = self@.sending;
        assert(s[0] == self.sending@[0]@);
        if result >= 0 {
            let n: usize = result as usize;
            let first = self.sending.remove(0);
            if n < first.bytes.len() {
                // The fds rode with the first byte, so the rest is plain data.
                let rest = slice_subrange(first.bytes.as_slice(), n, first.bytes.len());
                let bytes = vstd::slice::slice_to_vec(rest);
                assert(bytes@ =~= first.bytes@.skip(n as int));
                self.sending.insert(0, Packet { bytes, fds: Vec::new() });
            }
            assert(self@.sending =~= after_send(s, result as int));
            return SendStep::Send;
        }
        let errno: i32 = (-result) as i32;
        if errno == EINTR {
            SendStep::Send
        } else if errno == EAGAIN {
            SendStep::Wait
        } else {
            // The connection is dead; drop what is left rather than let a later
            // write resend a fragment of it.
            self.sending.clear();
            assert(self@.sending =~= Seq::<PacketView>::empty());
            SendStep::Failed(Error::from_errno(errno))
        }
    }

    /// Take in what the compositor sent before it went away, for
    /// diagnose_send_error to search. Returns whether all of it fit; once it
    /// does not, there is no more to drain.
    pub fn drain(&mut self, chunk: &[u8]) -> (r: bool)
        requires
            old(self).wf(),
        ensures
            final(self).wf(),
            ({
                let c = old(self)@;
                &&& r == (c.consumed + c.pending.len() + chunk@.len() <= RECV_CAP)
                &&& final(self)@ == (ConnView {
                    pending: if r {
                        c.pending + chunk@
                    } else {
                        (c.pending + chunk@).take(RECV_CAP - c.consumed)
                    },
                    ..c
                })
            }),
    {
        let ghost c = self@;
        let ghost held = self.in_buf@;
        match self.in_buf.extend_from_slice(chunk) {
            Ok(()) => {
                assert(self@.pending =~= c.pending + chunk@);
                true
            },
            Err(_) => {
                assert(self@.pending =~= (c.pending + chunk@).take(RECV_CAP - c.consumed));
                false
            },
        }
    }

    /// Why a send failed, typically because the compositor closed the socket: on
    /// a violation it sends wl_display.error and then closes, and that is the
    /// real reason. Without one it is the error of the send.
    pub fn diagnose_send_error(&self, send_err: Error) -> (r: (Error, Option<ProtocolError<'_>>))
        requires
            self.wf(),
        ensures
            match first_protocol_error(self@.pending) {
                Some(e) => {
                    &&& r.0 == Error::of_msg("the compositor reported a protocol error")
                    &&& r.1 matches Some(p) && p.object == e.0 && p.code == e.1 && p.text@ == e.2
                },
                None => r.0 == send_err && r.1 is None,
            },
    {
        match self.protocol_error() {
            Some(e) => (Error::msg("the compositor reported a protocol error"), Some(e)),
            None => (send_err, None),
        }
    }

    /// The first protocol error among the buffered messages.
    fn protocol_error(&self) -> (r: Option<ProtocolError<'_>>)
        requires
            self.wf(),
        ensures
            match first_protocol_error(self@.pending) {
                Some(e) => r is Some && r->0.object == e.0 && r->0.code == e.1 && r->0.text@
                    == e.2,
                None => r is None,
            },
    {
        let data = self.in_buf.as_slice();
        let mut off: usize = self.in_pos;
        while data.len() - off >= HEADER_SIZE
            invariant
                off <= data@.len(),
                first_protocol_error(self@.pending) == first_protocol_error(
                    data@.skip(off as int),
                ),
            decreases data.len() - off,
        {
            let view = slice_subrange(data, off, data.len());
            assert(view@ == data@.skip(off as int));
            match wire::parse_header(view) {
                Err(_) => return None,
                Ok((object, opcode, size)) => {
                    if size > data.len() - off {
                        return None;
                    }
                    if object == WL_DISPLAY && opcode == DISPLAY_EV_ERROR {
                        let body = slice_subrange(view, HEADER_SIZE, size);
                        let e = read_protocol_error(body);
                        if e.is_some() {
                            return e;
                        }
                    }
                    assert(view@.skip(size as int) == data@.skip(off + size));
                    off += size;
                },
            }
        }
        None
    }

    /// Take in what a read of the socket returned: the bytes and the fds that
    /// came with them, or the errno, and whether fds were cut off. Returns the
    /// bytes read; a would-block error is how a drained socket reports that it
    /// is empty.
    ///
    /// Fds that were cut off or do not fit the queue are fatal rather than
    /// skippable: fds are matched to messages by arrival order, so one dropped
    /// fd misaligns every fd after it.
    pub fn fill(
        &mut self,
        received: core::result::Result<&[u8], i32>,
        passed: &[RawFd],
        truncated: bool,
    ) -> (r: Result<usize>)
        requires
            old(self).wf(),
        ensures
            final(self).wf(),
            ({
                let c = ConnView { consumed: 0, ..old(self)@ };
                let fds = c.fds + passed@;
                match received {
                    Err(errno) => r == Err::<usize, Error>(Error::of_errno(errno)) && final(self)@
                        == c,
                    Ok(chunk) => {
                        if truncated {
                            &&& r == Err::<usize, Error>(
                                Error::of_msg(
                                    "received message truncated its passed file descriptors",
                                ),
                            )
                            &&& final(self)@ == c
                        } else if fds.len() > MAX_RECV_FDS {
                            &&& r == Err::<usize, Error>(
                                Error::of_msg("received more file descriptors than the queue holds"),
                            )
                            &&& final(self)@ == (ConnView { fds: fds.take(MAX_RECV_FDS as int), ..c })
                        } else if chunk@.len() == 0 {
                            &&& r == Err::<usize, Error>(
                                Error::of_msg("the compositor closed the connection"),
                            )
                            &&& final(self)@ == (ConnView { fds, ..c })
                        } else if c.pending.len() + chunk@.len() > RECV_CAP {
                            &&& r == Err::<usize, Error>(
                                Error::of_msg("wayland receive buffer overflow"),
                            )
                            &&& final(self)@ == (ConnView {
                                fds,
                                pending: (c.pending + chunk@).take(RECV_CAP as int),
                                ..c
                            })
                        } else {
                            &&& r == Ok::<usize, Error>(chunk@.len() as usize)
                            &&& final(self)@ == (ConnView { fds, pending: c.pending + chunk@, ..c })
                        }
                    },
                }
            }),
    {
        // Drop the messages consumed since the last fill in one shift, rather
        // than shifting per message.
        self.compact();
        let ghost c = self@;
        let chunk = match received {
            Err(errno) => return Err(Error::from_errno(errno)),
            Ok(chunk) => chunk,
        };
        if truncated {
            return Err(Error::msg("received message truncated its passed file descriptors"));
        }
        let mut i: usize = 0;
        assert(c.fds + passed@.take(0) =~= c.fds);
        while i < passed.len()
            invariant
                i <= passed@.len(),
                self.wf(),
                c == (ConnView { consumed: 0, ..old(self)@ }),
                self@ == (ConnView { fds: c.fds + passed@.take(i as int), ..c }),
                c.fds.len() + i <= MAX_RECV_FDS,
                received is Ok,
                !truncated,
            decreases passed.len() - i,
        {
            let ghost queue = self@.fds;
            let fd = Fd::new(passed[i]);
            if self.fds.push(fd).is_err() {
                assert((c.fds + passed@).take(MAX_RECV_FDS as int) =~= queue);
                return Err(Error::msg("received more file descriptors than the queue holds"));
            }
            assert(self@.fds =~= queue.push(passed@[i as int]));
            assert(c.fds + passed@.take(i + 1) =~= queue.push(passed@[i as int]));
            i += 1;
        }
        assert(passed@.take(passed@.len() as int) =~= passed@);
        if chunk.len() == 0 {
            return Err(Error::msg("the compositor closed the connection"));
        }
        let ghost held = self.in_buf@;
        assert(self@.pending =~= held);
        match self.in_buf.extend_from_slice(chunk) {
            Ok(()) => {
                assert(self@.pending =~= held + chunk@);
                Ok(chunk.len())
            },
            Err(_) => {
                assert(self@.pending =~= (held + chunk@).take(RECV_CAP as int));
                Err(Error::msg("wayland receive buffer overflow"))
            },
        }
    }

    /// Pull one fully buffered message off the front of the stream, if there is
    /// one. None means the buffer holds only a partial message and the caller
    /// should fill.
    pub fn next_message(&mut self) -> (r: Result<Option<Message>>)
        requires
            old(self).wf(),
        ensures
            final(self).wf(),
            match next_frame(old(self)@.pending) {
                Frame::Partial => r == Ok::<Option<Message>, Error>(None) && final(self)@ == old(
                    self,
                )@,
                Frame::Bad(e) => r == Err::<Option<Message>, Error>(e) && final(self)@ == old(self)@,
                Frame::Whole { object, opcode, body, size } => {
                    &&& r is Ok
                    &&& r->Ok_0 is Some
                    &&& r->Ok_0->0.object == object
                    &&& r->Ok_0->0.opcode == opcode
                    &&& r->Ok_0->0.body.wf()
                    &&& r->Ok_0->0.body@ == body
                    &&& final(self)@ == (ConnView {
                        pending: old(self)@.pending.skip(size as int),
                        consumed: old(self)@.consumed + size,
                        ..old(self)@
                    })
                },
            },
    {
        let all = self.in_buf.as_slice();
        let buf = slice_subrange(all, self.in_pos, all.len());
        assert(buf@ == self@.pending);
        if buf.len() < HEADER_SIZE {
            return Ok(None);
        }
        let (object, opcode, size) = wire::parse_header(buf)?;
        if buf.len() < size {
            return Ok(None);
        }
        let mut body: ArrayVec<u8, MSG_BODY_CAP> = ArrayVec::new();
        let args = slice_subrange(buf, HEADER_SIZE, size);
        if body.extend_from_slice(args).is_err() {
            return Err(Error::msg("wayland message body too large"));
        }
        assert(body@ == args@);
        self.in_pos = self.in_pos + size;
        assert(self@.pending =~= old(self)@.pending.skip(size as int));
        Ok(Some(Message { object, opcode, body }))
    }

    /// Take the next received fd in arrival order, for a message whose argument
    /// declares one. None when none is queued.
    pub fn take_fd(&mut self) -> (r: Option<Fd>)
        requires
            old(self).wf(),
        ensures
            final(self).wf(),
            old(self)@.fds.len() == 0 ==> r is None && final(self)@ == old(self)@,
            old(self)@.fds.len() > 0 ==> r is Some && r->0.spec_raw() == old(self)@.fds[0]
                && final(self)@ == (ConnView { fds: old(self)@.fds.drop_first(), ..old(self)@ }),
    {
        let r = self.fds.remove(0);
        proof {
            if old(self).fds@.len() > 0 {
                assert(self@.fds =~= old(self)@.fds.drop_first());
            } else {
                assert(self@.fds =~= old(self)@.fds);
            }
        }
        r
    }

    /// Discard the already-consumed prefix of the input buffer in a single
    /// shift.
    fn compact(&mut self)
        requires
            old(self).wf(),
        ensures
            final(self).wf(),
            final(self)@ == (ConnView { consumed: 0, ..old(self)@ }),
    {
        if self.in_pos == 0 {
            return;
        }
        let all = self.in_buf.as_slice();
        let rest = slice_subrange(all, self.in_pos, all.len());
        let mut kept: ArrayVec<u8, RECV_CAP> = ArrayVec::new();
        let _ = kept.extend_from_slice(rest);
        assert(kept@ =~= rest@);
        self.in_buf = kept;
        self.in_pos = 0;
        assert(self@.pending =~= old(self)@.pending);
    }
}

/// Read the body of a wl_display.error.
pub(crate) fn read_protocol_error(body: &[u8]) -> (r: Option<ProtocolError<'_>>)
    ensures
        match error_body(body@) {
            Some(e) => r is Some && r->0.object == e.0 && r->0.code == e.1 && r->0.text@ == e.2,
            None => r is None,
        },
{
    let mut reader = Reader::new(body);
    let object = reader.u32();
    let code = reader.u32();
    assert(body@.len() >= 8 ==> body@.skip(4).take(4) == body@.subrange(4, 8));
    assert(body@.len() >= 8 ==> body@.skip(4).skip(4) == body@.skip(8));
    let text = reader.string();
    match (object, code, text) {
        (Ok(object), Ok(code), Ok(text)) => Some(ProtocolError { object, code, text }),
        _ => None,
    }
}

/// The step after a write returned `result`.
pub open spec fn send_step(result: int) -> SendStep {
    if result >= 0 || (-result) as i32 == EINTR {
        SendStep::Send
    } else if (-result) as i32 == EAGAIN {
        SendStep::Wait
    } else {
        SendStep::Failed(Error::of_errno((-result) as i32))
    }
}

/// What is left to send after a write of the first packet returned `result`.
pub open spec fn after_send(s: Seq<PacketView>, result: int) -> Seq<PacketView> {
    if send_step(result) is Failed {
        Seq::empty()
    } else if result < 0 {
        s
    } else if result < s[0].bytes.len() {
        s.update(0, PacketView { bytes: s[0].bytes.skip(result), fds: Seq::empty() })
    } else {
        s.drop_first()
    }
}

/// What the front of the incoming stream holds.
pub enum Frame {
    /// Less than a whole message.
    Partial,
    /// A message that cannot be accepted.
    Bad(Error),
    /// A whole message and the bytes it takes.
    Whole { object: nat, opcode: nat, body: Seq<u8>, size: nat },
}

/// What the front of a byte stream holds.
pub open spec fn next_frame(b: Seq<u8>) -> Frame {
    let h = wire::header(b);
    if b.len() < HEADER_SIZE {
        Frame::Partial
    } else if h.2 < HEADER_SIZE {
        Frame::Bad(Error::of_msg("message size smaller than header"))
    } else if b.len() < h.2 {
        Frame::Partial
    } else if h.2 - HEADER_SIZE > MSG_BODY_CAP {
        Frame::Bad(Error::of_msg("wayland message body too large"))
    } else {
        Frame::Whole {
            object: h.0,
            opcode: h.1,
            body: b.subrange(HEADER_SIZE as int, h.2 as int),
            size: h.2,
        }
    }
}

/// Packets end to end.
pub open spec fn stream(s: Seq<PacketView>) -> Seq<u8>
    decreases s.len(),
{
    if s.len() == 0 {
        Seq::empty()
    } else {
        s[0].bytes + stream(s.drop_first())
    }
}

/// The fds of packets, in order.
pub open spec fn passed_fds(s: Seq<PacketView>) -> Seq<RawFd>
    decreases s.len(),
{
    if s.len() == 0 {
        Seq::empty()
    } else {
        s[0].fds + passed_fds(s.drop_first())
    }
}

/// What is left to send after a run of writes, each of the first packet left by
/// the one before.
pub open spec fn after_sends(s: Seq<PacketView>, replies: Seq<int>) -> Seq<PacketView>
    decreases replies.len(),
{
    if replies.len() == 0 {
        s
    } else {
        after_send(after_sends(s, replies.drop_last()), replies.last())
    }
}

/// The bytes the socket accepted over a run of writes.
pub open spec fn accepted(s: Seq<PacketView>, replies: Seq<int>) -> Seq<u8>
    decreases replies.len(),
{
    if replies.len() == 0 {
        Seq::empty()
    } else {
        let left = after_sends(s, replies.drop_last());
        accepted(s, replies.drop_last()) + if replies.last() >= 0 {
            left[0].bytes.take(replies.last())
        } else {
            Seq::empty()
        }
    }
}

/// The fds the socket accepted over a run of writes.
pub open spec fn accepted_fds(s: Seq<PacketView>, replies: Seq<int>) -> Seq<RawFd>
    decreases replies.len(),
{
    if replies.len() == 0 {
        Seq::empty()
    } else {
        let left = after_sends(s, replies.drop_last());
        accepted_fds(s, replies.drop_last()) + if replies.last() >= 0 {
            left[0].fds
        } else {
            Seq::empty()
        }
    }
}

/// No write was made with nothing left, none accepted more than it was offered,
/// and none failed.
pub open spec fn honest(s: Seq<PacketView>, replies: Seq<int>) -> bool
    decreases replies.len(),
{
    replies.len() > 0 ==> {
        let left = after_sends(s, replies.drop_last());
        &&& honest(s, replies.drop_last())
        &&& left.len() > 0
        &&& replies.last() <= left[0].bytes.len()
        &&& !(send_step(replies.last()) is Failed)
    }
}

/// Flushed requests are delivered in order with nothing repeated and nothing
/// left out, however the socket cuts the writes: what was accepted and what is
/// left are always what was flushed. The same holds of the fds.
pub proof fn law_a_flush_delivers_everything(s: Seq<PacketView>, replies: Seq<int>)
    requires
        honest(s, replies),
    ensures
        accepted(s, replies) + stream(after_sends(s, replies)) == stream(s),
        accepted_fds(s, replies) + passed_fds(after_sends(s, replies)) == passed_fds(s),
    decreases replies.len(),
{
    if replies.len() == 0 {
        assert(Seq::<u8>::empty() + stream(s) =~= stream(s));
        assert(Seq::<RawFd>::empty() + passed_fds(s) =~= passed_fds(s));
    } else {
        let prev = replies.drop_last();
        law_a_flush_delivers_everything(s, prev);
        let left = after_sends(s, prev);
        let n = replies.last();
        let after = after_send(left, n);
        if n >= 0 {
            if n < left[0].bytes.len() {
                assert(after.drop_first() =~= left.drop_first());
                assert(left[0].bytes.take(n) + left[0].bytes.skip(n) =~= left[0].bytes);
            } else {
                assert(left[0].bytes.take(n) =~= left[0].bytes);
            }
            assert(left[0].bytes.take(n) + stream(after) =~= stream(left));
            assert(left[0].fds + passed_fds(after) =~= passed_fds(left));
        }
        assert(accepted(s, replies) + stream(after) =~= stream(s));
        assert(accepted_fds(s, replies) + passed_fds(after) =~= passed_fds(s));
    }
}

/// A message the compositor encoded comes out of the stream whole, whatever
/// follows it, and leaves what follows for the next read.
pub proof fn law_messages_are_framed(
    object: u32,
    opcode: u16,
    args: Seq<Arg<'_>>,
    rest: Seq<u8>,
)
    requires
        wire::body_bytes(args).len() <= MSG_BODY_CAP,
    ensures
        ({
            let msg = wire::message_bytes(object, opcode, args);
            &&& next_frame(msg + rest) == (Frame::Whole {
                object: object as nat,
                opcode: opcode as nat,
                body: wire::body_bytes(args),
                size: msg.len(),
            })
            &&& (msg + rest).skip(msg.len() as int) == rest
        }),
{
    let msg = wire::message_bytes(object, opcode, args);
    bytes::lemma_le_len(object as nat, 4);
    bytes::lemma_le_len(
        wire::size_opcode(HEADER_SIZE as nat + wire::body_bytes(args).len(), opcode),
        4,
    );
    wire::law_header_round_trip(object, opcode, args, rest);
    assert((msg + rest).subrange(HEADER_SIZE as int, msg.len() as int) == wire::body_bytes(args));
    assert((msg + rest).skip(msg.len() as int) == rest);
}

/// A message cut short is not a message yet: any proper prefix of an encoded
/// message is only a partial one.
pub proof fn law_a_cut_message_waits(object: u32, opcode: u16, args: Seq<Arg<'_>>, n: int)
    requires
        wire::body_bytes(args).len() <= MSG_BODY_CAP,
        0 <= n < wire::message_bytes(object, opcode, args).len(),
    ensures
        next_frame(wire::message_bytes(object, opcode, args).take(n)) == Frame::Partial,
{
    let msg = wire::message_bytes(object, opcode, args);
    bytes::lemma_le_len(object as nat, 4);
    bytes::lemma_le_len(
        wire::size_opcode(HEADER_SIZE as nat + wire::body_bytes(args).len(), opcode),
        4,
    );
    wire::law_header_round_trip(object, opcode, args, Seq::empty());
    assert(msg + Seq::<u8>::empty() == msg);
    if n >= HEADER_SIZE {
        assert(msg.take(n).take(4) == msg.take(4));
        assert(msg.take(n).subrange(4, 8) == msg.subrange(4, 8));
    }
}

} // verus!
