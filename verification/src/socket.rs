//! A Wayland socket with file descriptor passing: messages go out one packet
//! each, and come back out of the byte stream the socket delivers.
//!
//! Wayland uses Unix domain sockets for IPC, with file descriptors passed
//! out-of-band. The system calls are the caller's; what they returned is handed
//! in here.
use vstd::prelude::*;
use vstd::slice::slice_subrange;

use crate::platform::arena::{ArrayString, ArrayVec};
use crate::platform::conn;
use crate::platform::conn::{socket_address, Packet, PacketView, MAX_RECV_FDS, RECV_CAP};
use crate::platform::error::{Error, Result};
use crate::platform::syscall;
use crate::platform::syscall::{nonblocking_flags, RawFd, EINTR, PATH_CAP};
use crate::platform::wire as frames;
use crate::platform::wire::{Arg, HEADER_SIZE};
use crate::platform::text;
use crate::wire;
use crate::wire::{MessageBuilder, MessageParser, BUILD_CAP};

verus! {

/// Payload capacity of one received message. Events the launcher reads are
/// small (the keymap arrives via an fd, not inline).
pub const MSG_PAYLOAD_CAP: usize = 16384;

/// A Wayland socket connection.
pub struct WaylandSocket {
    fd: RawFd,
    /// Messages on their way out.
    sending: Vec<Packet>,
    /// Buffer for incoming data
    recv_buf: ArrayVec<u8, RECV_CAP>,
    /// Received fds awaiting consumption, in arrival order. The wire protocol
    /// passes fds out of band but in the same order as the messages whose
    /// arguments declare them, so a message that carries an fd takes the front
    /// of this queue. Byte position cannot identify the owning message: one
    /// read may carry several messages and the kernel reports the fds against
    /// the chunk, not the message.
    recv_fds: ArrayVec<RawFd, MAX_RECV_FDS>,
}

/// What a socket holds.
#[verifier::ext_equal]
pub struct SocketView {
    pub raw: RawFd,
    /// The messages the socket has not accepted yet.
    pub sending: Seq<PacketView>,
    /// The received bytes no message was read out of yet.
    pub received: Seq<u8>,
    /// The received fds awaiting consumption.
    pub fds: Seq<RawFd>,
}

impl View for WaylandSocket {
    type V = SocketView;

    closed spec fn view(&self) -> SocketView {
        SocketView {
            raw: self.fd,
            sending: conn::packets(self.sending@),
            received: self.recv_buf@,
            fds: self.recv_fds@,
        }
    }
}

/// A received Wayland message. Passed fds are not carried here; they are taken
/// from the socket's arrival-order queue by the handler that needs one.
pub struct Message {
    pub object_id: u32,
    pub opcode: u16,
    pub payload: ArrayVec<u8, MSG_PAYLOAD_CAP>,
}

impl Message {
    /// Create a parser for this message's payload.
    pub fn parser(&self) -> (r: MessageParser<'_>)
        ensures
            r.wf(),
            r.rest() == self.payload@,
    {
        MessageParser::new(self.payload.as_slice())
    }
}

/// The path a socket is looked for at: as much of it as fits, a part at a time.
pub open spec fn path_tried(runtime_dir: Seq<char>, display: Seq<char>) -> Seq<char> {
    if display.len() > 0 && display[0] == '/' {
        fitted(Seq::empty(), display)
    } else {
        fitted(fitted(fitted(Seq::empty(), runtime_dir), seq!['/']), display)
    }
}

/// Text with more appended, if it fits a path.
pub open spec fn fitted(s: Seq<char>, more: Seq<char>) -> Seq<char> {
    if text::byte_len(s) + text::byte_len(more) <= PATH_CAP {
        s + more
    } else {
        s
    }
}

impl WaylandSocket {
    /// Every buffer is within its capacity.
    pub closed spec fn wf(&self) -> bool {
        self.recv_buf.wf() && self.recv_fds.wf()
    }

    /// The address of the Wayland compositor's socket.
    pub fn connect(runtime_dir: Option<&str>, display: Option<&str>) -> (r: Result<(Vec<u8>, u32)>)
        ensures
            match runtime_dir {
                Some(dir) => conn::addresses(
                    path_tried(
                        dir@,
                        match display {
                            Some(d) => d@,
                            None => "wayland-0"@,
                        },
                    ),
                    r,
                ),
                None => r == Err::<(Vec<u8>, u32), Error>(
                    Error::of_msg("XDG_RUNTIME_DIR not set"),
                ),
            },
    {
        let runtime_dir = match runtime_dir {
            Some(dir) => dir,
            None => return Err(Error::msg("XDG_RUNTIME_DIR not set")),
        };
        let display = match display {
            Some(d) => d,
            None => "wayland-0",
        };
        let mut path: ArrayString<PATH_CAP> = ArrayString::new();
        if !display.is_empty() && display.get_char(0) == '/' {
            let _ = path.push_str(display);
        } else {
            proof {
                text::lemma_byte_len_bounds(Seq::<char>::empty());
                reveal_strlit("/");
                assert("/"@ =~= seq!['/']);
            }
            let _ = path.push_str(runtime_dir);
            let _ = path.push_str("/");
            let _ = path.push_str(display);
        }
        Self::connect_to(path.as_str())
    }

    /// The address of a specific socket path.
    pub fn connect_to(path: &str) -> (r: Result<(Vec<u8>, u32)>)
        ensures
            conn::addresses(path@, r),
    {
        socket_address(path)
    }

    /// Start on a connected socket.
    pub fn new(fd: RawFd) -> (r: Self)
        ensures
            r.wf(),
            r@ == (SocketView {
                raw: fd,
                sending: Seq::empty(),
                received: Seq::empty(),
                fds: Seq::empty(),
            }),
    {
        let r = Self {
            fd,
            sending: Vec::new(),
            recv_buf: ArrayVec::new(),
            recv_fds: ArrayVec::new(),
        };
        assert(conn::packets(r.sending@) =~= Seq::<PacketView>::empty());
        r
    }

    /// Send a message, optionally with file descriptors: put it on its way.
    pub fn send(&mut self, data: &[u8], fds: &[RawFd]) -> (r: Result<()>)
        requires
            old(self).wf(),
        ensures
            final(self).wf(),
            r is Ok,
            final(self)@ == old(self)@.with(PacketView { bytes: data@, fds: fds@ }),
    {
        let ghost before = self@;
        let packet = Packet {
            bytes: vstd::slice::slice_to_vec(data),
            fds: vstd::slice::slice_to_vec(fds),
        };
        self.sending.push(packet);
        assert(self@ =~= before.with(PacketView { bytes: data@, fds: fds@ }));
        Ok(())
    }

    /// The next write: bytes, and the fds to pass with the first of them.
    pub fn next_send(&self) -> (r: Option<(&[u8], &[RawFd])>)
        ensures
            self@.sending.len() == 0 ==> r is None,
            self@.sending.len() > 0 ==> r is Some && (r->0).0@ == self@.sending[0].bytes && (r->0).1@
                == self@.sending[0].fds,
    {
        if self.sending.len() == 0 {
            None
        } else {
            assert(self@.sending[0] == self.sending@[0]@);
            Some((self.sending[0].bytes.as_slice(), self.sending[0].fds.as_slice()))
        }
    }

    /// Take in what the next write returned: how many bytes the socket accepted,
    /// or a negated errno. A short write leaves the rest to be written as plain
    /// data, an interrupted one is tried again, and any other error gives the
    /// message up.
    pub fn sent(&mut self, result: isize) -> (r: Result<()>)
        requires
            old(self).wf(),
            old(self)@.sending.len() > 0,
            result > isize::MIN,
        ensures
            final(self).wf(),
            ({
                let errno = (-result) as i32;
                &&& final(self)@ == (SocketView {
                    sending: if result < 0 && errno != EINTR {
                        old(self)@.sending.drop_first()
                    } else {
                        conn::after_send(old(self)@.sending, result as int)
                    },
                    ..old(self)@
                })
                &&& if result < 0 && errno != EINTR {
                    r == Err::<(), Error>(Error::of_errno(errno))
                } else {
                    r is Ok
                }
            }),
    {
        let ghost s = self@.sending;
        assert(s[0] == self.sending@[0]@);
        if result < 0 {
            let errno: i32 = (-result) as i32;
            if errno == EINTR {
                return Ok(());
            }
            let _ = self.sending.remove(0);
            assert(self@.sending =~= s.drop_first());
            return Err(Error::from_errno(errno));
        }
        let n: usize = result as usize;
        let first = self.sending.remove(0);
        if n < first.bytes.len() {
            // The fds ride with the first byte; the unsent remainder is plain
            // data.
            let rest = slice_subrange(first.bytes.as_slice(), n, first.bytes.len());
            let bytes = vstd::slice::slice_to_vec(rest);
            assert(bytes@ =~= first.bytes@.skip(n as int));
            self.sending.insert(0, Packet { bytes, fds: Vec::new() });
        }
        assert(self@.sending =~= conn::after_send(s, result as int));
        Ok(())
    }

    /// Take in what a read of the socket returned: the bytes and the fds that
    /// came with them, or the errno, and whether passed fds were cut off. The
    /// fds go behind those already queued, as far as the queue holds them.
    pub fn recv_data(
        &mut self,
        received: core::result::Result<&[u8], i32>,
        passed: &[RawFd],
        truncated: bool,
    ) -> (r: Result<usize>)
        requires
            old(self).wf(),
        ensures
            final(self).wf(),
            ({
                let v = old(self)@;
                let all = v.fds + passed@;
                let queued = SocketView {
                    fds: if all.len() <= MAX_RECV_FDS {
                        all
                    } else {
                        all.take(MAX_RECV_FDS as int)
                    },
                    ..v
                };
                match received {
                    Err(errno) => r == Err::<usize, Error>(Error::of_errno(errno)) && final(self)@
                        == v,
                    Ok(chunk) => if chunk@.len() == 0 {
                        r == Err::<usize, Error>(Error::of_msg("connection closed"))
                            && final(self)@ == v
                    } else if truncated {
                        r == Err::<usize, Error>(
                            Error::of_msg("received message truncated its passed file descriptors"),
                        ) && final(self)@ == v
                    } else if v.received.len() + chunk@.len() > RECV_CAP {
                        r == Err::<usize, Error>(Error::of_msg("receive buffer overflow"))
                            && final(self)@ == (SocketView {
                            received: (v.received + chunk@).take(RECV_CAP as int),
                            ..queued
                        })
                    } else {
                        r == Ok::<usize, Error>(chunk@.len() as usize) && final(self)@ == (
                        SocketView { received: v.received + chunk@, ..queued })
                    },
                }
            }),
    {
        let ghost v = self@;
        let chunk = match received {
            Err(errno) => return Err(Error::from_errno(errno)),
            Ok(chunk) => chunk,
        };
        let n: usize = chunk.len();
        if n == 0 {
            return Err(Error::msg("connection closed"));
        }
        if truncated {
            return Err(
                Error::msg("received message truncated its passed file descriptors"),
            );
        }
        // Append any passed fds to the queue in arrival order; they are matched
        // to messages by that order, not by byte position.
        let ghost all = v.fds + passed@;
        let _ = self.recv_fds.extend_from_slice(passed);
        proof {
            if all.len() > MAX_RECV_FDS {
                assert(self.recv_fds@ =~= all.take(MAX_RECV_FDS as int));
            }
        }
        if self.recv_buf.extend_from_slice(chunk).is_err() {
            assert(self.recv_buf@ =~= (v.received + chunk@).take(RECV_CAP as int));
            return Err(Error::msg("receive buffer overflow"));
        }
        Ok(n)
    }

    /// Read the next complete message, or None when more data has to be read
    /// first.
    pub fn read_message(&mut self) -> (r: Result<Option<Message>>)
        requires
            old(self).wf(),
        ensures
            final(self).wf(),
            ({
                let v = old(self)@;
                let (object, opcode, size) = frames::header(v.received);
                if v.received.len() < HEADER_SIZE {
                    &&& r matches Ok(m) && m is None
                    &&& final(self)@ == v
                } else if size < HEADER_SIZE {
                    &&& r == Err::<Option<Message>, Error>(
                        Error::of_msg("message size smaller than header"),
                    )
                    &&& final(self)@ == v
                } else if v.received.len() < size {
                    &&& r matches Ok(m) && m is None
                    &&& final(self)@ == v
                } else if size - HEADER_SIZE > MSG_PAYLOAD_CAP {
                    &&& r == Err::<Option<Message>, Error>(
                        Error::of_msg("message payload too large"),
                    )
                    &&& final(self)@ == v
                } else {
                    &&& r matches Ok(Some(m)) && m.object_id == object && m.opcode == opcode
                        && m.payload.wf() && m.payload@ == v.received.subrange(
                        HEADER_SIZE as int,
                        size as int,
                    )
                    &&& final(self)@ == (SocketView {
                        received: v.received.skip(size as int),
                        ..v
                    })
                }
            }),
    {
        // Ensure we have at least a header
        if self.recv_buf.len() < HEADER_SIZE {
            return Ok(None);
        }
        // Parse header to get message size
        let (object_id, opcode, size) = wire::parse_header(self.recv_buf.as_slice())?;
        // Ensure we have the complete message
        if self.recv_buf.len() < size {
            return Ok(None);
        }
        // Copy out the payload (everything after the header), then drop the
        // message's bytes from the front of the buffer.
        let mut payload: ArrayVec<u8, MSG_PAYLOAD_CAP> = ArrayVec::new();
        let all = self.recv_buf.as_slice();
        let body = slice_subrange(all, HEADER_SIZE, size);
        if payload.extend_from_slice(body).is_err() {
            return Err(Error::msg("message payload too large"));
        }
        let rest = slice_subrange(all, size, all.len());
        let mut kept: ArrayVec<u8, RECV_CAP> = ArrayVec::new();
        let _ = kept.extend_from_slice(rest);
        assert(kept@ =~= self.recv_buf@.skip(size as int));
        assert(payload@ =~= self.recv_buf@.subrange(HEADER_SIZE as int, size as int));
        self.recv_buf = kept;
        Ok(Some(Message { object_id, opcode, payload }))
    }

    /// Take the next received fd in arrival order, for a message whose argument
    /// declares one (a keyboard keymap, a clipboard write pipe). Returns None
    /// when none is queued.
    pub fn take_fd(&mut self) -> (r: Option<RawFd>)
        requires
            old(self).wf(),
        ensures
            final(self).wf(),
            old(self)@.fds.len() == 0 ==> r is None && final(self)@ == old(self)@,
            old(self)@.fds.len() > 0 ==> r == Some(old(self)@.fds[0]) && final(self)@ == (
            SocketView { fds: old(self)@.fds.drop_first(), ..old(self)@ }),
    {
        let ghost before = self.recv_fds@;
        let r = self.recv_fds.remove(0);
        proof {
            if before.len() > 0 {
                assert(self.recv_fds@ =~= before.drop_first());
            }
        }
        r
    }

    /// Flush any buffered writes. Every message is on its way as soon as it is
    /// sent, so there is nothing buffered; this exists for call-site symmetry.
    pub fn flush(&mut self) -> (r: Result<()>)
        ensures
            r is Ok,
            *final(self) == *old(self),
    {
        Ok(())
    }

    /// The status flags that set the socket to non-blocking mode, or back to
    /// blocking, given what reading its flags returned.
    pub fn set_nonblocking(&self, flags: i32, nonblocking: bool) -> (r: Result<i32>)
        requires
            flags > i32::MIN,
        ensures
            syscall::toggles(flags, nonblocking, r),
    {
        if flags < 0 {
            return Err(Error::from_errno(-flags));
        }
        Ok(nonblocking_flags(flags, nonblocking))
    }

    /// The underlying socket fd, for registering the connection with an event
    /// loop.
    pub fn as_raw_fd(&self) -> (r: RawFd)
        ensures
            r == self@.raw,
    {
        self.fd
    }
}

impl SocketView {
    /// With one more packet on its way.
    pub open spec fn with(self, p: PacketView) -> SocketView {
        SocketView { sending: self.sending.push(p), ..self }
    }
}

/// Whether a request was put on its way: one whose arguments fit a message. One
/// that does not is refused, and nothing of it is sent.
pub open spec fn requests(
    before: SocketView,
    after: SocketView,
    r: Result<()>,
    object: u32,
    opcode: u16,
    args: Seq<Arg<'_>>,
    fds: Seq<RawFd>,
) -> bool {
    let msg = frames::message_bytes(object, opcode, args);
    if HEADER_SIZE + frames::body_bytes(args).len() <= BUILD_CAP {
        r is Ok && after == before.with(PacketView { bytes: msg, fds })
    } else {
        r == Err::<(), Error>(Error::of_msg("message exceeds buffer capacity")) && after == before
    }
}

/// Build a request an argument at a time, and send it.
pub fn request(
    socket: &mut WaylandSocket,
    object: u32,
    opcode: u16,
    args: &[Arg<'_>],
    fds: &[RawFd],
) -> (r: Result<()>)
    requires
        old(socket).wf(),
    ensures
        final(socket).wf(),
        requests(old(socket)@, final(socket)@, r, object, opcode, args@, fds@),
{
    let mut msg = MessageBuilder::new(object, opcode);
    let n: usize = args.len();
    let mut i: usize = 0;
    assert(args@.take(0) =~= Seq::<Arg<'_>>::empty());
    while i < n
        invariant
            i <= n == args@.len(),
            msg.wf(),
            msg@ == wire::built(object, opcode, args@.take(i as int)),
        decreases n - i,
    {
        let ghost v = msg@;
        proof {
            wire::law_a_builder_encodes_its_arguments(
                object,
                opcode,
                args@.take(i as int),
                args@[i as int],
            );
            assert(args@.take(i as int).push(args@[i as int]) =~= args@.take(i + 1));
        }
        match &args[i] {
            Arg::Int(v) => msg.put_i32(*v),
            Arg::Uint(v) => msg.put_u32(*v),
            Arg::Object(v) => msg.put_object(*v),
            Arg::NewId(v) => msg.put_new_id(*v),
            Arg::Str(s) => msg.put_string(s),
            Arg::Bind { interface, version, new_id } => {
                // new_id is preceded by interface name and version
                msg.put_string(interface);
                msg.put_u32(*version);
                msg.put_new_id(*new_id);
                proof {
                    let a = frames::str_bytes(interface@);
                    let b = frames::u32_bytes(*version);
                    let c = frames::u32_bytes(*new_id);
                    wire::lemma_put_parts(v, a, b);
                    wire::lemma_put_parts(v, a + b, c);
                }
            },
        }
        i += 1;
    }
    proof {
        assert(args@.take(n as int) =~= args@);
        if args@.len() > 0 {
            wire::law_a_builder_encodes_its_arguments(object, opcode, args@, args@[0]);
        } else {
            wire::law_a_builder_encodes_its_arguments(object, opcode, args@, Arg::Uint(0));
        }
    }
    let bytes = msg.finish()?;
    socket.send(bytes.as_slice(), fds)
}

} // verus!
