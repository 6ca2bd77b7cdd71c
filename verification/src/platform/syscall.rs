//! The kernel's data layouts: C paths, errno windows, and the control messages
//! that carry file descriptors beside a byte stream. x86_64 Linux.
use vstd::prelude::*;
use vstd::slice::slice_subrange;
use vstd::utf8::*;

use crate::platform::bytes;
use crate::platform::bytes::{find_byte, from_le_bytes, to_le_bytes};
use crate::platform::error::{Error, Result};
use crate::platform::text;

verus! {

/// A raw file descriptor.
pub type RawFd = i32;

/// A file descriptor received from or handed to the kernel.
#[derive(Debug)]
pub struct Fd {
    raw: RawFd,
}

impl Fd {
    pub closed spec fn spec_raw(&self) -> RawFd {
        self.raw
    }

    pub fn new(fd: RawFd) -> (r: Self)
        ensures
            r.spec_raw() == fd,
    {
        Fd { raw: fd }
    }

    pub fn as_raw_fd(&self) -> (r: RawFd)
        ensures
            r == self.spec_raw(),
    {
        self.raw
    }
}

/// errno for a syscall interrupted by a signal; retry it.
pub const EINTR: i32 = 4;

/// errno for an argument the kernel rejects.
pub const EINVAL: i32 = 22;

/// errno returned by mkdir when the directory already exists.
pub const EEXIST: i32 = 17;

/// File-status flag: reads and writes do not wait.
pub const O_NONBLOCK: i32 = 0x800;

/// The control-message level and type of passed file descriptors.
pub const SOL_SOCKET: i32 = 1;

pub const SCM_RIGHTS: i32 = 1;

/// Control-message buffer size, large enough for the fds passed either way.
pub const CMSG_BUF: usize = 256;

/// Longest path the kernel path arguments handle, including the trailing NUL.
pub const PATH_CAP: usize = 1024;

/// A path held as a valid C string: the bytes a kernel path argument reads, with
/// no interior NUL, then zeros up to the capacity.
pub struct CPath {
    buf: Vec<u8>,
    len: usize,
}

impl CPath {
    /// The bytes before the terminator.
    pub closed spec fn path(&self) -> Seq<u8> {
        self.buf@.take(self.len as int)
    }

    /// The path fits with its terminator, holds no NUL, and is followed by
    /// zeros.
    pub closed spec fn wf(&self) -> bool {
        &&& self.buf@.len() == PATH_CAP
        &&& self.len < PATH_CAP
        &&& !self.path().contains(0u8)
        &&& forall|i: int| self.len <= i < PATH_CAP ==> self.buf@[i] == 0u8
    }

    /// Build a CPath from a string, or None if it holds an interior NUL or does
    /// not fit with room for the terminator.
    pub fn new(path: &str) -> (r: Option<CPath>)
        ensures
            r is Some <==> text::byte_len(path@) + 1 <= PATH_CAP && !encode_utf8(path@).contains(
                0u8,
            ),
            r matches Some(p) ==> p.wf() && p.path() == encode_utf8(path@),
    {
        let b = path.as_bytes();
        if b.len() >= PATH_CAP {
            return None;
        }
        if let Some(i) = find_byte(b, 0) {
            assert(b@.contains(b@[i as int]));
            return None;
        }
        let mut buf: Vec<u8> = Vec::new();
        let mut i: usize = 0;
        while i < PATH_CAP
            invariant
                i <= PATH_CAP,
                b@.len() < PATH_CAP,
                buf@.len() == i,
                forall|j: int|
                    0 <= j < i ==> buf@[j] == (if j < b@.len() {
                        b@[j]
                    } else {
                        0u8
                    }),
            decreases PATH_CAP - i,
        {
            if i < b.len() {
                buf.push(b[i]);
            } else {
                buf.push(0);
            }
            i += 1;
        }
        let r = CPath { buf, len: b.len() };
        assert(r.path() == b@);
        Some(r)
    }

    /// The whole buffer, terminator and padding included.
    pub fn as_bytes(&self) -> (r: &[u8])
        requires
            self.wf(),
        ensures
            r@ == self.path() + Seq::new((PATH_CAP - self.path().len()) as nat, |i: int| 0u8),
            self.path().len() < PATH_CAP,
            !self.path().contains(0u8),
    {
        assert(self.buf@ == self.path() + Seq::new(
            (PATH_CAP - self.path().len()) as nat,
            |i: int| 0u8,
        ));
        self.buf.as_slice()
    }
}

/// Whether the address mmap returned is a failure: the raw syscall reports
/// errors by returning the negated errno in the range -4095 to -1, where no
/// user-space mapping lives.
pub fn mmap_failed(addr: isize) -> (r: bool)
    ensures
        r == (-4095 <= addr < 0),
{
    -4095 <= addr && addr < 0
}

/// Extract the errno from a failed mmap return value.
pub fn mmap_errno(addr: isize) -> (r: i32)
    requires
        -4095 <= addr < 0,
    ensures
        r == -addr,
{
    -(addr as i32)
}

/// The status flags with O_NONBLOCK set or cleared.
pub fn nonblocking_flags(flags: i32, nonblocking: bool) -> (r: i32)
    ensures
        r == (if nonblocking {
            flags | O_NONBLOCK
        } else {
            flags & !O_NONBLOCK
        }),
{
    if nonblocking {
        flags | O_NONBLOCK
    } else {
        flags & !O_NONBLOCK
    }
}

/// Whether a result is the flags to set a socket to non-blocking mode with, or
/// back to blocking, given what reading its flags returned: a negative value is
/// a negated errno.
pub open spec fn toggles(flags: i32, nonblocking: bool, r: Result<i32>) -> bool {
    if flags < 0 {
        r == Err::<i32, Error>(Error::of_errno((-flags) as i32))
    } else if nonblocking {
        r == Ok::<i32, Error>(flags | O_NONBLOCK)
    } else {
        r == Ok::<i32, Error>(flags & !O_NONBLOCK)
    }
}

/// Setting the flag and clearing it again leaves every other flag alone, and
/// each setting is idempotent.
pub proof fn law_nonblocking_flags(flags: i32)
    ensures
        (flags | O_NONBLOCK) & !O_NONBLOCK == flags & !O_NONBLOCK,
        (flags & !O_NONBLOCK) | O_NONBLOCK == flags | O_NONBLOCK,
        (flags | O_NONBLOCK) | O_NONBLOCK == flags | O_NONBLOCK,
        (flags & !O_NONBLOCK) & O_NONBLOCK == 0,
{
    assert((flags | 0x800) & !0x800i32 == flags & !0x800i32) by (bit_vector);
    assert((flags & !0x800i32) | 0x800 == flags | 0x800) by (bit_vector);
    assert((flags | 0x800) | 0x800 == flags | 0x800) by (bit_vector);
    assert((flags & !0x800i32) & 0x800 == 0) by (bit_vector);
}

/// Size of a control-message header: its length, level and type.
pub const CMSG_HEADER: usize = 16;

/// A length rounded up to the control-message alignment.
pub open spec fn aligned(len: nat) -> nat {
    (len + 7) / 8 * 8
}

/// Align a value up to the control-message alignment.
pub fn cmsg_align(len: usize) -> (r: usize)
    requires
        len <= usize::MAX - 7,
    ensures
        r == aligned(len as nat),
        len <= r < len + 8,
        r % 8 == 0,
{
    (len + 7) / 8 * 8
}

/// The size of a control message with the given data length, padding included.
pub fn cmsg_space(data_len: usize) -> (r: usize)
    requires
        data_len <= usize::MAX - 23,
    ensures
        r == CMSG_HEADER + aligned(data_len as nat),
{
    CMSG_HEADER + cmsg_align(data_len)
}

/// The length field of a control message with the given data length.
pub fn cmsg_len(data_len: usize) -> (r: usize)
    requires
        data_len <= usize::MAX - 16,
    ensures
        r == CMSG_HEADER + data_len,
{
    CMSG_HEADER + data_len
}

/// File descriptors as they lie in a control message.
pub open spec fn fd_bytes(fds: Seq<RawFd>) -> Seq<u8>
    decreases fds.len(),
{
    if fds.len() == 0 {
        Seq::empty()
    } else {
        fd_bytes(fds.drop_last()) + bytes::le((fds.last() as u32) as nat, 4)
    }
}

/// The control buffer that passes file descriptors: one message holding them,
/// padded to the alignment.
pub open spec fn rights_bytes(fds: Seq<RawFd>) -> Seq<u8> {
    bytes::le(CMSG_HEADER as nat + 4 * fds.len(), 8) + bytes::le(SOL_SOCKET as nat, 4) + bytes::le(
        SCM_RIGHTS as nat,
        4,
    ) + fd_bytes(fds) + Seq::new((aligned(4 * fds.len()) - 4 * fds.len()) as nat, |i: int| 0u8)
}

proof fn lemma_fd_bytes_len(fds: Seq<RawFd>)
    ensures
        fd_bytes(fds).len() == 4 * fds.len(),
    decreases fds.len(),
{
    if fds.len() > 0 {
        lemma_fd_bytes_len(fds.drop_last());
        bytes::lemma_le_len((fds.last() as u32) as nat, 4);
    }
}

/// Build the control buffer that passes fds with a send. None when they do not
/// fit the control buffer.
pub fn rights_control(fds: &[RawFd]) -> (r: Option<Vec<u8>>)
    ensures
        r is Some <==> CMSG_HEADER + aligned(4 * fds@.len()) <= CMSG_BUF,
        r matches Some(b) ==> b@ == rights_bytes(fds@),
{
    if fds.len() > 60 {
        return None;
    }
    let data_len: usize = fds.len() * 4;
    let total: usize = cmsg_space(data_len);
    if total > CMSG_BUF {
        return None;
    }
    let mut out: Vec<u8> = to_le_bytes(cmsg_len(data_len) as u64, 8);
    let mut level: Vec<u8> = to_le_bytes(1, 4);
    let mut kind: Vec<u8> = to_le_bytes(1, 4);
    out.append(&mut level);
    out.append(&mut kind);
    let ghost head = out@;
    proof {
        bytes::lemma_le_len(CMSG_HEADER as nat + 4 * fds@.len(), 8);
        bytes::lemma_le_len(1, 4);
        assert(fds@.take(0) == Seq::<RawFd>::empty());
        assert(head + fd_bytes(fds@.take(0)) == head);
    }
    let mut i: usize = 0;
    while i < fds.len()
        invariant
            i <= fds@.len(),
            out@ == head + fd_bytes(fds@.take(i as int)),
        decreases fds.len() - i,
    {
        let mut b: Vec<u8> = to_le_bytes((fds[i] as u32) as u64, 4);
        out.append(&mut b);
        proof {
            assert(fds@.take(i + 1).drop_last() == fds@.take(i as int));
            assert(fds@.take(i + 1).last() == fds@[i as int]);
            assert(out@ == head + fd_bytes(fds@.take(i + 1)));
        }
        i += 1;
    }
    assert(fds@.take(fds@.len() as int) == fds@);
    let ghost full = out@;
    proof {
        lemma_fd_bytes_len(fds@);
    }
    let mut pad: usize = data_len;
    let end: usize = cmsg_align(data_len);
    while pad < end
        invariant
            data_len <= pad <= end,
            out@ == full + Seq::new((pad - data_len) as nat, |i: int| 0u8),
        decreases end - pad,
    {
        out.push(0);
        pad += 1;
    }
    assert(out@ == rights_bytes(fds@));
    Some(out)
}

/// A 32-bit word of a control buffer, as the kernel's signed fields hold it.
pub open spec fn word_at(b: Seq<u8>, off: int) -> i32 {
    (bytes::from_le(b.subrange(off, off + 4)) as u32) as i32
}

/// The descriptors a control message at `off` carries: none unless it is an
/// SCM_RIGHTS message, and only whole ones that lie inside the buffer.
pub open spec fn message_fds(b: Seq<u8>, off: int) -> Seq<RawFd> {
    let len = bytes::from_le(b.subrange(off, off + 8));
    let data = if len < CMSG_HEADER {
        0
    } else if off + len > b.len() {
        b.len() - off - CMSG_HEADER
    } else {
        len - CMSG_HEADER
    };
    if word_at(b, off + 8) == SOL_SOCKET && word_at(b, off + 12) == SCM_RIGHTS {
        Seq::new((data / 4) as nat, |i: int| word_at(b, off + CMSG_HEADER + 4 * i))
    } else {
        Seq::empty()
    }
}

/// The descriptors a control buffer carries from `off` on, in order. A message
/// shorter than its own header ends the walk, and so does one whose successor
/// would not fit whole.
pub open spec fn control_fds_from(b: Seq<u8>, off: int) -> Seq<RawFd>
    decreases
            (if off <= b.len() {
                b.len() - off
            } else {
                0
            }),
{
    if off < 0 || off + CMSG_HEADER > b.len() {
        Seq::empty()
    } else {
        let len = bytes::from_le(b.subrange(off, off + 8));
        if len < CMSG_HEADER {
            message_fds(b, off)
        } else {
            message_fds(b, off) + control_fds_from(b, off + aligned(len))
        }
    }
}

/// The descriptors of the control message at `off`.
fn read_message_fds(control: &[u8], off: usize) -> (r: Vec<RawFd>)
    requires
        off + CMSG_HEADER <= control@.len(),
    ensures
        r@ == message_fds(control@, off as int),
{
    let n: usize = control.len();
    let len: u64 = from_le_bytes(slice_subrange(control, off, off + 8));
    let level: i32 = read_word(control, off + 8);
    let kind: i32 = read_word(control, off + 12);
    let data_start: usize = off + CMSG_HEADER;
    let avail: usize = n - data_start;
    let mut out: Vec<RawFd> = Vec::new();
    if level == SOL_SOCKET && kind == SCM_RIGHTS {
        let data: usize = if len < CMSG_HEADER as u64 {
            0
        } else if len - CMSG_HEADER as u64 > avail as u64 {
            avail
        } else {
            (len - CMSG_HEADER as u64) as usize
        };
        let count: usize = data / 4;
        let mut i: usize = 0;
        while i < count
            invariant
                i <= count,
                count == data / 4,
                data <= n - data_start,
                data_start <= n,
                data_start == off + CMSG_HEADER,
                n == control@.len(),
                out@ == Seq::new(i as nat, |j: int| word_at(control@, off + CMSG_HEADER + 4 * j)),
            decreases count - i,
        {
            out.push(read_word(control, data_start + 4 * i));
            i += 1;
        }
    }
    assert(out@ == message_fds(control@, off as int));
    out
}

/// Where the control message after the one at `off` starts, if it fits whole.
fn next_message(control: &[u8], off: usize) -> (r: Option<usize>)
    requires
        off + CMSG_HEADER <= control@.len(),
    ensures
        ({
            let len = bytes::from_le(control@.subrange(off as int, off + 8));
            match r {
                Some(next) => len >= CMSG_HEADER && next == off + aligned(len) && next
                    + CMSG_HEADER <= control@.len(),
                None => len < CMSG_HEADER || off + aligned(len) + CMSG_HEADER > control@.len(),
            }
        }),
{
    let n: usize = control.len();
    let len: u64 = from_le_bytes(slice_subrange(control, off, off + 8));
    if len < CMSG_HEADER as u64 || len > (n - off) as u64 {
        return None;
    }
    let over: usize = (len % 8) as usize;
    let pad: usize = if over == 0 { 0 } else { 8 - over };
    let after: usize = n - off - len as usize;
    if after < pad || after - pad < CMSG_HEADER {
        return None;
    }
    Some(off + len as usize + pad)
}

/// The file descriptors passed in a control buffer, in arrival order.
pub fn control_fds(control: &[u8]) -> (r: Vec<RawFd>)
    ensures
        r@ == control_fds_from(control@, 0),
{
    let mut out: Vec<RawFd> = Vec::new();
    if control.len() < CMSG_HEADER {
        return out;
    }
    let mut off: usize = 0;
    assert(out@ + control_fds_from(control@, 0) == control_fds_from(control@, 0));
    loop
        invariant
            off + CMSG_HEADER <= control@.len(),
            control_fds_from(control@, 0) == out@ + control_fds_from(control@, off as int),
        decreases control@.len() - off,
    {
        let ghost before = out@;
        let mut fds = read_message_fds(control, off);
        let ghost here = message_fds(control@, off as int);
        out.append(&mut fds);
        match next_message(control, off) {
            None => {
                let ghost len = bytes::from_le(control@.subrange(off as int, off + 8));
                assert(len >= CMSG_HEADER ==> control_fds_from(control@, off + aligned(len))
                    == Seq::<RawFd>::empty());
                assert(here + Seq::<RawFd>::empty() == here);
                return out;
            },
            Some(next) => {
                assert(before + (here + control_fds_from(control@, next as int)) == out@
                    + control_fds_from(control@, next as int));
                off = next;
            },
        }
    }
}

fn read_word(control: &[u8], off: usize) -> (r: i32)
    requires
        off + 4 <= control@.len(),
    ensures
        r == word_at(control@, off as int),
{
    assert(control@.len() == control.len());
    let b = slice_subrange(control, off, off + 4);
    let v: u64 = from_le_bytes(b);
    proof {
        bytes::lemma_le_of_from_le(b@);
        bytes::lemma_pow256_values();
    }
    (v as u32) as i32
}

/// Reading a descriptor out of its bytes gives it back.
proof fn lemma_fd_at(fds: Seq<RawFd>, i: int)
    requires
        0 <= i < fds.len(),
    ensures
        fd_bytes(fds).len() == 4 * fds.len(),
        word_at(fd_bytes(fds), 4 * i) == fds[i],
    decreases fds.len(),
{
    lemma_fd_bytes_len(fds);
    lemma_fd_bytes_len(fds.drop_last());
    let last = bytes::le((fds.last() as u32) as nat, 4);
    bytes::lemma_le_len((fds.last() as u32) as nat, 4);
    if i == fds.len() - 1 {
        assert(fd_bytes(fds).subrange(4 * i, 4 * i + 4) == last);
        bytes::lemma_pow256_values();
        bytes::lemma_from_le_of_le((fds.last() as u32) as nat, 4);
        let v = fds.last();
        assert((v as u32) as i32 == v) by (bit_vector);
    } else {
        lemma_fd_at(fds.drop_last(), i);
        assert(fd_bytes(fds).subrange(4 * i, 4 * i + 4) == fd_bytes(fds.drop_last()).subrange(
            4 * i,
            4 * i + 4,
        ));
    }
}

/// What a send passes, a receive takes out: the descriptors of a control buffer
/// built to pass them, all of them and in order.
pub proof fn law_rights_round_trip(fds: Seq<RawFd>)
    requires
        fds.len() <= 0x1000_0000,
    ensures
        control_fds_from(rights_bytes(fds), 0) == fds,
{
    let b = rights_bytes(fds);
    let n = CMSG_HEADER as nat + 4 * fds.len();
    bytes::lemma_le_len(n, 8);
    bytes::lemma_le_len(1, 4);
    lemma_fd_bytes_len(fds);
    bytes::lemma_pow256_values();
    bytes::lemma_from_le_of_le(n, 8);
    bytes::lemma_from_le_of_le(1, 4);
    assert(b.subrange(0, 8) == bytes::le(n, 8));
    assert(b.subrange(8, 12) == bytes::le(1, 4));
    assert(b.subrange(12, 16) == bytes::le(1, 4));
    assert(b.len() == CMSG_HEADER + aligned(4 * fds.len()));
    assert forall|i: int| 0 <= i < fds.len() implies word_at(b, 16 + 4 * i) == fds[i] by {
        lemma_fd_at(fds, i);
        assert(b.subrange(16 + 4 * i, 16 + 4 * i + 4) == fd_bytes(fds).subrange(4 * i, 4 * i + 4));
    }
    assert(message_fds(b, 0) == fds);
    assert(control_fds_from(b, aligned(n) as int) == Seq::<RawFd>::empty());
    assert(fds + Seq::<RawFd>::empty() == fds);
}

/// A point in time as the kernel reports it.
#[allow(non_camel_case_types)]
#[derive(Clone, Copy, Debug, PartialEq, Eq)]
pub struct kernel_timespec {
    pub tv_sec: i64,
    pub tv_nsec: i64,
}

/// A timestamp of a file.
#[allow(non_camel_case_types)]
#[derive(Clone, Copy, Debug, PartialEq, Eq)]
pub struct stat_timespec {
    pub tv_sec: i64,
    pub tv_nsec: i64,
}

/// What a stat of a path says that the launcher reads: the file kind and when
/// it last changed.
#[allow(non_camel_case_types)]
#[derive(Clone, Copy, Debug, PartialEq, Eq)]
pub struct stat {
    pub st_mode: u32,
    pub st_size: i64,
    pub st_mtime: stat_timespec,
}

/// File-type mask and directory bit within st_mode.
pub const S_IFMT: u32 = 0xF000;

pub const S_IFDIR: u32 = 0x4000;

/// d_type values of a directory record: a regular file, a directory, and a
/// symbolic link. Any other kind has to be looked up.
pub const DT_REG: u8 = 8;

pub const DT_DIR: u8 = 4;

pub const DT_LNK: u8 = 10;

/// Ring offsets returned by io_uring_setup, each a byte offset into the SQ
/// mapping at which that u32 field lives.
#[allow(non_camel_case_types)]
#[derive(Clone, Copy, Debug, PartialEq, Eq, Default)]
pub struct io_sqring_offsets {
    pub head: u32,
    pub tail: u32,
    pub ring_mask: u32,
    pub ring_entries: u32,
    pub flags: u32,
    pub dropped: u32,
    pub array: u32,
    pub resv1: u32,
    pub resv2: u64,
}

/// Ring offsets returned by io_uring_setup for the completion mapping.
#[allow(non_camel_case_types)]
#[derive(Clone, Copy, Debug, PartialEq, Eq, Default)]
pub struct io_cqring_offsets {
    pub head: u32,
    pub tail: u32,
    pub ring_mask: u32,
    pub ring_entries: u32,
    pub overflow: u32,
    pub cqes: u32,
    pub flags: u32,
    pub resv1: u32,
    pub resv2: u64,
}

/// Parameters and negotiated layout for io_uring_setup. The kernel fills the
/// feature bits and ring offsets on return.
#[allow(non_camel_case_types)]
#[derive(Clone, Copy, Debug, PartialEq, Eq, Default)]
pub struct io_uring_params {
    pub sq_entries: u32,
    pub cq_entries: u32,
    pub flags: u32,
    pub sq_thread_cpu: u32,
    pub sq_thread_idle: u32,
    pub features: u32,
    pub wq_fd: u32,
    pub sq_off: io_sqring_offsets,
    pub cq_off: io_cqring_offsets,
}

/// A submission queue entry: one queued operation. off, addr, and op_flags carry
/// different meanings per opcode.
#[allow(non_camel_case_types)]
#[derive(Clone, Copy, Debug, PartialEq, Eq)]
pub struct io_uring_sqe {
    pub opcode: u8,
    pub flags: u8,
    pub ioprio: u16,
    pub fd: i32,
    pub off: u64,
    pub addr: u64,
    pub len: u32,
    pub op_flags: u32,
    pub user_data: u64,
    pub buf_index: u16,
    pub personality: u16,
    pub splice_fd_in: i32,
    pub addr3: u64,
}

impl io_uring_sqe {
    /// An entry with every field zero.
    pub open spec fn zeroed() -> io_uring_sqe {
        io_uring_sqe {
            opcode: 0,
            flags: 0,
            ioprio: 0,
            fd: 0,
            off: 0,
            addr: 0,
            len: 0,
            op_flags: 0,
            user_data: 0,
            buf_index: 0,
            personality: 0,
            splice_fd_in: 0,
            addr3: 0,
        }
    }
}

impl Default for io_uring_sqe {
    fn default() -> (r: Self)
        ensures
            r == io_uring_sqe::zeroed(),
    {
        io_uring_sqe {
            opcode: 0,
            flags: 0,
            ioprio: 0,
            fd: 0,
            off: 0,
            addr: 0,
            len: 0,
            op_flags: 0,
            user_data: 0,
            buf_index: 0,
            personality: 0,
            splice_fd_in: 0,
            addr3: 0,
        }
    }
}

/// A completion queue entry: the result of one submitted operation. user_data
/// echoes the value set on the matching sqe; res is the operation's return
/// value (negative is a negated errno).
#[allow(non_camel_case_types)]
#[derive(Clone, Copy, Debug, PartialEq, Eq, Default)]
pub struct io_uring_cqe {
    pub user_data: u64,
    pub res: i32,
    pub flags: u32,
}

} // verus!
