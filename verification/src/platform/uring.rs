//! A minimal io_uring submission and completion ring.
//!
//! io_uring is two ring buffers shared with the kernel. Submission queue entries
//! (SQEs) describe operations; completion queue entries (CQEs) carry their
//! results. One io_uring_enter submits a batch and waits for its completions, so
//! a single thread can have many operations outstanding at once.
//!
//! ```text
//!   prep_*()  ->  [ SQ ring ]  --io_uring_enter-->  kernel runs the op
//!                                                          |
//!   next_cqe() <-  [ CQ ring ]  <----completion-----------+
//! ```
//!
//! The mappings and the system calls are the caller's: it copies what is queued
//! here into the kernel's slots, and hands in the heads and tails the kernel
//! moved. Memory whose address goes into an entry must stay put until the
//! matching completion arrives.
use vstd::prelude::*;

use crate::platform::syscall::{
    io_uring_cqe, io_uring_params, io_uring_sqe, RawFd, EINTR,
};

verus! {

/// io_uring_enter flag: also wait for and reap completions, not just submit.
pub const IORING_ENTER_GETEVENTS: u32 = 1;

/// Feature bit reported by io_uring_setup when the submission and completion
/// rings share one mapping, so only the SQE array needs a second one.
pub const IORING_FEAT_SINGLE_MMAP: u32 = 1;

pub const IORING_OP_NOP: u8 = 0;

pub const IORING_OP_POLL_ADD: u8 = 6;

pub const IORING_OP_TIMEOUT: u8 = 11;

pub const IORING_OP_OPENAT: u8 = 18;

pub const IORING_OP_CLOSE: u8 = 19;

pub const IORING_OP_READ: u8 = 22;

/// sqe flag: this entry links to the next, which only starts once this one
/// completes successfully.
pub const IOSQE_IO_LINK: u8 = 4;

/// openat's directory meaning the working directory.
pub const AT_FDCWD: i32 = -100;

/// openat's flags for reading only.
pub const O_RDONLY: i32 = 0;

/// Bytes of one submission entry, as the kernel lays it out.
pub const SQE_SIZE: u64 = 64;

/// Bytes of one completion entry, as the kernel lays it out.
pub const CQE_SIZE: u64 = 16;

/// How much to map of each of a ring's regions.
#[derive(Clone, Copy, Debug, PartialEq, Eq)]
pub struct Mappings {
    pub sq_len: u64,
    /// Zero when the submission mapping covers both rings.
    pub cq_len: u64,
    pub sqes_len: u64,
}

/// The bytes of the submission ring.
pub open spec fn sq_ring_bytes(p: io_uring_params) -> int {
    p.sq_off.array + p.sq_entries * 4
}

/// The bytes of the completion ring.
pub open spec fn cq_ring_bytes(p: io_uring_params) -> int {
    p.cq_off.cqes + p.cq_entries * CQE_SIZE
}

/// What to map, by the layout the kernel negotiated. With a single mapping the
/// submission map must cover both rings.
pub fn mappings(p: &io_uring_params) -> (r: Mappings)
    ensures
        r.sqes_len == p.sq_entries * SQE_SIZE,
        p.features & IORING_FEAT_SINGLE_MMAP != 0 ==> r.cq_len == 0 && r.sq_len == if sq_ring_bytes(
            *p,
        ) >= cq_ring_bytes(*p) {
            sq_ring_bytes(*p)
        } else {
            cq_ring_bytes(*p)
        },
        p.features & IORING_FEAT_SINGLE_MMAP == 0 ==> r.cq_len == cq_ring_bytes(*p) && r.sq_len
            == sq_ring_bytes(*p),
{
    let sq: u64 = p.sq_off.array as u64 + p.sq_entries as u64 * 4;
    let cq: u64 = p.cq_off.cqes as u64 + p.cq_entries as u64 * CQE_SIZE;
    let sqes_len: u64 = p.sq_entries as u64 * SQE_SIZE;
    if p.features & IORING_FEAT_SINGLE_MMAP != 0 {
        Mappings {
            sq_len: if sq >= cq {
                sq
            } else {
                cq
            },
            cq_len: 0,
            sqes_len,
        }
    } else {
        Mappings { sq_len: sq, cq_len: cq, sqes_len }
    }
}

/// A size a ring can have: a power of two.
pub open spec fn ring_size(n: u32) -> bool {
    n != 0 && n & ((n - 1) as u32) == 0
}

/// The slot of the entry that comes k after a ring's head.
pub open spec fn slot_after(entries: u32, head: u32, k: int) -> u32 {
    head.wrapping_add(k as u32) & ((entries - 1) as u32)
}

proof fn lemma_slot_in_range(entries: u32, at: u32)
    requires
        ring_size(entries),
    ensures
        at & ((entries - 1) as u32) < entries,
{
    let mask: u32 = (entries - 1) as u32;
    assert(at & mask <= mask) by (bit_vector);
}

/// Entries in flight never share a slot, so an entry the kernel has not read is
/// never overwritten.
pub proof fn law_slots_are_distinct(entries: u32, head: u32, i: int, j: int)
    requires
        ring_size(entries),
        0 <= i < j < entries,
    ensures
        slot_after(entries, head, i) != slot_after(entries, head, j),
{
    let mask: u32 = (entries - 1) as u32;
    let a: u32 = head.wrapping_add(i as u32);
    let d: u32 = (j - i) as u32;
    let b: u32 = a.wrapping_add(d);
    assert(b == head.wrapping_add(j as u32));
    lemma_distinct(entries, mask, a, b, d);
}

proof fn lemma_distinct(entries: u32, mask: u32, a: u32, b: u32, d: u32)
    requires
        entries != 0,
        mask == entries - 1,
        entries & mask == 0,
        0 < d < entries,
        b == a.wrapping_add(d),
    ensures
        a & mask != b & mask,
{
    assert(b == (a + d) as u32) by {
        assert((a + d) as u32 == a + d || (a + d) as u32 == a + d - 0x1_0000_0000) by (bit_vector);
    }
    assert(entries != 0 && mask == entries - 1 && entries & mask == 0 && 0 < d && d < entries && b == (
    a + d) as u32 ==> a & mask != b & mask) by (bit_vector);
}

/// A ring's queue of submissions, and where its completions are read.
pub struct Ring {
    ring_fd: RawFd,
    entries: u32,
    sqes: Vec<io_uring_sqe>,
    /// How far the kernel has read the submissions.
    sq_head: u32,
    /// Our running tail, published to the kernel only at submit time. The count
    /// of unconsumed SQEs is recomputed from tail minus the kernel head at each
    /// submit rather than tracked, so a short submit strands no entries.
    sq_tail: u32,
    cq_entries: u32,
    cq_head: u32,
}

/// What a ring holds.
#[verifier::ext_equal]
pub struct RingView {
    pub fd: RawFd,
    pub entries: u32,
    /// How far the kernel has read the submissions.
    pub head: u32,
    /// The submissions the kernel has not read yet.
    pub queue: Seq<io_uring_sqe>,
    pub cq_entries: u32,
    /// How far the completions have been read.
    pub cq_head: u32,
}

impl RingView {
    /// With one more submission queued, or unchanged when the queue is full.
    pub open spec fn queued(self, sqe: io_uring_sqe) -> (RingView, core::result::Result<(), ()>) {
        if self.queue.len() < self.entries {
            (RingView { queue: self.queue.push(sqe), ..self }, Ok(()))
        } else {
            (self, Err(()))
        }
    }
}

impl View for Ring {
    type V = RingView;

    closed spec fn view(&self) -> RingView {
        RingView {
            fd: self.ring_fd,
            entries: self.entries,
            head: self.sq_head,
            queue: Seq::new(
                self.sq_tail.wrapping_sub(self.sq_head) as nat,
                |k: int| self.sqes@[slot_after(self.entries, self.sq_head, k) as int],
            ),
            cq_entries: self.cq_entries,
            cq_head: self.cq_head,
        }
    }
}

/// The next submission to copy into the kernel's ring, and its slot there.
pub struct Submission {
    pub slot: u32,
    pub sqe: io_uring_sqe,
}

/// What to call io_uring_enter with.
#[derive(Clone, Copy, Debug, PartialEq, Eq)]
pub struct Enter {
    /// The tail to publish first.
    pub tail: u32,
    pub to_submit: u32,
    pub min_complete: u32,
    pub flags: u32,
}

impl Ring {
    /// There is a slot for every entry, and no more entries than slots.
    pub closed spec fn wf(&self) -> bool {
        &&& ring_size(self.entries)
        &&& ring_size(self.cq_entries)
        &&& self.sqes@.len() == self.entries
        &&& self.sq_tail.wrapping_sub(self.sq_head) <= self.entries
    }

    /// A ring as the kernel set it up: its descriptor, the sizes it negotiated,
    /// and the submission tail and completion head it starts from.
    pub fn new(fd: RawFd, params: &io_uring_params, sq_tail: u32, cq_head: u32) -> (r:
        core::result::Result<Ring, i32>)
        requires
            ring_size(params.sq_entries),
            ring_size(params.cq_entries),
            fd > i32::MIN,
        ensures
            fd < 0 ==> r == Err::<Ring, i32>((-fd) as i32),
            fd >= 0 ==> r is Ok && r->Ok_0.wf() && r->Ok_0@ == (RingView {
                fd,
                entries: params.sq_entries,
                head: sq_tail,
                queue: Seq::empty(),
                cq_entries: params.cq_entries,
                cq_head,
            }),
    {
        if fd < 0 {
            return Err(-fd);
        }
        let mut sqes: Vec<io_uring_sqe> = Vec::new();
        let mut i: u32 = 0;
        while i < params.sq_entries
            invariant
                i <= params.sq_entries,
                sqes@.len() == i,
            decreases params.sq_entries - i,
        {
            sqes.push(io_uring_sqe::default());
            i += 1;
        }
        let r = Ring {
            ring_fd: fd,
            entries: params.sq_entries,
            sqes,
            sq_head: sq_tail,
            sq_tail,
            cq_entries: params.cq_entries,
            cq_head,
        };
        assert(r@.queue =~= Seq::<io_uring_sqe>::empty());
        Ok(r)
    }

    /// Claim the next free submission slot for an entry. Err when the submission
    /// queue is full (too many ops in flight); the caller submits and retries.
    fn push_sqe(&mut self, sqe: io_uring_sqe) -> (r: core::result::Result<(), ()>)
        requires
            old(self).wf(),
        ensures
            final(self).wf(),
            (final(self)@, r) == old(self)@.queued(sqe),
    {
        let used: u32 = self.sq_tail.wrapping_sub(self.sq_head);
        if used >= self.entries {
            return Err(());
        }
        let ghost before = self@;
        let idx: usize = (self.sq_tail & (self.entries - 1)) as usize;
        proof {
            lemma_slot_in_range(self.entries, self.sq_tail);
            assert(self.sq_tail == self.sq_head.wrapping_add(used));
            assert forall|k: int| 0 <= k < used implies slot_after(self.entries, self.sq_head, k)
                != idx by {
                law_slots_are_distinct(self.entries, self.sq_head, k, used as int);
            }
        }
        self.sqes.set(idx, sqe);
        self.sq_tail = self.sq_tail.wrapping_add(1);
        assert(self.sq_tail.wrapping_sub(self.sq_head) == used + 1);
        proof {
            assert forall|k: int| 0 <= k < used implies self@.queue[k] == before.queue[k] by {
                lemma_slot_in_range(self.entries, self.sq_head.wrapping_add(k as u32));
            }
            assert(self@.queue =~= before.queue.push(sqe));
        }
        Ok(())
    }

    /// The i-th submission the kernel has not read yet, with the slot it goes in.
    pub fn submission(&self, i: u32) -> (r: Submission)
        requires
            self.wf(),
            i < self@.queue.len(),
        ensures
            r.sqe == self@.queue[i as int],
            r.slot == slot_after(self@.entries, self@.head, i as int),
            r.slot < self@.entries,
    {
        let at: u32 = self.sq_head.wrapping_add(i);
        proof {
            lemma_slot_in_range(self.entries, at);
        }
        let slot: u32 = at & (self.entries - 1);
        Submission { slot, sqe: self.sqes[slot as usize] }
    }

    /// What to publish and what to call io_uring_enter with, so that the
    /// prepared entries go out and, when wait_nr > 0, the call blocks until at
    /// least that many completions are available. Whatever the kernel has not
    /// consumed is submitted, so a short submit or a retry never leaves the
    /// newest entries stranded behind older ones.
    pub fn submit_and_wait(&self, wait_nr: u32) -> (r: Enter)
        requires
            self.wf(),
        ensures
            r.to_submit == self@.queue.len(),
            r.tail == self@.head.wrapping_add(r.to_submit),
            r.min_complete == wait_nr,
            r.flags == if wait_nr > 0 {
                IORING_ENTER_GETEVENTS
            } else {
                0
            },
    {
        Enter {
            tail: self.sq_tail,
            to_submit: self.sq_tail.wrapping_sub(self.sq_head),
            min_complete: wait_nr,
            flags: if wait_nr > 0 {
                IORING_ENTER_GETEVENTS
            } else {
                0
            },
        }
    }

    /// Take in what io_uring_enter returned and the head the kernel left. Gives
    /// the count it consumed, None when the call was interrupted and is to be
    /// made again, or the errno.
    pub fn entered(&mut self, ret: isize, head: u32) -> (r: core::result::Result<Option<u32>, i32>)
        requires
            old(self).wf(),
            head.wrapping_sub(old(self)@.head) <= old(self)@.queue.len(),
            ret > isize::MIN,
        ensures
            final(self).wf(),
            final(self)@ == (RingView {
                head,
                queue: old(self)@.queue.skip(head.wrapping_sub(old(self)@.head) as int),
                ..old(self)@
            }),
            r == if ret >= 0 {
                Ok::<Option<u32>, i32>(Some(ret as u32))
            } else if (-ret) as i32 == EINTR {
                Ok(None)
            } else {
                Err((-ret) as i32)
            },
    {
        let ghost before = self@;
        let ghost moved = head.wrapping_sub(self.sq_head);
        self.sq_head = head;
        proof {
            assert(self@.queue =~= before.queue.skip(moved as int)) by {
                assert forall|k: int| 0 <= k < self@.queue.len() implies self@.queue[k]
                    == before.queue[moved + k] by {
                    assert(head.wrapping_add(k as u32) == before.head.wrapping_add(
                        (moved + k) as u32,
                    ));
                }
            }
        }
        if ret < 0 {
            let e: i32 = (-ret) as i32;
            if e == EINTR {
                return Ok(None);
            }
            return Err(e);
        }
        Ok(Some(ret as u32))
    }

    /// Pop one completion, advancing the head so its slot is reusable: the slot
    /// to read, given the tail the kernel left. None when there is none.
    pub fn next_cqe(&mut self, tail: u32) -> (r: Option<u32>)
        requires
            old(self).wf(),
        ensures
            final(self).wf(),
            tail == old(self)@.cq_head ==> r is None && final(self)@ == old(self)@,
            tail != old(self)@.cq_head ==> r == Some(
                slot_after(old(self)@.cq_entries, old(self)@.cq_head, 0),
            ) && r->0 < old(self)@.cq_entries && final(self)@ == (RingView {
                cq_head: old(self)@.cq_head.wrapping_add(1),
                ..old(self)@
            }),
    {
        if self.cq_head == tail {
            return None;
        }
        let head: u32 = self.cq_head;
        proof {
            lemma_slot_in_range(self.cq_entries, head);
            assert(head.wrapping_add(0) == head);
        }
        let idx: u32 = head & (self.cq_entries - 1);
        let ghost before = self@;
        self.cq_head = head.wrapping_add(1);
        assert(self@.queue =~= before.queue);
        Some(idx)
    }

    /// Queue a no-op completion. Used as a setup smoke test.
    pub fn prep_nop(&mut self, user_data: u64) -> (r: core::result::Result<(), ()>)
        requires
            old(self).wf(),
        ensures
            final(self).wf(),
            (final(self)@, r) == old(self)@.queued(
                (io_uring_sqe { opcode: IORING_OP_NOP, user_data, ..io_uring_sqe::zeroed() }),
            ),
    {
        let mut sqe = io_uring_sqe::default();
        sqe.opcode = IORING_OP_NOP;
        sqe.user_data = user_data;
        self.push_sqe(sqe)
    }

    /// Watch a file descriptor for readiness once. poll_mask is a set of poll
    /// event bits, e.g. POLLIN. The caller re-arms after each completion. A
    /// one-shot poll works on every io_uring kernel, unlike multishot poll.
    pub fn prep_poll_add(&mut self, fd: RawFd, poll_mask: u32, user_data: u64) -> (r:
        core::result::Result<(), ()>)
        requires
            old(self).wf(),
        ensures
            final(self).wf(),
            (final(self)@, r) == old(self)@.queued(
                (io_uring_sqe {
                    opcode: IORING_OP_POLL_ADD,
                    fd,
                    op_flags: poll_mask,
                    user_data,
                    ..io_uring_sqe::zeroed()
                }),
            ),
    {
        let mut sqe = io_uring_sqe::default();
        sqe.opcode = IORING_OP_POLL_ADD;
        sqe.fd = fd;
        sqe.op_flags = poll_mask;
        sqe.user_data = user_data;
        self.push_sqe(sqe)
    }

    /// Arm a single relative timer that fires once after the timespec at the
    /// given address. The caller re-arms after each fire. A one-shot timeout
    /// works on every io_uring kernel, unlike multishot timeout.
    pub fn prep_timeout(&mut self, ts: u64, user_data: u64) -> (r: core::result::Result<(), ()>)
        requires
            old(self).wf(),
        ensures
            final(self).wf(),
            (final(self)@, r) == old(self)@.queued(
                (io_uring_sqe {
                    opcode: IORING_OP_TIMEOUT,
                    addr: ts,
                    len: 1,
                    user_data,
                    ..io_uring_sqe::zeroed()
                }),
            ),
    {
        let mut sqe = io_uring_sqe::default();
        sqe.opcode = IORING_OP_TIMEOUT;
        sqe.addr = ts;
        sqe.len = 1;
        sqe.user_data = user_data;
        self.push_sqe(sqe)
    }

    /// Open the NUL-terminated path at an address, relative to dirfd. When link
    /// is set, the next prepared entry only runs if this open succeeds, which is
    /// how an open/read/close chain is built.
    pub fn prep_openat(
        &mut self,
        dirfd: RawFd,
        path: u64,
        flags: i32,
        mode: u32,
        user_data: u64,
        link: bool,
    ) -> (r: core::result::Result<(), ()>)
        requires
            old(self).wf(),
        ensures
            final(self).wf(),
            (final(self)@, r) == old(self)@.queued(
                (io_uring_sqe {
                    opcode: IORING_OP_OPENAT,
                    flags: link_flags(link),
                    fd: dirfd,
                    addr: path,
                    len: mode,
                    op_flags: flags as u32,
                    user_data,
                    ..io_uring_sqe::zeroed()
                }),
            ),
    {
        let mut sqe = io_uring_sqe::default();
        sqe.opcode = IORING_OP_OPENAT;
        sqe.fd = dirfd;
        sqe.addr = path;
        sqe.len = mode;
        sqe.op_flags = flags as u32;
        sqe.user_data = user_data;
        if link {
            sqe.flags = IOSQE_IO_LINK;
        }
        self.push_sqe(sqe)
    }

    /// Read up to len bytes from fd at the given offset into the buffer at an
    /// address. Pass offset 0 (or the actual offset) for regular files.
    pub fn prep_read(
        &mut self,
        fd: RawFd,
        buf: u64,
        len: u32,
        offset: u64,
        user_data: u64,
        link: bool,
    ) -> (r: core::result::Result<(), ()>)
        requires
            old(self).wf(),
        ensures
            final(self).wf(),
            (final(self)@, r) == old(self)@.queued(read_sqe(fd, buf, len, offset, user_data, link)),
    {
        let mut sqe = io_uring_sqe::default();
        sqe.opcode = IORING_OP_READ;
        sqe.fd = fd;
        sqe.addr = buf;
        sqe.len = len;
        sqe.off = offset;
        sqe.user_data = user_data;
        if link {
            sqe.flags = IOSQE_IO_LINK;
        }
        self.push_sqe(sqe)
    }

    /// Close a file descriptor through the ring.
    pub fn prep_close(&mut self, fd: RawFd, user_data: u64) -> (r: core::result::Result<(), ()>)
        requires
            old(self).wf(),
        ensures
            final(self).wf(),
            (final(self)@, r) == old(self)@.queued(close_sqe(fd, user_data)),
    {
        let mut sqe = io_uring_sqe::default();
        sqe.opcode = IORING_OP_CLOSE;
        sqe.fd = fd;
        sqe.user_data = user_data;
        self.push_sqe(sqe)
    }
}

/// The flags of an entry, linked to the next or not.
pub open spec fn link_flags(link: bool) -> u8 {
    if link {
        IOSQE_IO_LINK
    } else {
        0
    }
}

/// A read.
pub open spec fn read_sqe(
    fd: RawFd,
    buf: u64,
    len: u32,
    offset: u64,
    user_data: u64,
    link: bool,
) -> io_uring_sqe {
    io_uring_sqe {
        opcode: IORING_OP_READ,
        flags: link_flags(link),
        fd,
        addr: buf,
        len,
        off: offset,
        user_data,
        ..io_uring_sqe::zeroed()
    }
}

/// A close.
pub open spec fn close_sqe(fd: RawFd, user_data: u64) -> io_uring_sqe {
    io_uring_sqe { opcode: IORING_OP_CLOSE, fd, user_data, ..io_uring_sqe::zeroed() }
}

/// user_data for the closes, which have no result worth reading. Real slots are
/// indices, so no index can collide with it.
pub const CLOSE_TAG: u64 = 0xFFFF_FFFF_FFFF_FFFF;

/// Most files one batch handles. The ring is sized for twice this, since an
/// opened file costs a read and a close.
pub const MAX_BATCH: usize = 64;

/// Files being read together.
pub struct Batch {
    /// How many files there are.
    pub count: u32,
    /// The bytes each file has in the buffer.
    pub stride: usize,
    /// The descriptor of each open file; negative for one that is not open.
    pub fds: Vec<RawFd>,
}

/// The opens of a batch of files, the first n of them, by the addresses of their
/// paths.
pub open spec fn open_sqes(paths: Seq<u64>) -> Seq<io_uring_sqe> {
    Seq::new(
        paths.len(),
        |i: int|
            io_uring_sqe {
                opcode: IORING_OP_OPENAT,
                fd: AT_FDCWD,
                addr: paths[i],
                op_flags: O_RDONLY as u32,
                user_data: i as u64,
                ..io_uring_sqe::zeroed()
            },
    )
}

/// The reads and closes of the first n files of a batch, into the buffer at an
/// address. The two of a file are linked, because io_uring orders nothing
/// between unlinked operations: an independent close could run before its own
/// read and pull the descriptor out from under it. A file that is not open is
/// passed over.
pub open spec fn read_sqes(fds: Seq<RawFd>, n: nat, bufs: u64, stride: int) -> Seq<io_uring_sqe>
    decreases n,
{
    if n == 0 {
        Seq::empty()
    } else {
        let i = n - 1;
        let before = read_sqes(fds, i as nat, bufs, stride);
        if fds[i] < 0 {
            before
        } else {
            before.push(
                read_sqe(
                    fds[i],
                    (bufs + i * stride) as u64,
                    stride as u32,
                    0,
                    i as u64,
                    true,
                ),
            ).push(close_sqe(fds[i], CLOSE_TAG))
        }
    }
}

/// As many submissions queued as there is room for, and whether all were.
pub open spec fn queues(v: RingView, all: Seq<io_uring_sqe>, after: RingView, fits: bool) -> bool {
    let room = v.entries - v.queue.len();
    &&& fits == (all.len() <= room)
    &&& after == (RingView {
        queue: v.queue + if fits {
            all
        } else {
            all.take(room)
        },
        ..v
    })
}

/// Start reading the first `stride` bytes of many files, all at once: queue an
/// open for each, by the addresses of their paths.
///
/// Slot i of the buffer is its bytes from i * stride on, and lens[i] will say
/// how many bytes landed in it. A file that could not be opened or read gets
/// zero, which the caller reads as "skip this one".
///
/// The batch must fit the ring: it takes one submission per file to open, then
/// two per opened file to read and close, so a ring of N entries handles N/2
/// files at a time. The caller chunks.
pub fn read_files(
    ring: &mut Ring,
    paths: &[u64],
    bufs_len: usize,
    stride: usize,
    lens: &mut [usize],
) -> (r: core::result::Result<Batch, ()>)
    requires
        old(ring).wf(),
    ensures
        final(ring).wf(),
        final(lens)@.len() == old(lens)@.len(),
        paths@.len() > old(lens)@.len() || paths@.len() * stride > bufs_len ==> r is Err
            && final(ring)@ == old(ring)@ && final(lens)@ == old(lens)@,
        paths@.len() <= old(lens)@.len() && paths@.len() * stride <= bufs_len ==> {
            &&& queues(old(ring)@, open_sqes(paths@), final(ring)@, r is Ok)
            &&& final(lens)@ == Seq::new(old(lens)@.len(), |i: int| 0usize)
            &&& r matches Ok(b) ==> b.count == paths@.len() && b.stride == stride && b.fds@ == Seq::new(
                (if paths@.len() < MAX_BATCH {
                    paths@.len()
                } else {
                    MAX_BATCH as nat
                }),
                |i: int| -1i32,
            )
        },
{
    let n: usize = paths.len();
    proof {
        assert(0 <= n * stride <= 0xFFFF_FFFF_FFFF_FFFF * 0xFFFF_FFFF_FFFF_FFFF)
            by (nonlinear_arith)
            requires
                0 <= n <= 0xFFFF_FFFF_FFFF_FFFF,
                0 <= stride <= 0xFFFF_FFFF_FFFF_FFFF,
        ;
    }
    if n > lens.len() || n as u128 * stride as u128 > bufs_len as u128 {
        return Err(());
    }
    let ghost v = ring@;
    let ghost all = open_sqes(paths@);
    let total: usize = lens.len();
    let mut k: usize = 0;
    while k < total
        invariant
            k <= total == lens@.len() == old(lens)@.len(),
            forall|i: int| 0 <= i < k ==> lens@[i] == 0,
        decreases total - k,
    {
        lens[k] = 0;
        k += 1;
    }
    assert(lens@ =~= Seq::new(old(lens)@.len(), |i: int| 0usize));
    // Open everything. The kernel does the path walks; the caller makes one
    // call.
    let mut i: usize = 0;
    assert(v.queue + all.take(0) =~= v.queue);
    while i < n
        invariant
            i <= n == paths@.len(),
            all == open_sqes(paths@),
            ring.wf(),
            v.queue.len() + i <= v.entries,
            ring@ == (RingView { queue: v.queue + all.take(i as int), ..v }),
            lens@ == Seq::new(old(lens)@.len(), |i: int| 0usize),
            v == old(ring)@,
            paths@.len() <= old(lens)@.len() && paths@.len() * stride <= bufs_len,
        decreases n - i,
    {
        let ghost before = ring@;
        if ring.prep_openat(AT_FDCWD, paths[i], O_RDONLY, 0, i as u64, false).is_err() {
            return Err(());
        }
        assert(ring@.queue =~= v.queue + all.take(i + 1));
        i += 1;
    }
    assert(all.take(n as int) =~= all);
    let mut fds: Vec<RawFd> = Vec::new();
    let mut j: usize = 0;
    while j < n && j < MAX_BATCH
        invariant
            j <= n,
            j <= MAX_BATCH,
            fds@ == Seq::new(j as nat, |i: int| -1i32),
        decreases n - j,
    {
        fds.push(-1);
        j += 1;
        assert(fds@ =~= Seq::new(j as nat, |i: int| -1i32));
    }
    Ok(Batch { count: n as u32, stride, fds })
}

impl Batch {
    /// Take in the completion of an open: a negative result is a negated errno,
    /// and leaves the file not open.
    pub fn opened(&mut self, cqe: &io_uring_cqe)
        ensures
            final(self).count == old(self).count,
            final(self).stride == old(self).stride,
            final(self).fds@ == if cqe.user_data < old(self).fds@.len() {
                old(self).fds@.update(cqe.user_data as int, cqe.res)
            } else {
                old(self).fds@
            },
    {
        if cqe.user_data < self.fds.len() as u64 {
            self.fds.set(cqe.user_data as usize, cqe.res);
        }
    }

    /// Queue a read and a close for every open file, into the buffer at an
    /// address. Returns how many submissions that is.
    pub fn queue_reads(&self, ring: &mut Ring, bufs: u64) -> (r: core::result::Result<u32, ()>)
        requires
            old(ring).wf(),
            self.fds@.len() <= MAX_BATCH,
            bufs + self.fds@.len() * self.stride <= u64::MAX,
        ensures
            final(ring).wf(),
            ({
                let all = read_sqes(self.fds@, self.fds@.len(), bufs, self.stride as int);
                &&& queues(old(ring)@, all, final(ring)@, r is Ok)
                &&& r matches Ok(n) ==> n == all.len()
            }),
    {
        let n: usize = self.fds.len();
        let ghost v = ring@;
        let ghost fds = self.fds@;
        let ghost stride = self.stride as int;
        let mut queued: u32 = 0;
        let mut i: usize = 0;
        assert(v.queue + read_sqes(fds, 0, bufs, stride) =~= v.queue);
        while i < n
            invariant
                i <= n == fds.len(),
                n <= MAX_BATCH,
                fds == self.fds@,
                stride == self.stride,
                bufs + n * stride <= u64::MAX,
                ring.wf(),
                v == old(ring)@,
                v.queue.len() + queued <= v.entries,
                queued <= 2 * i,
                queued == read_sqes(fds, i as nat, bufs, stride).len(),
                ring@ == (RingView {
                    queue: v.queue + read_sqes(fds, i as nat, bufs, stride),
                    ..v
                }),
            decreases n - i,
        {
            let fd: RawFd = self.fds[i];
            let ghost done = read_sqes(fds, i as nat, bufs, stride);
            let ghost next = read_sqes(fds, (i + 1) as nat, bufs, stride);
            let ghost all = read_sqes(fds, n as nat, bufs, stride);
            proof {
                lemma_read_sqes_grow(fds, (i + 1) as nat, n as nat, bufs, stride);
            }
            if fd >= 0 {
                proof {
                    assert(i * stride <= n * stride) by (nonlinear_arith)
                        requires
                            i <= n,
                            stride >= 0,
                    ;
                    assert(0 <= i * stride) by (nonlinear_arith)
                        requires
                            stride >= 0,
                    ;
                }
                let at: u64 = bufs + i as u64 * self.stride as u64;
                if ring.prep_read(fd, at, self.stride as u32, 0, i as u64, true).is_err() {
                    assert(all.take(queued as int) =~= done);
                    return Err(());
                }
                assert(ring@.queue =~= v.queue + done.push(next[queued as int]));
                if ring.prep_close(fd, CLOSE_TAG).is_err() {
                    assert(all.take(queued + 1) =~= done.push(next[queued as int]));
                    return Err(());
                }
                queued += 2;
            }
            assert(ring@.queue =~= v.queue + next);
            i += 1;
        }
        Ok(queued)
    }

    /// Take in a completion of the reads: how many bytes landed in a file's
    /// slot. A close has nothing to say, and a failed read leaves zero.
    pub fn finished(&self, cqe: &io_uring_cqe, lens: &mut [usize])
        ensures
            final(lens)@ == if cqe.user_data != CLOSE_TAG && cqe.res > 0 && cqe.user_data < old(
                lens,
            )@.len() {
                old(lens)@.update(cqe.user_data as int, cqe.res as usize)
            } else {
                old(lens)@
            },
    {
        let n: usize = lens.len();
        if cqe.user_data == CLOSE_TAG {
            return;
        }
        if cqe.res > 0 && cqe.user_data < n as u64 {
            lens[cqe.user_data as usize] = cqe.res as usize;
        }
    }
}

proof fn lemma_read_sqes_grow(fds: Seq<RawFd>, a: nat, b: nat, bufs: u64, stride: int)
    requires
        a <= b,
    ensures
        read_sqes(fds, a, bufs, stride).len() <= read_sqes(fds, b, bufs, stride).len(),
        read_sqes(fds, b, bufs, stride).take(read_sqes(fds, a, bufs, stride).len() as int)
            == read_sqes(fds, a, bufs, stride),
    decreases b - a,
{
    let x = read_sqes(fds, a, bufs, stride);
    let y = read_sqes(fds, b, bufs, stride);
    if a == b {
        assert(y.take(x.len() as int) =~= x);
    } else {
        lemma_read_sqes_grow(fds, a, (b - 1) as nat, bufs, stride);
        let w = read_sqes(fds, (b - 1) as nat, bufs, stride);
        assert(y.take(x.len() as int) =~= w.take(x.len() as int));
    }
}

} // verus!
