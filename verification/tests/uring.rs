use bnklaunch::platform::syscall::{io_uring_cqe, io_uring_params};
use bnklaunch::platform::uring::{
    mappings, read_files, Ring, AT_FDCWD, CLOSE_TAG, IORING_ENTER_GETEVENTS,
    IORING_FEAT_SINGLE_MMAP, IORING_OP_CLOSE, IORING_OP_NOP, IORING_OP_OPENAT, IORING_OP_POLL_ADD,
    IORING_OP_READ, IORING_OP_TIMEOUT, IOSQE_IO_LINK,
};

/// A ring of a size, whose kernel starts its counters at the given values.
fn ring(entries: u32, sq_tail: u32, cq_head: u32) -> Ring {
    let params = io_uring_params {
        sq_entries: entries,
        cq_entries: 2 * entries,
        ..Default::default()
    };
    Ring::new(5, &params, sq_tail, cq_head).expect("ring")
}

/// Submit everything queued, as a kernel that takes it all does.
fn submit(ring: &mut Ring, wait: u32, head: u32) -> u32 {
    let enter = ring.submit_and_wait(wait);
    let head = head.wrapping_add(enter.to_submit);
    assert_eq!(enter.tail, head);
    assert_eq!(
        ring.entered(enter.to_submit as isize, head),
        Ok(Some(enter.to_submit))
    );
    enter.to_submit
}

#[test]
fn uring_nop_roundtrips_through_the_ring() {
    let mut ring = ring(8, 0, 0);
    assert_eq!(ring.prep_nop(0xabcd), Ok(()));
    let s = ring.submission(0);
    assert_eq!((s.slot, s.sqe.opcode), (0, IORING_OP_NOP));
    assert_eq!(s.sqe.user_data, 0xabcd);
    let submitted = submit(&mut ring, 1, 0);
    assert_eq!(submitted, 1);
    assert_eq!(ring.next_cqe(1), Some(0));
    assert!(ring.next_cqe(1).is_none());
}

#[test]
fn uring_poll_reports_a_readable_pipe() {
    let mut ring = ring(8, 0, 0);
    assert_eq!(ring.prep_poll_add(7, 1, 42), Ok(()));
    let sqe = ring.submission(0).sqe;
    assert_eq!((sqe.opcode, sqe.fd), (IORING_OP_POLL_ADD, 7));
    assert_eq!((sqe.op_flags, sqe.user_data), (1, 42));
}

#[test]
fn uring_openat_read_close_roundtrips_a_file() {
    let mut ring = ring(8, 0, 0);
    ring.prep_openat(AT_FDCWD, 0x1000, 0, 0o644, 1, true)
        .expect("queue openat");
    ring.prep_read(9, 0x2000, 64, 8, 2, false)
        .expect("queue read");
    ring.prep_close(9, 3).expect("queue close");
    let open = ring.submission(0).sqe;
    assert_eq!((open.opcode, open.fd), (IORING_OP_OPENAT, AT_FDCWD));
    assert_eq!((open.addr, open.len), (0x1000, 0o644));
    assert_eq!(open.flags, IOSQE_IO_LINK);
    let read = ring.submission(1).sqe;
    assert_eq!((read.opcode, read.fd, read.flags), (IORING_OP_READ, 9, 0));
    assert_eq!((read.addr, read.len, read.off), (0x2000, 64, 8));
    let close = ring.submission(2).sqe;
    assert_eq!((close.opcode, close.fd), (IORING_OP_CLOSE, 9));
    assert_eq!(close.user_data, 3);
}

#[test]
fn uring_timeout_posts_a_completion() {
    let mut ring = ring(8, 0, 0);
    assert_eq!(ring.prep_timeout(0x3000, 7), Ok(()));
    let sqe = ring.submission(0).sqe;
    assert_eq!((sqe.opcode, sqe.addr), (IORING_OP_TIMEOUT, 0x3000));
    assert_eq!((sqe.len, sqe.user_data), (1, 7));
}

#[test]
fn a_full_queue_takes_no_more_until_the_kernel_reads_it() {
    // The counters run past the top of their range on the way.
    let start = u32::MAX - 1;
    let mut ring = ring(4, start, 0);
    for i in 0..4 {
        assert_eq!(ring.prep_nop(i), Ok(()));
    }
    assert_eq!(ring.prep_nop(9), Err(()));
    let slots: Vec<u32> = (0..4).map(|i| ring.submission(i).slot).collect();
    assert_eq!(slots, [2, 3, 0, 1]);

    // A short submit: three of the four are read.
    let enter = ring.submit_and_wait(0);
    assert_eq!((enter.to_submit, enter.flags, enter.tail), (4, 0, 2));
    assert_eq!(ring.entered(3, 1), Ok(Some(3)));
    assert_eq!(ring.prep_nop(10), Ok(()));
    let enter = ring.submit_and_wait(2);
    assert_eq!((enter.to_submit, enter.min_complete), (2, 2));
    assert_eq!(enter.flags, IORING_ENTER_GETEVENTS);
    assert_eq!(ring.submission(0).sqe.user_data, 3);
    assert_eq!(ring.submission(1).sqe.user_data, 10);

    // Interrupted, then failed.
    assert_eq!(ring.entered(-4, 1), Ok(None));
    assert_eq!(ring.entered(-9, 1), Err(9));
}

#[test]
fn completions_wrap_around_their_ring() {
    let mut ring = ring(2, 0, u32::MAX);
    assert_eq!(ring.next_cqe(1), Some(3));
    assert_eq!(ring.next_cqe(1), Some(0));
    assert_eq!(ring.next_cqe(1), None);
}

#[test]
fn a_ring_that_was_not_set_up_is_its_errno() {
    let params = io_uring_params {
        sq_entries: 1,
        cq_entries: 1,
        ..Default::default()
    };
    assert_eq!(Ring::new(-38, &params, 0, 0).err(), Some(38));
}

#[test]
fn the_mappings_cover_both_rings() {
    let mut p = io_uring_params {
        sq_entries: 8,
        cq_entries: 16,
        ..Default::default()
    };
    p.sq_off.array = 100;
    p.cq_off.cqes = 40;
    let m = mappings(&p);
    assert_eq!((m.sq_len, m.cq_len, m.sqes_len), (132, 296, 512));
    p.features = IORING_FEAT_SINGLE_MMAP;
    let m = mappings(&p);
    assert_eq!((m.sq_len, m.cq_len, m.sqes_len), (296, 0, 512));
}

fn cqe(user_data: u64, res: i32) -> io_uring_cqe {
    io_uring_cqe {
        user_data,
        res,
        flags: 0,
    }
}

/// Every file comes back with its own length, in its own slot, and a path that
/// does not exist reports zero rather than taking the batch down with it.
#[test]
fn read_files_fills_a_slot_per_file() {
    let mut ring = ring(16, 0, 0);
    let mut lens = [9usize; 4];
    let paths = [0x10u64, 0x20, 0x30, 0x40];
    let mut batch = match read_files(&mut ring, &paths, 256, 64, &mut lens) {
        Ok(b) => b,
        Err(()) => panic!("the batch fits"),
    };
    assert_eq!(lens, [0; 4]);
    assert_eq!(batch.count, 4);
    for (i, path) in paths.iter().enumerate() {
        let sqe = ring.submission(i as u32).sqe;
        assert_eq!((sqe.opcode, sqe.addr), (IORING_OP_OPENAT, *path));
        assert_eq!(sqe.user_data, i as u64);
    }
    submit(&mut ring, 4, 0);

    // The opens report back in any order; the last path is not there.
    for (i, fd) in [(2, 12), (0, 10), (3, -2), (1, 11), (77, 5)] {
        batch.opened(&cqe(i, fd));
    }
    let queued = batch.queue_reads(&mut ring, 0x9000).expect("fits");
    assert_eq!(queued, 6);
    for i in 0..3u32 {
        let read = ring.submission(2 * i).sqe;
        assert_eq!((read.opcode, read.flags), (IORING_OP_READ, IOSQE_IO_LINK));
        assert_eq!((read.fd, read.len), (10 + i as i32, 64));
        assert_eq!(read.addr, 0x9000 + 64 * i as u64);
        let close = ring.submission(2 * i + 1).sqe;
        assert_eq!((close.opcode, close.fd), (IORING_OP_CLOSE, 10 + i as i32));
        assert_eq!(close.user_data, CLOSE_TAG);
    }
    for c in [cqe(1, 25), cqe(CLOSE_TAG, 1), cqe(0, 10), cqe(2, -5), cqe(99, 3)] {
        batch.finished(&c, &mut lens);
    }
    assert_eq!(lens, [10, 25, 0, 0]);
}

#[test]
fn a_batch_that_does_not_fit_is_refused() {
    let mut ring = ring(2, 0, 0);
    let mut lens = [9usize; 4];
    // Too few lengths, too small a buffer, too small a ring.
    assert!(read_files(&mut ring, &[1; 5], 1000, 1, &mut lens).is_err());
    assert!(read_files(&mut ring, &[1; 2], 127, 64, &mut lens).is_err());
    assert_eq!(lens, [9; 4]);
    assert!(read_files(&mut ring, &[1; 3], 192, 64, &mut lens).is_err());
    assert_eq!(ring.submit_and_wait(0).to_submit, 2);
    submit(&mut ring, 0, 0);
    let mut batch = match read_files(&mut ring, &[1, 2], 128, 64, &mut lens) {
        Ok(b) => b,
        Err(()) => panic!("the batch fits"),
    };
    submit(&mut ring, 0, 2);
    batch.opened(&cqe(0, 3));
    batch.opened(&cqe(1, 4));
    assert!(batch.queue_reads(&mut ring, 0).is_err());
}
