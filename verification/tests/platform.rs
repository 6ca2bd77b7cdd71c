use std::cell::Cell;
use std::rc::Rc;

use bnklaunch::platform::arena::{ArrayString, ArrayVec};
use bnklaunch::platform::bytes::{find_byte, Cursor};
use bnklaunch::platform::conn::{
    socket_address, socket_path, Connection, SendStep, MAX_RECV_FDS, OUT_CAP, RECV_CAP,
};
use bnklaunch::platform::error::{Error, EAGAIN};
use bnklaunch::platform::freetype::{
    copy_coverage, Bitmap, Glyph, Slot, FT_PIXEL_MODE_GRAY, GLYPH_MAX,
};
use bnklaunch::platform::fs::{
    cpath, dir_entries, is_dir, join, kind_of, mkdir_failed, mkdir_p, mtime_nanos, opened,
    read_file, rename, write_all, Kind, ReadStep, WriteStep,
};
use bnklaunch::platform::protocol::{
    CALLBACK_EV_DONE, DISPLAY_EV_DELETE_ID, DISPLAY_EV_ERROR, DISPLAY_SYNC, KEYBOARD_EV_KEYMAP,
    SURFACE_ATTACH, SURFACE_COMMIT, SURFACE_DAMAGE,
};
use bnklaunch::platform::syscall::{
    cmsg_align, cmsg_len, cmsg_space, control_fds, kernel_timespec, mmap_errno, mmap_failed,
    nonblocking_flags, rights_control, stat, stat_timespec, CPath, CMSG_HEADER, S_IFDIR,
};
use bnklaunch::platform::time::Instant;
use bnklaunch::platform::wire::{encode, parse_header, Arg};
use bnklaunch::platform::xkb::{key_char, load_keymap, xkb_keycode, XKB_KEYMAP_FORMAT_TEXT_V1};

#[test]
fn array_vec_push_pop_and_capacity() {
    let mut v: ArrayVec<u32, 3> = ArrayVec::new();
    assert!(v.is_empty());
    assert_eq!(v.push(1), Ok(()));
    assert_eq!(v.push(2), Ok(()));
    assert_eq!(v.push(3), Ok(()));
    assert!(v.is_full());
    assert_eq!(v.push(4), Err(4));
    assert_eq!(v.as_slice(), &[1, 2, 3]);
    assert_eq!(v.pop(), Some(3));
    assert_eq!(v.len(), 2);
}

#[test]
fn array_vec_extend_reports_overflow() {
    let mut v: ArrayVec<u8, 4> = ArrayVec::new();
    assert_eq!(v.extend_from_slice(&[1, 2]), Ok(()));
    assert_eq!(v.extend_from_slice(&[3, 4, 5]), Err(2));
    assert_eq!(v.as_slice(), &[1, 2, 3, 4]);
}

#[test]
fn array_vec_insert_shifts_right() {
    let mut v: ArrayVec<u8, 4> = ArrayVec::new();
    let _ = v.extend_from_slice(&[1, 2, 3]);
    assert_eq!(v.insert(1, 9), Ok(()));
    assert_eq!(v.as_slice(), &[1, 9, 2, 3]);
    // Full now: a further insert hands the value back.
    assert_eq!(v.insert(0, 7), Err(7));
}

#[test]
fn array_vec_remove_shifts_left() {
    let mut v: ArrayVec<u8, 4> = ArrayVec::new();
    let _ = v.extend_from_slice(&[1, 2, 3]);
    assert_eq!(v.remove(1), Some(2));
    assert_eq!(v.as_slice(), &[1, 3]);
    assert_eq!(v.remove(5), None);
}

#[test]
fn array_vec_retain_keeps_order_and_drops_rest() {
    let mut v: ArrayVec<u8, 6> = ArrayVec::new();
    let _ = v.extend_from_slice(&[1, 2, 3, 4, 5]);
    v.retain(|&x| x % 2 == 1);
    assert_eq!(v.as_slice(), &[1, 3, 5]);
}

#[test]
fn array_vec_retain_drops_removed_elements() {
    let tag = Rc::new(());
    let mut v: ArrayVec<Rc<()>, 4> = ArrayVec::new();
    let _ = v.push(tag.clone());
    let _ = v.push(tag.clone());
    let _ = v.push(tag.clone());
    assert_eq!(Rc::strong_count(&tag), 4);
    let seen = Cell::new(0);
    v.retain(|_| {
        seen.set(seen.get() + 1);
        seen.get() == 2 // keep only the middle one
    });
    assert_eq!(v.len(), 1);
    assert_eq!(Rc::strong_count(&tag), 2);
}

#[test]
fn array_vec_drops_live_elements() {
    let counter = Rc::new(());
    let mut v: ArrayVec<Rc<()>, 4> = ArrayVec::new();
    let _ = v.push(counter.clone());
    let _ = v.push(counter.clone());
    assert_eq!(Rc::strong_count(&counter), 3);
    v.truncate(1);
    assert_eq!(Rc::strong_count(&counter), 2);
    drop(v);
    assert_eq!(Rc::strong_count(&counter), 1);
}

#[test]
fn array_string_push_and_overflow() {
    let mut s: ArrayString<8> = ArrayString::new();
    assert_eq!(s.push_str("abc"), Ok(()));
    assert_eq!(s.push('d'), Ok(()));
    assert_eq!(s.as_str(), "abcd");
    // Does not fit: nothing is written.
    assert_eq!(s.push_str("xxxxx"), Err(()));
    assert_eq!(s.as_str(), "abcd");
}

#[test]
fn array_string_insert_and_remove() {
    let mut s: ArrayString<16> = ArrayString::new();
    let _ = s.push_str("ac");
    assert_eq!(s.insert(1, 'b'), Ok(()));
    assert_eq!(s.as_str(), "abc");
    assert_eq!(s.insert_str(3, "de"), Ok(()));
    assert_eq!(s.as_str(), "abcde");
    assert_eq!(s.remove(0), Some('a'));
    assert_eq!(s.as_str(), "bcde");
    assert_eq!(s.delete_range(1, 3), Ok(()));
    assert_eq!(s.as_str(), "be");
}

#[test]
fn array_string_delete_range_rejects_split_char() {
    let mut s: ArrayString<16> = ArrayString::new();
    let _ = s.push_str("aéb");
    // 'é' occupies bytes 1..3, so 2 is inside it. Both bounds are checked.
    assert_eq!(s.delete_range(1, 2), Err(()));
    assert_eq!(s.delete_range(2, 3), Err(()));
    assert_eq!(s.as_str(), "aéb");
    assert_eq!(s.delete_range(1, 3), Ok(()));
    assert_eq!(s.as_str(), "ab");
}

#[test]
fn array_string_delete_range_rejects_bad_bounds() {
    let mut s: ArrayString<16> = ArrayString::new();
    let _ = s.push_str("abc");
    assert_eq!(s.delete_range(2, 1), Err(()));
    assert_eq!(s.delete_range(0, 4), Err(()));
    assert_eq!(s.as_str(), "abc");
}

#[test]
fn array_string_insert_multibyte() {
    let mut s: ArrayString<16> = ArrayString::new();
    let _ = s.push_str("ab");
    assert_eq!(s.insert(1, 'é'), Ok(()));
    assert_eq!(s.as_str(), "aéb");
    // Removing at the multibyte boundary returns the whole char.
    assert_eq!(s.remove(1), Some('é'));
    assert_eq!(s.as_str(), "ab");
}

#[test]
fn array_vec_swap_remove() {
    let mut v: ArrayVec<u8, 4> = ArrayVec::new();
    let _ = v.extend_from_slice(&[1, 2, 3, 4]);
    assert_eq!(v.swap_remove(1), Some(2));
    // Element 1 is now the former last element.
    assert_eq!(v.as_slice(), &[1, 4, 3]);
}

#[test]
fn array_string_write_macro() {
    let mut s: ArrayString<16> = ArrayString::new();
    let _ = s.push_str(&format!("{}-{}", 1, 2));
    assert_eq!(s.as_str(), "1-2");
}

#[test]
fn find_byte_matches_position() {
    assert_eq!(find_byte(b"abc\ndef", b'\n'), Some(3));
    assert_eq!(find_byte(b"\nfirst", b'\n'), Some(0));
    assert_eq!(find_byte(b"no newline", b'\n'), None);
    assert_eq!(find_byte(b"", b'\n'), None);
    // Match past a vector-width boundary is still found at the right index.
    let mut buf = vec![b'x'; 5000];
    buf[4097] = b'\n';
    assert_eq!(find_byte(&buf, b'\n'), Some(4097));
}

#[test]
fn cursor_takes_in_bounds_and_tracks_position() {
    let mut c = Cursor::new(&[1, 2, 3, 4, 5]);
    assert_eq!(c.pos(), 0);
    assert_eq!(c.take(2), Some(&[1, 2][..]));
    assert_eq!(c.pos(), 2);
    assert_eq!(c.take(3), Some(&[3, 4, 5][..]));
    assert_eq!(c.pos(), 5);
    // Zero-length reads are always fine and stay put.
    assert_eq!(c.take(0), Some(&[][..]));
    assert_eq!(c.pos(), 5);
}

#[test]
fn cursor_rejects_overrun_without_advancing() {
    let mut c = Cursor::new(&[1, 2, 3]);
    assert_eq!(c.take(2), Some(&[1, 2][..]));
    // One byte left, asking for two leaves the cursor unmoved.
    assert_eq!(c.take(2), None);
    assert_eq!(c.pos(), 2);
    // A length that would overflow the offset is rejected too.
    assert_eq!(c.take(usize::MAX), None);
    assert_eq!(c.pos(), 2);
}

/// Everything the connection hands out to be written, accepted whole.
fn drain(conn: &mut Connection) -> Vec<(Vec<u8>, Vec<i32>)> {
    let mut out = Vec::new();
    loop {
        let (bytes, fds) = match conn.next_send() {
            Some((b, f)) => (b.to_vec(), f.to_vec()),
            None => return out,
        };
        assert_eq!(conn.sent(bytes.len() as isize), SendStep::Send);
        out.push((bytes, fds));
    }
}

#[test]
fn requests_are_buffered_until_flush() {
    let mut conn = Connection::new(5);
    conn.request(1, DISPLAY_SYNC, &[Arg::NewId(2)])
        .expect("queue");
    assert!(
        drain(&mut conn).is_empty(),
        "nothing goes out before a flush"
    );

    conn.flush();
    let sent = drain(&mut conn);
    assert_eq!(sent.len(), 1);
    let (object, opcode, size) = parse_header(&sent[0].0).expect("header");
    assert_eq!((object, opcode, size), (1, DISPLAY_SYNC, 12));
}

#[test]
fn a_flush_coalesces_every_queued_request_into_one_write() {
    let mut conn = Connection::new(5);
    // The frame path: attach, damage, commit. One hand-off, in order.
    for op in [SURFACE_ATTACH, SURFACE_DAMAGE, SURFACE_COMMIT] {
        conn.request(7, op, &[]).expect("queue");
    }
    conn.flush();

    let sent = drain(&mut conn);
    assert_eq!(sent.len(), 1);
    let mut off = 0;
    for want in [SURFACE_ATTACH, SURFACE_DAMAGE, SURFACE_COMMIT] {
        let (object, opcode, size) = parse_header(&sent[0].0[off..]).expect("header");
        assert_eq!(object, 7);
        assert_eq!(opcode, want);
        off += size;
    }
    assert_eq!(off, sent[0].0.len(), "no trailing bytes");
}

fn encoded(object: u32, opcode: u16, args: &[Arg<'_>]) -> Vec<u8> {
    let mut buf: ArrayVec<u8, 256> = ArrayVec::new();
    encode(&mut buf, object, opcode, args).expect("encode");
    buf.as_slice().to_vec()
}

#[test]
fn messages_are_framed_out_of_a_partial_stream() {
    let mut conn = Connection::new(5);

    // The peer writes one and a half messages: a whole sync callback done, then
    // only the header of the next.
    let whole = encoded(3, CALLBACK_EV_DONE, &[Arg::Uint(9)]);
    let partial = encoded(4, DISPLAY_EV_DELETE_ID, &[Arg::Uint(5)]);

    let mut stream = Vec::new();
    stream.extend_from_slice(&whole);
    stream.extend_from_slice(&partial[..4]); // half a header

    conn.fill(Ok(&stream), &[], false).expect("fill");
    let msg = conn.next_message().expect("parse").expect("one message");
    assert_eq!(msg.object, 3);
    assert_eq!(msg.opcode, CALLBACK_EV_DONE);
    assert_eq!(msg.reader().u32().expect("arg"), 9);

    // The half message is not a message yet.
    assert!(conn.next_message().expect("parse").is_none());

    // The rest arrives and completes it.
    conn.fill(Ok(&partial[4..]), &[], false).expect("fill");
    let msg = conn.next_message().expect("parse").expect("second message");
    assert_eq!(msg.object, 4);
    assert_eq!(msg.opcode, DISPLAY_EV_DELETE_ID);
}

#[test]
fn the_consumed_prefix_is_compacted_once_per_fill() {
    let mut conn = Connection::new(5);
    let mut stream = Vec::new();
    for i in 0..4u32 {
        stream.extend_from_slice(&encoded(i + 1, 0, &[Arg::Uint(i)]));
    }

    conn.fill(Ok(&stream), &[], false).expect("fill");
    for i in 0..4u32 {
        let msg = conn.next_message().expect("parse").expect("message");
        assert_eq!(msg.object, i + 1);
    }
    assert!(conn.next_message().expect("parse").is_none());
    // Four messages read, one cursor: the buffer was never shifted.
    assert_eq!(conn.in_pos, stream.len());
    assert_eq!(conn.in_buf.len(), stream.len());

    // The next fill drops all four in a single shift.
    conn.fill(Ok(&stream[..12]), &[], false).expect("fill");
    assert_eq!(conn.in_pos, 0);
    assert_eq!(conn.in_buf.len(), 12);
    let _ = conn.next_message().expect("parse").expect("message");

    // What was read makes room for a full buffer again.
    let more = vec![0u8; RECV_CAP];
    assert_eq!(conn.fill(Ok(&more), &[], false), Ok(RECV_CAP));
}

#[test]
fn a_passed_fd_arrives_on_the_queue() {
    let mut conn = Connection::new(5);
    let msg = encoded(6, KEYBOARD_EV_KEYMAP, &[Arg::Uint(1)]);
    // The peer passes an fd the way the compositor passes a keymap.
    let control = rights_control(&[42]).expect("control");

    assert!(conn.take_fd().is_none(), "queue starts empty");
    conn.fill(Ok(&msg), &control_fds(&control), false).expect("fill");
    let received = conn.take_fd().expect("the fd came through");
    assert!(conn.take_fd().is_none(), "exactly one fd was passed");
    assert_eq!(received.as_raw_fd(), 42);
}

#[test]
fn a_flush_finishes_a_write_the_socket_could_not_take_at_once() {
    // On a non-blocking socket a write can take some bytes and then say EAGAIN.
    // Reporting that as an error would strand the tail of a half-sent request,
    // and the next request would be appended straight onto the fragment, which
    // the compositor reads as a corrupt stream. So the writer has to wait for the
    // socket and finish what it started.
    let mut conn = Connection::new(5);
    conn.request(7, SURFACE_COMMIT, &[]).expect("queue");
    conn.flush();
    let mut seen = Vec::new();
    for accepted in [3isize, -(EAGAIN as isize), 0, -4, 5] {
        let (bytes, _) = conn.next_send().expect("something to write");
        if accepted > 0 {
            seen.extend_from_slice(&bytes[..accepted as usize]);
        }
        let step = conn.sent(accepted);
        if accepted == -(EAGAIN as isize) {
            assert_eq!(step, SendStep::Wait);
        } else {
            assert_eq!(step, SendStep::Send);
        }
    }
    assert!(conn.next_send().is_none(), "every byte went out");
    let (object, opcode, size) = parse_header(&seen).expect("header");
    assert_eq!((object, opcode, size), (7, SURFACE_COMMIT, 8));
    assert_eq!(size, seen.len());
}

#[test]
fn a_request_with_a_descriptor_goes_out_behind_what_was_queued() {
    let mut conn = Connection::new(5);
    conn.request(1, DISPLAY_SYNC, &[]).expect("queue");
    conn.request_with_fd(2, 0, &[Arg::Uint(1)], &[9])
        .expect("queue");
    let sent = drain(&mut conn);
    assert_eq!(sent.len(), 2);
    assert!(sent[0].1.is_empty());
    assert_eq!(sent[1].1, [9]);
    assert_eq!(parse_header(&sent[1].0), Ok((2, 0, 12)));
}

#[test]
fn a_dead_connection_drops_what_was_left() {
    let mut conn = Connection::new(5);
    conn.request(1, DISPLAY_SYNC, &[]).expect("queue");
    conn.flush();
    assert_eq!(
        conn.sent(-32),
        SendStep::Failed(Error {
            errno: 32,
            msg: ""
        })
    );
    assert!(conn.next_send().is_none());
    // The compositor's own reason is still in the stream.
    let bad = encoded(
        1,
        DISPLAY_EV_ERROR,
        &[Arg::Object(7), Arg::Uint(3), Arg::Str("bad size")],
    );
    let broken = Error::from_errno(32);
    let (why, none) = conn.diagnose_send_error(broken);
    assert_eq!(why, broken);
    assert!(none.is_none());
    assert!(conn.drain(&bad[..10]));
    assert!(conn.diagnose_send_error(broken).1.is_none());
    assert!(conn.drain(&bad[10..]));
    let (why, e) = conn.diagnose_send_error(broken);
    assert_eq!(why.msg, "the compositor reported a protocol error");
    let e = e.expect("a reason");
    assert_eq!((e.object, e.code, e.text), (7, 3, "bad size"));
    assert!(!conn.drain(&vec![0; RECV_CAP]));
}

#[test]
fn every_receive_error_is_told_apart() {
    let mut conn = Connection::new(5);
    assert_eq!(conn.fill(Err(EAGAIN), &[], false).err().unwrap().errno, EAGAIN);
    assert!(conn.fill(Err(EAGAIN), &[], false).err().unwrap().would_block());
    assert_eq!(
        conn.fill(Ok(&[]), &[], false).err().unwrap().msg,
        "the compositor closed the connection"
    );
    assert_eq!(
        conn.fill(Ok(&[0]), &[1], true).err().unwrap().msg,
        "received message truncated its passed file descriptors"
    );
    assert!(conn.take_fd().is_none());
    let fds = vec![1; MAX_RECV_FDS + 1];
    assert_eq!(
        conn.fill(Ok(&[0]), &fds, false).err().unwrap().msg,
        "received more file descriptors than the queue holds"
    );
    let mut conn = Connection::new(5);
    assert_eq!(
        conn.fill(Ok(&vec![0; RECV_CAP + 1]), &[], false).err().unwrap().msg,
        "wayland receive buffer overflow"
    );
    let mut conn = Connection::new(5);
    conn.fill(Ok(&[1, 0, 0, 0, 0, 0, 4, 0]), &[], false).expect("fill");
    assert_eq!(
        conn.next_message().err().unwrap().msg,
        "message size smaller than header"
    );
}

#[test]
fn a_full_queue_refuses_a_request() {
    let mut conn = Connection::new(5);
    for _ in 0..OUT_CAP / 8 {
        conn.request(1, 0, &[]).expect("fits");
    }
    assert_eq!(
        conn.request(1, 0, &[]).err().unwrap().msg,
        "wayland send buffer full"
    );
}

#[test]
fn the_socket_is_under_the_runtime_directory() {
    let path = |d, n| socket_path(d, n).map(|p| p.as_str().to_string());
    assert_eq!(path(Some("/run"), None), Ok("/run/wayland-0".to_string()));
    assert_eq!(
        path(Some("/run"), Some("wl-1")),
        Ok("/run/wl-1".to_string())
    );
    assert_eq!(path(Some("/run"), Some("/x/y")), Ok("/x/y".to_string()));
    assert_eq!(
        path(None, None).err().unwrap().msg,
        "XDG_RUNTIME_DIR is not set"
    );
    assert_eq!(
        path(Some(&"d".repeat(2000)), None).err().unwrap().msg,
        "wayland socket path too long"
    );
    let (field, len) = Connection::connect(Some("/run"), None).expect("address");
    assert_eq!((field.len(), len), (108, 17));
    assert_eq!(&field[..15], b"/run/wayland-0\0");
    assert_eq!(
        socket_address(&"p".repeat(108)).err().unwrap().msg,
        "socket path too long"
    );
    assert!(socket_address(&"p".repeat(107)).is_ok());
}

#[test]
fn non_blocking_is_one_flag() {
    let conn = Connection::new(5);
    assert_eq!(conn.fd(), 5);
    assert_eq!(conn.set_nonblocking(2, true), Ok(0x802));
    assert_eq!(conn.set_nonblocking(0x802, false), Ok(2));
    assert_eq!(conn.set_nonblocking(-9, true).err().unwrap().errno, 9);
    assert_eq!(nonblocking_flags(0x802, true), 0x802);
}

fn clock(base: &std::time::Instant) -> kernel_timespec {
    let e = base.elapsed();
    kernel_timespec {
        tv_sec: e.as_secs() as i64,
        tv_nsec: e.subsec_nanos() as i64,
    }
}

#[test]
fn elapsed_advances_monotonically() {
    let base = std::time::Instant::now();
    let start = Instant::now(clock(&base));
    // Busy-spin briefly; the monotonic clock must not go backwards.
    let mut spins = 0u64;
    while start.elapsed_ms(Instant::now(clock(&base))) == 0 && spins < 50_000_000 {
        spins += 1;
        core::hint::spin_loop();
    }
    assert!(
        start.elapsed_ms(Instant::now(clock(&base))) < 60_000,
        "elapsed should be a small value"
    );
    assert!(Instant::now(clock(&base)) >= start);
}

#[test]
fn milliseconds_between_readings_are_whole_and_never_negative() {
    let at = |s: i64, n: i64| {
        Instant::now(kernel_timespec {
            tv_sec: s,
            tv_nsec: n,
        })
    };
    assert_eq!(at(3, 5_999_999).ms_since(at(2, 0)), 1005);
    assert_eq!(at(2, 0).ms_since(at(3, 0)), 0);
    assert_eq!(at(2, 0).elapsed_ms(at(3, 0)), 1000);
}

#[test]
fn test_cmsg_space() {
    // CMSG_SPACE for one fd should be header + aligned fd size
    let space = cmsg_space(core::mem::size_of::<i32>());
    assert!(space >= CMSG_HEADER + core::mem::size_of::<i32>());
    assert_eq!(space, 24);
}

#[test]
fn test_cmsg_len() {
    let len = cmsg_len(core::mem::size_of::<i32>());
    assert!(len >= CMSG_HEADER + core::mem::size_of::<i32>());
    assert_eq!(len, 20);
    assert_eq!((cmsg_align(8), cmsg_align(9)), (8, 16));
}

#[test]
fn test_mmap_failed_detects_errno_range() {
    // The raw syscall reports failure as -errno in [-4095, -1].
    for errno in [1i32, 12, 22, 4095] {
        let ptr = -(errno as isize);
        assert!(mmap_failed(ptr), "errno {errno} should be a failure");
        assert_eq!(mmap_errno(ptr), errno);
    }
}

#[test]
fn test_mmap_failed_accepts_valid_pointers() {
    // A plausible page-aligned user-space address is a success, not -errno.
    assert!(!mmap_failed(0x1000));
    // -4096 is just outside the errno window and must not be misread.
    assert!(!mmap_failed(-4096));
}

#[test]
fn descriptors_survive_their_control_message() {
    let fds = [3, 70_000, 5];
    let control = rights_control(&fds).expect("control");
    assert_eq!(control.len(), cmsg_space(12));
    assert_eq!(control_fds(&control), fds);
    assert!(rights_control(&vec![1; 100]).is_none());
    assert!(control_fds(&control[..10]).is_empty());
}

#[test]
fn copy_coverage_packs_rows_dropping_pitch_padding() {
    // 2x2 glyph stored with a positive pitch of 3: a padding byte trails each row
    // and must not survive the copy.
    let buf = [1u8, 2, 9, 3, 4, 9];
    let bitmap = Bitmap {
        buffer: &buf,
        start: 0,
        rows: 2,
        width: 2,
        pitch: 3,
    };
    assert_eq!(copy_coverage(&bitmap).as_slice(), &[1u8, 2, 3, 4]);
}

#[test]
fn copy_coverage_follows_negative_pitch_upward() {
    // Negative pitch: the first row is the last in the buffer and earlier rows
    // lie at lower addresses. Memory is [row1, row0]; the start is at row0.
    let buf = [3u8, 4, 1, 2];
    let bitmap = Bitmap {
        buffer: &buf,
        start: 2,
        rows: 2,
        width: 2,
        pitch: -2,
    };
    assert_eq!(copy_coverage(&bitmap).as_slice(), &[1u8, 2, 3, 4]);
}

#[test]
fn a_glyph_keeps_its_ink_only_in_gray() {
    let buf = [7u8, 8];
    let slot = |mode: u8| Slot {
        left: 1,
        top: 2,
        advance: 640,
        pixel_mode: mode,
        bitmap: Bitmap {
            buffer: &buf,
            start: 0,
            rows: 1,
            width: 2,
            pitch: 2,
        },
    };
    let g = Glyph::rasterize(Some(&slot(FT_PIXEL_MODE_GRAY)));
    assert_eq!((g.left, g.top, g.width, g.rows), (1, 2, 2, 1));
    assert_eq!((g.advance, g.coverage.as_slice()), (640, &buf[..]));
    let g = Glyph::rasterize(Some(&slot(1)));
    assert_eq!((g.width, g.rows, g.advance), (0, 0, 640));
    assert!(g.coverage.is_empty());
    assert_eq!(Glyph::rasterize(None).advance, 0);

    let big = vec![1u8; GLYPH_MAX + 1];
    let huge = Bitmap {
        buffer: &big,
        start: 0,
        rows: 1,
        width: GLYPH_MAX + 1,
        pitch: 0,
    };
    assert!(copy_coverage(&huge).is_empty());
}

const KEYMAP: &str = "xkb_keymap { };";

#[test]
fn the_trailing_nuls_the_compositor_sends_are_not_part_of_the_keymap() {
    // The keymap arrives NUL-terminated and padded out. Those bytes have to be
    // trimmed off rather than compiled.
    let mut bytes = KEYMAP.as_bytes().to_vec();
    bytes.extend_from_slice(&[0u8; 5]);
    assert_eq!(
        load_keymap(&bytes, XKB_KEYMAP_FORMAT_TEXT_V1),
        Ok(KEYMAP.as_bytes())
    );
}

#[test]
fn an_empty_keymap_is_an_error() {
    for empty in [&[][..], &[0u8, 0][..]] {
        assert_eq!(
            load_keymap(empty, XKB_KEYMAP_FORMAT_TEXT_V1).err().unwrap().msg,
            "compositor sent an empty keymap"
        );
    }
}

#[test]
fn an_unknown_keymap_format_is_refused_before_any_parsing() {
    assert_eq!(
        load_keymap(KEYMAP.as_bytes(), 99).err().unwrap().msg,
        "compositor sent an unsupported keymap format"
    );
}

#[test]
fn a_keycode_near_the_top_of_the_range_does_not_wrap_the_evdev_offset() {
    assert_eq!(xkb_keycode(u32::MAX), u32::MAX);
    assert_eq!(xkb_keycode(30), 38);
}

#[test]
fn a_key_types_one_printable_character() {
    assert_eq!(key_char(b"a\0", 1), Some('a'));
    assert_eq!(key_char("é\0".as_bytes(), 2), Some('é'));
    assert_eq!(key_char(b"ab\0", 2), None);
    assert_eq!(key_char(b"\x1b\0", 1), None);
    assert_eq!(key_char(b"\x7f\0", 1), None);
    assert_eq!(key_char(b"a", 0), None);
    assert_eq!(key_char(b"a", -1), None);
    // A length past the buffer is cut to it.
    assert_eq!(key_char(b"a", 99), Some('a'));
    assert_eq!(key_char(&[0xFF], 1), None);
}

#[test]
fn a_path_fits_with_its_terminator_and_holds_no_nul() {
    let p = cpath("/a").expect("path");
    assert_eq!(&p.as_bytes()[..3], b"/a\0");
    assert_eq!(cpath("a\0b").err().unwrap().msg, "invalid path");
    assert!(CPath::new(&"x".repeat(1023)).is_some());
    assert!(CPath::new(&"x".repeat(1024)).is_none());
    assert!(rename("/a", "/b").is_ok());
    assert_eq!(rename("/a", "\0").err().unwrap().msg, "invalid path");
    assert_eq!(join("/a", "b").expect("path").as_str(), "/a/b");
    assert!(join(&"x".repeat(1023), "b").is_none());
}

#[test]
fn reads_and_writes_go_on_until_they_are_done() {
    let mut out: ArrayVec<u8, 4> = ArrayVec::new();
    assert_eq!(read_file(&mut out, 3, b"abcz"), ReadStep::More);
    assert_eq!(read_file(&mut out, -4, b""), ReadStep::More);
    assert_eq!(read_file(&mut out, 0, b""), ReadStep::Done);
    assert_eq!(out.as_slice(), b"abc");
    assert_eq!(
        read_file(&mut out, 2, b"de"),
        ReadStep::Failed(Error {
            errno: 0,
            msg: "file too large for buffer"
        })
    );
    // The part that fit stays.
    assert_eq!(out.as_slice(), b"abcd");
    assert_eq!(
        read_file(&mut out, -5, b""),
        ReadStep::Failed(Error { errno: 5, msg: "" })
    );

    assert_eq!(write_all(10, 0, 4), WriteStep::From(4));
    assert_eq!(write_all(10, 4, -4), WriteStep::From(4));
    assert_eq!(write_all(10, 4, 6), WriteStep::Done);
    assert_eq!(
        write_all(10, 4, -28),
        WriteStep::Failed(Error { errno: 28, msg: "" })
    );
    assert_eq!(opened(7).expect("open").as_raw_fd(), 7);
    assert_eq!(opened(-2).err().unwrap().errno, 2);
}

#[test]
fn missing_parents_are_made_in_order() {
    let made = |p: &str| {
        let (dirs, r) = mkdir_p(p);
        let dirs: Vec<String> = dirs.iter().map(|d| d.as_str().to_string()).collect();
        (dirs, r.is_ok())
    };
    assert_eq!(
        made("/a//b/c"),
        (
            vec!["/a".to_string(), "/a/b".to_string(), "/a/b/c".to_string()],
            true
        )
    );
    assert_eq!(made("a/b").0, ["a", "a/b"]);
    let (_, r) = mkdir_p(&format!("/{}", "x".repeat(1024)));
    assert_eq!(r.err().unwrap().msg, "path too long");
    assert!(mkdir_failed(0).is_none());
    assert!(mkdir_failed(-17).is_none());
    assert_eq!(mkdir_failed(-13).unwrap().errno, 13);
}

fn stat_of(mode: u32, secs: i64, nanos: i64) -> stat {
    stat {
        st_mode: mode,
        st_size: 0,
        st_mtime: stat_timespec {
            tv_sec: secs,
            tv_nsec: nanos,
        },
    }
}

#[test]
fn a_stat_says_what_kind_and_how_old() {
    assert!(is_dir(Some(stat_of(S_IFDIR | 0o755, 0, 0))));
    assert!(!is_dir(Some(stat_of(0x8000 | 0o644, 0, 0))));
    assert!(!is_dir(None));
    assert_eq!(mtime_nanos(Some(stat_of(0, 3, 7))), Some(3_000_000_007));
    assert_eq!(mtime_nanos(None), None);
    assert_eq!(mtime_nanos(Some(stat_of(0, -1, 0))), None);
}

fn record(name: &str, d_type: u8) -> Vec<u8> {
    let len = (19 + name.len() + 1 + 7) / 8 * 8;
    let mut r = vec![0u8; 16];
    r.extend_from_slice(&(len as u16).to_le_bytes());
    r.push(d_type);
    r.extend_from_slice(name.as_bytes());
    r.resize(len, 0);
    r
}

#[test]
fn read_dir_lists_entries_and_skips_dot() {
    let mut buf = Vec::new();
    for (name, kind) in [(".", 4), ("..", 4), ("a.desktop", 8), ("sub", 4), ("l", 10), ("?", 0)] {
        buf.extend_from_slice(&record(name, kind));
    }
    let found: Vec<_> = dir_entries(&buf)
        .iter()
        .map(|e| (e.name.to_string(), e.kind))
        .collect();
    assert_eq!(
        found,
        [
            ("a.desktop".to_string(), Kind::File),
            ("sub".to_string(), Kind::Directory),
            ("l".to_string(), Kind::File),
            ("?".to_string(), Kind::Unknown),
        ]
    );
    // A record that runs past the buffer ends the list.
    assert_eq!(dir_entries(&buf[..buf.len() - 1]).len(), 3);
    assert_eq!(kind_of(8), Kind::File);
}

fn said(e: Error) -> String {
    e.text().into_iter().collect()
}

#[test]
fn an_error_says_its_errno_or_its_message() {
    assert_eq!(said(Error::from_errno(2)), "os error 2");
    assert_eq!(said(Error::from_errno(110)), "os error 110");
    assert_eq!(said(Error::from_errno(-22)), "os error -22");
    assert_eq!(said(Error::from_errno(i32::MIN)), "os error -2147483648");
    assert_eq!(said(Error::msg("no surface")), "no surface");
    assert_eq!(said(Error::from_errno(0)), "");
}
