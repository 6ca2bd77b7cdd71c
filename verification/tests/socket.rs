use bnklaunch::platform::protocol::{Layer, ShmFormat};
use bnklaunch::platform::wire::{encode, parse_header, Arg};
use bnklaunch::platform::arena::ArrayVec;
use bnklaunch::protocol::{compositor, data_device, display, layer_shell, seat, shm};
use bnklaunch::protocol::layer_shell::KeyboardInteractivity;
use bnklaunch::socket::{WaylandSocket, MSG_PAYLOAD_CAP};

fn encoded(object: u32, opcode: u16, args: &[Arg<'_>]) -> Vec<u8> {
    let mut buf: ArrayVec<u8, 1024> = ArrayVec::new();
    encode(&mut buf, object, opcode, args).expect("encode");
    buf.as_slice().to_vec()
}

/// The next message on its way, accepted whole.
fn next(s: &mut WaylandSocket) -> (Vec<u8>, Vec<i32>) {
    let (bytes, fds) = match s.next_send() {
        Some((b, f)) => (b.to_vec(), f.to_vec()),
        None => panic!("nothing on its way"),
    };
    s.sent(bytes.len() as isize).expect("sent");
    (bytes, fds)
}

#[test]
fn every_request_is_the_message_its_arguments_encode_to() {
    let mut s = WaylandSocket::new(3);
    let s = &mut s;
    let mut check = |s: &mut WaylandSocket, object, opcode, args: &[Arg<'_>], fds: &[i32]| {
        let (bytes, passed) = next(s);
        assert_eq!(bytes, encoded(object, opcode, args));
        assert_eq!(passed, fds);
        assert!(s.next_send().is_none());
    };
    compositor::create_surface(s, 1, 2).unwrap();
    check(s, 1, 0, &[Arg::NewId(2)], &[]);
    compositor::surface_attach(s, 1, 2, -3, 4).unwrap();
    check(s, 1, 1, &[Arg::Object(2), Arg::Int(-3), Arg::Int(4)], &[]);
    compositor::surface_damage(s, 1, 2, 3, 4, 5).unwrap();
    check(
        s,
        1,
        2,
        &[Arg::Int(2), Arg::Int(3), Arg::Int(4), Arg::Int(5)],
        &[],
    );
    compositor::surface_commit(s, 1).unwrap();
    check(s, 1, 6, &[], &[]);

    data_device::create_data_source(s, 1, 2).unwrap();
    check(s, 1, 0, &[Arg::NewId(2)], &[]);
    data_device::get_data_device(s, 1, 2, 3).unwrap();
    check(s, 1, 1, &[Arg::NewId(2), Arg::Object(3)], &[]);
    data_device::source_offer(s, 1, "text/plain").unwrap();
    check(s, 1, 0, &[Arg::Str("text/plain")], &[]);
    data_device::source_destroy(s, 1).unwrap();
    check(s, 1, 1, &[], &[]);
    data_device::set_selection(s, 1, 2, 3).unwrap();
    check(s, 1, 1, &[Arg::Object(2), Arg::Uint(3)], &[]);
    data_device::offer_receive(s, 1, "text/plain", 9).unwrap();
    check(s, 1, 1, &[Arg::Str("text/plain")], &[9]);
    data_device::offer_destroy(s, 1).unwrap();
    check(s, 1, 2, &[], &[]);

    display::get_registry(s, 2).unwrap();
    check(s, 1, 1, &[Arg::NewId(2)], &[]);
    display::sync(s, 2).unwrap();
    check(s, 1, 0, &[Arg::NewId(2)], &[]);
    display::registry_bind(s, 2, 3, "wl_shm", 1, 4).unwrap();
    check(
        s,
        2,
        0,
        &[
            Arg::Uint(3),
            Arg::Bind {
                interface: "wl_shm",
                version: 1,
                new_id: 4,
            },
        ],
        &[],
    );

    seat::get_pointer(s, 1, 2).unwrap();
    check(s, 1, 0, &[Arg::NewId(2)], &[]);
    seat::get_keyboard(s, 1, 2).unwrap();
    check(s, 1, 1, &[Arg::NewId(2)], &[]);

    shm::create_pool(s, 1, 2, 7, 4096).unwrap();
    check(s, 1, 0, &[Arg::NewId(2), Arg::Int(4096)], &[7]);
    shm::pool_create_buffer(s, 1, 2, 0, 8, 9, 32, ShmFormat::Argb8888).unwrap();
    check(
        s,
        1,
        0,
        &[
            Arg::NewId(2),
            Arg::Int(0),
            Arg::Int(8),
            Arg::Int(9),
            Arg::Int(32),
            Arg::Uint(0),
        ],
        &[],
    );
    shm::pool_destroy(s, 1).unwrap();
    check(s, 1, 1, &[], &[]);
    shm::buffer_destroy(s, 1).unwrap();
    check(s, 1, 0, &[], &[]);

    layer_shell::get_layer_surface(s, 1, 2, 3, 0, Layer::Overlay, "ns").unwrap();
    check(
        s,
        1,
        0,
        &[
            Arg::NewId(2),
            Arg::Object(3),
            Arg::Object(0),
            Arg::Uint(3),
            Arg::Str("ns"),
        ],
        &[],
    );
    layer_shell::set_size(s, 1, 800, 54).unwrap();
    check(s, 1, 0, &[Arg::Uint(800), Arg::Uint(54)], &[]);
    layer_shell::set_anchor(s, 1, 1).unwrap();
    check(s, 1, 1, &[Arg::Uint(1)], &[]);
    layer_shell::set_exclusive_zone(s, 1, -1).unwrap();
    check(s, 1, 2, &[Arg::Int(-1)], &[]);
    layer_shell::set_margin(s, 1, 1, 2, 3, 4).unwrap();
    check(
        s,
        1,
        3,
        &[Arg::Int(1), Arg::Int(2), Arg::Int(3), Arg::Int(4)],
        &[],
    );
    for (mode, value) in [
        (KeyboardInteractivity::Off, 0),
        (KeyboardInteractivity::Exclusive, 1),
        (KeyboardInteractivity::OnDemand, 2),
    ] {
        layer_shell::set_keyboard_interactivity(s, 1, mode).unwrap();
        check(s, 1, 4, &[Arg::Uint(value)], &[]);
    }
    layer_shell::ack_configure(s, 1, 5).unwrap();
    check(s, 1, 6, &[Arg::Uint(5)], &[]);
}

#[test]
fn a_request_too_large_for_a_message_sends_nothing() {
    let mut s = WaylandSocket::new(3);
    assert_eq!(
        data_device::source_offer(&mut s, 1, &"m".repeat(2000))
            .err()
            .unwrap()
            .msg,
        "message exceeds buffer capacity"
    );
    assert!(s.next_send().is_none());
}

#[test]
fn a_short_write_goes_on_without_its_descriptors() {
    let mut s = WaylandSocket::new(3);
    s.send(b"abcdef", &[8, 9]).unwrap();
    s.send(b"xyz", &[]).unwrap();
    s.sent(-4).expect("interrupted");
    assert_eq!(s.next_send(), Some((&b"abcdef"[..], &[8, 9][..])));
    s.sent(2).expect("sent");
    assert_eq!(s.next_send(), Some((&b"cdef"[..], &[][..])));
    s.sent(4).expect("sent");
    assert_eq!(s.sent(-32).err().unwrap().errno, 32);
    assert!(s.next_send().is_none());
    s.flush().expect("nothing to flush");
    assert_eq!(s.as_raw_fd(), 3);
}

#[test]
fn messages_come_out_of_the_stream_whole() {
    let mut s = WaylandSocket::new(3);
    let msg = encoded(6, 2, &[Arg::Uint(5), Arg::Str("hi")]);
    assert!(matches!(s.read_message(), Ok(None)));
    s.recv_data(Ok(&msg[..9]), &[], false).expect("read");
    assert!(matches!(s.read_message(), Ok(None)));
    let mut rest = msg[9..].to_vec();
    rest.extend_from_slice(&encoded(7, 0, &[]));
    s.recv_data(Ok(&rest), &[4, 5], false).expect("read");
    match s.read_message() {
        Ok(Some(m)) => {
            assert_eq!((m.object_id, m.opcode), (6, 2));
            let mut p = m.parser();
            assert_eq!(p.get_u32(), Ok(5));
            assert_eq!(p.get_string().unwrap().as_str(), "hi");
        }
        _ => panic!("a message"),
    }
    match s.read_message() {
        Ok(Some(m)) => assert_eq!(m.object_id, 7),
        _ => panic!("a message"),
    }
    assert!(matches!(s.read_message(), Ok(None)));
    assert_eq!(s.take_fd(), Some(4));
    assert_eq!(s.take_fd(), Some(5));
    assert_eq!(s.take_fd(), None);
}

#[test]
fn every_failed_read_is_told_apart() {
    let mut s = WaylandSocket::new(3);
    assert_eq!(s.recv_data(Err(11), &[], false).err().unwrap().errno, 11);
    assert_eq!(
        s.recv_data(Ok(&[]), &[], false).err().unwrap().msg,
        "connection closed"
    );
    assert_eq!(
        s.recv_data(Ok(&[1]), &[2], true).err().unwrap().msg,
        "received message truncated its passed file descriptors"
    );
    assert_eq!(s.take_fd(), None);
    // More descriptors than the queue holds: the first ones stay.
    s.recv_data(Ok(&[1]), &[7; 20], false).expect("read");
    assert_eq!((0..20).filter(|_| s.take_fd().is_some()).count(), 16);
    assert_eq!(
        s.recv_data(Ok(&vec![0; 131_072]), &[], false)
            .err()
            .unwrap()
            .msg,
        "receive buffer overflow"
    );

    let mut s = WaylandSocket::new(3);
    s.recv_data(Ok(&[1, 0, 0, 0, 0, 0, 7, 0]), &[], false)
        .expect("read");
    assert_eq!(
        s.read_message().err().unwrap().msg,
        "message size smaller than header"
    );
    let mut s = WaylandSocket::new(3);
    let mut big = vec![0u8; MSG_PAYLOAD_CAP + 12];
    let size = big.len() as u32;
    big[4..8].copy_from_slice(&(size << 16).to_le_bytes());
    assert_eq!(parse_header(&big), Ok((0, 0, MSG_PAYLOAD_CAP + 12)));
    s.recv_data(Ok(&big), &[], false).expect("read");
    assert_eq!(
        s.read_message().err().unwrap().msg,
        "message payload too large"
    );
}

#[test]
fn the_compositors_socket_has_an_address() {
    let (field, len) = WaylandSocket::connect(Some("/run"), None).expect("address");
    assert_eq!((&field[..15], len), (&b"/run/wayland-0\0"[..], 17));
    let (field, len) = WaylandSocket::connect(Some("/run"), Some("/x")).expect("address");
    assert_eq!((&field[..3], len), (&b"/x\0"[..], 5));
    assert_eq!(
        WaylandSocket::connect(None, Some("/x")).err().unwrap().msg,
        "XDG_RUNTIME_DIR not set"
    );
    assert_eq!(
        WaylandSocket::connect_to(&"p".repeat(108)).err().unwrap().msg,
        "socket path too long"
    );
    let s = WaylandSocket::new(3);
    assert_eq!(s.set_nonblocking(1, true), Ok(0x801));
    assert_eq!(s.set_nonblocking(-9, true).err().unwrap().errno, 9);
}
