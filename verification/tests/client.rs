use bnklaunch::client::events::Effect;
use bnklaunch::client::input::ClipboardStep;
use bnklaunch::client::{Client, KeyRepeat, PendingAction};
use bnklaunch::clipboard::{receive, Op, TextMime};
use bnklaunch::ids::IdAllocator;
use bnklaunch::keys::KeyAction;
use bnklaunch::platform::arena::ArrayVec;
use bnklaunch::platform::conn::{Connection, SendStep};
use bnklaunch::platform::protocol::{
    BTN_LEFT, BUFFER_DESTROY, BUFFER_EV_RELEASE, BUTTON_PRESSED, CALLBACK_EV_DONE,
    DATA_DEVICE_EV_DATA_OFFER,
    DATA_DEVICE_EV_SELECTION, DATA_OFFER_EV_OFFER, DATA_SOURCE_EV_CANCELLED, DATA_SOURCE_EV_SEND,
    DISPLAY_EV_DELETE_ID, DISPLAY_EV_ERROR, DISPLAY_GET_REGISTRY, KEYBOARD_EV_ENTER,
    KEYBOARD_EV_KEY, KEYBOARD_EV_KEYMAP, KEYBOARD_EV_LEAVE, KEYBOARD_EV_MODIFIERS,
    KEYBOARD_EV_REPEAT_INFO, LAYER_SURFACE_EV_CLOSED, LAYER_SURFACE_EV_CONFIGURE,
    POINTER_EV_BUTTON, POINTER_EV_MOTION, REGISTRY_BIND, REGISTRY_EV_GLOBAL,
    REGISTRY_EV_GLOBAL_REMOVE, SEAT_EV_CAPABILITIES, SHM_CREATE_POOL, SHM_POOL_DESTROY,
    SURFACE_ATTACH, SURFACE_COMMIT, SURFACE_DAMAGE, WL_DISPLAY,
};
use bnklaunch::platform::syscall::kernel_timespec;
use bnklaunch::platform::time::Instant;
use bnklaunch::platform::wire::{encode, parse_header, Arg, Reader, HEADER_SIZE};
use bnklaunch::platform::xkb::KEY_A;
use bnklaunch::present::Present;

fn at_ms(ms: i64) -> Instant {
    Instant::now(kernel_timespec {
        tv_sec: 9,
        tv_nsec: ms * 1_000_000,
    })
}

/// A message as the compositor sends it.
fn event(object: u32, opcode: u16, args: &[Arg<'_>]) -> Vec<u8> {
    let mut buf: ArrayVec<u8, 1024> = ArrayVec::new();
    encode(&mut buf, object, opcode, args).expect("encode");
    buf.as_slice().to_vec()
}

/// Hand the client an event and say what it asks for.
fn tell(c: &mut Client, object: u32, opcode: u16, args: &[Arg<'_>]) -> Effect {
    tell_at(c, object, opcode, args, &[], 0)
}

fn tell_at(
    c: &mut Client,
    object: u32,
    opcode: u16,
    args: &[Arg<'_>],
    fds: &[i32],
    ms: i64,
) -> Effect {
    let msg = event(object, opcode, args);
    c.socket.fill(Ok(&msg), fds, false).expect("fill");
    match c.dispatch(at_ms(ms)) {
        Ok(Some(e)) => e,
        Ok(None) => panic!("a whole message"),
        Err(e) => panic!("{}", e.msg),
    }
}

/// Every request sent so far, as (object, opcode, body), with the fds passed.
fn sent(c: &mut Client) -> (Vec<(u32, u16, Vec<u8>)>, Vec<i32>) {
    c.socket.flush();
    let mut stream = Vec::new();
    let mut passed = Vec::new();
    loop {
        let n = match c.socket.next_send() {
            Some((b, f)) => {
                stream.extend_from_slice(b);
                passed.extend_from_slice(f);
                b.len()
            }
            None => break,
        };
        assert_eq!(c.socket.sent(n as isize), SendStep::Send);
    }
    let mut out = Vec::new();
    let mut off = 0;
    while off < stream.len() {
        let (object, opcode, size) = parse_header(&stream[off..]).expect("header");
        out.push((object, opcode, stream[off + HEADER_SIZE..off + size].to_vec()));
        off += size;
    }
    (out, passed)
}

fn opcodes(c: &mut Client) -> Vec<(u32, u16)> {
    sent(c).0.iter().map(|(o, p, _)| (*o, *p)).collect()
}

/// A client with everything bound: registry 2, then one id per interface, and
/// the data device last.
fn bound() -> Client {
    let mut c = Client::new(Connection::new(4));
    c.init().expect("init");
    assert_eq!(opcodes(&mut c), [(WL_DISPLAY, DISPLAY_GET_REGISTRY)]);
    for (name, iface) in [
        (1, "wl_compositor"),
        (2, "wl_shm"),
        (3, "wl_output"),
        (4, "wl_seat"),
        (5, "zwlr_layer_shell_v1"),
        (6, "wl_data_device_manager"),
        (7, "wl_seat"),
    ] {
        tell(
            &mut c,
            2,
            REGISTRY_EV_GLOBAL,
            &[Arg::Uint(name), Arg::Str(iface), Arg::Uint(9)],
        );
    }
    assert_eq!(c.globals.len(), 6, "only what the launcher binds is tracked");
    assert!(c.has_layer_shell());
    c.bind_globals().expect("bind");
    c
}

/// A client with a configured surface and its frames.
fn shown() -> Client {
    let mut c = bound();
    sent(&mut c);
    c.create_layer_surface(800, 54).expect("surface");
    let surface = c.present.surface.expect("surface");
    assert!(c.awaits_configure() && !c.surface_configured());
    tell(
        &mut c,
        surface.layer_surface_id,
        LAYER_SURFACE_EV_CONFIGURE,
        &[Arg::Uint(77), Arg::Uint(800), Arg::Uint(54)],
    );
    assert!(c.surface_configured() && !c.awaits_configure());
    assert_eq!(c.present.frame_size(), Ok(800 * 4 * 54));
    c.create_buffer(&[20, 21]).expect("frames");
    let (_, fds) = sent(&mut c);
    assert_eq!(fds, [20, 21]);
    c
}

#[test]
fn id_allocator_reuses_recycled_ids() {
    let mut ids = IdAllocator::new();
    let a = ids.allocate();
    let b = ids.allocate();
    assert_eq!((a, b), (2, 3));

    // A recycled id is handed back before next_id is bumped again.
    ids.recycle(a);
    assert_eq!(ids.allocate(), a);
    assert_eq!(ids.allocate(), 4);
}

#[test]
fn there_is_room_for_ids_up_to_the_last_one() {
    let ids = IdAllocator::new();
    assert!(ids.has_room(u32::MAX - 2));
    assert!(!ids.has_room(u32::MAX - 1));
}

#[test]
fn the_first_of_an_interface_is_bound() {
    let mut c = bound();
    let binds: Vec<(u32, String)> = sent(&mut c)
        .0
        .iter()
        .filter(|(o, p, _)| (*o, *p) == (2, REGISTRY_BIND))
        .map(|(_, _, body)| {
            let mut r = Reader::new(body);
            (r.u32().unwrap(), r.string().unwrap().to_string())
        })
        .collect();
    let want = [
        (1, "wl_compositor"),
        (2, "wl_shm"),
        (4, "wl_seat"),
        (5, "zwlr_layer_shell_v1"),
        (6, "wl_data_device_manager"),
    ];
    assert_eq!(binds.len(), want.len());
    for (b, w) in binds.iter().zip(want) {
        assert_eq!((b.0, b.1.as_str()), w);
    }
    assert_eq!(c.bindings.compositor, Some(3));
    assert_eq!(c.bindings.data_device_manager, Some(7));
    assert_eq!(c.clipboard.device_id, Some(8));
}

#[test]
fn a_global_that_goes_away_is_forgotten() {
    let mut c = bound();
    tell(&mut c, 2, REGISTRY_EV_GLOBAL_REMOVE, &[Arg::Uint(5)]);
    assert!(!c.has_layer_shell());
    assert_eq!(c.globals.len(), 5);
}

#[test]
fn a_surface_needs_its_interfaces() {
    let mut c = Client::new(Connection::new(4));
    assert_eq!(
        c.bind_globals().err().unwrap().msg,
        "registry not initialized"
    );
    assert_eq!(
        c.create_layer_surface(1, 1).err().unwrap().msg,
        "wl_compositor not bound"
    );
    c.bindings.compositor = Some(3);
    assert_eq!(
        c.create_layer_surface(1, 1).err().unwrap().msg,
        "zwlr_layer_shell_v1 not bound"
    );
    assert_eq!(
        c.create_buffer(&[1, 2]).err().unwrap().msg,
        "wl_shm not bound"
    );
    assert_eq!(c.resize_surface(1, 1).err().unwrap().msg, "no surface");
    assert_eq!(c.present.frame_size().err().unwrap().msg, "no surface");
}

#[test]
fn a_round_trip_ends_with_its_callback_or_the_connection() {
    let mut c = Client::new(Connection::new(4));
    c.roundtrip().expect("sync");
    assert!(c.awaits_sync());
    tell(&mut c, 2, CALLBACK_EV_DONE, &[Arg::Uint(0)]);
    assert!(!c.awaits_sync());
    assert!(c.synced().is_ok());

    c.roundtrip().expect("sync");
    match tell(
        &mut c,
        WL_DISPLAY,
        DISPLAY_EV_ERROR,
        &[Arg::Object(3), Arg::Uint(1), Arg::Str("no")],
    ) {
        Effect::ProtocolError(3, 1, text) => assert_eq!(text, b"no"),
        _ => panic!("a protocol error"),
    }
    assert!(!c.awaits_sync());
    assert_eq!(
        c.synced().err().unwrap().msg,
        "connection ended before sync completed"
    );
}

#[test]
fn a_deleted_id_is_used_again() {
    let mut c = bound();
    tell(&mut c, WL_DISPLAY, DISPLAY_EV_DELETE_ID, &[Arg::Uint(6)]);
    assert_eq!(c.ids.allocate(), 6);
}

#[test]
fn frames_take_turns_and_wait_for_their_release() {
    let mut c = shown();
    let first = c.present.current_buffer_id().expect("a frame");
    assert!(!c.awaits_frame());
    c.present.pixels().expect("pixels").fill(0xFF00_0000);
    c.render().expect("show");
    let surface = c.present.surface.unwrap().id;
    assert_eq!(
        opcodes(&mut c),
        [
            (surface, SURFACE_ATTACH),
            (surface, SURFACE_DAMAGE),
            (surface, SURFACE_COMMIT)
        ]
    );
    let second = c.present.current_buffer_id().expect("a frame");
    assert_ne!(first, second);
    c.render().expect("show");
    // Both are with the compositor now.
    assert!(c.awaits_frame());
    assert!(c.present.pixels().is_none());
    tell(&mut c, first, BUFFER_EV_RELEASE, &[]);
    assert!(!c.awaits_frame());
    assert_eq!(c.present.current_buffer_id(), Some(first));
    // What was drawn is still what each holds.
    let frames = c.present.frames.as_slice();
    assert!(frames[0].pixels.pixels.iter().all(|&p| p == 0xFF00_0000));
    assert!(frames[1].pixels.pixels.iter().all(|&p| p == 0));
}

#[test]
fn a_resize_retires_what_the_compositor_still_holds() {
    let mut c = shown();
    let held = c.present.current_buffer_id().expect("a frame");
    let held_pool = c.present.frames.as_slice()[0].pool_id;
    let free = c.present.frames.as_slice()[1].buffer_id;
    let free_pool = c.present.frames.as_slice()[1].pool_id;
    c.render().expect("show");
    sent(&mut c);
    // The same size is no resize.
    assert_eq!(c.resize_surface(800, 54), Ok(false));
    assert_eq!(c.resize_surface(800, 104), Ok(true));
    assert!(c.awaits_configure());
    let ls = c.present.surface.unwrap().layer_surface_id;
    tell(
        &mut c,
        ls,
        LAYER_SURFACE_EV_CONFIGURE,
        &[Arg::Uint(78), Arg::Uint(800), Arg::Uint(104)],
    );
    sent(&mut c);
    assert_eq!(c.finish_resize(&[30, 31]), Ok(true));
    let (msgs, fds) = sent(&mut c);
    let asked: Vec<(u32, u16)> = msgs.iter().map(|(o, p, _)| (*o, *p)).collect();
    assert_eq!(
        asked[..2],
        [(free, BUFFER_DESTROY), (free_pool, SHM_POOL_DESTROY)]
    );
    assert!(!asked.iter().any(|(o, _)| *o == held || *o == held_pool));
    // Two fresh frames stand ready.
    assert_eq!(c.present.frames.len(), 2);
    assert!(c.present.ready());
    for frame in c.present.frames.as_slice() {
        assert_eq!((frame.pixels.width, frame.pixels.height), (800, 104));
        assert!(!frame.held && frame.pixels.pixels.iter().all(|&p| p == 0));
    }
    assert_eq!(fds, [30, 31]);
    assert_eq!(
        msgs.iter()
            .filter(|(o, p, _)| (Some(*o), *p) == (c.bindings.shm, SHM_CREATE_POOL))
            .count(),
        2
    );
    // One frame went at once; the one on screen goes when it is released.
    assert_eq!(c.present.take_gone(), [21]);
    assert_eq!(c.present.retired.len(), 1);
    tell(&mut c, held, BUFFER_EV_RELEASE, &[]);
    assert_eq!(c.present.take_gone(), [20]);
    assert!(c.present.retired.is_empty());
    assert_eq!(
        opcodes(&mut c),
        [(held, BUFFER_DESTROY), (held_pool, SHM_POOL_DESTROY)]
    );
    // Once only, and never again for the one that went at once.
    tell(&mut c, held, BUFFER_EV_RELEASE, &[]);
    tell(&mut c, free, BUFFER_EV_RELEASE, &[]);
    assert!(c.present.take_gone().is_empty());
    assert!(opcodes(&mut c).is_empty());
}

#[test]
fn a_configure_keeps_a_size_that_can_be_drawn() {
    let mut c = shown();
    let s = c.present.surface.unwrap();
    tell(
        &mut c,
        s.layer_surface_id,
        LAYER_SURFACE_EV_CONFIGURE,
        &[Arg::Uint(1), Arg::Uint(0), Arg::Uint(4_000_000)],
    );
    let kept = c.present.surface.unwrap();
    assert_eq!((kept.width, kept.height), (s.width, s.height));
    tell(&mut c, s.layer_surface_id, LAYER_SURFACE_EV_CLOSED, &[]);
    assert!(!c.running);
    assert_eq!(c.finish_resize(&[1, 2]), Ok(false));
}

#[test]
fn an_unready_surface_has_nothing_to_show() {
    let mut p = Present::new();
    assert!(!p.ready());
    assert!(p.current_buffer_id().is_none());
    assert!(p.pixels().is_none());
}

/// A client with a keyboard and a pointer: the ids that were asked for.
fn with_seat() -> (Client, u32, u32) {
    let mut c = shown();
    let seat = c.bindings.seat.expect("seat");
    tell(&mut c, seat, SEAT_EV_CAPABILITIES, &[Arg::Uint(3)]);
    let (k, p) = (c.keyboard.id.expect("keyboard"), c.pointer.id.expect("pointer"));
    // Asking twice changes nothing.
    tell(&mut c, seat, SEAT_EV_CAPABILITIES, &[Arg::Uint(3)]);
    assert_eq!((c.keyboard.id, c.pointer.id), (Some(k), Some(p)));
    (c, k, p)
}

#[test]
fn the_keyboard_reports_keys_and_focus() {
    let (mut c, k, _) = with_seat();
    tell(
        &mut c,
        k,
        KEYBOARD_EV_ENTER,
        &[Arg::Uint(100), Arg::Object(9), Arg::Uint(0)],
    );
    assert!(c.keyboard.focused);
    assert_eq!(c.last_serial, 100);

    let key = |c: &mut Client, state: u32, ms: i64| {
        tell_at(
            c,
            k,
            KEYBOARD_EV_KEY,
            &[
                Arg::Uint(101),
                Arg::Uint(0),
                Arg::Uint(KEY_A),
                Arg::Uint(state),
            ],
            &[],
            ms,
        )
    };
    assert!(matches!(key(&mut c, 1, 10), Effect::Key(KEY_A)));
    assert_eq!(c.last_serial, 101);
    assert_eq!(c.key_repeat.held_key, Some(KEY_A));
    // Held past the delay it repeats, then on its interval.
    assert_eq!(c.process_key_repeat(at_ms(409)), None);
    assert_eq!(c.process_key_repeat(at_ms(410)), Some(KEY_A));
    assert_eq!(c.process_key_repeat(at_ms(449)), None);
    assert_eq!(c.process_key_repeat(at_ms(450)), Some(KEY_A));
    assert!(matches!(key(&mut c, 0, 460), Effect::Nothing));
    assert_eq!(c.process_key_repeat(at_ms(999)), None);

    assert!(matches!(
        tell(
            &mut c,
            k,
            KEYBOARD_EV_MODIFIERS,
            &[Arg::Uint(5), Arg::Uint(1), Arg::Uint(2), Arg::Uint(3), Arg::Uint(4)]
        ),
        Effect::Modifiers(1, 2, 3, 4)
    ));
    tell(&mut c, k, KEYBOARD_EV_LEAVE, &[Arg::Uint(6), Arg::Object(9)]);
    assert!(!c.keyboard.focused && !c.running);
}

#[test]
fn repeat_can_be_turned_off() {
    let (mut c, k, _) = with_seat();
    tell(
        &mut c,
        k,
        KEYBOARD_EV_REPEAT_INFO,
        &[Arg::Int(0), Arg::Int(250)],
    );
    assert_eq!((c.key_repeat.rate, c.key_repeat.delay_ms), (0, 250));
    // What the protocol does not define keeps the setting.
    tell(
        &mut c,
        k,
        KEYBOARD_EV_REPEAT_INFO,
        &[Arg::Int(-1), Arg::Int(-5)],
    );
    assert_eq!((c.key_repeat.rate, c.key_repeat.delay_ms), (0, 250));
    let held = KeyRepeat {
        held_key: Some(1),
        repeating: true,
        rate: 0,
        ..Default::default()
    };
    assert_eq!(held.due_in(0, Some(99)), None);
    assert!(!held.should_repeat(at_ms(0)));
    // Nor does it fire once, when the delay has passed.
    let waiting = KeyRepeat {
        held_key: Some(1),
        press_time: Some(at_ms(0)),
        rate: 0,
        ..Default::default()
    };
    assert_eq!(waiting.due_in(400, None), None);
    assert_eq!(waiting.time_until_due(at_ms(1)), None);
    assert!(!waiting.should_repeat(at_ms(400)));
    let started = KeyRepeat {
        repeating: true,
        ..waiting
    };
    assert_eq!(started.due_in(400, None), None);
    assert!(!started.should_repeat(at_ms(400)));
}

#[test]
fn a_keymap_comes_with_its_descriptor() {
    let (mut c, k, _) = with_seat();
    let args = [Arg::Uint(1), Arg::Uint(500)];
    match tell_at(&mut c, k, KEYBOARD_EV_KEYMAP, &args, &[33], 0) {
        Effect::Keymap(Some(fd), 500, 1) => assert_eq!(fd.as_raw_fd(), 33),
        _ => panic!("a keymap"),
    }
    assert!(matches!(
        tell_at(&mut c, k, KEYBOARD_EV_KEYMAP, &args, &[], 0),
        Effect::Keymap(None, 500, 1)
    ));
}

#[test]
fn clicks_close_together_count_up() {
    let (mut c, _, p) = with_seat();
    tell(
        &mut c,
        p,
        POINTER_EV_MOTION,
        &[Arg::Uint(0), Arg::Int(256 * 30 + 128), Arg::Int(-256)],
    );
    assert_eq!((c.pointer.x.raw, c.pointer.y.raw), (7808, -256));
    let press = |c: &mut Client, state: u32, ms: i64| {
        tell_at(
            c,
            p,
            POINTER_EV_BUTTON,
            &[
                Arg::Uint(9),
                Arg::Uint(0),
                Arg::Uint(BTN_LEFT),
                Arg::Uint(state),
            ],
            &[],
            ms,
        );
    };
    press(&mut c, BUTTON_PRESSED, 0);
    assert!(c.pointer.clicked && c.pointer.button_pressed);
    assert_eq!(c.pointer.click_count, 1);
    press(&mut c, 0, 10);
    assert!(!c.pointer.button_pressed);
    press(&mut c, BUTTON_PRESSED, 399);
    assert_eq!(c.pointer.click_count, 2);
    press(&mut c, BUTTON_PRESSED, 799);
    assert_eq!(c.pointer.click_count, 1);
}

#[test]
fn a_message_cut_short_is_an_error_and_not_a_whole_one_waits() {
    let (mut c, k, _) = with_seat();
    let short = event(k, KEYBOARD_EV_KEYMAP, &[Arg::Uint(1)]);
    c.socket.fill(Ok(&short), &[], false).expect("fill");
    assert_eq!(
        c.dispatch(at_ms(0)).err().unwrap().msg,
        "truncated wayland message"
    );
    assert!(matches!(c.dispatch(at_ms(0)), Ok(None)));
}

fn typed(s: &str) -> Client {
    let mut c = bound();
    sent(&mut c);
    for ch in s.chars() {
        c.handle_key_action(KeyAction::Char(ch), false);
    }
    c
}

#[test]
fn keys_edit_the_input_and_walk_the_list() {
    let mut c = typed("hello");
    assert!(c.input_changed);
    assert_eq!(c.editor.text(), "hello");
    c.handle_key_action(KeyAction::Left, true);
    c.handle_key_action(KeyAction::Backspace, false);
    assert_eq!(c.editor.text(), "hell");
    c.handle_key_action(KeyAction::Down, false);
    assert_eq!(c.pending_action, PendingAction::SelectDown);
    assert_eq!(c.editor.text(), "hell");
    c.handle_key_action(KeyAction::Up, false);
    assert_eq!(c.pending_action, PendingAction::SelectUp);
    assert!(c.running);
    c.handle_key_action(KeyAction::Enter, false);
    assert_eq!(c.pending_action, PendingAction::Launch);
    assert!(!c.running);
    let mut c = typed("x");
    c.handle_key_action(KeyAction::Escape, false);
    assert!(!c.running);
    assert_ne!(c.pending_action, PendingAction::Launch);
}

#[test]
fn a_cut_takes_the_text_and_a_paste_brings_it_back() {
    let mut c = typed("hello");
    c.handle_key_action(KeyAction::SelectAll, false);
    c.handle_key_action(KeyAction::Cut, false);
    assert!(matches!(c.clipboard_op, Op::Cut(_)));
    assert!(matches!(c.process_clipboard(), ClipboardStep::Done));
    assert_eq!(c.editor.text(), "");
    let source = c.clipboard.source_id.expect("a source");

    // Another application asks for it.
    let args = [Arg::Str("text/plain")];
    match tell_at(&mut c, source, DATA_SOURCE_EV_SEND, &args, &[40], 0) {
        Effect::Serve(fd, Some(text)) => {
            assert_eq!((fd.as_raw_fd(), text.as_str()), (40, "hello"));
        }
        _ => panic!("a request for the clipboard"),
    }

    c.handle_key_action(KeyAction::Paste, false);
    assert!(matches!(c.process_clipboard(), ClipboardStep::Done));
    assert_eq!(c.editor.text(), "hello");

    // Someone else copied: the clipboard is no longer ours.
    tell(&mut c, source, DATA_SOURCE_EV_CANCELLED, &[]);
    assert!(c.clipboard.source_id.is_none());
    c.handle_key_action(KeyAction::Paste, false);
    match c.process_clipboard() {
        ClipboardStep::PasteFailed(e) => assert_eq!(e.msg, "no clipboard selection"),
        _ => panic!("nothing to paste"),
    }
}

#[test]
fn a_paste_asks_for_the_best_text_on_offer() {
    let mut c = typed("a");
    let device = c.clipboard.device_id.expect("device");
    let offer = 0xFF00_0001;
    tell(&mut c, device, DATA_DEVICE_EV_DATA_OFFER, &[Arg::NewId(offer)]);
    for mime in ["image/png", "text/plain;charset=utf-8", "text/plain"] {
        tell(&mut c, offer, DATA_OFFER_EV_OFFER, &[Arg::Str(mime)]);
    }
    tell(&mut c, device, DATA_DEVICE_EV_SELECTION, &[Arg::Object(offer)]);
    c.handle_key_action(KeyAction::Paste, false);
    match c.process_clipboard() {
        ClipboardStep::Receive(o, mime) => {
            assert_eq!((o, mime), (offer, TextMime::Utf8));
            receive(&mut c.socket, o, mime, 50).expect("ask");
        }
        _ => panic!("a transfer"),
    }
    assert_eq!(sent(&mut c).1, [50]);
    assert!(c.paste("bc"));
    assert_eq!(c.editor.text(), "abc");
    assert!(!c.paste(&"x".repeat(5000)));

    // An offer with no text on it.
    let other = 0xFF00_0002;
    tell(&mut c, device, DATA_DEVICE_EV_DATA_OFFER, &[Arg::NewId(other)]);
    tell(&mut c, other, DATA_OFFER_EV_OFFER, &[Arg::Str("image/png")]);
    tell(&mut c, device, DATA_DEVICE_EV_SELECTION, &[Arg::Object(other)]);
    c.handle_key_action(KeyAction::Paste, false);
    match c.process_clipboard() {
        ClipboardStep::PasteFailed(e) => assert_eq!(e.msg, "the clipboard has no text on it"),
        _ => panic!("nothing to paste"),
    }
}

#[test]
fn a_copy_without_a_clipboard_says_so() {
    let mut c = Client::new(Connection::new(4));
    c.handle_key_action(KeyAction::Char('x'), false);
    c.handle_key_action(KeyAction::SelectAll, false);
    c.handle_key_action(KeyAction::Copy, false);
    match c.process_clipboard() {
        ClipboardStep::CopyFailed(e) => assert_eq!(e.msg, "no data device manager"),
        _ => panic!("a failed copy"),
    }
    assert_eq!(c.editor.text(), "x");
    c.bindings.data_device_manager = Some(5);
    c.handle_key_action(KeyAction::Copy, false);
    match c.process_clipboard() {
        ClipboardStep::CopyFailed(e) => assert_eq!(e.msg, "no data device"),
        _ => panic!("a failed copy"),
    }
}
