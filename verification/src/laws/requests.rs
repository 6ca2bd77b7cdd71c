//! What is sent to the compositor, word by word.
use vstd::prelude::*;

use crate::client::setup;
use crate::client::{ClientView, Interface};
use crate::clipboard;
use crate::clipboard::{ClipView, TextMime};
use crate::ids::IdsView;
use crate::laws::formats;
use crate::laws::session;
use crate::platform::conn::{ConnView, Out, PacketView};
use crate::platform::protocol::KeyboardInteractivity;
use crate::platform::syscall::RawFd;
use crate::platform::time::Instant;
use crate::platform::wire;
use crate::platform::wire::Arg;
use crate::present;
use crate::present::Surface;


verus! {

/// A request of numbers alone: the object, the opcode with the length above it,
/// and the numbers.
pub open spec fn request(object: u32, opcode: u16, words: Seq<u32>) -> Seq<u8> {
    session::body_of(
        seq![object, (opcode + 65536 * (8 + 4 * words.len())) as u32] + words,
    )
}

/// A number below zero as it is sent.
pub open spec fn negative(n: int) -> u32 {
    (0x1_0000_0000 + n) as u32
}

spec fn spells(a: Arg<'_>, w: u32) -> bool {
    wire::arg_bytes(a) == session::quad(w)
}

proof fn lemma_spells(n: u32)
    ensures
        spells(Arg::Uint(n), n),
        spells(Arg::Object(n), n),
        spells(Arg::NewId(n), n),
        n <= 0x7FFF_FFFF ==> spells(Arg::Int(n as i32), n),
{
    session::law_numbers_are_stored_lowest_byte_first(n, 0, 0);
    assert(n <= 0x7FFF_FFFF ==> (n as i32) as u32 == n) by (bit_vector);
}

proof fn lemma_body_parts(a: Seq<u32>, b: Seq<u32>)
    ensures
        session::body_of(a + b) == session::body_of(a) + session::body_of(b),
    decreases b.len(),
{
    if b.len() == 0 {
        assert(a + b =~= a);
        assert(session::body_of(a) + session::body_of(b) =~= session::body_of(a));
    } else {
        lemma_body_parts(a, b.drop_last());
        assert((a + b).drop_last() =~= a + b.drop_last());
        assert(session::body_of(a + b) =~= session::body_of(a) + session::body_of(b));
    }
}

proof fn lemma_args(args: Seq<Arg<'_>>, words: Seq<u32>)
    requires
        args.len() == words.len(),
        forall|i: int| 0 <= i < args.len() ==> #[trigger] spells(args[i], words[i]),
    ensures
        wire::body_bytes(args) == session::body_of(words),
        session::body_of(words).len() == 4 * words.len(),
    decreases args.len(),
{
    if args.len() > 0 {
        let n = args.len() - 1;
        let (a, w) = (args.drop_last(), words.drop_last());
        assert forall|i: int| 0 <= i < a.len() implies #[trigger] spells(a[i], w[i]) by {
            assert(spells(args[i], words[i]));
        }
        lemma_args(a, w);
        assert(spells(args[n], words[n]));
    }
}

proof fn lemma_request(object: u32, opcode: u16, args: Seq<Arg<'_>>, words: Seq<u32>)
    requires
        args.len() == words.len(),
        args.len() < 100,
        forall|i: int| 0 <= i < args.len() ==> #[trigger] spells(args[i], words[i]),
    ensures
        wire::message_bytes(object, opcode, args) == request(object, opcode, words),
{
    lemma_args(args, words);
    formats::law_a_message_on_the_wire(object, opcode, args);
    let head = seq![object, (opcode + 65536 * (8 + 4 * words.len())) as u32];
    lemma_body_parts(head, words);
    reveal_with_fuel(session::body_of, 3);
    assert(head.drop_last() =~= seq![object]);
    assert(head.drop_last().drop_last() =~= Seq::<u32>::empty());
    assert(session::body_of(head) =~= session::quad(head[0]) + session::quad(head[1]));
}

/// Showing a frame attaches its buffer at the corner, says that all of the
/// surface has changed, and commits.
pub proof fn law_showing_a_frame(s: Surface, buffer: u32)
    requires
        s.width <= 0x7FFF_FFFF,
        s.height <= 0x7FFF_FFFF,
    ensures
        present::commit_script(s, buffer) == seq![
            Out::Msg(request(s.id, 1, seq![buffer, 0, 0])),
            Out::Msg(request(s.id, 2, seq![0, 0, s.width, s.height])),
            Out::Msg(request(s.id, 6, Seq::empty())),
            Out::Flush,
        ],
{
    lemma_spells(buffer);
    lemma_spells(0);
    lemma_spells(s.width);
    lemma_spells(s.height);
    lemma_request(
        s.id,
        1,
        seq![Arg::Object(buffer), Arg::Int(0), Arg::Int(0)],
        seq![buffer, 0, 0],
    );
    lemma_request(
        s.id,
        2,
        seq![
            Arg::Int(0),
            Arg::Int(0),
            Arg::Int(s.width as i32),
            Arg::Int(s.height as i32),
        ],
        seq![0, 0, s.width, s.height],
    );
    lemma_request(s.id, 6, Seq::<Arg<'static>>::empty(), Seq::empty());
    assert(present::commit_script(s, buffer) =~= seq![
        Out::Msg(request(s.id, 1, seq![buffer, 0, 0])),
        Out::Msg(request(s.id, 2, seq![0, 0, s.width, s.height])),
        Out::Msg(request(s.id, 6, Seq::empty())),
        Out::Flush,
    ]);
}

/// A buffer and its pool are let go by one request each.
pub proof fn law_letting_a_buffer_go(buffer: u32, pool: u32)
    ensures
        present::destroy_script(buffer, pool) == seq![
            Out::Msg(request(buffer, 0, Seq::empty())),
            Out::Msg(request(pool, 1, Seq::empty())),
        ],
{
    lemma_request(buffer, 0, Seq::<Arg<'static>>::empty(), Seq::empty());
    lemma_request(pool, 1, Seq::<Arg<'static>>::empty(), Seq::empty());
    assert(present::destroy_script(buffer, pool) =~= seq![
        Out::Msg(request(buffer, 0, Seq::empty())),
        Out::Msg(request(pool, 1, Seq::empty())),
    ]);
}

/// Memory is made a pool of its size, and the pool a buffer of one frame: from
/// the pool's start, four bytes a pixel, in the format with alpha.
pub proof fn law_making_a_buffer(shm: u32, pool: u32, buffer: u32, width: u32, height: u32, size: u32)
    requires
        width * 4 <= 0x7FFF_FFFF,
        height <= 0x7FFF_FFFF,
        size <= 0x7FFF_FFFF,
    ensures
        present::pool_message(shm, pool, size as int) == request(shm, 0, seq![pool, size]),
        present::buffer_message(pool, buffer, width, height) == request(
            pool,
            0,
            seq![buffer, 0, width, height, (width * 4) as u32, 0],
        ),
{
    lemma_spells(pool);
    lemma_spells(size);
    lemma_request(
        shm,
        0,
        seq![Arg::NewId(pool), Arg::Int(size as i32)],
        seq![pool, size],
    );
    lemma_spells(buffer);
    lemma_spells(0);
    lemma_spells(width);
    lemma_spells(height);
    lemma_spells((width * 4) as u32);
    lemma_request(
        pool,
        0,
        seq![
            Arg::NewId(buffer),
            Arg::Int(0),
            Arg::Int(width as i32),
            Arg::Int(height as i32),
            Arg::Int(((width * 4) as u32) as i32),
            Arg::Uint(0),
        ],
        seq![buffer, 0, width, height, (width * 4) as u32, 0],
    );
}

/// A new size is asked for and committed.
pub proof fn law_asking_for_a_size(s: Surface, width: u32, height: u32)
    ensures
        setup::resize_script(s, width, height) == seq![
            Out::Msg(request(s.layer_surface_id, 0, seq![width, height])),
            Out::Msg(request(s.id, 6, Seq::empty())),
            Out::Flush,
        ],
{
    lemma_spells(width);
    lemma_spells(height);
    lemma_request(
        s.layer_surface_id,
        0,
        seq![Arg::Uint(width), Arg::Uint(height)],
        seq![width, height],
    );
    lemma_request(s.id, 6, Seq::<Arg<'static>>::empty(), Seq::empty());
    assert(setup::resize_script(s, width, height) =~= seq![
        Out::Msg(request(s.layer_surface_id, 0, seq![width, height])),
        Out::Msg(request(s.id, 6, Seq::empty())),
        Out::Flush,
    ]);
}

/// The window is a surface of the compositor on the topmost layer, of the size
/// asked for, held to the top of the screen with room above it, over whatever
/// else claims room there, and with the keyboard as is asked.
pub proof fn law_making_the_window(
    compositor: u32,
    layer_shell: u32,
    surface: u32,
    window: u32,
    keyboard: KeyboardInteractivity,
    width: u32,
    height: u32,
)
    ensures
        ({
            let s = present::surface_script(
                compositor,
                layer_shell,
                surface,
                window,
                keyboard,
                width,
                height,
            );
            &&& s.len() == 9
            &&& s[0] == Out::Msg(request(compositor, 0, seq![surface]))
            &&& s[1] == Out::Msg(
                wire::message_bytes(
                    layer_shell,
                    0,
                    seq![
                        Arg::NewId(window),
                        Arg::Object(surface),
                        Arg::Object(0),
                        Arg::Uint(3),
                        Arg::Str("bnklaunch"),
                    ],
                ),
            )
            &&& s[2] == Out::Msg(request(window, 0, seq![width, height]))
            &&& s[3] == Out::Msg(request(window, 1, seq![1]))
            &&& s[4] == Out::Msg(request(window, 3, seq![350, 0, 0, 0]))
            &&& s[5] == Out::Msg(request(window, 2, seq![negative(-1)]))
            &&& keyboard == KeyboardInteractivity::Exclusive ==> s[6] == Out::Msg(
                request(window, 4, seq![1]),
            )
            &&& keyboard == KeyboardInteractivity::OnDemand ==> s[6] == Out::Msg(
                request(window, 4, seq![2]),
            )
            &&& s[7] == Out::Msg(request(surface, 6, Seq::empty()))
            &&& s[8] == Out::Flush
        }),
{
    lemma_spells(surface);
    lemma_spells(width);
    lemma_spells(height);
    lemma_spells(1);
    lemma_spells(350);
    lemma_spells(0);
    lemma_spells(keyboard.spec_value());
    lemma_request(compositor, 0, seq![Arg::NewId(surface)], seq![surface]);
    lemma_request(window, 0, seq![Arg::Uint(width), Arg::Uint(height)], seq![width, height]);
    lemma_request(window, 1, seq![Arg::Uint(1)], seq![1]);
    lemma_request(
        window,
        3,
        seq![Arg::Int(350), Arg::Int(0), Arg::Int(0), Arg::Int(0)],
        seq![350, 0, 0, 0],
    );
    assert(spells(Arg::Int(-1i32), negative(-1))) by {
        let m = (-1i32) as u32;
        assert(m == 0xFFFF_FFFF) by (bit_vector)
            requires
                m == (-1i32) as u32,
        ;
        session::law_numbers_are_stored_lowest_byte_first(m, 0, 0);
    }
    lemma_request(window, 2, seq![Arg::Int(-1i32)], seq![negative(-1)]);
    lemma_request(
        window,
        4,
        seq![Arg::Uint(keyboard.spec_value())],
        seq![keyboard.spec_value()],
    );
    lemma_request(surface, 6, Seq::<Arg<'static>>::empty(), Seq::empty());
}

/// The keyboard is asked for when the window is picked where the compositor knows
/// how, and whole where it does not.
pub proof fn law_the_keyboard_that_is_asked_for(v: ClientView, i: int)
    requires
        0 <= i < v.globals.len(),
        v.globals[i].interface == "zwlr_layer_shell_v1"@,
        forall|j: int|
            0 <= j < i ==> (#[trigger] v.globals[j]).interface != "zwlr_layer_shell_v1"@,
    ensures
        v.globals[i].version >= 4 ==> v.interactivity() == KeyboardInteractivity::OnDemand,
        v.globals[i].version < 4 ==> v.interactivity() == KeyboardInteractivity::Exclusive,
{
    lemma_shell(v, i, 0);
}

proof fn lemma_shell(v: ClientView, i: int, k: int)
    requires
        0 <= k <= i < v.globals.len(),
        v.globals[i].interface == "zwlr_layer_shell_v1"@,
        forall|j: int|
            0 <= j < i ==> (#[trigger] v.globals[j]).interface != "zwlr_layer_shell_v1"@,
    ensures
        v.layer_shell_version(k) == v.globals[i].version,
    decreases i - k,
{
    if k < i {
        lemma_shell(v, i, k + 1);
    }
}

/// What is bound is asked for by the name the registry gave it and in the lower
/// of the two versions.
pub proof fn law_binding_a_global(
    registry: u32,
    name: u32,
    offered: u32,
    i: Interface,
    id: u32,
)
    ensures
        ({
            let version = if offered < i.version() {
                offered
            } else {
                i.version()
            };
            setup::bind_message(registry, name, offered, i, id) == wire::message_bytes(
                registry,
                0,
                seq![Arg::Uint(name), Arg::Bind { interface: i.name(), version, new_id: id }],
            )
        }),
{
}

/// The interfaces that are bound, and the version of each that is spoken.
pub proof fn law_the_interfaces()
    ensures
        Interface::Compositor.name()@ == "wl_compositor"@,
        Interface::Shm.name()@ == "wl_shm"@,
        Interface::Seat.name()@ == "wl_seat"@,
        Interface::LayerShell.name()@ == "zwlr_layer_shell_v1"@,
        Interface::DataDeviceManager.name()@ == "wl_data_device_manager"@,
        Interface::Compositor.version() == 4,
        Interface::Shm.version() == 1,
        Interface::Seat.version() == 5,
        Interface::LayerShell.version() == 4,
        Interface::DataDeviceManager.version() == 3,
{
}

/// A copy makes a source, offers its text in both types, the one that says its
/// encoding first, and makes it the selection with the serial of the last key. A
/// paste asks the offer for a type and hands over the end to write to.
pub proof fn law_the_clipboards_requests(
    manager: u32,
    device: u32,
    source: u32,
    serial: u32,
    offer: u32,
    mime: TextMime,
    write_end: RawFd,
)
    ensures
        ({
            let s = clipboard::set_script(manager, device, source, serial);
            &&& s.len() == 5
            &&& s[0] == Out::Msg(request(manager, 0, seq![source]))
            &&& s[1] == Out::Msg(
                wire::message_bytes(source, 0, seq![Arg::Str("text/plain;charset=utf-8")]),
            )
            &&& s[2] == Out::Msg(wire::message_bytes(source, 0, seq![Arg::Str("text/plain")]))
            &&& s[3] == Out::Msg(request(device, 1, seq![source, serial]))
            &&& s[4] == Out::Flush
        }),
        clipboard::receive_script(offer, mime, write_end) == seq![
            Out::WithFds(
                wire::message_bytes(
                    offer,
                    1,
                    seq![
                        Arg::Str(
                            if mime == TextMime::Utf8 {
                                "text/plain;charset=utf-8"
                            } else {
                                "text/plain"
                            },
                        ),
                    ],
                ),
                seq![write_end],
            ),
            Out::Flush,
        ],
{
    lemma_spells(source);
    lemma_spells(serial);
    lemma_request(manager, 0, seq![Arg::NewId(source)], seq![source]);
    lemma_request(
        device,
        1,
        seq![Arg::Object(source), Arg::Uint(serial)],
        seq![source, serial],
    );
}

/// What is put out is sent in the order it was put: messages gather behind what
/// is queued, a flush sends what has gathered as one packet, and a message with
/// descriptors goes on its own behind what was queued before it.
pub proof fn law_messages_leave_in_order(c: ConnView, msg: Seq<u8>, more: Seq<u8>, fds: Seq<RawFd>)
    requires
        c.queued.len() + msg.len() + more.len() <= 1000,
    ensures
        ({
            let both = c.put(Out::Msg(msg))->0.put(Out::Msg(more))->0;
            &&& c.put(Out::Msg(msg)) is Some
            &&& c.put(Out::Msg(msg))->0.put(Out::Msg(more)) is Some
            &&& both.queued == c.queued + msg + more
            &&& both.sending == c.sending
            &&& both.queued.len() > 0 ==> both.put(Out::Flush)->0.sending == c.sending + seq![
                PacketView { bytes: c.queued + msg + more, fds: Seq::empty() },
            ]
            &&& both.put(Out::Flush)->0.queued.len() == 0
            &&& c.put(Out::WithFds(msg, fds)) is Some
            &&& c.queued.len() > 0 ==> c.put(Out::WithFds(msg, fds))->0.sending == c.sending + seq![
                PacketView { bytes: c.queued, fds: Seq::empty() },
                PacketView { bytes: msg, fds },
            ]
            &&& c.queued.len() == 0 ==> c.put(Out::WithFds(msg, fds))->0.sending == c.sending
                + seq![PacketView { bytes: msg, fds }]
        }),
{
    let both = c.put(Out::Msg(msg))->0.put(Out::Msg(more))->0;
    let all = PacketView { bytes: c.queued + msg + more, fds: Seq::<RawFd>::empty() };
    assert(c.sending.push(all) =~= c.sending + seq![all]);
    let first = PacketView { bytes: c.queued, fds: Seq::<RawFd>::empty() };
    let own = PacketView { bytes: msg, fds };
    assert(c.sending.push(first).push(own) =~= c.sending + seq![first, own]);
    assert(c.sending.push(own) =~= c.sending + seq![own]);
}

/// A size the compositor names is answered with the serial it came with.
pub proof fn law_a_size_is_answered(
    v: ClientView,
    id: u32,
    now: Instant,
    serial: u32,
    w: u32,
    h: u32,
)
    requires
        v.sync_callback != Some(id),
        id != 1,
        v.bindings.registry != Some(id),
        v.present.surface is Some,
        v.present.surface->0.layer_surface_id == id,
        v.socket.queued.len() <= 1000,
    ensures
        v.after(id, 0, session::body_of(seq![serial, w, h]), now).0.socket.queued
            == v.socket.queued + request(id, 6, seq![serial]),
{
    session::law_the_words_of_a_body(seq![serial, w, h]);
    assert(seq![serial, w, h][0] == serial);
    lemma_spells(serial);
    lemma_request(id, 6, seq![Arg::Uint(serial)], seq![serial]);
    let head = seq![id, (6u16 + 65536 * (8 + 4 * seq![serial].len())) as u32];
    session::law_the_words_of_a_body(head + seq![serial]);
    assert(request(id, 6, seq![serial]).len() == 12);
}

proof fn lemma_request_len(object: u32, opcode: u16, words: Seq<u32>)
    ensures
        request(object, opcode, words).len() == 8 + 4 * words.len(),
{
    let head = seq![object, (opcode + 65536 * (8 + 4 * words.len())) as u32];
    session::law_the_words_of_a_body(head + words);
}

/// The keyboard and the pointer are asked for when the seat has them, each under
/// a new number.
pub proof fn law_the_devices_of_a_seat(v: ClientView, seat: u32)
    requires
        v.keyboard.id is None,
        v.pointer.id is None,
        v.socket.queued.len() <= 1000,
    ensures
        ({
            let id = v.ids.id();
            let (w, ok) = v.with_keyboard(seat, 2);
            &&& ok && w.keyboard.id == Some(id) && w.ids == v.ids.taken()
            &&& w.socket.queued == v.socket.queued + request(seat, 1, seq![id])
            &&& v.with_keyboard(seat, 1) == (v, true)
        }),
        ({
            let id = v.ids.id();
            let (w, ok) = v.with_pointer(seat, 1);
            &&& ok && w.pointer.id == Some(id) && w.ids == v.ids.taken()
            &&& w.socket.queued == v.socket.queued + request(seat, 0, seq![id])
            &&& v.with_pointer(seat, 2) == (v, true)
        }),
{
    let id = v.ids.id();
    assert(2u32 & 2u32 != 0 && 1u32 & 2u32 == 0 && 1u32 & 1u32 != 0 && 2u32 & 1u32 == 0)
        by (bit_vector);
    lemma_spells(id);
    lemma_request(seat, 1, seq![Arg::NewId(id)], seq![id]);
    lemma_request(seat, 0, seq![Arg::NewId(id)], seq![id]);
    lemma_request_len(seat, 1, seq![id]);
    lemma_request_len(seat, 0, seq![id]);
}

/// The session opens by asking the display for its registry, and to be told when
/// all that was asked is done; each answer comes under a new number.
pub proof fn law_the_session_opens(v: ClientView)
    requires
        v.socket.queued.len() == 0,
    ensures
        ({
            let id = v.ids.id();
            let (w, ok) = v.with_registry();
            &&& ok && w.bindings.registry == Some(id)
            &&& w.socket.sending == v.socket.sending + seq![
                PacketView { bytes: request(1, 1, seq![id]), fds: Seq::empty() },
            ]
        }),
        ({
            let id = v.ids.id();
            let (w, ok) = v.syncing();
            &&& ok && w.sync_callback == Some(id) && !w.sync_done
            &&& w.socket.sending == v.socket.sending + seq![
                PacketView { bytes: request(1, 0, seq![id]), fds: Seq::empty() },
            ]
        }),
{
    let id = v.ids.id();
    lemma_spells(id);
    lemma_one_request(v.socket, 1, 1, id);
    lemma_one_request(v.socket, 1, 0, id);
}

proof fn lemma_one_request(c: ConnView, object: u32, opcode: u16, id: u32)
    requires
        c.queued.len() == 0,
    ensures
        ({
            let (w, ok) = c.put_all(setup::new_id_script(object, opcode, id));
            &&& ok
            &&& w.sending == c.sending + seq![
                PacketView { bytes: request(object, opcode, seq![id]), fds: Seq::empty() },
            ]
        }),
{
    lemma_spells(id);
    lemma_request(object, opcode, seq![Arg::NewId(id)], seq![id]);
    lemma_request_len(object, opcode, seq![id]);
    let script = setup::new_id_script(object, opcode, id);
    let msg = request(object, opcode, seq![id]);
    assert(script[0] == Out::Msg(msg));
    assert(script[1] == Out::Flush);
    let c1 = c.put(script[0])->0;
    assert(c1.queued =~= msg);
    let c2 = c1.put(script[1])->0;
    let p = PacketView { bytes: msg, fds: Seq::<RawFd>::empty() };
    assert(c2.sending =~= c.sending + seq![p]);
    assert(c2.put_from(script, 2) == (c2, true));
    assert(c1.put_from(script, 1) == (c2, true));
    assert(c.put_from(script, 0) == (c2, true));
}

/// A frame's memory goes to the compositor by its descriptor, with the pool made
/// of it, and then the buffer of the pool; both under new numbers.
pub proof fn law_making_a_frame(
    c: ConnView,
    ids: IdsView,
    shm: u32,
    width: u32,
    height: u32,
    shared: RawFd,
)
    requires
        c.queued.len() == 0,
        0 < width <= 16384,
        0 < height <= 16384,
    ensures
        ({
            let pool = ids.id();
            let buffer = ids.taken().id();
            let (w, left, r) = present::created_frame(c, ids, shm, width, height, shared);
            &&& r matches Ok(f) && f.width == width && f.height == height && f.shared == shared
                && f.pool_id == pool && f.buffer_id == buffer && !f.held && f.pixels.len()
                == width * height
            &&& left == ids.taken().taken()
            &&& w.sending == c.sending + seq![
                PacketView {
                    bytes: request(shm, 0, seq![pool, (width * 4 * height) as u32]),
                    fds: seq![shared],
                },
            ]
            &&& w.queued == request(pool, 0, seq![buffer, 0, width, height, (width * 4) as u32, 0])
        }),
{
    let pool = ids.id();
    let buffer = ids.taken().id();
    assert(width * 4 * height <= 0x4000_0000) by (nonlinear_arith)
        requires
            width <= 16384,
            height <= 16384,
    ;
    let size = (width * 4 * height) as u32;
    assert(0 <= width * height) by (nonlinear_arith);
    law_making_a_buffer(shm, pool, buffer, width, height, size);
    lemma_request_len(shm, 0, seq![pool, size]);
    lemma_request_len(pool, 0, seq![buffer, 0, width, height, (width * 4) as u32, 0]);
    let msg = request(shm, 0, seq![pool, size]);
    let own = PacketView { bytes: msg, fds: seq![shared] };
    assert(c.sending.push(own) =~= c.sending + seq![own]);
    let more = request(pool, 0, seq![buffer, 0, width, height, (width * 4) as u32, 0]);
    assert(c.queued + more =~= more);
}

/// A new copy first lets go of the source of the last, and an offer that is no
/// longer the selection is let go of.
pub proof fn law_what_is_replaced_is_let_go(v: ClipView, c: ConnView, gone: u32, offer: u32)
    requires
        c.queued.len() <= 1000,
        v.selection_offer == Some(gone),
        v.pending_offer == Some(offer),
        offer != 0,
    ensures
        v.retired(c, offer).queued == c.queued + request(gone, 2, Seq::empty()),
        clipboard::discarded_opt(c, Some(gone), 1).queued == c.queued + request(
            gone,
            1,
            Seq::empty(),
        ),
        clipboard::discarded_opt(c, None, 1) == c,
{
    lemma_request(gone, 2, Seq::<Arg<'static>>::empty(), Seq::empty());
    lemma_request(gone, 1, Seq::<Arg<'static>>::empty(), Seq::empty());
    lemma_request_len(gone, 2, Seq::empty());
    lemma_request_len(gone, 1, Seq::empty());
}

} // verus!
