//! What the compositor's events do, message by message, and what time does to a
//! held key.
use vstd::prelude::*;
use vstd::utf8::*;

use crate::client;
use crate::client::events;
use crate::client::events::EffectView;
use crate::client::{ClientView, GlobalView, KeyRepeat};
use crate::clipboard::{ClipView, TextMime};
use crate::editor::EditorView;
use crate::ids::IdsView;
use crate::laws::keyboard;
use crate::platform::bytes;
use crate::platform::conn;
use crate::platform::conn::ConnView;
use crate::platform::error::Error;
use crate::platform::time::Instant;
use crate::platform::wire;
use crate::platform::wire::Arg;
use crate::present::{FrameView, PresentView};

verus! {

/// A number in four bytes, the lowest first.
pub open spec fn quad(w: u32) -> Seq<u8> {
    seq![
        (w % 256) as u8,
        (w / 256 % 256) as u8,
        (w / 65536 % 256) as u8,
        (w / 16777216) as u8,
    ]
}

/// Numbers in four bytes each, one behind the other.
pub open spec fn body_of(words: Seq<u32>) -> Seq<u8>
    decreases words.len(),
{
    if words.len() == 0 {
        Seq::empty()
    } else {
        body_of(words.drop_last()) + quad(words.last())
    }
}

proof fn lemma_quad(w: u32)
    ensures
        bytes::from_le(quad(w)) == w,
        bytes::le(w as nat, 4) == quad(w),
{
    let s = quad(w);
    reveal_with_fuel(bytes::from_le, 5);
    reveal_with_fuel(bytes::le, 5);
    assert(s.drop_first().drop_first().drop_first().drop_first() =~= Seq::<u8>::empty());
    assert(s.drop_first()[0] == s[1]);
    assert(s.drop_first().drop_first()[0] == s[2]);
    assert(s.drop_first().drop_first().drop_first()[0] == s[3]);
    assert(bytes::le(w as nat, 4) =~= s);
}

proof fn lemma_le_parts(a: nat, b: nat, n: nat, m: nat)
    requires
        a < bytes::pow256(n),
    ensures
        bytes::le(a + bytes::pow256(n) * b, n + m) == bytes::le(a, n) + bytes::le(b, m),
    decreases n,
{
    if n == 0 {
        assert(bytes::le(a, 0) + bytes::le(b, m) =~= bytes::le(b, m));
        assert(bytes::pow256(0) * b == b) by {
            assert(1 * b == b);
        }
    } else {
        let less = (n - 1) as nat;
        let p = bytes::pow256(less);
        let x = (p * b) as nat;
        lemma_le_parts(a / 256, b, less, m);
        lemma_times(bytes::pow256(n), p, b);
        lemma_byte_on_top(a, x);
        let head = seq![(a % 256) as u8];
        let low = bytes::le(a / 256, less);
        let high = bytes::le(b, m);
        assert(bytes::le(a, n) == head + low);
        assert((n + m - 1) as nat == less + m);
        assert(bytes::le(a + 256 * x, n + m) == head + bytes::le(a / 256 + x, less + m));
        assert(head + (low + high) =~= (head + low) + high);
    }
}

proof fn lemma_times(q: nat, p: nat, b: nat)
    requires
        q == 256 * p,
    ensures
        q * b == 256 * (p * b),
        p * b >= 0,
{
    assert(q * b == 256 * (p * b)) by (nonlinear_arith)
        requires
            q == 256 * p,
    ;
    assert(p * b >= 0) by (nonlinear_arith);
}

proof fn lemma_byte_on_top(a: nat, x: nat)
    ensures
        (a + 256 * x) % 256 == a % 256,
        (a + 256 * x) / 256 == a / 256 + x,
{
}

/// Numbers are stored with the lowest byte first, in two, four and eight bytes.
pub proof fn law_numbers_are_stored_lowest_byte_first(low: u32, high: u32, short: u16)
    ensures
        bytes::le(short as nat, 2) == seq![(short % 256) as u8, (short / 256) as u8],
        bytes::le(low as nat, 4) == quad(low),
        bytes::le((low + 0x1_0000_0000 * high) as nat, 8) == quad(low) + quad(high),
{
    lemma_quad(low);
    lemma_quad(high);
    reveal_with_fuel(bytes::le, 3);
    assert(bytes::le(short as nat, 2) =~= seq![(short % 256) as u8, (short / 256) as u8]);
    bytes::lemma_pow256_values();
    lemma_le_parts(low as nat, high as nat, 4, 4);
}

/// The words of a body are read back as they were put, and counted.
pub proof fn law_the_words_of_a_body(words: Seq<u32>)
    ensures
        body_of(words).len() == 4 * words.len(),
        events::words_in(body_of(words)) == words.len(),
        forall|i: int|
            0 <= i < words.len() ==> events::word(body_of(words), i) == #[trigger] words[i],
    decreases words.len(),
{
    if words.len() > 0 {
        let less = words.drop_last();
        law_the_words_of_a_body(less);
        let n = words.len() - 1;
        let before = body_of(less);
        let b = body_of(words);
        assert forall|i: int| 0 <= i < words.len() implies events::word(b, i)
            == #[trigger] words[i] by {
            if i < n {
                assert(b.subrange(4 * i, 4 * i + 4) =~= before.subrange(4 * i, 4 * i + 4));
                assert(less[i] == words[i]);
            } else {
                assert(b.subrange(4 * i, 4 * i + 4) =~= quad(words.last()));
                lemma_quad(words.last());
            }
        }
    }
}

/// Whether an object is none of those that are asked before the input devices.
pub open spec fn is_a_device(v: ClientView, object: u32) -> bool {
    &&& v.sync_callback != Some(object)
    &&& object != 1
    &&& v.bindings.registry != Some(object)
    &&& !(v.present.surface is Some && v.present.surface->0.layer_surface_id == object)
    &&& !v.present.owns(object)
    &&& v.bindings.seat != Some(object)
}

/// A key that goes down is acted on and held, from now; one that comes up is no
/// longer held and acted on no more. Either way the serial is kept for the
/// clipboard.
pub proof fn law_a_key_goes_down_and_comes_up(
    v: ClientView,
    keyboard_id: u32,
    serial: u32,
    time: u32,
    key: u32,
    state: u32,
    now: Instant,
)
    requires
        is_a_device(v, keyboard_id),
        v.keyboard.id == Some(keyboard_id),
        state != 1,
    ensures
        v.after(keyboard_id, 3, body_of(seq![serial, time, key, 1]), now) == (
            ClientView {
                last_serial: serial,
                key_repeat: KeyRepeat {
                    held_key: Some(key),
                    press_time: Some(now),
                    last_repeat: None,
                    repeating: false,
                    ..v.key_repeat
                },
                ..v
            },
            EffectView::Key(key),
        ),
        ({
            let (w, effect) = v.after(
                keyboard_id,
                3,
                body_of(seq![serial, time, key, state]),
                now,
            );
            &&& effect is Nothing
            &&& w.last_serial == serial
            &&& w.editor == v.editor
            &&& v.key_repeat.held_key == Some(key) ==> w.key_repeat.held_key is None
            &&& v.key_repeat.held_key != Some(key) ==> w.key_repeat == v.key_repeat
        }),
{
    let down = seq![serial, time, key, 1u32];
    let up = seq![serial, time, key, state];
    law_the_words_of_a_body(down);
    law_the_words_of_a_body(up);
    assert(down[0] == serial && down[2] == key && down[3] == 1);
    assert(up[0] == serial && up[2] == key && up[3] == state);
}

/// The keyboard's other events: the window has the focus or has lost it and is
/// done, the modifiers are what is said, keys repeat as is said, and the keymap
/// comes by the descriptor sent with it.
pub proof fn law_the_keyboards_other_events(
    v: ClientView,
    keyboard_id: u32,
    now: Instant,
    serial: u32,
    a: u32,
    b: u32,
    c: u32,
    d: u32,
    e: u32,
)
    requires
        is_a_device(v, keyboard_id),
        v.keyboard.id == Some(keyboard_id),
    ensures
        ({
            let (w, effect) = v.after(keyboard_id, 1, body_of(seq![serial, a, b]), now);
            &&& effect is Nothing
            &&& w.keyboard.focused && w.running == v.running && w.last_serial == serial
        }),
        ({
            let (w, effect) = v.after(keyboard_id, 2, body_of(seq![serial, a]), now);
            &&& effect is Nothing
            &&& !w.keyboard.focused && !w.running
        }),
        v.after(keyboard_id, 4, body_of(seq![a, b, c, d, e]), now) == (
            v,
            EffectView::Modifiers(b, c, d, e),
        ),
        ({
            let (w, effect) = v.after(keyboard_id, 0, body_of(seq![a, b]), now);
            &&& v.socket.fds.len() > 0 ==> effect == EffectView::Keymap(
                Some(v.socket.fds[0]),
                b,
                a,
            ) && w.socket.fds == v.socket.fds.drop_first()
            &&& v.socket.fds.len() == 0 ==> effect == EffectView::Keymap(None, b, a)
        }),
        a < 0x8000_0000 && b < 0x8000_0000 ==> ({
            let (w, effect) = v.after(keyboard_id, 5, body_of(seq![a, b]), now);
            w.key_repeat.rate == a && w.key_repeat.delay_ms == b && w.key_repeat.held_key
                == v.key_repeat.held_key
        }),
{
    law_the_words_of_a_body(seq![serial, a, b]);
    law_the_words_of_a_body(seq![serial, a]);
    let m = seq![a, b, c, d, e];
    law_the_words_of_a_body(m);
    assert(m[1] == b && m[2] == c && m[3] == d && m[4] == e);
    let k = seq![a, b];
    law_the_words_of_a_body(k);
    assert(k[0] == a && k[1] == b);
    assert(seq![serial, a, b][0] == serial);
}

/// The pointer is where its last event says, in 256ths of a pixel; with the
/// button down, moving it drags.
pub proof fn law_the_pointer_is_where_it_is_said(
    v: ClientView,
    pointer_id: u32,
    now: Instant,
    serial: u32,
    surface: u32,
    time: u32,
    x: u32,
    y: u32,
)
    requires
        is_a_device(v, pointer_id),
        v.keyboard.id != Some(pointer_id),
        v.pointer.id == Some(pointer_id),
        x < 0x8000_0000,
        y < 0x8000_0000,
    ensures
        ({
            let (w, effect) = v.after(
                pointer_id,
                0,
                body_of(seq![serial, surface, x, y]),
                now,
            );
            &&& effect is Nothing
            &&& w.last_serial == serial
            &&& w.pointer.x.raw == x && w.pointer.y.raw == y
            &&& w.pointer.dragging == v.pointer.dragging && w.pointer.clicked == v.pointer.clicked
        }),
        ({
            let (w, effect) = v.after(pointer_id, 2, body_of(seq![time, x, y]), now);
            &&& effect is Nothing
            &&& w.pointer.x.raw == x && w.pointer.y.raw == y
            &&& v.pointer.button_pressed ==> w.pointer.dragging && w.input_changed
            &&& !v.pointer.button_pressed ==> w.pointer.dragging == v.pointer.dragging
                && w.input_changed == v.input_changed
            &&& w.pointer.clicked == v.pointer.clicked
        }),
{
    let enter = seq![serial, surface, x, y];
    let motion = seq![time, x, y];
    law_the_words_of_a_body(enter);
    law_the_words_of_a_body(motion);
    assert(enter[0] == serial && enter[2] == x && enter[3] == y);
    assert(motion[1] == x && motion[2] == y);
}

/// The left button going down is a click, one more in a row where it follows the
/// last within the time of a double click and otherwise the first; coming up it
/// ends a drag. Other buttons do nothing.
pub proof fn law_the_left_button_clicks(
    v: ClientView,
    pointer_id: u32,
    now: Instant,
    serial: u32,
    time: u32,
    button: u32,
    state: u32,
    last: Instant,
)
    requires
        is_a_device(v, pointer_id),
        v.keyboard.id != Some(pointer_id),
        v.pointer.id == Some(pointer_id),
        last.at() <= now.at(),
        v.pointer.click_count < u32::MAX,
        state != 1,
        button != 272,
    ensures
        ({
            let (w, effect) = v.after(pointer_id, 3, body_of(seq![serial, time, 272, 1]), now);
            &&& effect is Nothing
            &&& w.last_serial == serial
            &&& w.pointer.clicked && w.pointer.button_pressed && w.input_changed
            &&& w.pointer.last_click_time == Some(now)
            &&& w.pointer.x == v.pointer.x && w.pointer.y == v.pointer.y
            &&& v.pointer.last_click_time is None ==> w.pointer.click_count == 1
            &&& v.pointer.last_click_time == Some(last) && now.at() - last.at() < 400_000_000
                ==> w.pointer.click_count == v.pointer.click_count + 1
            &&& v.pointer.last_click_time == Some(last) && now.at() - last.at() >= 400_000_000
                ==> w.pointer.click_count == 1
        }),
        ({
            let (w, effect) = v.after(pointer_id, 3, body_of(seq![serial, time, 272, state]), now);
            &&& effect is Nothing
            &&& !w.pointer.button_pressed && !w.pointer.dragging
            &&& w.pointer.clicked == v.pointer.clicked
            &&& w.pointer.click_count == v.pointer.click_count
        }),
        v.after(pointer_id, 3, body_of(seq![serial, time, button, 1]), now).0 == (ClientView {
            last_serial: serial,
            ..v
        }),
{
    let down = seq![serial, time, 272u32, 1u32];
    let up = seq![serial, time, 272u32, state];
    let other = seq![serial, time, button, 1u32];
    law_the_words_of_a_body(down);
    law_the_words_of_a_body(up);
    law_the_words_of_a_body(other);
    assert(down[0] == serial && down[2] == 272 && down[3] == 1);
    assert(up[0] == serial && up[2] == 272 && up[3] == state);
    assert(other[0] == serial && other[2] == button && other[3] == 1);
}

/// The compositor says how large the window is, and that is answered with the
/// serial it came with; a size that cannot be drawn leaves the one there was.
/// When it closes the window the launcher is done.
pub proof fn law_the_window_is_as_large_as_is_said(
    v: ClientView,
    id: u32,
    now: Instant,
    serial: u32,
    w: u32,
    h: u32,
)
    requires
        v.sync_callback != Some(id),
        id != 1,
        v.bindings.registry != Some(id),
        v.present.surface is Some,
        v.present.surface->0.layer_surface_id == id,
    ensures
        ({
            let (after, effect) = v.after(id, 0, body_of(seq![serial, w, h]), now);
            let s = after.present.surface;
            &&& s is Some
            &&& 1 <= w <= 16384 && 1 <= h <= 16384 ==> s->0.width == w && s->0.height == h
            &&& w == 0 || h == 0 ==> s->0.width == v.present.surface->0.width && s->0.height
                == v.present.surface->0.height
            &&& effect is Nothing ==> s->0.configured
            &&& after.running == v.running
        }),
        !v.after(id, 1, body_of(Seq::empty()), now).0.running,
{
    let c = seq![serial, w, h];
    law_the_words_of_a_body(c);
    assert(c[0] == serial && c[1] == w && c[2] == h);
}

/// An error or the end of an ID comes from the display itself: an error ends the
/// session.
pub proof fn law_an_error_ends_the_session(v: ClientView, now: Instant, body: Seq<u8>)
    requires
        v.sync_callback != Some(1u32),
    ensures
        !v.after(1, 0, body, now).0.running,
        v.after(1, 1, body, now).0.running == v.running,
{
}

/// A key held down is due for the first time when the delay has passed since it
/// went down, and from then on when a second over the rate has passed since it
/// last repeated; nothing is due without a key held or a rate.
pub proof fn law_a_held_key_repeats_at_its_rate(
    k: KeyRepeat,
    key: u32,
    at: Instant,
    last: Instant,
    now: Instant,
)
    requires
        at.at() <= now.at(),
        last.at() <= now.at(),
        now.at() - at.at() < 0x1_0000_0000 * 1_000_000,
        now.at() - last.at() < 0x1_0000_0000 * 1_000_000,
        k.rate > 0,
    ensures
        ({
            let ms = (now.at() - at.at()) / 1_000_000;
            let due = k.pressed(key, at).due_at(now);
            &&& ms < k.delay_ms ==> due == Some((k.delay_ms - ms) as u32)
            &&& ms >= k.delay_ms ==> due == Some(0u32)
        }),
        ({
            let again = KeyRepeat {
                repeating: true,
                last_repeat: Some(last),
                ..k.pressed(key, at)
            };
            let ms = (now.at() - last.at()) / 1_000_000;
            let every = 1000u32 / k.rate;
            &&& ms < every ==> again.due_at(now) == Some((every - ms) as u32)
            &&& ms >= every ==> again.due_at(now) == Some(0u32)
        }),
        k.pressed(key, at).held_key == Some(key),
        (KeyRepeat { rate: 0, ..k.pressed(key, at) }).due_at(now) is None,
        k.pressed(key, at).released(key).due_at(now) is None,
{
}

/// One click puts the caret where it lands, with nothing selected; two select the
/// word there, three everything. A drag from there selects up to where it goes.
pub proof fn law_clicks_place_the_caret(
    before: Seq<char>,
    word: Seq<char>,
    after: Seq<char>,
    v: EditorView,
)
    requires
        v.text == before + word + after,
    ensures
        ({
            let (a, b) = (before.len() as int, (before.len() + word.len()) as int);
            &&& v.clicked(a, 1, (0, 0)) == keyboard::at_caret(before, word + after)
            &&& v.clicked(v.text.len() as int + 7, 1, (0, 0)) == keyboard::at_caret(
                v.text,
                Seq::empty(),
            )
            &&& v.clicked(a, 2, (a, b)) == keyboard::marked(before, word, after, false)
            &&& v.clicked(a, 3, (a, b)) == keyboard::marked(
                Seq::empty(),
                v.text,
                Seq::empty(),
                false,
            )
            &&& keyboard::at_caret(before, word + after).dragged(b) == keyboard::marked(
                before,
                word,
                after,
                false,
            )
            &&& keyboard::at_caret(before + word, after).dragged(a) == keyboard::marked(
                before,
                word,
                after,
                true,
            )
        }),
{
    let none = Seq::<char>::empty();
    assert(before + (word + after) =~= before + word + after);
    assert(v.text + none =~= v.text);
    assert(none + v.text + none =~= v.text);
}

/// Whether an object is none that is asked before the clipboard.
pub open spec fn is_the_clipboards(v: ClientView, object: u32) -> bool {
    is_a_device(v, object) && v.keyboard.id != Some(object) && v.pointer.id != Some(object)
}

/// The clipboard's events: an offer is announced, and is what the clipboard holds
/// once it is named the selection, or nothing is; the owner's text is asked for
/// by the descriptor that came, or is the owner's no longer.
pub proof fn law_the_clipboards_events(
    v: ClientView,
    device: u32,
    source: u32,
    offer: u32,
    now: Instant,
)
    requires
        is_the_clipboards(v, device),
        is_the_clipboards(v, source),
        v.clipboard.device_id == Some(device),
        v.clipboard.source_id == Some(source),
        v.clipboard.pending_offer != Some(source),
        device != source,
        offer != 0,
    ensures
        ({
            let w = v.after(device, 0, body_of(seq![offer]), now).0.clipboard;
            w.pending_offer == Some(offer) && w.pending_mime is None && w.selection_offer
                == v.clipboard.selection_offer
        }),
        ({
            let w = v.after(device, 5, body_of(seq![offer]), now).0.clipboard;
            &&& w.selection_offer == Some(offer) && w.pending_offer is None
            &&& v.clipboard.pending_offer == Some(offer) ==> w.selection_mime
                == v.clipboard.pending_mime
            &&& v.clipboard.pending_offer != Some(offer) ==> w.selection_mime is None
        }),
        v.after(device, 5, body_of(seq![0]), now).0.clipboard.selection_offer is None,
        ({
            let w = v.after(source, 2, body_of(Seq::empty()), now).0.clipboard;
            w.source_id is None && w.source_text is None
        }),
        v.socket.fds.len() > 0 ==> ({
            let (w, effect) = v.after(source, 1, body_of(Seq::empty()), now);
            effect == EffectView::Serve(v.socket.fds[0], v.clipboard.source_text) && w.socket.fds
                == v.socket.fds.drop_first()
        }),
{
    law_the_words_of_a_body(seq![offer]);
    law_the_words_of_a_body(seq![0u32]);
    let b = body_of(seq![offer]);
    let z = body_of(seq![0u32]);
    assert(b.take(4) =~= b.subrange(0, 4));
    assert(z.take(4) =~= z.subrange(0, 4));
    assert(events::word(b, 0) == seq![offer][0]);
    assert(events::word(z, 0) == seq![0u32][0]);
}

/// A type named on an offer counts for it when it is a text the launcher reads.
pub proof fn law_a_type_named_on_an_offer(
    v: ClientView,
    offer: u32,
    name: Seq<char>,
    now: Instant,
)
    requires
        is_the_clipboards(v, offer),
        v.clipboard.device_id != Some(offer),
        v.clipboard.pending_offer == Some(offer),
        encode_utf8(name).len() < 0xFFFF_FFFF,
    ensures
        ({
            let w = v.after(offer, 0, wire::str_bytes(name), now).0.clipboard;
            &&& name == "text/plain;charset=utf-8"@ ==> w.pending_mime == Some(TextMime::Utf8)
            &&& name == "text/plain"@ && v.clipboard.pending_mime is None ==> w.pending_mime
                == Some(TextMime::Plain)
            &&& name == "text/plain"@ && v.clipboard.pending_mime is Some ==> w.pending_mime
                == v.clipboard.pending_mime
            &&& name != "text/plain"@ && name != "text/plain;charset=utf-8"@ ==> w == v.clipboard
        }),
{
    let none = Seq::<u8>::empty();
    wire::law_string_round_trip(name, none);
    assert(wire::str_bytes(name) + none =~= wire::str_bytes(name));
    reveal_strlit("text/plain");
    reveal_strlit("text/plain;charset=utf-8");
    assert("text/plain"@.len() == 10 && "text/plain;charset=utf-8"@.len() == 24);
}

/// The registry names a global by its number, its interface and its version; one
/// the launcher can use is kept, behind those it was told of before, and any
/// other is passed over.
pub proof fn law_a_global_is_kept(
    v: ClientView,
    registry: u32,
    name: u32,
    interface: Seq<char>,
    version: u32,
    now: Instant,
)
    requires
        v.sync_callback != Some(registry),
        registry != 1,
        v.bindings.registry == Some(registry),
        v.globals.len() < 64,
        encode_utf8(interface).len() <= 64,
    ensures
        ({
            let body = quad(name) + wire::str_bytes(interface) + quad(version);
            let (w, effect) = v.after(registry, 0, body, now);
            let usable = interface == "wl_compositor"@ || interface == "wl_shm"@ || interface
                == "wl_seat"@ || interface == "zwlr_layer_shell_v1"@ || interface
                == "wl_data_device_manager"@;
            &&& effect is Nothing
            &&& usable ==> w.globals == v.globals + seq![GlobalView { name, interface, version }]
            &&& !usable ==> w.globals == v.globals
        }),
{
    let string = wire::str_bytes(interface);
    let body = quad(name) + string + quad(version);
    let rest = body.skip(4);
    lemma_quad(name);
    lemma_quad(version);
    assert(body.take(4) =~= quad(name));
    assert(rest =~= string + quad(version));
    wire::law_string_round_trip(interface, quad(version));
    assert(rest.skip(string.len() as int) =~= quad(version));
    assert(quad(version).take(4) =~= quad(version));
    let g = GlobalView { name, interface, version };
    assert(v.globals.push(g) =~= v.globals + seq![g]);
}

proof fn lemma_global_named(v: ClientView, a: Seq<GlobalView>, g: GlobalView, b: Seq<GlobalView>, k: int)
    requires
        v.globals == a + seq![g] + b,
        0 <= k <= a.len(),
        forall|i: int| 0 <= i < a.len() ==> (#[trigger] a[i]).name != g.name,
    ensures
        v.global_named(g.name, k) == a.len(),
    decreases a.len() - k,
{
    if k < a.len() {
        assert(v.globals[k] == a[k]);
        lemma_global_named(v, a, g, b, k + 1);
    } else {
        assert(v.globals[k] == g);
    }
}

/// A global that is withdrawn is forgotten and every other is kept.
pub proof fn law_a_global_withdrawn_is_forgotten(
    v: ClientView,
    registry: u32,
    a: Seq<GlobalView>,
    g: GlobalView,
    b: Seq<GlobalView>,
    now: Instant,
)
    requires
        v.sync_callback != Some(registry),
        registry != 1,
        v.bindings.registry == Some(registry),
        v.globals == a + seq![g] + b,
        forall|i: int| 0 <= i < a.len() ==> (#[trigger] a[i]).name != g.name,
    ensures
        v.after(registry, 1, body_of(seq![g.name]), now).0.globals.to_multiset() == (a
            + b).to_multiset(),
{
    law_the_words_of_a_body(seq![g.name]);
    assert(seq![g.name][0] == g.name);
    lemma_global_named(v, a, g, b, 0);
    let after = v.after(registry, 1, body_of(seq![g.name]), now).0.globals;
    let n = a.len() as int;
    vstd::seq_lib::lemma_multiset_commutative(a, b);
    if b.len() == 0 {
        assert(after =~= a + b);
    } else {
        let rest = b.drop_last();
        assert(after =~= a + (seq![b.last()] + rest));
        vstd::seq_lib::lemma_multiset_commutative(a, seq![b.last()] + rest);
        vstd::seq_lib::lemma_multiset_commutative(seq![b.last()], rest);
        vstd::seq_lib::lemma_multiset_commutative(rest, seq![b.last()]);
        assert(rest + seq![b.last()] =~= b);
        assert((seq![b.last()] + rest).to_multiset() =~= b.to_multiset());
        assert(after.to_multiset() =~= (a + b).to_multiset());
    }
}

/// A rate or a delay below zero is no rate or delay, and leaves the one there was.
pub proof fn law_a_negative_rate_is_none(k: KeyRepeat, rate: i32, delay: i32)
    ensures
        rate < 0 ==> k.configured(rate, delay).rate == k.rate,
        rate >= 0 ==> k.configured(rate, delay).rate == rate,
        delay < 0 ==> k.configured(rate, delay).delay_ms == k.delay_ms,
        delay >= 0 ==> k.configured(rate, delay).delay_ms == delay,
{
}

/// What went wrong is said by the object, the code and the text of the error.
pub proof fn law_an_error_says_what_went_wrong(object: u32, code: u32, said: Seq<char>, rest: Seq<u8>)
    requires
        encode_utf8(said).len() < 0xFFFF_FFFF,
    ensures
        conn::error_body(quad(object) + quad(code) + wire::str_bytes(said) + rest) == Some(
            (object as nat, code as nat, said),
        ),
{
    let body = quad(object) + quad(code) + wire::str_bytes(said) + rest;
    lemma_quad(object);
    lemma_quad(code);
    wire::law_string_round_trip(said, rest);
    assert(body.take(4) =~= quad(object));
    assert(body.subrange(4, 8) =~= quad(code));
    assert(body.skip(8) =~= wire::str_bytes(said) + rest);
}

/// The first error among the messages that came is the one reported: a message
/// that is none is passed over, and a message cut short says nothing yet.
pub proof fn law_the_first_error_is_reported(
    object: u32,
    opcode: u16,
    args: Seq<Arg<'_>>,
    rest: Seq<u8>,
    cut: int,
)
    requires
        wire::message_bytes(object, opcode, args).len() <= 0xFFFF,
        0 <= cut < wire::message_bytes(object, opcode, args).len(),
    ensures
        ({
            let msg = wire::message_bytes(object, opcode, args);
            let said = conn::error_body(wire::body_bytes(args));
            let found = conn::first_protocol_error(msg + rest);
            &&& object == 1 && opcode == 0 && said is Some ==> found == said
            &&& !(object == 1 && opcode == 0 && said is Some) ==> found
                == conn::first_protocol_error(rest)
            &&& conn::first_protocol_error(msg.take(cut)) is None
        }),
{
    let msg = wire::message_bytes(object, opcode, args);
    wire::law_header_round_trip(object, opcode, args, rest);
    wire::law_header_round_trip(object, opcode, args, Seq::empty());
    bytes::lemma_le_len(object as nat, 4);
    bytes::lemma_le_len(wire::size_opcode(8 + wire::body_bytes(args).len(), opcode), 4);
    assert((msg + rest).skip(msg.len() as int) =~= rest);
    assert((msg + rest).subrange(8, msg.len() as int) =~= wire::body_bytes(args));
    if cut >= 8 {
        let short = msg.take(cut);
        assert(msg + Seq::<u8>::empty() =~= msg);
        assert(short.take(4) =~= msg.take(4));
        assert(short.subrange(4, 8) =~= msg.subrange(4, 8));
    }
}

/// The time between two instants is counted in whole milliseconds, and there is
/// none before the first.
pub proof fn law_time_is_counted_in_milliseconds(earlier: Instant, now: Instant, n: nat)
    requires
        earlier.at() + n * 1_000_000 <= now.at() < earlier.at() + (n + 1) * 1_000_000,
    ensures
        now.ms_after(earlier) == n,
        n <= u32::MAX ==> client::ms_between(earlier, now) == n,
        earlier.at() != now.at() ==> earlier.ms_after(now) == 0 && client::ms_between(now, earlier)
            == 0,
{
    let apart = now.at() - earlier.at();
    assert(apart / 1_000_000 == n) by (nonlinear_arith)
        requires
            n * 1_000_000 <= apart < (n + 1) * 1_000_000,
    ;
}

proof fn lemma_frame_of(p: PresentView, buffer: u32, i: int)
    requires
        0 <= i <= p.frames.len(),
    ensures
        ({
            let k = p.frame_with(buffer, i);
            &&& i <= k <= p.frames.len()
            &&& forall|j: int| i <= j < k ==> (#[trigger] p.frames[j]).buffer_id != buffer
            &&& k < p.frames.len() ==> p.frames[k].buffer_id == buffer
        }),
    decreases p.frames.len() - i,
{
    if i < p.frames.len() && p.frames[i].buffer_id != buffer {
        lemma_frame_of(p, buffer, i + 1);
    }
}

proof fn lemma_retired_of(p: PresentView, buffer: u32, i: int)
    requires
        0 <= i <= p.retired.len(),
    ensures
        ({
            let k = p.retired_with(buffer, i);
            &&& i <= k <= p.retired.len()
            &&& forall|j: int| i <= j < k ==> (#[trigger] p.retired[j]).buffer_id != buffer
            &&& k < p.retired.len() ==> p.retired[k].buffer_id == buffer
        }),
    decreases p.retired.len() - i,
{
    if i < p.retired.len() && p.retired[i].buffer_id != buffer {
        lemma_retired_of(p, buffer, i + 1);
    }
}

/// A release of the buffer of a frame gives back that frame, as it was but for
/// not being held, and is known as the window's; a release of a buffer that the
/// window does not have changes nothing, and is said not to be the window's.
pub proof fn law_a_release_is_for_the_frame_of_its_buffer(
    p: PresentView,
    c: ConnView,
    buffer: u32,
    at: int,
)
    requires
        0 <= at < p.frames.len() ==> p.frames[at].buffer_id == buffer && forall|j: int|
            0 <= j < at ==> (#[trigger] p.frames[j]).buffer_id != buffer,
    ensures
        ({
            let (q, d, ours) = p.released(c, buffer);
            &&& 0 <= at < p.frames.len() ==> {
                &&& d == c
                &&& ours == Ok::<bool, Error>(true)
                &&& q.frames.len() == p.frames.len()
                &&& !q.frames[at].held
                &&& q.frames[at] == (FrameView { held: false, ..p.frames[at] })
                &&& forall|j: int|
                    0 <= j < p.frames.len() && j != at ==> #[trigger] q.frames[j] == p.frames[j]
                &&& q == PresentView { frames: q.frames, ..p }
            }
            &&& (forall|j: int|
                0 <= j < p.frames.len() ==> (#[trigger] p.frames[j]).buffer_id != buffer) && (
            forall|j: int|
                0 <= j < p.retired.len() ==> (#[trigger] p.retired[j]).buffer_id != buffer) ==> {
                &&& q == p
                &&& d == c
                &&& ours == Ok::<bool, Error>(false)
            }
        }),
{
    lemma_frame_of(p, buffer, 0);
    lemma_retired_of(p, buffer, 0);
}

/// A copy that could not be handed over leaves the launcher owning nothing; one
/// that there is nobody to hand to changes nothing at all.
pub proof fn law_a_failed_copy_owns_nothing(
    v: ClipView,
    c: ConnView,
    ids: IdsView,
    manager: Option<u32>,
    serial: u32,
    s: Seq<char>,
)
    ensures
        ({
            let (w, d, after, r) = v.owned(c, ids, manager, serial, s);
            &&& r is Err && manager is Some && v.device_id is Some ==> w.source_id is None
            &&& manager is None || v.device_id is None ==> r is Err && w == v && d == c && after
                == ids
            &&& r is Ok ==> w.source_id == Some(ids.id())
        }),
{
}

} // verus!
