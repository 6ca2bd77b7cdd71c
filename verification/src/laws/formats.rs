//! How the wire and the cache file spell what they hold.
use vstd::prelude::*;
use vstd::utf8::*;

use crate::cache;
use crate::laws::session;
use crate::platform::bytes;
use crate::platform::wire;
use crate::platform::wire::Arg;
use crate::protocol::layer_shell::KeyboardInteractivity;

verus! {

/// A message is the object's number, then the opcode with the length of the
/// whole message above it, and then the arguments.
pub proof fn law_a_message_on_the_wire(object: u32, opcode: u16, args: Seq<Arg<'_>>)
    requires
        8 + wire::body_bytes(args).len() < 65536,
    ensures
        wire::message_bytes(object, opcode, args) == session::quad(object) + session::quad(
            (opcode + 65536 * (8 + wire::body_bytes(args).len())) as u32,
        ) + wire::body_bytes(args),
{
    let n = wire::body_bytes(args).len();
    session::law_numbers_are_stored_lowest_byte_first(object, 0, 0);
    session::law_numbers_are_stored_lowest_byte_first(
        (opcode + 65536 * (8 + n)) as u32,
        0,
        0,
    );
}

/// Arguments stand one behind the other: numbers and objects in four bytes each,
/// a negative number by its two's complement, and a binding as the name, the
/// version and the new object's number.
pub proof fn law_the_arguments_on_the_wire(
    a: Seq<Arg<'_>>,
    b: Seq<Arg<'_>>,
    n: u32,
    i: i32,
    s: &str,
    version: u32,
)
    ensures
        wire::body_bytes(a + b) == wire::body_bytes(a) + wire::body_bytes(b),
        wire::arg_bytes(Arg::Uint(n)) == session::quad(n),
        wire::arg_bytes(Arg::Object(n)) == session::quad(n),
        wire::arg_bytes(Arg::NewId(n)) == session::quad(n),
        i >= 0 ==> wire::arg_bytes(Arg::Int(i)) == session::quad(i as u32),
        i < 0 ==> wire::arg_bytes(Arg::Int(i)) == session::quad((0x1_0000_0000 + i) as u32),
        wire::arg_bytes(Arg::Bind { interface: s, version, new_id: n }) == wire::arg_bytes(
            Arg::Str(s),
        ) + session::quad(version) + session::quad(n),
    decreases b.len(),
{
    session::law_numbers_are_stored_lowest_byte_first(n, 0, 0);
    session::law_numbers_are_stored_lowest_byte_first(version, 0, 0);
    session::law_numbers_are_stored_lowest_byte_first(i as u32, 0, 0);
    assert(i < 0 ==> i as u32 == (0x1_0000_0000 + i) as u32) by (bit_vector);
    if b.len() == 0 {
        assert(a + b =~= a);
        assert(wire::body_bytes(a) + wire::body_bytes(b) =~= wire::body_bytes(a));
    } else {
        law_the_arguments_on_the_wire(a, b.drop_last(), n, i, s, version);
        assert((a + b).drop_last() =~= a + b.drop_last());
        assert(wire::body_bytes(a + b) =~= wire::body_bytes(a) + wire::body_bytes(b));
    }
}

/// A string is the count of its bytes with one more, the bytes, and then at least
/// one zero and as many as make it end at a multiple of four.
pub proof fn law_a_string_on_the_wire(s: &str)
    requires
        encode_utf8(s@).len() < 0xFFFF_FFFF,
    ensures
        exists|zeros: Seq<u8>|
            wire::arg_bytes(Arg::Str(s)) == #[trigger] (session::quad(
                (encode_utf8(s@).len() + 1) as u32,
            ) + encode_utf8(s@) + zeros) && 1 <= zeros.len() <= 4 && (encode_utf8(s@).len()
                + zeros.len()) % 4 == 0 && forall|i: int|
                0 <= i < zeros.len() ==> #[trigger] zeros[i] == 0,
{
    let b = encode_utf8(s@);
    let n = (b.len() + 1) as u32;
    session::law_numbers_are_stored_lowest_byte_first(n, 0, 0);
    let zeros = seq![0u8] + Seq::new(wire::padding(b.len() + 1), |i: int| 0u8);
    assert(wire::arg_bytes(Arg::Str(s)) =~= session::quad(n) + b + zeros);
}

/// The keyboard is left alone, taken whole or taken when the window is picked, by
/// these numbers.
pub proof fn law_the_keyboard_modes()
    ensures
        KeyboardInteractivity::Off.spec_value() == 0,
        KeyboardInteractivity::Exclusive.spec_value() == 1,
        KeyboardInteractivity::OnDemand.spec_value() == 2,
{
}

/// A string in the cache is the count of its bytes in two bytes and the bytes.
pub proof fn law_a_string_in_the_cache(s: Seq<char>)
    requires
        encode_utf8(s).len() < 65536,
    ensures
        ({
            let n = encode_utf8(s).len() as int;
            cache::str_bytes(s) == seq![(n % 256) as u8, (n / 256) as u8] + encode_utf8(s)
        }),
{
    session::law_numbers_are_stored_lowest_byte_first(0, 0, encode_utf8(s).len() as u16);
}

/// The applications in the cache stand one behind the other, each its name and
/// its command, and so do the recent names.
pub proof fn law_the_records_of_the_cache(
    a: Seq<(Seq<char>, Seq<char>)>,
    b: Seq<(Seq<char>, Seq<char>)>,
    name: Seq<char>,
    command: Seq<char>,
    p: Seq<Seq<char>>,
    q: Seq<Seq<char>>,
)
    ensures
        cache::records_bytes(a + b) == cache::records_bytes(a) + cache::records_bytes(b),
        cache::records_bytes(seq![(name, command)]) == cache::str_bytes(name) + cache::str_bytes(
            command,
        ),
        cache::names_bytes(p + q) == cache::names_bytes(p) + cache::names_bytes(q),
        cache::names_bytes(seq![name]) == cache::str_bytes(name),
{
    lemma_records(a, b);
    lemma_names(p, q);
    reveal_with_fuel(cache::records_bytes, 2);
    reveal_with_fuel(cache::names_bytes, 2);
    let none = Seq::<u8>::empty();
    assert(seq![(name, command)].drop_last() =~= Seq::<(Seq<char>, Seq<char>)>::empty());
    assert(seq![(name, command)].drop_first() =~= Seq::<(Seq<char>, Seq<char>)>::empty());
    assert(seq![name].drop_last() =~= Seq::<Seq<char>>::empty());
    assert(seq![name].drop_first() =~= Seq::<Seq<char>>::empty());
    assert(cache::records_bytes(seq![(name, command)]) =~= cache::str_bytes(name)
        + cache::str_bytes(command));
    assert(cache::names_bytes(seq![name]) =~= cache::str_bytes(name));
}

proof fn lemma_records(a: Seq<(Seq<char>, Seq<char>)>, b: Seq<(Seq<char>, Seq<char>)>)
    ensures
        cache::records_bytes(a + b) == cache::records_bytes(a) + cache::records_bytes(b),
    decreases b.len(),
{
    if b.len() == 0 {
        assert(a + b =~= a);
        assert(cache::records_bytes(a) + cache::records_bytes(b) =~= cache::records_bytes(a));
    } else {
        lemma_records(a, b.drop_last());
        assert((a + b).drop_last() =~= a + b.drop_last());
        assert(cache::records_bytes(a + b) =~= cache::records_bytes(a) + cache::records_bytes(b));
    }
}

proof fn lemma_names(a: Seq<Seq<char>>, b: Seq<Seq<char>>)
    ensures
        cache::names_bytes(a + b) == cache::names_bytes(a) + cache::names_bytes(b),
    decreases b.len(),
{
    if b.len() == 0 {
        assert(a + b =~= a);
        assert(cache::names_bytes(a) + cache::names_bytes(b) =~= cache::names_bytes(a));
    } else {
        lemma_names(a, b.drop_last());
        assert((a + b).drop_last() =~= a + b.drop_last());
        assert(cache::names_bytes(a + b) =~= cache::names_bytes(a) + cache::names_bytes(b));
    }
}

/// The cache file opens with its mark and its version, then the fingerprint of
/// the directories, then the count of the applications and the applications,
/// then the count of the recent names and the names, the newest first and no
/// more than are kept.
pub proof fn law_the_cache_file(
    entries: Seq<(Seq<char>, Seq<char>)>,
    low: u32,
    high: u32,
    recents: Seq<Seq<char>>,
)
    requires
        entries.len() < 0x1_0000_0000,
        recents.len() <= 20,
    ensures
        cache::file_bytes(entries, (low + 0x1_0000_0000 * high) as nat, recents) == seq![
            0x42u8,
            0x4e,
            0x4b,
            0x4c,
            2,
        ] + session::quad(low) + session::quad(high) + session::quad(entries.len() as u32)
            + cache::records_bytes(entries) + seq![recents.len() as u8, 0] + cache::names_bytes(
            recents,
        ),
{
    session::law_numbers_are_stored_lowest_byte_first(low, high, recents.len() as u16);
    session::law_numbers_are_stored_lowest_byte_first(entries.len() as u32, 0, 0);
    assert(bytes::le(recents.len(), 2) =~= seq![recents.len() as u8, 0]);
    assert(cache::magic() + seq![cache::VERSION] =~= seq![0x42u8, 0x4e, 0x4b, 0x4c, 2]);
    assert(cache::file_bytes(entries, (low + 0x1_0000_0000 * high) as nat, recents) =~= seq![
        0x42u8,
        0x4e,
        0x4b,
        0x4c,
        2,
    ] + session::quad(low) + session::quad(high) + session::quad(entries.len() as u32)
        + cache::records_bytes(entries) + seq![recents.len() as u8, 0] + cache::names_bytes(
        recents,
    ));
}

/// Only a file that opens with the mark and the version of the cache is read.
pub proof fn law_only_a_cache_file_is_read(data: Seq<u8>)
    ensures
        cache::decoded(data) is Some ==> data.len() >= 17 && data[0] == 0x42 && data[1] == 0x4e
            && data[2] == 0x4b && data[3] == 0x4c && data[4] == 2,
{
    if cache::decoded(data) is Some {
        assert(data.take(4)[0] == data[0] && data.take(4)[1] == data[1]);
        assert(data.take(4)[2] == data[2] && data.take(4)[3] == data[3]);
    }
}

/// Of the applications and the recent names in a cache file those are kept that
/// fit, in their order.
pub proof fn law_a_cache_keeps_what_fits(
    records: Seq<(Seq<char>, Seq<char>)>,
    names: Seq<Seq<char>>,
)
    requires
        records.len() <= 1024,
    ensures
        cache::storable(records) == records.filter(
            |r: (Seq<char>, Seq<char>)|
                encode_utf8(r.0).len() <= 256 && encode_utf8(r.1).len() <= 1024,
        ),
        cache::fitting(names) == names.filter(|n: Seq<char>| encode_utf8(n).len() <= 256),
{
    lemma_storable(records);
    lemma_fitting(names);
}

proof fn lemma_storable(records: Seq<(Seq<char>, Seq<char>)>)
    requires
        records.len() <= 1024,
    ensures
        cache::storable(records) == records.filter(
            |r: (Seq<char>, Seq<char>)|
                encode_utf8(r.0).len() <= 256 && encode_utf8(r.1).len() <= 1024,
        ),
        cache::storable(records).len() <= records.len(),
    decreases records.len(),
{
    reveal(Seq::filter);
    if records.len() > 0 {
        lemma_storable(records.drop_last());
    }
}

proof fn lemma_fitting(names: Seq<Seq<char>>)
    ensures
        cache::fitting(names) == names.filter(|n: Seq<char>| encode_utf8(n).len() <= 256),
    decreases names.len(),
{
    reveal(Seq::filter);
    if names.len() > 0 {
        lemma_fitting(names.drop_last());
    }
}

proof fn lemma_str_cut(b: Seq<u8>, k: int)
    requires
        cache::get_str(b) is Some,
        0 <= k < b.len() - (cache::get_str(b)->0).1.len(),
    ensures
        cache::get_str(b.take(k)) is None,
{
    if k >= 2 {
        assert(b.take(k).take(2) =~= b.take(2));
    }
}

proof fn lemma_names_cut(b: Seq<u8>, n: nat, k: int)
    requires
        cache::get_names(b, n) is Some,
        0 <= k <= b.len(),
    ensures
        (cache::get_names(b, n)->0).1.len() <= b.len(),
        (cache::get_names(b, n)->0).1 == b.skip(b.len() - (cache::get_names(b, n)->0).1.len()),
        k < b.len() - (cache::get_names(b, n)->0).1.len() ==> cache::get_names(b.take(k), n) is None,
        k >= b.len() - (cache::get_names(b, n)->0).1.len() ==> cache::get_names(b.take(k), n)
            == Some(
            (
                (cache::get_names(b, n)->0).0,
                b.take(k).skip(b.len() - (cache::get_names(b, n)->0).1.len()),
            ),
        ),
    decreases n,
{
    if n == 0 {
        assert(b.skip(0) =~= b);
        assert(b.take(k).skip(0) =~= b.take(k));
    } else {
        let m = (n - 1) as nat;
        lemma_names_cut(b, m, k);
        let rest = (cache::get_names(b, m)->0).1;
        let used = b.len() - rest.len();
        let end = (cache::get_str(rest)->0).1;
        let here = rest.len() - end.len();
        assert(end =~= b.skip(b.len() - end.len()));
        if k >= used {
            assert(b.take(k).skip(used) =~= rest.take(k - used));
            if k - used < here {
                lemma_str_cut(rest, k - used);
            } else {
                let c = rest.take(k - used);
                assert(c.take(2) =~= rest.take(2));
                let size = bytes::from_le(rest.take(2)) as int;
                assert(c.subrange(2, 2 + size) =~= rest.subrange(2, 2 + size));
                assert(c.skip(2 + size) =~= b.take(k).skip(used + here));
            }
        }
    }
}

/// Recent names cut short anywhere are none at all.
pub proof fn law_recents_cut_short_are_none(names: Seq<Seq<char>>, k: int)
    requires
        names.len() <= 20,
        forall|i: int| 0 <= i < names.len() ==> encode_utf8(#[trigger] names[i]).len() <= 256,
        0 <= k < cache::recents_bytes(names).len(),
    ensures
        cache::get_recents(cache::recents_bytes(names).take(k)) == Seq::<Seq<char>>::empty(),
{
    let b = cache::recents_bytes(names);
    let cut = b.take(k);
    bytes::lemma_le_len(names.len(), 2);
    bytes::lemma_pow256_values();
    bytes::lemma_from_le_of_le(names.len(), 2);
    if k >= 2 {
        assert(b.take(2) =~= bytes::le(names.len(), 2));
        assert(cut.take(2) =~= b.take(2));
        let body = cache::names_bytes(names);
        assert(b.skip(2) =~= body);
        assert(cut.skip(2) =~= body.take(k - 2));
        lemma_names_read(names, Seq::empty());
        assert(body + Seq::<u8>::empty() =~= body);
        lemma_names_cut(body, names.len(), k - 2);
    }
}

proof fn lemma_names_read(names: Seq<Seq<char>>, rest: Seq<u8>)
    requires
        forall|i: int| 0 <= i < names.len() ==> encode_utf8(#[trigger] names[i]).len() <= 256,
    ensures
        cache::get_names(cache::names_bytes(names) + rest, names.len()) == Some((names, rest)),
    decreases names.len(),
{
    if names.len() == 0 {
        assert(cache::names_bytes(names) + rest =~= rest);
        assert(names =~= Seq::<Seq<char>>::empty());
    } else {
        let less = names.drop_last();
        let last = names.last();
        assert(names[names.len() - 1] == last);
        assert forall|i: int| 0 <= i < less.len() implies encode_utf8(#[trigger] less[i]).len()
            <= 256 by {
            assert(less[i] == names[i]);
        }
        let tail = cache::str_bytes(last) + rest;
        lemma_names_read(less, tail);
        lemma_names(less, seq![last]);
        assert(less + seq![last] =~= names);
        reveal_with_fuel(cache::names_bytes, 2);
        assert(seq![last].drop_last() =~= Seq::<Seq<char>>::empty());
        assert(seq![last].drop_first() =~= Seq::<Seq<char>>::empty());
        assert(cache::names_bytes(seq![last]) =~= cache::str_bytes(last));
        assert(cache::names_bytes(names) + rest =~= cache::names_bytes(less) + tail);
        cache::law_string_round_trip(last, rest);
        assert(less.push(last) =~= names);
    }
}

} // verus!
