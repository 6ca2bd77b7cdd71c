//! What the system's numbers, records and replies stand for.
use vstd::prelude::*;
use vstd::utf8::*;

use crate::app;
use crate::laws::session;
use crate::platform::bytes;
use crate::platform::conn;
use crate::platform::conn::{PacketView, SendStep};
use crate::platform::error::Error;
use crate::platform::freetype;
use crate::platform::freetype::{Bitmap, Glyph};
use crate::platform::fs;
use crate::platform::fs::{Kind, WriteStep};
use crate::platform::syscall;
use crate::platform::syscall::RawFd;
use crate::platform::text;
use crate::platform::uring;
use crate::platform::xkb;
use crate::socket;

verus! {

/// A send that took bytes, or was interrupted, goes on; one that would block
/// waits; any other failure is the system's error.
pub proof fn law_what_a_send_is_followed_by(result: int, s: Seq<PacketView>)
    requires
        -4096 < result <= 0x7FFF_FFFF,
        s.len() > 0,
        result <= s[0].bytes.len(),
    ensures
        result >= 0 ==> conn::send_step(result) == SendStep::Send,
        conn::send_step(-4) == SendStep::Send,
        conn::send_step(-11) == SendStep::Wait,
        result < 0 && result != -4 && result != -11 ==> conn::send_step(result)
            == SendStep::Failed(Error::of_errno((-result) as i32)),
        0 <= result < s[0].bytes.len() ==> conn::after_send(s, result) == seq![
            PacketView { bytes: s[0].bytes.skip(result), fds: Seq::empty() },
        ] + s.skip(1),
        result == s[0].bytes.len() ==> conn::after_send(s, result) == s.skip(1),
        conn::after_send(s, -11) == s,
{
    if 0 <= result < s[0].bytes.len() {
        let rest = PacketView { bytes: s[0].bytes.skip(result), fds: Seq::<RawFd>::empty() };
        assert(s.update(0, rest) =~= seq![rest] + s.skip(1));
    }
    assert(s.drop_first() =~= s.skip(1));
}

/// A write goes on from where it stopped until all is written; an interrupted one
/// starts again from the same place; any other failure is the system's error.
pub proof fn law_what_a_write_is_followed_by(len: int, off: int, result: int)
    requires
        0 <= off <= len <= 0x7FFF_FFFF,
        -4096 < result <= len - off,
    ensures
        result >= 0 && off + result < len ==> fs::write_step(len, off, result) == WriteStep::From(
            (off + result) as usize,
        ),
        result >= 0 && off + result == len ==> fs::write_step(len, off, result) == WriteStep::Done,
        fs::write_step(len, off, -4) == WriteStep::From(off as usize),
        result < 0 && result != -4 ==> fs::write_step(len, off, result) == WriteStep::Failed(
            Error::of_errno((-result) as i32),
        ),
{
}

/// The compositor's socket is by its name in the runtime directory, or where its
/// name says when that is a path from the root.
pub proof fn law_where_the_compositor_listens(dir: Seq<char>, name: Seq<char>)
    ensures
        conn::display_path(dir, seq!['/'] + name) == seq!['/'] + name,
        name.len() > 0 && name[0] != '/' ==> conn::display_path(dir, name) == dir + seq!['/']
            + name,
{
    assert((seq!['/'] + name)[0] == '/');
    assert(dir.push('/') =~= dir + seq!['/']);
}

/// What is asked of the ring for some files: each is opened for reading by its
/// path, and told by its place.
pub proof fn law_the_ring_opens_files(paths: Seq<u64>, i: int)
    requires
        0 <= i < paths.len() <= 0xFFFF,
    ensures
        ({
            let s = uring::open_sqes(paths);
            &&& s.len() == paths.len()
            &&& s[i].opcode == 18
            &&& s[i].fd == -100
            &&& s[i].addr == paths[i]
            &&& s[i].op_flags == 0
            &&& s[i].user_data == i
            &&& s[i].flags == 0 && s[i].len == 0 && s[i].off == 0
        }),
{
}

/// What is asked of the ring for a file that is open: it is read from its start
/// into its place of the buffer, told by its place, and linked to that it is
/// closed.
pub proof fn law_the_ring_reads_and_closes(fds: Seq<RawFd>, n: nat, bufs: u64, stride: int)
    requires
        0 < n <= fds.len() <= 0xFFFF,
        0 <= stride <= 0xFFFF,
        bufs + n * stride <= u64::MAX,
    ensures
        ({
            let before = uring::read_sqes(fds, (n - 1) as nat, bufs, stride);
            let s = uring::read_sqes(fds, n, bufs, stride);
            let i = n - 1;
            let (r, c) = (s[before.len() as int], s[before.len() as int + 1]);
            &&& fds[i] < 0 ==> s == before
            &&& fds[i] >= 0 ==> {
                &&& s.len() == before.len() + 2
                &&& s.take(before.len() as int) == before
                &&& r.opcode == 22 && r.fd == fds[i] && r.addr == bufs + i * stride && r.len
                    == stride && r.off == 0 && r.user_data == i && r.flags == 4
                &&& c.opcode == 19 && c.fd == fds[i] && c.flags == 0 && c.user_data != r.user_data
            }
        }),
{
    let before = uring::read_sqes(fds, (n - 1) as nat, bufs, stride);
    let s = uring::read_sqes(fds, n, bufs, stride);
    let i = n - 1;
    assert(0 <= i * stride <= n * stride) by (nonlinear_arith)
        requires
            0 <= i <= n,
            0 <= stride,
    ;
    assert(s.take(before.len() as int) =~= before);
}

/// Descriptors are sent in one control message: its length, its two kinds and the
/// descriptors, four bytes each, made up to a multiple of eight.
pub proof fn law_descriptors_in_a_control_message(fds: Seq<RawFd>)
    requires
        fds.len() <= 1000,
    ensures
        ({
            let b = syscall::rights_bytes(fds);
            &&& b.len() % 8 == 0
            &&& 16 + 4 * fds.len() <= b.len() < 16 + 4 * fds.len() + 8
            &&& b.take(16) == session::quad((16 + 4 * fds.len()) as u32) + session::quad(0)
                + session::quad(1) + session::quad(1)
            &&& b.subrange(16, 16 + 4 * fds.len() as int) == syscall::fd_bytes(fds)
        }),
{
    let n = (16 + 4 * fds.len()) as u32;
    session::law_numbers_are_stored_lowest_byte_first(n, 0, 0);
    session::law_numbers_are_stored_lowest_byte_first(1, 0, 0);
    lemma_fd_bytes_len(fds);
    let b = syscall::rights_bytes(fds);
    assert(bytes::le(n as nat, 8) == session::quad(n) + session::quad(0));
    assert(b.take(16) =~= session::quad(n) + session::quad(0) + session::quad(1) + session::quad(
        1,
    ));
    assert(b.subrange(16, 16 + 4 * fds.len() as int) =~= syscall::fd_bytes(fds));
}

proof fn lemma_fd_bytes_len(fds: Seq<RawFd>)
    ensures
        syscall::fd_bytes(fds).len() == 4 * fds.len(),
    decreases fds.len(),
{
    if fds.len() > 0 {
        lemma_fd_bytes_len(fds.drop_last());
        lemma_fd_bytes_len(fds.drop_first());
        bytes::lemma_le_len(fds.last() as u32 as nat, 4);
        bytes::lemma_le_len(fds[0] as u32 as nat, 4);
    }
}

/// The kinds of directory entries by their numbers: a directory, a file or a
/// link to one, and what has to be looked at.
pub proof fn law_the_kinds_of_directory_entries(d: u8)
    ensures
        d == 4 ==> fs::kind(d) == Kind::Directory,
        d == 8 || d == 10 ==> fs::kind(d) == Kind::File,
        d != 4 && d != 8 && d != 10 ==> fs::kind(d) == Kind::Unknown,
{
}

/// A name ends before its first zero, or with the bytes.
pub proof fn law_a_name_ends_at_a_zero(name: Seq<u8>, rest: Seq<u8>)
    requires
        !name.contains(0u8),
    ensures
        fs::until_nul(name + seq![0u8] + rest) == name,
        fs::until_nul(name) == name,
    decreases name.len(),
{
    let all = name + seq![0u8] + rest;
    if name.len() == 0 {
        assert(all[0] == 0);
        assert(fs::until_nul(all) =~= name);
        assert(fs::until_nul(name) =~= name);
    } else {
        let less = name.drop_first();
        assert(name.contains(name[0]));
        assert(!less.contains(0u8)) by {
            if less.contains(0u8) {
                let i = choose|i: int| 0 <= i < less.len() && less[i] == 0;
                assert(name[i + 1] == 0);
            }
        }
        law_a_name_ends_at_a_zero(less, rest);
        assert(all.drop_first() =~= less + seq![0u8] + rest);
        assert(all[0] == name[0]);
        assert(seq![name[0]] + less =~= name);
    }
}

/// A directory record: sixteen bytes of no interest here, its length, its kind,
/// its name and a zero, and what fills it up.
pub open spec fn dirent(head: Seq<u8>, kind: u8, name: Seq<u8>, fill: Seq<u8>) -> Seq<u8> {
    let n = (20 + name.len() + fill.len()) as int;
    head + seq![(n % 256) as u8, (n / 256) as u8, kind] + name + seq![0u8] + fill
}

/// Reading directory records gives the name and kind of each in turn, but for the
/// directory itself and its parent.
pub proof fn law_directory_records_are_read_in_turn(
    before: Seq<u8>,
    head: Seq<u8>,
    kind: u8,
    name: Seq<char>,
    fill: Seq<u8>,
    rest: Seq<u8>,
)
    requires
        head.len() == 16,
        name.len() > 0,
        !encode_utf8(name).contains(0u8),
        20 + encode_utf8(name).len() + fill.len() < 65536,
    ensures
        ({
            let record = dirent(head, kind, encode_utf8(name), fill);
            let all = before + record + rest;
            let at = before.len() as int;
            let after = fs::entries_from(all, at + record.len());
            &&& name != "."@ && name != ".."@ ==> fs::entries_from(all, at) == seq![
                (name, fs::kind(kind)),
            ] + after
            &&& name == "."@ || name == ".."@ ==> fs::entries_from(all, at) == after
        }),
{
    let b = encode_utf8(name);
    let record = dirent(head, kind, b, fill);
    let all = before + record + rest;
    let at = before.len() as int;
    let n = (20 + b.len() + fill.len()) as int;
    assert(record.len() == n);
    session::law_numbers_are_stored_lowest_byte_first(0, 0, n as u16);
    bytes::lemma_pow256_values();
    bytes::lemma_from_le_of_le(n as nat, 2);
    assert(all.subrange(at + 16, at + 18) =~= seq![(n % 256) as u8, (n / 256) as u8]);
    assert(all[at + 18] == kind);
    assert(all.subrange(at + 19, at + n) =~= b + seq![0u8] + fill);
    law_a_name_ends_at_a_zero(b, fill);
    encode_utf8_valid_utf8(name);
    encode_utf8_decode_utf8(name);
    text::lemma_byte_len_bounds(name);
}

/// The coverage of a glyph is its rows from the first to the last, each the bytes
/// of the bitmap from that row's start on.
pub proof fn law_a_glyphs_coverage_is_its_rows(b: Bitmap<'_>, n: nat, row: int, col: int)
    requires
        b.wf(),
        n <= b.rows,
        0 <= row < n,
        0 <= col < b.width,
    ensures
        freetype::packed(b, n).len() == n * b.width,
        0 <= row * b.width + col < n * b.width,
        freetype::packed(b, n)[row * b.width + col] == b.buffer@[b.start + row * b.pitch + col],
    decreases n,
{
    let before = freetype::packed(b, (n - 1) as nat);
    lemma_packed(b, (n - 1) as nat);
    lemma_packed(b, n);
    assert(0 <= b.offset(n - 1, 0));
    assert((n - 1) * b.width + b.width == n * b.width) by (nonlinear_arith);
    if row < n - 1 {
        law_a_glyphs_coverage_is_its_rows(b, (n - 1) as nat, row, col);
    } else {
        assert(0 <= row * b.width) by (nonlinear_arith)
            requires
                0 <= row,
                0 <= b.width,
        ;
    }
}

proof fn lemma_packed(b: Bitmap<'_>, n: nat)
    requires
        b.wf(),
        n <= b.rows,
    ensures
        freetype::packed(b, n).len() == n * b.width,
    decreases n,
{
    if n == 0 {
        assert(0 * b.width == 0) by (nonlinear_arith);
    } else {
        lemma_packed(b, (n - 1) as nat);
        assert(0 <= b.offset(n - 1, 0));
        assert((n - 1) * b.width + b.width == n * b.width) by (nonlinear_arith);
    }
}

/// A keymap is read without the zeros behind it, and a zero inside it stays.
pub proof fn law_a_keymap_ends_before_its_zeros(text: Seq<u8>, zeros: nat)
    requires
        text.len() > 0 ==> text.last() != 0,
    ensures
        xkb::trimmed(text + Seq::new(zeros, |i: int| 0u8)) == text,
    decreases zeros,
{
    let all = text + Seq::new(zeros, |i: int| 0u8);
    if zeros == 0 {
        assert(all =~= text);
    } else {
        law_a_keymap_ends_before_its_zeros(text, (zeros - 1) as nat);
        assert(all.last() == 0);
        assert(all.drop_last() =~= text + Seq::new((zeros - 1) as nat, |i: int| 0u8));
    }
}

/// A key types the one character its bytes spell, unless that is a control
/// character; more than one character, or bytes that spell none, type nothing.
pub proof fn law_what_a_key_types(s: Seq<char>, b: Seq<u8>)
    ensures
        s.len() == 1 && s[0] as int >= 0x20 && s[0] as int != 0x7f ==> xkb::typed(encode_utf8(s))
            == Some(s[0]),
        s.len() != 1 ==> xkb::typed(encode_utf8(s)) is None,
        s.len() == 1 && (s[0] as int) < 0x20 ==> xkb::typed(encode_utf8(s)) is None,
        s.len() == 1 && s[0] as int == 0x7f ==> xkb::typed(encode_utf8(s)) is None,
        (forall|t: Seq<char>| b != #[trigger] encode_utf8(t)) ==> xkb::typed(b) is None,
{
    encode_utf8_valid_utf8(s);
    encode_utf8_decode_utf8(s);
    if valid_utf8(b) {
        decode_utf8_encode_utf8(b);
        assert(b == encode_utf8(decode_utf8(b)));
    }
}

/// A path can be handed to the system when it has room for a zero behind it and
/// holds none itself.
pub proof fn law_the_paths_that_can_be_handed_over(path: Seq<char>)
    ensures
        fs::is_path(path) <==> encode_utf8(path).len() < 1024 && !encode_utf8(path).contains(0u8),
{
}

/// The numbers that others set: XKB counts keys from eight, there is one keymap
/// format, a bitmap of coverage has its mode, a socket's path its length, and the
/// caret is solid and hidden in turns of this many milliseconds.
pub proof fn law_the_numbers_others_set()
    ensures
        xkb::EVDEV_OFFSET == 8,
        xkb::XKB_KEYMAP_FORMAT_TEXT_V1 == 1,
        freetype::FT_PIXEL_MODE_GRAY == 2,
        conn::SUN_PATH_CAP == 108,
        syscall::O_NONBLOCK == 0x800,
        app::CURSOR_BLINK_MS == 530,
{
}

/// The socket that is tried is the one the compositor listens at.
pub proof fn law_the_socket_that_is_tried(dir: Seq<char>, name: Seq<char>)
    requires
        encode_utf8(dir + seq!['/'] + name).len() <= 1024,
        name.len() > 0,
    ensures
        name[0] != '/' ==> socket::path_tried(dir, name) == dir + seq!['/'] + name,
        name[0] == '/' ==> socket::path_tried(dir, name) == name,
{
    let none = Seq::<char>::empty();
    text::lemma_byte_len_bounds(none);
    text::lemma_encode_concat(dir + seq!['/'], name);
    text::lemma_encode_concat(dir, seq!['/']);
    assert(none + dir =~= dir);
    assert(none + name =~= name);
}

/// A socket's address is its path with zeros behind it, at least one of them, and
/// is as long as the two bytes of the family, the path and one zero.
pub proof fn law_the_address_of_a_socket(path: Seq<char>, room: Vec<u8>, len: u32, i: int)
    requires
        conn::addresses(path, Ok((room, len))),
        0 <= i < 108,
    ensures
        room@.len() == 108,
        encode_utf8(path).len() < 108,
        i < encode_utf8(path).len() ==> room@[i] == encode_utf8(path)[i],
        i >= encode_utf8(path).len() ==> room@[i] == 0,
        len == 3 + encode_utf8(path).len(),
{
}

/// A glyph without ink has no place, no size and no coverage, only its advance;
/// a bitmap is taken with all its coverage, or with none of it where it is larger
/// than any glyph.
pub proof fn law_a_glyph_without_ink(g: Glyph, advance: i32, b: Bitmap<'_>)
    ensures
        g.is_blank(advance) <==> g.left == 0 && g.top == 0 && g.width == 0 && g.rows == 0
            && g.coverage@.len() == 0 && g.advance == advance,
        b.rows * b.width > freetype::GLYPH_MAX ==> freetype::coverage_of(b).len() == 0,
        b.rows * b.width <= freetype::GLYPH_MAX ==> freetype::coverage_of(b) == freetype::packed(
            b,
            b.rows as nat,
        ),
{
    if g.coverage@.len() == 0 {
        assert(g.coverage@ =~= Seq::<u8>::empty());
    }
}

} // verus!
