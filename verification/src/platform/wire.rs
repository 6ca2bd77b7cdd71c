//! Wayland wire-format encoding and decoding.
//!
//! A message is: u32 object_id, then u32 (size << 16 | opcode) where size is the
//! whole message length in bytes including this 8-byte header, then the
//! arguments. Everything is little-endian, the byte order of the target, and
//! every argument is padded to a 4-byte boundary. File descriptors are not in
//! the byte stream; they travel beside it.
use vstd::prelude::*;
use vstd::slice::slice_subrange;
use vstd::utf8::*;

use crate::platform::arena::ArrayVec;
use crate::platform::bytes;
use crate::platform::bytes::{from_le_bytes, to_le_bytes, Cursor};
use crate::platform::error::{Error, Result};
use crate::platform::text;
use crate::platform::text::str_from_utf8;

verus! {

/// Header size in bytes (object_id + size_opcode).
pub const HEADER_SIZE: usize = 8;

/// Largest message the wire format can express: the size field is 16 bits.
pub const MAX_MESSAGE_SIZE: usize = 65536;

/// Body capacity of one received message.
pub const MSG_BODY_CAP: usize = 16384;

/// A fully received event: its target object, opcode, and the argument bytes
/// after the header.
pub struct Message {
    pub object: u32,
    pub opcode: u16,
    pub body: ArrayVec<u8, MSG_BODY_CAP>,
}

impl Message {
    /// A reader over this message's argument bytes.
    pub fn reader(&self) -> (r: Reader<'_>)
        ensures
            r.wf(),
            r.rest() == self.body@,
    {
        Reader::new(self.body.as_slice())
    }
}

/// One request argument. The Bind variant is the generic new-id used only by
/// wl_registry.bind, where the interface is not known statically and is
/// therefore sent inline as interface-string + version + id.
pub enum Arg<'a> {
    Int(i32),
    Uint(u32),
    Object(u32),
    NewId(u32),
    Str(&'a str),
    Bind { interface: &'a str, version: u32, new_id: u32 },
}

/// How many zero bytes pad a string of n bytes, its NUL included, to a 4-byte
/// boundary.
pub open spec fn padding(n: nat) -> nat {
    ((4 - n % 4) % 4) as nat
}

/// A string on the wire: its length with the trailing NUL, its bytes, the NUL,
/// and zero padding up to a 4-byte boundary.
pub open spec fn str_bytes(s: Seq<char>) -> Seq<u8> {
    let b = encode_utf8(s);
    bytes::le(b.len() + 1, 4) + b + seq![0u8] + Seq::new(padding(b.len() + 1), |i: int| 0u8)
}

/// A u32 on the wire.
pub open spec fn u32_bytes(v: u32) -> Seq<u8> {
    bytes::le(v as nat, 4)
}

/// An argument on the wire.
pub open spec fn arg_bytes(a: Arg<'_>) -> Seq<u8> {
    match a {
        Arg::Int(v) => u32_bytes(v as u32),
        Arg::Uint(v) => u32_bytes(v),
        Arg::Object(v) => u32_bytes(v),
        Arg::NewId(v) => u32_bytes(v),
        Arg::Str(s) => str_bytes(s@),
        Arg::Bind { interface, version, new_id } => str_bytes(interface@) + u32_bytes(version)
            + u32_bytes(new_id),
    }
}

/// The arguments of a request, one after the other.
pub open spec fn body_bytes(args: Seq<Arg<'_>>) -> Seq<u8>
    decreases args.len(),
{
    if args.len() == 0 {
        Seq::empty()
    } else {
        body_bytes(args.drop_last()) + arg_bytes(args.last())
    }
}

/// The second header word: the size in the high half, the opcode in the low.
pub open spec fn size_opcode(size: nat, opcode: u16) -> nat {
    size * 0x1_0000 + opcode as nat
}

/// A whole request.
pub open spec fn message_bytes(object: u32, opcode: u16, args: Seq<Arg<'_>>) -> Seq<u8> {
    let body = body_bytes(args);
    u32_bytes(object) + bytes::le(size_opcode(HEADER_SIZE as nat + body.len(), opcode), 4) + body
}

/// Append an encoded request to buf.
///
/// Err when the request does not fit, and the sink is left holding exactly the
/// whole requests it held before: the sink is a stream the compositor reads in
/// order, and a half-written request in front of the next one is a parse error
/// it drops the connection over.
pub fn encode<const N: usize>(
    buf: &mut ArrayVec<u8, N>,
    object: u32,
    opcode: u16,
    args: &[Arg<'_>],
) -> (r: Result<()>)
    requires
        old(buf).wf(),
    ensures
        final(buf).wf(),
        ({
            let msg = message_bytes(object, opcode, args@);
            if old(buf)@.len() + msg.len() > N {
                &&& r == Err::<(), Error>(Error::of_msg("wayland send buffer full"))
                &&& final(buf)@ == old(buf)@
            } else if msg.len() > 0xFFFF {
                &&& r == Err::<(), Error>(Error::of_msg("wayland request too large to encode"))
                &&& final(buf)@ == old(buf)@
            } else {
                &&& r == Ok::<(), Error>(())
                &&& final(buf)@ == old(buf)@ + msg
            }
        }),
{
    let start: usize = buf.len();
    let r = encode_into(buf, object, opcode, args, start);
    if r.is_err() {
        buf.truncate(start);
    }
    r
}

fn encode_into<const N: usize>(
    buf: &mut ArrayVec<u8, N>,
    object: u32,
    opcode: u16,
    args: &[Arg<'_>],
    start: usize,
) -> (r: Result<()>)
    requires
        old(buf).wf(),
        start == old(buf)@.len(),
    ensures
        final(buf).wf(),
        final(buf)@.len() >= start,
        final(buf)@.take(start as int) == old(buf)@,
        ({
            let msg = message_bytes(object, opcode, args@);
            if old(buf)@.len() + msg.len() > N {
                r == Err::<(), Error>(Error::of_msg("wayland send buffer full"))
            } else if msg.len() > 0xFFFF {
                r == Err::<(), Error>(Error::of_msg("wayland request too large to encode"))
            } else {
                &&& r == Ok::<(), Error>(())
                &&& final(buf)@ == old(buf)@ + msg
            }
        }),
{
    let ghost orig = buf@;
    let ghost msg = message_bytes(object, opcode, args@);
    let ghost body = body_bytes(args@);
    proof {
        bytes::lemma_le_len(object as nat, 4);
        bytes::lemma_le_len(0, 4);
        bytes::lemma_le_len(size_opcode(HEADER_SIZE as nat + body.len(), opcode), 4);
        assert(msg.len() == 8 + body.len());
    }
    put_u32(buf, object)?;
    put_u32(buf, 0)?;
    let ghost head = u32_bytes(object) + u32_bytes(0);
    assert(buf@ == orig + head);
    let mut i: usize = 0;
    assert(args@.take(0) == Seq::<Arg<'_>>::empty());
    while i < args.len()
        invariant
            i <= args@.len(),
            buf.wf(),
            buf@ == orig + head + body_bytes(args@.take(i as int)),
            orig.len() == start,
            head.len() == 8,
            old(buf)@ == orig,
            msg.len() == 8 + body_bytes(args@).len(),
            msg == message_bytes(object, opcode, args@),
        decreases args.len() - i,
    {
        proof {
            lemma_body_prefix(args@, i + 1);
            assert(args@.take(i + 1).drop_last() == args@.take(i as int));
            assert(args@.take(i + 1).last() == args@[i as int]);
        }
        put_arg(buf, &args[i])?;
        assert(buf@ == orig + head + body_bytes(args@.take(i + 1)));
        i += 1;
    }
    assert(args@.take(args@.len() as int) == args@);
    // The size lives in the header's high 16 bits, so a request has to fit 16
    // bits: a size that wrapped would truncate the length into the opcode bits.
    let size: usize = buf.len() - start;
    if size > 0xFFFF {
        return Err(Error::msg("wayland request too large to encode"));
    }
    let word: u64 = size as u64 * 0x1_0000 + opcode as u64;
    let w = to_le_bytes(word, 4);
    proof {
        bytes::lemma_le_len(word as nat, 4);
    }
    buf.set(start + 4, w[0]);
    buf.set(start + 5, w[1]);
    buf.set(start + 6, w[2]);
    buf.set(start + 7, w[3]);
    assert(buf@ == orig + msg);
    Ok(())
}

/// A prefix of the arguments takes no more bytes than all of them.
proof fn lemma_body_prefix(args: Seq<Arg<'_>>, i: int)
    requires
        0 <= i <= args.len(),
    ensures
        body_bytes(args.take(i)).len() <= body_bytes(args).len(),
    decreases args.len(),
{
    if i == args.len() {
        assert(args.take(i) == args);
    } else {
        lemma_body_prefix(args.drop_last(), i);
        assert(args.drop_last().take(i) == args.take(i));
    }
}

/// Append bytes, or report the sink full. What was there stays in front.
fn put<const N: usize>(buf: &mut ArrayVec<u8, N>, data: &[u8]) -> (r: Result<()>)
    requires
        old(buf).wf(),
    ensures
        final(buf).wf(),
        final(buf)@.len() >= old(buf)@.len(),
        final(buf)@.take(old(buf)@.len() as int) == old(buf)@,
        old(buf)@.len() + data@.len() <= N ==> r == Ok::<(), Error>(()) && final(buf)@ == old(
            buf,
        )@ + data@,
        old(buf)@.len() + data@.len() > N ==> r == Err::<(), Error>(
            Error::of_msg("wayland send buffer full"),
        ),
{
    match buf.extend_from_slice(data) {
        Ok(()) => Ok(()),
        Err(_) => Err(Error::msg("wayland send buffer full")),
    }
}

fn put_u32<const N: usize>(buf: &mut ArrayVec<u8, N>, v: u32) -> (r: Result<()>)
    requires
        old(buf).wf(),
    ensures
        final(buf).wf(),
        final(buf)@.len() >= old(buf)@.len(),
        final(buf)@.take(old(buf)@.len() as int) == old(buf)@,
        old(buf)@.len() + 4 <= N ==> r == Ok::<(), Error>(()) && final(buf)@ == old(buf)@
            + u32_bytes(v),
        old(buf)@.len() + 4 > N ==> r == Err::<(), Error>(
            Error::of_msg("wayland send buffer full"),
        ),
{
    let b = to_le_bytes(v as u64, 4);
    proof {
        bytes::lemma_le_len(v as nat, 4);
    }
    put(buf, b.as_slice())
}

fn put_str<const N: usize>(buf: &mut ArrayVec<u8, N>, s: &str) -> (r: Result<()>)
    requires
        old(buf).wf(),
    ensures
        final(buf).wf(),
        final(buf)@.len() >= old(buf)@.len(),
        final(buf)@.take(old(buf)@.len() as int) == old(buf)@,
        old(buf)@.len() + str_bytes(s@).len() <= N ==> r == Ok::<(), Error>(()) && final(buf)@
            == old(buf)@ + str_bytes(s@),
        old(buf)@.len() + str_bytes(s@).len() > N ==> r == Err::<(), Error>(
            Error::of_msg("wayland send buffer full"),
        ),
{
    let b = s.as_bytes();
    proof {
        bytes::lemma_le_len(b@.len() + 1, 4);
    }
    if b.len() >= N {
        return Err(Error::msg("wayland send buffer full"));
    }
    let len: usize = b.len() + 1;
    let ghost orig = buf@;
    let prefix = to_le_bytes(len as u64, 4);
    put(buf, prefix.as_slice())?;
    put(buf, b)?;
    let nul: [u8; 1] = [0];
    put(buf, nul.as_slice())?;
    let pad: usize = (4 - (len % 4)) % 4;
    let zeros: [u8; 3] = [0, 0, 0];
    let r = put(buf, slice_subrange(zeros.as_slice(), 0, pad));
    proof {
        assert(zeros@.subrange(0, pad as int) == Seq::new(padding(b@.len() + 1), |i: int| 0u8));
        assert(nul@ == seq![0u8]);
        if r is Ok {
            assert(buf@ == orig + str_bytes(s@));
        }
    }
    r
}

fn put_arg<const N: usize>(buf: &mut ArrayVec<u8, N>, arg: &Arg<'_>) -> (r: Result<()>)
    requires
        old(buf).wf(),
    ensures
        final(buf).wf(),
        final(buf)@.len() >= old(buf)@.len(),
        final(buf)@.take(old(buf)@.len() as int) == old(buf)@,
        old(buf)@.len() + arg_bytes(*arg).len() <= N ==> r == Ok::<(), Error>(()) && final(buf)@
            == old(buf)@ + arg_bytes(*arg),
        old(buf)@.len() + arg_bytes(*arg).len() > N ==> r == Err::<(), Error>(
            Error::of_msg("wayland send buffer full"),
        ),
{
    let ghost orig = buf@;
    match arg {
        Arg::Int(v) => {
            proof {
                bytes::lemma_le_len((*v as u32) as nat, 4);
            }
            put_u32(buf, *v as u32)
        },
        Arg::Uint(v) | Arg::Object(v) | Arg::NewId(v) => {
            proof {
                bytes::lemma_le_len(*v as nat, 4);
            }
            put_u32(buf, *v)
        },
        Arg::Str(s) => put_str(buf, s),
        Arg::Bind { interface, version, new_id } => {
            proof {
                bytes::lemma_le_len(*version as nat, 4);
                bytes::lemma_le_len(*new_id as nat, 4);
            }
            put_str(buf, interface)?;
            put_u32(buf, *version)?;
            let r = put_u32(buf, *new_id);
            proof {
                if r is Ok {
                    assert(buf@ == orig + arg_bytes(*arg));
                }
            }
            r
        },
    }
}

/// A signed 24.8 fixed-point number, as wl_fixed carries pointer coordinates:
/// `raw` counts 256ths of a pixel.
#[derive(Clone, Copy, Debug, PartialEq, Eq, Structural)]
pub struct Fixed {
    pub raw: i32,
}

/// The string a message holds at the front of `rest`, and how many bytes
/// reading it consumes. Reading stops where it fails.
pub open spec fn read_string(rest: Seq<u8>) -> (core::result::Result<Seq<char>, Error>, nat) {
    let len = bytes::from_le(rest.take(4));
    let pad = padding(len);
    if rest.len() < 4 {
        (Err(Error::of_msg("truncated wayland message")), 0)
    } else if len == 0 {
        (Ok(Seq::empty()), 4)
    } else if rest.len() < 4 + len {
        (Err(Error::of_msg("truncated wayland message")), 4)
    } else if rest.len() < 4 + len + pad {
        (Err(Error::of_msg("truncated wayland message")), 4 + len)
    } else if rest[4 + len - 1] != 0 {
        (Err(Error::of_msg("wayland string is not NUL-terminated")), 4 + len + pad)
    } else if !valid_utf8(rest.subrange(4, 4 + len - 1)) {
        (Err(Error::of_msg("invalid utf-8 in wayland string")), 4 + len + pad)
    } else {
        (Ok(decode_utf8(rest.subrange(4, 4 + len - 1))), 4 + len + pad)
    }
}

/// Sequential reader over an event's argument bytes.
///
/// Strings come back as slices into the message, so reading one costs no copy
/// and imposes no length limit: the strings the compositor relays are chosen by
/// other clients, and a cap here would turn an exotic one into a dead session.
pub struct Reader<'a> {
    cursor: Cursor<'a>,
}

impl<'a> Reader<'a> {
    pub closed spec fn wf(&self) -> bool {
        self.cursor.wf()
    }

    /// The argument bytes not read yet.
    pub closed spec fn rest(&self) -> Seq<u8> {
        self.cursor.rest()
    }

    pub fn new(data: &'a [u8]) -> (r: Self)
        ensures
            r.wf(),
            r.rest() == data@,
    {
        Self { cursor: Cursor::new(data) }
    }

    fn take(&mut self, n: usize) -> (r: Result<&'a [u8]>)
        requires
            old(self).wf(),
        ensures
            final(self).wf(),
            n <= old(self).rest().len() ==> r is Ok && r->Ok_0@ == old(self).rest().take(n as int)
                && final(self).rest() == old(self).rest().skip(n as int),
            n > old(self).rest().len() ==> r == Err::<&'a [u8], Error>(
                Error::of_msg("truncated wayland message"),
            ) && final(self).rest() == old(self).rest(),
    {
        match self.cursor.take(n) {
            Some(b) => Ok(b),
            None => Err(Error::msg("truncated wayland message")),
        }
    }

    pub fn u32(&mut self) -> (r: Result<u32>)
        requires
            old(self).wf(),
        ensures
            final(self).wf(),
            old(self).rest().len() >= 4 ==> r is Ok && r->Ok_0 == bytes::from_le(
                old(self).rest().take(4),
            ) && final(self).rest() == old(self).rest().skip(4),
            old(self).rest().len() < 4 ==> r == Err::<u32, Error>(
                Error::of_msg("truncated wayland message"),
            ) && final(self).rest() == old(self).rest(),
    {
        let b = self.take(4)?;
        let v: u64 = from_le_bytes(b);
        proof {
            bytes::lemma_le_of_from_le(b@);
            bytes::lemma_pow256_values();
        }
        Ok(v as u32)
    }

    pub fn i32(&mut self) -> (r: Result<i32>)
        requires
            old(self).wf(),
        ensures
            final(self).wf(),
            old(self).rest().len() >= 4 ==> r is Ok && r->Ok_0 == (bytes::from_le(
                old(self).rest().take(4),
            ) as u32) as i32 && final(self).rest() == old(self).rest().skip(4),
            old(self).rest().len() < 4 ==> r == Err::<i32, Error>(
                Error::of_msg("truncated wayland message"),
            ) && final(self).rest() == old(self).rest(),
    {
        let v: u32 = self.u32()?;
        Ok(v as i32)
    }

    /// Read a wl_fixed: a signed 24.8 fixed-point number. Used for pointer
    /// coordinates.
    pub fn fixed(&mut self) -> (r: Result<Fixed>)
        requires
            old(self).wf(),
        ensures
            final(self).wf(),
            old(self).rest().len() >= 4 ==> r is Ok && r->Ok_0.raw == (bytes::from_le(
                old(self).rest().take(4),
            ) as u32) as i32 && final(self).rest() == old(self).rest().skip(4),
            old(self).rest().len() < 4 ==> r == Err::<Fixed, Error>(
                Error::of_msg("truncated wayland message"),
            ) && final(self).rest() == old(self).rest(),
    {
        let raw: i32 = self.i32()?;
        Ok(Fixed { raw })
    }

    /// Read a string argument, dropping its trailing NUL and its padding.
    pub fn string(&mut self) -> (r: Result<&'a str>)
        requires
            old(self).wf(),
        ensures
            final(self).wf(),
            final(self).rest() == old(self).rest().skip(read_string(old(self).rest()).1 as int),
            match read_string(old(self).rest()).0 {
                Ok(s) => r is Ok && r->Ok_0@ == s,
                Err(e) => r == Err::<&'a str, Error>(e),
            },
    {
        let ghost rest = self.rest();
        let ghost n = bytes::from_le(rest.take(4));
        assert(rest.skip(0) == rest);
        let len: usize = self.u32()? as usize;
        if len == 0 {
            proof {
                reveal_strlit("");
                assert(""@ == Seq::<char>::empty());
            }
            return Ok("");
        }
        let b = self.take(len)?;
        assert(b@ == rest.subrange(4, 4 + n as int));
        assert(self.rest() == rest.skip(4 + n as int));
        let pad: usize = (4 - (len % 4)) % 4;
        self.take(pad)?;
        assert(self.rest() == rest.skip(4 + n as int + padding(n)));
        if b[len - 1] != 0 {
            return Err(Error::msg("wayland string is not NUL-terminated"));
        }
        let text = slice_subrange(b, 0, len - 1);
        assert(text@ == rest.subrange(4, 4 + n as int - 1));
        match str_from_utf8(text) {
            Some(s) => {
                proof {
                    encode_utf8_decode_utf8(s@);
                }
                Ok(s)
            },
            None => Err(Error::msg("invalid utf-8 in wayland string")),
        }
    }
}

/// What a header says: the target object, the opcode, and the whole message
/// size in bytes.
pub open spec fn header(data: Seq<u8>) -> (nat, nat, nat) {
    let word = bytes::from_le(data.subrange(4, 8));
    (bytes::from_le(data.take(4)), word % 0x1_0000, word / 0x1_0000)
}

/// Parse a message header: the target object, the opcode, and the whole message
/// size in bytes, header included.
pub fn parse_header(data: &[u8]) -> (r: Result<(u32, u16, usize)>)
    ensures
        data@.len() < HEADER_SIZE ==> r == Err::<(u32, u16, usize), Error>(
            Error::of_msg("not enough data for header"),
        ),
        data@.len() >= HEADER_SIZE && header(data@).2 < HEADER_SIZE ==> r == Err::<
            (u32, u16, usize),
            Error,
        >(Error::of_msg("message size smaller than header")),
        data@.len() >= HEADER_SIZE && header(data@).2 >= HEADER_SIZE ==> {
            &&& r is Ok
            &&& r->Ok_0.0 == header(data@).0
            &&& r->Ok_0.1 == header(data@).1
            &&& r->Ok_0.2 == header(data@).2
            &&& r->Ok_0.2 < MAX_MESSAGE_SIZE
        },
{
    if data.len() < HEADER_SIZE {
        return Err(Error::msg("not enough data for header"));
    }
    let first = slice_subrange(data, 0, 4);
    let second = slice_subrange(data, 4, 8);
    proof {
        assert(first@ == data@.take(4));
        bytes::lemma_le_of_from_le(first@);
        bytes::lemma_le_of_from_le(second@);
        bytes::lemma_pow256_values();
    }
    let object_id: u32 = from_le_bytes(first) as u32;
    let word: u64 = from_le_bytes(second);
    let opcode: u16 = (word % 0x1_0000) as u16;
    let size: usize = (word / 0x1_0000) as usize;
    // Reject a size below the header; the payload slice assumes at least
    // HEADER_SIZE bytes.
    if size < HEADER_SIZE {
        return Err(Error::msg("message size smaller than header"));
    }
    Ok((object_id, opcode, size))
}

/// What is left of `data` after reading an argument of a's kind from its front,
/// when what was read is a's value.
pub open spec fn reads_back(a: Arg<'_>, data: Seq<u8>) -> Option<Seq<u8>> {
    match a {
        Arg::Int(v) => if data.len() >= 4 && (bytes::from_le(data.take(4)) as u32) as i32 == v {
            Some(data.skip(4))
        } else {
            None
        },
        Arg::Uint(v) => reads_back_u32(v, data),
        Arg::Object(v) => reads_back_u32(v, data),
        Arg::NewId(v) => reads_back_u32(v, data),
        Arg::Str(s) => reads_back_str(s@, data),
        Arg::Bind { interface, version, new_id } => match reads_back_str(interface@, data) {
            Some(rest) => match reads_back_u32(version, rest) {
                Some(rest) => reads_back_u32(new_id, rest),
                None => None,
            },
            None => None,
        },
    }
}

pub open spec fn reads_back_u32(v: u32, data: Seq<u8>) -> Option<Seq<u8>> {
    if data.len() >= 4 && bytes::from_le(data.take(4)) == v {
        Some(data.skip(4))
    } else {
        None
    }
}

pub open spec fn reads_back_str(s: Seq<char>, data: Seq<u8>) -> Option<Seq<u8>> {
    if read_string(data).0 == Ok::<Seq<char>, Error>(s) {
        Some(data.skip(read_string(data).1 as int))
    } else {
        None
    }
}

/// What is left of `data` after reading a whole argument list from its front,
/// when every argument reads back.
pub open spec fn all_read_back(args: Seq<Arg<'_>>, data: Seq<u8>) -> Option<Seq<u8>>
    decreases args.len(),
{
    if args.len() == 0 {
        Some(data)
    } else {
        match all_read_back(args.drop_last(), data) {
            Some(rest) => reads_back(args.last(), rest),
            None => None,
        }
    }
}

/// The strings of an argument fit the 32-bit length they are sent with.
pub open spec fn strings_fit(a: Arg<'_>) -> bool {
    match a {
        Arg::Str(s) => text::byte_len(s@) < 0xFFFF_FFFF,
        Arg::Bind { interface, .. } => text::byte_len(interface@) < 0xFFFF_FFFF,
        _ => true,
    }
}

/// An unsigned argument reads back, whatever follows it.
pub proof fn law_u32_round_trip(v: u32, rest: Seq<u8>)
    ensures
        reads_back_u32(v, u32_bytes(v) + rest) == Some(rest),
{
    bytes::lemma_le_len(v as nat, 4);
    bytes::lemma_pow256_values();
    bytes::lemma_from_le_of_le(v as nat, 4);
    let data = u32_bytes(v) + rest;
    assert(data.take(4) == u32_bytes(v));
    assert(data.skip(4) == rest);
}

/// A string argument reads back, whatever follows it.
pub proof fn law_string_round_trip(s: Seq<char>, rest: Seq<u8>)
    requires
        text::byte_len(s) < 0xFFFF_FFFF,
    ensures
        read_string(str_bytes(s) + rest) == (
            Ok::<Seq<char>, Error>(s),
            str_bytes(s).len(),
        ),
        reads_back_str(s, str_bytes(s) + rest) == Some(rest),
{
    let b = encode_utf8(s);
    let n = b.len() + 1;
    let data = str_bytes(s) + rest;
    bytes::lemma_le_len(n, 4);
    bytes::lemma_pow256_values();
    bytes::lemma_from_le_of_le(n, 4);
    assert(data.take(4) == bytes::le(n, 4));
    assert(data.subrange(4, 4 + n - 1) == b);
    encode_utf8_valid_utf8(s);
    encode_utf8_decode_utf8(s);
    assert(str_bytes(s).len() == 4 + n + padding(n));
    assert(data.skip(str_bytes(s).len() as int) == rest);
}

proof fn lemma_arg_round_trip(a: Arg<'_>, rest: Seq<u8>)
    requires
        strings_fit(a),
    ensures
        reads_back(a, arg_bytes(a) + rest) == Some(rest),
{
    match a {
        Arg::Int(v) => {
            law_u32_round_trip(v as u32, rest);
            assert((v as u32) as i32 == v) by (bit_vector);
        },
        Arg::Uint(v) => law_u32_round_trip(v, rest),
        Arg::Object(v) => law_u32_round_trip(v, rest),
        Arg::NewId(v) => law_u32_round_trip(v, rest),
        Arg::Str(s) => law_string_round_trip(s@, rest),
        Arg::Bind { interface, version, new_id } => {
            let tail = u32_bytes(new_id) + rest;
            assert(arg_bytes(a) + rest == str_bytes(interface@) + (u32_bytes(version) + tail));
            law_string_round_trip(interface@, u32_bytes(version) + tail);
            law_u32_round_trip(version, tail);
            law_u32_round_trip(new_id, rest);
        },
    }
}

/// The arguments of a request read back one after the other, in order, and
/// leave what follows them.
pub proof fn law_args_round_trip(args: Seq<Arg<'_>>, rest: Seq<u8>)
    requires
        forall|i: int| 0 <= i < args.len() ==> strings_fit(args[i]),
    ensures
        all_read_back(args, body_bytes(args) + rest) == Some(rest),
    decreases args.len(),
{
    if args.len() == 0 {
        assert(body_bytes(args) + rest == rest);
    } else {
        let tail = arg_bytes(args.last()) + rest;
        assert(body_bytes(args) + rest == body_bytes(args.drop_last()) + tail);
        law_args_round_trip(args.drop_last(), tail);
        lemma_arg_round_trip(args.last(), rest);
    }
}

/// The header of an encoded request says its object, its opcode and its size,
/// whatever follows it.
pub proof fn law_header_round_trip(object: u32, opcode: u16, args: Seq<Arg<'_>>, rest: Seq<u8>)
    requires
        message_bytes(object, opcode, args).len() <= 0xFFFF,
    ensures
        header(message_bytes(object, opcode, args) + rest) == (
            object as nat,
            opcode as nat,
            message_bytes(object, opcode, args).len(),
        ),
        message_bytes(object, opcode, args).len() >= HEADER_SIZE,
{
    let msg = message_bytes(object, opcode, args);
    let word = size_opcode(HEADER_SIZE as nat + body_bytes(args).len(), opcode);
    bytes::lemma_le_len(object as nat, 4);
    bytes::lemma_le_len(word, 4);
    bytes::lemma_pow256_values();
    bytes::lemma_from_le_of_le(object as nat, 4);
    bytes::lemma_from_le_of_le(word, 4);
    assert((msg + rest).take(4) == u32_bytes(object));
    assert((msg + rest).subrange(4, 8) == bytes::le(word, 4));
}

proof fn lemma_str_is_aligned(s: Seq<char>)
    ensures
        str_bytes(s).len() % 4 == 0,
{
    bytes::lemma_le_len(text::byte_len(s) + 1, 4);
}

proof fn lemma_arg_is_aligned(a: Arg<'_>)
    ensures
        arg_bytes(a).len() % 4 == 0,
{
    match a {
        Arg::Int(v) => bytes::lemma_le_len((v as u32) as nat, 4),
        Arg::Uint(v) => bytes::lemma_le_len(v as nat, 4),
        Arg::Object(v) => bytes::lemma_le_len(v as nat, 4),
        Arg::NewId(v) => bytes::lemma_le_len(v as nat, 4),
        Arg::Str(s) => lemma_str_is_aligned(s@),
        Arg::Bind { interface, version, new_id } => {
            lemma_str_is_aligned(interface@);
            bytes::lemma_le_len(version as nat, 4);
            bytes::lemma_le_len(new_id as nat, 4);
        },
    }
}

proof fn lemma_body_is_aligned(args: Seq<Arg<'_>>)
    ensures
        body_bytes(args).len() % 4 == 0,
    decreases args.len(),
{
    if args.len() > 0 {
        lemma_body_is_aligned(args.drop_last());
        lemma_arg_is_aligned(args.last());
    }
}

/// Every request is a whole number of 4-byte words.
pub proof fn law_messages_are_word_aligned(object: u32, opcode: u16, args: Seq<Arg<'_>>)
    ensures
        message_bytes(object, opcode, args).len() % 4 == 0,
        body_bytes(args).len() % 4 == 0,
{
    lemma_body_is_aligned(args);
    bytes::lemma_le_len(object as nat, 4);
    bytes::lemma_le_len(size_opcode(HEADER_SIZE as nat + body_bytes(args).len(), opcode), 4);
}

} // verus!
