//! Single messages, built and parsed an argument at a time.
//!
//! The Wayland protocol uses a binary format over Unix sockets. Each message has:
//! - object_id (u32): Target object
//! - size_opcode (u32): Size in upper 16 bits, opcode in lower 16 bits
//! - payload: Variable length, padded to 4-byte alignment
use vstd::prelude::*;
use vstd::slice::slice_subrange;
use vstd::utf8::*;

use crate::platform::arena::{ArrayString, ArrayVec};
use crate::platform::bytes;
use crate::platform::bytes::{from_le_bytes, to_le_bytes};
use crate::platform::error::{Error, Result};
use crate::platform::wire;
use crate::platform::wire::{Arg, Fixed, HEADER_SIZE};
use crate::platform::text;
use crate::platform::text::str_from_utf8;

verus! {

/// Capacity for a string argument read off the wire (interface names, mime
/// types). These are short; longer strings are rejected.
pub const WIRE_STR_CAP: usize = 256;

/// Capacity of an outgoing message buffer. The launcher's requests are small (a
/// few args and short strings) and never approach the wire maximum.
pub const BUILD_CAP: usize = 1024;

/// A buffer for building outgoing Wayland messages.
pub struct MessageBuilder {
    buf: ArrayVec<u8, BUILD_CAP>,
    opcode: u16,
    /// Set when an argument did not fit, so finish rejects the message rather
    /// than sending a silently truncated one.
    overflowed: bool,
}

/// A message being built: the target's bytes, the opcode, and the arguments so
/// far. The arguments are gone once one did not fit.
#[verifier::ext_equal]
pub struct BuilderView {
    pub target: Seq<u8>,
    pub opcode: u16,
    pub args: Option<Seq<u8>>,
}

impl BuilderView {
    /// With more argument bytes, if they fit.
    pub open spec fn put(self, b: Seq<u8>) -> BuilderView {
        match self.args {
            Some(args) => if HEADER_SIZE + args.len() + b.len() <= BUILD_CAP {
                BuilderView { args: Some(args + b), ..self }
            } else {
                BuilderView { args: None, ..self }
            },
            None => self,
        }
    }

    /// The message with these arguments.
    pub open spec fn message(self, args: Seq<u8>) -> Seq<u8> {
        self.target + bytes::le(wire::size_opcode(HEADER_SIZE as nat + args.len(), self.opcode), 4)
            + args
    }
}

/// Putting bytes in two parts is putting them in one.
pub proof fn lemma_put_parts(v: BuilderView, a: Seq<u8>, b: Seq<u8>)
    ensures
        v.put(a).put(b) == v.put(a + b),
{
    if let Some(args) = v.args {
        assert(args + a + b =~= args + (a + b));
    }
}

impl View for MessageBuilder {
    type V = BuilderView;

    closed spec fn view(&self) -> BuilderView {
        BuilderView {
            target: self.buf@.take(4),
            opcode: self.opcode,
            args: if self.overflowed {
                None
            } else {
                Some(self.buf@.skip(HEADER_SIZE as int))
            },
        }
    }
}

impl MessageBuilder {
    /// There is room for the header at the front.
    pub closed spec fn wf(&self) -> bool {
        self.buf.wf() && self.buf@.len() >= HEADER_SIZE
    }

    /// Create a new message targeting the given object with the given opcode.
    pub fn new(object_id: u32, opcode: u16) -> (r: Self)
        ensures
            r.wf(),
            r@ == (BuilderView {
                target: wire::u32_bytes(object_id),
                opcode,
                args: Some(Seq::empty()),
            }),
    {
        let mut buf: ArrayVec<u8, BUILD_CAP> = ArrayVec::new();
        // Reserve space for header, will fill in size later
        let target = to_le_bytes(object_id as u64, 4);
        proof {
            bytes::lemma_le_len(object_id as nat, 4);
        }
        let _ = buf.extend_from_slice(target.as_slice());
        // placeholder for size_opcode
        let zeros: [u8; 4] = [0, 0, 0, 0];
        let _ = buf.extend_from_slice(zeros.as_slice());
        assert(buf@.take(4) =~= wire::u32_bytes(object_id));
        assert(buf@.skip(HEADER_SIZE as int) =~= Seq::<u8>::empty());
        Self { buf, opcode, overflowed: false }
    }

    /// Append bytes, tracking an overflow.
    fn put_bytes(&mut self, b: &[u8])
        requires
            old(self).wf(),
        ensures
            final(self).wf(),
            final(self)@ == old(self)@.put(b@),
    {
        let ghost before = self.buf@;
        if self.buf.extend_from_slice(b).is_err() {
            self.overflowed = true;
        }
        assert(self.buf@.take(4) =~= before.take(4));
        if !self.overflowed {
            assert(self.buf@.skip(HEADER_SIZE as int) =~= before.skip(HEADER_SIZE as int) + b@);
        }
    }

    /// Write a u32 argument.
    pub fn put_u32(&mut self, val: u32)
        requires
            old(self).wf(),
        ensures
            final(self).wf(),
            final(self)@ == old(self)@.put(wire::u32_bytes(val)),
    {
        let b = to_le_bytes(val as u64, 4);
        self.put_bytes(b.as_slice());
    }

    /// Write an i32 argument.
    pub fn put_i32(&mut self, val: i32)
        requires
            old(self).wf(),
        ensures
            final(self).wf(),
            final(self)@ == old(self)@.put(wire::u32_bytes(val as u32)),
    {
        self.put_u32(val as u32);
    }

    /// Write an object ID argument (same as u32 but semantically different).
    pub fn put_object(&mut self, id: u32)
        requires
            old(self).wf(),
        ensures
            final(self).wf(),
            final(self)@ == old(self)@.put(wire::u32_bytes(id)),
    {
        self.put_u32(id);
    }

    /// Write a new_id argument (ID being created by this request).
    pub fn put_new_id(&mut self, id: u32)
        requires
            old(self).wf(),
        ensures
            final(self).wf(),
            final(self)@ == old(self)@.put(wire::u32_bytes(id)),
    {
        self.put_u32(id);
    }

    /// Write a string argument (length-prefixed, null-terminated, padded).
    pub fn put_string(&mut self, s: &str)
        requires
            old(self).wf(),
        ensures
            final(self).wf(),
            final(self)@ == old(self)@.put(wire::str_bytes(s@)),
    {
        let ghost v = self@;
        let b = s.as_bytes();
        proof {
            bytes::lemma_le_len(b@.len() + 1, 4);
        }
        if b.len() >= BUILD_CAP {
            self.overflowed = true;
            return;
        }
        // Length includes null terminator
        let len: usize = b.len() + 1;
        let ghost prefix = bytes::le(len as nat, 4);
        let length = to_le_bytes(len as u64, 4);
        self.put_bytes(length.as_slice());
        self.put_bytes(b);
        let nul: [u8; 1] = [0];
        self.put_bytes(nul.as_slice());
        // Pad to 4-byte alignment
        let padding: usize = (4 - (len % 4)) % 4;
        let zeros: [u8; 3] = [0, 0, 0];
        let pad = slice_subrange(zeros.as_slice(), 0, padding);
        self.put_bytes(pad);
        proof {
            assert(nul@ =~= seq![0u8]);
            assert(pad@ =~= Seq::new(wire::padding(len as nat), |i: int| 0u8));
            lemma_put_parts(v, prefix, b@);
            lemma_put_parts(v, prefix + b@, nul@);
            lemma_put_parts(v, prefix + b@ + nul@, pad@);
        }
    }

    /// Finalize the message, filling in the size field. Rejects a message whose
    /// arguments overflowed the buffer (an oversized request) rather than
    /// sending a truncated, corrupt one.
    pub fn finish(self) -> (r: Result<ArrayVec<u8, BUILD_CAP>>)
        requires
            self.wf(),
        ensures
            match self@.args {
                Some(args) => r is Ok && r->Ok_0.wf() && r->Ok_0@ == self@.message(args),
                None => r == Err::<ArrayVec<u8, BUILD_CAP>, Error>(
                    Error::of_msg("message exceeds buffer capacity"),
                ),
            },
    {
        if self.overflowed {
            return Err(Error::msg("message exceeds buffer capacity"));
        }
        let size: usize = self.buf.len();
        let word: u64 = size as u64 * 0x1_0000 + self.opcode as u64;
        let second = to_le_bytes(word, 4);
        proof {
            bytes::lemma_le_len(word as nat, 4);
        }
        let all = self.buf.as_slice();
        let mut out: ArrayVec<u8, BUILD_CAP> = ArrayVec::new();
        let _ = out.extend_from_slice(slice_subrange(all, 0, 4));
        let _ = out.extend_from_slice(second.as_slice());
        let _ = out.extend_from_slice(slice_subrange(all, HEADER_SIZE, size));
        assert(out@ =~= self@.message(self.buf@.skip(HEADER_SIZE as int)));
        Ok(out)
    }
}

/// The string at the front of some bytes, and how many bytes reading it
/// consumes. Padding that is cut off is no error.
pub open spec fn read_string(rest: Seq<u8>) -> (core::result::Result<Seq<char>, Error>, int) {
    let len = bytes::from_le(rest.take(4));
    let whole = 4 + len + wire::padding(len);
    if rest.len() < 4 {
        (Err(Error::of_msg("not enough data for u32")), 0)
    } else if len == 0 {
        (Ok(Seq::empty()), 4)
    } else if rest.len() < 4 + len {
        (Err(Error::of_msg("not enough data for string")), 4)
    } else if rest[4 + len - 1] != 0 {
        (Err(Error::of_msg("string not null-terminated")), 4)
    } else if !valid_utf8(rest.subrange(4, 4 + len - 1)) {
        (Err(Error::of_msg("invalid utf-8 in string")), 4)
    } else if len - 1 > WIRE_STR_CAP {
        (Err(Error::of_msg("string too long")), 4)
    } else {
        (
            Ok(decode_utf8(rest.subrange(4, 4 + len - 1))),
            if whole <= rest.len() {
                whole as int
            } else {
                rest.len() as int
            },
        )
    }
}

/// Parser for incoming Wayland messages.
pub struct MessageParser<'a> {
    data: &'a [u8],
    pos: usize,
}

impl<'a> MessageParser<'a> {
    pub closed spec fn wf(&self) -> bool {
        self.pos <= self.data@.len()
    }

    /// The payload bytes not read yet.
    pub closed spec fn rest(&self) -> Seq<u8> {
        self.data@.skip(self.pos as int)
    }

    /// Create a parser for the given message payload (after header).
    pub fn new(data: &'a [u8]) -> (r: Self)
        ensures
            r.wf(),
            r.rest() == data@,
    {
        assert(data@.skip(0) =~= data@);
        Self { data, pos: 0 }
    }

    /// The next four bytes, as a number.
    fn word(&mut self) -> (r: Option<u32>)
        requires
            old(self).wf(),
        ensures
            final(self).wf(),
            final(self).data == old(self).data,
            old(self).rest().len() >= 4 ==> r == Some(
                bytes::from_le(old(self).rest().take(4)) as u32,
            ) && bytes::from_le(old(self).rest().take(4)) <= u32::MAX && final(self).rest()
                == old(self).rest().skip(4),
            old(self).rest().len() < 4 ==> r is None && *final(self) == *old(self),
    {
        if self.data.len() - self.pos < 4 {
            return None;
        }
        let b = slice_subrange(self.data, self.pos, self.pos + 4);
        let ghost rest = self.rest();
        proof {
            assert(b@ =~= rest.take(4));
            bytes::lemma_le_of_from_le(b@);
            bytes::lemma_pow256_values();
        }
        self.pos += 4;
        assert(self.rest() =~= rest.skip(4));
        Some(from_le_bytes(b) as u32)
    }

    /// Read a u32 argument.
    pub fn get_u32(&mut self) -> (r: Result<u32>)
        requires
            old(self).wf(),
        ensures
            final(self).wf(),
            old(self).rest().len() >= 4 ==> r is Ok && r->Ok_0 == bytes::from_le(
                old(self).rest().take(4),
            ) && final(self).rest() == old(self).rest().skip(4),
            old(self).rest().len() < 4 ==> r == Err::<u32, Error>(
                Error::of_msg("not enough data for u32"),
            ) && final(self).rest() == old(self).rest(),
    {
        match self.word() {
            Some(v) => Ok(v),
            None => Err(Error::msg("not enough data for u32")),
        }
    }

    /// Read an i32 argument.
    pub fn get_i32(&mut self) -> (r: Result<i32>)
        requires
            old(self).wf(),
        ensures
            final(self).wf(),
            old(self).rest().len() >= 4 ==> r is Ok && r->Ok_0 == (bytes::from_le(
                old(self).rest().take(4),
            ) as u32) as i32 && final(self).rest() == old(self).rest().skip(4),
            old(self).rest().len() < 4 ==> r == Err::<i32, Error>(
                Error::of_msg("not enough data for i32"),
            ) && final(self).rest() == old(self).rest(),
    {
        match self.word() {
            Some(v) => Ok(v as i32),
            None => Err(Error::msg("not enough data for i32")),
        }
    }

    /// Read a wl_fixed_t argument (24.8 signed fixed-point).
    pub fn get_fixed(&mut self) -> (r: Result<Fixed>)
        requires
            old(self).wf(),
        ensures
            final(self).wf(),
            old(self).rest().len() >= 4 ==> r is Ok && r->Ok_0.raw == (bytes::from_le(
                old(self).rest().take(4),
            ) as u32) as i32 && final(self).rest() == old(self).rest().skip(4),
            old(self).rest().len() < 4 ==> r == Err::<Fixed, Error>(
                Error::of_msg("not enough data for i32"),
            ) && final(self).rest() == old(self).rest(),
    {
        let raw: i32 = self.get_i32()?;
        Ok(Fixed { raw })
    }

    /// Read a string argument.
    pub fn get_string(&mut self) -> (r: Result<ArrayString<WIRE_STR_CAP>>)
        requires
            old(self).wf(),
        ensures
            final(self).wf(),
            final(self).rest() == old(self).rest().skip(read_string(old(self).rest()).1),
            match read_string(old(self).rest()).0 {
                Ok(s) => r is Ok && r->Ok_0.wf() && r->Ok_0@ == s,
                Err(e) => r == Err::<ArrayString<WIRE_STR_CAP>, Error>(e),
            },
    {
        let ghost rest = self.rest();
        assert(rest.skip(0) =~= rest);
        let len: usize = self.get_u32()? as usize;
        let mut out: ArrayString<WIRE_STR_CAP> = ArrayString::new();
        if len == 0 {
            return Ok(out);
        }
        let ghost tail = self.rest();
        assert(tail == rest.skip(4) && tail == self.data@.skip(self.pos as int));
        if len > self.data.len() - self.pos {
            return Err(Error::msg("not enough data for string"));
        }
        assert(rest.len() == 4 + tail.len() && tail.len() >= len);
        assert(rest.skip(4)[len - 1] == rest[4 + (len - 1)]);
        // The wire format null-terminates strings inside the declared length.
        if self.data[self.pos + (len - 1)] != 0 {
            return Err(Error::msg("string not null-terminated"));
        }
        // Exclude null terminator.
        let b = slice_subrange(self.data, self.pos, self.pos + (len - 1));
        assert(b@ =~= tail.take(len - 1));
        assert(b@ =~= rest.subrange(4, 4 + len - 1));
        let s = match str_from_utf8(b) {
            Some(s) => s,
            None => return Err(Error::msg("invalid utf-8 in string")),
        };
        proof {
            encode_utf8_decode_utf8(s@);
            assert(Seq::<char>::empty() + s@ =~= s@);
        }
        if out.push_str(s).is_err() {
            return Err(Error::msg("string too long"));
        }
        // Skip string data + padding
        let padding: usize = (4 - (len % 4)) % 4;
        let left: usize = self.data.len() - self.pos - len;
        let skipped: usize = if padding < left {
            padding
        } else {
            left
        };
        self.pos = self.pos + len + skipped;
        assert(self.rest() =~= tail.skip(len + skipped));
        assert(self.rest() =~= rest.skip(read_string(rest).1));
        Ok(out)
    }
}

/// Parse a message header from raw bytes.
/// Returns (object_id, opcode, message_size).
pub fn parse_header(data: &[u8]) -> (r: Result<(u32, u16, usize)>)
    ensures
        data@.len() < HEADER_SIZE ==> r == Err::<(u32, u16, usize), Error>(
            Error::of_msg("not enough data for header"),
        ),
        data@.len() >= HEADER_SIZE && wire::header(data@).2 < HEADER_SIZE ==> r == Err::<
            (u32, u16, usize),
            Error,
        >(Error::of_msg("message size smaller than header")),
        data@.len() >= HEADER_SIZE && wire::header(data@).2 >= HEADER_SIZE ==> {
            &&& r is Ok
            &&& r->Ok_0.0 == wire::header(data@).0
            &&& r->Ok_0.1 == wire::header(data@).1
            &&& r->Ok_0.2 == wire::header(data@).2
        },
{
    wire::parse_header(data)
}

/// A message built of arguments is the request those arguments encode to.
pub open spec fn built(object: u32, opcode: u16, args: Seq<Arg<'_>>) -> BuilderView {
    BuilderView {
        target: wire::u32_bytes(object),
        opcode,
        args: if HEADER_SIZE + wire::body_bytes(args).len() <= BUILD_CAP {
            Some(wire::body_bytes(args))
        } else {
            None
        },
    }
}

/// Putting the next argument into a builder is building with one argument more,
/// and a whole message is the encoded request.
pub proof fn law_a_builder_encodes_its_arguments(
    object: u32,
    opcode: u16,
    args: Seq<Arg<'_>>,
    next: Arg<'_>,
)
    ensures
        built(object, opcode, args).put(wire::arg_bytes(next)) == built(
            object,
            opcode,
            args.push(next),
        ),
        built(object, opcode, args).args matches Some(body) ==> built(object, opcode, args).message(
            body,
        ) == wire::message_bytes(object, opcode, args),
{
    assert(args.push(next).drop_last() =~= args);
}

/// A string that was put reads back, and leaves what follows it.
pub proof fn law_a_put_string_reads_back(s: Seq<char>, rest: Seq<u8>)
    requires
        text::byte_len(s) <= WIRE_STR_CAP,
    ensures
        read_string(wire::str_bytes(s) + rest) == (
            Ok::<Seq<char>, Error>(s),
            wire::str_bytes(s).len() as int,
        ),
        (wire::str_bytes(s) + rest).skip(wire::str_bytes(s).len() as int) == rest,
{
    let b = encode_utf8(s);
    let n = b.len() + 1;
    let data = wire::str_bytes(s) + rest;
    bytes::lemma_le_len(n, 4);
    bytes::lemma_pow256_values();
    bytes::lemma_from_le_of_le(n, 4);
    assert(data.take(4) == bytes::le(n, 4));
    assert(data.subrange(4, 4 + n - 1) == b);
    encode_utf8_valid_utf8(s);
    encode_utf8_decode_utf8(s);
    assert(wire::str_bytes(s).len() == 4 + n + wire::padding(n));
    assert(data.skip(wire::str_bytes(s).len() as int) == rest);
}

} // verus!
