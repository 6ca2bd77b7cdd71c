//! The clipboard: the wl_data_device protocol state and what is read off the
//! pipe the data travels through.
//!
//! Wayland relays clipboard content between clients over a pipe. Reading the
//! selection means creating one, handing the write end to the compositor, and
//! draining the read end; owning the selection means the compositor hands us a
//! write end and asks for the bytes. The pipes themselves are opened, polled and
//! closed by the caller.
use vstd::prelude::*;
use vstd::utf8::*;

use crate::editor::INPUT_CAP;
use crate::ids::{IdAllocator, IdsView};
use crate::platform::arena::{ArrayString, ArrayVec};
use crate::platform::bytes;
use crate::platform::conn;
use crate::platform::conn::{ConnView, Connection, Out};
use crate::platform::error::{Error, Result, EAGAIN};
use crate::platform::protocol::{
    DATA_DEVICE_EV_DATA_OFFER, DATA_DEVICE_EV_SELECTION, DATA_DEVICE_MANAGER_CREATE_DATA_SOURCE,
    DATA_DEVICE_SET_SELECTION, DATA_OFFER_DESTROY, DATA_OFFER_EV_OFFER, DATA_OFFER_RECEIVE,
    DATA_SOURCE_DESTROY, DATA_SOURCE_EV_CANCELLED, DATA_SOURCE_EV_SEND, DATA_SOURCE_OFFER,
};
use crate::platform::syscall::{Fd, RawFd, EINTR};
use crate::platform::wire;
use crate::platform::wire::{Arg, Reader};
use crate::platform::text;
use crate::platform::text::{str_eq, str_from_utf8};

verus! {

/// Largest clipboard paste captured. The launcher's input field is short, so a
/// huge paste is pointless and the rest is dropped.
pub const CLIP_CAP: usize = 4096;

/// Total budget for draining one clipboard pipe.
///
/// The deadline covers the whole transfer, not each wait. A peer that opens the
/// pipe and never writes has to be given up on, but so does one that dribbles a
/// byte just inside every wait: per-wait timeouts alone let it hold the launcher
/// for as long as it cares to.
pub const CLIPBOARD_TIMEOUT_MS: u64 = 2000;

/// Most bytes asked of the pipe in one read.
pub const PIPE_CHUNK: usize = 8192;

/// How much of some bytes is valid UTF-8: the longest prefix that is.
pub open spec fn valid_up_to(b: Seq<u8>) -> int
    decreases b.len(),
{
    if b.len() == 0 || valid_utf8(b) {
        b.len() as int
    } else {
        valid_up_to(b.drop_last())
    }
}

/// The text of some bytes, as far as they are valid.
pub open spec fn text_of(b: Seq<u8>) -> Seq<char> {
    decode_utf8(b.take(valid_up_to(b)))
}

proof fn lemma_valid_up_to(b: Seq<u8>)
    ensures
        0 <= valid_up_to(b) <= b.len(),
        valid_utf8(b.take(valid_up_to(b))),
        forall|k: int| valid_up_to(b) < k <= b.len() ==> !valid_utf8(#[trigger] b.take(k)),
    decreases b.len(),
{
    assert(b.take(b.len() as int) =~= b);
    if b.len() == 0 {
        assert(encode_utf8(Seq::<char>::empty()) =~= b);
        encode_utf8_valid_utf8(Seq::<char>::empty());
    } else if !valid_utf8(b) {
        let p = b.drop_last();
        lemma_valid_up_to(p);
        assert(p.take(valid_up_to(p)) =~= b.take(valid_up_to(p)));
        assert forall|k: int| valid_up_to(b) < k <= b.len() implies !valid_utf8(
            #[trigger] b.take(k),
        ) by {
            if k < b.len() {
                assert(p.take(k) =~= b.take(k));
            }
        }
    }
}

/// Decode what was drained from a clipboard pipe as UTF-8 text.
///
/// The byte cap can split the final codepoint, so the valid prefix is decoded
/// rather than the whole paste dropped when the tail is a partial codepoint. The
/// prefix stops at the first invalid byte, so this never mojibakes.
pub fn read_text(buf: &ArrayVec<u8, CLIP_CAP>) -> (r: ArrayString<CLIP_CAP>)
    requires
        buf.wf(),
    ensures
        r.wf(),
        r@ == text_of(buf@),
{
    let data = buf.as_slice();
    let mut text: ArrayString<CLIP_CAP> = ArrayString::new();
    let mut n: usize = data.len();
    assert(data@.take(n as int) =~= data@);
    loop
        invariant
            n <= data@.len() <= CLIP_CAP,
            valid_up_to(data@) == valid_up_to(data@.take(n as int)),
            text.wf(),
            text@ == Seq::<char>::empty(),
            data@ == buf@,
        decreases n,
    {
        let part = vstd::slice::slice_subrange(data, 0, n);
        assert(part@ =~= data@.take(n as int));
        proof {
            lemma_valid_up_to(part@);
        }
        if let Some(s) = str_from_utf8(part) {
            proof {
                encode_utf8_decode_utf8(s@);
                assert(part@.take(part@.len() as int) =~= part@);
                text::lemma_byte_len_bounds(Seq::<char>::empty());
                assert(Seq::<char>::empty() + s@ =~= s@);
            }
            let _ = text.push_str(s);
            return text;
        }
        if n == 0 {
            return text;
        }
        assert(part@.drop_last() =~= data@.take(n - 1));
        n -= 1;
    }
}

/// A clipboard pipe being drained, bounded by a byte cap and a total deadline.
pub struct PipeRead {
    pub buf: ArrayVec<u8, CLIP_CAP>,
}

impl PipeRead {
    pub open spec fn wf(&self) -> bool {
        self.buf.wf()
    }

    pub fn new() -> (r: Self)
        ensures
            r.wf(),
            r.buf@ == Seq::<u8>::empty(),
    {
        PipeRead { buf: ArrayVec::new() }
    }

    /// How long to poll the pipe for, given the time spent so far. None when the
    /// cap is reached and there is nothing more to read. Every wait shares the
    /// one budget, so no peer can hold the launcher past it.
    pub fn wait(&self, elapsed_ms: u64) -> (r: Result<Option<i32>>)
        requires
            self.wf(),
        ensures
            self.buf@.len() == CLIP_CAP ==> r == Ok::<Option<i32>, Error>(None),
            self.buf@.len() < CLIP_CAP && elapsed_ms >= CLIPBOARD_TIMEOUT_MS ==> r == Err::<
                Option<i32>,
                Error,
            >(Error::of_msg("clipboard read timed out")),
            self.buf@.len() < CLIP_CAP && elapsed_ms < CLIPBOARD_TIMEOUT_MS ==> r == Ok::<
                Option<i32>,
                Error,
            >(Some((CLIPBOARD_TIMEOUT_MS - elapsed_ms) as i32)),
    {
        if self.buf.is_full() {
            return Ok(None);
        }
        if elapsed_ms >= CLIPBOARD_TIMEOUT_MS {
            return Err(Error::msg("clipboard read timed out"));
        }
        Ok(Some((CLIPBOARD_TIMEOUT_MS - elapsed_ms) as i32))
    }

    /// Whether to read now, given what the poll returned. An interrupted wait is
    /// tried again, the time already spent charged against the deadline first.
    pub fn polled(result: isize) -> (r: Result<bool>)
        requires
            result > isize::MIN,
        ensures
            result > 0 ==> r == Ok::<bool, Error>(true),
            result == 0 ==> r == Err::<bool, Error>(Error::of_msg("clipboard read timed out")),
            result < 0 && result == -EINTR ==> r == Ok::<bool, Error>(false),
            result < 0 && result != -EINTR ==> r == Err::<bool, Error>(
                Error::of_errno((-result) as i32),
            ),
    {
        if result == -(EINTR as isize) {
            return Ok(false);
        }
        if result < 0 {
            return Err(Error::from_errno((-result) as i32));
        }
        if result == 0 {
            return Err(Error::msg("clipboard read timed out"));
        }
        Ok(true)
    }

    /// Most bytes to ask of the pipe.
    pub fn want(&self) -> (r: usize)
        requires
            self.wf(),
        ensures
            r == (if CLIP_CAP - self.buf@.len() < PIPE_CHUNK {
                CLIP_CAP - self.buf@.len()
            } else {
                PIPE_CHUNK as int
            }),
    {
        let room: usize = self.buf.remaining();
        if room < PIPE_CHUNK {
            room
        } else {
            PIPE_CHUNK
        }
    }

    /// Take in what a read returned: a count with the bytes read, or a negated
    /// errno. True when the owner has finished writing and closed its end.
    pub fn read(&mut self, result: isize, chunk: &[u8]) -> (r: Result<bool>)
        requires
            old(self).wf(),
            result > isize::MIN,
            result > 0 ==> chunk@.len() == result,
        ensures
            final(self).wf(),
            result == 0 ==> r == Ok::<bool, Error>(true),
            result > 0 ==> r == Ok::<bool, Error>(false),
            result < 0 && (result == -EINTR || (-result) as i32 == EAGAIN) ==> r == Ok::<
                bool,
                Error,
            >(false),
            result < 0 && result != -EINTR && (-result) as i32 != EAGAIN ==> r == Err::<bool, Error>(
                Error::of_errno((-result) as i32),
            ),
            final(self).buf@ == if result > 0 {
                capped(old(self).buf@ + chunk@)
            } else {
                old(self).buf@
            },
    {
        if result == -(EINTR as isize) {
            return Ok(false);
        }
        if result < 0 {
            let errno: i32 = (-result) as i32;
            if errno == EAGAIN {
                return Ok(false);
            }
            return Err(Error::from_errno(errno));
        }
        if result == 0 {
            return Ok(true);
        }
        let ghost before = self.buf@;
        let _ = self.buf.extend_from_slice(chunk);
        assert(self.buf@ =~= capped(before + chunk@));
        Ok(false)
    }
}

/// The first bytes, as many as are kept.
pub open spec fn capped(b: Seq<u8>) -> Seq<u8> {
    if b.len() <= CLIP_CAP {
        b
    } else {
        b.take(CLIP_CAP as int)
    }
}

/// Where to go on writing to whoever asked for the clipboard, after a write from
/// `off` returned `result`: None when everything is out, or when the reader hung
/// up.
pub fn write_all(len: usize, off: usize, result: isize) -> (r: Option<usize>)
    requires
        off < len,
    ensures
        r == if result <= 0 || off + result >= len {
            None::<usize>
        } else {
            Some((off + result) as usize)
        },
{
    if result <= 0 || result as usize >= len - off {
        None
    } else {
        Some(off + result as usize)
    }
}

/// Text MIME types accepted from the clipboard, ordered worst to best so the
/// richest one advertised can be picked.
#[derive(Debug, Clone, Copy, PartialEq, Eq, PartialOrd, Ord, Structural)]
pub enum TextMime {
    Plain,
    Utf8,
}

impl TextMime {
    /// The type's name on the wire.
    pub open spec fn name(self) -> &'static str {
        match self {
            TextMime::Plain => "text/plain",
            TextMime::Utf8 => "text/plain;charset=utf-8",
        }
    }

    /// The type a name stands for.
    pub open spec fn of_name(s: Seq<char>) -> Option<TextMime> {
        if s == "text/plain;charset=utf-8"@ {
            Some(TextMime::Utf8)
        } else if s == "text/plain"@ {
            Some(TextMime::Plain)
        } else {
            None
        }
    }

    /// The richer of a type and one seen before.
    pub open spec fn best(self, seen: Option<TextMime>) -> TextMime {
        if seen == Some(TextMime::Utf8) {
            TextMime::Utf8
        } else {
            self
        }
    }

    pub fn as_str(self) -> (r: &'static str)
        ensures
            r == self.name(),
    {
        match self {
            TextMime::Plain => "text/plain",
            TextMime::Utf8 => "text/plain;charset=utf-8",
        }
    }

    /// Map an advertised MIME string to one we accept, if any.
    pub fn from_mime(s: &str) -> (r: Option<TextMime>)
        ensures
            r == Self::of_name(s@),
    {
        if str_eq(s, "text/plain;charset=utf-8") {
            Some(TextMime::Utf8)
        } else if str_eq(s, "text/plain") {
            Some(TextMime::Plain)
        } else {
            None
        }
    }
}

/// Every type we accept is known by its own name.
pub proof fn law_mime_names_round_trip(m: TextMime)
    ensures
        TextMime::of_name(m.name()@) == Some(m),
{
    reveal_strlit("text/plain");
    reveal_strlit("text/plain;charset=utf-8");
    assert("text/plain"@.len() != "text/plain;charset=utf-8"@.len());
}

/// What the user asked the clipboard to do, deferred until the event loop can
/// service it: the copy and paste requests arrive on the keyboard, but they need
/// a round trip to the compositor.
pub enum Op {
    Nothing,
    Copy(ArrayString<INPUT_CAP>),
    Cut(ArrayString<INPUT_CAP>),
    Paste,
}

/// What an operation holds.
pub enum OpView {
    Nothing,
    Copy(Seq<char>),
    Cut(Seq<char>),
    Paste,
}

impl View for Op {
    type V = OpView;

    open spec fn view(&self) -> OpView {
        match self {
            Op::Nothing => OpView::Nothing,
            Op::Copy(t) => OpView::Copy(t@),
            Op::Cut(t) => OpView::Cut(t@),
            Op::Paste => OpView::Paste,
        }
    }
}

impl Op {
    pub open spec fn wf(&self) -> bool {
        match self {
            Op::Copy(t) => t.wf(),
            Op::Cut(t) => t.wf(),
            _ => true,
        }
    }
}

impl Default for Op {
    fn default() -> (r: Self)
        ensures
            r == Op::Nothing,
    {
        Op::Nothing
    }
}

/// The clipboard's protocol state.
///
/// The compositor describes an incoming clipboard in three steps: a data_offer
/// naming a new object, an offer event per MIME type it can supply, and a
/// selection event promoting one of those offers to the clipboard (or clearing
/// it). So the offer being described is tracked apart from the one in force.
pub struct Clipboard {
    /// The per-seat data device, our handle on the clipboard.
    pub device_id: Option<u32>,
    /// The data source we own while we are the clipboard owner.
    pub source_id: Option<u32>,
    /// The text that source serves.
    pub source_text: Option<ArrayString<INPUT_CAP>>,
    /// The offer the compositor is describing, before it says what it is for.
    pub pending_offer: Option<u32>,
    /// The best text MIME seen on that offer so far.
    pub pending_mime: Option<TextMime>,
    /// The offer the compositor named as the clipboard, with its MIME.
    pub selection_offer: Option<u32>,
    pub selection_mime: Option<TextMime>,
}

/// What a clipboard's state is.
#[verifier::ext_equal]
pub struct ClipView {
    pub device_id: Option<u32>,
    pub source_id: Option<u32>,
    pub source_text: Option<Seq<char>>,
    pub pending_offer: Option<u32>,
    pub pending_mime: Option<TextMime>,
    pub selection_offer: Option<u32>,
    pub selection_mime: Option<TextMime>,
}

/// The characters of some text.
pub open spec fn text_view(t: Option<ArrayString<INPUT_CAP>>) -> Option<Seq<char>> {
    match t {
        Some(t) => Some(t@),
        None => None,
    }
}

impl View for Clipboard {
    type V = ClipView;

    open spec fn view(&self) -> ClipView {
        ClipView {
            device_id: self.device_id,
            source_id: self.source_id,
            source_text: text_view(self.source_text),
            pending_offer: self.pending_offer,
            pending_mime: self.pending_mime,
            selection_offer: self.selection_offer,
            selection_mime: self.selection_mime,
        }
    }
}

/// No clipboard at all.
pub open spec fn no_clipboard() -> ClipView {
    ClipView {
        device_id: None,
        source_id: None,
        source_text: None,
        pending_offer: None,
        pending_mime: None,
        selection_offer: None,
        selection_mime: None,
    }
}

impl Default for Clipboard {
    fn default() -> (r: Self)
        ensures
            r.wf(),
            r@ == no_clipboard(),
    {
        Clipboard {
            device_id: None,
            source_id: None,
            source_text: None,
            pending_offer: None,
            pending_mime: None,
            selection_offer: None,
            selection_mime: None,
        }
    }
}

/// What became of a message.
pub enum Handled {
    /// It was not the clipboard's.
    Foreign,
    /// It was, and there is nothing more to do.
    Ours,
    /// The compositor asks for the clipboard: write the text to the fd, if there
    /// is any, and close it, which is the end the reader is waiting for.
    Serve(Fd, Option<ArrayString<INPUT_CAP>>),
}

/// What became of a message.
pub enum HandledView {
    Foreign,
    Ours,
    Serve(RawFd, Option<Seq<char>>),
    Failed(Error),
}

impl Handled {
    /// Whether an outcome is the one described.
    pub open spec fn is(r: Result<Handled>, v: HandledView) -> bool {
        match v {
            HandledView::Failed(e) => r == Err::<Handled, Error>(e),
            HandledView::Foreign => r matches Ok(Handled::Foreign),
            HandledView::Ours => r matches Ok(Handled::Ours),
            HandledView::Serve(fd, t) => r matches Ok(Handled::Serve(f, s)) && f.spec_raw() == fd
                && text_view(s) == t && (s matches Some(s) ==> s.wf()),
        }
    }
}

/// A request without arguments.
pub open spec fn bare(object: u32, opcode: u16) -> Seq<u8> {
    wire::message_bytes(object, opcode, Seq::<Arg<'static>>::empty())
}

/// The connection once an object is asked to go, as far as there is room to.
pub open spec fn discarded(c: ConnView, object: u32, opcode: u16) -> ConnView {
    match c.put(Out::Msg(bare(object, opcode))) {
        Some(c) => c,
        None => c,
    }
}

/// The connection once an object is asked to go, if there is one.
pub open spec fn discarded_opt(c: ConnView, object: Option<u32>, opcode: u16) -> ConnView {
    match object {
        Some(id) => discarded(c, id, opcode),
        None => c,
    }
}

/// The error of a message that ends too soon.
pub open spec fn truncated() -> Error {
    Error::of_msg("truncated wayland message")
}

/// The first word of a message body.
pub open spec fn first_word(body: Seq<u8>) -> u32 {
    bytes::from_le(body.take(4)) as u32
}

impl ClipView {
    /// After a new offer is named. A second offer before any selection
    /// supersedes the first, which nothing will name again.
    pub open spec fn offered(self, offer: u32) -> ClipView {
        ClipView { pending_offer: Some(offer), pending_mime: None, ..self }
    }

    /// After an offer is named as the clipboard, or none is.
    pub open spec fn selected(self, offer: u32) -> ClipView {
        ClipView {
            pending_offer: None,
            pending_mime: None,
            selection_offer: if offer != 0 {
                Some(offer)
            } else {
                None
            },
            // The MIME list was collected against the pending offer, so it
            // describes this selection only if they match.
            selection_mime: if offer != 0 && self.pending_offer == Some(offer) {
                self.pending_mime
            } else {
                None
            },
            ..self
        }
    }

    /// What the connection carries after a selection: the offer held before is
    /// retired, and so is a pending offer that was not the one named.
    pub open spec fn retired(self, c: ConnView, offer: u32) -> ConnView {
        let c1 = discarded_opt(c, self.selection_offer, DATA_OFFER_DESTROY);
        if self.pending_offer == self.selected(offer).selection_offer {
            c1
        } else {
            discarded_opt(c1, self.pending_offer, DATA_OFFER_DESTROY)
        }
    }

    /// After a MIME type is advertised on the offer being described.
    pub open spec fn advertised(self, body: Seq<u8>) -> ClipView {
        match wire::read_string(body).0 {
            Ok(s) => match TextMime::of_name(s) {
                Some(m) => ClipView { pending_mime: Some(m.best(self.pending_mime)), ..self },
                None => self,
            },
            Err(_) => self,
        }
    }

    /// After another app took the clipboard.
    pub open spec fn cancelled(self) -> ClipView {
        ClipView { source_id: None, source_text: None, ..self }
    }

    /// What a message does to the clipboard and the connection, and what becomes
    /// of it.
    pub open spec fn handled(self, c: ConnView, object: u32, opcode: u16, body: Seq<u8>) -> (
        ClipView,
        ConnView,
        HandledView,
    ) {
        if self.device_id == Some(object) {
            if opcode != DATA_DEVICE_EV_DATA_OFFER && opcode != DATA_DEVICE_EV_SELECTION {
                (self, c, HandledView::Ours)
            } else if body.len() < 4 {
                (self, c, HandledView::Failed(truncated()))
            } else if opcode == DATA_DEVICE_EV_DATA_OFFER {
                (
                    self.offered(first_word(body)),
                    discarded_opt(c, self.pending_offer, DATA_OFFER_DESTROY),
                    HandledView::Ours,
                )
            } else {
                (
                    self.selected(first_word(body)),
                    self.retired(c, first_word(body)),
                    HandledView::Ours,
                )
            }
        } else if self.pending_offer == Some(object) && opcode == DATA_OFFER_EV_OFFER {
            (self.advertised(body), c, HandledView::Ours)
        } else if self.source_id == Some(object) {
            if opcode == DATA_SOURCE_EV_SEND && c.fds.len() > 0 {
                (
                    self,
                    ConnView { fds: c.fds.drop_first(), ..c },
                    HandledView::Serve(c.fds[0], self.source_text),
                )
            } else if opcode == DATA_SOURCE_EV_CANCELLED {
                (self.cancelled(), c, HandledView::Ours)
            } else {
                (self, c, HandledView::Ours)
            }
        } else {
            (self, c, HandledView::Foreign)
        }
    }
}

/// Ask an object to go. Best effort: it is of no further use either way.
fn discard(conn: &mut Connection, object: u32, opcode: u16)
    requires
        old(conn).wf(),
    ensures
        final(conn).wf(),
        final(conn)@ == discarded(old(conn)@, object, opcode),
{
    let args: [Arg<'static>; 0] = [];
    assert(args@ =~= Seq::<Arg<'static>>::empty());
    let _ = conn.request(object, opcode, &args);
}

impl Clipboard {
    pub open spec fn wf(&self) -> bool {
        self.source_text matches Some(t) ==> t.wf()
    }

    /// A data_offer event: the compositor begins to describe an offer.
    fn offer(&mut self, conn: &mut Connection, offer_id: u32)
        requires
            old(self).wf(),
            old(conn).wf(),
        ensures
            final(self).wf(),
            final(conn).wf(),
            final(self)@ == old(self)@.offered(offer_id),
            final(conn)@ == discarded_opt(
                old(conn)@,
                old(self)@.pending_offer,
                DATA_OFFER_DESTROY,
            ),
    {
        // A second offer before any selection supersedes the first. Nothing
        // will name the old one again, so destroy it, or it stays alive in the
        // compositor for the whole session.
        if let Some(old_offer) = self.pending_offer {
            discard(conn, old_offer, DATA_OFFER_DESTROY);
        }
        self.pending_offer = Some(offer_id);
        self.pending_mime = None;
    }

    /// A selection event: the compositor names the clipboard, or clears it.
    fn select(&mut self, conn: &mut Connection, offer_id: u32)
        requires
            old(self).wf(),
            old(conn).wf(),
        ensures
            final(self).wf(),
            final(conn).wf(),
            final(self)@ == old(self)@.selected(offer_id),
            final(conn)@ == old(self)@.retired(old(conn)@, offer_id),
    {
        let pending = self.pending_offer;
        let pending_mime = self.pending_mime;
        self.pending_offer = None;
        self.pending_mime = None;
        // Retire the offer held before this selection.
        if let Some(old_offer) = self.selection_offer {
            discard(conn, old_offer, DATA_OFFER_DESTROY);
        }
        self.selection_offer = None;
        self.selection_mime = None;
        if offer_id != 0 {
            self.selection_offer = Some(offer_id);
            if let Some(p) = pending {
                if p == offer_id {
                    self.selection_mime = pending_mime;
                }
            }
        }
        // A cleared selection, or one naming some other offer, leaves the
        // pending offer with no owner.
        if let Some(p) = pending {
            if offer_id == 0 || p != offer_id {
                discard(conn, p, DATA_OFFER_DESTROY);
            }
        }
    }

    /// An offer event: one MIME type of the offer being described. The owner
    /// picks these strings: one that is not a type we accept is not worth
    /// failing over, so a malformed event is dropped, not the session.
    fn advertise(&mut self, body: &[u8])
        requires
            old(self).wf(),
        ensures
            final(self).wf(),
            final(self)@ == old(self)@.advertised(body@),
    {
        let mut r = Reader::new(body);
        if let Ok(mime) = r.string() {
            if let Some(m) = TextMime::from_mime(mime) {
                let richer = match self.pending_mime {
                    Some(TextMime::Utf8) => TextMime::Utf8,
                    _ => m,
                };
                self.pending_mime = Some(richer);
            }
        }
    }

    /// Handle a clipboard event.
    pub fn handle(&mut self, conn: &mut Connection, object: u32, opcode: u16, body: &[u8]) -> (r:
        Result<Handled>)
        requires
            old(self).wf(),
            old(conn).wf(),
        ensures
            final(self).wf(),
            final(conn).wf(),
            ({
                let (v, c, h) = old(self)@.handled(old(conn)@, object, opcode, body@);
                &&& final(self)@ == v
                &&& final(conn)@ == c
                &&& Handled::is(r, h)
            }),
    {
        if is_id(self.device_id, object) {
            if opcode == DATA_DEVICE_EV_DATA_OFFER {
                let mut r = Reader::new(body);
                let offer_id: u32 = r.u32()?;
                self.offer(conn, offer_id);
            } else if opcode == DATA_DEVICE_EV_SELECTION {
                let mut r = Reader::new(body);
                let offer_id: u32 = r.u32()?;
                self.select(conn, offer_id);
            }
            return Ok(Handled::Ours);
        }
        if is_id(self.pending_offer, object) && opcode == DATA_OFFER_EV_OFFER {
            self.advertise(body);
            return Ok(Handled::Ours);
        }
        // Our own source: serve the text we copied, and notice if we lose it.
        if is_id(self.source_id, object) {
            if opcode == DATA_SOURCE_EV_SEND {
                // The MIME the compositor names is one of the two we advertised,
                // and both are served the same bytes, so the argument is not
                // read: parsing it would only add a way for this to fail.
                if let Some(fd) = conn.take_fd() {
                    let text = match &self.source_text {
                        Some(t) => Some(t.clone()),
                        None => None,
                    };
                    return Ok(Handled::Serve(fd, text));
                }
            } else if opcode == DATA_SOURCE_EV_CANCELLED {
                // Another app took the clipboard.
                self.source_id = None;
                self.source_text = None;
            }
            return Ok(Handled::Ours);
        }
        Ok(Handled::Foreign)
    }
}

/// Whether an object is the one held, if any.
pub fn is_id(id: Option<u32>, object: u32) -> (r: bool)
    ensures
        r == (id == Some(object)),
{
    match id {
        Some(i) => i == object,
        None => false,
    }
}

/// The requests that make a source the clipboard.
pub open spec fn set_script(manager: u32, device: u32, source: u32, serial: u32) -> Seq<Out> {
    seq![
        Out::Msg(
            wire::message_bytes(
                manager,
                DATA_DEVICE_MANAGER_CREATE_DATA_SOURCE,
                seq![Arg::NewId(source)],
            ),
        ),
        Out::Msg(
            wire::message_bytes(source, DATA_SOURCE_OFFER, seq![Arg::Str(TextMime::Utf8.name())]),
        ),
        Out::Msg(
            wire::message_bytes(source, DATA_SOURCE_OFFER, seq![Arg::Str(TextMime::Plain.name())]),
        ),
        Out::Msg(
            wire::message_bytes(
                device,
                DATA_DEVICE_SET_SELECTION,
                seq![Arg::Object(source), Arg::Uint(serial)],
            ),
        ),
        Out::Flush,
    ]
}

/// The text a source serves: all of it, or none when it does not fit.
pub open spec fn served(s: Seq<char>) -> Seq<char> {
    if text::byte_len(s) <= INPUT_CAP {
        s
    } else {
        Seq::empty()
    }
}

impl ClipView {
    /// What taking ownership of the clipboard does.
    pub open spec fn owned(
        self,
        c: ConnView,
        ids: IdsView,
        manager: Option<u32>,
        serial: u32,
        s: Seq<char>,
    ) -> (ClipView, ConnView, IdsView, core::result::Result<(), Error>) {
        if manager is None {
            (self, c, ids, Err(Error::of_msg("no data device manager")))
        } else if self.device_id is None {
            (self, c, ids, Err(Error::of_msg("no data device")))
        } else {
            let source = ids.id();
            let (after, ok) = discarded_opt(c, self.source_id, DATA_SOURCE_DESTROY).put_all(
                set_script(manager->0, self.device_id->0, source, serial),
            );
            if ok {
                (
                    ClipView {
                        source_id: Some(source),
                        source_text: Some(served(s)),
                        ..self
                    },
                    after,
                    ids.taken(),
                    Ok(()),
                )
            } else {
                (ClipView { source_id: None, ..self }, after, ids.taken(), Err(conn::full()))
            }
        }
    }
}

/// Where the clipboard's text comes from.
pub enum Source {
    /// From us, and here it is.
    Owned(ArrayString<CLIP_CAP>),
    /// From the compositor, by an offer and the MIME type to ask of it.
    Offer(u32, TextMime),
}

impl Clipboard {
    /// Take ownership of the clipboard and serve text from it.
    ///
    /// The serial must come from the input event that triggered the copy; the
    /// compositor rejects a stale one.
    pub fn set(
        &mut self,
        conn: &mut Connection,
        manager_id: Option<u32>,
        ids: &mut IdAllocator,
        serial: u32,
        text: &str,
    ) -> (r: Result<()>)
        requires
            old(self).wf(),
            old(conn).wf(),
            old(ids).wf(),
            old(ids)@.room(1),
        ensures
            final(self).wf(),
            final(conn).wf(),
            final(ids).wf(),
            (final(self)@, final(conn)@, final(ids)@, r) == old(self)@.owned(
                old(conn)@,
                old(ids)@,
                manager_id,
                serial,
                text@,
            ),
    {
        let manager = match manager_id {
            Some(m) => m,
            None => {
                return Err(Error::msg("no data device manager"));
            },
        };
        let device = match self.device_id {
            Some(d) => d,
            None => {
                return Err(Error::msg("no data device"));
            },
        };
        if let Some(old_source) = self.source_id {
            discard(conn, old_source, DATA_SOURCE_DESTROY);
        }
        self.source_id = None;
        let ghost c0 = conn@;
        let source: u32 = ids.allocate();
        let ghost script = set_script(manager, device, source, serial);
        let create = [Arg::NewId(source)];
        assert(create@ =~= seq![Arg::NewId(source)]);
        conn.request(manager, DATA_DEVICE_MANAGER_CREATE_DATA_SOURCE, &create)?;
        assert(c0.put_all(script) == conn@.put_from(script, 1));
        let utf8 = [Arg::Str(TextMime::Utf8.as_str())];
        assert(utf8@ =~= seq![Arg::Str(TextMime::Utf8.name())]);
        conn.request(source, DATA_SOURCE_OFFER, &utf8)?;
        assert(c0.put_all(script) == conn@.put_from(script, 2));
        let plain = [Arg::Str(TextMime::Plain.as_str())];
        assert(plain@ =~= seq![Arg::Str(TextMime::Plain.name())]);
        conn.request(source, DATA_SOURCE_OFFER, &plain)?;
        assert(c0.put_all(script) == conn@.put_from(script, 3));
        let select = [Arg::Object(source), Arg::Uint(serial)];
        assert(select@ =~= seq![Arg::Object(source), Arg::Uint(serial)]);
        conn.request(device, DATA_DEVICE_SET_SELECTION, &select)?;
        assert(c0.put_all(script) == conn@.put_from(script, 4));
        conn.flush();
        assert(c0.put_all(script) == conn@.put_from(script, 5));
        self.source_id = Some(source);
        let mut stored: ArrayString<INPUT_CAP> = ArrayString::new();
        proof {
            text::lemma_byte_len_bounds(Seq::<char>::empty());
            assert(Seq::<char>::empty() + text@ =~= text@);
        }
        let _ = stored.push_str(text);
        self.source_text = Some(stored);
        Ok(())
    }

    /// Where the text on the clipboard comes from.
    ///
    /// When we own the selection the answer is already in hand, and it has to be:
    /// asking the compositor for our own offer would deadlock, since it would
    /// send us the request for the data on the same connection we are blocked on
    /// reading.
    pub fn read(&self) -> (r: Result<Source>)
        requires
            self.wf(),
        ensures
            match self@.source_text {
                Some(t) => r matches Ok(Source::Owned(s)) && s.wf() && s@ == t,
                None => match self@.selection_offer {
                    None => r == Err::<Source, Error>(Error::of_msg("no clipboard selection")),
                    Some(offer) => match self@.selection_mime {
                        None => r == Err::<Source, Error>(
                            Error::of_msg("the clipboard has no text on it"),
                        ),
                        Some(m) => r == Ok::<Source, Error>(Source::Offer(offer, m)),
                    },
                },
            },
    {
        if let Some(owned) = &self.source_text {
            let mut text: ArrayString<CLIP_CAP> = ArrayString::new();
            proof {
                owned.lemma_wf();
                text::lemma_byte_len_bounds(Seq::<char>::empty());
                assert(Seq::<char>::empty() + owned@ =~= owned@);
            }
            let _ = text.push_str(owned.as_str());
            return Ok(Source::Owned(text));
        }
        let offer = match self.selection_offer {
            Some(o) => o,
            None => {
                return Err(Error::msg("no clipboard selection"));
            },
        };
        match self.selection_mime {
            Some(m) => Ok(Source::Offer(offer, m)),
            None => Err(Error::msg("the clipboard has no text on it")),
        }
    }
}

/// The requests that ask for an offer's data through a pipe.
pub open spec fn receive_script(offer: u32, mime: TextMime, write_end: RawFd) -> Seq<Out> {
    seq![
        Out::WithFds(
            wire::message_bytes(offer, DATA_OFFER_RECEIVE, seq![Arg::Str(mime.name())]),
            seq![write_end],
        ),
        Out::Flush,
    ]
}

/// Ask for an offer's data through a pipe. The caller drops its own write end
/// once this is sent, so the pipe reaches its end when the owner has finished.
pub fn receive(conn: &mut Connection, offer: u32, mime: TextMime, write_end: RawFd) -> (r: Result<()>)
    requires
        old(conn).wf(),
    ensures
        final(conn).wf(),
        final(conn)@ == old(conn)@.put_all(receive_script(offer, mime, write_end)).0,
        old(conn)@.put_all(receive_script(offer, mime, write_end)).1 ==> r == Ok::<(), Error>(()),
        !old(conn)@.put_all(receive_script(offer, mime, write_end)).1 ==> r == Err::<(), Error>(
            conn::full(),
        ),
{
    let ghost c0 = conn@;
    let ghost script = receive_script(offer, mime, write_end);
    let args = [Arg::Str(mime.as_str())];
    assert(args@ =~= seq![Arg::Str(mime.name())]);
    let fds = [write_end];
    assert(fds@ =~= seq![write_end]);
    conn.request_with_fd(offer, DATA_OFFER_RECEIVE, &args, &fds)?;
    assert(c0.put_all(script) == conn@.put_from(script, 1));
    conn.flush();
    assert(c0.put_all(script) == conn@.put_from(script, 2));
    Ok(())
}

/// Only one offer is in force: once a selection is named, the offers known
/// before it are either that one or on their way out, and nothing is pending.
pub proof fn law_a_selection_leaves_nothing_pending(v: ClipView, offer: u32)
    ensures
        v.selected(offer).pending_offer is None,
        v.selected(offer).pending_mime is None,
        offer != 0 ==> v.selected(offer).selection_offer == Some(offer),
        offer == 0 ==> v.selected(offer).selection_offer is None && v.selected(
            offer,
        ).selection_mime is None,
{
}

/// The types of an offer are those advertised on it: an offer described with a
/// type and then selected is read as the richest type it advertised, and a
/// selection that names some other offer has none.
pub proof fn law_a_selection_has_the_types_of_its_offer(v: ClipView, offer: u32, other: u32)
    requires
        offer != 0,
        other != offer,
    ensures
        v.offered(offer).selected(offer).selection_mime is None,
        v.pending_offer == Some(offer) ==> v.selected(offer).selection_mime == v.pending_mime,
        v.pending_offer == Some(other) ==> v.selected(offer).selection_mime is None,
{
}

/// What is copied is what is pasted: text taken over by the clipboard is served
/// from it, and read back without asking the compositor.
pub proof fn law_a_copy_reads_back(
    v: ClipView,
    c: ConnView,
    ids: IdsView,
    manager: Option<u32>,
    serial: u32,
    s: Seq<char>,
)
    requires
        text::byte_len(s) <= INPUT_CAP,
        v.owned(c, ids, manager, serial, s).3 is Ok,
    ensures
        v.owned(c, ids, manager, serial, s).0.source_text == Some(s),
        v.owned(c, ids, manager, serial, s).0.source_id == Some(ids.id()),
{
}

/// A paste is never mangled: what is read spells the bytes that came, up to a
/// tail that is not text, and no more of them were text.
pub proof fn law_a_paste_spells_what_came(b: Seq<u8>)
    ensures
        0 <= valid_up_to(b) <= b.len(),
        encode_utf8(text_of(b)) == b.take(valid_up_to(b)),
        forall|k: int| valid_up_to(b) < k <= b.len() ==> !valid_utf8(#[trigger] b.take(k)),
{
    lemma_valid_up_to(b);
    decode_utf8_encode_utf8(b.take(valid_up_to(b)));
}

} // verus!
