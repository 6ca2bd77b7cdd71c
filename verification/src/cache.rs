//! Binary cache of discovered desktop entries plus recent launches.
//!
//! The file is disposable: any problem with its header or entries and it is
//! rebuilt from a scan. Two sections, two write paths. The entries change only
//! when the set of installed apps changes and are written whole. The recents
//! section trails the entries and changes on every launch; a record overwrites
//! just that tail in place. The tail write is not atomic, so decode parses
//! recents leniently: a torn write there yields empty recents but never discards
//! the entries.
//!
//! Layout (little-endian, no padding):
//!   magic        4 bytes "BNKL"
//!   version      u8
//!   fingerprint  u64   newest mtime of the scanned application dirs (nanos)
//!   count        u32
//!   per entry:   u16 name len + utf-8, then u16 command len + utf-8
//!   recents:     u16 count, then per name u16 len + utf-8
use vstd::prelude::*;
use vstd::utf8::*;

use crate::desktop;
use crate::laws;
use crate::desktop::{Catalog, DesktopEntry, EXEC_CAP, MAX_ENTRIES, NAME_CAP, RESULT_CAP};
use crate::platform::arena::{ArrayString, ArrayVec};
use crate::platform::bytes;
use crate::platform::bytes::{from_le_bytes, to_le_bytes, Cursor};
use crate::platform::error::{Error, Result};
use crate::platform::syscall::PATH_CAP;
use crate::platform::text;

verus! {

pub const VERSION: u8 = 2;

/// Largest cache file. A catalog that does not fit is left uncached rather than
/// half written.
pub const CACHE_MAX: usize = 524288;

/// Most number of recent launches kept.
pub const RECENT_CAP: usize = 20;

/// Encoded recents section: bounded by the recents count, never the full cache.
pub const RECENTS_ENC_CAP: usize = 5162;

/// Bytes ahead of the entries: magic, version, fingerprint and count.
pub const HEADER_LEN: usize = 17;

/// Recent launch names, most-recently-used first.
pub type Recents = ArrayVec<ArrayString<NAME_CAP>, RECENT_CAP>;

/// Cached entries, the directory fingerprint they were built from, the recent
/// launches in MRU order, and the byte offset where the recents section begins.
pub struct Cached {
    pub entries: Catalog,
    pub fingerprint: u64,
    pub recents: Recents,
    pub recents_offset: u64,
}

/// What a cache file holds.
#[verifier::ext_equal]
pub struct CacheView {
    pub entries: Seq<(Seq<char>, Seq<char>)>,
    pub fingerprint: nat,
    pub recents: Seq<Seq<char>>,
    pub recents_offset: nat,
}

impl Cached {
    pub open spec fn wf(&self) -> bool {
        &&& self.entries.wf()
        &&& desktop::entries_wf(self.entries@)
        &&& self.recents.wf()
        &&& desktop::all_wf(self.recents@)
    }
}

impl View for Cached {
    type V = CacheView;

    open spec fn view(&self) -> CacheView {
        CacheView {
            entries: desktop::summaries(self.entries@),
            fingerprint: self.fingerprint as nat,
            recents: desktop::strings(self.recents@),
            recents_offset: self.recents_offset as nat,
        }
    }
}

/// A string in the file: its length in two bytes, then its bytes.
pub open spec fn str_bytes(s: Seq<char>) -> Seq<u8> {
    bytes::le(text::byte_len(s), 2) + encode_utf8(s)
}

/// The entries section.
pub open spec fn records_bytes(entries: Seq<(Seq<char>, Seq<char>)>) -> Seq<u8>
    decreases entries.len(),
{
    if entries.len() == 0 {
        Seq::empty()
    } else {
        records_bytes(entries.drop_last()) + str_bytes(entries.last().0) + str_bytes(
            entries.last().1,
        )
    }
}

/// Names one after the other.
pub open spec fn names_bytes(names: Seq<Seq<char>>) -> Seq<u8>
    decreases names.len(),
{
    if names.len() == 0 {
        Seq::empty()
    } else {
        names_bytes(names.drop_last()) + str_bytes(names.last())
    }
}

/// The first names, as many as are kept.
pub open spec fn newest_names(names: Seq<Seq<char>>) -> Seq<Seq<char>> {
    if names.len() > RECENT_CAP {
        names.take(RECENT_CAP as int)
    } else {
        names
    }
}

/// The recents section.
pub open spec fn recents_bytes(names: Seq<Seq<char>>) -> Seq<u8> {
    let kept = newest_names(names);
    bytes::le(kept.len(), 2) + names_bytes(kept)
}

/// The magic that opens the file.
pub open spec fn magic() -> Seq<u8> {
    seq![66u8, 78u8, 75u8, 76u8]
}

/// Everything ahead of the recents section.
pub open spec fn head_bytes(entries: Seq<(Seq<char>, Seq<char>)>, fingerprint: nat) -> Seq<u8> {
    magic() + seq![VERSION] + bytes::le(fingerprint, 8) + bytes::le(entries.len(), 4)
        + records_bytes(entries)
}

/// The whole file.
pub open spec fn file_bytes(
    entries: Seq<(Seq<char>, Seq<char>)>,
    fingerprint: nat,
    recents: Seq<Seq<char>>,
) -> Seq<u8> {
    head_bytes(entries, fingerprint) + recents_bytes(recents)
}

fn write_bytes<const N: usize>(out: &mut ArrayVec<u8, N>, data: &[u8]) -> (r: Result<()>)
    requires
        old(out).wf(),
    ensures
        final(out).wf(),
        old(out)@.len() + data@.len() <= N ==> r == Ok::<(), Error>(()) && final(out)@ == old(
            out,
        )@ + data@,
        old(out)@.len() + data@.len() > N ==> r == Err::<(), Error>(
            Error::of_msg("cache too large to encode"),
        ),
{
    match out.extend_from_slice(data) {
        Ok(()) => Ok(()),
        Err(_) => Err(Error::msg("cache too large to encode")),
    }
}

fn write_string<const N: usize>(out: &mut ArrayVec<u8, N>, s: &str) -> (r: Result<()>)
    requires
        old(out).wf(),
        text::byte_len(s@) <= 0xFFFF,
    ensures
        final(out).wf(),
        old(out)@.len() + str_bytes(s@).len() <= N ==> r == Ok::<(), Error>(()) && final(out)@
            == old(out)@ + str_bytes(s@),
        old(out)@.len() + str_bytes(s@).len() > N ==> r == Err::<(), Error>(
            Error::of_msg("cache too large to encode"),
        ),
{
    let b = s.as_bytes();
    let ghost orig = out@;
    let len = to_le_bytes(b.len() as u64, 2);
    proof {
        bytes::lemma_le_len(b@.len(), 2);
    }
    write_bytes(out, len.as_slice())?;
    let r = write_bytes(out, b);
    proof {
        if r is Ok {
            assert(out@ == orig + str_bytes(s@));
        }
    }
    r
}

proof fn lemma_str_bytes_len(s: Seq<char>)
    ensures
        str_bytes(s).len() == 2 + text::byte_len(s),
{
    bytes::lemma_le_len(text::byte_len(s), 2);
}

/// A prefix of the records takes no more bytes than all of them.
proof fn lemma_records_prefix(e: Seq<(Seq<char>, Seq<char>)>, i: int)
    requires
        0 <= i <= e.len(),
    ensures
        records_bytes(e.take(i)).len() <= records_bytes(e).len(),
        4 * e.len() <= records_bytes(e).len(),
    decreases e.len(),
{
    if e.len() > 0 {
        lemma_str_bytes_len(e.last().0);
        lemma_str_bytes_len(e.last().1);
        if i == e.len() {
            assert(e.take(i) == e);
            lemma_records_prefix(e.drop_last(), 0);
        } else {
            lemma_records_prefix(e.drop_last(), i);
            assert(e.drop_last().take(i) == e.take(i));
        }
    } else {
        assert(e.take(i) == e);
    }
}

proof fn lemma_names_len(names: Seq<Seq<char>>)
    requires
        forall|i: int| 0 <= i < names.len() ==> text::byte_len(#[trigger] names[i]) <= NAME_CAP,
    ensures
        names_bytes(names).len() <= names.len() * (2 + NAME_CAP),
    decreases names.len(),
{
    if names.len() > 0 {
        let prev = names.drop_last();
        assert forall|i: int| 0 <= i < prev.len() implies text::byte_len(#[trigger] prev[i])
            <= NAME_CAP by {
            assert(prev[i] == names[i]);
        }
        lemma_names_len(prev);
        lemma_str_bytes_len(names.last());
    }
}

/// The recents section of the file: the first RECENT_CAP names.
pub fn encode_recents(recents: &[ArrayString<NAME_CAP>]) -> (r: Result<
    ArrayVec<u8, RECENTS_ENC_CAP>,
>)
    requires
        desktop::all_wf(recents@),
    ensures
        r is Ok,
        r->Ok_0.wf(),
        r->Ok_0@ == recents_bytes(desktop::strings(recents@)),
{
    let count: usize = if recents.len() < RECENT_CAP {
        recents.len()
    } else {
        RECENT_CAP
    };
    let ghost all = desktop::strings(recents@);
    let ghost kept = newest_names(all);
    let mut out: ArrayVec<u8, RECENTS_ENC_CAP> = ArrayVec::new();
    let prefix = to_le_bytes(count as u64, 2);
    proof {
        bytes::lemma_le_len(count as nat, 2);
        assert forall|i: int| 0 <= i < kept.len() implies text::byte_len(#[trigger] kept[i])
            <= NAME_CAP by {
            assert(kept[i] == recents@[i]@);
            recents@[i].lemma_wf();
        }
        assert(kept.take(0) == Seq::<Seq<char>>::empty());
    }
    write_bytes(&mut out, prefix.as_slice())?;
    assert(out@ == prefix@ + names_bytes(kept.take(0)));
    let mut i: usize = 0;
    while i < count
        invariant
            i <= count <= recents@.len(),
            count <= RECENT_CAP,
            out.wf(),
            desktop::all_wf(recents@),
            all == desktop::strings(recents@),
            kept == newest_names(all),
            kept.len() == count,
            prefix@.len() == 2,
            out@ == prefix@ + names_bytes(kept.take(i as int)),
            forall|i: int| 0 <= i < kept.len() ==> text::byte_len(#[trigger] kept[i]) <= NAME_CAP,
        decreases count - i,
    {
        proof {
            assert(kept.take(i + 1).drop_last() == kept.take(i as int));
            assert(kept.take(i + 1).last() == kept[i as int]);
            assert(kept[i as int] == recents@[i as int]@);
            assert(recents@[i as int].wf());
            assert forall|k: int| 0 <= k <= i implies text::byte_len(
                #[trigger] kept.take(i + 1)[k],
            ) <= NAME_CAP by {
                assert(kept.take(i + 1)[k] == kept[k]);
            }
            lemma_names_len(kept.take(i + 1));
            lemma_str_bytes_len(kept[i as int]);
        }
        let ghost before = out@;
        write_string(&mut out, recents[i].as_str())?;
        assert(out@ == prefix@ + names_bytes(kept.take(i + 1)));
        i += 1;
    }
    assert(kept.take(kept.len() as int) == kept);
    Ok(out)
}

/// Encode the whole file and report where the recents section starts.
///
/// A catalog whose encoding exceeds CACHE_MAX is an error, not a truncation: a
/// half-written record would fail decode on every later start.
pub fn encode(
    entries: &[DesktopEntry],
    fingerprint: u64,
    recents: &[ArrayString<NAME_CAP>],
) -> (r: Result<(ArrayVec<u8, CACHE_MAX>, u64)>)
    requires
        desktop::entries_wf(entries@),
        desktop::all_wf(recents@),
    ensures
        ({
            let head = head_bytes(desktop::summaries(entries@), fingerprint as nat);
            let file = file_bytes(
                desktop::summaries(entries@),
                fingerprint as nat,
                desktop::strings(recents@),
            );
            if file.len() > CACHE_MAX {
                r == Err::<(ArrayVec<u8, CACHE_MAX>, u64), Error>(
                    Error::of_msg("cache too large to encode"),
                )
            } else {
                r is Ok && r->Ok_0.0.wf() && r->Ok_0.0@ == file && r->Ok_0.1 == head.len()
            }
        }),
{
    let mut out: ArrayVec<u8, CACHE_MAX> = ArrayVec::new();
    let ghost all = desktop::summaries(entries@);
    let ghost head = head_bytes(all, fingerprint as nat);
    proof {
        lemma_records_prefix(all, 0);
        bytes::lemma_le_len(fingerprint as nat, 8);
        bytes::lemma_le_len(all.len(), 4);
        assert(head.len() == HEADER_LEN + records_bytes(all).len());
    }
    if entries.len() > CACHE_MAX {
        return Err(Error::msg("cache too large to encode"));
    }
    let start: [u8; 5] = [66, 78, 75, 76, 2];
    write_bytes(&mut out, start.as_slice())?;
    let fp = to_le_bytes(fingerprint, 8);
    write_bytes(&mut out, fp.as_slice())?;
    let n = to_le_bytes(entries.len() as u64, 4);
    write_bytes(&mut out, n.as_slice())?;
    let ghost lead = magic() + seq![VERSION] + bytes::le(fingerprint as nat, 8) + bytes::le(
        all.len(),
        4,
    );
    proof {
        assert(out@ == lead);
        assert(all.take(0) == Seq::<(Seq<char>, Seq<char>)>::empty());
        assert(lead + records_bytes(all.take(0)) == lead);
    }
    let mut i: usize = 0;
    while i < entries.len()
        invariant
            i <= entries@.len(),
            out.wf(),
            desktop::entries_wf(entries@),
            all == desktop::summaries(entries@),
            lead.len() == HEADER_LEN,
            head.len() == HEADER_LEN + records_bytes(all).len(),
            head == head_bytes(all, fingerprint as nat),
            out@ == lead + records_bytes(all.take(i as int)),
        decreases entries.len() - i,
    {
        proof {
            assert(all.take(i + 1).drop_last() == all.take(i as int));
            assert(all.take(i + 1).last() == all[i as int]);
            assert(entries@[i as int].wf());
            entries@[i as int].lemma_wf();
            lemma_records_prefix(all, i + 1);
            lemma_str_bytes_len(all[i as int].0);
            lemma_str_bytes_len(all[i as int].1);
        }
        write_string(&mut out, entries[i].name.as_str())?;
        write_string(&mut out, entries[i].exec.as_str())?;
        assert(out@ == lead + records_bytes(all.take(i + 1)));
        i += 1;
    }
    assert(all.take(all.len() as int) == all);
    assert(out@ == head);
    let recents_offset: u64 = out.len() as u64;
    let tail = encode_recents(recents)?;
    write_bytes(&mut out, tail.as_slice())?;
    Ok((out, recents_offset))
}

/// The string at the front of some bytes, and what follows it.
pub open spec fn get_str(rest: Seq<u8>) -> Option<(Seq<char>, Seq<u8>)> {
    let n = bytes::from_le(rest.take(2));
    if rest.len() < 2 || rest.len() < 2 + n || !valid_utf8(rest.subrange(2, 2 + n as int)) {
        None
    } else {
        Some((decode_utf8(rest.subrange(2, 2 + n as int)), rest.skip(2 + n as int)))
    }
}

/// The first n records, and what follows them.
pub open spec fn get_records(rest: Seq<u8>, n: nat) -> Option<
    (Seq<(Seq<char>, Seq<char>)>, Seq<u8>),
>
    decreases n,
{
    if n == 0 {
        Some((Seq::empty(), rest))
    } else {
        match get_records(rest, (n - 1) as nat) {
            None => None,
            Some((before, after)) => match get_str(after) {
                None => None,
                Some((name, after)) => match get_str(after) {
                    None => None,
                    Some((command, after)) => Some((before.push((name, command)), after)),
                },
            },
        }
    }
}

/// The records an entry can hold, up to the most a catalog does. A field too
/// long is dropped with its record, not truncated.
pub open spec fn storable(records: Seq<(Seq<char>, Seq<char>)>) -> Seq<(Seq<char>, Seq<char>)>
    decreases records.len(),
{
    if records.len() == 0 {
        Seq::empty()
    } else {
        let before = storable(records.drop_last());
        let (name, command) = records.last();
        if text::byte_len(name) <= NAME_CAP && text::byte_len(command) <= EXEC_CAP && before.len()
            < MAX_ENTRIES {
            before.push(records.last())
        } else {
            before
        }
    }
}

/// The first n names.
pub open spec fn get_names(rest: Seq<u8>, n: nat) -> Option<(Seq<Seq<char>>, Seq<u8>)>
    decreases n,
{
    if n == 0 {
        Some((Seq::empty(), rest))
    } else {
        match get_names(rest, (n - 1) as nat) {
            None => None,
            Some((before, after)) => match get_str(after) {
                None => None,
                Some((name, after)) => Some((before.push(name), after)),
            },
        }
    }
}

/// The names that fit a name.
pub open spec fn fitting(names: Seq<Seq<char>>) -> Seq<Seq<char>>
    decreases names.len(),
{
    if names.len() == 0 {
        Seq::empty()
    } else if text::byte_len(names.last()) <= NAME_CAP {
        fitting(names.drop_last()).push(names.last())
    } else {
        fitting(names.drop_last())
    }
}

/// The recents a recents section holds: none if it is torn.
pub open spec fn get_recents(rest: Seq<u8>) -> Seq<Seq<char>> {
    let stored = bytes::from_le(rest.take(2));
    let n = if stored > RECENT_CAP {
        RECENT_CAP as nat
    } else {
        stored
    };
    if rest.len() < 2 {
        Seq::empty()
    } else {
        match get_names(rest.skip(2), n) {
            Some((names, _)) => fitting(names),
            None => Seq::empty(),
        }
    }
}

/// What a file holds, unless its header or its entries are wrong.
pub open spec fn decoded(data: Seq<u8>) -> Option<CacheView> {
    if data.len() < HEADER_LEN || data.take(4) != magic() || data[4] != VERSION {
        None
    } else {
        let count = bytes::from_le(data.subrange(13, 17));
        match get_records(data.skip(HEADER_LEN as int), count) {
            None => None,
            Some((records, rest)) => Some(
                CacheView {
                    entries: storable(records),
                    fingerprint: bytes::from_le(data.subrange(5, 13)),
                    recents: get_recents(rest),
                    recents_offset: (data.len() - rest.len()) as nat,
                },
            ),
        }
    }
}

/// The cache's decoder, layered on the shared byte cursor.
struct Reader<'a> {
    cur: Cursor<'a>,
}

impl<'a> Reader<'a> {
    spec fn rest(&self) -> Seq<u8> {
        self.cur.rest()
    }

    spec fn wf(&self) -> bool {
        self.cur.wf()
    }

    fn number(&mut self, n: usize) -> (r: Option<u64>)
        requires
            old(self).wf(),
            n <= 8,
        ensures
            final(self).wf(),
            final(self).cur.data() == old(self).cur.data(),
            old(self).rest().len() >= n ==> r is Some && r->0 == bytes::from_le(
                old(self).rest().take(n as int),
            ) && final(self).rest() == old(self).rest().skip(n as int),
            old(self).rest().len() < n ==> r is None && final(self).rest() == old(self).rest(),
            final(self).cur.at() == old(self).cur.at() + old(self).rest().len()
                - final(self).rest().len(),
    {
        match self.cur.take(n) {
            Some(b) => Some(from_le_bytes(b)),
            None => None,
        }
    }

    fn string(&mut self) -> (r: Option<&'a str>)
        requires
            old(self).wf(),
        ensures
            final(self).wf(),
            final(self).cur.data() == old(self).cur.data(),
            match get_str(old(self).rest()) {
                Some((s, after)) => r is Some && r->0@ == s && final(self).rest() == after,
                None => r is None,
            },
    {
        let ghost rest = self.rest();
        let n: usize = match self.number(2) {
            Some(n) => n as usize,
            None => return None,
        };
        proof {
            bytes::lemma_le_of_from_le(rest.take(2));
            bytes::lemma_pow256_values();
        }
        match self.cur.take(n) {
            None => None,
            Some(b) => {
                proof {
                    assert(b@ == rest.subrange(2, 2 + n));
                    assert(self.rest() == rest.skip(2 + n));
                }
                match text::str_from_utf8(b) {
                    Some(s) => {
                        proof {
                            encode_utf8_decode_utf8(s@);
                        }
                        Some(s)
                    },
                    None => None,
                }
            },
        }
    }
}

/// Records that cannot be read stay unreadable.
proof fn lemma_records_fail(rest: Seq<u8>, k: nat, n: nat)
    requires
        k <= n,
        get_records(rest, k) is None,
    ensures
        get_records(rest, n) is None,
    decreases n,
{
    if k < n {
        lemma_records_fail(rest, k, (n - 1) as nat);
    }
}

proof fn lemma_names_fail(rest: Seq<u8>, k: nat, n: nat)
    requires
        k <= n,
        get_names(rest, k) is None,
    ensures
        get_names(rest, n) is None,
    decreases n,
{
    if k < n {
        lemma_names_fail(rest, k, (n - 1) as nat);
    }
}

/// Read a cache file. None when its header or entries fail to validate, in which
/// case the caller rebuilds from a fresh scan.
pub fn decode(data: &[u8]) -> (r: Option<Cached>)
    ensures
        match decoded(data@) {
            Some(v) => r is Some && r->0.wf() && r->0@ == v,
            None => r is None,
        },
{
    if data.len() < HEADER_LEN {
        return None;
    }
    proof {
        assert(data@.take(4) == seq![data@[0], data@[1], data@[2], data@[3]]);
        assert(data@.take(4) == magic() <==> (data@[0] == 66 && data@[1] == 78 && data@[2] == 75
            && data@[3] == 76)) by {
            if data@.take(4) == magic() {
                assert(data@.take(4)[0] == 66 && data@.take(4)[1] == 78 && data@.take(4)[2] == 75
                    && data@.take(4)[3] == 76);
            }
        }
    }
    if data[0] != 66 || data[1] != 78 || data[2] != 75 || data[3] != 76 || data[4] != VERSION {
        return None;
    }
    let mut r = Reader { cur: Cursor::new(data) };
    let _ = r.cur.take(5);
    let fingerprint: u64 = match r.number(8) {
        Some(v) => v,
        None => return None,
    };
    let count: u64 = match r.number(4) {
        Some(v) => v,
        None => return None,
    };
    proof {
        assert(data@.skip(5).take(8) == data@.subrange(5, 13));
        assert(data@.skip(5).skip(8).take(4) == data@.subrange(13, 17));
        assert(r.rest() == data@.skip(HEADER_LEN as int));
    }
    let ghost body = data@.skip(HEADER_LEN as int);
    let mut entries: Catalog = ArrayVec::new();
    let mut i: u64 = 0;
    assert(desktop::summaries(entries@) == storable(Seq::empty()));
    // The count is untrusted: records past the catalog's capacity are still
    // read to keep the stream aligned, just not stored.
    while i < count
        invariant
            i <= count,
            r.wf(),
            r.cur.data() == data@,
            data@.len() >= HEADER_LEN,
            body == data@.skip(HEADER_LEN as int),
            data@.take(4) == magic(),
            data@[4] == VERSION,
            count == bytes::from_le(data@.subrange(13, 17)),
            entries.wf(),
            desktop::entries_wf(entries@),
            get_records(body, i as nat) is Some,
            (get_records(body, i as nat)->0).1 == r.rest(),
            desktop::summaries(entries@) == storable((get_records(body, i as nat)->0).0),
        decreases count - i,
    {
        let ghost before = (get_records(body, i as nat)->0).0;
        let name = match r.string() {
            Some(s) => s,
            None => {
                proof {
                    lemma_records_fail(body, (i + 1) as nat, count as nat);
                }
                return None;
            },
        };
        let command = match r.string() {
            Some(s) => s,
            None => {
                proof {
                    lemma_records_fail(body, (i + 1) as nat, count as nat);
                }
                return None;
            },
        };
        let ghost old_entries = entries@;
        proof {
            assert(before.push((name@, command@)).drop_last() == before);
            assert(desktop::summaries(old_entries).len() == old_entries.len());
        }
        if let Some(entry) = DesktopEntry::new(name, command) {
            let ghost e = entry;
            if entries.push(entry).is_ok() {
                assert(desktop::summaries(entries@) == desktop::summaries(old_entries).push(
                    desktop::summary(e),
                ));
            }
        }
        i += 1;
    }
    let recents_offset: u64 = r.cur.pos() as u64;
    let recents = decode_recents(&mut r);
    Some(Cached { entries, fingerprint, recents, recents_offset })
}

/// Load what a read of the cache file returned. None when it is missing, larger
/// than a cache can be, or fails to validate.
pub fn load(data: Option<&[u8]>) -> (r: Option<Cached>)
    ensures
        match data {
            Some(data) => if data@.len() <= CACHE_MAX && decoded(data@) is Some {
                r is Some && r->0.wf() && r->0@ == decoded(data@)->0
            } else {
                r is None
            },
            None => r is None,
        },
{
    match data {
        Some(data) => if data.len() <= CACHE_MAX {
            decode(data)
        } else {
            None
        },
        None => None,
    }
}

/// Read the recents section. Any problem yields no recents.
fn decode_recents(r: &mut Reader<'_>) -> (out: Recents)
    requires
        old(r).wf(),
    ensures
        out.wf(),
        desktop::all_wf(out@),
        desktop::strings(out@) == get_recents(old(r).rest()),
{
    let ghost rest = r.rest();
    let mut out: Recents = ArrayVec::new();
    assert(desktop::strings(out@) == Seq::<Seq<char>>::empty());
    let stored: u64 = match r.number(2) {
        Some(n) => n,
        None => return out,
    };
    let count: u64 = if stored > RECENT_CAP as u64 {
        RECENT_CAP as u64
    } else {
        stored
    };
    let ghost body = rest.skip(2);
    let mut i: u64 = 0;
    while i < count
        invariant
            i <= count <= RECENT_CAP,
            r.wf(),
            rest == old(r).rest(),
            rest.len() >= 2,
            body == rest.skip(2),
            count == (if bytes::from_le(rest.take(2)) > RECENT_CAP {
                RECENT_CAP as nat
            } else {
                bytes::from_le(rest.take(2))
            }),
            out.wf(),
            desktop::all_wf(out@),
            out@.len() <= i,
            get_names(body, i as nat) is Some,
            (get_names(body, i as nat)->0).1 == r.rest(),
            desktop::strings(out@) == fitting((get_names(body, i as nat)->0).0),
        decreases count - i,
    {
        let ghost before = (get_names(body, i as nat)->0).0;
        let s = match r.string() {
            Some(s) => s,
            None => {
                proof {
                    lemma_names_fail(body, (i + 1) as nat, count as nat);
                }
                let none: Recents = ArrayVec::new();
                assert(desktop::strings(none@) == Seq::<Seq<char>>::empty());
                return none;
            },
        };
        assert(before.push(s@).drop_last() == before);
        let mut name: ArrayString<NAME_CAP> = ArrayString::new();
        assert(Seq::<char>::empty() + s@ == s@);
        if name.push_str(s).is_ok() {
            let ghost old_out = out@;
            let ghost n = name@;
            let _ = out.push(name);
            assert(desktop::strings(out@) == desktop::strings(old_out).push(n));
        }
        i += 1;
    }
    out
}

/// The position of the first name equal to `name`, or the length.
pub open spec fn position_of(names: Seq<Seq<char>>, name: Seq<char>) -> int
    decreases names.len(),
{
    if names.len() == 0 || names[0] == name {
        0
    } else {
        1 + position_of(names.drop_first(), name)
    }
}

pub proof fn lemma_position_of(names: Seq<Seq<char>>, name: Seq<char>)
    ensures
        0 <= position_of(names, name) <= names.len(),
        position_of(names, name) < names.len() <==> names.contains(name),
        position_of(names, name) < names.len() ==> names[position_of(names, name)] == name,
        forall|j: int| 0 <= j < position_of(names, name) ==> #[trigger] names[j] != name,
    decreases names.len(),
{
    if names.len() > 0 && names[0] != name {
        let rest = names.drop_first();
        lemma_position_of(rest, name);
        if names.contains(name) {
            let k = choose|k: int| 0 <= k < names.len() && names[k] == name;
            assert(rest[k - 1] == name);
            assert(rest.contains(name));
        }
        if rest.contains(name) {
            let k = choose|k: int| 0 <= k < rest.len() && rest[k] == name;
            assert(names[k + 1] == name);
        }
        assert forall|j: int| 0 <= j < position_of(names, name) implies #[trigger] names[j]
            != name by {
            if j > 0 {
                assert(names[j] == rest[j - 1]);
            }
        }
    } else if names.len() > 0 {
        assert(names[0] == name);
    }
}

/// The names without their first occurrence of `name`.
pub open spec fn without(names: Seq<Seq<char>>, name: Seq<char>) -> Seq<Seq<char>> {
    if position_of(names, name) < names.len() {
        names.remove(position_of(names, name))
    } else {
        names
    }
}

/// The list after a launch of `name`: it moves to the front, and the oldest name
/// leaves a full list. A name that does not fit a name is not kept.
pub open spec fn recorded(names: Seq<Seq<char>>, name: Seq<char>) -> Seq<Seq<char>> {
    let others = without(names, name);
    if text::byte_len(name) > NAME_CAP {
        others
    } else if others.len() == RECENT_CAP {
        seq![name] + others.drop_last()
    } else {
        seq![name] + others
    }
}

fn find_name(names: &[ArrayString<NAME_CAP>], name: &str) -> (r: Option<usize>)
    requires
        desktop::all_wf(names@),
    ensures
        match r {
            Some(i) => i < names@.len() && i == position_of(desktop::strings(names@), name@),
            None => position_of(desktop::strings(names@), name@) == names@.len(),
        },
{
    let ghost all = desktop::strings(names@);
    let mut i: usize = 0;
    assert(all.skip(0) == all);
    while i < names.len()
        invariant
            i <= names@.len(),
            desktop::all_wf(names@),
            all == desktop::strings(names@),
            position_of(all, name@) == i + position_of(all.skip(i as int), name@),
        decreases names.len() - i,
    {
        assert(names@[i as int].wf());
        assert(all[i as int] == names@[i as int]@);
        if text::str_eq(names[i].as_str(), name) {
            return Some(i);
        }
        assert(all.skip(i as int).drop_first() == all.skip(i + 1));
        i += 1;
    }
    None
}

/// Move new_name to the front of the MRU list, dropping any earlier copy, and
/// cap the length. A name that does not fit an entry's capacity is ignored.
pub fn record_into(names: &mut Recents, new_name: &str)
    requires
        old(names).wf(),
        desktop::all_wf(old(names)@),
    ensures
        final(names).wf(),
        desktop::all_wf(final(names)@),
        desktop::strings(final(names)@) == recorded(desktop::strings(old(names)@), new_name@),
{
    let ghost all = desktop::strings(names@);
    proof {
        lemma_position_of(all, new_name@);
    }
    if let Some(pos) = find_name(names.as_slice(), new_name) {
        let _ = names.remove(pos);
        assert(desktop::strings(names@) == all.remove(pos as int));
    }
    let ghost others = desktop::strings(names@);
    assert(others == without(all, new_name@));
    assert(others.len() == names@.len());
    let mut name: ArrayString<NAME_CAP> = ArrayString::new();
    assert(Seq::<char>::empty() + new_name@ == new_name@);
    if name.push_str(new_name).is_err() {
        return;
    }
    // Make room at the front when full by dropping the least-recent entry.
    if names.is_full() {
        let _ = names.pop();
        assert(desktop::strings(names@) == others.drop_last());
    }
    let ghost room = names@;
    let ghost first = name@;
    let _ = names.insert(0, name);
    assert(desktop::strings(names@) == seq![first] + desktop::strings(room));
}

/// The bytes a record writes: the recents section, where it starts, and where
/// the file ends after it.
pub struct RecordWrite {
    pub offset: u64,
    pub block: ArrayVec<u8, RECENTS_ENC_CAP>,
    pub end: u64,
}

/// Record a launch as the most recent, and say what to write over the trailing
/// recents section. The entries ahead of it are never rewritten; the file is cut
/// at the new end, so a shrink leaves no stale trailing bytes. The list is
/// updated in memory too.
pub fn record(recents_offset: u64, recents: &mut Recents, name: &str) -> (r: Result<RecordWrite>)
    requires
        old(recents).wf(),
        desktop::all_wf(old(recents)@),
        recents_offset + RECENTS_ENC_CAP <= u64::MAX,
    ensures
        final(recents).wf(),
        desktop::all_wf(final(recents)@),
        desktop::strings(final(recents)@) == recorded(desktop::strings(old(recents)@), name@),
        r is Ok,
        r->Ok_0.offset == recents_offset,
        r->Ok_0.block.wf(),
        r->Ok_0.block@ == recents_bytes(desktop::strings(final(recents)@)),
        r->Ok_0.end == recents_offset + r->Ok_0.block@.len(),
{
    record_into(recents, name);
    let block = encode_recents(recents.as_slice())?;
    let end: u64 = recents_offset + block.len() as u64;
    Ok(RecordWrite { offset: recents_offset, block, end })
}

/// The position of the first entry with a name, or the length.
pub open spec fn entry_named(entries: Seq<DesktopEntry>, name: Seq<char>) -> int
    decreases entries.len(),
{
    if entries.len() == 0 || entries[0].name@ == name {
        0
    } else {
        1 + entry_named(entries.drop_first(), name)
    }
}

/// The positions of the entries recent names resolve to, in the order of the
/// names. A name without an entry is passed over.
pub open spec fn resolved(recents: Seq<Seq<char>>, entries: Seq<DesktopEntry>) -> Seq<int>
    decreases recents.len(),
{
    if recents.len() == 0 {
        Seq::empty()
    } else {
        let before = resolved(recents.drop_last(), entries);
        let at = entry_named(entries, recents.last());
        if at < entries.len() && before.len() < RESULT_CAP {
            before.push(at)
        } else {
            before
        }
    }
}

pub proof fn lemma_resolved_bounds(recents: Seq<Seq<char>>, entries: Seq<DesktopEntry>)
    ensures
        forall|k: int|
            0 <= k < resolved(recents, entries).len() ==> 0 <= #[trigger] resolved(
                recents,
                entries,
            )[k] < entries.len(),
    decreases recents.len(),
{
    if recents.len() > 0 {
        lemma_resolved_bounds(recents.drop_last(), entries);
        lemma_entry_named_bounds(entries, recents.last());
        let before = resolved(recents.drop_last(), entries);
        let now = resolved(recents, entries);
        assert forall|k: int| 0 <= k < now.len() implies 0 <= #[trigger] now[k] < entries.len() by {
            if k < before.len() {
                assert(now[k] == before[k]);
            }
        }
    }
}

proof fn lemma_entry_named_bounds(entries: Seq<DesktopEntry>, name: Seq<char>)
    ensures
        0 <= entry_named(entries, name) <= entries.len(),
    decreases entries.len(),
{
    if entries.len() > 0 {
        lemma_entry_named_bounds(entries.drop_first(), name);
    }
}

fn find_entry(entries: &[DesktopEntry], name: &str) -> (r: Option<usize>)
    requires
        desktop::entries_wf(entries@),
    ensures
        match r {
            Some(i) => i < entries@.len() && i == entry_named(entries@, name@),
            None => entry_named(entries@, name@) == entries@.len(),
        },
{
    let mut i: usize = 0;
    assert(entries@.skip(0) == entries@);
    while i < entries.len()
        invariant
            i <= entries@.len(),
            desktop::entries_wf(entries@),
            entry_named(entries@, name@) == i + entry_named(entries@.skip(i as int), name@),
        decreases entries.len() - i,
    {
        assert(entries@[i as int].wf());
        if text::str_eq(entries[i].name.as_str(), name) {
            return Some(i);
        }
        assert(entries@.skip(i as int).drop_first() == entries@.skip(i + 1));
        i += 1;
    }
    None
}

/// Resolve recent names to entries that still exist, in MRU order. Names without
/// a matching entry are dropped, so an uninstalled app needs no pruning.
pub fn resolve<'a>(recents: &[ArrayString<NAME_CAP>], entries: &'a [DesktopEntry]) -> (r: ArrayVec<
    &'a DesktopEntry,
    RESULT_CAP,
>)
    requires
        desktop::all_wf(recents@),
        desktop::entries_wf(entries@),
    ensures
        r.wf(),
        r@.len() == resolved(desktop::strings(recents@), entries@).len(),
        forall|k: int|
            0 <= k < r@.len() ==> *(#[trigger] r@[k]) == entries@[resolved(
                desktop::strings(recents@),
                entries@,
            )[k]],
        forall|k: int|
            0 <= k < r@.len() ==> desktop::strings(recents@).contains((#[trigger] r@[k]).name@)
                && entries@.contains(*r@[k]),
{
    let mut out: ArrayVec<&'a DesktopEntry, RESULT_CAP> = ArrayVec::new();
    let ghost names = desktop::strings(recents@);
    let mut i: usize = 0;
    assert(names.take(0) == Seq::<Seq<char>>::empty());
    while i < recents.len()
        invariant
            i <= recents@.len(),
            desktop::all_wf(recents@),
            desktop::entries_wf(entries@),
            names == desktop::strings(recents@),
            out.wf(),
            out@.len() == resolved(names.take(i as int), entries@).len(),
            forall|k: int|
                0 <= k < out@.len() ==> *(#[trigger] out@[k]) == entries@[resolved(
                    names.take(i as int),
                    entries@,
                )[k]],
        decreases recents.len() - i,
    {
        proof {
            assert(names.take(i + 1).drop_last() == names.take(i as int));
            assert(names.take(i + 1).last() == names[i as int]);
            assert(recents@[i as int].wf());
        }
        if let Some(at) = find_entry(entries, recents[i].as_str()) {
            let _ = out.push(&entries[at]);
        }
        i += 1;
    }
    assert(names.take(names.len() as int) == names);
    proof {
        laws::recents::law_recents_resolve_to_their_names(names, entries@);
        let at = resolved(names, entries@);
        assert forall|k: int| 0 <= k < out@.len() implies names.contains(
            (#[trigger] out@[k]).name@,
        ) && entries@.contains(*out@[k]) by {
            assert(laws::recents::names_at(entries@, at)[k] == entries@[at[k]].name@);
        }
    }
    out
}

/// Where the cache file is: under XDG_CACHE_HOME, or ~/.cache.
pub open spec fn path_of(cache_home: Option<Seq<char>>, home: Option<Seq<char>>) -> Option<
    Seq<char>,
> {
    if cache_home is Some {
        Some(cache_home->0 + "/bnklaunch/apps.bin"@)
    } else if home is Some {
        Some(home->0 + "/.cache"@ + "/bnklaunch/apps.bin"@)
    } else {
        None
    }
}

/// Where the cache file is. None without a home, or when the path does not fit.
pub fn cache_path(cache_home: Option<&str>, home: Option<&str>) -> (r: Option<
    ArrayString<PATH_CAP>,
>)
    ensures
        ({
            let path = path_of(desktop::text_opt(cache_home), desktop::text_opt(home));
            if path is Some && text::byte_len(path->0) <= PATH_CAP {
                r is Some && r->0.wf() && r->0@ == path->0
            } else {
                r is None
            }
        }),
{
    let mut p: ArrayString<PATH_CAP> = ArrayString::new();
    if let Some(dir) = cache_home {
        proof {
            text::lemma_encode_concat(dir@, "/bnklaunch/apps.bin"@);
        }
        if p.push_str(dir).is_err() {
            return None;
        }
        assert(p@ == dir@);
    } else {
        let dir = match home {
            Some(dir) => dir,
            None => return None,
        };
        proof {
            text::lemma_encode_concat(dir@, "/.cache"@);
            text::lemma_encode_concat(dir@ + "/.cache"@, "/bnklaunch/apps.bin"@);
        }
        if p.push_str(dir).is_err() {
            return None;
        }
        assert(p@ == dir@);
        if p.push_str("/.cache").is_err() {
            return None;
        }
    }
    if p.push_str("/bnklaunch/apps.bin").is_err() {
        return None;
    }
    Some(p)
}

/// What a save writes: the file, the path it is written to first and renamed
/// from, and where its recents section starts.
pub struct SaveWrite {
    pub tmp: ArrayString<PATH_CAP>,
    pub data: ArrayVec<u8, CACHE_MAX>,
    pub recents_offset: u64,
}

/// Prepare the whole file: header, entries, and recents. It goes to a temp file
/// that is renamed over the target, so a crash mid-write leaves the old cache
/// intact.
pub fn save(
    path: &str,
    entries: &[DesktopEntry],
    fingerprint: u64,
    recents: &[ArrayString<NAME_CAP>],
) -> (r: Result<SaveWrite>)
    requires
        desktop::entries_wf(entries@),
        desktop::all_wf(recents@),
    ensures
        ({
            let head = head_bytes(desktop::summaries(entries@), fingerprint as nat);
            let file = file_bytes(
                desktop::summaries(entries@),
                fingerprint as nat,
                desktop::strings(recents@),
            );
            let tmp = path@ + ".tmp"@;
            if file.len() > CACHE_MAX {
                r == Err::<SaveWrite, Error>(Error::of_msg("cache too large to encode"))
            } else if text::byte_len(tmp) > PATH_CAP {
                r == Err::<SaveWrite, Error>(Error::of_msg("path too long"))
            } else {
                &&& r is Ok
                &&& r->Ok_0.tmp.wf()
                &&& r->Ok_0.tmp@ == tmp
                &&& r->Ok_0.data.wf()
                &&& r->Ok_0.data@ == file
                &&& r->Ok_0.recents_offset == head.len()
            }
        }),
{
    let (data, recents_offset) = match encode(entries, fingerprint, recents) {
        Ok(p) => p,
        Err(e) => return Err(e),
    };
    let mut tmp: ArrayString<PATH_CAP> = ArrayString::new();
    proof {
        text::lemma_encode_concat(path@, ".tmp"@);
    }
    if tmp.push_str(path).is_err() {
        return Err(Error::msg("path too long"));
    }
    assert(tmp@ == path@);
    if tmp.push_str(".tmp").is_err() {
        return Err(Error::msg("path too long"));
    }
    Ok(SaveWrite { tmp, data, recents_offset })
}

/// A string fits a two-byte length.
pub open spec fn short(s: Seq<char>) -> bool {
    text::byte_len(s) <= 0xFFFF
}

/// A string reads back, whatever follows it.
pub proof fn law_string_round_trip(s: Seq<char>, rest: Seq<u8>)
    requires
        short(s),
    ensures
        get_str(str_bytes(s) + rest) == Some((s, rest)),
{
    let n = text::byte_len(s);
    let data = str_bytes(s) + rest;
    lemma_str_bytes_len(s);
    bytes::lemma_le_len(n, 2);
    bytes::lemma_pow256_values();
    bytes::lemma_from_le_of_le(n, 2);
    assert(data.take(2) == bytes::le(n, 2));
    assert(data.subrange(2, 2 + n as int) == encode_utf8(s));
    encode_utf8_valid_utf8(s);
    encode_utf8_decode_utf8(s);
    assert(data.skip(2 + n as int) == rest);
}

proof fn lemma_records_round_trip(e: Seq<(Seq<char>, Seq<char>)>, rest: Seq<u8>)
    requires
        forall|i: int| 0 <= i < e.len() ==> short((#[trigger] e[i]).0) && short(e[i].1),
    ensures
        get_records(records_bytes(e) + rest, e.len()) == Some((e, rest)),
    decreases e.len(),
{
    if e.len() == 0 {
        assert(records_bytes(e) + rest == rest);
        assert(e == Seq::<(Seq<char>, Seq<char>)>::empty());
    } else {
        let prev = e.drop_last();
        let (name, command) = e.last();
        let tail = str_bytes(name) + (str_bytes(command) + rest);
        assert forall|i: int| 0 <= i < prev.len() implies short((#[trigger] prev[i]).0) && short(
            prev[i].1,
        ) by {
            assert(prev[i] == e[i]);
        }
        lemma_records_round_trip(prev, tail);
        assert(records_bytes(e) + rest == records_bytes(prev) + tail);
        assert(short(e[e.len() - 1].0));
        law_string_round_trip(name, str_bytes(command) + rest);
        law_string_round_trip(command, rest);
        assert(prev.push(e.last()) == e);
    }
}

proof fn lemma_names_round_trip(names: Seq<Seq<char>>, rest: Seq<u8>)
    requires
        forall|i: int| 0 <= i < names.len() ==> short(#[trigger] names[i]),
    ensures
        get_names(names_bytes(names) + rest, names.len()) == Some((names, rest)),
    decreases names.len(),
{
    if names.len() == 0 {
        assert(names_bytes(names) + rest == rest);
        assert(names == Seq::<Seq<char>>::empty());
    } else {
        let prev = names.drop_last();
        let tail = str_bytes(names.last()) + rest;
        assert forall|i: int| 0 <= i < prev.len() implies short(#[trigger] prev[i]) by {
            assert(prev[i] == names[i]);
        }
        lemma_names_round_trip(prev, tail);
        assert(names_bytes(names) + rest == names_bytes(prev) + tail);
        assert(short(names[names.len() - 1]));
        law_string_round_trip(names.last(), rest);
        assert(prev.push(names.last()) == names);
    }
}

/// Every field fits an entry, and the entries a catalog.
pub open spec fn cacheable(entries: Seq<(Seq<char>, Seq<char>)>) -> bool {
    &&& entries.len() <= MAX_ENTRIES
    &&& forall|i: int|
        0 <= i < entries.len() ==> text::byte_len((#[trigger] entries[i]).0) <= NAME_CAP
            && text::byte_len(entries[i].1) <= EXEC_CAP
}

/// Every name fits a name.
pub open spec fn nameable(names: Seq<Seq<char>>) -> bool {
    forall|i: int| 0 <= i < names.len() ==> text::byte_len(#[trigger] names[i]) <= NAME_CAP
}

proof fn lemma_storable_all(e: Seq<(Seq<char>, Seq<char>)>)
    requires
        cacheable(e),
    ensures
        storable(e) == e,
    decreases e.len(),
{
    if e.len() > 0 {
        let prev = e.drop_last();
        assert forall|i: int| 0 <= i < prev.len() implies text::byte_len((#[trigger] prev[i]).0)
            <= NAME_CAP && text::byte_len(prev[i].1) <= EXEC_CAP by {
            assert(prev[i] == e[i]);
        }
        lemma_storable_all(prev);
        assert(e[e.len() - 1] == e.last());
        assert(prev.push(e.last()) == e);
    }
}

proof fn lemma_fitting_all(names: Seq<Seq<char>>)
    requires
        nameable(names),
    ensures
        fitting(names) == names,
    decreases names.len(),
{
    if names.len() > 0 {
        let prev = names.drop_last();
        assert forall|i: int| 0 <= i < prev.len() implies text::byte_len(#[trigger] prev[i])
            <= NAME_CAP by {
            assert(prev[i] == names[i]);
        }
        lemma_fitting_all(prev);
        assert(names[names.len() - 1] == names.last());
        assert(prev.push(names.last()) == names);
    }
}

/// The recents section reads back, as many names as are kept, whatever follows.
pub proof fn law_recents_round_trip(names: Seq<Seq<char>>, rest: Seq<u8>)
    requires
        nameable(names),
    ensures
        get_recents(recents_bytes(names) + rest) == newest_names(names),
{
    let kept = newest_names(names);
    let data = recents_bytes(names) + rest;
    bytes::lemma_le_len(kept.len(), 2);
    bytes::lemma_pow256_values();
    bytes::lemma_from_le_of_le(kept.len(), 2);
    assert(data.take(2) == bytes::le(kept.len(), 2));
    assert(data.skip(2) == names_bytes(kept) + rest);
    assert forall|i: int| 0 <= i < kept.len() implies short(#[trigger] kept[i]) && text::byte_len(
        kept[i],
    ) <= NAME_CAP by {
        assert(kept[i] == names[i]);
    }
    lemma_names_round_trip(kept, rest);
    lemma_fitting_all(kept);
}

/// Whatever the recents section holds, torn or not, the entries and the
/// fingerprint ahead of it read back.
pub proof fn law_torn_recents_keep_the_entries(
    entries: Seq<(Seq<char>, Seq<char>)>,
    fingerprint: u64,
    tail: Seq<u8>,
)
    requires
        cacheable(entries),
    ensures
        decoded(head_bytes(entries, fingerprint as nat) + tail) == Some(
            CacheView {
                entries,
                fingerprint: fingerprint as nat,
                recents: get_recents(tail),
                recents_offset: head_bytes(entries, fingerprint as nat).len(),
            },
        ),
{
    let head = head_bytes(entries, fingerprint as nat);
    let data = head + tail;
    bytes::lemma_le_len(fingerprint as nat, 8);
    bytes::lemma_le_len(entries.len(), 4);
    bytes::lemma_pow256_values();
    bytes::lemma_from_le_of_le(fingerprint as nat, 8);
    bytes::lemma_from_le_of_le(entries.len(), 4);
    assert(data.take(4) == magic());
    assert(data.subrange(5, 13) == bytes::le(fingerprint as nat, 8));
    assert(data.subrange(13, 17) == bytes::le(entries.len(), 4));
    assert(data.skip(HEADER_LEN as int) == records_bytes(entries) + tail);
    assert forall|i: int| 0 <= i < entries.len() implies short((#[trigger] entries[i]).0) && short(
        entries[i].1,
    ) by {}
    lemma_records_round_trip(entries, tail);
    lemma_storable_all(entries);
}

/// What a save writes, a load reads: the entries, the fingerprint, the recents
/// as many as are kept, and where they start.
pub proof fn law_cache_round_trip(
    entries: Seq<(Seq<char>, Seq<char>)>,
    fingerprint: u64,
    recents: Seq<Seq<char>>,
)
    requires
        cacheable(entries),
        nameable(recents),
    ensures
        decoded(file_bytes(entries, fingerprint as nat, recents)) == Some(
            CacheView {
                entries,
                fingerprint: fingerprint as nat,
                recents: newest_names(recents),
                recents_offset: head_bytes(entries, fingerprint as nat).len(),
            },
        ),
{
    law_torn_recents_keep_the_entries(entries, fingerprint, recents_bytes(recents));
    law_recents_round_trip(recents, Seq::empty());
    assert(recents_bytes(recents) + Seq::<u8>::empty() == recents_bytes(recents));
}

/// A record rewrites only the tail: the file cut at the recents offset, with the
/// new section behind it, holds the same entries and the new recents.
pub proof fn law_a_record_rewrites_only_the_tail(
    entries: Seq<(Seq<char>, Seq<char>)>,
    fingerprint: u64,
    recents: Seq<Seq<char>>,
    name: Seq<char>,
)
    requires
        cacheable(entries),
        nameable(recents),
        recents.len() <= RECENT_CAP,
    ensures
        ({
            let file = file_bytes(entries, fingerprint as nat, recents);
            let offset = head_bytes(entries, fingerprint as nat).len();
            decoded(file.take(offset as int) + recents_bytes(recorded(recents, name))) == Some(
                CacheView {
                    entries,
                    fingerprint: fingerprint as nat,
                    recents: recorded(recents, name),
                    recents_offset: offset,
                },
            )
        }),
{
    let head = head_bytes(entries, fingerprint as nat);
    let file = file_bytes(entries, fingerprint as nat, recents);
    let next = recorded(recents, name);
    assert(file.take(head.len() as int) == head);
    lemma_position_of(recents, name);
    assert forall|i: int| 0 <= i < next.len() implies text::byte_len(#[trigger] next[i])
        <= NAME_CAP by {
        lemma_recorded_from(recents, name, i);
        if next[i] != name {
            let k = choose|k: int| 0 <= k < recents.len() && recents[k] == next[i];
            assert(text::byte_len(recents[k]) <= NAME_CAP);
        } else if text::byte_len(name) > NAME_CAP {
            let k = choose|k: int| 0 <= k < recents.len() && recents[k] == next[i];
            assert(text::byte_len(recents[k]) <= NAME_CAP);
        }
    }
    law_cache_round_trip(entries, fingerprint, next);
    assert(newest_names(next) == next);
}

/// Everything recorded is the new name or was there before.
proof fn lemma_recorded_from(names: Seq<Seq<char>>, name: Seq<char>, i: int)
    requires
        0 <= i < recorded(names, name).len(),
    ensures
        recorded(names, name)[i] == name && text::byte_len(name) <= NAME_CAP || names.contains(
            recorded(names, name)[i],
        ),
{
    lemma_position_of(names, name);
    let others = without(names, name);
    assert forall|k: int| 0 <= k < others.len() implies names.contains(#[trigger] others[k]) by {
        if position_of(names, name) < names.len() {
            let m = if k < position_of(names, name) {
                k
            } else {
                k + 1
            };
            assert(others[k] == names[m]);
        } else {
            assert(others[k] == names[k]);
        }
    }
    if text::byte_len(name) > NAME_CAP {
        assert(recorded(names, name)[i] == others[i]);
    } else if i > 0 {
        assert(recorded(names, name)[i] == others[i - 1]);
    }
}

/// Recording a launch puts the name first, keeps it there once, keeps the others
/// in their order, and never grows the list past its cap. Recording it again
/// changes nothing.
pub proof fn law_recording_moves_to_the_front(names: Seq<Seq<char>>, name: Seq<char>)
    requires
        names.len() <= RECENT_CAP,
        names.no_duplicates(),
        text::byte_len(name) <= NAME_CAP,
    ensures
        recorded(names, name).len() <= RECENT_CAP,
        recorded(names, name)[0] == name,
        recorded(names, name).no_duplicates(),
        recorded(names, name).skip(1) == without(names, name).take(
            recorded(names, name).len() - 1,
        ),
        recorded(recorded(names, name), name) == recorded(names, name),
{
    lemma_position_of(names, name);
    let others = without(names, name);
    let next = recorded(names, name);
    assert(!others.contains(name)) by {
        if others.contains(name) {
            let k = choose|k: int| 0 <= k < others.len() && others[k] == name;
            let at = position_of(names, name);
            if at < names.len() {
                let m = if k < at {
                    k
                } else {
                    k + 1
                };
                assert(others[k] == names[m]);
                assert(names[m] == names[at]);
            }
        }
    }
    assert(others.no_duplicates()) by {
        let at = position_of(names, name);
        if at < names.len() {
            assert forall|i: int, j: int| 0 <= i < j < others.len() implies others[i]
                != others[j] by {
                let a = if i < at {
                    i
                } else {
                    i + 1
                };
                let b = if j < at {
                    j
                } else {
                    j + 1
                };
                assert(others[i] == names[a] && others[j] == names[b]);
            }
        }
    }
    assert(next.skip(1) == others.take(next.len() - 1));
    assert forall|i: int, j: int| 0 <= i < j < next.len() implies next[i] != next[j] by {
        assert(next[j] == others[j - 1]);
        if i > 0 {
            assert(next[i] == others[i - 1]);
        } else {
            assert(others.contains(others[j - 1]));
        }
    }
    assert(position_of(next, name) == 0);
    assert(without(next, name) == next.skip(1));
    assert(next.skip(1).len() < RECENT_CAP);
    assert(recorded(next, name) == seq![name] + next.skip(1));
    assert(seq![name] + next.skip(1) == next);
}

/// Cutting bytes short of a string's end leaves no string; cutting past it
/// leaves the string and cuts what follows.
proof fn lemma_get_str_cut(x: Seq<u8>, k: int)
    requires
        0 <= k <= x.len(),
        get_str(x) is Some,
    ensures
        ({
            let (s, after) = get_str(x)->0;
            let used = x.len() - after.len();
            if k < used {
                get_str(x.take(k)) is None
            } else {
                get_str(x.take(k)) == Some((s, after.take(k - used)))
            }
        }),
{
    let n = bytes::from_le(x.take(2));
    if k >= 2 {
        assert(x.take(k).take(2) == x.take(2));
        if k >= 2 + n {
            assert(x.take(k).subrange(2, 2 + n as int) == x.subrange(2, 2 + n as int));
            assert(x.take(k).skip(2 + n as int) == x.skip(2 + n as int).take(k - 2 - n));
        }
    }
}

proof fn lemma_get_records_cut(x: Seq<u8>, n: nat, k: int)
    requires
        0 <= k <= x.len(),
        get_records(x, n) is Some,
    ensures
        ({
            let (v, after) = get_records(x, n)->0;
            let used = x.len() - after.len();
            &&& 0 <= used
            &&& if k < used {
                get_records(x.take(k), n) is None
            } else {
                get_records(x.take(k), n) == Some((v, after.take(k - used)))
            }
        }),
    decreases n,
{
    if n > 0 {
        lemma_get_records_cut(x, (n - 1) as nat, k);
        let (v, after) = get_records(x, (n - 1) as nat)->0;
        let used = x.len() - after.len();
        if k >= used {
            lemma_get_str_cut(after, k - used);
            let (name, after1) = get_str(after)->0;
            let used1 = after.len() - after1.len();
            if k - used >= used1 {
                lemma_get_str_cut(after1, k - used - used1);
            }
        }
    }
}

/// A file cut anywhere ahead of its recents section is rejected, not read in
/// part.
pub proof fn law_cut_entries_are_rejected(
    entries: Seq<(Seq<char>, Seq<char>)>,
    fingerprint: u64,
    n: int,
)
    requires
        cacheable(entries),
        0 <= n < head_bytes(entries, fingerprint as nat).len(),
    ensures
        decoded(head_bytes(entries, fingerprint as nat).take(n)) is None,
{
    let head = head_bytes(entries, fingerprint as nat);
    let empty = Seq::<u8>::empty();
    law_torn_recents_keep_the_entries(entries, fingerprint, empty);
    assert(head + empty == head);
    bytes::lemma_le_len(fingerprint as nat, 8);
    bytes::lemma_le_len(entries.len(), 4);
    if n >= HEADER_LEN {
        let cut = head.take(n);
        let body = records_bytes(entries);
        assert(head.skip(HEADER_LEN as int) == body);
        assert(cut.subrange(13, 17) == head.subrange(13, 17));
        assert(cut.skip(HEADER_LEN as int) == body.take(n - HEADER_LEN));
        assert forall|i: int| 0 <= i < entries.len() implies short((#[trigger] entries[i]).0)
            && short(entries[i].1) by {}
        lemma_records_round_trip(entries, empty);
        assert(body + empty == body);
        bytes::lemma_pow256_values();
        bytes::lemma_from_le_of_le(entries.len(), 4);
        assert(head.subrange(13, 17) == bytes::le(entries.len(), 4));
        lemma_get_records_cut(body, entries.len(), n - HEADER_LEN);
    }
}

} // verus!
