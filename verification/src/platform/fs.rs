//! The decisions behind file access: building paths, walking directory records,
//! and what to do after each read, write or mkdir. The system calls themselves
//! are the caller's.
use vstd::prelude::*;
use vstd::slice::slice_subrange;
use vstd::utf8::*;

use crate::platform::arena::{ArrayString, ArrayVec};
use crate::platform::bytes;
use crate::platform::bytes::{find_byte, from_le_bytes};
use crate::platform::error::{Error, Result};
use crate::platform::syscall::{
    stat, CPath, Fd, RawFd, DT_DIR, DT_LNK, DT_REG, EEXIST, EINTR, PATH_CAP, S_IFDIR, S_IFMT,
};
use crate::platform::text;
use crate::platform::text::chars_of;

verus! {

/// A path met on a scan.
pub type ScanPath = ArrayString<PATH_CAP>;

/// A name inside a directory, as a path.
pub open spec fn joined(dir: Seq<char>, name: Seq<char>) -> Seq<char> {
    dir.push('/') + name
}

/// The path of a name inside a directory. None when it does not fit a path.
pub fn join(dir: &str, name: &str) -> (r: Option<ScanPath>)
    ensures
        r is Some <==> text::byte_len(joined(dir@, name@)) <= PATH_CAP,
        r matches Some(p) ==> p.wf() && p@ == joined(dir@, name@),
{
    let mut path: ScanPath = ArrayString::new();
    proof {
        text::lemma_encode_concat(dir@.push('/'), name@);
        text::lemma_encode_push(dir@, '/');
    }
    if path.push_str(dir).is_err() {
        return None;
    }
    assert(path@ == dir@);
    if path.push('/').is_err() {
        return None;
    }
    if path.push_str(name).is_err() {
        return None;
    }
    Some(path)
}

/// Whether a path is one the kernel can take: it fits with its terminator and
/// holds no NUL.
pub open spec fn is_path(path: Seq<char>) -> bool {
    text::byte_len(path) + 1 <= PATH_CAP && !encode_utf8(path).contains(0u8)
}

/// Build a checked C path, or an error if it does not fit or holds an interior
/// NUL.
pub fn cpath(path: &str) -> (r: Result<CPath>)
    ensures
        is_path(path@) ==> r is Ok && r->Ok_0.wf() && r->Ok_0.path() == encode_utf8(path@),
        !is_path(path@) ==> r == Err::<CPath, Error>(Error::of_msg("invalid path")),
{
    match CPath::new(path) {
        Some(p) => Ok(p),
        None => Err(Error::msg("invalid path")),
    }
}

/// What to do after a read.
#[derive(Clone, Copy, Debug, PartialEq, Eq)]
pub enum ReadStep {
    More,
    Done,
    Failed(Error),
}

/// Take in what a read into a file buffer returned: a byte count with the bytes
/// in `chunk`, zero at the end of the file, or a negated errno. A file that does
/// not fit the buffer is an error, and the buffer keeps the part that did.
pub fn read_file<const N: usize>(out: &mut ArrayVec<u8, N>, result: isize, chunk: &[u8]) -> (r:
    ReadStep)
    requires
        old(out).wf(),
        result > isize::MIN,
        result <= chunk@.len(),
    ensures
        final(out).wf(),
        result < 0 ==> final(out)@ == old(out)@ && r == (if (-result) as i32 == EINTR {
            ReadStep::More
        } else {
            ReadStep::Failed(Error::of_errno((-result) as i32))
        }),
        result == 0 ==> final(out)@ == old(out)@ && r == ReadStep::Done,
        result > 0 && old(out)@.len() + result <= N ==> r == ReadStep::More && final(out)@ == old(
            out,
        )@ + chunk@.take(result as int),
        result > 0 && old(out)@.len() + result > N ==> r == ReadStep::Failed(
            Error::of_msg("file too large for buffer"),
        ) && final(out)@ == old(out)@ + chunk@.take(N - old(out)@.len()),
{
    if result < 0 {
        let e: i32 = (-result) as i32;
        if e == EINTR {
            return ReadStep::More;
        }
        return ReadStep::Failed(Error::from_errno(e));
    }
    if result == 0 {
        return ReadStep::Done;
    }
    let part = slice_subrange(chunk, 0, result as usize);
    assert(part@ == chunk@.take(result as int));
    match out.extend_from_slice(part) {
        Ok(()) => ReadStep::More,
        Err(_) => {
            assert(part@.take(N - old(out)@.len()) =~= chunk@.take(N - old(out)@.len()));
            ReadStep::Failed(Error::msg("file too large for buffer"))
        },
    }
}

/// The descriptor an open returned, or the errno it failed with.
pub fn opened(fd: RawFd) -> (r: Result<Fd>)
    requires
        fd > i32::MIN,
    ensures
        fd < 0 ==> r == Err::<Fd, Error>(Error::of_errno((-fd) as i32)),
        fd >= 0 ==> r is Ok && r->Ok_0.spec_raw() == fd,
{
    if fd < 0 {
        return Err(Error::from_errno(-fd));
    }
    Ok(Fd::new(fd))
}

/// The paths to rename a file from and to. Both have to be paths the kernel can
/// take.
pub fn rename(from: &str, to: &str) -> (r: Result<(CPath, CPath)>)
    ensures
        is_path(from@) && is_path(to@) ==> r is Ok && r->Ok_0.0.wf() && r->Ok_0.0.path()
            == encode_utf8(from@) && r->Ok_0.1.wf() && r->Ok_0.1.path() == encode_utf8(to@),
        !(is_path(from@) && is_path(to@)) ==> r == Err::<(CPath, CPath), Error>(
            Error::of_msg("invalid path"),
        ),
{
    let f = cpath(from)?;
    let t = cpath(to)?;
    Ok((f, t))
}

/// What to do after a write.
#[derive(Clone, Copy, Debug, PartialEq, Eq)]
pub enum WriteStep {
    /// Write on from this byte.
    From(usize),
    Done,
    Failed(Error),
}

/// The step after a write of `len` bytes from byte `off` on returned `result`.
pub open spec fn write_step(len: int, off: int, result: int) -> WriteStep {
    if result < 0 {
        if (-result) as i32 == EINTR {
            WriteStep::From(off as usize)
        } else {
            WriteStep::Failed(Error::of_errno((-result) as i32))
        }
    } else if off + result < len {
        WriteStep::From((off + result) as usize)
    } else {
        WriteStep::Done
    }
}

/// Write a buffer in full, retrying short writes and interrupts: the step after
/// a write of the bytes from `off` on returned a count or a negated errno.
pub fn write_all(len: usize, off: usize, result: isize) -> (r: WriteStep)
    requires
        off <= len,
        result > isize::MIN,
    ensures
        r == write_step(len as int, off as int, result as int),
{
    if result < 0 {
        let e: i32 = (-result) as i32;
        if e == EINTR {
            return WriteStep::From(off);
        }
        return WriteStep::Failed(Error::from_errno(e));
    }
    if result as usize >= len - off {
        WriteStep::Done
    } else {
        WriteStep::From(off + result as usize)
    }
}

/// The directories to create for a path, each the one before it and a further
/// component. `None` for a component that makes the path too long.
pub open spec fn parents(components: Seq<Seq<char>>) -> (Seq<Seq<char>>, Seq<char>, bool)
    decreases components.len(),
{
    if components.len() == 0 {
        (Seq::empty(), Seq::empty(), true)
    } else {
        let (dirs, prefix, ok) = parents(components.drop_last());
        let c = components.last();
        if !ok {
            (dirs, prefix, false)
        } else if c.len() == 0 {
            if prefix.len() == 0 {
                (dirs, seq!['/'], true)
            } else {
                (dirs, prefix, true)
            }
        } else {
            let base = if prefix.len() > 0 && prefix.last() != '/' {
                prefix.push('/')
            } else {
                prefix
            };
            if text::byte_len(base + c) > PATH_CAP {
                (dirs, prefix, false)
            } else {
                (dirs.push(base + c), base + c, true)
            }
        }
    }
}

/// The directories to create, in order, so that a path and all its parents
/// exist. An existing directory is not an error. Err, with the directories
/// before it, for a path too long.
pub fn mkdir_p(path: &str) -> (r: (Vec<ScanPath>, Result<()>))
    ensures
        ({
            let plan = parents(text::pieces(path@, '/'));
            &&& r.0@.len() == plan.0.len()
            &&& forall|i: int|
                0 <= i < r.0@.len() ==> (#[trigger] r.0@[i]).wf() && r.0@[i]@ == plan.0[i]
            &&& r.1 == (if plan.2 {
                Ok(())
            } else {
                Err(Error::of_msg("path too long"))
            })
        }),
{
    let chars = chars_of(path);
    let parts = text::split(chars.as_slice(), '/');
    let ghost all = text::pieces(path@, '/');
    let mut dirs: Vec<ScanPath> = Vec::new();
    let mut prefix: ScanPath = ArrayString::new();
    let mut slash = false;
    let mut i: usize = 0;
    assert(all.take(0) == Seq::<Seq<char>>::empty());
    while i < parts.len()
        invariant
            i <= parts@.len(),
            text::texts(parts@) == all,
            prefix.wf(),
            parents(all.take(i as int)).2,
            prefix@ == parents(all.take(i as int)).1,
            slash == (prefix@.len() > 0 && prefix@.last() == '/'),
            dirs@.len() == parents(all.take(i as int)).0.len(),
            forall|k: int|
                0 <= k < dirs@.len() ==> (#[trigger] dirs@[k]).wf() && dirs@[k]@ == parents(
                    all.take(i as int),
                ).0[k],
            all == text::pieces(path@, '/'),
        decreases parts.len() - i,
    {
        let ghost before = parents(all.take(i as int));
        proof {
            assert(all.take(i + 1).drop_last() == all.take(i as int));
            assert(all.take(i + 1).last() == all[i as int]);
            assert(all[i as int] == parts@[i as int]@);
            prefix.lemma_wf();
        }
        let c = &parts[i];
        if c.len() == 0 {
            if prefix.is_empty() {
                proof {
                    text::lemma_encode_push(prefix@, '/');
                    assert(prefix@ == Seq::<char>::empty());
                    assert(encode_utf8(prefix@) == Seq::<u8>::empty());
                    assert(prefix@.push('/') == seq!['/']);
                }
                let _ = prefix.push('/');
                slash = true;
            }
            i += 1;
            continue;
        }
        let ghost base = if prefix@.len() > 0 && prefix@.last() != '/' {
            prefix@.push('/')
        } else {
            prefix@
        };
        proof {
            text::lemma_encode_concat(base, c@);
        }
        let mut next = prefix.clone();
        if !next.is_empty() && !slash {
            if next.push('/').is_err() {
                proof {
                    lemma_stuck(all, i + 1);
                }
                return (dirs, Err(Error::msg("path too long")));
            }
        }
        if next.push_chars(c.as_slice()).is_err() {
            proof {
                lemma_stuck(all, i + 1);
            }
            return (dirs, Err(Error::msg("path too long")));
        }
        assert(next@ == base + c@);
        slash = c[c.len() - 1] == '/';
        assert(next@.last() == c@.last());
        prefix = next.clone();
        dirs.push(next);
        i += 1;
    }
    assert(all.take(all.len() as int) == all);
    (dirs, Ok(()))
}

/// A path too long stays too long.
proof fn lemma_stuck(components: Seq<Seq<char>>, k: int)
    requires
        0 <= k <= components.len(),
        !parents(components.take(k)).2,
    ensures
        parents(components).0 == parents(components.take(k)).0,
        !parents(components).2,
    decreases components.len(),
{
    if k == components.len() {
        assert(components.take(k) == components);
    } else {
        assert(components.drop_last().take(k) == components.take(k));
        lemma_stuck(components.drop_last(), k);
    }
}

/// Whether a mkdir that returned `result` failed: an existing directory is not a
/// failure.
pub fn mkdir_failed(result: i32) -> (r: Option<Error>)
    requires
        result > i32::MIN,
    ensures
        r == (if result < 0 && -result != EEXIST {
            Some(Error::of_errno((-result) as i32))
        } else {
            None
        }),
{
    if result < 0 && -result != EEXIST {
        Some(Error::from_errno(-result))
    } else {
        None
    }
}

/// Whether a stat says directory.
pub fn is_dir(st: Option<stat>) -> (r: bool)
    ensures
        r == (st is Some && st->0.st_mode & S_IFMT == S_IFDIR),
{
    match st {
        Some(st) => st.st_mode & S_IFMT == S_IFDIR,
        None => false,
    }
}

/// The modification time of a path in nanoseconds since the epoch, or None.
pub fn mtime_nanos(st: Option<stat>) -> (r: Option<u64>)
    ensures
        st is None ==> r is None,
        st matches Some(st) ==> ({
            let secs = (st.st_mtime.tv_sec as u64) * 1_000_000_000;
            if secs <= u64::MAX {
                r == Some(((secs as u64).wrapping_add(st.st_mtime.tv_nsec as u64)) as u64)
            } else {
                r is None
            }
        }),
{
    let st = match st {
        Some(st) => st,
        None => return None,
    };
    let secs: u64 = match (st.st_mtime.tv_sec as u64).checked_mul(1_000_000_000) {
        Some(s) => s,
        None => return None,
    };
    Some(secs.wrapping_add(st.st_mtime.tv_nsec as u64))
}

/// Byte offset of the name within a directory record: the fixed header is
/// 8 + 8 + 2 + 1 bytes.
pub const DIRENT_NAME_OFFSET: usize = 19;

/// What kind of thing a directory record names.
#[derive(Clone, Copy, Debug, PartialEq, Eq)]
pub enum Kind {
    Directory,
    File,
    /// The record does not say; it has to be looked up.
    Unknown,
}

/// A symbolic link counts as a file: a symlinked directory is not descended
/// into, which avoids cycles.
pub open spec fn kind(d_type: u8) -> Kind {
    if d_type == DT_DIR {
        Kind::Directory
    } else if d_type == DT_REG || d_type == DT_LNK {
        Kind::File
    } else {
        Kind::Unknown
    }
}

pub fn kind_of(d_type: u8) -> (r: Kind)
    ensures
        r == kind(d_type),
{
    if d_type == DT_DIR {
        Kind::Directory
    } else if d_type == DT_REG || d_type == DT_LNK {
        Kind::File
    } else {
        Kind::Unknown
    }
}

/// One entry of a directory.
pub struct DirEntry<'a> {
    pub name: &'a str,
    pub kind: Kind,
}

/// The bytes up to the first NUL, or all of them.
pub open spec fn until_nul(b: Seq<u8>) -> Seq<u8>
    decreases b.len(),
{
    if b.len() == 0 || b[0] == 0 {
        Seq::empty()
    } else {
        seq![b[0]] + until_nul(b.drop_first())
    }
}

/// The entries a buffer of directory records lists, in order, without "." and
/// "..". A name that is not text is passed over, and a record that does not fit
/// the buffer ends the list.
pub open spec fn entries_from(b: Seq<u8>, pos: int) -> Seq<(Seq<char>, Kind)>
    decreases b.len() - pos,
{
    let reclen = bytes::from_le(b.subrange(pos + 16, pos + 18));
    if pos < 0 || pos + DIRENT_NAME_OFFSET > b.len() || reclen < DIRENT_NAME_OFFSET || pos + reclen
        > b.len() {
        Seq::empty()
    } else {
        let name = until_nul(b.subrange(pos + DIRENT_NAME_OFFSET, pos + reclen));
        let rest = entries_from(b, pos + reclen);
        if valid_utf8(name) && name.len() > 0 && decode_utf8(name) != "."@ && decode_utf8(name)
            != ".."@ {
            seq![(decode_utf8(name), kind(b[pos + 18]))] + rest
        } else {
            rest
        }
    }
}

fn name_bytes(raw: &[u8]) -> (r: &[u8])
    ensures
        r@ == until_nul(raw@),
{
    let n: usize = match find_byte(raw, 0) {
        Some(i) => i,
        None => raw.len(),
    };
    proof {
        lemma_until_nul(raw@, n as int);
        assert(raw@.subrange(0, n as int) == raw@.take(n as int));
        assert forall|j: int| 0 <= j < n implies raw@[j] != 0 by {
            if raw@[j] == 0 {
                assert(raw@.contains(0u8));
            }
        }
    }
    slice_subrange(raw, 0, n)
}

proof fn lemma_until_nul(b: Seq<u8>, n: int)
    ensures
        0 <= n <= b.len() && (forall|j: int| 0 <= j < n ==> b[j] != 0) && (n == b.len() || b[n]
            == 0) ==> until_nul(b) == b.take(n),
    decreases b.len(),
{
    if 0 <= n <= b.len() && (forall|j: int| 0 <= j < n ==> b[j] != 0) && (n == b.len() || b[n]
        == 0) {
        if n > 0 {
            let rest = b.drop_first();
            assert forall|j: int| 0 <= j < n - 1 implies rest[j] != 0 by {
                assert(rest[j] == b[j + 1]);
            }
            lemma_until_nul(rest, n - 1);
            assert(b.take(n) == seq![b[0]] + rest.take(n - 1));
        } else {
            assert(b.take(0) == Seq::<u8>::empty());
        }
    }
}

/// The entries a buffer of directory records lists.
pub fn dir_entries(buf: &[u8]) -> (r: Vec<DirEntry<'_>>)
    ensures
        r@.len() == entries_from(buf@, 0).len(),
        forall|i: int|
            0 <= i < r@.len() ==> (#[trigger] r@[i]).name@ == entries_from(buf@, 0)[i].0
                && r@[i].kind == entries_from(buf@, 0)[i].1,
{
    let mut out: Vec<DirEntry<'_>> = Vec::new();
    let mut pos: usize = 0;
    let ghost mut found = Seq::<(Seq<char>, Kind)>::empty();
    assert(found + entries_from(buf@, 0) == entries_from(buf@, 0));
    while buf.len() - pos >= DIRENT_NAME_OFFSET
        invariant
            pos <= buf@.len(),
            entries_from(buf@, 0) == found + entries_from(buf@, pos as int),
            out@.len() == found.len(),
            forall|i: int|
                0 <= i < out@.len() ==> (#[trigger] out@[i]).name@ == found[i].0 && out@[i].kind
                    == found[i].1,
        decreases buf.len() - pos,
    {
        let head = slice_subrange(buf, pos + 16, pos + 18);
        let reclen: usize = from_le_bytes(head) as usize;
        proof {
            bytes::lemma_le_of_from_le(head@);
            bytes::lemma_pow256_values();
        }
        if reclen < DIRENT_NAME_OFFSET || reclen > buf.len() - pos {
            assert(found + Seq::<(Seq<char>, Kind)>::empty() == found);
            return out;
        }
        let raw = slice_subrange(buf, pos + DIRENT_NAME_OFFSET, pos + reclen);
        let name = name_bytes(raw);
        let ghost rest = entries_from(buf@, pos + reclen);
        match text::str_from_utf8(name) {
            Some(s) => {
                proof {
                    encode_utf8_decode_utf8(s@);
                    text::lemma_byte_len_bounds(s@);
                }
                if !s.is_empty() && !text::str_eq(s, ".") && !text::str_eq(s, "..") {
                    let k = kind_of(buf[pos + 18]);
                    out.push(DirEntry { name: s, kind: k });
                    proof {
                        let one = seq![(s@, k)];
                        assert(found + (one + rest) == (found + one) + rest);
                        found = found + one;
                    }
                }
            },
            None => {},
        }
        pos += reclen;
    }
    assert(found + Seq::<(Seq<char>, Kind)>::empty() == found);
    out
}

} // verus!
