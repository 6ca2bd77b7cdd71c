//! Byte scanning, little-endian integers, and the bounds-checked cursor the
//! wire and cache readers are built on.
use vstd::prelude::*;
use vstd::slice::slice_subrange;

verus! {

/// The byte index of the first needle in hay, or None.
pub fn find_byte(hay: &[u8], needle: u8) -> (r: Option<usize>)
    ensures
        match r {
            Some(i) => i < hay@.len() && hay@[i as int] == needle && forall|j: int|
                0 <= j < i ==> hay@[j] != needle,
            None => !hay@.contains(needle),
        },
{
    let mut i: usize = 0;
    while i < hay.len()
        invariant
            i <= hay@.len(),
            forall|j: int| 0 <= j < i ==> hay@[j] != needle,
        decreases hay.len() - i,
    {
        if hay[i] == needle {
            return Some(i);
        }
        i += 1;
    }
    None
}

/// The first n bytes of v, least significant first.
pub open spec fn le(v: nat, n: nat) -> Seq<u8>
    decreases n,
{
    if n == 0 {
        Seq::empty()
    } else {
        seq![(v % 256) as u8] + le(v / 256, (n - 1) as nat)
    }
}

/// The number a byte string spells, least significant byte first.
pub open spec fn from_le(s: Seq<u8>) -> nat
    decreases s.len(),
{
    if s.len() == 0 {
        0
    } else {
        s[0] as nat + 256 * from_le(s.drop_first())
    }
}

/// 256 to the power n.
pub open spec fn pow256(n: nat) -> nat
    decreases n,
{
    if n == 0 {
        1
    } else {
        256 * pow256((n - 1) as nat)
    }
}

pub proof fn lemma_le_len(v: nat, n: nat)
    ensures
        le(v, n).len() == n,
    decreases n,
{
    if n > 0 {
        lemma_le_len(v / 256, (n - 1) as nat);
    }
}

/// Reading back what was written gives the number, when it fits the width.
pub proof fn lemma_from_le_of_le(v: nat, n: nat)
    requires
        v < pow256(n),
    ensures
        from_le(le(v, n)) == v,
    decreases n,
{
    lemma_le_len(v, n);
    if n > 0 {
        lemma_from_le_of_le(v / 256, (n - 1) as nat);
        assert(le(v, n).drop_first() == le(v / 256, (n - 1) as nat));
    }
}

/// A byte string spells a number below 256 to the power of its length, and
/// writing that number gives the bytes again.
pub proof fn lemma_le_of_from_le(s: Seq<u8>)
    ensures
        from_le(s) < pow256(s.len()),
        le(from_le(s), s.len()) == s,
    decreases s.len(),
{
    if s.len() > 0 {
        lemma_le_of_from_le(s.drop_first());
        assert(from_le(s) / 256 == from_le(s.drop_first()));
        assert(le(from_le(s), s.len()) == s);
    }
}

pub proof fn lemma_pow256_values()
    ensures
        pow256(0) == 1,
        pow256(1) == 0x100,
        pow256(2) == 0x1_0000,
        pow256(3) == 0x100_0000,
        pow256(4) == 0x1_0000_0000,
        pow256(5) == 0x100_0000_0000,
        pow256(6) == 0x1_0000_0000_0000,
        pow256(7) == 0x100_0000_0000_0000,
        pow256(8) == 0x1_0000_0000_0000_0000,
{
    reveal_with_fuel(pow256, 9);
}

/// The first n bytes of v, least significant first.
pub fn to_le_bytes(v: u64, n: usize) -> (r: Vec<u8>)
    ensures
        r@ == le(v as nat, n as nat),
{
    let mut r: Vec<u8> = Vec::new();
    let mut x: u64 = v;
    let mut i: usize = 0;
    while i < n
        invariant
            i <= n,
            le(v as nat, n as nat) == r@ + le(x as nat, (n - i) as nat),
        decreases n - i,
    {
        let ghost before = r@;
        r.push((x % 256) as u8);
        assert(before + le(x as nat, (n - i) as nat) == r@ + le(
            (x / 256) as nat,
            (n - i - 1) as nat,
        ));
        x = x / 256;
        i += 1;
    }
    assert(r@ + le(x as nat, 0) == r@);
    r
}

/// The number up to eight bytes spell, least significant first.
pub fn from_le_bytes(s: &[u8]) -> (r: u64)
    requires
        s@.len() <= 8,
    ensures
        r == from_le(s@),
{
    let mut acc: u64 = 0;
    let mut i: usize = s.len();
    assert(s@.skip(s@.len() as int) == Seq::<u8>::empty());
    while i > 0
        invariant
            i <= s@.len() <= 8,
            acc == from_le(s@.skip(i as int)),
        decreases i,
    {
        proof {
            lemma_pow256_values();
            lemma_le_of_from_le(s@.skip(i as int));
            assert(s@.skip(i as int).len() < 8);
            lemma_le_of_from_le(s@.skip(i - 1));
            assert(s@.skip(i - 1).drop_first() == s@.skip(i as int));
        }
        i -= 1;
        acc = acc * 256 + s[i] as u64;
    }
    assert(s@.skip(0) == s@);
    acc
}

/// A bounds-checked forward cursor over a borrowed byte slice. It hands out
/// sub-slices and advances past them, never decoding integers itself, so each
/// format layers its own integers and error messages on top.
pub struct Cursor<'a> {
    data: &'a [u8],
    pos: usize,
}

impl<'a> Cursor<'a> {
    /// The bytes the cursor runs over.
    pub closed spec fn data(&self) -> Seq<u8> {
        self.data@
    }

    /// How many bytes have been consumed.
    pub closed spec fn at(&self) -> int {
        self.pos as int
    }

    /// The cursor stays within its data.
    pub open spec fn wf(&self) -> bool {
        0 <= self.at() <= self.data().len()
    }

    /// The bytes not consumed yet.
    pub open spec fn rest(&self) -> Seq<u8> {
        self.data().skip(self.at())
    }

    pub fn new(data: &'a [u8]) -> (r: Self)
        ensures
            r.wf(),
            r.data() == data@,
            r.at() == 0,
            r.rest() == data@,
    {
        assert(data@.skip(0) == data@);
        Self { data, pos: 0 }
    }

    /// The next n bytes, advancing the cursor past them, or None when fewer than
    /// n bytes remain (the cursor is left unmoved).
    pub fn take(&mut self, n: usize) -> (r: Option<&'a [u8]>)
        requires
            old(self).wf(),
        ensures
            final(self).wf(),
            final(self).data() == old(self).data(),
            n <= old(self).rest().len() ==> {
                &&& r is Some
                &&& r->0@ == old(self).rest().take(n as int)
                &&& final(self).at() == old(self).at() + n
                &&& final(self).rest() == old(self).rest().skip(n as int)
            },
            n > old(self).rest().len() ==> r is None && final(self).at() == old(self).at(),
    {
        if n > self.data.len() - self.pos {
            return None;
        }
        let end: usize = self.pos + n;
        let slice = slice_subrange(self.data, self.pos, end);
        proof {
            assert(slice@ == old(self).rest().take(n as int));
            assert(self.data@.skip(end as int) == old(self).rest().skip(n as int));
        }
        self.pos = end;
        Some(slice)
    }

    /// How many bytes have been consumed so far.
    pub fn pos(&self) -> (r: usize)
        ensures
            r == self.at(),
    {
        self.pos
    }
}

} // verus!
