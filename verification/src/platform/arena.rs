//! Fixed-capacity collections: every write that would exceed the capacity is
//! reported instead of growing.
use vstd::prelude::*;
use vstd::utf8::*;

use crate::platform::text;
use crate::platform::text::{bytes_of, char_bytes, char_len, str_from_utf8};

verus! {

/// A vector with a compile-time capacity.
///
/// Pushes past the capacity are reported instead of growing.
#[derive(Debug, PartialEq, Eq)]
pub struct ArrayVec<T, const N: usize> {
    buf: Vec<T>,
}

impl<T, const N: usize> View for ArrayVec<T, N> {
    type V = Seq<T>;

    closed spec fn view(&self) -> Seq<T> {
        self.buf@
    }
}

impl<T, const N: usize> ArrayVec<T, N> {
    /// The length never exceeds the capacity.
    pub open spec fn wf(&self) -> bool {
        self@.len() <= N
    }

    pub fn new() -> (r: Self)
        ensures
            r.wf(),
            r@ == Seq::<T>::empty(),
    {
        Self { buf: Vec::new() }
    }

    pub fn len(&self) -> (r: usize)
        ensures
            r == self@.len(),
    {
        self.buf.len()
    }

    pub fn is_empty(&self) -> (r: bool)
        ensures
            r == (self@.len() == 0),
    {
        self.buf.len() == 0
    }

    pub fn is_full(&self) -> (r: bool)
        ensures
            r == (self@.len() == N),
    {
        self.buf.len() == N
    }

    pub fn remaining(&self) -> (r: usize)
        requires
            self.wf(),
        ensures
            r == N - self@.len(),
    {
        N - self.buf.len()
    }

    /// Append a value. Returns it back as Err when already at capacity.
    pub fn push(&mut self, value: T) -> (r: Result<(), T>)
        requires
            old(self).wf(),
        ensures
            final(self).wf(),
            old(self)@.len() < N ==> r == Ok::<(), T>(()) && final(self)@ == old(self)@.push(value),
            old(self)@.len() == N ==> r == Err::<(), T>(value) && final(self)@ == old(self)@,
    {
        if self.buf.len() == N {
            return Err(value);
        }
        self.buf.push(value);
        Ok(())
    }

    pub fn pop(&mut self) -> (r: Option<T>)
        requires
            old(self).wf(),
        ensures
            final(self).wf(),
            old(self)@.len() == 0 ==> r == None::<T> && final(self)@ == old(self)@,
            old(self)@.len() > 0 ==> r == Some(old(self)@.last()) && final(self)@ == old(
                self,
            )@.drop_last(),
    {
        self.buf.pop()
    }

    /// Insert value at index, shifting later elements right. Returns it back as
    /// Err when full or index is past the end.
    pub fn insert(&mut self, index: usize, value: T) -> (r: Result<(), T>)
        requires
            old(self).wf(),
        ensures
            final(self).wf(),
            old(self)@.len() < N && index <= old(self)@.len() ==> r == Ok::<(), T>(())
                && final(self)@ == old(self)@.insert(index as int, value),
            !(old(self)@.len() < N && index <= old(self)@.len()) ==> r == Err::<(), T>(value)
                && final(self)@ == old(self)@,
    {
        if self.buf.len() == N || index > self.buf.len() {
            return Err(value);
        }
        self.buf.insert(index, value);
        Ok(())
    }

    /// Remove the element at index and return it, replacing it with the last
    /// element. None when out of range.
    pub fn swap_remove(&mut self, index: usize) -> (r: Option<T>)
        requires
            old(self).wf(),
        ensures
            final(self).wf(),
            index < old(self)@.len() ==> r == Some(old(self)@[index as int]) && final(self)@
                == old(self)@.update(index as int, old(self)@.last()).drop_last(),
            index >= old(self)@.len() ==> r == None::<T> && final(self)@ == old(self)@,
    {
        if index >= self.buf.len() {
            return None;
        }
        Some(self.buf.swap_remove(index))
    }

    /// Remove and return the element at index, shifting later elements left.
    /// None when index is out of range.
    pub fn remove(&mut self, index: usize) -> (r: Option<T>)
        requires
            old(self).wf(),
        ensures
            final(self).wf(),
            index < old(self)@.len() ==> r == Some(old(self)@[index as int]) && final(self)@
                == old(self)@.remove(index as int),
            index >= old(self)@.len() ==> r == None::<T> && final(self)@ == old(self)@,
    {
        if index >= self.buf.len() {
            return None;
        }
        Some(self.buf.remove(index))
    }

    /// Drop every element.
    pub fn clear(&mut self)
        ensures
            final(self).wf(),
            final(self)@ == Seq::<T>::empty(),
    {
        self.buf.clear();
    }

    /// Shorten to at most len elements, dropping the rest.
    pub fn truncate(&mut self, len: usize)
        requires
            old(self).wf(),
        ensures
            final(self).wf(),
            len <= old(self)@.len() ==> final(self)@ == old(self)@.take(len as int),
            len > old(self)@.len() ==> final(self)@ == old(self)@,
    {
        self.buf.truncate(len);
    }

    pub fn as_slice(&self) -> (r: &[T])
        ensures
            r@ == self@,
    {
        self.buf.as_slice()
    }

    pub fn as_mut_slice(&mut self) -> (r: &mut [T])
        ensures
            r@ == old(self)@,
            final(self)@ == final(r)@,
    {
        self.buf.as_mut_slice()
    }

    /// Overwrite the element at index.
    pub(crate) fn set(&mut self, index: usize, value: T)
        requires
            old(self).wf(),
            index < old(self)@.len(),
        ensures
            final(self).wf(),
            final(self)@ == old(self)@.update(index as int, value),
    {
        self.buf[index] = value;
    }

    /// Keep only the elements for which keep returns true, in order, dropping
    /// the rest.
    pub fn retain<F: Fn(&T) -> bool>(&mut self, keep: F)
        requires
            old(self).wf(),
            forall|x: &T| call_requires(keep, (x,)),
        ensures
            final(self).wf(),
            exists|flags: Seq<bool>|
                flags.len() == old(self)@.len() && final(self)@ == #[trigger] kept(
                    old(self)@,
                    flags,
                ) && (forall|i: int|
                    0 <= i < flags.len() ==> call_ensures(
                        keep,
                        (&old(self)@[i],),
                        #[trigger] flags[i],
                    )),
    {
        let ghost mut flags = Seq::<bool>::empty();
        let mut i: usize = 0;
        while i < self.buf.len()
            invariant
                i <= self.buf@.len(),
                flags.len() + self.buf@.len() - i == old(self)@.len(),
                self.buf@.len() <= old(self)@.len(),
                forall|x: &T| call_requires(keep, (x,)),
                self.buf@.take(i as int) == kept(old(self)@.take(flags.len() as int), flags),
                self.buf@.skip(i as int) == old(self)@.skip(flags.len() as int),
                forall|j: int|
                    0 <= j < flags.len() ==> call_ensures(
                        keep,
                        (&old(self)@[j],),
                        #[trigger] flags[j],
                    ),
            decreases self.buf.len() - i,
        {
            let k = keep(&self.buf[i]);
            let ghost n = flags.len() as int;
            let ghost before = self.buf@;
            proof {
                assert(before[i as int] == before.skip(i as int)[0]);
                assert(before[i as int] == old(self)@[n]);
                assert(flags.push(k).drop_last() == flags);
                assert(old(self)@.take(n + 1).drop_last() == old(self)@.take(n));
                flags = flags.push(k);
            }
            if k {
                i += 1;
                assert(self.buf@.take(i as int) == before.take(i - 1).push(old(self)@[n]));
                assert(self.buf@.skip(i as int) == before.skip(i - 1).skip(1));
            } else {
                self.buf.remove(i);
                assert(self.buf@.take(i as int) == before.take(i as int));
                assert(self.buf@.skip(i as int) == before.skip(i as int).skip(1));
            }
            assert(old(self)@.skip(n).skip(1) == old(self)@.skip(n + 1));
        }
        assert(self.buf@.take(i as int) == self.buf@);
        assert(old(self)@.take(flags.len() as int) == old(self)@);
        assert(self@ == kept(old(self)@, flags));
    }
}

impl<T: Copy, const N: usize> ArrayVec<T, N> {
    /// Copy a slice onto the end. Returns Err with the count that fit when the
    /// whole slice does not.
    pub fn extend_from_slice(&mut self, src: &[T]) -> (r: Result<(), usize>)
        requires
            old(self).wf(),
        ensures
            final(self).wf(),
            old(self)@.len() + src@.len() <= N ==> r == Ok::<(), usize>(()) && final(self)@
                == old(self)@ + src@,
            old(self)@.len() + src@.len() > N ==> r == Err::<(), usize>(
                (N - old(self)@.len()) as usize,
            ) && final(self)@ == old(self)@ + src@.take(N - old(self)@.len()),
    {
        let room: usize = N - self.buf.len();
        let take: usize = if src.len() < room { src.len() } else { room };
        let mut i: usize = 0;
        while i < take
            invariant
                i <= take <= src@.len(),
                self.buf@ == old(self)@ + src@.take(i as int),
            decreases take - i,
        {
            self.buf.push(src[i]);
            i += 1;
        }
        assert(src@.take(src@.len() as int) == src@);
        if take == src.len() {
            Ok(())
        } else {
            Err(take)
        }
    }
}

/// The elements of `s` whose flag is set, in order.
pub open spec fn kept<T>(s: Seq<T>, flags: Seq<bool>) -> Seq<T>
    decreases s.len(),
{
    if s.len() == 0 {
        Seq::empty()
    } else if flags.last() {
        kept(s.drop_last(), flags.drop_last()).push(s.last())
    } else {
        kept(s.drop_last(), flags.drop_last())
    }
}

impl<T, const N: usize> core::ops::Deref for ArrayVec<T, N> {
    type Target = [T];

    fn deref(&self) -> (r: &[T])
        ensures
            r@ == self@,
    {
        self.as_slice()
    }
}

impl<T, const N: usize> Default for ArrayVec<T, N> {
    fn default() -> (r: Self)
        ensures
            r.wf(),
            r@ == Seq::<T>::empty(),
    {
        Self::new()
    }
}

/// A UTF-8 string with a compile-time byte capacity.
///
/// Only whole strings and characters are accepted, so the bytes stay valid
/// UTF-8. Writes that would overflow are reported.
#[derive(Debug, PartialEq, Eq)]
pub struct ArrayString<const N: usize> {
    buf: Vec<u8>,
}

impl<const N: usize> View for ArrayString<N> {
    type V = Seq<char>;

    closed spec fn view(&self) -> Seq<char> {
        decode_utf8(self.buf@)
    }
}

impl<const N: usize> ArrayString<N> {
    /// The bytes are valid UTF-8 and no more than the capacity.
    pub closed spec fn wf(&self) -> bool {
        &&& valid_utf8(self.buf@)
        &&& self.buf@.len() <= N
    }

    /// A well-formed string takes no more bytes than its capacity.
    pub broadcast proof fn lemma_wf(self)
        requires
            #[trigger] self.wf(),
        ensures
            text::byte_len(self@) <= N,
    {
        decode_utf8_encode_utf8(self.buf@);
    }

    pub fn new() -> (r: Self)
        ensures
            r.wf(),
            r@ == Seq::<char>::empty(),
    {
        Self { buf: Vec::new() }
    }

    /// The length in bytes.
    pub fn len(&self) -> (r: usize)
        requires
            self.wf(),
        ensures
            r == text::byte_len(self@),
            r <= N,
    {
        proof {
            decode_utf8_encode_utf8(self.buf@);
        }
        self.buf.len()
    }

    pub fn is_empty(&self) -> (r: bool)
        requires
            self.wf(),
        ensures
            r == (self@.len() == 0),
    {
        proof {
            decode_utf8_encode_utf8(self.buf@);
            text::lemma_byte_len_bounds(self@);
        }
        self.buf.len() == 0
    }

    pub fn clear(&mut self)
        ensures
            final(self).wf(),
            final(self)@ == Seq::<char>::empty(),
    {
        self.buf.clear();
    }

    pub fn as_str(&self) -> (r: &str)
        requires
            self.wf(),
        ensures
            r@ == self@,
    {
        let r = str_from_utf8(self.buf.as_slice());
        proof {
            decode_utf8_encode_utf8(self.buf@);
            if r is Some {
                text::lemma_encode_injective(r->0@, self@);
            }
        }
        match r {
            Some(s) => s,
            None => "",
        }
    }

    pub fn as_bytes(&self) -> (r: &[u8])
        requires
            self.wf(),
        ensures
            r@ == encode_utf8(self@),
    {
        proof {
            decode_utf8_encode_utf8(self.buf@);
        }
        self.buf.as_slice()
    }

    /// Append a string slice. Returns Err and writes nothing when it would not
    /// fit, so the value stays whole rather than truncated mid-character.
    pub fn push_str(&mut self, s: &str) -> (r: Result<(), ()>)
        requires
            old(self).wf(),
        ensures
            final(self).wf(),
            text::byte_len(old(self)@) + text::byte_len(s@) <= N ==> r == Ok::<(), ()>(()) && final(self)@
                == old(self)@ + s@,
            text::byte_len(old(self)@) + text::byte_len(s@) > N ==> r == Err::<(), ()>(()) && final(self)@
                == old(self)@,
    {
        self.push_bytes(s.as_bytes(), Ghost(s@))
    }

    /// Append some text. Returns Err and writes nothing when it would not fit.
    pub fn push_chars(&mut self, s: &[char]) -> (r: Result<(), ()>)
        requires
            old(self).wf(),
        ensures
            final(self).wf(),
            text::byte_len(old(self)@) + text::byte_len(s@) <= N ==> r == Ok::<(), ()>(())
                && final(self)@ == old(self)@ + s@,
            text::byte_len(old(self)@) + text::byte_len(s@) > N ==> r == Err::<(), ()>(())
                && final(self)@ == old(self)@,
    {
        let b = bytes_of(s);
        self.push_bytes(b.as_slice(), Ghost(s@))
    }

    /// Append bytes that spell out `text`.
    fn push_bytes(&mut self, bytes: &[u8], Ghost(text): Ghost<Seq<char>>) -> (r: Result<(), ()>)
        requires
            old(self).wf(),
            bytes@ == encode_utf8(text),
        ensures
            final(self).wf(),
            text::byte_len(old(self)@) + text::byte_len(text) <= N ==> r == Ok::<(), ()>(()) && final(self)@
                == old(self)@ + text,
            text::byte_len(old(self)@) + text::byte_len(text) > N ==> r == Err::<(), ()>(()) && final(self)@
                == old(self)@,
    {
        proof {
            decode_utf8_encode_utf8(self.buf@);
        }
        if bytes.len() > N - self.buf.len() {
            return Err(());
        }
        let mut i: usize = 0;
        while i < bytes.len()
            invariant
                i <= bytes@.len(),
                self.buf@ == old(self).buf@ + bytes@.take(i as int),
            decreases bytes.len() - i,
        {
            self.buf.push(bytes[i]);
            i += 1;
        }
        proof {
            assert(bytes@.take(bytes@.len() as int) == bytes@);
            text::lemma_encode_concat(old(self)@, text);
            encode_utf8_valid_utf8(old(self)@ + text);
            encode_utf8_decode_utf8(old(self)@ + text);
        }
        Ok(())
    }

    pub fn push(&mut self, c: char) -> (r: Result<(), ()>)
        requires
            old(self).wf(),
        ensures
            final(self).wf(),
            text::byte_len(old(self)@.push(c)) <= N ==> r == Ok::<(), ()>(()) && final(self)@ == old(
                self,
            )@.push(c),
            text::byte_len(old(self)@.push(c)) > N ==> r == Err::<(), ()>(()) && final(self)@ == old(
                self,
            )@,
    {
        let b = char_bytes(c);
        proof {
            text::lemma_encode_one(c);
            text::lemma_encode_concat(old(self)@, seq![c]);
            assert(old(self)@ + seq![c] == old(self)@.push(c));
        }
        let ghost one = seq![c];
        self.push_bytes(b.as_slice(), Ghost(one))
    }

    /// Whether a byte index lies within the string, on a character boundary.
    pub open spec fn is_boundary(&self, idx: int) -> bool {
        0 <= idx <= text::byte_len(self@) && is_char_boundary(encode_utf8(self@), idx)
    }

    fn check_boundary(&self, idx: usize) -> (r: bool)
        requires
            self.wf(),
        ensures
            r == self.is_boundary(idx as int),
    {
        proof {
            decode_utf8_encode_utf8(self.buf@);
            is_char_boundary_start_end_of_seq(self.buf@);
            if idx < self.buf@.len() {
                is_char_boundary_iff_not_is_continuation_byte(self.buf@, idx as int);
            }
        }
        if idx > self.buf.len() {
            false
        } else if idx == self.buf.len() {
            true
        } else {
            self.buf[idx] < 0x80 || self.buf[idx] > 0xBF
        }
    }

    /// Insert a string slice at byte index idx (a char boundary), shifting the
    /// rest right. Err and no change if idx is invalid or it would overflow.
    pub fn insert_str(&mut self, idx: usize, s: &str) -> (r: Result<(), ()>)
        requires
            old(self).wf(),
        ensures
            final(self).wf(),
            old(self).is_boundary(idx as int) && text::byte_len(old(self)@) + text::byte_len(s@) <= N ==> {
                &&& r == Ok::<(), ()>(())
                &&& encode_utf8(final(self)@) == encode_utf8(old(self)@).subrange(0, idx as int)
                    + encode_utf8(s@) + encode_utf8(old(self)@).subrange(
                    idx as int,
                    text::byte_len(old(self)@) as int,
                )
            },
            !(old(self).is_boundary(idx as int) && text::byte_len(old(self)@) + text::byte_len(s@) <= N) ==> {
                &&& r == Err::<(), ()>(())
                &&& final(self)@ == old(self)@
            },
    {
        self.insert_bytes(idx, s.as_bytes(), Ghost(s@))
    }

    /// Insert bytes that spell out `text` at byte index idx.
    fn insert_bytes(&mut self, idx: usize, bytes: &[u8], Ghost(text): Ghost<Seq<char>>) -> (r:
        Result<(), ()>)
        requires
            old(self).wf(),
            bytes@ == encode_utf8(text),
        ensures
            final(self).wf(),
            old(self).is_boundary(idx as int) && text::byte_len(old(self)@) + text::byte_len(text) <= N ==> {
                &&& r == Ok::<(), ()>(())
                &&& encode_utf8(final(self)@) == encode_utf8(old(self)@).subrange(0, idx as int)
                    + encode_utf8(text) + encode_utf8(old(self)@).subrange(
                    idx as int,
                    text::byte_len(old(self)@) as int,
                )
            },
            !(old(self).is_boundary(idx as int) && text::byte_len(old(self)@) + text::byte_len(text) <= N) ==> {
                &&& r == Err::<(), ()>(())
                &&& final(self)@ == old(self)@
            },
    {
        proof {
            decode_utf8_encode_utf8(self.buf@);
        }
        if !self.check_boundary(idx) {
            return Err(());
        }
        if bytes.len() > N - self.buf.len() {
            return Err(());
        }
        let ghost b = self.buf@;
        let mut i: usize = 0;
        while i < bytes.len()
            invariant
                i <= bytes@.len(),
                idx <= b.len(),
                b.len() + bytes@.len() <= N,
                self.buf@ == b.subrange(0, idx as int) + bytes@.take(i as int) + b.subrange(
                    idx as int,
                    b.len() as int,
                ),
            decreases bytes.len() - i,
        {
            self.buf.insert(idx + i, bytes[i]);
            i += 1;
        }
        proof {
            assert(bytes@.take(bytes@.len() as int) == bytes@);
            valid_utf8_split(b, idx as int);
            encode_utf8_valid_utf8(text);
            valid_utf8_concat(b.subrange(0, idx as int), bytes@);
            valid_utf8_concat(
                b.subrange(0, idx as int) + bytes@,
                b.subrange(idx as int, b.len() as int),
            );
            decode_utf8_encode_utf8(self.buf@);
        }
        Ok(())
    }

    /// Insert a char at byte index idx (a char boundary).
    pub fn insert(&mut self, idx: usize, ch: char) -> (r: Result<(), ()>)
        requires
            old(self).wf(),
        ensures
            final(self).wf(),
            old(self).is_boundary(idx as int) && text::byte_len(old(self)@) + encode_scalar(
                ch as u32,
            ).len() <= N ==> {
                &&& r == Ok::<(), ()>(())
                &&& encode_utf8(final(self)@) == encode_utf8(old(self)@).subrange(0, idx as int)
                    + encode_scalar(ch as u32) + encode_utf8(old(self)@).subrange(
                    idx as int,
                    text::byte_len(old(self)@) as int,
                )
            },
            !(old(self).is_boundary(idx as int) && text::byte_len(old(self)@) + encode_scalar(
                ch as u32,
            ).len() <= N) ==> {
                &&& r == Err::<(), ()>(())
                &&& final(self)@ == old(self)@
            },
    {
        let b = char_bytes(ch);
        proof {
            text::lemma_encode_one(ch);
        }
        let ghost one = seq![ch];
        self.insert_bytes(idx, b.as_slice(), Ghost(one))
    }

    /// Delete the byte range [start, end), shifting the rest left. Err and no
    /// change unless both bounds are char boundaries within the string.
    pub fn delete_range(&mut self, start: usize, end: usize) -> (r: Result<(), ()>)
        requires
            old(self).wf(),
        ensures
            final(self).wf(),
            start <= end && old(self).is_boundary(start as int) && old(self).is_boundary(
                end as int,
            ) ==> {
                &&& r == Ok::<(), ()>(())
                &&& encode_utf8(final(self)@) == encode_utf8(old(self)@).subrange(0, start as int)
                    + encode_utf8(old(self)@).subrange(end as int, text::byte_len(old(self)@) as int)
            },
            !(start <= end && old(self).is_boundary(start as int) && old(self).is_boundary(
                end as int,
            )) ==> {
                &&& r == Err::<(), ()>(())
                &&& final(self)@ == old(self)@
            },
    {
        proof {
            decode_utf8_encode_utf8(self.buf@);
        }
        if start > end || end > self.buf.len() {
            return Err(());
        }
        if !self.check_boundary(start) || !self.check_boundary(end) {
            return Err(());
        }
        let ghost b = self.buf@;
        let mut n: usize = end - start;
        while n > 0
            invariant
                start <= end <= b.len(),
                n <= end - start,
                self.buf@ == b.subrange(0, start as int) + b.subrange(end - n, b.len() as int),
            decreases n,
        {
            self.buf.remove(start);
            n -= 1;
        }
        proof {
            valid_utf8_split(b, start as int);
            valid_utf8_split(b, end as int);
            valid_utf8_concat(b.subrange(0, start as int), b.subrange(end as int, b.len() as int));
            decode_utf8_encode_utf8(self.buf@);
        }
        Ok(())
    }

    /// Remove and return the char starting at byte index idx, shifting the rest
    /// left. None if idx is not a char boundary within the string.
    pub fn remove(&mut self, idx: usize) -> (r: Option<char>)
        requires
            old(self).wf(),
        ensures
            final(self).wf(),
            r is Some <==> idx < text::byte_len(old(self)@) && old(self).is_boundary(idx as int),
            r is None ==> final(self)@ == old(self)@,
            r matches Some(c) ==> encode_utf8(old(self)@) == encode_utf8(old(self)@).subrange(
                0,
                idx as int,
            ) + encode_scalar(c as u32) + encode_utf8(old(self)@).subrange(
                idx + encode_scalar(c as u32).len(),
                text::byte_len(old(self)@) as int,
            ),
            r matches Some(c) ==> encode_utf8(final(self)@) == encode_utf8(old(self)@).subrange(
                0,
                idx as int,
            ) + encode_utf8(old(self)@).subrange(
                idx + encode_scalar(c as u32).len(),
                text::byte_len(old(self)@) as int,
            ),
    {
        proof {
            decode_utf8_encode_utf8(self.buf@);
        }
        let len: usize = self.buf.len();
        if idx >= len || !self.check_boundary(idx) {
            return None;
        }
        let ghost b = self.buf@;
        let ghost tail = b.subrange(idx as int, b.len() as int);
        let rest = str_from_utf8(vstd::slice::slice_subrange(self.buf.as_slice(), idx, len));
        proof {
            valid_utf8_split(b, idx as int);
        }
        match rest {
            None => None,
            Some(s) => {
                proof {
                    text::lemma_byte_len_bounds(s@);
                }
                let c = s.get_char(0);
                let n: usize = char_len(c);
                proof {
                    text::lemma_encode_split(s@, 1);
                    assert(s@.take(1) == seq![c]);
                    text::lemma_encode_one(c);
                    let k = text::lemma_boundary_is_char_offset(self@, idx as int);
                    text::lemma_encode_split(self@, k);
                    text::lemma_encode_injective(s@, self@.skip(k));
                    assert(self@.take(k + 1) == self@.take(k).push(c));
                    text::lemma_encode_push(self@.take(k), c);
                    text::lemma_encode_split(self@, k + 1);
                    assert(b == b.subrange(0, idx as int) + encode_scalar(c as u32) + b.subrange(
                        idx + n,
                        b.len() as int,
                    ));
                }
                let _ = self.delete_range(idx, idx + n);
                Some(c)
            },
        }
    }
}

impl<const N: usize> Default for ArrayString<N> {
    fn default() -> (r: Self)
        ensures
            r.wf(),
            r@ == Seq::<char>::empty(),
    {
        Self::new()
    }
}

impl<const N: usize> Clone for ArrayString<N> {
    fn clone(&self) -> (r: Self)
        ensures
            r@ == self@,
            self.wf() ==> r.wf(),
    {
        let r = Self { buf: self.buf.clone() };
        assert(r.buf@ == self.buf@);
        r
    }
}

impl<const N: usize> core::ops::Deref for ArrayString<N> {
    type Target = str;

    fn deref(&self) -> (r: &str)
        ensures
            self.wf() ==> r@ == self@,
    {
        let r = str_from_utf8(self.buf.as_slice());
        proof {
            if self.wf() {
                decode_utf8_encode_utf8(self.buf@);
                text::lemma_encode_injective(r->0@, self@);
            }
        }
        match r {
            Some(s) => s,
            None => "",
        }
    }
}

} // verus!
