//! A file held in memory together with a read position, with the subset of
//! `Read`/`Seek` behaviour the container readers rely on.
use vstd::prelude::*;

use crate::error::DsdError;

verus! {

/// The largest position a file can be seeked to (`i64::MAX`).
pub open spec fn max_offset() -> int {
    0x7fff_ffff_ffff_ffff
}

/// `256` to the power `n`.
pub open spec fn pow256(n: nat) -> nat
    decreases n,
{
    if n == 0 {
        1
    } else {
        256 * pow256((n - 1) as nat)
    }
}

/// The unsigned number that the bytes `s` spell in big-endian order.
pub open spec fn be_value(s: Seq<u8>) -> nat
    decreases s.len(),
{
    if s.len() == 0 {
        0
    } else {
        be_value(s.drop_last()) * 256 + s.last() as nat
    }
}

/// The unsigned number that the bytes `s` spell in little-endian order.
pub open spec fn le_value(s: Seq<u8>) -> nat
    decreases s.len(),
{
    if s.len() == 0 {
        0
    } else {
        s[0] as nat + 256 * le_value(s.drop_first())
    }
}

/// A big-endian number of `n` bytes is below `256^n`.
pub proof fn lemma_be_bound(s: Seq<u8>)
    ensures
        be_value(s) < pow256(s.len()),
    decreases s.len(),
{
    if s.len() > 0 {
        lemma_be_bound(s.drop_last());
    }
}

/// A little-endian number of `n` bytes is below `256^n`.
pub proof fn lemma_le_bound(s: Seq<u8>)
    ensures
        le_value(s) < pow256(s.len()),
    decreases s.len(),
{
    if s.len() > 0 {
        lemma_le_bound(s.drop_first());
    }
}

/// `256^n` grows with `n`.
pub proof fn lemma_pow256_mono(a: nat, b: nat)
    requires
        a <= b,
    ensures
        pow256(a) <= pow256(b),
    decreases b,
{
    if a < b {
        lemma_pow256_mono(a, (b - 1) as nat);
    }
}

/// The powers of 256 that the fixed-size reads use.
pub proof fn lemma_pow256_8()
    ensures
        pow256(8) == 0x1_0000_0000_0000_0000,
        pow256(4) == 0x1_0000_0000,
        pow256(2) == 0x1_0000,
{
    reveal_with_fuel(pow256, 9);
}

/// Where a read that ran out of bytes leaves the position: at the end of the
/// file, or where it was if that is already past the end.
pub open spec fn pos_after_short_read(data: Seq<u8>, pos: u64) -> u64 {
    if pos < data.len() {
        data.len() as u64
    } else {
        pos
    }
}

/// Whether `n` bytes can be read from `pos`.
pub open spec fn can_read(data: Seq<u8>, pos: u64, n: int) -> bool {
    pos + n <= data.len()
}

/// Whether `target` is a position that a seek can reach.
pub open spec fn seekable(target: int) -> bool {
    0 <= target <= max_offset()
}

/// The file's bytes and the current read position.
pub struct ByteStream {
    pub data: Vec<u8>,
    pub pos: u64,
}

impl ByteStream {
    /// A stream over `data`, positioned at its start.
    pub fn new(data: Vec<u8>) -> (s: ByteStream)
        ensures
            s.data@ == data@,
            s.pos == 0,
    {
        ByteStream { data, pos: 0 }
    }

    /// The current position (a seek by zero from the current position).
    pub fn tell(&self) -> (p: u64)
        ensures
            p == self.pos,
    {
        self.pos
    }

    /// Seek to an absolute position.
    pub fn seek_to(&mut self, target: u64) -> (r: Result<u64, DsdError>)
        ensures
            final(self).data@ == old(self).data@,
            seekable(target as int) ==> r == Ok::<u64, DsdError>(target) && final(self).pos
                == target,
            !seekable(target as int) ==> r == Err::<u64, DsdError>(DsdError::InvalidSeek)
                && final(self).pos == old(self).pos,
    {
        if target <= 0x7fff_ffff_ffff_ffffu64 {
            self.pos = target;
            Ok(target)
        } else {
            Err(DsdError::InvalidSeek)
        }
    }

    /// Seek relative to the current position.
    pub fn seek_by(&mut self, delta: i64) -> (r: Result<u64, DsdError>)
        ensures
            final(self).data@ == old(self).data@,
            seekable(old(self).pos + delta) ==> r == Ok::<u64, DsdError>(final(self).pos)
                && final(self).pos == old(self).pos + delta,
            !seekable(old(self).pos + delta) ==> r == Err::<u64, DsdError>(
                DsdError::InvalidSeek,
            ) && final(self).pos == old(self).pos,
    {
        if delta >= 0 {
            let d: u64 = delta as u64;
            if self.pos <= 0x7fff_ffff_ffff_ffffu64 && d <= 0x7fff_ffff_ffff_ffffu64 - self.pos {
                self.pos = self.pos + d;
                Ok(self.pos)
            } else {
                Err(DsdError::InvalidSeek)
            }
        } else {
            let back: u64 = (-(delta as i128)) as u64;
            if back <= self.pos && self.pos - back <= 0x7fff_ffff_ffff_ffffu64 {
                self.pos = self.pos - back;
                Ok(self.pos)
            } else {
                Err(DsdError::InvalidSeek)
            }
        }
    }

    /// Whether `n` bytes are left at the current position.
    fn has(&self, n: u64) -> (b: bool)
        ensures
            b == can_read(self.data@, self.pos, n as int),
            self.data@.len() <= usize::MAX,
    {
        let len: u64 = self.data.len() as u64;
        n <= len && self.pos <= len - n
    }

    /// Move to where a read that runs out of bytes stops.
    fn fail_short(&mut self)
        ensures
            final(self).data@ == old(self).data@,
            final(self).pos == pos_after_short_read(old(self).data@, old(self).pos),
    {
        let len: u64 = self.data.len() as u64;
        if self.pos < len {
            self.pos = len;
        }
    }

    /// Read exactly `n` bytes.
    pub fn read_vec(&mut self, n: u64) -> (r: Result<Vec<u8>, DsdError>)
        ensures
            final(self).data@ == old(self).data@,
            can_read(old(self).data@, old(self).pos, n as int) ==> r.is_ok() && r.unwrap()@
                == old(self).data@.subrange(old(self).pos as int, old(self).pos + n)
                && final(self).pos == old(self).pos + n,
            !can_read(old(self).data@, old(self).pos, n as int) ==> r == Err::<Vec<u8>, DsdError>(
                DsdError::UnexpectedEof,
            ) && final(self).pos == pos_after_short_read(old(self).data@, old(self).pos),
    {
        if !self.has(n) {
            self.fail_short();
            return Err(DsdError::UnexpectedEof);
        }
        assert(self.pos + n <= self.data@.len());
        let start: usize = self.pos as usize;
        let count: usize = n as usize;
        assert(start as int == self.pos && count as int == n);
        let mut out: Vec<u8> = Vec::with_capacity(count);
        let mut i: usize = 0;
        while i < count
            invariant
                start + count <= self.data@.len(),
                self.data@.len() <= usize::MAX,
                start as int == self.pos,
                count as int == n,
                i <= count,
                out@ == self.data@.subrange(start as int, start + i),
            decreases count - i,
        {
            out.push(self.data[start + i]);
            i = i + 1;
            assert(out@ =~= self.data@.subrange(start as int, start + i));
        }
        self.pos = self.pos + n;
        Ok(out)
    }

    /// Read `n <= 8` bytes as a big-endian number.
    pub fn read_be(&mut self, n: u64) -> (r: Result<u64, DsdError>)
        requires
            n <= 8,
        ensures
            final(self).data@ == old(self).data@,
            can_read(old(self).data@, old(self).pos, n as int) ==> r.is_ok() && r.unwrap()
                == be_value(old(self).data@.subrange(old(self).pos as int, old(self).pos + n))
                && final(self).pos == old(self).pos + n,
            !can_read(old(self).data@, old(self).pos, n as int) ==> r == Err::<u64, DsdError>(
                DsdError::UnexpectedEof,
            ) && final(self).pos == pos_after_short_read(old(self).data@, old(self).pos),
    {
        if !self.has(n) {
            self.fail_short();
            return Err(DsdError::UnexpectedEof);
        }
        assert(self.pos + n <= self.data@.len());
        let start: usize = self.pos as usize;
        let count: usize = n as usize;
        assert(start as int == self.pos && count as int == n);
        let ghost s = self.data@.subrange(start as int, start + count);
        let mut v: u64 = 0;
        let mut i: usize = 0;
        while i < count
            invariant
                start + count <= self.data@.len(),
                self.data@.len() <= usize::MAX,
                start as int == self.pos,
                count as int == n,
                count <= 8,
                i <= count,
                s == self.data@.subrange(start as int, start + count),
                v == be_value(s.subrange(0, i as int)),
            decreases count - i,
        {
            proof {
                let t = s.subrange(0, i + 1);
                assert(t.drop_last() =~= s.subrange(0, i as int));
                lemma_be_bound(s.subrange(0, i as int));
                lemma_pow256_mono(i as nat, 7);
                lemma_pow256_8();
                reveal_with_fuel(pow256, 8);
            }
            v = v * 256 + self.data[start + i] as u64;
            i = i + 1;
        }
        assert(s.subrange(0, count as int) =~= s);
        self.pos = self.pos + n;
        Ok(v)
    }

    /// Read `n <= 8` bytes as a little-endian number.
    pub fn read_le(&mut self, n: u64) -> (r: Result<u64, DsdError>)
        requires
            n <= 8,
        ensures
            final(self).data@ == old(self).data@,
            can_read(old(self).data@, old(self).pos, n as int) ==> r.is_ok() && r.unwrap()
                == le_value(old(self).data@.subrange(old(self).pos as int, old(self).pos + n))
                && final(self).pos == old(self).pos + n,
            !can_read(old(self).data@, old(self).pos, n as int) ==> r == Err::<u64, DsdError>(
                DsdError::UnexpectedEof,
            ) && final(self).pos == pos_after_short_read(old(self).data@, old(self).pos),
    {
        if !self.has(n) {
            self.fail_short();
            return Err(DsdError::UnexpectedEof);
        }
        assert(self.pos + n <= self.data@.len());
        let start: usize = self.pos as usize;
        let count: usize = n as usize;
        assert(start as int == self.pos && count as int == n);
        let ghost s = self.data@.subrange(start as int, start + count);
        let mut v: u64 = 0;
        let mut i: usize = count;
        while i > 0
            invariant
                start + count <= self.data@.len(),
                self.data@.len() <= usize::MAX,
                start as int == self.pos,
                count as int == n,
                count <= 8,
                i <= count,
                s == self.data@.subrange(start as int, start + count),
                v == le_value(s.subrange(i as int, count as int)),
            decreases i,
        {
            proof {
                let t = s.subrange(i - 1, count as int);
                assert(t.drop_first() =~= s.subrange(i as int, count as int));
                lemma_le_bound(s.subrange(i as int, count as int));
                lemma_pow256_mono((count - i) as nat, 7);
                lemma_pow256_8();
                reveal_with_fuel(pow256, 8);
            }
            i = i - 1;
            v = v * 256 + self.data[start + i] as u64;
        }
        assert(s.subrange(0, count as int) =~= s);
        self.pos = self.pos + n;
        Ok(v)
    }

    /// Fill `buf` from the current position as far as the file allows and
    /// return how many bytes were read; the bytes of `buf` past that count are
    /// left as they were.
    pub fn read_into(&mut self, buf: &mut Vec<u8>) -> (n: usize)
        ensures
            final(self).data@ == old(self).data@,
            n == (if old(self).pos >= old(self).data@.len() {
                0
            } else if old(buf)@.len() <= old(self).data@.len() - old(self).pos {
                old(buf)@.len() as int
            } else {
                old(self).data@.len() - old(self).pos
            }),
            final(self).pos == old(self).pos + n,
            final(buf)@.len() == old(buf)@.len(),
            n > 0 ==> final(buf)@.take(n as int) == old(self).data@.subrange(
                old(self).pos as int,
                old(self).pos + n,
            ),
            final(buf)@.skip(n as int) == old(buf)@.skip(n as int),
    {
        let len: u64 = self.data.len() as u64;
        if self.pos >= len {
            return 0;
        }
        let avail: u64 = len - self.pos;
        let want: u64 = buf.len() as u64;
        let count: usize = if want <= avail { want as usize } else { avail as usize };
        let start: usize = self.pos as usize;
        assert(start as int == self.pos);
        let ghost old_buf = buf@;
        let mut i: usize = 0;
        while i < count
            invariant
                start + count <= self.data@.len(),
                self.data@.len() <= usize::MAX,
                start as int == self.pos,
                count <= old_buf.len(),
                i <= count,
                buf@.len() == old_buf.len(),
                buf@ == self.data@.subrange(start as int, start + i) + old_buf.skip(i as int),
            decreases count - i,
        {
            buf.set(i, self.data[start + i]);
            i = i + 1;
            assert(buf@ =~= self.data@.subrange(start as int, start + i) + old_buf.skip(
                i as int,
            ));
        }
        assert(buf@.take(count as int) =~= self.data@.subrange(start as int, start + count));
        assert(buf@.skip(count as int) =~= old_buf.skip(count as int));
        self.pos = self.pos + count as u64;
        count
    }
}


/// `b` lengthened with zeros, or cut, to `n` bytes (what `Vec::resize` with
/// the value 0 does).
pub open spec fn resized(b: Seq<u8>, n: int) -> Seq<u8> {
    if n <= b.len() {
        b.take(n)
    } else {
        b + Seq::new((n - b.len()) as nat, |i: int| 0u8)
    }
}

/// Lengthen `v` with zeros, or cut it, to `n` bytes.
pub fn resize_zero(v: &mut Vec<u8>, n: usize)
    ensures
        final(v)@ == resized(old(v)@, n as int),
{
    if n <= v.len() {
        v.truncate(n);
    } else {
        let ghost v0 = v@;
        while v.len() < n
            invariant
                v0.len() < n,
                v0.len() <= v@.len() <= n,
                v@ == v0 + Seq::new((v@.len() - v0.len()) as nat, |i: int| 0u8),
            decreases n - v@.len(),
        {
            v.push(0u8);
            assert(v@ =~= v0 + Seq::new((v@.len() - v0.len()) as nat, |i: int| 0u8));
        }
    }
}

} // verus!
