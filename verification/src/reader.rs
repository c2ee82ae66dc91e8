//! A read position in a byte buffer. Every read is made by a `yrs` cursor standing at that
//! position, so that a number or a buffer is delimited here as the `yrs` decoder delimits it.
//! The signed integers on which the cursor's arithmetic overflows are refused beforehand: those
//! with an eleventh byte, and the negative of the magnitude 2^63.

use vstd::prelude::*;
use vstd::slice::slice_subrange;
use yrs::encoding::read::{Cursor, Error as ReadError, Read};

use crate::reject::Reject;
use crate::wire::{
    buffer, buffer_stop, exact, lemma_var_size_bounds, lemma_var_size_ends, lemma_var_size_goes_on,
    lemma_var_size_none, signed_negates_min, signed_overruns, var_bits_u32, var_bits_u64, var_i64,
    var_i64_stop, var_size, var_stop, var_u32, var_u64, MAX_SIGNED_VAR_BYTES, MAX_VAR_BYTES,
};

verus! {

/// `yrs`'s `Cursor::has_content`, on a cursor over `buf` at `next`: whether `next` is not
/// the end of the buffer.
#[verifier::external_body]
fn cursor_has_content(buf: &[u8], next: usize) -> (r: bool)
    ensures
        r == (next != buf@.len()),
{
    Cursor { buf, next }.has_content()
}

/// `yrs`'s `Cursor::read_u8`, on a cursor over `buf` at `next`: the byte there and the
/// position behind it, or an error at the end of the buffer.
#[verifier::external_body]
fn cursor_read_u8(buf: &[u8], next: usize) -> (r: Result<(u8, usize), ReadError>)
    ensures
        r is Ok <==> next < buf@.len(),
        r matches Ok((byte, after)) ==> byte == buf@[next as int] && after == next + 1,
{
    let mut cur = Cursor { buf, next };
    match cur.read_u8() {
        Ok(byte) => Ok((byte, cur.next)),
        Err(e) => Err(e),
    }
}

/// `yrs`'s `Cursor::read_exact`, on a cursor over `buf` at `next`: the position `len` bytes
/// on, where the slice that it takes ends, or an error if the buffer ends before. It adds
/// `len` to `next` unchecked, so the sum has to fit in a `usize`.
#[verifier::external_body]
fn cursor_read_exact(buf: &[u8], next: usize, len: usize) -> (r: Result<usize, ReadError>)
    requires
        next + len <= usize::MAX,
    ensures
        r is Ok <==> next + len <= buf@.len(),
        r matches Ok(after) ==> after == next + len,
{
    let mut cur = Cursor { buf, next };
    match cur.read_exact(len) {
        Ok(_) => Ok(cur.next),
        Err(e) => Err(e),
    }
}

/// `yrs`'s `Cursor::read_var::<u32>`, on a cursor over `buf` at `next`: the number, or an error
/// if no byte among the first eleven, in the buffer, ends it; and the position of the cursor
/// after the call. That is behind the number, or else behind the bytes that were looked at:
/// eleven, or all that the buffer had.
#[verifier::external_body]
fn cursor_read_var_u32(buf: &[u8], next: usize) -> (r: (Result<u32, ReadError>, usize))
    requires
        next <= buf@.len(),
    ensures
        match var_size(buf@.skip(next as int), MAX_VAR_BYTES as nat) {
            Some(n) => r.0 matches Ok(value) && value == var_bits_u32(buf@.skip(next as int), n)
                && r.1 == next + n,
            None => r.0 is Err && r.1 == if buf@.len() - next < MAX_VAR_BYTES {
                buf@.len() as int
            } else {
                next + MAX_VAR_BYTES
            },
        },
{
    let mut cur = Cursor { buf, next };
    (cur.read_var::<u32>(), cur.next)
}

/// `yrs`'s `Cursor::read_var::<u64>`, on a cursor over `buf` at `next`: as for 32 bits.
#[verifier::external_body]
fn cursor_read_var_u64(buf: &[u8], next: usize) -> (r: (Result<u64, ReadError>, usize))
    requires
        next <= buf@.len(),
    ensures
        match var_size(buf@.skip(next as int), MAX_VAR_BYTES as nat) {
            Some(n) => r.0 matches Ok(value) && value == var_bits_u64(buf@.skip(next as int), n)
                && r.1 == next + n,
            None => r.0 is Err && r.1 == if buf@.len() - next < MAX_VAR_BYTES {
                buf@.len() as int
            } else {
                next + MAX_VAR_BYTES
            },
        },
{
    let mut cur = Cursor { buf, next };
    (cur.read_var::<u64>(), cur.next)
}

/// `yrs`'s `Cursor::read_var::<i64>`, on a cursor over `buf` at `next`: the number, or an error
/// if no byte among the first ten ends it, where the buffer ends too; and the position of the
/// cursor after the call, behind the number or at the end of the buffer. Of the number itself
/// nothing is said. The call shifts an eleventh byte by more than 63 bits and negates without a
/// check, and both panic where overflow is checked: such integers are left out.
#[verifier::external_body]
fn cursor_read_var_i64(buf: &[u8], next: usize) -> (r: (Result<i64, ReadError>, usize))
    requires
        next <= buf@.len(),
        !signed_overruns(buf@.skip(next as int)),
        !signed_negates_min(buf@.skip(next as int)),
    ensures
        match var_size(buf@.skip(next as int), MAX_SIGNED_VAR_BYTES as nat) {
            Some(n) => r.0 is Ok && r.1 == next + n,
            None => r.0 is Err && r.1 == buf@.len(),
        },
{
    let mut cur = Cursor { buf, next };
    (cur.read_var::<i64>(), cur.next)
}

/// `yrs`'s `Cursor::read_f32`, on a cursor over `buf` at `next`: the position behind its
/// four bytes, or an error if the buffer ends before. The number is dropped. A slice holds
/// at most `isize::MAX` bytes, so the position inside it can be moved on by four.
#[verifier::external_body]
fn cursor_read_f32(buf: &[u8], next: usize) -> (r: Result<usize, ReadError>)
    requires
        next <= buf@.len(),
    ensures
        r is Ok <==> next + 4 <= buf@.len(),
        r matches Ok(after) ==> after == next + 4,
{
    let mut cur = Cursor { buf, next };
    match cur.read_f32() {
        Ok(_) => Ok(cur.next),
        Err(e) => Err(e),
    }
}

/// `yrs`'s `Cursor::read_f64`, on a cursor over `buf` at `next`: the position behind its
/// eight bytes, or an error if the buffer ends before. The number is dropped.
#[verifier::external_body]
fn cursor_read_f64(buf: &[u8], next: usize) -> (r: Result<usize, ReadError>)
    requires
        next <= buf@.len(),
    ensures
        r is Ok <==> next + 8 <= buf@.len(),
        r matches Ok(after) ==> after == next + 8,
{
    let mut cur = Cursor { buf, next };
    match cur.read_f64() {
        Ok(_) => Ok(cur.next),
        Err(e) => Err(e),
    }
}

/// `yrs`'s `Cursor::read_i64`, on a cursor over `buf` at `next`: the position behind its
/// eight bytes, or an error if the buffer ends before. The number is dropped.
#[verifier::external_body]
fn cursor_read_i64(buf: &[u8], next: usize) -> (r: Result<usize, ReadError>)
    requires
        next <= buf@.len(),
    ensures
        r is Ok <==> next + 8 <= buf@.len(),
        r matches Ok(after) ==> after == next + 8,
{
    let mut cur = Cursor { buf, next };
    match cur.read_i64() {
        Ok(_) => Ok(cur.next),
        Err(e) => Err(e),
    }
}

/// A position in a buffer. Its view is what is still unread.
pub struct Reader<'a> {
    buf: &'a [u8],
    next: usize,
}

impl<'a> View for Reader<'a> {
    type V = Seq<u8>;

    closed spec fn view(&self) -> Seq<u8> {
        self.buf@.skip(self.next as int)
    }
}

impl<'a> Reader<'a> {
    /// The position lies in the buffer.
    pub closed spec fn wf(&self) -> bool {
        self.next <= self.buf@.len()
    }

    /// A reader at the start of `buf`.
    pub fn new(buf: &'a [u8]) -> (r: Self)
        ensures
            r.wf(),
            r@ == buf@,
    {
        Reader { buf, next: 0 }
    }

    /// Whether anything is still unread.
    pub fn has_content(&self) -> (r: bool)
        requires
            self.wf(),
        ensures
            r == (self@.len() > 0),
    {
        cursor_has_content(self.buf, self.next)
    }

    /// Reads one byte. At the end of the buffer it fails with [`Reject::Cursor`].
    pub fn read_u8(&mut self) -> (r: Result<u8, Reject>)
        requires
            old(self).wf(),
        ensures
            final(self).wf(),
            old(self)@.len() == 0 ==> r == Err::<u8, Reject>(Reject::Cursor) && final(self)@ == old(
                self,
            )@,
            old(self)@.len() > 0 ==> r == Ok::<u8, Reject>(old(self)@[0]) && final(self)@
                == old(self)@.skip(1),
    {
        match cursor_read_u8(self.buf, self.next) {
            Ok((byte, after)) => {
                self.next = after;
                assert(self@ =~= old(self)@.skip(1));
                Ok(byte)
            },
            Err(e) => Err(Reject::from(e)),
        }
    }

    /// Reads a 32-bit variable length integer. Where there is none it fails with
    /// [`Reject::Cursor`], behind the bytes that it looked at.
    pub fn read_var_u32(&mut self) -> (r: Result<u32, Reject>)
        requires
            old(self).wf(),
        ensures
            final(self).wf(),
            match var_u32(old(self)@) {
                Some((value, rest)) => r == Ok::<u32, Reject>(value) && final(self)@ == rest,
                None => r == Err::<u32, Reject>(Reject::Cursor) && final(self)@ == var_stop(
                    old(self)@,
                ),
            },
    {
        proof {
            lemma_var_size_bounds(self@, MAX_VAR_BYTES as nat);
        }
        let (number, after) = cursor_read_var_u32(self.buf, self.next);
        let ghost n = after - self.next;
        self.next = after;
        assert(self@ =~= old(self)@.skip(n));
        match number {
            Ok(value) => Ok(value),
            Err(e) => Err(Reject::from(e)),
        }
    }

    /// Reads a 64-bit variable length integer. Where there is none it fails with
    /// [`Reject::Cursor`], behind the bytes that it looked at.
    pub fn read_var_u64(&mut self) -> (r: Result<u64, Reject>)
        requires
            old(self).wf(),
        ensures
            final(self).wf(),
            match var_u64(old(self)@) {
                Some((value, rest)) => r == Ok::<u64, Reject>(value) && final(self)@ == rest,
                None => r == Err::<u64, Reject>(Reject::Cursor) && final(self)@ == var_stop(
                    old(self)@,
                ),
            },
    {
        proof {
            lemma_var_size_bounds(self@, MAX_VAR_BYTES as nat);
        }
        let (number, after) = cursor_read_var_u64(self.buf, self.next);
        let ghost n = after - self.next;
        self.next = after;
        assert(self@ =~= old(self)@.skip(n));
        match number {
            Ok(value) => Ok(value),
            Err(e) => Err(Reject::from(e)),
        }
    }

    /// Whether the signed integer ahead can be read without overflow.
    fn signed_fits(&self) -> (r: bool)
        requires
            self.wf(),
        ensures
            r == (!signed_overruns(self@) && !signed_negates_min(self@)),
    {
        let rest: &[u8] = slice_subrange(self.buf, self.next, self.buf.len());
        assert(rest@ =~= self@);
        if rest.len() < MAX_SIGNED_VAR_BYTES {
            return true;
        }
        let mut i: usize = 0;
        let mut plain: bool = rest[0] == 0xc0;
        while i < MAX_SIGNED_VAR_BYTES - 1
            invariant
                0 <= i <= MAX_SIGNED_VAR_BYTES - 1,
                rest@.len() >= MAX_SIGNED_VAR_BYTES,
                rest@ == self@,
                forall|j: int| 0 <= j < i ==> #[trigger] rest@[j] >= 0x80,
                plain == (rest@[0] == 0xc0 && forall|j: int|
                    1 <= j < i ==> #[trigger] rest@[j] == 0x80),
            decreases MAX_SIGNED_VAR_BYTES - i,
        {
            let byte: u8 = rest[i];
            if byte < 0x80 {
                return true;
            }
            if i > 0 && byte != 0x80 {
                plain = false;
            }
            i += 1;
        }
        let last: u8 = rest[MAX_SIGNED_VAR_BYTES - 1];
        if last >= 0x80 {
            rest.len() == MAX_SIGNED_VAR_BYTES
        } else {
            !(plain && last % 4 == 2)
        }
    }

    /// Reads past a signed variable length integer. Where there is none, or none that can be
    /// read without overflow, it fails with [`Reject::Cursor`], behind the bytes that show it.
    pub fn read_var_i64(&mut self) -> (r: Result<(), Reject>)
        requires
            old(self).wf(),
        ensures
            final(self).wf(),
            match var_i64(old(self)@) {
                Some(rest) => r == Ok::<(), Reject>(()) && final(self)@ == rest,
                None => r == Err::<(), Reject>(Reject::Cursor) && final(self)@ == var_i64_stop(
                    old(self)@,
                ),
            },
    {
        proof {
            lemma_var_size_bounds(self@, MAX_SIGNED_VAR_BYTES as nat);
            if var_size(self@, MAX_SIGNED_VAR_BYTES as nat) is None {
                lemma_var_size_goes_on(self@, MAX_SIGNED_VAR_BYTES as nat);
            }
        }
        if !self.signed_fits() {
            proof {
                if signed_overruns(self@) {
                    lemma_var_size_none(self@, MAX_SIGNED_VAR_BYTES as nat);
                } else {
                    lemma_var_size_ends(self@, MAX_SIGNED_VAR_BYTES as nat);
                }
            }
            assert(self.next + 10 <= self.buf@.len() == self.buf.len());
            assert(self@[9] == self.buf@[self.next + 9]);
            let looked_at: usize = if self.buf[self.next + MAX_SIGNED_VAR_BYTES - 1] < 0x80 {
                MAX_SIGNED_VAR_BYTES
            } else {
                MAX_VAR_BYTES
            };
            self.next = self.next + looked_at;
            assert(self@ =~= old(self)@.skip(looked_at as int));
            return Err(Reject::Cursor);
        }
        let (number, after) = cursor_read_var_i64(self.buf, self.next);
        let ghost n = after - self.next;
        self.next = after;
        assert(self@ =~= old(self)@.skip(n));
        match number {
            Ok(_) => Ok(()),
            Err(e) => Err(Reject::from(e)),
        }
    }

    /// Reads past `len` bytes and hands them out. Where the buffer ends before, it fails
    /// with [`Reject::Cursor`].
    fn read_exact(&mut self, len: usize) -> (r: Result<&'a [u8], Reject>)
        requires
            old(self).wf(),
        ensures
            final(self).wf(),
            match exact(old(self)@, len as nat) {
                Some((content, rest)) => r matches Ok(bytes) && bytes@ == content && final(self)@
                    == rest,
                None => r == Err::<&'a [u8], Reject>(Reject::Cursor) && final(self)@ == old(self)@,
            },
    {
        if self.next.checked_add(len).is_none() {
            assert(self.buf@.len() == self.buf.len());
            return Err(Reject::Cursor);
        }
        match cursor_read_exact(self.buf, self.next, len) {
            Ok(after) => {
                let bytes: &'a [u8] = slice_subrange(self.buf, self.next, after);
                self.next = after;
                assert(bytes@ =~= old(self)@.take(len as int));
                assert(self@ =~= old(self)@.skip(len as int));
                Ok(bytes)
            },
            Err(e) => Err(Reject::from(e)),
        }
    }

    /// Reads a length-prefixed buffer, in the two steps of `yrs`'s `Read::read_buf`: the
    /// length, then that many bytes. Where there is no length, or it claims more than what is
    /// left, it fails with [`Reject::Cursor`], behind the length or where the length failed.
    pub fn read_buf(&mut self) -> (r: Result<&'a [u8], Reject>)
        requires
            old(self).wf(),
        ensures
            final(self).wf(),
            match buffer(old(self)@) {
                Some((content, rest)) => r matches Ok(bytes) && bytes@ == content && final(self)@
                    == rest,
                None => r == Err::<&'a [u8], Reject>(Reject::Cursor) && final(self)@
                    == buffer_stop(old(self)@),
            },
    {
        let len: u32 = self.read_var_u32()?;
        self.read_exact(len as usize)
    }

    /// Reads past a 32-bit floating point number. Where four bytes are not left it fails
    /// with [`Reject::Cursor`].
    pub fn read_f32(&mut self) -> (r: Result<(), Reject>)
        requires
            old(self).wf(),
        ensures
            final(self).wf(),
            match exact(old(self)@, 4) {
                Some((_, rest)) => r == Ok::<(), Reject>(()) && final(self)@ == rest,
                None => r == Err::<(), Reject>(Reject::Cursor) && final(self)@ == old(self)@,
            },
    {
        match cursor_read_f32(self.buf, self.next) {
            Ok(after) => {
                self.next = after;
                assert(self@ =~= old(self)@.skip(4));
                Ok(())
            },
            Err(e) => Err(Reject::from(e)),
        }
    }

    /// Reads past a 64-bit floating point number. Where eight bytes are not left it fails
    /// with [`Reject::Cursor`].
    pub fn read_f64(&mut self) -> (r: Result<(), Reject>)
        requires
            old(self).wf(),
        ensures
            final(self).wf(),
            match exact(old(self)@, 8) {
                Some((_, rest)) => r == Ok::<(), Reject>(()) && final(self)@ == rest,
                None => r == Err::<(), Reject>(Reject::Cursor) && final(self)@ == old(self)@,
            },
    {
        match cursor_read_f64(self.buf, self.next) {
            Ok(after) => {
                self.next = after;
                assert(self@ =~= old(self)@.skip(8));
                Ok(())
            },
            Err(e) => Err(Reject::from(e)),
        }
    }

    /// Reads past a fixed width 64-bit integer. Where eight bytes are not left it fails with
    /// [`Reject::Cursor`].
    pub fn read_i64(&mut self) -> (r: Result<(), Reject>)
        requires
            old(self).wf(),
        ensures
            final(self).wf(),
            match exact(old(self)@, 8) {
                Some((_, rest)) => r == Ok::<(), Reject>(()) && final(self)@ == rest,
                None => r == Err::<(), Reject>(Reject::Cursor) && final(self)@ == old(self)@,
            },
    {
        match cursor_read_i64(self.buf, self.next) {
            Ok(after) => {
                self.next = after;
                assert(self@ =~= old(self)@.skip(8));
                Ok(())
            },
            Err(e) => Err(Reject::from(e)),
        }
    }
}

} // verus!
