//! Reading a message body, shared by everything that has one.
//!
//! Both links and the control plane decode bytes somebody else wrote, and all
//! three need the same guarantee: never run off the end, and never accept
//! trailing bytes. That is one piece of machinery rather than three, and it
//! belongs to none of them, so it lives here instead of inside whichever module
//! happened to need it first.

use vstd::prelude::*;
use vstd::slice::slice_subrange;

use crate::le;
use crate::le::{read_i32, read_i64, read_u16, read_u32, read_u64};
use crate::net::error::NetError;

verus! {

/// Reads scalars out of a message body, refusing to run off the end.
pub struct Cursor<'a> {
    buf: &'a [u8],
    at: usize,
    what: &'static str,
}

/// What a read of `n` bytes at `at` does, for a reader that gave `r`.
pub open spec fn stepped(before: Cursor<'_>, after: Cursor<'_>, n: int, short: bool) -> bool {
    &&& after.body() == before.body()
    &&& after.what() == before.what()
    &&& after.wf()
    &&& short == (before.at() + n > before.body().len())
    &&& after.at() == if short {
        before.at()
    } else {
        before.at() + n
    }
}

impl<'a> Cursor<'a> {
    /// The whole body being read.
    pub closed spec fn body(&self) -> Seq<u8> {
        self.buf@
    }

    /// How many bytes have been read.
    pub closed spec fn at(&self) -> int {
        self.at as int
    }

    /// What the body is, for an error.
    pub closed spec fn what(&self) -> &'static str {
        self.what
    }

    /// Reading never passes the end.
    pub open spec fn wf(&self) -> bool {
        0 <= self.at() <= self.body().len()
    }

    /// The bytes read so far.
    pub open spec fn done(&self) -> Seq<u8> {
        self.body().take(self.at())
    }

    /// The fault of a body that does not decode.
    pub open spec fn fault(&self) -> NetError {
        NetError::Malformed(self.what())
    }

    /// At the start of a body.
    pub fn new(buf: &'a [u8], what: &'static str) -> (c: Cursor<'a>)
        ensures
            c.body() == buf@,
            c.at() == 0,
            c.what() == what,
            c.wf(),
            c.done() == Seq::<u8>::empty(),
    {
        Cursor { buf, at: 0, what }
    }

    /// A run of bytes, for a length-prefixed field.
    pub fn bytes(&mut self, n: usize) -> (r: Result<&'a [u8], NetError>)
        requires
            old(self).wf(),
        ensures
            stepped(*old(self), *final(self), n as int, r is Err),
            match r {
                Ok(s) => s@ == old(self).body().subrange(old(self).at(), old(self).at() + n)
                    && final(self).done() == old(self).done() + s@,
                Err(e) => e == old(self).fault(),
            },
    {
        let len: usize = self.buf.len();
        if n > len - self.at {
            return Err(NetError::Malformed(self.what));
        }
        let end: usize = self.at + n;
        let got = slice_subrange(self.buf, self.at, end);
        let ghost before = self.done();
        self.at = end;
        assert(self.done() =~= before + got@);
        Ok(got)
    }

    /// One byte.
    pub fn u8(&mut self) -> (r: Result<u8, NetError>)
        requires
            old(self).wf(),
        ensures
            stepped(*old(self), *final(self), 1, r is Err),
            match r {
                Ok(v) => v == old(self).body()[old(self).at()] && final(self).done() == old(
                    self,
                ).done() + seq![v],
                Err(e) => e == old(self).fault(),
            },
    {
        let got = self.bytes(1)?;
        assert(got@ =~= seq![got@[0]]);
        Ok(got[0])
    }

    /// Two bytes.
    pub fn u16(&mut self) -> (r: Result<u16, NetError>)
        requires
            old(self).wf(),
        ensures
            stepped(*old(self), *final(self), 2, r is Err),
            match r {
                Ok(v) => v == le::from_le(
                    old(self).body().subrange(old(self).at(), old(self).at() + 2),
                ) && final(self).done() == old(self).done() + le::le_bytes(v as nat, 2),
                Err(e) => e == old(self).fault(),
            },
    {
        let got = self.bytes(2)?;
        proof {
            assert(got@.subrange(0, 2) =~= got@);
            le::lemma_le_of_from_le(got@);
        }
        Ok(read_u16(got, 0))
    }

    /// Four bytes.
    pub fn u32(&mut self) -> (r: Result<u32, NetError>)
        requires
            old(self).wf(),
        ensures
            stepped(*old(self), *final(self), 4, r is Err),
            match r {
                Ok(v) => v == le::from_le(
                    old(self).body().subrange(old(self).at(), old(self).at() + 4),
                ) && final(self).done() == old(self).done() + le::le_bytes(v as nat, 4),
                Err(e) => e == old(self).fault(),
            },
    {
        let got = self.bytes(4)?;
        proof {
            assert(got@.subrange(0, 4) =~= got@);
            le::lemma_le_of_from_le(got@);
        }
        Ok(read_u32(got, 0))
    }

    /// Eight bytes.
    pub fn u64(&mut self) -> (r: Result<u64, NetError>)
        requires
            old(self).wf(),
        ensures
            stepped(*old(self), *final(self), 8, r is Err),
            match r {
                Ok(v) => v == le::from_le(
                    old(self).body().subrange(old(self).at(), old(self).at() + 8),
                ) && final(self).done() == old(self).done() + le::le_bytes(v as nat, 8),
                Err(e) => e == old(self).fault(),
            },
    {
        let got = self.bytes(8)?;
        proof {
            assert(got@.subrange(0, 8) =~= got@);
            le::lemma_le_of_from_le(got@);
        }
        Ok(read_u64(got, 0))
    }

    /// Four bytes of a signed number.
    pub fn i32(&mut self) -> (r: Result<i32, NetError>)
        requires
            old(self).wf(),
        ensures
            stepped(*old(self), *final(self), 4, r is Err),
            match r {
                Ok(v) => v == le::from_le_i32(
                    old(self).body().subrange(old(self).at(), old(self).at() + 4),
                ) && final(self).done() == old(self).done() + le::le_i32(v),
                Err(e) => e == old(self).fault(),
            },
    {
        let got = self.bytes(4)?;
        let v: i32 = read_i32(got, 0);
        proof {
            assert(got@.subrange(0, 4) =~= got@);
            le::lemma_le_of_from_le(got@);
            le::lemma_from_le_bound(got@);
            le::lemma_span();
            assert(le::bits32(v) == le::from_le(got@));
        }
        Ok(v)
    }

    /// Eight bytes of a signed number.
    pub fn i64(&mut self) -> (r: Result<i64, NetError>)
        requires
            old(self).wf(),
        ensures
            stepped(*old(self), *final(self), 8, r is Err),
            match r {
                Ok(v) => v == le::from_le_i64(
                    old(self).body().subrange(old(self).at(), old(self).at() + 8),
                ) && final(self).done() == old(self).done() + le::le_i64(v),
                Err(e) => e == old(self).fault(),
            },
    {
        let got = self.bytes(8)?;
        let v: i64 = read_i64(got, 0);
        proof {
            assert(got@.subrange(0, 8) =~= got@);
            le::lemma_le_of_from_le(got@);
            le::lemma_from_le_bound(got@);
            le::lemma_span();
            assert(le::bits64(v) == le::from_le(got@));
        }
        Ok(v)
    }

    /// Everything not yet read, for a message whose tail is an opaque blob.
    /// Consumes the cursor, since there is nothing left to read after it.
    pub fn rest(self) -> (r: &'a [u8])
        requires
            self.wf(),
        ensures
            r@ == self.body().skip(self.at()),
            self.body() == self.done() + r@,
    {
        let r = slice_subrange(self.buf, self.at, self.buf.len());
        assert(r@ =~= self.body().skip(self.at()));
        assert(self.body() =~= self.done() + r@);
        r
    }

    /// Trailing bytes mean the two ends disagree about the format, so this is a
    /// decode failure rather than something to ignore.
    pub fn finish(self) -> (r: Result<(), NetError>)
        requires
            self.wf(),
        ensures
            match r {
                Ok(_) => self.at() == self.body().len() && self.done() == self.body(),
                Err(e) => self.at() < self.body().len() && e == self.fault(),
            },
    {
        if self.at == self.buf.len() {
            assert(self.done() =~= self.body());
            Ok(())
        } else {
            Err(NetError::Malformed(self.what))
        }
    }
}

} // verus!
