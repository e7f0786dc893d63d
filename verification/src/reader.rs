//! A forward cursor over the octets of one message.

use crate::error::DnsError;
use crate::wire::{get_u16, get_u32, u16_at, u32_at};
use vstd::prelude::*;
use vstd::slice::slice_subrange;

verus! {

/// What a [`Reader`] stands for: the octets it reads from, and how many of
/// them it has consumed.
pub ghost struct ReaderView {
    pub bytes: Seq<u8>,
    pub pos: nat,
}

impl ReaderView {
    /// The cursor stands within the message or at its end. This holds of
    /// every reader.
    pub open spec fn valid(self) -> bool {
        self.pos <= self.bytes.len()
    }

    /// At least `n` octets are left to read.
    pub open spec fn has(self, n: int) -> bool {
        self.pos + n <= self.bytes.len()
    }

    /// The same octets with the cursor `n` octets further on.
    pub open spec fn after(self, n: int) -> ReaderView {
        ReaderView { bytes: self.bytes, pos: (self.pos + n) as nat }
    }
}

/// What a decoder owes its caller, given what stands at the reader's
/// position: on success the decoded value and a reader moved past it, still
/// within the message; on failure the error and a reader that has not moved.
/// The octets are never changed.
pub open spec fn reads_as<T: DeepView>(
    before: ReaderView,
    after: ReaderView,
    res: Result<T, DnsError>,
    expected: Result<(T::V, int), DnsError>,
) -> bool {
    &&& after.bytes == before.bytes
    &&& match expected {
        Ok((value, next)) => res is Ok && res->Ok_0.deep_view() == value && after.pos == next
            && after.valid(),
        Err(e) => res is Err && res->Err_0 == e && after.pos == before.pos,
    }
}

/// A cursor over a message. A read consumes octets from the front; a read
/// that cannot be completed fails with [`DnsError::TruncatedMessage`] and
/// consumes nothing.
#[derive(Clone, Copy)]
pub struct Reader<'a> {
    buf: &'a [u8],
    pos: usize,
}

impl<'a> View for Reader<'a> {
    type V = ReaderView;

    closed spec fn view(&self) -> ReaderView {
        ReaderView { bytes: self.buf@, pos: self.pos as nat }
    }
}

impl<'a> Reader<'a> {
    /// The cursor never passes the end of the message.
    #[verifier::type_invariant]
    spec fn within_bounds(self) -> bool {
        self.pos <= self.buf@.len()
    }

    /// A reader at the first octet of `buf`.
    pub fn new(buf: &'a [u8]) -> (r: Reader<'a>)
        ensures
            r@.bytes == buf@,
            r@.pos == 0,
            r@.valid(),
    {
        Reader { buf, pos: 0 }
    }

    /// The number of octets consumed so far. It never exceeds the length of
    /// the message.
    pub fn position(&self) -> (pos: usize)
        ensures
            pos == self@.pos,
            self@.valid(),
    {
        proof {
            use_type_invariant(self);
        }
        self.pos
    }

    /// The number of octets not yet consumed.
    pub fn remaining(&self) -> (n: usize)
        ensures
            n == self@.bytes.len() - self@.pos,
            self@.valid(),
    {
        proof {
            use_type_invariant(self);
        }
        self.buf.len() - self.pos
    }

    /// Reads one octet.
    pub fn read_u8(&mut self) -> (res: Result<u8, DnsError>)
        ensures
            final(self)@.valid(),
            old(self)@.has(1) ==> res == Ok::<u8, DnsError>(old(self)@.bytes[old(self)@.pos as int])
                && final(self)@ == old(self)@.after(1),
            !old(self)@.has(1) ==> res == Err::<u8, DnsError>(DnsError::TruncatedMessage)
                && final(self)@ == old(self)@,
    {
        proof {
            use_type_invariant(&*self);
        }
        if self.buf.len() - self.pos < 1 {
            return Err(DnsError::TruncatedMessage);
        }
        let value: u8 = self.buf[self.pos];
        self.pos = self.pos + 1;
        Ok(value)
    }

    /// Reads a 16-bit integer, most significant octet first.
    pub fn read_u16(&mut self) -> (res: Result<u16, DnsError>)
        ensures
            final(self)@.valid(),
            old(self)@.has(2) ==> res == Ok::<u16, DnsError>(
                u16_at(old(self)@.bytes, old(self)@.pos as int),
            ) && final(self)@ == old(self)@.after(2),
            !old(self)@.has(2) ==> res == Err::<u16, DnsError>(DnsError::TruncatedMessage)
                && final(self)@ == old(self)@,
    {
        proof {
            use_type_invariant(&*self);
        }
        if self.buf.len() - self.pos < 2 {
            return Err(DnsError::TruncatedMessage);
        }
        let value: u16 = get_u16(self.buf, self.pos);
        self.pos = self.pos + 2;
        Ok(value)
    }

    /// Reads a 32-bit integer, most significant octet first.
    pub fn read_u32(&mut self) -> (res: Result<u32, DnsError>)
        ensures
            final(self)@.valid(),
            old(self)@.has(4) ==> res == Ok::<u32, DnsError>(
                u32_at(old(self)@.bytes, old(self)@.pos as int),
            ) && final(self)@ == old(self)@.after(4),
            !old(self)@.has(4) ==> res == Err::<u32, DnsError>(DnsError::TruncatedMessage)
                && final(self)@ == old(self)@,
    {
        proof {
            use_type_invariant(&*self);
        }
        if self.buf.len() - self.pos < 4 {
            return Err(DnsError::TruncatedMessage);
        }
        let value: u32 = get_u32(self.buf, self.pos);
        self.pos = self.pos + 4;
        Ok(value)
    }

    /// Reads the next `n` octets.
    pub fn read_exact(&mut self, n: usize) -> (res: Result<&'a [u8], DnsError>)
        ensures
            final(self)@.valid(),
            old(self)@.has(n as int) ==> res is Ok && res->Ok_0@ == old(self)@.bytes.subrange(
                old(self)@.pos as int,
                old(self)@.pos + n,
            ) && final(self)@ == old(self)@.after(n as int),
            !old(self)@.has(n as int) ==> res is Err && res->Err_0 == DnsError::TruncatedMessage
                && final(self)@ == old(self)@,
    {
        proof {
            use_type_invariant(&*self);
        }
        if self.buf.len() - self.pos < n {
            return Err(DnsError::TruncatedMessage);
        }
        let window: &'a [u8] = slice_subrange(self.buf, self.pos, self.pos + n);
        self.pos = self.pos + n;
        Ok(window)
    }

    /// Passes over the next `n` octets without looking at them.
    pub fn skip(&mut self, n: usize) -> (res: Result<(), DnsError>)
        ensures
            final(self)@.valid(),
            old(self)@.has(n as int) ==> res is Ok && final(self)@ == old(self)@.after(n as int),
            !old(self)@.has(n as int) ==> res == Err::<(), DnsError>(DnsError::TruncatedMessage)
                && final(self)@ == old(self)@,
    {
        proof {
            use_type_invariant(&*self);
        }
        if self.buf.len() - self.pos < n {
            return Err(DnsError::TruncatedMessage);
        }
        self.pos = self.pos + n;
        Ok(())
    }
}

} // verus!
