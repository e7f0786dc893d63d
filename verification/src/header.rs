//! The fixed header of twelve octets that opens every message.

use crate::error::DnsError;
use crate::reader::{reads_as, Reader};
use crate::wire::{
    lemma_stands_at_parts, lemma_u16_round_trip, put_u16, stands_at, u16_at, u16_be,
};
use vstd::prelude::*;

verus! {

/// The length of a header on the wire.
pub const HEADER_LEN: usize = 12;

/// The flags of a standard query that asks for recursion.
pub const FLAGS_QUERY: u16 = 0x0100;

/// The flags of a response without error from a server that offers recursion.
pub const FLAGS_RESPONSE: u16 = 0x8180;

/// The header of a message. The flags are carried as they are; the four
/// counts say how many entries each of the four sections holds.
#[derive(Clone, Copy, Debug, PartialEq, Eq, Structural)]
pub struct DnsHeader {
    /// The transaction id, which ties a response to its request.
    pub id: u16,
    /// Query or response, opcode, recursion bits and response code.
    pub flags: u16,
    /// The number of questions.
    pub qdcount: u16,
    /// The number of answers.
    pub ancount: u16,
    /// The number of authority records.
    pub nscount: u16,
    /// The number of additional records.
    pub arcount: u16,
}

impl View for DnsHeader {
    type V = DnsHeader;

    open spec fn view(&self) -> DnsHeader {
        *self
    }
}

impl DeepView for DnsHeader {
    type V = DnsHeader;

    open spec fn deep_view(&self) -> DnsHeader {
        *self
    }
}

/// A header on the wire: its six fields in order, each most significant
/// octet first.
pub open spec fn header_wire(h: DnsHeader) -> Seq<u8> {
    u16_be(h.id) + u16_be(h.flags) + u16_be(h.qdcount) + u16_be(h.ancount) + u16_be(h.nscount)
        + u16_be(h.arcount)
}

/// The header that stands at `pos` in `buf`, with the position after it. It
/// is `TruncatedMessage` when fewer than twelve octets are left.
pub open spec fn decoded_header(buf: Seq<u8>, pos: int) -> Result<(DnsHeader, int), DnsError> {
    if 0 <= pos && pos + HEADER_LEN <= buf.len() {
        Ok(
            (
                DnsHeader {
                    id: u16_at(buf, pos),
                    flags: u16_at(buf, pos + 2),
                    qdcount: u16_at(buf, pos + 4),
                    ancount: u16_at(buf, pos + 6),
                    nscount: u16_at(buf, pos + 8),
                    arcount: u16_at(buf, pos + 10),
                },
                pos + HEADER_LEN,
            ),
        )
    } else {
        Err(DnsError::TruncatedMessage)
    }
}

/// The twelve octets of `header`.
pub fn encode_header(header: &DnsHeader) -> (out: Vec<u8>)
    ensures
        out@ == header_wire(*header),
        out@.len() == HEADER_LEN,
{
    let mut out: Vec<u8> = Vec::new();
    put_u16(&mut out, header.id);
    put_u16(&mut out, header.flags);
    put_u16(&mut out, header.qdcount);
    put_u16(&mut out, header.ancount);
    put_u16(&mut out, header.nscount);
    put_u16(&mut out, header.arcount);
    assert(out@ =~= header_wire(*header));
    out
}

/// Reads a header. With fewer than twelve octets left it fails with
/// [`DnsError::TruncatedMessage`] and consumes nothing.
pub fn decode_header<'a>(r: &mut Reader<'a>) -> (res: Result<DnsHeader, DnsError>)
    ensures
        reads_as(old(r)@, final(r)@, res, decoded_header(old(r)@.bytes, old(r)@.pos as int)),
        old(r)@.bytes.len() - old(r)@.pos < HEADER_LEN ==> res == Err::<DnsHeader, DnsError>(
            DnsError::TruncatedMessage,
        ),
{
    let mut cur: Reader<'a> = *r;
    let id: u16 = cur.read_u16()?;
    let flags: u16 = cur.read_u16()?;
    let qdcount: u16 = cur.read_u16()?;
    let ancount: u16 = cur.read_u16()?;
    let nscount: u16 = cur.read_u16()?;
    let arcount: u16 = cur.read_u16()?;
    *r = cur;
    Ok(DnsHeader { id, flags, qdcount, ancount, nscount, arcount })
}

/// Decoding undoes encoding: where the wire form of a header stands in a
/// buffer, the decoder reads that header, whatever its six fields hold, and
/// stops right after it.
pub proof fn lemma_header_round_trip(h: DnsHeader, buf: Seq<u8>, pos: int)
    requires
        stands_at(buf, pos, header_wire(h)),
    ensures
        decoded_header(buf, pos) == Ok::<(DnsHeader, int), DnsError>((h, pos + HEADER_LEN)),
{
    let id = u16_be(h.id);
    let flags = u16_be(h.flags);
    let qd = u16_be(h.qdcount);
    let an = u16_be(h.ancount);
    let ns = u16_be(h.nscount);
    let ar = u16_be(h.arcount);
    lemma_stands_at_parts(buf, pos, id + flags + qd + an + ns, ar);
    lemma_stands_at_parts(buf, pos, id + flags + qd + an, ns);
    lemma_stands_at_parts(buf, pos, id + flags + qd, an);
    lemma_stands_at_parts(buf, pos, id + flags, qd);
    lemma_stands_at_parts(buf, pos, id, flags);
    lemma_u16_round_trip(buf, pos, h.id);
    lemma_u16_round_trip(buf, pos + 2, h.flags);
    lemma_u16_round_trip(buf, pos + 4, h.qdcount);
    lemma_u16_round_trip(buf, pos + 6, h.ancount);
    lemma_u16_round_trip(buf, pos + 8, h.nscount);
    lemma_u16_round_trip(buf, pos + 10, h.arcount);
}

} // verus!
