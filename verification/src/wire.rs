//! Big-endian integers on the wire.
//!
//! All multi-octet integers in a DNS message are sent most significant octet
//! first. The conversion itself is done by the `byteorder` crate; this module
//! states what it yields and proves that reading undoes writing.

use byteorder::{BigEndian, ByteOrder};
use vstd::prelude::*;
use vstd::slice::slice_subrange;

verus! {

/// The two octets of `n`, most significant first.
pub open spec fn u16_be(n: u16) -> Seq<u8> {
    seq![(n / 256) as u8, (n % 256) as u8]
}

/// The four octets of `n`, most significant first.
pub open spec fn u32_be(n: u32) -> Seq<u8> {
    seq![
        (n / 0x100_0000) as u8,
        (n / 0x1_0000 % 256) as u8,
        (n / 0x100 % 256) as u8,
        (n % 256) as u8,
    ]
}

/// The 16-bit value stored most significant octet first at `pos` in `buf`.
pub open spec fn u16_at(buf: Seq<u8>, pos: int) -> u16
    recommends
        0 <= pos,
        pos + 2 <= buf.len(),
{
    (buf[pos] as int * 256 + buf[pos + 1] as int) as u16
}

/// The 32-bit value stored most significant octet first at `pos` in `buf`.
pub open spec fn u32_at(buf: Seq<u8>, pos: int) -> u32
    recommends
        0 <= pos,
        pos + 4 <= buf.len(),
{
    (buf[pos] as int * 0x100_0000 + buf[pos + 1] as int * 0x1_0000 + buf[pos + 2] as int * 0x100
        + buf[pos + 3] as int) as u32
}

/// The octets `octets` stand in `buf` from `pos` on.
pub open spec fn stands_at(buf: Seq<u8>, pos: int, octets: Seq<u8>) -> bool {
    &&& 0 <= pos
    &&& pos + octets.len() <= buf.len()
    &&& buf.subrange(pos, pos + octets.len()) == octets
}

/// Calls `byteorder::ByteOrder::read_u16` of `BigEndian`, which panics on
/// fewer than two octets and otherwise returns the value whose most
/// significant octet is the first of `window` and whose least significant
/// octet is the second.
#[verifier::external_body]
fn be_read_u16(window: &[u8]) -> (value: u16)
    requires
        window@.len() >= 2,
    ensures
        value == u16_at(window@, 0),
{
    BigEndian::read_u16(window)
}

/// Calls `byteorder::ByteOrder::read_u32` of `BigEndian`, which panics on
/// fewer than four octets and otherwise returns the value made of the first
/// four octets of `window`, most significant first.
#[verifier::external_body]
fn be_read_u32(window: &[u8]) -> (value: u32)
    requires
        window@.len() >= 4,
    ensures
        value == u32_at(window@, 0),
{
    BigEndian::read_u32(window)
}

/// Calls `byteorder::ByteOrder::write_u16` of `BigEndian` on a buffer of two
/// octets, which it fills with the octets of `n`, most significant first.
#[verifier::external_body]
fn be_write_u16(n: u16) -> (octets: [u8; 2])
    ensures
        octets@ == u16_be(n),
{
    let mut octets = [0u8; 2];
    BigEndian::write_u16(&mut octets, n);
    octets
}

/// Calls `byteorder::ByteOrder::write_u32` of `BigEndian` on a buffer of four
/// octets, which it fills with the octets of `n`, most significant first.
#[verifier::external_body]
fn be_write_u32(n: u32) -> (octets: [u8; 4])
    ensures
        octets@ == u32_be(n),
{
    let mut octets = [0u8; 4];
    BigEndian::write_u32(&mut octets, n);
    octets
}

/// Appends the two octets of `n` to `out`, most significant first.
pub fn put_u16(out: &mut Vec<u8>, n: u16)
    ensures
        final(out)@ == old(out)@ + u16_be(n),
{
    let octets = be_write_u16(n);
    out.push(octets[0]);
    out.push(octets[1]);
}

/// Appends the four octets of `n` to `out`, most significant first.
pub fn put_u32(out: &mut Vec<u8>, n: u32)
    ensures
        final(out)@ == old(out)@ + u32_be(n),
{
    let octets = be_write_u32(n);
    out.push(octets[0]);
    out.push(octets[1]);
    out.push(octets[2]);
    out.push(octets[3]);
}

/// Appends the octets of `src` to `out`.
pub fn put_bytes(out: &mut Vec<u8>, src: &[u8])
    ensures
        final(out)@ == old(out)@ + src@,
{
    out.extend_from_slice(src);
    assert(out@ =~= old(out)@ + src@);
}

/// Reads the 16-bit value stored at `pos` in `buf`.
pub(crate) fn get_u16(buf: &[u8], pos: usize) -> (value: u16)
    requires
        pos + 2 <= buf.len(),
    ensures
        value == u16_at(buf@, pos as int),
{
    be_read_u16(slice_subrange(buf, pos, pos + 2))
}

/// Reads the 32-bit value stored at `pos` in `buf`.
pub(crate) fn get_u32(buf: &[u8], pos: usize) -> (value: u32)
    requires
        pos + 4 <= buf.len(),
    ensures
        value == u32_at(buf@, pos as int),
{
    be_read_u32(slice_subrange(buf, pos, pos + 4))
}

/// Where two runs of octets stand one after the other, each of them stands
/// in its place.
pub proof fn lemma_stands_at_parts(buf: Seq<u8>, pos: int, first: Seq<u8>, second: Seq<u8>)
    requires
        stands_at(buf, pos, first + second),
    ensures
        stands_at(buf, pos, first),
        stands_at(buf, pos + first.len(), second),
{
    let whole = first + second;
    let window = buf.subrange(pos, pos + whole.len());
    assert(buf.subrange(pos, pos + first.len()) =~= first) by {
        assert forall|i: int| 0 <= i < first.len() implies buf[pos + i] == first[i] by {
            assert(window[i] == whole[i]);
        }
    }
    assert(buf.subrange(pos + first.len(), pos + first.len() + second.len()) =~= second) by {
        assert forall|i: int| 0 <= i < second.len() implies buf[pos + first.len() + i]
            == second[i] by {
            assert(window[first.len() + i] == whole[first.len() + i]);
        }
    }
}

/// Reading a 16-bit value where its own octets stand gives the value.
pub proof fn lemma_u16_round_trip(buf: Seq<u8>, pos: int, n: u16)
    requires
        stands_at(buf, pos, u16_be(n)),
    ensures
        u16_at(buf, pos) == n,
{
    let window = buf.subrange(pos, pos + 2);
    assert(window[0] == buf[pos] && window[1] == buf[pos + 1]);
}

/// Reading a 32-bit value where its own octets stand gives the value.
pub proof fn lemma_u32_round_trip(buf: Seq<u8>, pos: int, n: u32)
    requires
        stands_at(buf, pos, u32_be(n)),
    ensures
        u32_at(buf, pos) == n,
{
    let window = buf.subrange(pos, pos + 4);
    assert(window[0] == buf[pos] && window[1] == buf[pos + 1] && window[2] == buf[pos + 2]
        && window[3] == buf[pos + 3]);
}

} // verus!
