//! One entry of the answer section. Only address records are interpreted;
//! the data of any other record is passed over by its declared length.

use crate::error::DnsError;
use crate::name::{
    decoded_name, encodable, lemma_name_reads_back, name_wire, read_qname, reads_back,
    write_qname, CompressionPolicy,
};
use crate::question::{CLASS_IN, TYPE_A};
use crate::reader::{reads_as, Reader};
use crate::wire::{
    lemma_stands_at_parts, lemma_u16_round_trip, lemma_u32_round_trip, put_bytes, put_u16,
    put_u32, stands_at, u16_at, u16_be, u32_at, u32_be,
};
use vstd::prelude::*;

verus! {

/// The length of the data of an address record: the four octets of an IPv4
/// address.
pub const ADDRESS_LEN: u16 = 4;

/// A resource record as far as this library reads it.
#[derive(Clone, Debug, PartialEq, Eq)]
pub struct DnsAnswer {
    /// The name that the record is about.
    pub name: String,
    /// The record type.
    pub atype: u16,
    /// The record class.
    pub aclass: u16,
    /// The number of seconds for which the record may be kept.
    pub ttl: u32,
    /// The IPv4 address, if this is an address record with four octets of
    /// data; nothing for any other record.
    pub rdata: Option<[u8; 4]>,
}

/// What a [`DnsAnswer`] stands for.
pub ghost struct AnswerView {
    pub name: Seq<char>,
    pub atype: u16,
    pub aclass: u16,
    pub ttl: u32,
    pub rdata: Option<[u8; 4]>,
}

impl View for DnsAnswer {
    type V = AnswerView;

    open spec fn view(&self) -> AnswerView {
        AnswerView {
            name: self.name@,
            atype: self.atype,
            aclass: self.aclass,
            ttl: self.ttl,
            rdata: self.rdata,
        }
    }
}

impl DeepView for DnsAnswer {
    type V = AnswerView;

    open spec fn deep_view(&self) -> AnswerView {
        self@
    }
}

/// The address record that gives `name` the address `address`.
pub open spec fn a_record(name: Seq<char>, ttl: u32, address: [u8; 4]) -> AnswerView {
    AnswerView { name, atype: TYPE_A, aclass: CLASS_IN, ttl, rdata: Some(address) }
}

/// An address record on the wire: the name, type 1, class 1, the time to
/// live, the data length 4 and the four octets of the address.
pub open spec fn a_record_wire(name: Seq<char>, ttl: u32, address: [u8; 4]) -> Seq<u8> {
    name_wire(name) + u16_be(TYPE_A) + u16_be(CLASS_IN) + u32_be(ttl) + u16_be(ADDRESS_LEN)
        + address@
}

/// The four octets at `pos` in `buf`, as an address.
pub open spec fn address_at(buf: Seq<u8>, pos: int) -> [u8; 4] {
    [buf[pos], buf[pos + 1], buf[pos + 2], buf[pos + 3]]
}

/// The record that stands at `pos` in `buf`, with the position after its
/// data. The data must be there in full, whatever the record's type.
pub open spec fn decoded_record(
    buf: Seq<u8>,
    pos: int,
    policy: CompressionPolicy,
) -> Result<(AnswerView, int), DnsError> {
    match decoded_name(buf, pos, policy) {
        Ok((name, next)) => if next + 10 > buf.len() {
            Err(DnsError::TruncatedMessage)
        } else {
            let atype = u16_at(buf, next);
            let rdlength = u16_at(buf, next + 8);
            if next + 10 + rdlength > buf.len() {
                Err(DnsError::TruncatedMessage)
            } else {
                Ok(
                    (
                        AnswerView {
                            name,
                            atype,
                            aclass: u16_at(buf, next + 2),
                            ttl: u32_at(buf, next + 4),
                            rdata: if atype == TYPE_A && rdlength == ADDRESS_LEN {
                                Some(address_at(buf, next + 10))
                            } else {
                                None
                            },
                        },
                        next + 10 + rdlength,
                    ),
                )
            }
        },
        Err(e) => Err(e),
    }
}

/// `records` put in front of the records of a parse that went on after them.
pub open spec fn with_records_before(
    records: Seq<AnswerView>,
    later: Result<(Seq<AnswerView>, int), DnsError>,
) -> Result<(Seq<AnswerView>, int), DnsError> {
    match later {
        Ok((rest, next)) => Ok((records + rest, next)),
        Err(e) => Err(e),
    }
}

/// The `count` records that stand one after the other from `pos` on in
/// `buf`, with the position after the last. It is the first error met, if
/// any of them cannot be decoded.
pub open spec fn decoded_records(
    buf: Seq<u8>,
    pos: int,
    count: nat,
    policy: CompressionPolicy,
) -> Result<(Seq<AnswerView>, int), DnsError>
    decreases count,
{
    if count == 0 {
        Ok((Seq::empty(), pos))
    } else {
        match decoded_record(buf, pos, policy) {
            Ok((first, next)) => with_records_before(
                seq![first],
                decoded_records(buf, next, (count - 1) as nat, policy),
            ),
            Err(e) => Err(e),
        }
    }
}

/// The wire form of the address record that gives `name` the address
/// `address`. It fails with [`DnsError::Encoding`] exactly when the name has
/// a label of more than 255 octets.
pub fn encode_a_record(
    name: &str,
    ttl: u32,
    address: &[u8; 4],
) -> (res: Result<Vec<u8>, DnsError>)
    ensures
        encodable(name@) ==> res is Ok && res->Ok_0@ == a_record_wire(name@, ttl, *address),
        !encodable(name@) ==> res is Err && res->Err_0 == DnsError::Encoding,
{
    let mut out: Vec<u8> = Vec::new();
    write_qname(&mut out, name)?;
    put_u16(&mut out, TYPE_A);
    put_u16(&mut out, CLASS_IN);
    put_u32(&mut out, ttl);
    put_u16(&mut out, ADDRESS_LEN);
    put_bytes(&mut out, address.as_slice());
    assert(out@ =~= a_record_wire(name@, ttl, *address));
    Ok(out)
}

/// Reads a record. Its data is taken as an address if the type is 1 and the
/// data is four octets long; otherwise the data is passed over. On failure
/// nothing is consumed.
pub fn decode_record<'a>(
    r: &mut Reader<'a>,
    policy: CompressionPolicy,
) -> (res: Result<DnsAnswer, DnsError>)
    ensures
        reads_as(
            old(r)@,
            final(r)@,
            res,
            decoded_record(old(r)@.bytes, old(r)@.pos as int, policy),
        ),
{
    let mut cur: Reader<'a> = *r;
    let name: String = read_qname(&mut cur, policy)?;
    let atype: u16 = cur.read_u16()?;
    let aclass: u16 = cur.read_u16()?;
    let ttl: u32 = cur.read_u32()?;
    let rdlength: u16 = cur.read_u16()?;
    let rdata: Option<[u8; 4]> = if atype == TYPE_A && rdlength == ADDRESS_LEN {
        let data: &[u8] = cur.read_exact(4)?;
        assert(data@.len() == 4);
        let address: [u8; 4] = [data[0], data[1], data[2], data[3]];
        assert(address =~= address_at(old(r)@.bytes, cur@.pos - 4));
        Some(address)
    } else {
        cur.skip(rdlength as usize)?;
        None
    };
    *r = cur;
    Ok(DnsAnswer { name, atype, aclass, ttl, rdata })
}

/// Reads `count` records. On failure nothing is consumed.
pub fn decode_records<'a>(
    r: &mut Reader<'a>,
    count: u16,
    policy: CompressionPolicy,
) -> (res: Result<Vec<DnsAnswer>, DnsError>)
    ensures
        reads_as(
            old(r)@,
            final(r)@,
            res,
            decoded_records(old(r)@.bytes, old(r)@.pos as int, count as nat, policy),
        ),
{
    let mut cur: Reader<'a> = *r;
    let start: usize = cur.position();
    let mut records: Vec<DnsAnswer> = Vec::new();
    let ghost bytes = r@.bytes;
    let mut done: u16 = 0;
    assert(records.deep_view() =~= Seq::<AnswerView>::empty());
    assert(decoded_records(bytes, start as int, count as nat, policy) is Ok ==> records.deep_view()
        + decoded_records(bytes, start as int, count as nat, policy)->Ok_0.0 =~= decoded_records(
        bytes,
        start as int,
        count as nat,
        policy,
    )->Ok_0.0);
    while done < count
        invariant
            *r == *old(r),
            bytes == old(r)@.bytes,
            start == old(r)@.pos,
            cur@.bytes == bytes,
            cur@.valid(),
            done <= count,
            decoded_records(bytes, start as int, count as nat, policy) == with_records_before(
                records.deep_view(),
                decoded_records(bytes, cur@.pos as int, (count - done) as nat, policy),
            ),
        decreases count - done,
    {
        let ghost here = cur@.pos as int;
        let ghost before = records.deep_view();
        let record: DnsAnswer = decode_record(&mut cur, policy)?;
        proof {
            let left = (count - done - 1) as nat;
            let later = decoded_records(bytes, cur@.pos as int, left, policy);
            assert(decoded_records(bytes, here, (count - done) as nat, policy)
                == with_records_before(seq![record@], later));
            if later is Ok {
                assert(before + (seq![record@] + later->Ok_0.0) =~= before.push(record@)
                    + later->Ok_0.0);
            }
        }
        records.push(record);
        assert(records.deep_view() =~= before.push(record@));
        done = done + 1;
    }
    assert(records.deep_view() + Seq::<AnswerView>::empty() =~= records.deep_view());
    *r = cur;
    Ok(records)
}

/// Decoding undoes encoding: where the wire form of an address record
/// stands in a buffer, the decoder reads that record, address included, and
/// stops right after it, provided that its name is one that is read back.
pub proof fn lemma_a_record_round_trip(
    name: Seq<char>,
    ttl: u32,
    address: [u8; 4],
    buf: Seq<u8>,
    pos: int,
    policy: CompressionPolicy,
)
    requires
        reads_back(name, policy),
        stands_at(buf, pos, a_record_wire(name, ttl, address)),
    ensures
        decoded_record(buf, pos, policy) == Ok::<(AnswerView, int), DnsError>(
            (a_record(name, ttl, address), pos + a_record_wire(name, ttl, address).len()),
        ),
{
    let n = name_wire(name);
    let t = u16_be(TYPE_A);
    let c = u16_be(CLASS_IN);
    let l = u32_be(ttl);
    let d = u16_be(ADDRESS_LEN);
    lemma_stands_at_parts(buf, pos, n + t + c + l + d, address@);
    lemma_stands_at_parts(buf, pos, n + t + c + l, d);
    lemma_stands_at_parts(buf, pos, n + t + c, l);
    lemma_stands_at_parts(buf, pos, n + t, c);
    lemma_stands_at_parts(buf, pos, n, t);
    lemma_name_reads_back(name, buf, pos, policy);
    let next = pos + n.len();
    lemma_u16_round_trip(buf, next, TYPE_A);
    lemma_u16_round_trip(buf, next + 2, CLASS_IN);
    lemma_u32_round_trip(buf, next + 4, ttl);
    lemma_u16_round_trip(buf, next + 8, ADDRESS_LEN);
    let window = buf.subrange(next + 10, next + 14);
    assert(window[0] == buf[next + 10] && window[1] == buf[next + 11] && window[2] == buf[next
        + 12] && window[3] == buf[next + 13]);
    assert(address_at(buf, next + 10) =~= address);
}

} // verus!
