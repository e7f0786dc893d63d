//! The client role: the query that asks for the address of a name, and what
//! a response to it says.

use crate::error::DnsError;
use crate::header::{
    decode_header, decoded_header, encode_header, header_wire, DnsHeader, FLAGS_QUERY,
};
use crate::name::{encodable, CompressionPolicy};
use crate::question::{
    decode_questions, decoded_questions, encode_question, question_wire, DnsQuestion,
    QuestionView, CLASS_IN, TYPE_A,
};
use crate::reader::Reader;
use crate::record::{decode_records, decoded_records, AnswerView, DnsAnswer};
use crate::wire::put_bytes;
use vstd::prelude::*;

verus! {

/// A transaction id for callers that have no source of random numbers. A
/// fixed id lets anyone who can reach the client forge a response, so it is
/// fit for trials only: a client in earnest draws a fresh id for each query.
pub const FIXED_TRANSACTION_ID: u16 = 0x1234;

/// The header of a query with the id `id`: one question, recursion desired,
/// nothing in the other sections.
pub open spec fn query_header(id: u16) -> DnsHeader {
    DnsHeader { id, flags: FLAGS_QUERY, qdcount: 1, ancount: 0, nscount: 0, arcount: 0 }
}

/// The question that asks for the IPv4 address of `name`.
pub open spec fn address_question(name: Seq<char>) -> QuestionView {
    QuestionView { qname: name, qtype: TYPE_A, qclass: CLASS_IN }
}

/// The query for the address of `name` on the wire.
pub open spec fn query_wire(id: u16, name: Seq<char>) -> Seq<u8> {
    header_wire(query_header(id)) + question_wire(address_question(name))
}

/// The addresses that `answers` hold, in order.
pub open spec fn addresses_of(answers: Seq<AnswerView>) -> Seq<[u8; 4]>
    decreases answers.len(),
{
    if answers.len() == 0 {
        Seq::empty()
    } else {
        let before = addresses_of(answers.drop_last());
        match answers.last().rdata {
            Some(address) => before.push(address),
            None => before,
        }
    }
}

/// What a response says to the client that sent the query with the id `id`:
/// the addresses of its answers, or why it is refused. A response with
/// another id is refused before its questions and answers are looked at.
pub open spec fn resolved_addresses(
    response: Seq<u8>,
    id: u16,
    policy: CompressionPolicy,
) -> Result<Seq<[u8; 4]>, DnsError> {
    match decoded_header(response, 0) {
        Ok((header, questions_at)) => if header.id != id {
            Err(DnsError::TransactionMismatch)
        } else {
            match decoded_questions(response, questions_at, header.qdcount as nat, policy) {
                Ok((_, answers_at)) => match decoded_records(
                    response,
                    answers_at,
                    header.ancount as nat,
                    policy,
                ) {
                    Ok((answers, _)) => Ok(addresses_of(answers)),
                    Err(e) => Err(e),
                },
                Err(e) => Err(e),
            }
        },
        Err(e) => Err(e),
    }
}

/// Builds the query that asks for the IPv4 address of `domain`: a header
/// with the id `id`, the flags of a standard query with recursion desired and
/// a question count of 1, then the one question, of type A and class IN.
///
/// It fails with [`DnsError::Encoding`] exactly when `domain` has a label of
/// more than 255 octets.
pub fn build_query(id: u16, domain: &str) -> (res: Result<Vec<u8>, DnsError>)
    ensures
        encodable(domain@) ==> res is Ok && res->Ok_0@ == query_wire(id, domain@),
        !encodable(domain@) ==> res is Err && res->Err_0 == DnsError::Encoding,
{
    let header: DnsHeader = DnsHeader {
        id,
        flags: FLAGS_QUERY,
        qdcount: 1,
        ancount: 0,
        nscount: 0,
        arcount: 0,
    };
    let question: DnsQuestion = DnsQuestion {
        qname: domain.to_owned(),
        qtype: TYPE_A,
        qclass: CLASS_IN,
    };
    let asked: Vec<u8> = encode_question(&question)?;
    let mut out: Vec<u8> = encode_header(&header);
    put_bytes(&mut out, asked.as_slice());
    Ok(out)
}

/// Reads the response to the query with the id `id` and returns the
/// addresses that it gives, in the order of its answers. A response without
/// address records gives an empty list.
///
/// A response with another id fails with [`DnsError::TransactionMismatch`],
/// whatever else it holds. The questions are decoded only to get past them.
/// An answer counts if its type is A and its data is four octets long; the
/// data of any other answer is passed over.
pub fn parse_response(
    response: &[u8],
    id: u16,
    policy: CompressionPolicy,
) -> (res: Result<Vec<[u8; 4]>, DnsError>)
    ensures
        match resolved_addresses(response@, id, policy) {
            Ok(addresses) => res is Ok && res->Ok_0@ == addresses,
            Err(e) => res is Err && res->Err_0 == e,
        },
        decoded_header(response@, 0) is Ok && decoded_header(response@, 0)->Ok_0.0.id != id
            ==> res is Err && res->Err_0 == DnsError::TransactionMismatch,
{
    let mut r: Reader<'_> = Reader::new(response);
    let header: DnsHeader = decode_header(&mut r)?;
    if header.id != id {
        return Err(DnsError::TransactionMismatch);
    }
    let _questions: Vec<DnsQuestion> = decode_questions(&mut r, header.qdcount, policy)?;
    let answers: Vec<DnsAnswer> = decode_records(&mut r, header.ancount, policy)?;
    let ghost given = answers.deep_view();
    let mut addresses: Vec<[u8; 4]> = Vec::new();
    let mut done: usize = 0;
    assert(given.take(0) =~= Seq::<AnswerView>::empty());
    while done < answers.len()
        invariant
            given == answers.deep_view(),
            done <= answers.len(),
            addresses@ == addresses_of(given.take(done as int)),
        decreases answers.len() - done,
    {
        proof {
            assert(given.take(done + 1).drop_last() =~= given.take(done as int));
            assert(given.take(done + 1).last() == answers@[done as int]@);
        }
        match answers[done].rdata {
            Some(address) => {
                addresses.push(address);
            },
            None => {},
        }
        done = done + 1;
    }
    assert(given.take(done as int) =~= given);
    Ok(addresses)
}

} // verus!
