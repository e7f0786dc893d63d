//! The server role: one request in, one response out.
//!
//! The server keeps no state between requests. Whatever a request holds, it
//! is either answered or refused with an error; a caller that serves a socket
//! drops a refused request and goes on with the next one.

use crate::error::DnsError;
use crate::header::{
    decode_header, decoded_header, encode_header, header_wire, lemma_header_round_trip,
    DnsHeader, FLAGS_RESPONSE, HEADER_LEN,
};
use crate::name::CompressionPolicy;
use crate::question::{
    all_encodable, decode_questions, decoded_questions, encode_question,
    lemma_decoded_questions_are_encodable, question_wire, DnsQuestion, QuestionView, TYPE_A,
};
use crate::reader::Reader;
use crate::record::{a_record_wire, encode_a_record};
use crate::wire::{lemma_stands_at_parts, put_bytes};
use crate::zone::ZoneTable;
use vstd::prelude::*;

verus! {

/// The time to live, in seconds, of every answer that the server gives.
pub const ANSWER_TTL: u32 = 60;

/// The server has an answer to `q`: it asks for an address, and the zone has
/// exactly this name. The class is not looked at.
pub open spec fn answered(q: QuestionView, zone: Map<Seq<char>, [u8; 4]>) -> bool {
    q.qtype == TYPE_A && zone.dom().contains(q.qname)
}

/// The server has an answer to one of `questions`.
pub open spec fn any_answered(questions: Seq<QuestionView>, zone: Map<Seq<char>, [u8; 4]>) -> bool {
    exists|i: int| 0 <= i < questions.len() && answered(#[trigger] questions[i], zone)
}

/// What the answer section holds for `q`: one address record if the server
/// has an answer, nothing otherwise.
pub open spec fn answer_wire(q: QuestionView, zone: Map<Seq<char>, [u8; 4]>) -> Seq<u8> {
    if answered(q, zone) {
        a_record_wire(q.qname, ANSWER_TTL, zone[q.qname])
    } else {
        Seq::empty()
    }
}

/// The question section of the response: the questions of the request, in
/// order, each encoded anew.
pub open spec fn questions_wire(questions: Seq<QuestionView>) -> Seq<u8>
    decreases questions.len(),
{
    if questions.len() == 0 {
        Seq::empty()
    } else {
        questions_wire(questions.drop_last()) + question_wire(questions.last())
    }
}

/// The answer section of the response: for each question in order, what
/// [`answer_wire`] gives.
pub open spec fn answers_wire(questions: Seq<QuestionView>, zone: Map<Seq<char>, [u8; 4]>) -> Seq<
    u8,
>
    decreases questions.len(),
{
    if questions.len() == 0 {
        Seq::empty()
    } else {
        answers_wire(questions.drop_last(), zone) + answer_wire(questions.last(), zone)
    }
}

/// The header of the response to a request with header `request`: the same
/// id and question count, the flags of a response, an answer count of 1 if
/// any question was answered and 0 otherwise, and nothing in the other two
/// sections.
pub open spec fn response_header(request: DnsHeader, any_answer: bool) -> DnsHeader {
    DnsHeader {
        id: request.id,
        flags: FLAGS_RESPONSE,
        qdcount: request.qdcount,
        ancount: if any_answer {
            1
        } else {
            0
        },
        nscount: 0,
        arcount: 0,
    }
}

/// The response to `request`, or why there is none: the request's header or
/// one of the questions that it announces cannot be decoded.
pub open spec fn response_wire(
    request: Seq<u8>,
    zone: Map<Seq<char>, [u8; 4]>,
    policy: CompressionPolicy,
) -> Result<Seq<u8>, DnsError> {
    match decoded_header(request, 0) {
        Ok((header, next)) => match decoded_questions(
            request,
            next,
            header.qdcount as nat,
            policy,
        ) {
            Ok((questions, _)) => Ok(
                header_wire(response_header(header, any_answered(questions, zone)))
                    + questions_wire(questions) + answers_wire(questions, zone),
            ),
            Err(e) => Err(e),
        },
        Err(e) => Err(e),
    }
}

/// Answers one request from the zone table.
///
/// The response repeats the request's id and its questions. For every
/// question that asks for an address of a name in the table it holds one
/// address record with a time to live of 60 seconds. The answer count in its
/// header is 1 if there is any answer and 0 if there is none, however many
/// answers follow. A miss is not marked in the flags: the response then just
/// has no answer. The flags of the request are not looked at.
///
/// A request that cannot be decoded gets no response, only the error; a
/// request of fewer than twelve octets is such a request. The outcome
/// depends on the request, the table and the policy alone, so a refused
/// request leaves no trace for those that come after it.
pub fn handle_query(
    request: &[u8],
    zone: &ZoneTable,
    policy: CompressionPolicy,
) -> (res: Result<Vec<u8>, DnsError>)
    ensures
        match response_wire(request@, zone@, policy) {
            Ok(wire) => res is Ok && res->Ok_0@ == wire,
            Err(e) => res is Err && res->Err_0 == e,
        },
        request@.len() < HEADER_LEN ==> res is Err && res->Err_0 == DnsError::TruncatedMessage,
{
    let mut r: Reader<'_> = Reader::new(request);
    let header: DnsHeader = decode_header(&mut r)?;
    let questions: Vec<DnsQuestion> = decode_questions(&mut r, header.qdcount, policy)?;
    let ghost asked = questions.deep_view();
    proof {
        lemma_decoded_questions_are_encodable(
            request@,
            HEADER_LEN as int,
            header.qdcount as nat,
            policy,
        );
    }
    let mut echoed: Vec<u8> = Vec::new();
    let mut answers: Vec<u8> = Vec::new();
    let mut any_answer: bool = false;
    let mut done: usize = 0;
    assert(asked.take(0) =~= Seq::<QuestionView>::empty());
    while done < questions.len()
        invariant
            asked == questions.deep_view(),
            done <= questions.len(),
            echoed@ == questions_wire(asked.take(done as int)),
            answers@ == answers_wire(asked.take(done as int), zone@),
            any_answer == any_answered(asked.take(done as int), zone@),
            all_encodable(asked),
        decreases questions.len() - done,
    {
        let question: &DnsQuestion = &questions[done];
        let ghost q = question@;
        let ghost before = asked.take(done as int);
        let ghost now = asked.take(done + 1);
        proof {
            assert(asked[done as int] == q);
            assert(now.drop_last() =~= before);
            assert(now.last() == q);
        }
        // A decoded name can always be encoded again, so neither encoder
        // fails here.
        let wire: Vec<u8> = encode_question(question)?;
        put_bytes(&mut echoed, wire.as_slice());
        let ghost answers_before = answers@;
        if question.qtype == TYPE_A {
            match zone.get(question.qname.as_str()) {
                Some(address) => {
                    let record: Vec<u8> = encode_a_record(
                        question.qname.as_str(),
                        ANSWER_TTL,
                        &address,
                    )?;
                    put_bytes(&mut answers, record.as_slice());
                    any_answer = true;
                },
                None => {},
            }
        }
        proof {
            assert(answers@ =~= answers_before + answer_wire(q, zone@));
            assert(any_answered(now, zone@) <==> any_answered(before, zone@) || answered(q, zone@))
                by {
                if any_answered(now, zone@) {
                    let i = choose|i: int| 0 <= i < now.len() && answered(#[trigger] now[i], zone@);
                    if i < done {
                        assert(before[i] == now[i]);
                    }
                }
                if any_answered(before, zone@) {
                    let i = choose|i: int|
                        0 <= i < before.len() && answered(#[trigger] before[i], zone@);
                    assert(now[i] == before[i]);
                }
            }
        }
        done = done + 1;
    }
    assert(asked.take(done as int) =~= asked);
    let reply: DnsHeader = DnsHeader {
        id: header.id,
        flags: FLAGS_RESPONSE,
        qdcount: header.qdcount,
        ancount: if any_answer {
            1
        } else {
            0
        },
        nscount: 0,
        arcount: 0,
    };
    let mut out: Vec<u8> = encode_header(&reply);
    put_bytes(&mut out, echoed.as_slice());
    put_bytes(&mut out, answers.as_slice());
    Ok(out)
}

/// Every response opens with the header that [`response_header`] describes:
/// it carries the transaction id and the question count of its request, and
/// an answer count of 1 if the zone has an address for one of the questions
/// and of 0 if it has none.
pub proof fn lemma_response_header(
    request: Seq<u8>,
    zone: Map<Seq<char>, [u8; 4]>,
    policy: CompressionPolicy,
)
    requires
        response_wire(request, zone, policy) is Ok,
    ensures
        ({
            let asked = decoded_header(request, 0)->Ok_0.0;
            let questions = decoded_questions(
                request,
                HEADER_LEN as int,
                asked.qdcount as nat,
                policy,
            )->Ok_0.0;
            decoded_header(response_wire(request, zone, policy)->Ok_0, 0) == Ok::<
                (DnsHeader, int),
                DnsError,
            >((response_header(asked, any_answered(questions, zone)), HEADER_LEN as int))
        }),
{
    let asked = decoded_header(request, 0)->Ok_0.0;
    let questions = decoded_questions(
        request,
        HEADER_LEN as int,
        asked.qdcount as nat,
        policy,
    )->Ok_0.0;
    let header = response_header(asked, any_answered(questions, zone));
    let response = response_wire(request, zone, policy)->Ok_0;
    let rest = questions_wire(questions) + answers_wire(questions, zone);
    assert(response =~= header_wire(header) + rest);
    assert(response.subrange(0, response.len() as int) =~= response);
    lemma_stands_at_parts(response, 0, header_wire(header), rest);
    lemma_header_round_trip(header, response, 0);
}

} // verus!
