//! What holds of one exchange: a client sends the query for a name, the
//! server answers it from its zone table, and the client reads the response.

use crate::client::{address_question, addresses_of, query_header, query_wire, resolved_addresses};
use crate::error::DnsError;
use crate::header::{decoded_header, header_wire, lemma_header_round_trip, DnsHeader, HEADER_LEN};
use crate::name::{lemma_reads_back_is_encodable, reads_back, CompressionPolicy};
use crate::question::{
    decoded_question, decoded_questions, lemma_question_round_trip, question_wire, QuestionView,
};
use crate::record::{
    a_record, a_record_wire, decoded_record, decoded_records, lemma_a_record_round_trip,
    AnswerView,
};
use crate::server::{
    answer_wire, answered, answers_wire, any_answered, questions_wire, response_header,
    response_wire, ANSWER_TTL,
};
use crate::wire::{lemma_stands_at_parts, stands_at};
use vstd::prelude::*;

verus! {

/// The response that a server with the zone `zone` gives to the query for
/// the address of `name`.
#[verifier::opaque]
pub open spec fn answer_to_query(
    id: u16,
    name: Seq<char>,
    zone: Map<Seq<char>, [u8; 4]>,
) -> Seq<u8> {
    let q = address_question(name);
    header_wire(response_header(query_header(id), answered(q, zone))) + question_wire(q)
        + answer_wire(q, zone)
}

/// For any entry of the zone table, the query for its name, of type A and
/// class IN, yields a response whose one answer gives the entry's address,
/// and whose transaction id is the query's: the response is what the server
/// returns for the query, its header carries the id and an answer count of 1,
/// and the client that sent the query reads from it exactly that address.
///
/// This holds of every name that is read back from its wire form, and so of
/// every valid domain name. A name with an empty label, or with a label that
/// the decoder does not accept, does not reach the server as it was sent.
pub proof fn lemma_listed_name_is_resolved(
    id: u16,
    name: Seq<char>,
    zone: Map<Seq<char>, [u8; 4]>,
    policy: CompressionPolicy,
)
    requires
        reads_back(name, policy),
        zone.dom().contains(name),
    ensures
        response_wire(query_wire(id, name), zone, policy) == Ok::<Seq<u8>, DnsError>(
            answer_to_query(id, name, zone),
        ),
        decoded_header(answer_to_query(id, name, zone), 0) is Ok,
        decoded_header(answer_to_query(id, name, zone), 0)->Ok_0.0.id == id,
        decoded_header(answer_to_query(id, name, zone), 0)->Ok_0.0.ancount == 1,
        resolved_addresses(answer_to_query(id, name, zone), id, policy) == Ok::<
            Seq<[u8; 4]>,
            DnsError,
        >(seq![zone[name]]),
{
    lemma_query_is_answered(id, name, zone, policy);
    lemma_answer_parts(id, name, zone, policy);
    lemma_answer_is_resolved(id, name, zone, policy);
}

/// The query for a name that the zone table does not hold yields a response
/// with an answer count of 0, from which the client that sent the query
/// reads no address. This holds of every name that is read back from its
/// wire form, and so of every valid domain name.
pub proof fn lemma_unlisted_name_gets_no_answer(
    id: u16,
    name: Seq<char>,
    zone: Map<Seq<char>, [u8; 4]>,
    policy: CompressionPolicy,
)
    requires
        reads_back(name, policy),
        !zone.dom().contains(name),
    ensures
        response_wire(query_wire(id, name), zone, policy) == Ok::<Seq<u8>, DnsError>(
            answer_to_query(id, name, zone),
        ),
        decoded_header(answer_to_query(id, name, zone), 0) is Ok,
        decoded_header(answer_to_query(id, name, zone), 0)->Ok_0.0.id == id,
        decoded_header(answer_to_query(id, name, zone), 0)->Ok_0.0.ancount == 0,
        resolved_addresses(answer_to_query(id, name, zone), id, policy) == Ok::<
            Seq<[u8; 4]>,
            DnsError,
        >(Seq::empty()),
{
    lemma_query_is_answered(id, name, zone, policy);
    lemma_answer_parts(id, name, zone, policy);
    lemma_answer_is_resolved(id, name, zone, policy);
}

/// The server answers the query for a name that is read back from its wire
/// form with the response that [`answer_to_query`] describes.
pub proof fn lemma_query_is_answered(
    id: u16,
    name: Seq<char>,
    zone: Map<Seq<char>, [u8; 4]>,
    policy: CompressionPolicy,
)
    requires
        reads_back(name, policy),
    ensures
        response_wire(query_wire(id, name), zone, policy) == Ok::<Seq<u8>, DnsError>(
            answer_to_query(id, name, zone),
        ),
{
    let q = address_question(name);
    let query = query_wire(id, name);
    let asked = seq![q];
    reveal(answer_to_query);
    lemma_reads_back_is_encodable(name, policy);
    assert(query.subrange(0, query.len() as int) =~= query);
    lemma_stands_at_parts(query, 0, header_wire(query_header(id)), question_wire(q));
    lemma_header_round_trip(query_header(id), query, 0);
    lemma_question_round_trip(q, query, HEADER_LEN as int, policy);
    lemma_one_question(query, HEADER_LEN as int, policy);
    assert(asked.drop_last() =~= Seq::<QuestionView>::empty());
    assert(asked.last() == q);
    assert(asked[0] == q);
    assert(any_answered(asked, zone) == answered(q, zone));
    assert(questions_wire(asked) =~= question_wire(q)) by {
        reveal_with_fuel(questions_wire, 2);
    }
    assert(answers_wire(asked, zone) =~= answer_wire(q, zone)) by {
        reveal_with_fuel(answers_wire, 2);
    }
}

/// What the client reads from the response to its query: the address of the
/// name if the zone has one, and no address otherwise.
proof fn lemma_answer_is_resolved(
    id: u16,
    name: Seq<char>,
    zone: Map<Seq<char>, [u8; 4]>,
    policy: CompressionPolicy,
)
    requires
        reads_back(name, policy),
    ensures
        resolved_addresses(answer_to_query(id, name, zone), id, policy) == Ok::<
            Seq<[u8; 4]>,
            DnsError,
        >(
            if zone.dom().contains(name) {
                seq![zone[name]]
            } else {
                Seq::empty()
            },
        ),
{
    let response = answer_to_query(id, name, zone);
    let listed = zone.dom().contains(name);
    let header = response_header(query_header(id), listed);
    let q = address_question(name);
    let answers_at = HEADER_LEN + question_wire(q).len();
    lemma_answer_parts(id, name, zone, policy);
    if listed {
        let record = a_record(name, ANSWER_TTL, zone[name]);
        lemma_one_address(name, ANSWER_TTL, zone[name]);
        lemma_resolved(
            response,
            id,
            policy,
            header,
            HEADER_LEN as int,
            seq![q],
            answers_at,
            seq![record],
            answers_at + a_record_wire(name, ANSWER_TTL, zone[name]).len(),
        );
    } else {
        lemma_resolved(
            response,
            id,
            policy,
            header,
            HEADER_LEN as int,
            seq![q],
            answers_at,
            Seq::empty(),
            answers_at,
        );
    }
}

/// The parts of the response to a query, as the client reads them: the
/// header, the one question, and the one answer if the zone has the name.
proof fn lemma_answer_parts(
    id: u16,
    name: Seq<char>,
    zone: Map<Seq<char>, [u8; 4]>,
    policy: CompressionPolicy,
)
    requires
        reads_back(name, policy),
    ensures
        ({
            let response = answer_to_query(id, name, zone);
            let listed = zone.dom().contains(name);
            let header = response_header(query_header(id), listed);
            let q = address_question(name);
            let answers_at = HEADER_LEN + question_wire(q).len();
            &&& decoded_header(response, 0) == Ok::<(DnsHeader, int), DnsError>(
                (header, HEADER_LEN as int),
            )
            &&& decoded_questions(response, HEADER_LEN as int, 1, policy) == Ok::<
                (Seq<QuestionView>, int),
                DnsError,
            >((seq![q], answers_at))
            &&& listed ==> decoded_records(response, answers_at, 1, policy) == Ok::<
                (Seq<AnswerView>, int),
                DnsError,
            >(
                (
                    seq![a_record(name, ANSWER_TTL, zone[name])],
                    answers_at + a_record_wire(name, ANSWER_TTL, zone[name]).len(),
                ),
            )
        }),
{
    let q = address_question(name);
    let listed = zone.dom().contains(name);
    let header = response_header(query_header(id), listed);
    let response = answer_to_query(id, name, zone);
    let answers_at = HEADER_LEN + question_wire(q).len();
    lemma_answer_layout(id, name, zone);
    lemma_opening_is_read(header, q, response, policy);
    if listed {
        lemma_answer_is_read(name, zone[name], response, answers_at, policy);
    }
}

/// Where the header, the question and the answer stand in the response to
/// a query.
proof fn lemma_answer_layout(id: u16, name: Seq<char>, zone: Map<Seq<char>, [u8; 4]>)
    ensures
        ({
            let response = answer_to_query(id, name, zone);
            let q = address_question(name);
            let header = response_header(query_header(id), answered(q, zone));
            &&& stands_at(response, 0, header_wire(header))
            &&& stands_at(response, HEADER_LEN as int, question_wire(q))
            &&& stands_at(
                response,
                HEADER_LEN + question_wire(q).len(),
                answer_wire(q, zone),
            )
        }),
{
    reveal(answer_to_query);
    let q = address_question(name);
    let h = header_wire(response_header(query_header(id), answered(q, zone)));
    assert(h.len() == HEADER_LEN);
    lemma_three_parts(h, question_wire(q), answer_wire(q, zone));
}

/// What the client makes of a response whose parts are known.
proof fn lemma_resolved(
    response: Seq<u8>,
    id: u16,
    policy: CompressionPolicy,
    header: DnsHeader,
    questions_at: int,
    asked: Seq<QuestionView>,
    answers_at: int,
    answers: Seq<AnswerView>,
    end: int,
)
    requires
        decoded_header(response, 0) == Ok::<(DnsHeader, int), DnsError>((header, questions_at)),
        header.id == id,
        decoded_questions(response, questions_at, header.qdcount as nat, policy) == Ok::<
            (Seq<QuestionView>, int),
            DnsError,
        >((asked, answers_at)),
        decoded_records(response, answers_at, header.ancount as nat, policy) == Ok::<
            (Seq<AnswerView>, int),
            DnsError,
        >((answers, end)),
    ensures
        resolved_addresses(response, id, policy) == Ok::<Seq<[u8; 4]>, DnsError>(
            addresses_of(answers),
        ),
{
}

/// A message that opens with a header and one question is read as such.
proof fn lemma_opening_is_read(
    header: DnsHeader,
    q: QuestionView,
    message: Seq<u8>,
    policy: CompressionPolicy,
)
    requires
        reads_back(q.qname, policy),
        stands_at(message, 0, header_wire(header)),
        stands_at(message, HEADER_LEN as int, question_wire(q)),
    ensures
        decoded_header(message, 0) == Ok::<(DnsHeader, int), DnsError>(
            (header, HEADER_LEN as int),
        ),
        decoded_questions(message, HEADER_LEN as int, 1, policy) == Ok::<
            (Seq<QuestionView>, int),
            DnsError,
        >((seq![q], HEADER_LEN + question_wire(q).len())),
{
    lemma_header_round_trip(header, message, 0);
    lemma_question_round_trip(q, message, HEADER_LEN as int, policy);
    lemma_one_question(message, HEADER_LEN as int, policy);
}

/// An address record that stands alone in the answer section is read as the
/// one answer.
proof fn lemma_answer_is_read(
    name: Seq<char>,
    address: [u8; 4],
    message: Seq<u8>,
    pos: int,
    policy: CompressionPolicy,
)
    requires
        reads_back(name, policy),
        stands_at(message, pos, a_record_wire(name, ANSWER_TTL, address)),
    ensures
        decoded_records(message, pos, 1, policy) == Ok::<(Seq<AnswerView>, int), DnsError>(
            (
                seq![a_record(name, ANSWER_TTL, address)],
                pos + a_record_wire(name, ANSWER_TTL, address).len(),
            ),
        ),
{
    lemma_a_record_round_trip(name, ANSWER_TTL, address, message, pos, policy);
    lemma_one_record(message, pos, policy);
}

/// A run of one question is that question.
proof fn lemma_one_question(buf: Seq<u8>, pos: int, policy: CompressionPolicy)
    requires
        decoded_question(buf, pos, policy) is Ok,
    ensures
        decoded_questions(buf, pos, 1, policy) == Ok::<(Seq<QuestionView>, int), DnsError>(
            (
                seq![decoded_question(buf, pos, policy)->Ok_0.0],
                decoded_question(buf, pos, policy)->Ok_0.1,
            ),
        ),
{
    reveal_with_fuel(decoded_questions, 2);
    let first = decoded_question(buf, pos, policy)->Ok_0.0;
    assert(seq![first] + Seq::<QuestionView>::empty() =~= seq![first]);
}

/// A run of one record is that record.
proof fn lemma_one_record(buf: Seq<u8>, pos: int, policy: CompressionPolicy)
    requires
        decoded_record(buf, pos, policy) is Ok,
    ensures
        decoded_records(buf, pos, 1, policy) == Ok::<(Seq<AnswerView>, int), DnsError>(
            (
                seq![decoded_record(buf, pos, policy)->Ok_0.0],
                decoded_record(buf, pos, policy)->Ok_0.1,
            ),
        ),
{
    reveal_with_fuel(decoded_records, 2);
    let first = decoded_record(buf, pos, policy)->Ok_0.0;
    assert(seq![first] + Seq::<AnswerView>::empty() =~= seq![first]);
}

/// The one address of a run of one address record.
proof fn lemma_one_address(name: Seq<char>, ttl: u32, address: [u8; 4])
    ensures
        addresses_of(seq![a_record(name, ttl, address)]) == seq![address],
{
    let given = seq![a_record(name, ttl, address)];
    assert(given.drop_last() =~= Seq::<AnswerView>::empty());
    assert(addresses_of(given) =~= seq![address]) by {
        reveal_with_fuel(addresses_of, 2);
    }
}

/// Three runs of octets joined together stand one after the other in the
/// whole.
proof fn lemma_three_parts(first: Seq<u8>, second: Seq<u8>, third: Seq<u8>)
    ensures
        stands_at(first + second + third, 0, first),
        stands_at(first + second + third, first.len() as int, second),
        stands_at(first + second + third, (first.len() + second.len()) as int, third),
{
    let whole = first + second + third;
    assert(whole.subrange(0, whole.len() as int) =~= whole);
    lemma_stands_at_parts(whole, 0, first + second, third);
    lemma_stands_at_parts(whole, 0, first, second);
}

} // verus!
