//! One entry of the question section: a name, a type and a class.

use crate::error::DnsError;
use crate::name::{
    decoded_name, encodable, lemma_decoded_name_is_encodable, lemma_name_reads_back, name_wire,
    read_qname, reads_back, write_qname, CompressionPolicy,
};
use crate::reader::{reads_as, Reader};
use crate::wire::{lemma_stands_at_parts, lemma_u16_round_trip, put_u16, stands_at, u16_at, u16_be};
use vstd::prelude::*;

verus! {

/// The record type of an IPv4 address.
pub const TYPE_A: u16 = 1;

/// The class of the Internet.
pub const CLASS_IN: u16 = 1;

/// A question: the name asked about, and the type and class of record wanted.
#[derive(Clone, Debug, PartialEq, Eq)]
pub struct DnsQuestion {
    /// The name, its labels parted by dots, without a dot at the end.
    pub qname: String,
    /// The record type asked for.
    pub qtype: u16,
    /// The class asked for.
    pub qclass: u16,
}

/// What a [`DnsQuestion`] stands for.
pub ghost struct QuestionView {
    pub qname: Seq<char>,
    pub qtype: u16,
    pub qclass: u16,
}

impl View for DnsQuestion {
    type V = QuestionView;

    open spec fn view(&self) -> QuestionView {
        QuestionView { qname: self.qname@, qtype: self.qtype, qclass: self.qclass }
    }
}

impl DeepView for DnsQuestion {
    type V = QuestionView;

    open spec fn deep_view(&self) -> QuestionView {
        self@
    }
}

/// A question on the wire: the name, then type and class, each most
/// significant octet first.
pub open spec fn question_wire(q: QuestionView) -> Seq<u8> {
    name_wire(q.qname) + u16_be(q.qtype) + u16_be(q.qclass)
}

/// The question that stands at `pos` in `buf`, with the position after it.
pub open spec fn decoded_question(
    buf: Seq<u8>,
    pos: int,
    policy: CompressionPolicy,
) -> Result<(QuestionView, int), DnsError> {
    match decoded_name(buf, pos, policy) {
        Ok((qname, next)) => if next + 4 <= buf.len() {
            Ok(
                (
                    QuestionView {
                        qname,
                        qtype: u16_at(buf, next),
                        qclass: u16_at(buf, next + 2),
                    },
                    next + 4,
                ),
            )
        } else {
            Err(DnsError::TruncatedMessage)
        },
        Err(e) => Err(e),
    }
}

/// `questions` put in front of the questions of a parse that went on after
/// them.
pub open spec fn with_questions_before(
    questions: Seq<QuestionView>,
    later: Result<(Seq<QuestionView>, int), DnsError>,
) -> Result<(Seq<QuestionView>, int), DnsError> {
    match later {
        Ok((rest, next)) => Ok((questions + rest, next)),
        Err(e) => Err(e),
    }
}

/// The `count` questions that stand one after the other from `pos` on in
/// `buf`, with the position after the last. It is the first error met, if
/// any of them cannot be decoded.
pub open spec fn decoded_questions(
    buf: Seq<u8>,
    pos: int,
    count: nat,
    policy: CompressionPolicy,
) -> Result<(Seq<QuestionView>, int), DnsError>
    decreases count,
{
    if count == 0 {
        Ok((Seq::empty(), pos))
    } else {
        match decoded_question(buf, pos, policy) {
            Ok((first, next)) => with_questions_before(
                seq![first],
                decoded_questions(buf, next, (count - 1) as nat, policy),
            ),
            Err(e) => Err(e),
        }
    }
}

/// Each of `questions` has a name that can be put on the wire.
pub open spec fn all_encodable(questions: Seq<QuestionView>) -> bool {
    forall|i: int| 0 <= i < questions.len() ==> encodable((#[trigger] questions[i]).qname)
}

/// The wire form of `question`. It fails with [`DnsError::Encoding`] exactly
/// when the name has a label of more than 255 octets.
pub fn encode_question(question: &DnsQuestion) -> (res: Result<Vec<u8>, DnsError>)
    ensures
        encodable(question@.qname) ==> res is Ok && res->Ok_0@ == question_wire(question@),
        !encodable(question@.qname) ==> res is Err && res->Err_0 == DnsError::Encoding,
{
    let mut out: Vec<u8> = Vec::new();
    write_qname(&mut out, question.qname.as_str())?;
    put_u16(&mut out, question.qtype);
    put_u16(&mut out, question.qclass);
    assert(out@ =~= question_wire(question@));
    Ok(out)
}

/// Reads a question. On failure nothing is consumed.
pub fn decode_question<'a>(
    r: &mut Reader<'a>,
    policy: CompressionPolicy,
) -> (res: Result<DnsQuestion, DnsError>)
    ensures
        reads_as(
            old(r)@,
            final(r)@,
            res,
            decoded_question(old(r)@.bytes, old(r)@.pos as int, policy),
        ),
{
    let mut cur: Reader<'a> = *r;
    let qname: String = read_qname(&mut cur, policy)?;
    let qtype: u16 = cur.read_u16()?;
    let qclass: u16 = cur.read_u16()?;
    *r = cur;
    Ok(DnsQuestion { qname, qtype, qclass })
}

/// Reads `count` questions. On failure nothing is consumed.
pub fn decode_questions<'a>(
    r: &mut Reader<'a>,
    count: u16,
    policy: CompressionPolicy,
) -> (res: Result<Vec<DnsQuestion>, DnsError>)
    ensures
        reads_as(
            old(r)@,
            final(r)@,
            res,
            decoded_questions(old(r)@.bytes, old(r)@.pos as int, count as nat, policy),
        ),
{
    let mut cur: Reader<'a> = *r;
    let start: usize = cur.position();
    let mut questions: Vec<DnsQuestion> = Vec::new();
    let ghost bytes = r@.bytes;
    let mut done: u16 = 0;
    assert(questions.deep_view() =~= Seq::<QuestionView>::empty());
    assert(decoded_questions(bytes, start as int, count as nat, policy) is Ok
        ==> questions.deep_view() + decoded_questions(
        bytes,
        start as int,
        count as nat,
        policy,
    )->Ok_0.0 =~= decoded_questions(bytes, start as int, count as nat, policy)->Ok_0.0);
    while done < count
        invariant
            *r == *old(r),
            bytes == old(r)@.bytes,
            start == old(r)@.pos,
            cur@.bytes == bytes,
            cur@.valid(),
            done <= count,
            decoded_questions(bytes, start as int, count as nat, policy) == with_questions_before(
                questions.deep_view(),
                decoded_questions(bytes, cur@.pos as int, (count - done) as nat, policy),
            ),
        decreases count - done,
    {
        let ghost here = cur@.pos as int;
        let ghost before = questions.deep_view();
        let question: DnsQuestion = decode_question(&mut cur, policy)?;
        proof {
            let left = (count - done - 1) as nat;
            let later = decoded_questions(bytes, cur@.pos as int, left, policy);
            assert(decoded_questions(bytes, here, (count - done) as nat, policy)
                == with_questions_before(seq![question@], later));
            if later is Ok {
                assert(before + (seq![question@] + later->Ok_0.0) =~= before.push(question@)
                    + later->Ok_0.0);
            }
        }
        questions.push(question);
        assert(questions.deep_view() =~= before.push(question@));
        done = done + 1;
    }
    assert(questions.deep_view() + Seq::<QuestionView>::empty() =~= questions.deep_view());
    *r = cur;
    Ok(questions)
}

/// Decoding undoes encoding: where the wire form of a question stands in a
/// buffer, the decoder reads that question and stops right after it,
/// provided that its name is one that is read back.
pub proof fn lemma_question_round_trip(
    q: QuestionView,
    buf: Seq<u8>,
    pos: int,
    policy: CompressionPolicy,
)
    requires
        reads_back(q.qname, policy),
        stands_at(buf, pos, question_wire(q)),
    ensures
        decoded_question(buf, pos, policy) == Ok::<(QuestionView, int), DnsError>(
            (q, pos + question_wire(q).len()),
        ),
{
    let name = name_wire(q.qname);
    lemma_stands_at_parts(buf, pos, name + u16_be(q.qtype), u16_be(q.qclass));
    lemma_stands_at_parts(buf, pos, name, u16_be(q.qtype));
    lemma_name_reads_back(q.qname, buf, pos, policy);
    lemma_u16_round_trip(buf, pos + name.len(), q.qtype);
    lemma_u16_round_trip(buf, pos + name.len() + 2, q.qclass);
}

/// The questions that the decoder returns can all be encoded again.
pub proof fn lemma_decoded_questions_are_encodable(
    buf: Seq<u8>,
    pos: int,
    count: nat,
    policy: CompressionPolicy,
)
    ensures
        decoded_questions(buf, pos, count, policy) matches Ok((questions, _)) ==> all_encodable(
            questions,
        ),
    decreases count,
{
    if count > 0 {
        if let Ok((first, next)) = decoded_question(buf, pos, policy) {
            lemma_decoded_name_is_encodable(buf, pos, policy);
            lemma_decoded_questions_are_encodable(buf, next, (count - 1) as nat, policy);
            if let Ok((rest, _)) = decoded_questions(buf, next, (count - 1) as nat, policy) {
                let all = seq![first] + rest;
                assert forall|i: int| 0 <= i < all.len() implies encodable(
                    (#[trigger] all[i]).qname,
                ) by {
                    if i > 0 {
                        assert(all[i] == rest[i - 1]);
                    }
                }
            }
        }
    }
}

} // verus!
