//! Whole messages: the sections of a packet, the request that a client
//! sends, and the response that goes back to it.

use crate::error::DnsError;
use crate::types::{
    answer_wire, parse_answer, parse_question, question_wire, AnswerView, DNSAnswer, DNSHeader,
    DNSQuestion, QuestionView,
};
use crate::wire::{cursor_at, fork, put_bytes, unread};
use bytes::Bytes;
use vstd::prelude::*;

verus! {

/// The questions of a list as plain values.
pub open spec fn question_views(qs: Seq<DNSQuestion>) -> Seq<QuestionView> {
    Seq::new(qs.len(), |i: int| qs[i]@)
}

/// The records of a list as plain values.
pub open spec fn answer_views(answers: Seq<DNSAnswer>) -> Seq<AnswerView> {
    Seq::new(answers.len(), |i: int| answers[i]@)
}

/// The `n` questions at the front of `cur`, in order, and what is left of
/// `cur` behind them. The first question that fails to parse fails them all.
pub open spec fn parse_questions(cur: Seq<u8>, packet: Seq<u8>, n: nat) -> Result<
    (Seq<QuestionView>, Seq<u8>),
    DnsError,
>
    decreases n,
{
    if n == 0 {
        Ok((Seq::empty(), cur))
    } else {
        match parse_questions(cur, packet, (n - 1) as nat) {
            Err(e) => Err(e),
            Ok((qs, rest)) => match parse_question(rest, packet) {
                Err(e) => Err(e),
                Ok((q, after)) => Ok((qs.push(q), after)),
            },
        }
    }
}

/// The `n` records at the front of `cur`, in order, and what is left of
/// `cur` behind them. The first record that fails to parse fails them all.
pub open spec fn parse_answers(cur: Seq<u8>, packet: Seq<u8>, n: nat) -> Result<
    (Seq<AnswerView>, Seq<u8>),
    DnsError,
>
    decreases n,
{
    if n == 0 {
        Ok((Seq::empty(), cur))
    } else {
        match parse_answers(cur, packet, (n - 1) as nat) {
            Err(e) => Err(e),
            Ok((answers, rest)) => match parse_answer(rest, packet) {
                Err(e) => Err(e),
                Ok((a, after)) => Ok((answers.push(a), after)),
            },
        }
    }
}

/// Once the first `k` questions fail to parse, any larger number of them
/// fails in the same way.
pub proof fn questions_failure_stays(cur: Seq<u8>, packet: Seq<u8>, k: nat, n: nat)
    requires
        k <= n,
        parse_questions(cur, packet, k) is Err,
    ensures
        parse_questions(cur, packet, n) == parse_questions(cur, packet, k),
    decreases n,
{
    if n > k {
        questions_failure_stays(cur, packet, k, (n - 1) as nat);
    }
}

/// Once the first `k` records fail to parse, any larger number of them
/// fails in the same way.
pub proof fn answers_failure_stays(cur: Seq<u8>, packet: Seq<u8>, k: nat, n: nat)
    requires
        k <= n,
        parse_answers(cur, packet, k) is Err,
    ensures
        parse_answers(cur, packet, n) == parse_answers(cur, packet, k),
    decreases n,
{
    if n > k {
        answers_failure_stays(cur, packet, k, (n - 1) as nat);
    }
}

/// Reads `count` questions from the front of `buf`. On failure the cursor
/// stays where it was.
pub fn decode_questions(buf: &mut Bytes, packet: &[u8], count: u16) -> (r: Result<
    Vec<DNSQuestion>,
    DnsError,
>)
    ensures
        match parse_questions(unread(*old(buf)), packet@, count as nat) {
            Ok((qs, rest)) => r is Ok && question_views(r->Ok_0@) == qs && r->Ok_0@.len()
                == count && unread(*final(buf)) == rest,
            Err(e) => r is Err && r->Err_0 == e && unread(*final(buf)) == unread(*old(buf)),
        },
{
    let ghost start = unread(*buf);
    let mut probe = fork(buf);
    let mut out: Vec<DNSQuestion> = Vec::new();
    let mut i: u16 = 0;
    assert(question_views(out@) =~= Seq::<QuestionView>::empty());
    while i < count
        invariant
            i <= count,
            out@.len() == i,
            start == unread(*old(buf)),
            unread(*buf) == start,
            parse_questions(start, packet@, i as nat) == Ok::<
                (Seq<QuestionView>, Seq<u8>),
                DnsError,
            >((question_views(out@), unread(probe))),
        decreases count - i,
    {
        let ghost before = out@;
        match DNSQuestion::from_bytes(&mut probe, packet) {
            Ok(q) => {
                out.push(q);
                assert(question_views(out@) =~= question_views(before).push(q@));
            },
            Err(e) => {
                proof {
                    questions_failure_stays(start, packet@, (i + 1) as nat, count as nat);
                }
                return Err(e);
            },
        }
        i += 1;
    }
    *buf = probe;
    Ok(out)
}

/// Reads `count` records from the front of `buf`. On failure the cursor
/// stays where it was.
pub fn decode_answers(buf: &mut Bytes, packet: &[u8], count: u16) -> (r: Result<
    Vec<DNSAnswer>,
    DnsError,
>)
    ensures
        match parse_answers(unread(*old(buf)), packet@, count as nat) {
            Ok((answers, rest)) => r is Ok && answer_views(r->Ok_0@) == answers && r->Ok_0@.len()
                == count && unread(*final(buf)) == rest,
            Err(e) => r is Err && r->Err_0 == e && unread(*final(buf)) == unread(*old(buf)),
        },
{
    let ghost start = unread(*buf);
    let mut probe = fork(buf);
    let mut out: Vec<DNSAnswer> = Vec::new();
    let mut i: u16 = 0;
    assert(answer_views(out@) =~= Seq::<AnswerView>::empty());
    while i < count
        invariant
            i <= count,
            out@.len() == i,
            start == unread(*old(buf)),
            unread(*buf) == start,
            parse_answers(start, packet@, i as nat) == Ok::<(Seq<AnswerView>, Seq<u8>), DnsError>(
                (answer_views(out@), unread(probe)),
            ),
        decreases count - i,
    {
        let ghost before = out@;
        match DNSAnswer::from_bytes(&mut probe, packet) {
            Ok(a) => {
                out.push(a);
                assert(answer_views(out@) =~= answer_views(before).push(a@));
            },
            Err(e) => {
                proof {
                    answers_failure_stays(start, packet@, (i + 1) as nat, count as nat);
                }
                return Err(e);
            },
        }
        i += 1;
    }
    *buf = probe;
    Ok(out)
}

/// What a client's packet asks: its header, and as many questions behind
/// the header as the header counts.
pub open spec fn request_parts(packet: Seq<u8>) -> Result<(DNSHeader, Seq<QuestionView>), DnsError> {
    if packet.len() < 12 {
        Err(DnsError::TruncatedInput)
    } else {
        let header = DNSHeader::from_wire(packet);
        match parse_questions(packet.skip(12), packet, header.qdcount as nat) {
            Err(e) => Err(e),
            Ok((qs, _)) => Ok((header, qs)),
        }
    }
}

/// Decodes the header and the question section of a client's packet.
pub fn decode_request(packet: &[u8]) -> (r: Result<(DNSHeader, Vec<DNSQuestion>), DnsError>)
    ensures
        match request_parts(packet@) {
            Ok((header, qs)) => r is Ok && r->Ok_0.0 == header && question_views(r->Ok_0.1@)
                == qs && r->Ok_0.1@.len() == header.qdcount,
            Err(e) => r is Err && r->Err_0 == e,
        },
{
    let mut cursor = cursor_at(packet, 0);
    assert(packet@.skip(0) =~= packet@);
    let header = match DNSHeader::from_bytes(&mut cursor) {
        Ok(header) => header,
        Err(e) => { return Err(e); },
    };
    match decode_questions(&mut cursor, packet, header.qdcount) {
        Ok(questions) => Ok((header, questions)),
        Err(e) => Err(e),
    }
}

/// The header of the response to `request`: identifier, opcode, question
/// count and the recursion-desired bit are the request's, the response bit
/// is set, one answer is counted for each question, and the response code is
/// 4, not implemented, for any opcode but 0.
pub open spec fn response_header_of(request: DNSHeader) -> DNSHeader {
    DNSHeader {
        id: request.id,
        qr: 1,
        opcode: request.opcode,
        aa: 0,
        tc: 0,
        rd: request.rd,
        ra: 0,
        z: 0,
        ad: 0,
        cd: 0,
        rcode: if request.opcode != 0 {
            4
        } else {
            0
        },
        qdcount: request.qdcount,
        ancount: request.qdcount,
        nscount: 0,
        arcount: 0,
    }
}

/// Derives the header of the response from the header of the request.
pub fn response_header(request: &DNSHeader) -> (header: DNSHeader)
    ensures
        header == response_header_of(*request),
        request.opcode != 0 ==> header.rcode == 4,
{
    let rcode: u8 = if request.opcode != 0 {
        4
    } else {
        0
    };
    DNSHeader {
        id: request.id,
        qr: 1,
        opcode: request.opcode,
        aa: 0,
        tc: 0,
        rd: request.rd,
        ra: 0,
        z: 0,
        ad: 0,
        cd: 0,
        rcode,
        qdcount: request.qdcount,
        ancount: request.qdcount,
        nscount: 0,
        arcount: 0,
    }
}

/// Every question of the list can be encoded.
pub open spec fn questions_encodable(qs: Seq<QuestionView>) -> bool {
    forall|i: int| 0 <= i < qs.len() ==> question_wire(#[trigger] qs[i]) is Ok
}

/// Every record of the list can be encoded.
pub open spec fn answers_encodable(answers: Seq<AnswerView>) -> bool {
    forall|i: int| 0 <= i < answers.len() ==> answer_wire(#[trigger] answers[i]) is Ok
}

/// The encoded questions of an encodable list, one after the other.
pub open spec fn questions_wire(qs: Seq<QuestionView>) -> Seq<u8>
    decreases qs.len(),
{
    if qs.len() == 0 {
        Seq::empty()
    } else {
        questions_wire(qs.drop_last()) + question_wire(qs.last())->Ok_0
    }
}

/// The encoded records of an encodable list, one after the other.
pub open spec fn answers_wire(answers: Seq<AnswerView>) -> Seq<u8>
    decreases answers.len(),
{
    if answers.len() == 0 {
        Seq::empty()
    } else {
        answers_wire(answers.drop_last()) + answer_wire(answers.last())->Ok_0
    }
}

/// A whole response on the wire: header, questions, records. A name with a
/// label longer than 63 bytes anywhere makes it `InvalidLabel`.
pub open spec fn response_wire(
    header: DNSHeader,
    qs: Seq<QuestionView>,
    answers: Seq<AnswerView>,
) -> Result<Seq<u8>, DnsError> {
    if questions_encodable(qs) && answers_encodable(answers) {
        Ok(header.wire() + questions_wire(qs) + answers_wire(answers))
    } else {
        Err(DnsError::InvalidLabel)
    }
}

/// Encodes a response: the header, then each question, then each record.
pub fn encode_response(
    header: &DNSHeader,
    questions: &Vec<DNSQuestion>,
    answers: &Vec<DNSAnswer>,
) -> (r: Result<Vec<u8>, DnsError>)
    ensures
        match response_wire(*header, question_views(questions@), answer_views(answers@)) {
            Ok(wire) => r is Ok && r->Ok_0@ == wire,
            Err(e) => r is Err && r->Err_0 == e,
        },
{
    let ghost qs = question_views(questions@);
    let ghost ans = answer_views(answers@);
    let mut out = header.to_bytes();
    let mut i: usize = 0;
    assert(qs.take(0) =~= Seq::<QuestionView>::empty());
    while i < questions.len()
        invariant
            i <= questions@.len(),
            qs == question_views(questions@),
            questions_encodable(qs.take(i as int)),
            out@ == header.wire() + questions_wire(qs.take(i as int)),
        decreases questions@.len() - i,
    {
        proof {
            assert(qs.take(i + 1).drop_last() =~= qs.take(i as int));
            assert(qs.take(i + 1).last() == qs[i as int]);
        }
        match questions[i].to_bytes() {
            Ok(bytes) => {
                put_bytes(&mut out, &bytes);
                assert(out@ =~= header.wire() + questions_wire(qs.take(i + 1)));
            },
            Err(e) => {
                assert(question_wire(qs[i as int]) is Err);
                return Err(e);
            },
        }
        i += 1;
    }
    assert(qs.take(i as int) =~= qs);
    let mut j: usize = 0;
    assert(ans.take(0) =~= Seq::<AnswerView>::empty());
    assert(out@ =~= header.wire() + questions_wire(qs) + answers_wire(ans.take(0)));
    while j < answers.len()
        invariant
            j <= answers@.len(),
            ans == answer_views(answers@),
            questions_encodable(qs),
            answers_encodable(ans.take(j as int)),
            out@ == header.wire() + questions_wire(qs) + answers_wire(ans.take(j as int)),
        decreases answers@.len() - j,
    {
        proof {
            assert(ans.take(j + 1).drop_last() =~= ans.take(j as int));
            assert(ans.take(j + 1).last() == ans[j as int]);
        }
        match answers[j].to_bytes() {
            Ok(bytes) => {
                put_bytes(&mut out, &bytes);
                assert(out@ =~= header.wire() + questions_wire(qs) + answers_wire(
                    ans.take(j + 1),
                ));
            },
            Err(e) => {
                assert(answer_wire(ans[j as int]) is Err);
                return Err(e);
            },
        }
        j += 1;
    }
    assert(ans.take(j as int) =~= ans);
    Ok(out)
}

} // verus!
