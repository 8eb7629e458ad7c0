//! Answering one question from an upstream server: the query that is sent,
//! and what is made of the reply. Sending and receiving are the caller's.

use crate::error::DnsError;
use crate::message::{answer_views, decode_answers, decode_questions, parse_answers, parse_questions};
use crate::types::{question_wire, AnswerView, DNSAnswer, DNSHeader, DNSQuestion, QuestionView};
use crate::wire::{cursor_at, put_bytes};
use vstd::prelude::*;

verus! {

/// The header of the query that is sent upstream for one question of a
/// request: the request's header, counting one question.
pub open spec fn query_header(request: DNSHeader) -> DNSHeader {
    DNSHeader { qdcount: 1, ..request }
}

/// The record that stands in where upstream has no answer: an address
/// record of class internet for `qname`, alive for 60 seconds, with the
/// loopback address 127.0.0.1.
pub open spec fn fallback_view(qname: Seq<char>) -> AnswerView {
    AnswerView {
        name: qname,
        rtype: 1,
        rclass: 1,
        ttl: 60,
        rdlength: 4,
        rdata: seq![127u8, 0u8, 0u8, 1u8],
    }
}

/// What a decoded answer section becomes: itself where it holds a record,
/// the one fallback record for the question where it holds none.
pub open spec fn with_fallback(answers: Seq<AnswerView>, qname: Seq<char>) -> Seq<AnswerView> {
    if answers.len() == 0 {
        seq![fallback_view(qname)]
    } else {
        answers
    }
}

/// The records that an upstream reply holds: the reply must be a response;
/// its questions are read and dropped, its answer section is kept.
pub open spec fn reply_answers(reply: Seq<u8>) -> Result<Seq<AnswerView>, DnsError> {
    if reply.len() < 12 {
        Err(DnsError::TruncatedInput)
    } else {
        let header = DNSHeader::from_wire(reply);
        if header.qr != 1 {
            Err(DnsError::UpstreamProtocolError)
        } else {
            match parse_questions(reply.skip(12), reply, header.qdcount as nat) {
                Err(e) => Err(e),
                Ok((_, rest)) => match parse_answers(rest, reply, header.ancount as nat) {
                    Err(e) => Err(e),
                    Ok((answers, _)) => Ok(answers),
                },
            }
        }
    }
}

/// A reply that decodes and counts no answers yields exactly one record,
/// the fallback record for the question.
pub proof fn reply_without_answers_gives_fallback(reply: Seq<u8>, qname: Seq<char>)
    requires
        reply.len() >= 12,
        DNSHeader::from_wire(reply).ancount == 0,
        reply_answers(reply) is Ok,
    ensures
        with_fallback(reply_answers(reply)->Ok_0, qname) == seq![fallback_view(qname)],
        with_fallback(reply_answers(reply)->Ok_0, qname).len() == 1,
{
}

/// Whatever was decoded, the fallback policy leaves at least one record.
pub proof fn fallback_leaves_a_record(answers: Seq<AnswerView>, qname: Seq<char>)
    ensures
        with_fallback(answers, qname).len() >= 1,
        answers.len() > 0 ==> with_fallback(answers, qname) == answers,
{
}

/// Builds the packet that asks upstream one question of a request.
pub fn upstream_query(header: &DNSHeader, question: &DNSQuestion) -> (r: Result<Vec<u8>, DnsError>)
    ensures
        match question_wire(question@) {
            Ok(wire) => r is Ok && r->Ok_0@ == query_header(*header).wire() + wire,
            Err(e) => r is Err && r->Err_0 == e,
        },
{
    let mut single = *header;
    single.qdcount = 1;
    let mut out = single.to_bytes();
    match question.to_bytes() {
        Ok(bytes) => {
            put_bytes(&mut out, &bytes);
            Ok(out)
        },
        Err(e) => Err(e),
    }
}

/// Decodes the answer section of an upstream reply.
pub fn decode_reply(reply: &[u8]) -> (r: Result<Vec<DNSAnswer>, DnsError>)
    ensures
        match reply_answers(reply@) {
            Ok(answers) => r is Ok && answer_views(r->Ok_0@) == answers && r->Ok_0@.len()
                == answers.len(),
            Err(e) => r is Err && r->Err_0 == e,
        },
{
    let mut cursor = cursor_at(reply, 0);
    assert(reply@.skip(0) =~= reply@);
    let header = match DNSHeader::from_bytes(&mut cursor) {
        Ok(header) => header,
        Err(e) => { return Err(e); },
    };
    if header.qr != 1 {
        return Err(DnsError::UpstreamProtocolError);
    }
    match decode_questions(&mut cursor, reply, header.qdcount) {
        Ok(_) => {},
        Err(e) => { return Err(e); },
    }
    decode_answers(&mut cursor, reply, header.ancount)
}

/// The fallback record for a question.
pub fn fallback_answer(question: &DNSQuestion) -> (answer: DNSAnswer)
    ensures
        answer@ == fallback_view(question@.qname),
        answer@.well_formed(),
{
    let mut rdata: Vec<u8> = Vec::new();
    rdata.push(127);
    rdata.push(0);
    rdata.push(0);
    rdata.push(1);
    assert(rdata@ =~= seq![127u8, 0u8, 0u8, 1u8]);
    DNSAnswer { name: question.qname.clone(), rtype: 1, rclass: 1, ttl: 60, rdlength: 4, rdata }
}

/// Applies the fallback policy to a decoded answer section: an empty one
/// is replaced by the one fallback record, any other is handed back as it
/// is.
pub fn answers_or_fallback(decoded: Vec<DNSAnswer>, question: &DNSQuestion) -> (answers: Vec<
    DNSAnswer,
>)
    ensures
        answer_views(answers@) == with_fallback(answer_views(decoded@), question@.qname),
        decoded@.len() > 0 ==> answers@ == decoded@,
        decoded@.len() == 0 ==> answers@.len() == 1,
{
    if decoded.len() == 0 {
        let mut answers: Vec<DNSAnswer> = Vec::new();
        answers.push(fallback_answer(question));
        assert(answer_views(answers@) =~= seq![fallback_view(question@.qname)]);
        answers
    } else {
        decoded
    }
}

/// The records that answer `question`, given the reply that upstream sent:
/// the reply's answer section, or the one fallback record where that is
/// empty. A reply that cannot be decoded, or that is not a response, fails
/// the question.
pub fn answers_from_reply(reply: &[u8], question: &DNSQuestion) -> (r: Result<
    Vec<DNSAnswer>,
    DnsError,
>)
    ensures
        match reply_answers(reply@) {
            Ok(answers) => r is Ok && answer_views(r->Ok_0@) == with_fallback(
                answers,
                question@.qname,
            ) && r->Ok_0@.len() == with_fallback(answers, question@.qname).len(),
            Err(e) => r is Err && r->Err_0 == e,
        },
{
    match decode_reply(reply) {
        Ok(decoded) => Ok(answers_or_fallback(decoded, question)),
        Err(e) => Err(e),
    }
}

} // verus!
