use dns_relay::error::DnsError;
use dns_relay::message::{decode_request, encode_response, response_header};
use dns_relay::resolver::{
    answers_from_reply, answers_or_fallback, decode_reply, fallback_answer, upstream_query,
};
use dns_relay::types::{DNSAnswer, DNSHeader, DNSQuestion};

fn client_header() -> DNSHeader {
    DNSHeader { id: 0x1234, rd: 1, qdcount: 1, ..DNSHeader::default() }
}

fn question() -> DNSQuestion {
    DNSQuestion { qname: "codecrafters.io.".to_string(), qtype: 1, qclass: 1 }
}

fn question_bytes() -> Vec<u8> {
    let mut out = vec![12];
    out.extend_from_slice(b"codecrafters");
    out.push(2);
    out.extend_from_slice(b"io");
    out.extend_from_slice(&[0, 0, 1, 0, 1]);
    out
}

fn answer_bytes() -> Vec<u8> {
    // The name is a pointer to the question's name at offset 12.
    vec![0xC0, 12, 0, 1, 0, 1, 0, 0, 0x0E, 0x10, 0, 4, 93, 184, 216, 34]
}

fn upstream_reply(ancount: u16) -> Vec<u8> {
    let h = DNSHeader { id: 0x1234, qr: 1, rd: 1, ra: 1, qdcount: 1, ancount, ..DNSHeader::default() };
    let mut reply = h.to_bytes();
    reply.extend_from_slice(&question_bytes());
    for _ in 0..ancount {
        reply.extend_from_slice(&answer_bytes());
    }
    reply
}

#[test]
fn request_is_decoded() {
    let mut packet = client_header().to_bytes();
    packet.extend_from_slice(&question_bytes());
    let (header, questions) = decode_request(&packet).unwrap();
    assert_eq!(header, client_header());
    assert_eq!(questions, vec![question()]);
}

#[test]
fn request_with_two_questions_and_a_pointer() {
    let mut packet = DNSHeader { qdcount: 2, ..client_header() }.to_bytes();
    packet.extend_from_slice(&question_bytes());
    packet.extend_from_slice(&[3, b'w', b'w', b'w', 0xC0, 12, 0, 28, 0, 1]);
    let (_, questions) = decode_request(&packet).unwrap();
    assert_eq!(questions.len(), 2);
    assert_eq!(questions[1].qname, "www.codecrafters.io.");
    assert_eq!(questions[1].qtype, 28);
}

#[test]
fn request_that_counts_more_questions_than_it_holds_is_truncated() {
    let mut packet = DNSHeader { qdcount: 2, ..client_header() }.to_bytes();
    packet.extend_from_slice(&question_bytes());
    assert_eq!(decode_request(&packet), Err(DnsError::TruncatedInput));
    assert_eq!(decode_request(&packet[..5]), Err(DnsError::TruncatedInput));
}

#[test]
fn query_for_upstream_counts_one_question() {
    let request = DNSHeader { qdcount: 3, ..client_header() };
    let query = upstream_query(&request, &question()).unwrap();
    let mut expected = vec![0x12, 0x34, 0x01, 0x00, 0, 1, 0, 0, 0, 0, 0, 0];
    expected.extend_from_slice(&question_bytes());
    assert_eq!(query, expected);
}

#[test]
fn query_with_long_label_is_refused() {
    let q = DNSQuestion { qname: "c".repeat(70), qtype: 1, qclass: 1 };
    assert_eq!(upstream_query(&client_header(), &q), Err(DnsError::InvalidLabel));
}

#[test]
fn reply_without_answers_gives_the_fallback_record() {
    let answers = answers_from_reply(&upstream_reply(0), &question()).unwrap();
    assert_eq!(answers.len(), 1);
    let a = &answers[0];
    assert_eq!(a.name, "codecrafters.io.");
    assert_eq!((a.rtype, a.rclass, a.ttl, a.rdlength), (1, 1, 60, 4));
    assert_eq!(a.rdata, vec![127, 0, 0, 1]);
    assert_eq!(*a, fallback_answer(&question()));
}

#[test]
fn reply_with_answers_is_handed_on() {
    let answers = answers_from_reply(&upstream_reply(2), &question()).unwrap();
    assert_eq!(answers.len(), 2);
    assert_eq!(answers[0], answers[1]);
    assert_eq!(answers[0].name, "codecrafters.io.");
    assert_eq!(answers[0].ttl, 3600);
    assert_eq!(answers[0].rdata, vec![93, 184, 216, 34]);
    assert_eq!(decode_reply(&upstream_reply(2)).unwrap(), answers);
    assert_eq!(decode_reply(&upstream_reply(0)).unwrap(), vec![]);
}

#[test]
fn fallback_policy_keeps_what_was_decoded() {
    let one = DNSAnswer { name: "x.".to_string(), rtype: 5, rclass: 1, ttl: 1, rdlength: 0, rdata: vec![] };
    assert_eq!(answers_or_fallback(vec![one.clone()], &question()), vec![one]);
    assert_eq!(answers_or_fallback(vec![], &question()), vec![fallback_answer(&question())]);
}

#[test]
fn reply_that_is_a_query_is_a_protocol_error() {
    let mut reply = upstream_reply(1);
    reply[2] &= 0x7F;
    assert_eq!(answers_from_reply(&reply, &question()), Err(DnsError::UpstreamProtocolError));
}

#[test]
fn reply_cut_short_fails() {
    let reply = upstream_reply(1);
    assert_eq!(
        answers_from_reply(&reply[..reply.len() - 1], &question()),
        Err(DnsError::TruncatedInput)
    );
    assert_eq!(answers_from_reply(&reply[..7], &question()), Err(DnsError::TruncatedInput));
}

#[test]
fn reply_with_a_pointer_cycle_fails() {
    let h = DNSHeader { qr: 1, ancount: 1, ..DNSHeader::default() };
    let mut reply = h.to_bytes();
    reply.extend_from_slice(&[0xC0, 12, 0, 1, 0, 1, 0, 0, 0, 1, 0, 0]);
    assert_eq!(answers_from_reply(&reply, &question()), Err(DnsError::MalformedName));
}

#[test]
fn response_header_follows_the_request() {
    let h = response_header(&DNSHeader { nscount: 5, arcount: 6, ad: 1, ..client_header() });
    let expected = DNSHeader { id: 0x1234, qr: 1, rd: 1, qdcount: 1, ancount: 1, ..DNSHeader::default() };
    assert_eq!(h, expected);
}

#[test]
fn other_opcode_is_not_implemented() {
    let h = response_header(&DNSHeader { opcode: 1, ..client_header() });
    assert_eq!(h.rcode, 4);
    assert_eq!(h.opcode, 1);
    assert_eq!(h.qr, 1);
    assert_eq!(response_header(&client_header()).rcode, 0);
}

#[test]
fn end_to_end_exchange() {
    let mut packet = client_header().to_bytes();
    packet.extend_from_slice(&question_bytes());
    let (request, questions) = decode_request(&packet).unwrap();

    let mut answers = Vec::new();
    for q in &questions {
        let query = upstream_query(&request, q).unwrap();
        assert_eq!(query, packet);
        answers.extend(answers_from_reply(&upstream_reply(1), q).unwrap());
    }
    let header = response_header(&request);
    let response = encode_response(&header, &questions, &answers).unwrap();

    let mut expected = vec![0x12, 0x34, 0x81, 0x00, 0, 1, 0, 1, 0, 0, 0, 0];
    expected.extend_from_slice(&question_bytes());
    expected.push(12);
    expected.extend_from_slice(b"codecrafters");
    expected.push(2);
    expected.extend_from_slice(b"io");
    expected.extend_from_slice(&[0, 0, 1, 0, 1, 0, 0, 0x0E, 0x10, 0, 4, 93, 184, 216, 34]);
    assert_eq!(response, expected);
}

#[test]
fn response_with_long_label_is_refused() {
    let bad = DNSQuestion { qname: "d".repeat(64), qtype: 1, qclass: 1 };
    let header = response_header(&client_header());
    assert_eq!(encode_response(&header, &vec![question(), bad], &vec![]), Err(DnsError::InvalidLabel));
    let bad_answer = DNSAnswer { name: "e".repeat(64), ..fallback_answer(&question()) };
    assert_eq!(
        encode_response(&header, &vec![question()], &vec![bad_answer]),
        Err(DnsError::InvalidLabel)
    );
}

#[test]
fn upstream_answer_in_full_is_carried_unchanged() {
    let upstream_answer = DNSAnswer {
        name: "codecrafters.io.".to_string(),
        rtype: 1,
        rclass: 1,
        ttl: 300,
        rdlength: 4,
        rdata: vec![93, 184, 216, 34],
    };
    let answer_wire = upstream_answer.to_bytes().unwrap();
    let h = DNSHeader { id: 0x1234, qr: 1, rd: 1, qdcount: 1, ancount: 1, ..DNSHeader::default() };
    let mut reply = h.to_bytes();
    reply.extend_from_slice(&question_bytes());
    reply.extend_from_slice(&answer_wire);

    let answers = answers_from_reply(&reply, &question()).unwrap();
    assert_eq!(answers, vec![upstream_answer]);

    let request = client_header();
    let response = encode_response(&response_header(&request), &vec![question()], &answers).unwrap();
    let header = DNSHeader { id: 0x1234, qr: 1, opcode: 0, rd: 1, qdcount: 1, ancount: 1, rcode: 0, ..DNSHeader::default() };
    assert_eq!(&response[..12], header.to_bytes().as_slice());
    assert_eq!(&response[12..12 + question_bytes().len()], question_bytes().as_slice());
    assert_eq!(&response[12 + question_bytes().len()..], answer_wire.as_slice());
}

#[test]
fn other_opcode_response_carries_code_four_whatever_was_resolved() {
    let request = DNSHeader { opcode: 1, ..client_header() };
    let header = response_header(&request);
    for answers in [vec![], vec![fallback_answer(&question())]] {
        let response = encode_response(&header, &vec![question()], &answers).unwrap();
        assert_eq!(response[3] & 0x0F, 4);
        assert_eq!(response[2], 0x80 | 0x08 | 0x01);
    }
}
