use bytes::{Buf, Bytes};
use dns_relay::error::DnsError;
use dns_relay::types::{DNSAnswer, DNSHeader, DNSQuestion};

fn sample_header() -> DNSHeader {
    DNSHeader {
        id: 0x1234,
        qr: 1,
        opcode: 0,
        aa: 0,
        tc: 0,
        rd: 1,
        ra: 0,
        z: 0,
        ad: 0,
        cd: 0,
        rcode: 0,
        qdcount: 1,
        ancount: 1,
        nscount: 0,
        arcount: 0,
    }
}

fn name_bytes(labels: &[&[u8]]) -> Vec<u8> {
    let mut out = Vec::new();
    for label in labels {
        out.push(label.len() as u8);
        out.extend_from_slice(label);
    }
    out.push(0);
    out
}

/// Twelve header bytes, `example.com` at offset 12, then `tail`.
fn packet_with_example(tail: &[u8]) -> Vec<u8> {
    let mut packet = vec![0u8; 12];
    packet.extend_from_slice(&name_bytes(&[b"example", b"com"]));
    assert_eq!(packet.len(), 25);
    packet.extend_from_slice(tail);
    packet
}

#[test]
fn header_encodes_to_twelve_bytes() {
    let bytes = sample_header().to_bytes();
    assert_eq!(bytes, vec![0x12, 0x34, 0x81, 0x00, 0, 1, 0, 1, 0, 0, 0, 0]);
}

#[test]
fn header_round_trip() {
    let mut h = sample_header();
    h.opcode = 9;
    h.aa = 1;
    h.ra = 1;
    h.ad = 1;
    h.rcode = 11;
    h.nscount = 0xBEEF;
    h.arcount = 7;
    let mut buf = Bytes::from(h.to_bytes());
    assert_eq!(DNSHeader::from_bytes(&mut buf), Ok(h));
    assert_eq!(buf.remaining(), 0);
}

#[test]
fn header_flag_places() {
    let zero = DNSHeader::default();
    let flags = |h: DNSHeader| {
        let b = h.to_bytes();
        ((b[2] as u16) << 8) | b[3] as u16
    };
    assert_eq!(flags(DNSHeader { qr: 1, ..zero }), 0x8000);
    assert_eq!(flags(DNSHeader { opcode: 1, ..zero }), 0x0800);
    assert_eq!(flags(DNSHeader { opcode: 15, ..zero }), 0x7800);
    assert_eq!(flags(DNSHeader { aa: 1, ..zero }), 0x0400);
    assert_eq!(flags(DNSHeader { tc: 1, ..zero }), 0x0200);
    assert_eq!(flags(DNSHeader { rd: 1, ..zero }), 0x0100);
    assert_eq!(flags(DNSHeader { ra: 1, ..zero }), 0x0080);
    assert_eq!(flags(DNSHeader { z: 1, ..zero }), 0x0040);
    assert_eq!(flags(DNSHeader { ad: 1, ..zero }), 0x0020);
    assert_eq!(flags(DNSHeader { cd: 1, ..zero }), 0x0010);
    assert_eq!(flags(DNSHeader { rcode: 4, ..zero }), 0x0004);
}

#[test]
fn header_decodes_every_flag() {
    let mut buf = Bytes::from(vec![0xAB, 0xCD, 0xFF, 0xFF, 0, 2, 0, 3, 0, 4, 1, 0, 9]);
    let h = DNSHeader::from_bytes(&mut buf).unwrap();
    assert_eq!(h.id, 0xABCD);
    assert_eq!((h.qr, h.opcode, h.aa, h.tc, h.rd), (1, 15, 1, 1, 1));
    assert_eq!((h.ra, h.z, h.ad, h.cd, h.rcode), (1, 1, 1, 1, 15));
    assert_eq!((h.qdcount, h.ancount, h.nscount, h.arcount), (2, 3, 4, 256));
    assert_eq!(buf.remaining(), 1);
}

#[test]
fn header_wide_fields_are_cut() {
    let h = DNSHeader { qr: 3, rcode: 0x14, ..DNSHeader::default() };
    let b = h.to_bytes();
    assert_eq!((b[2], b[3]), (0x80, 0x04));
}

#[test]
fn header_truncated() {
    let mut buf = Bytes::from(vec![0u8; 11]);
    assert_eq!(DNSHeader::from_bytes(&mut buf), Err(DnsError::TruncatedInput));
    assert_eq!(buf.remaining(), 11);
}

#[test]
fn name_is_written_in_full() {
    let wire = DNSQuestion::write_qname("codecrafters.io.").unwrap();
    assert_eq!(wire, name_bytes(&[b"codecrafters", b"io"]));
    assert_eq!(DNSQuestion::write_qname("codecrafters.io").unwrap(), wire);
    assert_eq!(DNSQuestion::write_qname("").unwrap(), vec![0]);
    assert_eq!(DNSQuestion::write_qname(".").unwrap(), vec![0]);
}

#[test]
fn empty_labels_are_left_out() {
    assert_eq!(DNSQuestion::write_qname("a..b").unwrap(), name_bytes(&[b"a", b"b"]));
    assert_eq!(DNSQuestion::write_qname(".a.").unwrap(), name_bytes(&[b"a"]));
}

#[test]
fn name_round_trip() {
    for name in ["codecrafters.io.", "a.b.c.d.", "x.", "", "b\u{fc}cher.example."] {
        let wire = DNSQuestion::write_qname(name).unwrap();
        let mut buf = Bytes::from(wire.clone());
        assert_eq!(DNSQuestion::read_qname(&mut buf, &wire), Ok(name.to_string()));
        assert_eq!(buf.remaining(), 0);
    }
    let wire = DNSQuestion::write_qname("example.com").unwrap();
    let mut buf = Bytes::from(wire.clone());
    assert_eq!(DNSQuestion::read_qname(&mut buf, &wire), Ok("example.com.".to_string()));
}

#[test]
fn label_of_63_bytes_is_written_and_64_is_not() {
    let ok = "a".repeat(63);
    let wire = DNSQuestion::write_qname(&ok).unwrap();
    assert_eq!(wire.len(), 65);
    assert_eq!(wire[0], 63);
    let long = format!("ok.{}.com", "a".repeat(64));
    assert_eq!(DNSQuestion::write_qname(&long), Err(DnsError::InvalidLabel));
}

#[test]
fn pointer_is_followed_into_the_packet() {
    let packet = packet_with_example(&[0xC0, 12, 0xAA]);
    let mut buf = Bytes::copy_from_slice(&packet[25..]);
    assert_eq!(DNSQuestion::read_qname(&mut buf, &packet), Ok("example.com.".to_string()));
    assert_eq!(buf.remaining(), 1);
    assert_eq!(buf.get_u8(), 0xAA);
}

#[test]
fn labels_before_a_pointer_are_kept() {
    let packet = packet_with_example(&[3, b'w', b'w', b'w', 0xC0, 12, 0xAA]);
    let mut buf = Bytes::copy_from_slice(&packet[25..]);
    assert_eq!(DNSQuestion::read_qname(&mut buf, &packet), Ok("www.example.com.".to_string()));
    assert_eq!(buf.remaining(), 1);
}

#[test]
fn pointer_offset_uses_fourteen_bits() {
    let mut packet = vec![0u8; 0x0123];
    packet.extend_from_slice(&name_bytes(&[b"far"]));
    packet.extend_from_slice(&[0xC1, 0x23]);
    let at = packet.len() - 2;
    let mut buf = Bytes::copy_from_slice(&packet[at..]);
    assert_eq!(DNSQuestion::read_qname(&mut buf, &packet), Ok("far.".to_string()));
}

#[test]
fn pointer_cycle_is_malformed() {
    let mut packet = vec![0u8; 12];
    packet.extend_from_slice(&[0xC0, 14, 0xC0, 12]);
    let mut buf = Bytes::copy_from_slice(&packet[12..]);
    assert_eq!(DNSQuestion::read_qname(&mut buf, &packet), Err(DnsError::MalformedName));
    assert_eq!(buf.remaining(), 4);
}

#[test]
fn pointer_to_itself_is_malformed() {
    let mut packet = vec![0u8; 12];
    packet.extend_from_slice(&[1, b'a', 0xC0, 12]);
    let mut buf = Bytes::copy_from_slice(&packet[12..]);
    assert_eq!(DNSQuestion::read_qname(&mut buf, &packet), Err(DnsError::MalformedName));
}

#[test]
fn long_chain_of_pointers_is_malformed() {
    // 70 pointers, each to the next, then a name: more hops than are followed.
    let mut packet = Vec::new();
    for i in 0..70u8 {
        packet.extend_from_slice(&[0xC0, 2 * (i + 1)]);
    }
    packet.extend_from_slice(&name_bytes(&[b"end"]));
    let mut buf = Bytes::from(packet.clone());
    assert_eq!(DNSQuestion::read_qname(&mut buf, &packet), Err(DnsError::MalformedName));
    // A chain of ten is followed to its end.
    let mut buf = Bytes::copy_from_slice(&packet[120..]);
    assert_eq!(DNSQuestion::read_qname(&mut buf, &packet), Ok("end.".to_string()));
}

#[test]
fn pointer_past_the_packet_is_truncated() {
    let packet = vec![0xC0, 9];
    let mut buf = Bytes::from(packet.clone());
    assert_eq!(DNSQuestion::read_qname(&mut buf, &packet), Err(DnsError::TruncatedInput));
}

#[test]
fn name_cut_short_is_truncated() {
    for wire in [vec![], vec![3, b'a', b'b'], vec![1, b'a'], vec![0xC0]] {
        let mut buf = Bytes::from(wire.clone());
        assert_eq!(DNSQuestion::read_qname(&mut buf, &wire), Err(DnsError::TruncatedInput));
        assert_eq!(buf.remaining(), wire.len());
    }
}

#[test]
fn name_of_255_wire_bytes_is_read_and_longer_is_not() {
    let l63 = [b'x'; 63];
    let l61 = [b'y'; 61];
    let l62 = [b'z'; 62];
    let fits = name_bytes(&[&l63, &l63, &l63, &l61]);
    assert_eq!(fits.len(), 255);
    let mut buf = Bytes::from(fits.clone());
    let name = DNSQuestion::read_qname(&mut buf, &fits).unwrap();
    assert_eq!(name.len(), 254);
    let over = name_bytes(&[&l63, &l63, &l63, &l62]);
    assert_eq!(over.len(), 256);
    let mut buf = Bytes::from(over.clone());
    assert_eq!(DNSQuestion::read_qname(&mut buf, &over), Err(DnsError::MalformedName));
}

#[test]
fn label_that_is_not_utf8_is_read_with_replacements() {
    let wire = vec![2, 0xFF, b'a', 0];
    let mut buf = Bytes::from(wire.clone());
    assert_eq!(DNSQuestion::read_qname(&mut buf, &wire), Ok("\u{FFFD}a.".to_string()));
}

#[test]
fn question_round_trip() {
    let q = DNSQuestion { qname: "codecrafters.io.".to_string(), qtype: 1, qclass: 0x0102 };
    let wire = q.to_bytes().unwrap();
    let mut expected = name_bytes(&[b"codecrafters", b"io"]);
    expected.extend_from_slice(&[0, 1, 1, 2]);
    assert_eq!(wire, expected);
    let mut buf = Bytes::from(wire.clone());
    assert_eq!(DNSQuestion::from_bytes(&mut buf, &wire), Ok(q));
    assert_eq!(buf.remaining(), 0);
}

#[test]
fn question_cut_short_leaves_the_cursor() {
    let mut wire = name_bytes(&[b"a"]);
    wire.extend_from_slice(&[0, 1, 0]);
    let mut buf = Bytes::from(wire.clone());
    assert_eq!(DNSQuestion::from_bytes(&mut buf, &wire), Err(DnsError::TruncatedInput));
    assert_eq!(buf.remaining(), wire.len());
}

#[test]
fn question_with_long_label_is_not_encoded() {
    let q = DNSQuestion { qname: "b".repeat(64), qtype: 1, qclass: 1 };
    assert_eq!(q.to_bytes(), Err(DnsError::InvalidLabel));
}

#[test]
fn answer_encodes_field_by_field() {
    let a = DNSAnswer {
        name: "a.io.".to_string(),
        rtype: 1,
        rclass: 1,
        ttl: 0x01020304,
        rdlength: 4,
        rdata: vec![93, 184, 216, 34],
    };
    let wire = a.to_bytes().unwrap();
    assert_eq!(
        wire,
        vec![1, b'a', 2, b'i', b'o', 0, 0, 1, 0, 1, 1, 2, 3, 4, 0, 4, 93, 184, 216, 34]
    );
    let mut buf = Bytes::from(wire.clone());
    assert_eq!(DNSAnswer::from_bytes(&mut buf, &wire), Ok(a));
    assert_eq!(buf.remaining(), 0);
}

#[test]
fn record_with_four_data_bytes_is_read_and_with_three_is_truncated() {
    let mut wire = name_bytes(&[b"a"]);
    wire.extend_from_slice(&[0, 1, 0, 1, 0, 0, 0, 60, 0, 4, 10, 11, 12, 13]);
    let mut buf = Bytes::from(wire.clone());
    let a = DNSAnswer::from_bytes(&mut buf, &wire).unwrap();
    assert_eq!(a.rdlength, 4);
    assert_eq!(a.rdata, vec![10, 11, 12, 13]);
    assert_eq!(a.ttl, 60);
    assert_eq!(a.name, "a.");

    let short = &wire[..wire.len() - 1];
    let mut buf = Bytes::copy_from_slice(short);
    assert_eq!(DNSAnswer::from_bytes(&mut buf, short), Err(DnsError::TruncatedInput));
    assert_eq!(buf.remaining(), short.len());
}

#[test]
fn record_data_is_not_read_past_its_length() {
    let mut wire = name_bytes(&[b"a"]);
    wire.extend_from_slice(&[0, 16, 0, 1, 0, 0, 1, 0, 0, 2, 7, 8, 9]);
    let mut buf = Bytes::from(wire.clone());
    let a = DNSAnswer::from_bytes(&mut buf, &wire).unwrap();
    assert_eq!((a.rtype, a.ttl, a.rdata.clone()), (16, 256, vec![7, 8]));
    assert_eq!(buf.remaining(), 1);
}

#[test]
fn record_name_may_be_a_pointer() {
    let mut tail = vec![0xC0, 12];
    tail.extend_from_slice(&[0, 1, 0, 1, 0, 0, 0, 5, 0, 1, 42]);
    let packet = packet_with_example(&tail);
    let mut buf = Bytes::copy_from_slice(&packet[25..]);
    let a = DNSAnswer::from_bytes(&mut buf, &packet).unwrap();
    assert_eq!(a.name, "example.com.");
    assert_eq!(a.rdata, vec![42]);
}

#[test]
fn length_byte_above_63_is_read_as_a_length() {
    let mut wire = vec![64];
    wire.extend_from_slice(&[b'q'; 64]);
    wire.push(0);
    let mut buf = Bytes::from(wire.clone());
    let name = DNSQuestion::read_qname(&mut buf, &wire).unwrap();
    assert_eq!(name, format!("{}.", "q".repeat(64)));
    assert_eq!(buf.remaining(), 0);
}

#[test]
fn root_name_is_empty_text() {
    let wire = vec![0, 9];
    let mut buf = Bytes::from(wire.clone());
    assert_eq!(DNSQuestion::read_qname(&mut buf, &wire), Ok(String::new()));
    assert_eq!(buf.remaining(), 1);
}

#[test]
fn name_in_normal_form_reads_back_unchanged() {
    for name in ["a.", "mail.example.org.", "xn--bcher-kva.example."] {
        let q = DNSQuestion { qname: name.to_string(), qtype: 15, qclass: 1 };
        let wire = q.to_bytes().unwrap();
        let mut buf = Bytes::from(wire.clone());
        assert_eq!(DNSQuestion::from_bytes(&mut buf, &wire).unwrap().qname, name);
    }
}
