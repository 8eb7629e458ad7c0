//! The three structures of a DNS message and their wire codec.

use crate::error::DnsError;
use crate::name::{
    decode_name, dotted_text, name_wire, read_name, write_name, MAX_NAME_BODY,
};
use crate::wire::{
    be16, be16_bytes, be32, be32_bytes, fork, get_u16, get_u32, put_bytes, put_u16, put_u32,
    remaining,
    take_bytes, unread,
};
use bytes::Bytes;
use vstd::arithmetic::div_mod::lemma_fundamental_div_mod_converse;
use vstd::prelude::*;
use vstd::utf8::encode_utf8;

verus! {

/// The fixed 12-byte header of a DNS message.
#[derive(Debug, Default, Clone, Copy, PartialEq, Eq, Structural)]
pub struct DNSHeader {
    pub id: u16,
    pub qr: u8,
    pub opcode: u8,
    pub aa: u8,
    pub tc: u8,
    pub rd: u8,
    pub ra: u8,
    pub z: u8,
    pub ad: u8,
    pub cd: u8,
    pub rcode: u8,
    pub qdcount: u16,
    pub ancount: u16,
    pub nscount: u16,
    pub arcount: u16,
}

/// The length of an encoded header.
pub const HEADER_LEN: usize = 12;

impl DNSHeader {
    /// Every field fits the number of bits that the flags word gives it.
    pub open spec fn valid(&self) -> bool {
        &&& self.qr <= 1
        &&& self.opcode <= 15
        &&& self.aa <= 1
        &&& self.tc <= 1
        &&& self.rd <= 1
        &&& self.ra <= 1
        &&& self.z <= 1
        &&& self.ad <= 1
        &&& self.cd <= 1
        &&& self.rcode <= 15
    }

    /// The 16-bit flags word: `qr` at bit 15, `opcode` at bits 14 to 11, then
    /// `aa`, `tc`, `rd`, `ra`, `z`, `ad`, `cd` at bits 10 to 4, and `rcode`
    /// in the low four bits. A field wider than its place is cut to it.
    pub open spec fn flags(&self) -> u16 {
        ((self.qr % 2) * 32768 + (self.opcode % 16) * 2048 + (self.aa % 2) * 1024 + (self.tc % 2)
            * 512 + (self.rd % 2) * 256 + (self.ra % 2) * 128 + (self.z % 2) * 64 + (self.ad % 2)
            * 32 + (self.cd % 2) * 16 + (self.rcode % 16)) as u16
    }

    /// The twelve bytes that encode this header.
    pub open spec fn wire(&self) -> Seq<u8> {
        be16_bytes(self.id) + be16_bytes(self.flags()) + be16_bytes(self.qdcount) + be16_bytes(
            self.ancount,
        ) + be16_bytes(self.nscount) + be16_bytes(self.arcount)
    }

    /// The header that the first twelve bytes of `b` encode.
    pub open spec fn from_wire(b: Seq<u8>) -> DNSHeader
        recommends
            b.len() >= 12,
    {
        let flags = be16(b[2], b[3]);
        DNSHeader {
            id: be16(b[0], b[1]),
            qr: (flags / 32768) as u8,
            opcode: ((flags / 2048) % 16) as u8,
            aa: ((flags / 1024) % 2) as u8,
            tc: ((flags / 512) % 2) as u8,
            rd: ((flags / 256) % 2) as u8,
            ra: ((flags / 128) % 2) as u8,
            z: ((flags / 64) % 2) as u8,
            ad: ((flags / 32) % 2) as u8,
            cd: ((flags / 16) % 2) as u8,
            rcode: (flags % 16) as u8,
            qdcount: be16(b[4], b[5]),
            ancount: be16(b[6], b[7]),
            nscount: be16(b[8], b[9]),
            arcount: be16(b[10], b[11]),
        }
    }

    /// Reads a header from the front of `buf`. With fewer than twelve bytes
    /// left the read fails and the cursor stays where it was.
    pub fn from_bytes(buf: &mut Bytes) -> (r: Result<DNSHeader, DnsError>)
        ensures
            unread(*old(buf)).len() < 12 ==> r == Err::<DNSHeader, DnsError>(
                DnsError::TruncatedInput,
            ) && unread(*final(buf)) == unread(*old(buf)),
            unread(*old(buf)).len() >= 12 ==> r == Ok::<DNSHeader, DnsError>(
                DNSHeader::from_wire(unread(*old(buf))),
            ) && unread(*final(buf)) == unread(*old(buf)).skip(12) && r->Ok_0.valid(),
    {
        if remaining(buf) < HEADER_LEN {
            return Err(DnsError::TruncatedInput);
        }
        let ghost start = unread(*buf);
        let id = get_u16(buf);
        let flags = get_u16(buf);
        let qdcount = get_u16(buf);
        let ancount = get_u16(buf);
        let nscount = get_u16(buf);
        let arcount = get_u16(buf);
        assert(unread(*buf) == start.skip(12));
        Ok(
            DNSHeader {
                id,
                qr: (flags / 32768) as u8,
                opcode: ((flags / 2048) % 16) as u8,
                aa: ((flags / 1024) % 2) as u8,
                tc: ((flags / 512) % 2) as u8,
                rd: ((flags / 256) % 2) as u8,
                ra: ((flags / 128) % 2) as u8,
                z: ((flags / 64) % 2) as u8,
                ad: ((flags / 32) % 2) as u8,
                cd: ((flags / 16) % 2) as u8,
                rcode: (flags % 16) as u8,
                qdcount,
                ancount,
                nscount,
                arcount,
            },
        )
    }

    /// Encodes the header into its twelve bytes.
    pub fn to_bytes(&self) -> (out: Vec<u8>)
        ensures
            out@ == self.wire(),
            out@.len() == 12,
    {
        let flags: u16 = (self.qr % 2) as u16 * 32768 + (self.opcode % 16) as u16 * 2048 + (self.aa
            % 2) as u16 * 1024 + (self.tc % 2) as u16 * 512 + (self.rd % 2) as u16 * 256 + (self.ra
            % 2) as u16 * 128 + (self.z % 2) as u16 * 64 + (self.ad % 2) as u16 * 32 + (self.cd
            % 2) as u16 * 16 + (self.rcode % 16) as u16;
        let mut out: Vec<u8> = Vec::new();
        put_u16(&mut out, self.id);
        put_u16(&mut out, flags);
        put_u16(&mut out, self.qdcount);
        put_u16(&mut out, self.ancount);
        put_u16(&mut out, self.nscount);
        put_u16(&mut out, self.arcount);
        out
    }
}

/// One entry of the question section.
#[derive(Debug, Default, Clone, PartialEq, Eq)]
pub struct DNSQuestion {
    pub qname: String,
    pub qtype: u16,
    pub qclass: u16,
}

/// A question as plain values.
pub struct QuestionView {
    pub qname: Seq<char>,
    pub qtype: u16,
    pub qclass: u16,
}

impl View for DNSQuestion {
    type V = QuestionView;

    open spec fn view(&self) -> QuestionView {
        QuestionView { qname: self.qname@, qtype: self.qtype, qclass: self.qclass }
    }
}

/// The question at the front of `cur`, and what is left of `cur` behind it:
/// a name, then type and class as big-endian 16-bit numbers.
pub open spec fn parse_question(cur: Seq<u8>, packet: Seq<u8>) -> Result<
    (QuestionView, Seq<u8>),
    DnsError,
> {
    match decode_name(cur, packet) {
        Err(e) => Err(e),
        Ok((labels, rest)) => if rest.len() < 4 {
            Err(DnsError::TruncatedInput)
        } else {
            Ok(
                (
                    QuestionView {
                        qname: dotted_text(labels),
                        qtype: be16(rest[0], rest[1]),
                        qclass: be16(rest[2], rest[3]),
                    },
                    rest.skip(4),
                ),
            )
        },
    }
}

/// The bytes that encode a question, or `InvalidLabel` where its name has a
/// label longer than 63 bytes.
pub open spec fn question_wire(q: QuestionView) -> Result<Seq<u8>, DnsError> {
    match name_wire(encode_utf8(q.qname)) {
        Err(e) => Err(e),
        Ok(name) => Ok(name + be16_bytes(q.qtype) + be16_bytes(q.qclass)),
    }
}

impl DNSQuestion {
    /// Reads a question from the front of `buf`; pointers in its name are
    /// followed into `buf_view`, the whole packet. On failure the cursor
    /// stays where it was.
    pub fn from_bytes(buf: &mut Bytes, buf_view: &[u8]) -> (r: Result<DNSQuestion, DnsError>)
        ensures
            match parse_question(unread(*old(buf)), buf_view@) {
                Ok((q, rest)) => r is Ok && r->Ok_0@ == q && unread(*final(buf)) == rest,
                Err(e) => r is Err && r->Err_0 == e && unread(*final(buf)) == unread(*old(buf)),
            },
    {
        let mut probe = fork(buf);
        let qname = match read_name(&mut probe, buf_view, Vec::new(), MAX_NAME_BODY) {
            Ok(name) => name,
            Err(e) => { return Err(e); },
        };
        if remaining(&probe) < 4 {
            return Err(DnsError::TruncatedInput);
        }
        let qtype = get_u16(&mut probe);
        let qclass = get_u16(&mut probe);
        *buf = probe;
        Ok(DNSQuestion { qname, qtype, qclass })
    }

    /// Encodes the question: its name in full, then type and class.
    pub fn to_bytes(&self) -> (r: Result<Vec<u8>, DnsError>)
        ensures
            match question_wire(self@) {
                Ok(wire) => r is Ok && r->Ok_0@ == wire,
                Err(e) => r is Err && r->Err_0 == e,
            },
    {
        let mut out = match write_name(self.qname.as_str()) {
            Ok(name) => name,
            Err(e) => { return Err(e); },
        };
        put_u16(&mut out, self.qtype);
        put_u16(&mut out, self.qclass);
        Ok(out)
    }

    /// Reads the name at the front of `buf` as dotted text, each label
    /// followed by a dot; pointers are followed into `buf_view`, the whole
    /// packet. On failure the cursor stays where it was.
    pub fn read_qname(buf: &mut Bytes, buf_view: &[u8]) -> (r: Result<String, DnsError>)
        ensures
            match decode_name(unread(*old(buf)), buf_view@) {
                Ok((labels, rest)) => r is Ok && r->Ok_0@ == dotted_text(labels) && unread(
                    *final(buf),
                ) == rest,
                Err(e) => r is Err && r->Err_0 == e && unread(*final(buf)) == unread(*old(buf)),
            },
    {
        let mut probe = fork(buf);
        match read_name(&mut probe, buf_view, Vec::new(), MAX_NAME_BODY) {
            Ok(name) => {
                *buf = probe;
                Ok(name)
            },
            Err(e) => Err(e),
        }
    }

    /// Writes a dotted name in full: each non-empty label with its length
    /// in front, then the zero terminator. A label longer than 63 bytes is
    /// refused.
    pub fn write_qname(qname: &str) -> (r: Result<Vec<u8>, DnsError>)
        ensures
            match name_wire(encode_utf8(qname@)) {
                Ok(wire) => r is Ok && r->Ok_0@ == wire,
                Err(e) => r is Err && r->Err_0 == e,
            },
    {
        write_name(qname)
    }
}

/// One resource record.
#[derive(Debug, Default, Clone, PartialEq, Eq)]
pub struct DNSAnswer {
    pub name: String,
    pub rtype: u16,
    pub rclass: u16,
    pub ttl: u32,
    pub rdlength: u16,
    pub rdata: Vec<u8>,
}

/// A resource record as plain values.
pub struct AnswerView {
    pub name: Seq<char>,
    pub rtype: u16,
    pub rclass: u16,
    pub ttl: u32,
    pub rdlength: u16,
    pub rdata: Seq<u8>,
}

impl View for DNSAnswer {
    type V = AnswerView;

    open spec fn view(&self) -> AnswerView {
        AnswerView {
            name: self.name@,
            rtype: self.rtype,
            rclass: self.rclass,
            ttl: self.ttl,
            rdlength: self.rdlength,
            rdata: self.rdata@,
        }
    }
}

impl AnswerView {
    /// The declared data length is the length of the data.
    pub open spec fn well_formed(&self) -> bool {
        self.rdlength == self.rdata.len()
    }
}

/// The record at the front of `cur`, and what is left of `cur` behind it: a
/// name, then type, class, time to live and data length, then as many bytes
/// of data as the length says.
pub open spec fn parse_answer(cur: Seq<u8>, packet: Seq<u8>) -> Result<
    (AnswerView, Seq<u8>),
    DnsError,
> {
    match decode_name(cur, packet) {
        Err(e) => Err(e),
        Ok((labels, rest)) => if rest.len() < 10 {
            Err(DnsError::TruncatedInput)
        } else {
            let rdlength = be16(rest[8], rest[9]);
            if rest.len() < 10 + rdlength {
                Err(DnsError::TruncatedInput)
            } else {
                Ok(
                    (
                        AnswerView {
                            name: dotted_text(labels),
                            rtype: be16(rest[0], rest[1]),
                            rclass: be16(rest[2], rest[3]),
                            ttl: be32(rest[4], rest[5], rest[6], rest[7]),
                            rdlength,
                            rdata: rest.subrange(10, 10 + rdlength),
                        },
                        rest.skip(10 + rdlength),
                    ),
                )
            }
        },
    }
}

/// The bytes that encode a record, or `InvalidLabel` where its name has a
/// label longer than 63 bytes.
pub open spec fn answer_wire(a: AnswerView) -> Result<Seq<u8>, DnsError> {
    match name_wire(encode_utf8(a.name)) {
        Err(e) => Err(e),
        Ok(name) => Ok(
            name + be16_bytes(a.rtype) + be16_bytes(a.rclass) + be32_bytes(a.ttl) + be16_bytes(
                a.rdlength,
            ) + a.rdata,
        ),
    }
}

impl DNSAnswer {
    /// Reads a record from the front of `buf`; pointers in its name are
    /// followed into `global_buf`, the whole packet. The record that comes
    /// back holds exactly as many data bytes as it declares. On failure the
    /// cursor stays where it was.
    pub fn from_bytes(buf: &mut Bytes, global_buf: &[u8]) -> (r: Result<DNSAnswer, DnsError>)
        ensures
            match parse_answer(unread(*old(buf)), global_buf@) {
                Ok((a, rest)) => r is Ok && r->Ok_0@ == a && a.well_formed() && unread(
                    *final(buf),
                ) == rest,
                Err(e) => r is Err && r->Err_0 == e && unread(*final(buf)) == unread(*old(buf)),
            },
    {
        let mut probe = fork(buf);
        let name = match read_name(&mut probe, global_buf, Vec::new(), MAX_NAME_BODY) {
            Ok(name) => name,
            Err(e) => { return Err(e); },
        };
        let ghost rest = unread(probe);
        if remaining(&probe) < 10 {
            return Err(DnsError::TruncatedInput);
        }
        let rtype = get_u16(&mut probe);
        let rclass = get_u16(&mut probe);
        let ttl = get_u32(&mut probe);
        let rdlength = get_u16(&mut probe);
        assert(unread(probe) == rest.skip(10));
        if remaining(&probe) < rdlength as usize {
            return Err(DnsError::TruncatedInput);
        }
        let rdata = take_bytes(&mut probe, rdlength as usize);
        if rdata.len() != rdlength as usize {
            return Err(DnsError::InconsistentLength);
        }
        assert(rdata@ == rest.subrange(10, 10 + rdlength));
        assert(unread(probe) == rest.skip(10 + rdlength));
        *buf = probe;
        Ok(DNSAnswer { name, rtype, rclass, ttl, rdlength, rdata })
    }

    /// Encodes the record: its name in full, then type, class, time to
    /// live, the declared data length and the data.
    pub fn to_bytes(&self) -> (r: Result<Vec<u8>, DnsError>)
        ensures
            match answer_wire(self@) {
                Ok(wire) => r is Ok && r->Ok_0@ == wire,
                Err(e) => r is Err && r->Err_0 == e,
            },
    {
        let mut out = match write_name(self.name.as_str()) {
            Ok(name) => name,
            Err(e) => { return Err(e); },
        };
        put_u16(&mut out, self.rtype);
        put_u16(&mut out, self.rclass);
        put_u32(&mut out, self.ttl);
        put_u16(&mut out, self.rdlength);
        put_bytes(&mut out, &self.rdata);
        Ok(out)
    }
}

/// Encoding a valid header and decoding the result gives the header back,
/// field for field, and leaves whatever followed the header.
pub proof fn header_round_trip(h: DNSHeader, tail: Seq<u8>)
    requires
        h.valid(),
    ensures
        h.wire().len() == 12,
        DNSHeader::from_wire(h.wire() + tail) == h,
        (h.wire() + tail).skip(12) == tail,
{
    let f = h.flags();
    assert(forall|i: int| 0 <= i < 12 ==> (h.wire() + tail)[i] == h.wire()[i]);
    assert((h.wire() + tail).skip(12) =~= tail);
    flags_unpack(h);
    be16_round_trip(f);
    be16_round_trip(h.id);
    be16_round_trip(h.qdcount);
    be16_round_trip(h.ancount);
    be16_round_trip(h.nscount);
    be16_round_trip(h.arcount);
}

/// The big-endian bytes of a 16-bit number give the number back.
pub proof fn be16_round_trip(v: u16)
    ensures
        be16((v / 256) as u8, (v % 256) as u8) == v,
{
}

/// Each field of a valid header can be read back from its place in the
/// flags word.
proof fn flags_unpack(h: DNSHeader)
    requires
        h.valid(),
    ensures
        h.flags() / 32768 == h.qr,
        (h.flags() / 2048) % 16 == h.opcode,
        (h.flags() / 1024) % 2 == h.aa,
        (h.flags() / 512) % 2 == h.tc,
        (h.flags() / 256) % 2 == h.rd,
        (h.flags() / 128) % 2 == h.ra,
        (h.flags() / 64) % 2 == h.z,
        (h.flags() / 32) % 2 == h.ad,
        (h.flags() / 16) % 2 == h.cd,
        h.flags() % 16 == h.rcode,
{
    assert(h.qr % 2 == h.qr && h.aa % 2 == h.aa && h.tc % 2 == h.tc && h.rd % 2 == h.rd);
    assert(h.ra % 2 == h.ra && h.z % 2 == h.z && h.ad % 2 == h.ad && h.cd % 2 == h.cd);
    assert(h.opcode % 16 == h.opcode && h.rcode % 16 == h.rcode);
    let f = h.qr * 32768 + h.opcode * 2048 + h.aa * 1024 + h.tc * 512 + h.rd * 256 + h.ra * 128
        + h.z * 64 + h.ad * 32 + h.cd * 16 + h.rcode;
    assert(h.flags() == f);
    let bits = seq![
        h.aa as int,
        h.tc as int,
        h.rd as int,
        h.ra as int,
        h.z as int,
        h.ad as int,
        h.cd as int,
    ];
    packed_places(f, h.qr as int, h.opcode as int, bits, h.rcode as int);
}

/// The places of a number packed as one bit, four bits, seven single bits
/// and four bits, from the top down.
proof fn packed_places(f: int, qr: int, opcode: int, b: Seq<int>, rcode: int)
    requires
        0 <= qr <= 1,
        0 <= opcode <= 15,
        0 <= rcode <= 15,
        b.len() == 7,
        forall|i: int| 0 <= i < 7 ==> 0 <= #[trigger] b[i] <= 1,
        f == qr * 32768 + opcode * 2048 + b[0] * 1024 + b[1] * 512 + b[2] * 256 + b[3] * 128
            + b[4] * 64 + b[5] * 32 + b[6] * 16 + rcode,
    ensures
        f / 32768 == qr,
        (f / 2048) % 16 == opcode,
        (f / 1024) % 2 == b[0],
        (f / 512) % 2 == b[1],
        (f / 256) % 2 == b[2],
        (f / 128) % 2 == b[3],
        (f / 64) % 2 == b[4],
        (f / 32) % 2 == b[5],
        (f / 16) % 2 == b[6],
        f % 16 == rcode,
{
    let v11 = qr * 16 + opcode;
    let v10 = v11 * 2 + b[0];
    let v9 = v10 * 2 + b[1];
    let v8 = v9 * 2 + b[2];
    let v7 = v8 * 2 + b[3];
    let v6 = v7 * 2 + b[4];
    let v5 = v6 * 2 + b[5];
    let v4 = v5 * 2 + b[6];
    place(f, 16, v4, rcode);
    place(f, 32, v5, f - v5 * 32);
    place(v4, 2, v5, b[6]);
    place(f, 64, v6, f - v6 * 64);
    place(v5, 2, v6, b[5]);
    place(f, 128, v7, f - v7 * 128);
    place(v6, 2, v7, b[4]);
    place(f, 256, v8, f - v8 * 256);
    place(v7, 2, v8, b[3]);
    place(f, 512, v9, f - v9 * 512);
    place(v8, 2, v9, b[2]);
    place(f, 1024, v10, f - v10 * 1024);
    place(v9, 2, v10, b[1]);
    place(f, 2048, v11, f - v11 * 2048);
    place(v10, 2, v11, b[0]);
    place(f, 32768, qr, f - qr * 32768);
    place(v11, 16, qr, opcode);
}

/// A number written as `q * d + r` with `0 <= r < d` has quotient `q` and
/// remainder `r`.
proof fn place(x: int, d: int, q: int, r: int)
    requires
        d > 0,
        0 <= r < d,
        x == q * d + r,
    ensures
        x / d == q,
        x % d == r,
{
    lemma_fundamental_div_mod_converse(x, d, q, r);
}

} // verus!
