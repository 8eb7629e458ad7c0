//! Dotted names as text: how the labels of a name's characters relate to
//! the labels of its bytes, and what a written name reads back as.

use crate::error::DnsError;
use crate::name::{
    decode_name, dotted_text, name_labels, name_round_trip, name_wire, split_labels, DOT,
    MAX_NAME_BODY,
};
use crate::types::{
    answer_wire, be16_round_trip, parse_answer, parse_question, question_wire, AnswerView,
    QuestionView,
};
use crate::wire::{be16_bytes, be32, be32_bytes, label_text};
use vstd::prelude::*;
use vstd::utf8::*;

verus! {

/// The labels of a dotted name, given as its characters: the runs between
/// dots, empty runs left out. `pending` is the run that was begun before
/// `chars`.
pub open spec fn split_text(chars: Seq<char>, pending: Seq<char>) -> Seq<Seq<char>>
    decreases chars.len(),
{
    if chars.len() == 0 {
        if pending.len() == 0 {
            Seq::empty()
        } else {
            seq![pending]
        }
    } else if chars[0] == '.' {
        if pending.len() == 0 {
            split_text(chars.drop_first(), Seq::empty())
        } else {
            seq![pending] + split_text(chars.drop_first(), Seq::empty())
        }
    } else {
        split_text(chars.drop_first(), pending.push(chars[0]))
    }
}

/// Labels joined into a name, each followed by a dot.
pub open spec fn dotted(labels: Seq<Seq<char>>) -> Seq<char>
    decreases labels.len(),
{
    if labels.len() == 0 {
        Seq::empty()
    } else {
        labels[0] + seq!['.'] + dotted(labels.drop_first())
    }
}

/// A name in its normal form: its non-empty labels, each followed by a dot.
/// A name that ends in a dot and has no empty label is its own normal form
/// but for that; one without the last dot gains it.
pub open spec fn normal_form(name: Seq<char>) -> Seq<char> {
    dotted(split_text(name, Seq::empty()))
}

/// Each label as its UTF-8 bytes.
pub open spec fn encoded_labels(labels: Seq<Seq<char>>) -> Seq<Seq<u8>> {
    Seq::new(labels.len(), |i: int| encode_utf8(labels[i]))
}

/// The bytes of a dot are the one byte 46, and no byte of another
/// character is 46.
pub proof fn scalar_bytes_and_dot(c: char)
    ensures
        encode_scalar(c as u32).len() >= 1,
        c == '.' ==> encode_scalar(c as u32) == seq![DOT],
        c != '.' ==> forall|k: int|
            0 <= k < encode_scalar(c as u32).len() ==> #[trigger] encode_scalar(c as u32)[k] != DOT,
{
    let s = c as u32;
    char_is_scalar(c);
    assert(s <= 0x7F ==> (s & 0x7F) as u8 == s) by (bit_vector);
    assert((0xC0u8 | ((s >> 6) & 0x1F) as u8) != 46u8) by (bit_vector);
    assert((0xE0u8 | ((s >> 12) & 0x0F) as u8) != 46u8) by (bit_vector);
    assert((0xF0u8 | ((s >> 18) & 0x7) as u8) != 46u8) by (bit_vector);
    assert((0x80u8 | (s & 0x3F) as u8) != 46u8) by (bit_vector);
    assert((0x80u8 | ((s >> 6) & 0x3F) as u8) != 46u8) by (bit_vector);
    assert((0x80u8 | ((s >> 12) & 0x3F) as u8) != 46u8) by (bit_vector);
    if c == '.' {
        assert(s == 46);
        assert(encode_scalar(s) =~= seq![DOT]);
    }
}

/// Appending a character appends its bytes.
pub proof fn encode_utf8_push(chars: Seq<char>, c: char)
    ensures
        encode_utf8(chars.push(c)) == encode_utf8(chars) + encode_scalar(c as u32),
    decreases chars.len(),
{
    if chars.len() == 0 {
        assert(chars.push(c).drop_first() =~= Seq::<char>::empty());
        assert(encode_utf8(chars.push(c).drop_first()) =~= Seq::<u8>::empty());
        assert(encode_utf8(chars.push(c)) =~= encode_scalar(c as u32));
        assert(encode_utf8(chars) + encode_scalar(c as u32) =~= encode_scalar(c as u32));
    } else {
        encode_utf8_push(chars.drop_first(), c);
        assert(chars.push(c).drop_first() =~= chars.drop_first().push(c));
        assert(chars.push(c)[0] == chars[0]);
        assert(encode_utf8(chars.push(c)) =~= encode_utf8(chars) + encode_scalar(c as u32));
    }
}

/// Bytes without a dot among them all go to the pending label.
pub proof fn split_labels_run(run: Seq<u8>, rest: Seq<u8>, pending: Seq<u8>)
    requires
        forall|k: int| 0 <= k < run.len() ==> run[k] != DOT,
    ensures
        split_labels(run + rest, pending) == split_labels(rest, pending + run),
    decreases run.len(),
{
    if run.len() == 0 {
        assert(run + rest =~= rest);
        assert(pending + run =~= pending);
    } else {
        let all = run + rest;
        assert(all[0] == run[0]);
        assert(all.drop_first() =~= run.drop_first() + rest);
        split_labels_run(run.drop_first(), rest, pending.push(run[0]));
        assert(pending.push(run[0]) + run.drop_first() =~= pending + run);
    }
}

/// Splitting the bytes of a name at dots gives the bytes of the labels that
/// splitting its characters at dots gives.
pub proof fn split_bytes_is_split_text(chars: Seq<char>, pending: Seq<char>)
    ensures
        split_labels(encode_utf8(chars), encode_utf8(pending)) == encoded_labels(
            split_text(chars, pending),
        ),
    decreases chars.len(),
{
    let bytes = encode_utf8(chars);
    let held = encode_utf8(pending);
    if pending.len() > 0 {
        scalar_bytes_and_dot(pending[0]);
        assert(held.len() >= 1);
    }
    if chars.len() == 0 {
        assert(split_labels(bytes, held) =~= encoded_labels(split_text(chars, pending)));
    } else {
        let c = chars[0];
        let rest = chars.drop_first();
        scalar_bytes_and_dot(c);
        if c == '.' {
            assert(bytes[0] == DOT);
            assert(bytes.drop_first() =~= encode_utf8(rest));
            split_bytes_is_split_text(rest, Seq::empty());
            assert(encode_utf8(Seq::<char>::empty()) =~= Seq::<u8>::empty());
            assert(split_labels(bytes, held) =~= encoded_labels(split_text(chars, pending)));
        } else {
            split_labels_run(encode_scalar(c as u32), encode_utf8(rest), held);
            encode_utf8_push(pending, c);
            split_bytes_is_split_text(rest, pending.push(c));
        }
    }
}

/// Labels that were encoded read back as the text they were.
pub proof fn encoded_labels_text(labels: Seq<Seq<char>>)
    ensures
        dotted_text(encoded_labels(labels)) == dotted(labels),
    decreases labels.len(),
{
    if labels.len() > 0 {
        encode_utf8_valid_utf8(labels[0]);
        encode_utf8_decode_utf8(labels[0]);
        assert(label_text(encode_utf8(labels[0])) == labels[0]);
        encoded_labels_text(labels.drop_first());
        assert(encoded_labels(labels).drop_first() =~= encoded_labels(labels.drop_first()));
    } else {
        assert(encoded_labels(labels) =~= Seq::<Seq<u8>>::empty());
    }
}

/// A name that was written reads back as its normal form: where a name,
/// given as text, has a wire form of at most 255 bytes, reading that form
/// gives the name with each non-empty label followed by a dot, and leaves
/// whatever follows it.
pub proof fn name_text_round_trip(name: Seq<char>, tail: Seq<u8>, packet: Seq<u8>)
    requires
        name_wire(encode_utf8(name)) is Ok,
        name_wire(encode_utf8(name))->Ok_0.len() <= MAX_NAME_BODY + 1,
    ensures
        decode_name(name_wire(encode_utf8(name))->Ok_0 + tail, packet) == Ok::<
            (Seq<Seq<u8>>, Seq<u8>),
            DnsError,
        >((name_labels(encode_utf8(name)), tail)),
        dotted_text(name_labels(encode_utf8(name))) == normal_form(name),
{
    name_round_trip(encode_utf8(name), tail, packet);
    split_bytes_is_split_text(name, Seq::empty());
    assert(encode_utf8(Seq::<char>::empty()) =~= Seq::<u8>::empty());
    encoded_labels_text(split_text(name, Seq::empty()));
}

/// Characters without a dot among them all go to the pending label.
pub proof fn split_text_run(run: Seq<char>, rest: Seq<char>, pending: Seq<char>)
    requires
        forall|k: int| 0 <= k < run.len() ==> run[k] != '.',
    ensures
        split_text(run + rest, pending) == split_text(rest, pending + run),
    decreases run.len(),
{
    if run.len() == 0 {
        assert(run + rest =~= rest);
        assert(pending + run =~= pending);
    } else {
        let all = run + rest;
        assert(all[0] == run[0]);
        assert(all.drop_first() =~= run.drop_first() + rest);
        split_text_run(run.drop_first(), rest, pending.push(run[0]));
        assert(pending.push(run[0]) + run.drop_first() =~= pending + run);
    }
}

/// Every label holds a character and none holds a dot.
pub open spec fn proper_labels(labels: Seq<Seq<char>>) -> bool {
    forall|i: int|
        0 <= i < labels.len() ==> (#[trigger] labels[i]).len() >= 1 && forall|k: int|
            0 <= k < labels[i].len() ==> labels[i][k] != '.'
}

/// A name made of proper labels, each followed by a dot, has those labels
/// and is its own normal form: written and read back, it is unchanged.
pub proof fn dotted_name_is_normal(labels: Seq<Seq<char>>)
    requires
        proper_labels(labels),
    ensures
        split_text(dotted(labels), Seq::empty()) == labels,
        normal_form(dotted(labels)) == dotted(labels),
    decreases labels.len(),
{
    if labels.len() == 0 {
        assert(labels =~= Seq::<Seq<char>>::empty());
    } else {
        let first = labels[0];
        let rest = labels.drop_first();
        let after = seq!['.'] + dotted(rest);
        assert(forall|i: int| 0 <= i < rest.len() ==> rest[i] == labels[i + 1]);
        dotted_name_is_normal(rest);
        assert(dotted(labels) =~= first + after);
        split_text_run(first, after, Seq::empty());
        assert(Seq::<char>::empty() + first =~= first);
        assert(after[0] == '.');
        assert(after.drop_first() =~= dotted(rest));
        assert(seq![first] + rest =~= labels);
    }
}

/// The big-endian bytes of a 32-bit number give the number back.
pub proof fn be32_round_trip(v: u32)
    ensures
        be32(be32_bytes(v)[0], be32_bytes(v)[1], be32_bytes(v)[2], be32_bytes(v)[3]) == v,
{
    let b0 = v / 16777216;
    let b1 = (v / 65536) % 256;
    let b2 = (v / 256) % 256;
    let b3 = v % 256;
    assert(v / 256 == (v / 65536) * 256 + b2);
    assert(v / 65536 == b0 * 256 + b1);
}

/// A question that was encoded decodes to itself, its name in normal form:
/// where the name's wire form has at most 255 bytes, decoding the encoded
/// question gives the same type and class and leaves whatever follows it.
pub proof fn question_round_trip(q: QuestionView, tail: Seq<u8>, packet: Seq<u8>)
    requires
        question_wire(q) is Ok,
        name_wire(encode_utf8(q.qname))->Ok_0.len() <= MAX_NAME_BODY + 1,
    ensures
        parse_question(question_wire(q)->Ok_0 + tail, packet) == Ok::<
            (QuestionView, Seq<u8>),
            DnsError,
        >((QuestionView { qname: normal_form(q.qname), qtype: q.qtype, qclass: q.qclass }, tail)),
{
    let name = name_wire(encode_utf8(q.qname))->Ok_0;
    let fixed = be16_bytes(q.qtype) + be16_bytes(q.qclass);
    let rest = fixed + tail;
    name_text_round_trip(q.qname, rest, packet);
    assert(question_wire(q)->Ok_0 + tail =~= name + rest);
    be16_round_trip(q.qtype);
    be16_round_trip(q.qclass);
    assert(rest.skip(4) =~= tail);
}

/// A record that was encoded decodes to itself, its name in normal form:
/// where the record declares the length that its data has and the name's
/// wire form has at most 255 bytes, decoding the encoded record gives the
/// same fields and data and leaves whatever follows it.
pub proof fn answer_round_trip(a: AnswerView, tail: Seq<u8>, packet: Seq<u8>)
    requires
        a.well_formed(),
        answer_wire(a) is Ok,
        name_wire(encode_utf8(a.name))->Ok_0.len() <= MAX_NAME_BODY + 1,
    ensures
        parse_answer(answer_wire(a)->Ok_0 + tail, packet) == Ok::<(AnswerView, Seq<u8>), DnsError>(
            (
                AnswerView {
                    name: normal_form(a.name),
                    rtype: a.rtype,
                    rclass: a.rclass,
                    ttl: a.ttl,
                    rdlength: a.rdlength,
                    rdata: a.rdata,
                },
                tail,
            ),
        ),
{
    let name = name_wire(encode_utf8(a.name))->Ok_0;
    let fixed = be16_bytes(a.rtype) + be16_bytes(a.rclass) + be32_bytes(a.ttl) + be16_bytes(
        a.rdlength,
    );
    let rest = fixed + a.rdata + tail;
    name_text_round_trip(a.name, rest, packet);
    assert(answer_wire(a)->Ok_0 + tail =~= name + rest);
    be16_round_trip(a.rtype);
    be16_round_trip(a.rclass);
    be32_round_trip(a.ttl);
    be16_round_trip(a.rdlength);
    assert(fixed.len() == 10);
    assert(rest[4] == be32_bytes(a.ttl)[0] && rest[5] == be32_bytes(a.ttl)[1]);
    assert(rest[6] == be32_bytes(a.ttl)[2] && rest[7] == be32_bytes(a.ttl)[3]);
    assert(rest.subrange(10, 10 + a.rdlength) =~= a.rdata);
    assert(rest.skip(10 + a.rdlength) =~= tail);
}

} // verus!
