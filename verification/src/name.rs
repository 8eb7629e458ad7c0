//! Domain names on the wire: length-prefixed labels, a zero terminator, and
//! pointers back into the packet. Names are decompressed when read and are
//! always written in full.

use crate::error::DnsError;
use crate::wire::{cursor_at, get_u8, label_text, remaining, take_bytes, text_of, unread};
use bytes::Bytes;
use vstd::prelude::*;
use vstd::string::StringExecFns;
use vstd::utf8::encode_utf8;

verus! {

/// The most pointers that one name may follow.
pub const MAX_POINTER_HOPS: usize = 64;

/// The most bytes that the labels of one name may take on the wire, each
/// with its length byte; with the terminator a name has at most 255 bytes.
pub const MAX_NAME_BODY: usize = 254;

/// The longest label that can be written.
pub const MAX_LABEL_LEN: usize = 63;

/// The byte that separates labels in a dotted name.
pub const DOT: u8 = 46;

/// The offset that the two bytes of a pointer hold: the low six bits of the
/// first byte, then the second byte.
pub open spec fn pointer_target(b0: u8, b1: u8) -> usize
    recommends
        b0 >= 192,
{
    ((b0 - 192) * 256 + b1) as usize
}

/// The name that starts at the front of `cur`, as its labels in order, and
/// what is left of `cur` behind it.
///
/// A length byte of zero ends the name. A byte with its two top bits set
/// starts a pointer: the name goes on at that offset of `packet` and ends
/// there, and `cur` goes on behind the pointer's two bytes. Any other byte
/// is the length of a label that follows it. `seen` holds the offsets that
/// pointers have led to so far; a pointer to one of them, or one pointer too
/// many, is malformed. `room` is the number of wire bytes that labels may
/// still take.
pub open spec fn parse_name(cur: Seq<u8>, packet: Seq<u8>, seen: Seq<usize>, room: nat) -> Result<
    (Seq<Seq<u8>>, Seq<u8>),
    DnsError,
>
    decreases MAX_POINTER_HOPS - seen.len(), cur.len(),
{
    if cur.len() == 0 {
        Err(DnsError::TruncatedInput)
    } else if cur[0] == 0 {
        Ok((Seq::empty(), cur.skip(1)))
    } else if cur[0] >= 192 {
        if cur.len() < 2 {
            Err(DnsError::TruncatedInput)
        } else {
            let target = pointer_target(cur[0], cur[1]);
            if seen.contains(target) || seen.len() >= MAX_POINTER_HOPS {
                Err(DnsError::MalformedName)
            } else if target > packet.len() {
                Err(DnsError::TruncatedInput)
            } else {
                match parse_name(packet.skip(target as int), packet, seen.push(target), room) {
                    Ok((labels, _)) => Ok((labels, cur.skip(2))),
                    Err(e) => Err(e),
                }
            }
        }
    } else {
        let n = cur[0] as nat;
        if n + 1 > room {
            Err(DnsError::MalformedName)
        } else if cur.len() < 1 + n {
            Err(DnsError::TruncatedInput)
        } else {
            match parse_name(cur.skip(1 + n as int), packet, seen, (room - n - 1) as nat) {
                Ok((labels, rest)) => Ok((seq![cur.subrange(1, 1 + n as int)] + labels, rest)),
                Err(e) => Err(e),
            }
        }
    }
}

/// The name at the front of `cur`, read with no pointer followed yet and the
/// whole length of a name to spend.
pub open spec fn decode_name(cur: Seq<u8>, packet: Seq<u8>) -> Result<
    (Seq<Seq<u8>>, Seq<u8>),
    DnsError,
> {
    parse_name(cur, packet, Seq::empty(), MAX_NAME_BODY as nat)
}

/// The text of a decoded name: each label as text, each followed by a dot.
pub open spec fn dotted_text(labels: Seq<Seq<u8>>) -> Seq<char>
    decreases labels.len(),
{
    if labels.len() == 0 {
        Seq::empty()
    } else {
        label_text(labels[0]) + seq!['.'] + dotted_text(labels.drop_first())
    }
}

/// The labels of a dotted name, given as its bytes: the runs between dots,
/// empty runs left out. `pending` is the run that was begun before `bytes`.
pub open spec fn split_labels(bytes: Seq<u8>, pending: Seq<u8>) -> Seq<Seq<u8>>
    decreases bytes.len(),
{
    if bytes.len() == 0 {
        if pending.len() == 0 {
            Seq::empty()
        } else {
            seq![pending]
        }
    } else if bytes[0] == DOT {
        if pending.len() == 0 {
            split_labels(bytes.drop_first(), Seq::empty())
        } else {
            seq![pending] + split_labels(bytes.drop_first(), Seq::empty())
        }
    } else {
        split_labels(bytes.drop_first(), pending.push(bytes[0]))
    }
}

/// The labels of a dotted name.
pub open spec fn name_labels(bytes: Seq<u8>) -> Seq<Seq<u8>> {
    split_labels(bytes, Seq::empty())
}

/// No label is longer than a length byte of a label can say.
pub open spec fn labels_fit(labels: Seq<Seq<u8>>) -> bool {
    forall|i: int| 0 <= i < labels.len() ==> (#[trigger] labels[i]).len() <= MAX_LABEL_LEN
}

/// One label on the wire: its length, then its bytes.
pub open spec fn label_wire(label: Seq<u8>) -> Seq<u8> {
    seq![label.len() as u8] + label
}

/// The labels on the wire, one after the other, without a terminator.
pub open spec fn labels_body(labels: Seq<Seq<u8>>) -> Seq<u8>
    decreases labels.len(),
{
    if labels.len() == 0 {
        Seq::empty()
    } else {
        label_wire(labels[0]) + labels_body(labels.drop_first())
    }
}

/// A whole name on the wire: its labels, then the zero terminator.
pub open spec fn labels_wire(labels: Seq<Seq<u8>>) -> Seq<u8> {
    labels_body(labels) + seq![0u8]
}

/// The wire form of a dotted name given as its bytes, or `InvalidLabel`
/// where one of its labels is longer than 63 bytes.
pub open spec fn name_wire(bytes: Seq<u8>) -> Result<Seq<u8>, DnsError> {
    if labels_fit(name_labels(bytes)) {
        Ok(labels_wire(name_labels(bytes)))
    } else {
        Err(DnsError::InvalidLabel)
    }
}

/// Appending a label to a list appends its wire form to the list's.
pub proof fn labels_body_push(labels: Seq<Seq<u8>>, label: Seq<u8>)
    ensures
        labels_body(labels.push(label)) == labels_body(labels) + label_wire(label),
    decreases labels.len(),
{
    if labels.len() == 0 {
        assert(labels.push(label).drop_first() =~= Seq::<Seq<u8>>::empty());
        assert(labels.push(label)[0] == label);
        assert(labels_body(labels.push(label).drop_first()) =~= Seq::<u8>::empty());
        assert(labels_body(labels.push(label)) =~= label_wire(label));
        assert(labels_body(labels) + label_wire(label) =~= label_wire(label));
    } else {
        labels_body_push(labels.drop_first(), label);
        assert(labels.push(label).drop_first() =~= labels.drop_first().push(label));
        assert(labels.push(label)[0] == labels[0]);
        assert(labels_body(labels.push(label)) =~= labels_body(labels) + label_wire(label));
    }
}

/// Every label holds at least one byte and at most 63.
pub open spec fn plain_labels(labels: Seq<Seq<u8>>) -> bool {
    forall|i: int| 0 <= i < labels.len() ==> 1 <= (#[trigger] labels[i]).len() <= MAX_LABEL_LEN
}

/// Labels written in full are read back as they were: for labels of 1 to 63
/// bytes whose wire form fits in `room`, reading their wire form gives the
/// same labels and leaves whatever follows the terminator, wherever the
/// name stands and whichever pointers were followed before.
pub proof fn labels_round_trip(
    labels: Seq<Seq<u8>>,
    tail: Seq<u8>,
    packet: Seq<u8>,
    seen: Seq<usize>,
    room: nat,
)
    requires
        plain_labels(labels),
        labels_body(labels).len() <= room,
    ensures
        parse_name(labels_wire(labels) + tail, packet, seen, room) == Ok::<
            (Seq<Seq<u8>>, Seq<u8>),
            DnsError,
        >((labels, tail)),
    decreases labels.len(),
{
    let cur = labels_wire(labels) + tail;
    if labels.len() == 0 {
        assert(cur[0] == 0);
        assert(cur.skip(1) =~= tail);
        assert(labels =~= Seq::<Seq<u8>>::empty());
    } else {
        let first = labels[0];
        let rest = labels.drop_first();
        let n = first.len();
        assert(cur[0] == n as u8);
        assert(cur.subrange(1, 1 + n as int) =~= first);
        assert(cur.skip(1 + n as int) =~= labels_wire(rest) + tail);
        assert(forall|i: int| 0 <= i < rest.len() ==> rest[i] == labels[i + 1]);
        labels_round_trip(rest, tail, packet, seen, (room - n - 1) as nat);
        assert(seq![first] + rest =~= labels);
    }
}

/// The labels of a dotted name are never empty.
pub proof fn split_labels_not_empty(bytes: Seq<u8>, pending: Seq<u8>)
    ensures
        forall|i: int|
            0 <= i < split_labels(bytes, pending).len() ==> (#[trigger] split_labels(
                bytes,
                pending,
            )[i]).len() >= 1,
    decreases bytes.len(),
{
    if bytes.len() > 0 {
        if bytes[0] == DOT {
            split_labels_not_empty(bytes.drop_first(), Seq::empty());
        } else {
            split_labels_not_empty(bytes.drop_first(), pending.push(bytes[0]));
        }
    }
    let all = split_labels(bytes, pending);
    assert forall|i: int| 0 <= i < all.len() implies (#[trigger] all[i]).len() >= 1 by {
        if bytes.len() == 0 {
            assert(all[i] == pending);
        } else if bytes[0] == DOT {
            let more = split_labels(bytes.drop_first(), Seq::empty());
            if pending.len() == 0 {
                assert(all[i] == more[i]);
            } else if i > 0 {
                assert(all[i] == more[i - 1]);
            }
        } else {
            let more = split_labels(bytes.drop_first(), pending.push(bytes[0]));
            assert(all[i] == more[i]);
        }
    }
}

/// A name that was written is read back label by label: where a dotted name
/// has a wire form of at most 255 bytes, reading that form gives the labels
/// of the name and leaves whatever follows it.
pub proof fn name_round_trip(name: Seq<u8>, tail: Seq<u8>, packet: Seq<u8>)
    requires
        name_wire(name) is Ok,
        name_wire(name)->Ok_0.len() <= MAX_NAME_BODY + 1,
    ensures
        decode_name(name_wire(name)->Ok_0 + tail, packet) == Ok::<
            (Seq<Seq<u8>>, Seq<u8>),
            DnsError,
        >((name_labels(name), tail)),
{
    split_labels_not_empty(name, Seq::empty());
    labels_round_trip(name_labels(name), tail, packet, Seq::empty(), MAX_NAME_BODY as nat);
}

/// A pointer to an offset that a pointer has led to before is malformed,
/// whatever stands at that offset.
pub proof fn revisited_offset_is_malformed(
    cur: Seq<u8>,
    packet: Seq<u8>,
    seen: Seq<usize>,
    room: nat,
)
    requires
        cur.len() >= 2,
        cur[0] >= 192,
        seen.contains(pointer_target(cur[0], cur[1])),
    ensures
        parse_name(cur, packet, seen, room) == Err::<(Seq<Seq<u8>>, Seq<u8>), DnsError>(
            DnsError::MalformedName,
        ),
{
}

/// Reading the name at the front of `cur` comes, before anything else goes
/// wrong, to a pointer whose offset a pointer has led to before: an offset
/// in `seen`, or one that the name itself has followed on its way.
pub open spec fn revisits(cur: Seq<u8>, packet: Seq<u8>, seen: Seq<usize>, room: nat) -> bool
    decreases MAX_POINTER_HOPS - seen.len(), cur.len(),
{
    if cur.len() == 0 || cur[0] == 0 {
        false
    } else if cur[0] >= 192 {
        cur.len() >= 2 && {
            let target = pointer_target(cur[0], cur[1]);
            seen.contains(target) || (seen.len() < MAX_POINTER_HOPS && target <= packet.len()
                && revisits(packet.skip(target as int), packet, seen.push(target), room))
        }
    } else {
        let n = cur[0] as nat;
        n + 1 <= room && cur.len() >= 1 + n && revisits(
            cur.skip(1 + n as int),
            packet,
            seen,
            (room - n - 1) as nat,
        )
    }
}

/// A name whose chain of pointers comes back to an offset it has already
/// visited is malformed, however long the way round.
pub proof fn pointer_cycle_is_malformed(
    cur: Seq<u8>,
    packet: Seq<u8>,
    seen: Seq<usize>,
    room: nat,
)
    requires
        revisits(cur, packet, seen, room),
    ensures
        parse_name(cur, packet, seen, room) == Err::<(Seq<Seq<u8>>, Seq<u8>), DnsError>(
            DnsError::MalformedName,
        ),
    decreases MAX_POINTER_HOPS - seen.len(), cur.len(),
{
    if cur[0] >= 192 {
        let target = pointer_target(cur[0], cur[1]);
        if !seen.contains(target) {
            pointer_cycle_is_malformed(packet.skip(target as int), packet, seen.push(target), room);
        }
    } else {
        let n = cur[0] as nat;
        pointer_cycle_is_malformed(cur.skip(1 + n as int), packet, seen, (room - n - 1) as nat);
    }
}

/// A pointer that leads to itself is a cycle: where the two bytes at offset
/// `at` of the packet are a pointer to `at`, a name that reaches a pointer
/// to `at` fails as malformed.
pub proof fn pointer_to_itself_is_malformed(
    cur: Seq<u8>,
    packet: Seq<u8>,
    seen: Seq<usize>,
    room: nat,
    at: usize,
)
    requires
        cur.len() >= 2,
        cur[0] >= 192,
        pointer_target(cur[0], cur[1]) == at,
        at + 2 <= packet.len(),
        packet[at as int] >= 192,
        pointer_target(packet[at as int], packet[at + 1]) == at,
    ensures
        parse_name(cur, packet, seen, room) == Err::<(Seq<Seq<u8>>, Seq<u8>), DnsError>(
            DnsError::MalformedName,
        ),
{
    if !seen.contains(at) && seen.len() < MAX_POINTER_HOPS {
        let inner = packet.skip(at as int);
        assert(inner[0] == packet[at as int] && inner[1] == packet[at + 1]);
        assert(seen.push(at)[seen.len() as int] == at);
        revisited_offset_is_malformed(inner, packet, seen.push(at), room);
    }
}

/// Whether `target` is among the offsets in `seen`.
fn has_offset(seen: &Vec<usize>, target: usize) -> (found: bool)
    ensures
        found == seen@.contains(target),
{
    let mut i: usize = 0;
    while i < seen.len()
        invariant
            i <= seen@.len(),
            forall|j: int| 0 <= j < i ==> seen@[j] != target,
        decreases seen@.len() - i,
    {
        if seen[i] == target {
            return true;
        }
        i += 1;
    }
    false
}

/// Reads the name at the front of `buf`, following pointers into `packet`.
/// On failure the cursor is left wherever the read stopped.
pub(crate) fn read_name(buf: &mut Bytes, packet: &[u8], seen: Vec<usize>, room: usize) -> (r:
    Result<String, DnsError>)
    ensures
        match parse_name(unread(*old(buf)), packet@, seen@, room as nat) {
            Ok((labels, rest)) => r is Ok && r->Ok_0@ == dotted_text(labels) && unread(
                *final(buf),
            ) == rest,
            Err(e) => r is Err && r->Err_0 == e,
        },
    decreases MAX_POINTER_HOPS - seen@.len(), unread(*old(buf)).len(),
{
    if remaining(buf) < 1 {
        return Err(DnsError::TruncatedInput);
    }
    let len = get_u8(buf);
    if len == 0 {
        return Ok(String::new());
    }
    if len >= 192 {
        if remaining(buf) < 1 {
            return Err(DnsError::TruncatedInput);
        }
        let low = get_u8(buf);
        let target: usize = (len - 192) as usize * 256 + low as usize;
        if has_offset(&seen, target) || seen.len() >= MAX_POINTER_HOPS {
            return Err(DnsError::MalformedName);
        }
        if target > packet.len() {
            return Err(DnsError::TruncatedInput);
        }
        let mut sub = cursor_at(packet, target);
        let mut trail = seen;
        trail.push(target);
        assert(unread(*buf) == unread(*old(buf)).skip(2));
        return read_name(&mut sub, packet, trail, room);
    }
    let n = len as usize;
    if n + 1 > room {
        return Err(DnsError::MalformedName);
    }
    if remaining(buf) < n {
        return Err(DnsError::TruncatedInput);
    }
    let label = take_bytes(buf, n);
    let ghost first = unread(*old(buf)).subrange(1, 1 + n as int);
    assert(label@ == first);
    assert(unread(*buf) == unread(*old(buf)).skip(1 + n as int));
    match read_name(buf, packet, seen, room - n - 1) {
        Err(e) => Err(e),
        Ok(tail) => {
            let mut name = text_of(label.as_slice());
            proof {
                reveal_strlit(".");
            }
            name.append(".");
            name.append(tail.as_str());
            proof {
                let rest = parse_name(
                    unread(*old(buf)).skip(1 + n as int),
                    packet@,
                    seen@,
                    (room - n - 1) as nat,
                )->Ok_0.0;
                assert((seq![first] + rest).drop_first() =~= rest);
                assert("."@ =~= seq!['.']);
            }
            Ok(name)
        },
    }
}

/// Hands the pending label over to `out` with its length byte, if it is
/// short enough for one.
fn put_label(out: &mut Vec<u8>, label: &mut Vec<u8>) -> (fits: bool)
    ensures
        fits == (old(label)@.len() <= MAX_LABEL_LEN),
        fits ==> final(out)@ == old(out)@ + label_wire(old(label)@) && final(label)@
            == Seq::<u8>::empty(),
        !fits ==> final(out)@ == old(out)@ && final(label)@ == old(label)@,
{
    if label.len() > MAX_LABEL_LEN {
        return false;
    }
    out.push(label.len() as u8);
    out.append(label);
    assert(out@ =~= old(out)@ + label_wire(old(label)@));
    true
}

/// Writes a dotted name in full: each non-empty label with its length in
/// front, then the zero terminator.
pub(crate) fn write_name(qname: &str) -> (r: Result<Vec<u8>, DnsError>)
    ensures
        match name_wire(encode_utf8(qname@)) {
            Ok(wire) => r is Ok && r->Ok_0@ == wire,
            Err(e) => r is Err && r->Err_0 == e,
        },
{
    let bytes = qname.as_bytes();
    let mut out: Vec<u8> = Vec::new();
    let mut label: Vec<u8> = Vec::new();
    let ghost mut done: Seq<Seq<u8>> = Seq::empty();
    let mut i: usize = 0;
    assert(bytes@.skip(0) =~= bytes@);
    while i < bytes.len()
        invariant
            i <= bytes@.len(),
            bytes@ == encode_utf8(qname@),
            labels_fit(done),
            out@ == labels_body(done),
            name_labels(bytes@) == done + split_labels(bytes@.skip(i as int), label@),
        decreases bytes@.len() - i,
    {
        let b = bytes[i];
        let ghost old_label = label@;
        proof {
            assert(bytes@.skip(i as int).drop_first() =~= bytes@.skip(i + 1));
            assert(bytes@.skip(i as int)[0] == b);
        }
        if b == DOT {
            if label.len() > 0 {
                let ghost run = label@;
                let ghost more = split_labels(bytes@.skip(i + 1), Seq::empty());
                assert(name_labels(bytes@) =~= done.push(run) + more);
                if !put_label(&mut out, &mut label) {
                    assert(name_labels(bytes@)[done.len() as int] == run);
                    return Err(DnsError::InvalidLabel);
                }
                proof {
                    labels_body_push(done, run);
                    done = done.push(run);
                }
            } else {
                assert(label@ =~= Seq::<u8>::empty());
            }
        } else {
            label.push(b);
            assert(split_labels(bytes@.skip(i as int), old_label) == split_labels(
                bytes@.skip(i + 1),
                label@,
            ));
        }
        i += 1;
    }
    if label.len() > 0 {
        let ghost run = label@;
        assert(name_labels(bytes@) =~= done.push(run));
        if !put_label(&mut out, &mut label) {
            assert(name_labels(bytes@)[done.len() as int] == run);
            return Err(DnsError::InvalidLabel);
        }
        proof {
            labels_body_push(done, run);
            done = done.push(run);
        }
    } else {
        assert(name_labels(bytes@) =~= done);
    }
    out.push(0);
    Ok(out)
}

} // verus!
