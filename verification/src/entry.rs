//! Spool entries and their persisted form: a metadata header followed by
//! the body.
//!
//! An entry is written as a four-byte mark, the identifier, the due time
//! and the attempt count as little-endian integers, one byte for the class
//! of the last failure, the sender and the recipient as length-prefixed
//! UTF-8, one byte that says whether a route follows, the route if there is
//! one, and the length-prefixed body. Decoding accepts exactly the byte
//! sequences that encoding produces.

use crate::record::{Envelope, EnvelopeView, FailureClass, MessageRecord, RecordState, RecordView};
use vstd::bytes::{
    lemma_auto_spec_u32_to_from_le_bytes, lemma_auto_spec_u64_to_from_le_bytes,
    spec_u32_from_le_bytes, spec_u32_to_le_bytes, spec_u64_from_le_bytes, spec_u64_to_le_bytes,
    spec_u64_to_le_bytes_open, spec_u64_to_le_bytes_to_open, u32_from_le_bytes, u32_to_le_bytes,
    u64_from_le_bytes, u64_to_le_bytes,
};
use vstd::prelude::*;
use vstd::utf8::{
    decode_utf8, decode_utf8_encode_utf8, encode_utf8, encode_utf8_decode_utf8,
    encode_utf8_valid_utf8, valid_utf8,
};

verus! {

/// One entry of the spool: a record and its body.
#[derive(Debug)]
pub struct SpoolEntry {
    pub record: MessageRecord,
    pub body: Vec<u8>,
}

/// An entry as plain values.
pub struct EntryView {
    pub record: RecordView,
    pub body: Seq<u8>,
}

impl View for SpoolEntry {
    type V = EntryView;

    open spec fn view(&self) -> EntryView {
        EntryView { record: self.record@, body: self.body@ }
    }
}

/// The views of a sequence of entries.
pub open spec fn entry_views(entries: Seq<SpoolEntry>) -> Seq<EntryView> {
    entries.map_values(|e: SpoolEntry| e@)
}

/// Copies a sequence of bytes.
pub fn copy_bytes(bytes: &Vec<u8>) -> (copy: Vec<u8>)
    ensures
        copy@ == bytes@,
{
    let n: usize = bytes.len();
    let mut copy: Vec<u8> = Vec::with_capacity(n);
    let mut i: usize = 0;
    while i < n
        invariant
            n == bytes.len(),
            i <= n,
            copy@ == bytes@.subrange(0, i as int),
        decreases n - i,
    {
        copy.push(bytes[i]);
        i = i + 1;
        proof {
            assert(copy@ =~= bytes@.subrange(0, i as int));
        }
    }
    proof {
        assert(bytes@.subrange(0, n as int) =~= bytes@);
    }
    copy
}

impl SpoolEntry {
    /// A copy of the entry.
    pub fn duplicate(&self) -> (copy: Self)
        ensures
            copy@ == self@,
    {
        SpoolEntry { record: self.record.duplicate(), body: copy_bytes(&self.body) }
    }
}

/// The mark at the start of every encoded entry.
pub open spec fn mark() -> Seq<u8> {
    seq![0x4bu8, 0x53u8, 0x50u8, 0x31u8]
}

/// The byte that stands for the class of the last failure.
pub open spec fn tag_of(last_error: Option<FailureClass>) -> u8 {
    match last_error {
        None => 0,
        Some(FailureClass::Transient) => 1,
        Some(FailureClass::Permanent) => 2,
    }
}

/// The class of the last failure that a byte stands for, if it stands for
/// one.
pub open spec fn error_of(tag: u8) -> Option<Option<FailureClass>> {
    if tag == 0 {
        Some(None)
    } else if tag == 1 {
        Some(Some(FailureClass::Transient))
    } else if tag == 2 {
        Some(Some(FailureClass::Permanent))
    } else {
        None
    }
}

/// A sequence of bytes behind its length.
pub open spec fn field(bytes: Seq<u8>) -> Seq<u8> {
    spec_u64_to_le_bytes(bytes.len() as u64) + bytes
}

/// The encoded route: a zero byte for none, else a one byte and the text.
pub open spec fn route_part(route: Option<Seq<char>>) -> Seq<u8> {
    match route {
        Some(r) => seq![1u8] + field(encode_utf8(r)),
        None => seq![0u8],
    }
}

/// The encoded envelope, followed by `rest`.
pub open spec fn envelope_part(envelope: EnvelopeView, rest: Seq<u8>) -> Seq<u8> {
    field(encode_utf8(envelope.sender)) + (field(encode_utf8(envelope.recipient)) + (route_part(
        envelope.route,
    ) + rest))
}

/// The encoded retry state and identifier, followed by `rest`.
pub open spec fn head_part(record: RecordView, rest: Seq<u8>) -> Seq<u8> {
    spec_u64_to_le_bytes(record.id) + (spec_u64_to_le_bytes(record.due) + (spec_u32_to_le_bytes(
        record.attempts,
    ) + (seq![tag_of(record.last_error)] + rest)))
}

/// The bytes that stand for an entry.
pub open spec fn encoded(entry: EntryView) -> Seq<u8> {
    mark() + head_part(entry.record, envelope_part(entry.record.envelope, field(entry.body)))
}

/// Whether every length of an entry fits its prefix.
pub open spec fn fits(entry: EntryView) -> bool {
    &&& encode_utf8(entry.record.envelope.sender).len() <= u64::MAX
    &&& encode_utf8(entry.record.envelope.recipient).len() <= u64::MAX
    &&& entry.record.envelope.route matches Some(r) ==> encode_utf8(r).len() <= u64::MAX
    &&& entry.body.len() <= u64::MAX
}

/// An entry as it is read back: not in flight, and with its identifier as
/// the handle of its body. Neither is written.
pub open spec fn as_stored(entry: EntryView) -> EntryView {
    EntryView {
        record: RecordView {
            body_ref: entry.record.id,
            state: RecordState::Queued,
            ..entry.record
        },
        ..entry
    }
}

/// Whether an entry is read back as it was written: every length fits its
/// prefix, and the record is as the spool stores it.
pub open spec fn encodable(entry: EntryView) -> bool {
    fits(entry) && as_stored(entry) == entry
}

/// Reads one byte.
pub open spec fn read_byte(s: Seq<u8>) -> Option<(u8, Seq<u8>)> {
    if s.len() >= 1 {
        Some((s[0], s.subrange(1, s.len() as int)))
    } else {
        None
    }
}

/// Reads a little-endian integer of four bytes.
pub open spec fn read_u32(s: Seq<u8>) -> Option<(u32, Seq<u8>)> {
    if s.len() >= 4 {
        Some((spec_u32_from_le_bytes(s.subrange(0, 4)), s.subrange(4, s.len() as int)))
    } else {
        None
    }
}

/// Reads a little-endian integer of eight bytes.
pub open spec fn read_u64(s: Seq<u8>) -> Option<(u64, Seq<u8>)> {
    if s.len() >= 8 {
        Some((spec_u64_from_le_bytes(s.subrange(0, 8)), s.subrange(8, s.len() as int)))
    } else {
        None
    }
}

/// Reads a length and as many bytes.
pub open spec fn read_field(s: Seq<u8>) -> Option<(Seq<u8>, Seq<u8>)> {
    match read_u64(s) {
        Some((n, rest)) => if n <= rest.len() {
            Some((rest.subrange(0, n as int), rest.subrange(n as int, rest.len() as int)))
        } else {
            None
        },
        None => None,
    }
}

/// Reads a length-prefixed text, which must be valid UTF-8.
pub open spec fn read_text(s: Seq<u8>) -> Option<(Seq<char>, Seq<u8>)> {
    match read_field(s) {
        Some((bytes, rest)) => if valid_utf8(bytes) {
            Some((decode_utf8(bytes), rest))
        } else {
            None
        },
        None => None,
    }
}

/// Reads a route.
pub open spec fn read_route(s: Seq<u8>) -> Option<(Option<Seq<char>>, Seq<u8>)> {
    match read_byte(s) {
        Some((flag, rest)) => if flag == 0 {
            Some((None, rest))
        } else if flag == 1 {
            match read_text(rest) {
                Some((text, after)) => Some((Some(text), after)),
                None => None,
            }
        } else {
            None
        },
        None => None,
    }
}

/// Reads an envelope.
pub open spec fn read_envelope(s: Seq<u8>) -> Option<(EnvelopeView, Seq<u8>)> {
    match read_text(s) {
        Some((sender, s1)) => match read_text(s1) {
            Some((recipient, s2)) => match read_route(s2) {
                Some((route, s3)) => Some((EnvelopeView { sender, recipient, route }, s3)),
                None => None,
            },
            None => None,
        },
        None => None,
    }
}

/// The identifier and retry state at the head of an entry.
pub struct Head {
    pub id: u64,
    pub due: u64,
    pub attempts: u32,
    pub last_error: Option<FailureClass>,
}

/// Reads the identifier and the retry state.
pub open spec fn read_head(s: Seq<u8>) -> Option<(Head, Seq<u8>)> {
    match read_u64(s) {
        Some((id, s1)) => match read_u64(s1) {
            Some((due, s2)) => match read_u32(s2) {
                Some((attempts, s3)) => match read_byte(s3) {
                    Some((tag, s4)) => match error_of(tag) {
                        Some(last_error) => Some((Head { id, due, attempts, last_error }, s4)),
                        None => None,
                    },
                    None => None,
                },
                None => None,
            },
            None => None,
        },
        None => None,
    }
}

/// Reads what follows the mark: head, envelope and body, and nothing more.
pub open spec fn read_entry(s: Seq<u8>) -> Option<EntryView> {
    match read_head(s) {
        Some((head, s1)) => match read_envelope(s1) {
            Some((envelope, s2)) => match read_field(s2) {
                Some((body, s3)) => if s3.len() == 0 {
                    Some(
                        EntryView {
                            record: RecordView {
                                id: head.id,
                                envelope,
                                body_ref: head.id,
                                due: head.due,
                                attempts: head.attempts,
                                last_error: head.last_error,
                                state: RecordState::Queued,
                            },
                            body,
                        },
                    )
                } else {
                    None
                },
                None => None,
            },
            None => None,
        },
        None => None,
    }
}

/// The entry that a sequence of bytes stands for, if it stands for one.
pub open spec fn decoded(bytes: Seq<u8>) -> Option<EntryView> {
    if bytes.len() < 4 || bytes.subrange(0, 4) != mark() {
        None
    } else {
        read_entry(bytes.subrange(4, bytes.len() as int))
    }
}

/// A byte in front of a sequence is read back as that byte and that
/// sequence, and what one byte was read from is the byte in front of the
/// rest.
pub proof fn lemma_read_byte(b: u8, rest: Seq<u8>, s: Seq<u8>)
    ensures
        read_byte(seq![b] + rest) == Some((b, rest)),
        read_byte(s) matches Some((x, after)) ==> s == seq![x] + after,
{
    let t = seq![b] + rest;
    assert(t.subrange(1, t.len() as int) =~= rest);
    if s.len() >= 1 {
        assert(s =~= seq![s[0]] + s.subrange(1, s.len() as int));
    }
}

/// An integer of four bytes in front of a sequence is read back as that
/// integer and that sequence, and conversely.
pub proof fn lemma_read_u32(v: u32, rest: Seq<u8>, s: Seq<u8>)
    ensures
        read_u32(spec_u32_to_le_bytes(v) + rest) == Some((v, rest)),
        read_u32(s) matches Some((x, after)) ==> s == spec_u32_to_le_bytes(x) + after,
{
    lemma_auto_spec_u32_to_from_le_bytes();
    let t = spec_u32_to_le_bytes(v) + rest;
    assert(t.subrange(0, 4) =~= spec_u32_to_le_bytes(v));
    assert(t.subrange(4, t.len() as int) =~= rest);
    if s.len() >= 4 {
        let front = s.subrange(0, 4);
        assert(spec_u32_to_le_bytes(spec_u32_from_le_bytes(front)) == front);
        assert(s =~= front + s.subrange(4, s.len() as int));
    }
}

/// An integer of eight bytes in front of a sequence is read back as that
/// integer and that sequence, and conversely.
pub proof fn lemma_read_u64(v: u64, rest: Seq<u8>, s: Seq<u8>)
    ensures
        read_u64(spec_u64_to_le_bytes(v) + rest) == Some((v, rest)),
        read_u64(s) matches Some((x, after)) ==> s == spec_u64_to_le_bytes(x) + after,
{
    lemma_auto_spec_u64_to_from_le_bytes();
    let t = spec_u64_to_le_bytes(v) + rest;
    assert(t.subrange(0, 8) =~= spec_u64_to_le_bytes(v));
    assert(t.subrange(8, t.len() as int) =~= rest);
    if s.len() >= 8 {
        let front = s.subrange(0, 8);
        assert(spec_u64_to_le_bytes(spec_u64_from_le_bytes(front)) == front);
        assert(s =~= front + s.subrange(8, s.len() as int));
    }
}

/// A field in front of a sequence is read back as its bytes and that
/// sequence, and conversely.
pub proof fn lemma_read_field(bytes: Seq<u8>, rest: Seq<u8>, s: Seq<u8>)
    ensures
        bytes.len() <= u64::MAX ==> read_field(field(bytes) + rest) == Some((bytes, rest)),
        read_field(s) matches Some((x, after)) ==> s == field(x) + after && x.len() <= u64::MAX,
{
    if bytes.len() <= u64::MAX {
        let n = bytes.len() as u64;
        let t = field(bytes) + rest;
        assert(t =~= spec_u64_to_le_bytes(n) + (bytes + rest));
        lemma_read_u64(n, bytes + rest, t);
        let tail = bytes + rest;
        assert(tail.subrange(0, n as int) =~= bytes);
        assert(tail.subrange(n as int, tail.len() as int) =~= rest);
    }
    if let Some((n, tail)) = read_u64(s) {
        lemma_read_u64(n, tail, s);
        if n <= tail.len() {
            let x = tail.subrange(0, n as int);
            let after = tail.subrange(n as int, tail.len() as int);
            assert(tail =~= x + after);
            assert(s =~= field(x) + after);
        }
    }
}

/// A text in front of a sequence is read back as that text and that
/// sequence, and conversely.
pub proof fn lemma_read_text(text: Seq<char>, rest: Seq<u8>, s: Seq<u8>)
    ensures
        encode_utf8(text).len() <= u64::MAX ==> read_text(field(encode_utf8(text)) + rest) == Some(
            (text, rest),
        ),
        read_text(s) matches Some((x, after)) ==> s == field(encode_utf8(x)) + after
            && encode_utf8(x).len() <= u64::MAX,
{
    encode_utf8_valid_utf8(text);
    encode_utf8_decode_utf8(text);
    lemma_read_field(encode_utf8(text), rest, s);
    if let Some((bytes, after)) = read_field(s) {
        if valid_utf8(bytes) {
            decode_utf8_encode_utf8(bytes);
        }
    }
}

/// A route in front of a sequence is read back as that route and that
/// sequence, and conversely.
pub proof fn lemma_read_route(route: Option<Seq<char>>, rest: Seq<u8>, s: Seq<u8>)
    ensures
        (route matches Some(r) ==> encode_utf8(r).len() <= u64::MAX) ==> read_route(
            route_part(route) + rest,
        ) == Some((route, rest)),
        read_route(s) matches Some((x, after)) ==> s == route_part(x) + after && (x matches Some(r)
            ==> encode_utf8(r).len() <= u64::MAX),
{
    match route {
        Some(r) => {
            if encode_utf8(r).len() <= u64::MAX {
                let t = route_part(route) + rest;
                assert(t =~= seq![1u8] + (field(encode_utf8(r)) + rest));
                lemma_read_byte(1u8, field(encode_utf8(r)) + rest, t);
                lemma_read_text(r, rest, t);
            }
        },
        None => {
            lemma_read_byte(0u8, rest, s);
        },
    }
    if let Some((flag, tail)) = read_byte(s) {
        lemma_read_byte(flag, tail, s);
        if flag == 1 {
            if let Some((text, after)) = read_text(tail) {
                lemma_read_text(text, after, tail);
                assert(s =~= route_part(Some(text)) + after);
            }
        }
    }
}

/// An envelope in front of a sequence is read back as that envelope and
/// that sequence, and conversely.
pub proof fn lemma_read_envelope(envelope: EnvelopeView, rest: Seq<u8>, s: Seq<u8>)
    ensures
        encode_utf8(envelope.sender).len() <= u64::MAX && encode_utf8(envelope.recipient).len()
            <= u64::MAX && (envelope.route matches Some(r) ==> encode_utf8(r).len() <= u64::MAX)
            ==> read_envelope(envelope_part(envelope, rest)) == Some((envelope, rest)),
        read_envelope(s) matches Some((x, after)) ==> s == envelope_part(x, after) && encode_utf8(
            x.sender,
        ).len() <= u64::MAX && encode_utf8(x.recipient).len() <= u64::MAX && (x.route matches Some(
            r,
        ) ==> encode_utf8(r).len() <= u64::MAX),
{
    let t2 = route_part(envelope.route) + rest;
    let t1 = field(encode_utf8(envelope.recipient)) + t2;
    lemma_read_text(envelope.sender, t1, s);
    lemma_read_text(envelope.recipient, t2, s);
    lemma_read_route(envelope.route, rest, s);
    if let Some((sender, s1)) = read_text(s) {
        lemma_read_text(sender, s1, s);
        if let Some((recipient, s2)) = read_text(s1) {
            lemma_read_text(recipient, s2, s1);
            if let Some((route, s3)) = read_route(s2) {
                lemma_read_route(route, s3, s2);
            }
        }
    }
}

/// A head in front of a sequence is read back as that head and that
/// sequence, and conversely.
pub proof fn lemma_read_head(record: RecordView, rest: Seq<u8>, s: Seq<u8>)
    ensures
        read_head(head_part(record, rest)) == Some(
            (
                Head {
                    id: record.id,
                    due: record.due,
                    attempts: record.attempts,
                    last_error: record.last_error,
                },
                rest,
            ),
        ),
        read_head(s) matches Some((h, after)) ==> s == head_part(
            RecordView {
                id: h.id,
                due: h.due,
                attempts: h.attempts,
                last_error: h.last_error,
                ..record
            },
            after,
        ),
{
    let t3 = seq![tag_of(record.last_error)] + rest;
    let t2 = spec_u32_to_le_bytes(record.attempts) + t3;
    let t1 = spec_u64_to_le_bytes(record.due) + t2;
    lemma_read_u64(record.id, t1, s);
    lemma_read_u64(record.due, t2, s);
    lemma_read_u32(record.attempts, t3, s);
    lemma_read_byte(tag_of(record.last_error), rest, s);
    if let Some((id, s1)) = read_u64(s) {
        lemma_read_u64(id, s1, s);
        if let Some((due, s2)) = read_u64(s1) {
            lemma_read_u64(due, s2, s1);
            if let Some((attempts, s3)) = read_u32(s2) {
                lemma_read_u32(attempts, s3, s2);
                if let Some((tag, s4)) = read_byte(s3) {
                    lemma_read_byte(tag, s4, s3);
                }
            }
        }
    }
}

/// What follows a head may be appended to the head written alone, and
/// likewise for an envelope.
pub proof fn lemma_parts_append(record: RecordView, rest: Seq<u8>)
    ensures
        head_part(record, rest) == head_part(record, Seq::<u8>::empty()) + rest,
        envelope_part(record.envelope, rest) == envelope_part(
            record.envelope,
            Seq::<u8>::empty(),
        ) + rest,
{
    assert(head_part(record, rest) =~= head_part(record, Seq::<u8>::empty()) + rest);
    assert(envelope_part(record.envelope, rest) =~= envelope_part(
        record.envelope,
        Seq::<u8>::empty(),
    ) + rest);
}

/// Decoding undoes encoding: the bytes of an entry stand for that entry.
pub proof fn lemma_decode_encode(entry: EntryView)
    requires
        encodable(entry),
    ensures
        decoded(encoded(entry)) == Some(entry),
{
    let bytes = encoded(entry);
    let t2 = field(entry.body);
    let t1 = envelope_part(entry.record.envelope, t2);
    let t0 = head_part(entry.record, t1);
    assert(bytes.subrange(0, 4) =~= mark());
    assert(bytes.subrange(4, bytes.len() as int) =~= t0);
    lemma_read_head(entry.record, t1, t0);
    lemma_read_envelope(entry.record.envelope, t2, t1);
    assert(t2 =~= field(entry.body) + Seq::<u8>::empty());
    lemma_read_field(entry.body, Seq::<u8>::empty(), t2);
    assert(read_entry(t0) == Some(entry));
}

/// Encoding undoes decoding: bytes that stand for an entry are the bytes of
/// that entry, and the entry can be written and read back.
pub proof fn lemma_encode_decode(bytes: Seq<u8>)
    ensures
        decoded(bytes) matches Some(entry) ==> encoded(entry) == bytes && encodable(entry),
{
    if let Some(entry) = decoded(bytes) {
        let s0 = bytes.subrange(4, bytes.len() as int);
        assert(bytes =~= mark() + s0);
        lemma_read_entry_back(s0);
    }
}

/// What is read as an entry is the entry's bytes without the mark.
pub proof fn lemma_read_entry_back(s0: Seq<u8>)
    ensures
        read_entry(s0) matches Some(entry) ==> s0 == head_part(
            entry.record,
            envelope_part(entry.record.envelope, field(entry.body)),
        ) && encodable(entry),
{
    if let Some(entry) = read_entry(s0) {
        if let Some((head, s1)) = read_head(s0) {
            lemma_read_head(entry.record, s1, s0);
            if let Some((envelope, s2)) = read_envelope(s1) {
                lemma_read_envelope(envelope, s2, s1);
                if let Some((body, s3)) = read_field(s2) {
                    lemma_read_field(body, s3, s2);
                    assert(s2 =~= field(body));
                }
            }
        }
    }
}

/// No two entries have the same bytes.
pub proof fn lemma_encoding_is_injective(a: EntryView, b: EntryView)
    requires
        encodable(a),
        encodable(b),
        encoded(a) == encoded(b),
    ensures
        a == b,
{
    lemma_decode_encode(a);
    lemma_decode_encode(b);
}

/// The view of an entry that may be missing.
pub open spec fn entry_view(entry: Option<SpoolEntry>) -> Option<EntryView> {
    match entry {
        Some(e) => Some(e@),
        None => None,
    }
}

/// `String::from_utf8` of the standard library: the bytes are turned into
/// a string exactly when they are valid UTF-8, and the string then has the
/// characters that the bytes encode.
#[verifier::external_body]
fn text_from_utf8(bytes: Vec<u8>) -> (text: Option<String>)
    ensures
        text is Some <==> valid_utf8(bytes@),
        text matches Some(s) ==> s@ == decode_utf8(bytes@),
{
    String::from_utf8(bytes).ok()
}

fn put_bytes(out: &mut Vec<u8>, src: &[u8])
    ensures
        final(out)@ == old(out)@ + src@,
{
    let n: usize = src.len();
    let mut i: usize = 0;
    while i < n
        invariant
            n == src@.len(),
            i <= n,
            out@ == old(out)@ + src@.subrange(0, i as int),
        decreases n - i,
    {
        out.push(src[i]);
        i = i + 1;
        proof {
            assert(out@ =~= old(out)@ + src@.subrange(0, i as int));
        }
    }
    proof {
        assert(src@.subrange(0, n as int) =~= src@);
    }
}

fn put_u64(out: &mut Vec<u8>, value: u64)
    ensures
        final(out)@ == old(out)@ + spec_u64_to_le_bytes(value),
{
    let bytes = u64_to_le_bytes(value);
    put_bytes(out, bytes.as_slice());
}

fn put_u32(out: &mut Vec<u8>, value: u32)
    ensures
        final(out)@ == old(out)@ + spec_u32_to_le_bytes(value),
{
    let bytes = u32_to_le_bytes(value);
    put_bytes(out, bytes.as_slice());
}

fn put_field(out: &mut Vec<u8>, src: &[u8])
    ensures
        final(out)@ == old(out)@ + field(src@),
        src@.len() <= u64::MAX,
{
    let n: usize = src.len();
    put_u64(out, n as u64);
    put_bytes(out, src);
    proof {
        assert(out@ =~= old(out)@ + field(src@));
    }
}

fn slice_of(bytes: &Vec<u8>, from: usize, to: usize) -> (part: Vec<u8>)
    requires
        from <= to <= bytes.len(),
    ensures
        part@ == bytes@.subrange(from as int, to as int),
{
    let mut part: Vec<u8> = Vec::with_capacity(to - from);
    let mut i: usize = from;
    while i < to
        invariant
            from <= i <= to,
            to <= bytes.len(),
            part@ == bytes@.subrange(from as int, i as int),
        decreases to - i,
    {
        part.push(bytes[i]);
        i = i + 1;
        proof {
            assert(part@ =~= bytes@.subrange(from as int, i as int));
        }
    }
    part
}

/// What is left of `bytes` from `pos` on.
pub open spec fn from(bytes: Seq<u8>, pos: int) -> Seq<u8> {
    bytes.subrange(pos, bytes.len() as int)
}

fn get_byte(bytes: &Vec<u8>, pos: usize) -> (got: Option<(u8, usize)>)
    requires
        pos <= bytes.len(),
    ensures
        match read_byte(from(bytes@, pos as int)) {
            Some((v, rest)) => got matches Some((x, next)) && x == v && pos <= next <= bytes.len()
                && rest == from(bytes@, next as int),
            None => got is None,
        },
{
    if bytes.len() - pos < 1 {
        return None;
    }
    proof {
        let s = from(bytes@, pos as int);
        assert(s.subrange(1, s.len() as int) =~= from(bytes@, pos + 1));
    }
    Some((bytes[pos], pos + 1))
}

fn get_u32(bytes: &Vec<u8>, pos: usize) -> (got: Option<(u32, usize)>)
    requires
        pos <= bytes.len(),
    ensures
        match read_u32(from(bytes@, pos as int)) {
            Some((v, rest)) => got matches Some((x, next)) && x == v && pos <= next <= bytes.len()
                && rest == from(bytes@, next as int),
            None => got is None,
        },
{
    if bytes.len() - pos < 4 {
        return None;
    }
    let chunk = slice_of(bytes, pos, pos + 4);
    proof {
        let s = from(bytes@, pos as int);
        assert(s.subrange(0, 4) =~= chunk@);
        assert(s.subrange(4, s.len() as int) =~= from(bytes@, pos + 4));
    }
    Some((u32_from_le_bytes(chunk.as_slice()), pos + 4))
}

fn get_u64(bytes: &Vec<u8>, pos: usize) -> (got: Option<(u64, usize)>)
    requires
        pos <= bytes.len(),
    ensures
        match read_u64(from(bytes@, pos as int)) {
            Some((v, rest)) => got matches Some((x, next)) && x == v && pos <= next <= bytes.len()
                && rest == from(bytes@, next as int),
            None => got is None,
        },
{
    if bytes.len() - pos < 8 {
        return None;
    }
    let chunk = slice_of(bytes, pos, pos + 8);
    proof {
        let s = from(bytes@, pos as int);
        assert(s.subrange(0, 8) =~= chunk@);
        assert(s.subrange(8, s.len() as int) =~= from(bytes@, pos + 8));
    }
    Some((u64_from_le_bytes(chunk.as_slice()), pos + 8))
}

fn get_field(bytes: &Vec<u8>, pos: usize) -> (got: Option<(Vec<u8>, usize)>)
    requires
        pos <= bytes.len(),
    ensures
        match read_field(from(bytes@, pos as int)) {
            Some((v, rest)) => got matches Some((x, next)) && x@ == v && pos <= next <= bytes.len()
                && rest == from(bytes@, next as int),
            None => got is None,
        },
{
    let (n, start) = match get_u64(bytes, pos) {
        Some(pair) => pair,
        None => {
            return None;
        },
    };
    let room: usize = bytes.len() - start;
    if n > room as u64 {
        return None;
    }
    let end: usize = start + n as usize;
    let part = slice_of(bytes, start, end);
    proof {
        let tail = from(bytes@, start as int);
        assert(tail.subrange(0, n as int) =~= part@);
        assert(tail.subrange(n as int, tail.len() as int) =~= from(bytes@, end as int));
    }
    Some((part, end))
}

fn get_text(bytes: &Vec<u8>, pos: usize) -> (got: Option<(String, usize)>)
    requires
        pos <= bytes.len(),
    ensures
        match read_text(from(bytes@, pos as int)) {
            Some((v, rest)) => got matches Some((x, next)) && x@ == v && pos <= next <= bytes.len()
                && rest == from(bytes@, next as int),
            None => got is None,
        },
{
    let (part, next) = match get_field(bytes, pos) {
        Some(pair) => pair,
        None => {
            return None;
        },
    };
    match text_from_utf8(part) {
        Some(text) => Some((text, next)),
        None => None,
    }
}

fn get_route(bytes: &Vec<u8>, pos: usize) -> (got: Option<(Option<String>, usize)>)
    requires
        pos <= bytes.len(),
    ensures
        match read_route(from(bytes@, pos as int)) {
            Some((v, rest)) => got matches Some((x, next)) && pos <= next <= bytes.len() && rest
                == from(bytes@, next as int) && match v {
                Some(t) => x matches Some(y) && y@ == t,
                None => x is None,
            },
            None => got is None,
        },
{
    let (flag, next) = match get_byte(bytes, pos) {
        Some(pair) => pair,
        None => {
            return None;
        },
    };
    if flag == 0 {
        Some((None, next))
    } else if flag == 1 {
        match get_text(bytes, next) {
            Some((text, after)) => Some((Some(text), after)),
            None => None,
        }
    } else {
        None
    }
}

fn get_envelope(bytes: &Vec<u8>, pos: usize) -> (got: Option<(Envelope, usize)>)
    requires
        pos <= bytes.len(),
    ensures
        match read_envelope(from(bytes@, pos as int)) {
            Some((v, rest)) => got matches Some((x, next)) && x@ == v && pos <= next <= bytes.len()
                && rest == from(bytes@, next as int),
            None => got is None,
        },
{
    let (sender, c1) = match get_text(bytes, pos) {
        Some(pair) => pair,
        None => {
            return None;
        },
    };
    let (recipient, c2) = match get_text(bytes, c1) {
        Some(pair) => pair,
        None => {
            return None;
        },
    };
    let (route, c3) = match get_route(bytes, c2) {
        Some(pair) => pair,
        None => {
            return None;
        },
    };
    Some((Envelope { sender, recipient, route }, c3))
}

fn get_error(tag: u8) -> (got: Option<Option<FailureClass>>)
    ensures
        got == error_of(tag),
{
    if tag == 0 {
        Some(None)
    } else if tag == 1 {
        Some(Some(FailureClass::Transient))
    } else if tag == 2 {
        Some(Some(FailureClass::Permanent))
    } else {
        None
    }
}

fn get_head(bytes: &Vec<u8>, pos: usize) -> (got: Option<(Head, usize)>)
    requires
        pos <= bytes.len(),
    ensures
        match read_head(from(bytes@, pos as int)) {
            Some((v, rest)) => got matches Some((x, next)) && x == v && pos <= next <= bytes.len()
                && rest == from(bytes@, next as int),
            None => got is None,
        },
{
    let (id, c1) = match get_u64(bytes, pos) {
        Some(pair) => pair,
        None => {
            return None;
        },
    };
    let (due, c2) = match get_u64(bytes, c1) {
        Some(pair) => pair,
        None => {
            return None;
        },
    };
    let (attempts, c3) = match get_u32(bytes, c2) {
        Some(pair) => pair,
        None => {
            return None;
        },
    };
    let (tag, c4) = match get_byte(bytes, c3) {
        Some(pair) => pair,
        None => {
            return None;
        },
    };
    match get_error(tag) {
        Some(last_error) => Some((Head { id, due, attempts, last_error }, c4)),
        None => None,
    }
}

fn put_head(out: &mut Vec<u8>, record: &MessageRecord)
    ensures
        final(out)@ == old(out)@ + head_part(record@, Seq::<u8>::empty()),
{
    put_u64(out, record.id);
    put_u64(out, record.due);
    put_u32(out, record.attempts);
    let tag: u8 = match record.last_error {
        None => 0,
        Some(FailureClass::Transient) => 1,
        Some(FailureClass::Permanent) => 2,
    };
    out.push(tag);
    proof {
        assert(out@ =~= old(out)@ + head_part(record@, Seq::<u8>::empty()));
    }
}

fn put_route(out: &mut Vec<u8>, route: &Option<String>)
    ensures
        final(out)@ == old(out)@ + route_part(
            match route {
                Some(r) => Some(r@),
                None => None,
            },
        ),
        route matches Some(r) ==> encode_utf8(r@).len() <= u64::MAX,
{
    match route {
        Some(text) => {
            out.push(1u8);
            put_field(out, text.as_str().as_bytes());
            proof {
                assert(out@ =~= old(out)@ + route_part(Some(text@)));
            }
        },
        None => {
            out.push(0u8);
            proof {
                assert(out@ =~= old(out)@ + route_part(None));
            }
        },
    }
}

fn put_envelope(out: &mut Vec<u8>, envelope: &Envelope)
    ensures
        final(out)@ == old(out)@ + envelope_part(envelope@, Seq::<u8>::empty()),
        encode_utf8(envelope@.sender).len() <= u64::MAX,
        encode_utf8(envelope@.recipient).len() <= u64::MAX,
        envelope@.route matches Some(r) ==> encode_utf8(r).len() <= u64::MAX,
{
    put_field(out, envelope.sender.as_str().as_bytes());
    put_field(out, envelope.recipient.as_str().as_bytes());
    put_route(out, &envelope.route);
    proof {
        assert(out@ =~= old(out)@ + envelope_part(envelope@, Seq::<u8>::empty()));
    }
}

/// Writes an entry as bytes. Reading the bytes yields the entry as the
/// spool stores it.
pub fn encode_entry(entry: &SpoolEntry) -> (bytes: Vec<u8>)
    ensures
        bytes@ == encoded(entry@),
        fits(entry@),
        decoded(bytes@) == Some(as_stored(entry@)),
{
    let mut out: Vec<u8> = Vec::new();
    out.push(0x4bu8);
    out.push(0x53u8);
    out.push(0x50u8);
    out.push(0x31u8);
    proof {
        assert(out@ =~= mark());
    }
    put_head(&mut out, &entry.record);
    put_envelope(&mut out, &entry.record.envelope);
    put_field(&mut out, entry.body.as_slice());
    proof {
        let record = entry.record@;
        let body = field(entry.body@);
        let env = envelope_part(record.envelope, Seq::<u8>::empty());
        let head = head_part(record, Seq::<u8>::empty());
        lemma_parts_append(record, body);
        lemma_parts_append(record, envelope_part(record.envelope, body));
        assert(out@ == ((mark() + head) + env) + body);
        assert(encoded(entry@) == mark() + (head + (env + body)));
        assert(((mark() + head) + env) + body =~= mark() + (head + (env + body)));
        assert(encoded(as_stored(entry@)) == encoded(entry@));
        lemma_decode_encode(as_stored(entry@));
    }
    out
}

fn get_entry(bytes: &Vec<u8>, pos: usize) -> (entry: Option<SpoolEntry>)
    requires
        pos <= bytes.len(),
    ensures
        entry_view(entry) == read_entry(from(bytes@, pos as int)),
{
    let (head, c1) = match get_head(bytes, pos) {
        Some(pair) => pair,
        None => {
            return None;
        },
    };
    let (envelope, c2) = match get_envelope(bytes, c1) {
        Some(pair) => pair,
        None => {
            return None;
        },
    };
    let (body, c3) = match get_field(bytes, c2) {
        Some(pair) => pair,
        None => {
            return None;
        },
    };
    if c3 != bytes.len() {
        return None;
    }
    Some(
        SpoolEntry {
            record: MessageRecord {
                id: head.id,
                envelope,
                body_ref: head.id,
                due: head.due,
                attempts: head.attempts,
                last_error: head.last_error,
                state: RecordState::Queued,
            },
            body,
        },
    )
}

fn starts_with_mark(bytes: &Vec<u8>) -> (marked: bool)
    ensures
        marked == (bytes.len() >= 4 && bytes@.subrange(0, 4) == mark()),
{
    if bytes.len() < 4 {
        return false;
    }
    let marked: bool = bytes[0] == 0x4bu8 && bytes[1] == 0x53u8 && bytes[2] == 0x50u8 && bytes[3]
        == 0x31u8;
    proof {
        let front = bytes@.subrange(0, 4);
        assert(front[0] == bytes@[0] && front[1] == bytes@[1] && front[2] == bytes@[2] && front[3]
            == bytes@[3]);
        if marked {
            assert(front =~= mark());
        }
    }
    marked
}

/// Reads an entry from bytes. Bytes that no entry is written as yield
/// nothing.
pub fn decode_entry(bytes: &Vec<u8>) -> (entry: Option<SpoolEntry>)
    ensures
        entry_view(entry) == decoded(bytes@),
        entry matches Some(e) ==> encoded(e@) == bytes@ && encodable(e@),
        entry is None ==> forall|e: EntryView| encodable(e) ==> #[trigger] encoded(e) != bytes@,
{
    proof {
        lemma_encode_decode(bytes@);
        lemma_none_is_unwritten(bytes@);
    }
    if !starts_with_mark(bytes) {
        return None;
    }
    get_entry(bytes, 4)
}

/// Bytes that stand for no entry are the bytes of no entry.
pub proof fn lemma_none_is_unwritten(bytes: Seq<u8>)
    ensures
        decoded(bytes) is None ==> forall|e: EntryView|
            encodable(e) ==> #[trigger] encoded(e) != bytes,
{
    assert forall|e: EntryView| encodable(e) && decoded(bytes) is None implies #[trigger] encoded(
        e,
    ) != bytes by {
        lemma_decode_encode(e);
    }
}

/// The key under which a backend stores the entry with an identifier: the
/// identifier as eight bytes, the most significant first, so that keys sort
/// as identifiers do.
pub open spec fn key_of(id: u64) -> Seq<u8> {
    spec_u64_to_le_bytes(id).reverse()
}

/// The identifier that a key stands for, if it is a key.
pub open spec fn id_of(key: Seq<u8>) -> Option<u64> {
    if key.len() == 8 {
        Some(spec_u64_from_le_bytes(key.reverse()))
    } else {
        None
    }
}

/// Whether one sequence of eight bytes comes before another in dictionary
/// order.
pub open spec fn key_before(x: Seq<u8>, y: Seq<u8>) -> bool {
    exists|i: int|
        0 <= i < 8 && x[i] < y[i] && forall|j: int| 0 <= j < i ==> #[trigger] x[j] == y[j]
}

/// The bytes of a key, the most significant byte of the identifier first.
pub proof fn lemma_key_bytes(id: u64)
    ensures
        key_of(id).len() == 8,
        key_of(id)[0] == ((id >> 56) & 0xff) as u8,
        key_of(id)[1] == ((id >> 48) & 0xff) as u8,
        key_of(id)[2] == ((id >> 40) & 0xff) as u8,
        key_of(id)[3] == ((id >> 32) & 0xff) as u8,
        key_of(id)[4] == ((id >> 24) & 0xff) as u8,
        key_of(id)[5] == ((id >> 16) & 0xff) as u8,
        key_of(id)[6] == ((id >> 8) & 0xff) as u8,
        key_of(id)[7] == (id & 0xff) as u8,
{
    spec_u64_to_le_bytes_to_open(id);
    let le = spec_u64_to_le_bytes_open(id);
    assert(le.len() == 8);
}

/// A key stands for the identifier it was made from, and a key that stands
/// for an identifier is the key of that identifier.
pub proof fn lemma_key_round_trip(id: u64, key: Seq<u8>)
    ensures
        id_of(key_of(id)) == Some(id),
        id_of(key) matches Some(x) ==> key_of(x) == key,
{
    lemma_auto_spec_u64_to_from_le_bytes();
    let le = spec_u64_to_le_bytes(id);
    assert(le.reverse().reverse() =~= le);
    if key.len() == 8 {
        let back = key.reverse();
        assert(spec_u64_to_le_bytes(spec_u64_from_le_bytes(back)) == back);
        assert(back.reverse() =~= key);
    }
}

proof fn lemma_order_by_bytes(a: u64, b: u64)
    by (bit_vector)
    ensures
        (a < b) == ({
            let a7 = (a >> 56) & 0xff;
            let b7 = (b >> 56) & 0xff;
            let a6 = (a >> 48) & 0xff;
            let b6 = (b >> 48) & 0xff;
            let a5 = (a >> 40) & 0xff;
            let b5 = (b >> 40) & 0xff;
            let a4 = (a >> 32) & 0xff;
            let b4 = (b >> 32) & 0xff;
            let a3 = (a >> 24) & 0xff;
            let b3 = (b >> 24) & 0xff;
            let a2 = (a >> 16) & 0xff;
            let b2 = (b >> 16) & 0xff;
            let a1 = (a >> 8) & 0xff;
            let b1 = (b >> 8) & 0xff;
            let a0 = a & 0xff;
            let b0 = b & 0xff;
            a7 < b7 || (a7 == b7 && (a6 < b6 || (a6 == b6 && (a5 < b5 || (a5 == b5 && (a4 < b4 || (
            a4 == b4 && (a3 < b3 || (a3 == b3 && (a2 < b2 || (a2 == b2 && (a1 < b1 || (a1 == b1
                && a0 < b0)))))))))))))
        }),
{
}

proof fn lemma_byte_cast(x: u64, y: u64)
    by (bit_vector)
    requires
        x <= 0xff,
        y <= 0xff,
    ensures
        (x as u8) < (y as u8) <==> x < y,
        (x as u8) == (y as u8) <==> x == y,
{
}

proof fn lemma_byte_small(id: u64)
    by (bit_vector)
    ensures
        (id >> 56) & 0xff <= 0xff,
        (id >> 48) & 0xff <= 0xff,
        (id >> 40) & 0xff <= 0xff,
        (id >> 32) & 0xff <= 0xff,
        (id >> 24) & 0xff <= 0xff,
        (id >> 16) & 0xff <= 0xff,
        (id >> 8) & 0xff <= 0xff,
        id & 0xff <= 0xff,
{
}

/// Keys sort as identifiers do: one key comes before another exactly when
/// its identifier is the smaller one. A backend that yields its entries in
/// order of key yields them in rising order of identifier.
pub proof fn lemma_keys_sort_as_identifiers(a: u64, b: u64)
    ensures
        a < b <==> key_before(key_of(a), key_of(b)),
{
    let x = key_of(a);
    let y = key_of(b);
    lemma_key_bytes(a);
    lemma_key_bytes(b);
    lemma_order_by_bytes(a, b);
    lemma_byte_small(a);
    lemma_byte_small(b);
    lemma_byte_cast((a >> 56) & 0xff, (b >> 56) & 0xff);
    lemma_byte_cast((a >> 48) & 0xff, (b >> 48) & 0xff);
    lemma_byte_cast((a >> 40) & 0xff, (b >> 40) & 0xff);
    lemma_byte_cast((a >> 32) & 0xff, (b >> 32) & 0xff);
    lemma_byte_cast((a >> 24) & 0xff, (b >> 24) & 0xff);
    lemma_byte_cast((a >> 16) & 0xff, (b >> 16) & 0xff);
    lemma_byte_cast((a >> 8) & 0xff, (b >> 8) & 0xff);
    lemma_byte_cast(a & 0xff, b & 0xff);
    let first = if x[0] != y[0] {
        0int
    } else if x[1] != y[1] {
        1int
    } else if x[2] != y[2] {
        2int
    } else if x[3] != y[3] {
        3int
    } else if x[4] != y[4] {
        4int
    } else if x[5] != y[5] {
        5int
    } else if x[6] != y[6] {
        6int
    } else {
        7int
    };
    if a < b {
        assert(x[first] < y[first]);
        assert(forall|j: int| 0 <= j < first ==> #[trigger] x[j] == y[j]);
        assert(key_before(x, y));
    }
    if key_before(x, y) {
        let i = choose|i: int|
            0 <= i < 8 && x[i] < y[i] && forall|j: int| 0 <= j < i ==> #[trigger] x[j] == y[j];
        assert(i == first) by {
            if first < i {
                assert(x[first] == y[first]);
            }
            if i < first {
                assert(x[i] != y[i]);
            }
        }
        assert(a < b);
    }
}

/// The key under which a backend stores the entry with an identifier.
pub fn storage_key(id: u64) -> (key: Vec<u8>)
    ensures
        key@ == key_of(id),
{
    let le = u64_to_le_bytes(id);
    let mut key: Vec<u8> = Vec::with_capacity(8);
    let mut i: usize = 8;
    while i > 0
        invariant
            i <= 8,
            le@.len() == 8,
            key.len() == 8 - i,
            forall|j: int| 0 <= j < key.len() ==> #[trigger] key@[j] == le@[7 - j],
        decreases i,
    {
        i = i - 1;
        key.push(le[i]);
    }
    proof {
        assert(key@ =~= le@.reverse());
    }
    key
}

/// The identifier that a key stands for, if it is a key.
pub fn key_id(key: &Vec<u8>) -> (id: Option<u64>)
    ensures
        id == id_of(key@),
{
    if key.len() != 8 {
        return None;
    }
    let mut le: Vec<u8> = Vec::with_capacity(8);
    let mut i: usize = 8;
    while i > 0
        invariant
            i <= 8,
            key.len() == 8,
            le.len() == 8 - i,
            forall|j: int| 0 <= j < le.len() ==> #[trigger] le@[j] == key@[7 - j],
        decreases i,
    {
        i = i - 1;
        le.push(key[i]);
    }
    proof {
        assert(le@ =~= key@.reverse());
    }
    Some(u64_from_le_bytes(le.as_slice()))
}

} // verus!
