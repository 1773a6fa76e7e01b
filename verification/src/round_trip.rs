//! Writing and then reading gives back what was written.
//!
//! The statements here speak of a buffer that holds a wire form at some
//! position, which is what the writers leave behind, and say what the
//! readers make of it.

use vstd::prelude::*;
use vstd::utf8::*;
use crate::dns_packet::PacketView;
use crate::dns_packet::packet_at;
use crate::dns_packet::question_end;
use crate::dns_packet::questions_at;
use crate::dns_packet::questions_end;
use crate::dns_packet::questions_wire;
use crate::dns_packet::record_end;
use crate::dns_packet::records_at;
use crate::dns_packet::records_end;
use crate::dns_packet::records_wire;
use crate::errors::Errors;
use crate::header::HEADER_LEN;
use crate::header::Header;
use crate::header::ResponseCode;
use crate::header::flag;
use crate::header::flags_hi;
use crate::header::flags_lo;
use crate::header::header_at;
use crate::header::header_wire;
use crate::question::QueryType;
use crate::question::QuestionView;
use crate::question::question_at;
use crate::question::question_wire;
use crate::raw_packet::lemma_u16_bytes_value;
use crate::raw_packet::lemma_u32_bytes_value;
use crate::raw_packet::u16_at;
use crate::raw_packet::u16_bytes;
use crate::raw_packet::u32_at;
use crate::raw_packet::u32_bytes;
use crate::record::PREAMBLE_FIXED_LEN;
use crate::record::PreambleView;
use crate::record::RecordView;
use crate::record::lemma_segments_len;
use crate::record::rdata_at;
use crate::record::record_at;
use crate::record::segments_wire;
use crate::name::DOT;
use crate::name::MAX_JUMPS;
use crate::name::MAX_LABEL_LEN;
use crate::name::Walk;
use crate::name::first_dot;
use crate::name::first_pointer;
use crate::name::is_pointer;
use crate::name::join_text;
use crate::name::label_text;
use crate::name::labels_wire;
use crate::name::lemma_first_dot;
use crate::name::name_cursor;
use crate::name::split_labels;
use crate::name::ascii_text;
use crate::name::lower_bytes;
use crate::name::walk;
use crate::question::text_wire;
use crate::raw_packet::PACKET_SIZE;
use crate::raw_packet::placed;

verus! {

/// `buf` holds `data` from `at` on.
pub open spec fn holds(buf: Seq<u8>, at: int, data: Seq<u8>) -> bool {
    &&& 0 <= at
    &&& at + data.len() <= buf.len()
    &&& buf.subrange(at, at + data.len()) == data
}

/// A buffer that something was laid into holds it.
pub proof fn lemma_placed_holds(buf: Seq<u8>, at: int, data: Seq<u8>)
    requires
        0 <= at,
        at + data.len() <= buf.len(),
    ensures
        holds(placed(buf, at, data), at, data),
        placed(buf, at, data).len() == buf.len(),
{
    assert(placed(buf, at, data).subrange(at, at + data.len()) =~= data);
}

/// A buffer that holds two things in a row holds each of them.
pub proof fn lemma_holds_parts(buf: Seq<u8>, at: int, d1: Seq<u8>, d2: Seq<u8>)
    requires
        holds(buf, at, d1 + d2),
    ensures
        holds(buf, at, d1),
        holds(buf, at + d1.len(), d2),
{
    let whole = buf.subrange(at, at + (d1 + d2).len());
    assert(buf.subrange(at, at + d1.len()) =~= whole.subrange(0, d1.len() as int));
    assert((d1 + d2).subrange(0, d1.len() as int) =~= d1);
    assert(buf.subrange(at + d1.len(), at + d1.len() + d2.len()) =~= whole.subrange(
        d1.len() as int,
        (d1 + d2).len() as int,
    ));
    assert((d1 + d2).subrange(d1.len() as int, (d1 + d2).len() as int) =~= d2);
}

/// What a buffer holds can be read from it byte by byte.
pub proof fn lemma_holds_byte(buf: Seq<u8>, at: int, data: Seq<u8>, i: int)
    requires
        holds(buf, at, data),
        0 <= i < data.len(),
    ensures
        buf[at + i] == data[i],
{
    assert(buf.subrange(at, at + data.len())[i] == buf[at + i]);
}

/// Every byte is ASCII and none is a capital letter.
pub open spec fn plain_bytes(bytes: Seq<u8>) -> bool {
    forall|i: int| 0 <= i < bytes.len() ==> plain_byte(#[trigger] bytes[i])
}

/// The byte is ASCII and no capital letter.
pub open spec fn plain_byte(b: u8) -> bool {
    b < 0x80 && !(0x41 <= b <= 0x5A)
}

/// No label is empty or longer than 63 bytes.
pub open spec fn labels_sized(labels: Seq<Seq<u8>>) -> bool {
    forall|i: int| 0 <= i < labels.len() ==> 1 <= (#[trigger] labels[i]).len() <= MAX_LABEL_LEN
}

/// A name as reading yields it: ASCII text without capital letters whose
/// labels hold 1 to 63 characters each.
pub open spec fn canonical_name(name: Seq<char>) -> bool {
    &&& is_ascii_chars(name)
    &&& forall|i: int| 0 <= i < name.len() ==> !('A' <= #[trigger] name[i] <= 'Z')
    &&& labels_sized(split_labels(encode_utf8(name)))
}

/// Plain ASCII bytes are their own text in lower case.
pub proof fn lemma_plain_label_text(label: Seq<u8>)
    requires
        plain_bytes(label),
    ensures
        label_text(label) == ascii_text(label),
{
    assert forall|i: int| 0 <= i < label.len() implies #[trigger] label[i] < 0x80 by {
        assert(plain_byte(label[i]));
    }
    assert forall|i: int| 0 <= i < label.len() implies lower_bytes(label)[i] == label[i] by {
        assert(plain_byte(label[i]));
    }
    assert(lower_bytes(label) =~= label);
}

/// Joining a label in front puts its text and a dot in front.
pub proof fn lemma_join_front(label: Seq<u8>, rest: Seq<Seq<u8>>)
    requires
        rest.len() > 0,
    ensures
        join_text(seq![label] + rest) == label_text(label) + seq!['.'] + join_text(rest),
    decreases rest.len(),
{
    let all = seq![label] + rest;
    assert(all.last() == rest.last());
    if rest.len() == 1 {
        assert(all.drop_last() =~= seq![label]);
        assert(join_text(seq![label]) == label_text(label));
        assert(rest[0] == rest.last());
    } else {
        assert(all.drop_last() =~= seq![label] + rest.drop_last());
        lemma_join_front(label, rest.drop_last());
        assert(join_text(all) =~= label_text(label) + seq!['.'] + join_text(rest));
    }
}

/// The labels of plain ASCII bytes, joined by dots, are the text of the
/// bytes.
pub proof fn lemma_join_split(bytes: Seq<u8>)
    requires
        plain_bytes(bytes),
    ensures
        join_text(split_labels(bytes)) == ascii_text(bytes),
    decreases bytes.len(),
{
    lemma_first_dot(bytes);
    let d = first_dot(bytes);
    if d >= bytes.len() {
        lemma_plain_label_text(bytes);
        assert(split_labels(bytes) =~= seq![bytes]);
    } else {
        let label = bytes.subrange(0, d);
        let rest = bytes.subrange(d + 1, bytes.len() as int);
        assert forall|i: int| 0 <= i < label.len() implies plain_byte(#[trigger] label[i]) by {
            assert(label[i] == bytes[i]);
        }
        assert forall|i: int| 0 <= i < rest.len() implies plain_byte(#[trigger] rest[i]) by {
            assert(rest[i] == bytes[d + 1 + i]);
        }
        lemma_plain_label_text(label);
        lemma_join_split(rest);
        lemma_split_nonempty(rest);
        lemma_join_front(label, split_labels(rest));
        assert(bytes[d] == DOT);
        assert(DOT as char == '.');
        assert(ascii_text(label) + seq!['.'] + ascii_text(rest) =~= ascii_text(bytes));
    }
}

/// A name has at least one label.
pub proof fn lemma_split_nonempty(bytes: Seq<u8>)
    ensures
        split_labels(bytes).len() > 0,
    decreases bytes.len(),
{
    lemma_first_dot(bytes);
}

/// The text of a canonical name is what its labels, read from the wire,
/// are joined to.
pub proof fn lemma_canonical_text(name: Seq<char>)
    requires
        canonical_name(name),
    ensures
        join_text(split_labels(encode_utf8(name))) == name,
{
    let bytes = encode_utf8(name);
    is_ascii_chars_encode_utf8(name);
    assert forall|i: int| 0 <= i < bytes.len() implies plain_byte(#[trigger] bytes[i]) by {
        assert(name[i] as u8 == bytes[i]);
        assert('\0' <= name[i] <= '\u{7f}');
        assert(!('A' <= name[i] <= 'Z'));
    }
    lemma_join_split(bytes);
    assert forall|i: int| 0 <= i < name.len() implies ascii_text(bytes)[i] == name[i] by {
        assert(name[i] as u8 == bytes[i]);
        assert('\0' <= name[i] <= '\u{7f}');
    }
    assert(ascii_text(bytes) =~= name);
}

/// A length of 0 to 63 is no pointer.
pub proof fn lemma_length_is_no_pointer(len: u8)
    requires
        len <= MAX_LABEL_LEN,
    ensures
        !is_pointer(len),
{
    assert(len <= 63 ==> len & 0xC0 != 0xC0) by (bit_vector);
}

/// A buffer that holds the wire form of labels of 1 to 63 bytes is read
/// as those labels, without a pointer, up to the byte behind the closing
/// zero.
pub proof fn lemma_walk_labels(buf: Seq<u8>, at: int, labels: Seq<Seq<u8>>, jumps: int)
    requires
        buf.len() == PACKET_SIZE,
        holds(buf, at, labels_wire(labels)),
        labels_sized(labels),
        0 <= jumps < MAX_JUMPS,
    ensures
        walk(buf, at, jumps) == (Walk {
            labels,
            end: Ok::<int, Errors>(at + labels_wire(labels).len()),
        }),
        first_pointer(buf, at) is None,
    decreases labels.len(),
{
    let wire = labels_wire(labels);
    lemma_holds_byte(buf, at, wire, 0);
    if labels.len() == 0 {
        assert(wire =~= seq![0u8]);
        lemma_length_is_no_pointer(0);
        assert(walk(buf, at, jumps).labels =~= labels);
    } else {
        let label = labels[0];
        let rest = labels.drop_first();
        let n = label.len() as int;
        assert(1 <= n <= MAX_LABEL_LEN);
        let front = seq![n as u8] + label;
        assert(wire =~= front + labels_wire(rest));
        lemma_holds_parts(buf, at, front, labels_wire(rest));
        lemma_holds_parts(buf, at, seq![n as u8], label);
        assert(wire[0] == n as u8);
        assert(buf[at] == n as u8);
        lemma_length_is_no_pointer(n as u8);
        assert forall|i: int| 0 <= i < rest.len() implies 1 <= (#[trigger] rest[i]).len()
            <= MAX_LABEL_LEN by {
            assert(rest[i] == labels[i + 1]);
        }
        lemma_walk_labels(buf, at + 1 + n, rest, jumps);
        assert(buf.subrange(at + 1, at + 1 + n) == label);
        assert(seq![label] + rest =~= labels);
    }
}

/// Names: a buffer that holds the wire form of a canonical name is read
/// as that name, and the cursor ends behind it.
pub proof fn lemma_name_round_trip(buf: Seq<u8>, at: int, name: Seq<char>)
    requires
        buf.len() == PACKET_SIZE,
        canonical_name(name),
        holds(buf, at, text_wire(name)),
    ensures
        walk(buf, at, 0).end == Ok::<int, Errors>(at + text_wire(name).len()),
        join_text(walk(buf, at, 0).labels) == name,
        name_cursor(buf, at) == at + text_wire(name).len(),
{
    let labels = split_labels(encode_utf8(name));
    lemma_walk_labels(buf, at, labels, 0);
    lemma_canonical_text(name);
}

/// A buffer that holds the two bytes of a number reads as that number.
pub proof fn lemma_holds_u16(buf: Seq<u8>, at: int, v: u16)
    requires
        holds(buf, at, u16_bytes(v)),
    ensures
        u16_at(buf, at) == v,
{
    lemma_u16_bytes_value(v);
    lemma_holds_byte(buf, at, u16_bytes(v), 0);
    lemma_holds_byte(buf, at, u16_bytes(v), 1);
}

/// A buffer that holds the four bytes of a number reads as that number.
pub proof fn lemma_holds_u32(buf: Seq<u8>, at: int, v: u32)
    requires
        holds(buf, at, u32_bytes(v)),
    ensures
        u32_at(buf, at) == v,
{
    lemma_u32_bytes_value(v);
    lemma_holds_byte(buf, at, u32_bytes(v), 0);
    lemma_holds_byte(buf, at, u32_bytes(v), 1);
    lemma_holds_byte(buf, at, u32_bytes(v), 2);
    lemma_holds_byte(buf, at, u32_bytes(v), 3);
}

/// The flag bytes of a well-formed header unpack to its fields.
pub proof fn lemma_flags_round_trip(h: Header)
    requires
        h.wf(),
    ensures
        (flags_hi(h) & 0x80 > 0) == h.qr,
        (flags_hi(h) & 0x78) >> 3 == h.op_code,
        (flags_hi(h) & 0x04 > 0) == h.aa,
        (flags_hi(h) & 0x02 > 0) == h.tc,
        (flags_hi(h) & 0x01 > 0) == h.rd,
        (flags_lo(h) & 0x80 > 0) == h.ra,
        (flags_lo(h) & 0x70) >> 4 == h.z,
        ResponseCode::of_num(flags_lo(h) & 0x0F) == h.rcode,
{
    let q: u8 = flag(h.qr, 0x80);
    let a: u8 = flag(h.aa, 0x04);
    let t: u8 = flag(h.tc, 0x02);
    let r: u8 = flag(h.rd, 0x01);
    let op: u8 = h.op_code;
    let hi: u8 = q | ((op & 0x0F) << 3) | a | t | r;
    assert(hi & 0x80 == q && (hi & 0x78) >> 3 == op && hi & 0x04 == a && hi & 0x02 == t && hi
        & 0x01 == r) by (bit_vector)
        requires
            q == 0 || q == 0x80,
            a == 0 || a == 0x04,
            t == 0 || t == 0x02,
            r == 0 || r == 0x01,
            op < 16,
            hi == q | ((op & 0x0F) << 3) | a | t | r,
    ;
    let v: u8 = flag(h.ra, 0x80);
    let z: u8 = h.z;
    let c: u8 = h.rcode.num();
    let lo: u8 = v | ((z & 0x07) << 4) | c;
    assert(lo & 0x80 == v && (lo & 0x70) >> 4 == z && lo & 0x0F == c) by (bit_vector)
        requires
            v == 0 || v == 0x80,
            z < 8,
            c <= 5,
            lo == v | ((z & 0x07) << 4) | c,
    ;
}

/// Headers: a buffer that holds the wire form of a well-formed header is
/// read as that header.
pub proof fn lemma_header_round_trip(buf: Seq<u8>, at: int, h: Header)
    requires
        h.wf(),
        holds(buf, at, header_wire(h)),
    ensures
        header_wire(h).len() == HEADER_LEN,
        header_at(buf, at) == h,
{
    let d1 = u16_bytes(h.id);
    let d2 = d1 + seq![flags_hi(h), flags_lo(h)];
    let d3 = d2 + u16_bytes(h.qd_count);
    let d4 = d3 + u16_bytes(h.an_count);
    let d5 = d4 + u16_bytes(h.ns_count);
    let d6 = d5 + u16_bytes(h.ar_count);
    assert(d6 == header_wire(h));
    lemma_holds_parts(buf, at, d5, u16_bytes(h.ar_count));
    lemma_holds_parts(buf, at, d4, u16_bytes(h.ns_count));
    lemma_holds_parts(buf, at, d3, u16_bytes(h.an_count));
    lemma_holds_parts(buf, at, d2, u16_bytes(h.qd_count));
    lemma_holds_parts(buf, at, d1, seq![flags_hi(h), flags_lo(h)]);
    lemma_holds_u16(buf, at, h.id);
    lemma_holds_u16(buf, at + 4, h.qd_count);
    lemma_holds_u16(buf, at + 6, h.an_count);
    lemma_holds_u16(buf, at + 8, h.ns_count);
    lemma_holds_u16(buf, at + 10, h.ar_count);
    lemma_holds_byte(buf, at + 2, seq![flags_hi(h), flags_lo(h)], 0);
    lemma_holds_byte(buf, at + 2, seq![flags_hi(h), flags_lo(h)], 1);
    lemma_flags_round_trip(h);
}

/// A question as reading yields it: a canonical name, and a type that is
/// `Unknown` only for a number without a variant.
pub open spec fn question_wf(q: QuestionView) -> bool {
    canonical_name(q.name) && q.query_type.wf()
}

/// Questions: a buffer that holds the wire form of a well-formed question
/// is read as that question, and the cursor ends behind it.
pub proof fn lemma_question_round_trip(buf: Seq<u8>, at: int, q: QuestionView)
    requires
        buf.len() == PACKET_SIZE,
        question_wf(q),
        holds(buf, at, question_wire(q)),
    ensures
        question_at(buf, at) == Ok::<(QuestionView, int), Errors>(
            (q, at + question_wire(q).len()),
        ),
{
    let d1 = text_wire(q.name);
    let d2 = d1 + u16_bytes(q.query_type.num());
    lemma_holds_parts(buf, at, d2, u16_bytes(q.class));
    lemma_holds_parts(buf, at, d1, u16_bytes(q.query_type.num()));
    lemma_name_round_trip(buf, at, q.name);
    lemma_holds_u16(buf, at + d1.len(), q.query_type.num());
    lemma_holds_u16(buf, at + d1.len() + 2, q.class);
}

/// A record as reading yields it: canonical names, a type in the preamble
/// that is the type of the payload, the length in the preamble that of the
/// payload, addresses of four octets or eight segments, and a payload of
/// unknown type that is not empty.
pub open spec fn record_wf(r: RecordView) -> bool {
    let p = r.preamble();
    &&& canonical_name(p.name)
    &&& p.len == r.rdata().len()
    &&& match r {
        RecordView::Unknown { data, .. } => p.query_type is Unknown && p.query_type.wf()
            && data.len() >= 1,
        RecordView::A { ip, .. } => p.query_type == QueryType::A && ip.len() == 4,
        RecordView::NS { name, .. } => p.query_type == QueryType::NS && canonical_name(name),
        RecordView::Cname { name, .. } => p.query_type == QueryType::Cname && canonical_name(
            name,
        ),
        RecordView::MX { name, .. } => p.query_type == QueryType::MX && canonical_name(name),
        RecordView::Aaaa { ip, .. } => p.query_type == QueryType::Aaaa && ip.len() == 8,
    }
}

/// A buffer that holds the bytes of segments reads as those segments.
pub proof fn lemma_holds_segments(buf: Seq<u8>, at: int, ip: Seq<u16>, k: int)
    requires
        holds(buf, at, segments_wire(ip)),
        0 <= k < ip.len(),
    ensures
        u16_at(buf, at + 2 * k) == ip[k],
    decreases ip.len(),
{
    let front = segments_wire(ip.drop_last());
    lemma_segments_len(ip.drop_last());
    lemma_holds_parts(buf, at, front, u16_bytes(ip.last()));
    if k == ip.len() - 1 {
        lemma_holds_u16(buf, at + 2 * k, ip.last());
    } else {
        lemma_holds_segments(buf, at, ip.drop_last(), k);
    }
}

/// Payloads: a buffer that holds the payload of a well-formed record is
/// read as that record, and the cursor ends behind the payload.
pub proof fn lemma_rdata_round_trip(buf: Seq<u8>, data: int, r: RecordView)
    requires
        buf.len() == PACKET_SIZE,
        record_wf(r),
        holds(buf, data, r.rdata()),
    ensures
        rdata_at(buf, data, r.preamble()) == Ok::<(RecordView, int), Errors>(
            (r, data + r.rdata().len()),
        ),
{
    match r {
        RecordView::Unknown { preamble, data: payload } => {},
        RecordView::A { preamble, ip } => {},
        RecordView::NS { preamble, name } => {
            lemma_name_round_trip(buf, data, name);
        },
        RecordView::Cname { preamble, name } => {
            lemma_name_round_trip(buf, data, name);
        },
        RecordView::MX { preamble, priority, name } => {
            lemma_holds_parts(buf, data, u16_bytes(priority), text_wire(name));
            lemma_holds_u16(buf, data, priority);
            lemma_name_round_trip(buf, data + 2, name);
        },
        RecordView::Aaaa { preamble, ip } => {
            lemma_segments_len(ip);
            let read = Seq::new(8, |i: int| u16_at(buf, data + 2 * i));
            assert forall|k: int| 0 <= k < 8 implies read[k] == ip[k] by {
                lemma_holds_segments(buf, data, ip, k);
            }
            assert(read =~= ip);
        },
    }
}

/// Records: a buffer that holds the wire form of a well-formed record is
/// read as that record, and the cursor ends behind it.
pub proof fn lemma_record_round_trip(buf: Seq<u8>, at: int, r: RecordView)
    requires
        buf.len() == PACKET_SIZE,
        record_wf(r),
        holds(buf, at, r.wire()),
    ensures
        record_at(buf, at) == Ok::<(RecordView, int), Errors>((r, at + r.wire().len())),
{
    let p = r.preamble();
    let d1 = text_wire(p.name);
    let d2 = d1 + u16_bytes(p.query_type.num());
    let d3 = d2 + u16_bytes(p.class);
    let d4 = d3 + u32_bytes(p.ttl);
    let d5 = d4 + u16_bytes(r.rdata().len() as u16);
    assert(r.wire() == d5 + r.rdata());
    lemma_holds_parts(buf, at, d5, r.rdata());
    lemma_holds_parts(buf, at, d4, u16_bytes(r.rdata().len() as u16));
    lemma_holds_parts(buf, at, d3, u32_bytes(p.ttl));
    lemma_holds_parts(buf, at, d2, u16_bytes(p.class));
    lemma_holds_parts(buf, at, d1, u16_bytes(p.query_type.num()));
    lemma_name_round_trip(buf, at, p.name);
    let fixed = at + d1.len();
    lemma_holds_u16(buf, fixed, p.query_type.num());
    lemma_holds_u16(buf, fixed + 2, p.class);
    lemma_u32_bytes_value(p.ttl);
    lemma_holds_u32(buf, fixed + 4, p.ttl);
    lemma_holds_u16(buf, fixed + 8, r.rdata().len() as u16);
    let read = PreambleView {
        name: join_text(walk(buf, at, 0).labels),
        query_type: QueryType::of_num(u16_at(buf, fixed)),
        class: u16_at(buf, fixed + 2),
        ttl: u32_at(buf, fixed + 4),
        len: u16_at(buf, fixed + 8),
    };
    assert(QueryType::of_num(p.query_type.num()) == p.query_type);
    assert(read == p);
    lemma_rdata_round_trip(buf, fixed + PREAMBLE_FIXED_LEN, r);
}

/// Every question is well formed.
pub open spec fn questions_wf(qs: Seq<QuestionView>) -> bool {
    forall|i: int| 0 <= i < qs.len() ==> question_wf(#[trigger] qs[i])
}

/// Every record is well formed.
pub open spec fn records_wf(rs: Seq<RecordView>) -> bool {
    forall|i: int| 0 <= i < rs.len() ==> record_wf(#[trigger] rs[i])
}

/// A packet as reading yields it: a header whose fields fit their bits and
/// whose counts are the lengths of the sections, and well-formed entries.
pub open spec fn packet_wf(p: PacketView) -> bool {
    &&& p.header.wf()
    &&& p.counts_match()
    &&& questions_wf(p.questions)
    &&& records_wf(p.answers)
    &&& records_wf(p.authorities)
    &&& records_wf(p.additionals)
}

/// The labels of a canonical name can be encoded.
pub proof fn lemma_canonical_fits(name: Seq<char>)
    requires
        canonical_name(name),
    ensures
        crate::question::name_fits(name),
{
    let labels = split_labels(encode_utf8(name));
    assert forall|i: int| 0 <= i < labels.len() implies (#[trigger] labels[i]).len()
        <= MAX_LABEL_LEN by {
        assert(1 <= labels[i].len() <= MAX_LABEL_LEN);
    }
}

/// A well-formed question that fits is written.
pub proof fn lemma_question_written(q: QuestionView, pos: int)
    requires
        question_wf(q),
        pos + question_wire(q).len() <= PACKET_SIZE,
    ensures
        question_end(q, pos) == Ok::<int, Errors>(pos + question_wire(q).len()),
{
    lemma_canonical_fits(q.name);
}

/// A well-formed record that fits is written.
pub proof fn lemma_record_written(r: RecordView, pos: int)
    requires
        record_wf(r),
        pos + r.wire().len() <= PACKET_SIZE,
    ensures
        record_end(r, pos) == Ok::<int, Errors>(pos + r.wire().len()),
{
    lemma_canonical_fits(r.preamble().name);
    match r {
        RecordView::NS { name, .. } => {
            lemma_canonical_fits(name);
        },
        RecordView::Cname { name, .. } => {
            lemma_canonical_fits(name);
        },
        RecordView::MX { name, .. } => {
            lemma_canonical_fits(name);
        },
        _ => {},
    }
}

/// Well-formed questions that fit are written.
pub proof fn lemma_questions_written(qs: Seq<QuestionView>, pos: int)
    requires
        questions_wf(qs),
        pos + questions_wire(qs).len() <= PACKET_SIZE,
    ensures
        questions_end(qs, pos) == Ok::<int, Errors>(pos + questions_wire(qs).len()),
    decreases qs.len(),
{
    if qs.len() > 0 {
        let front = qs.drop_last();
        assert forall|i: int| 0 <= i < front.len() implies question_wf(#[trigger] front[i]) by {
            assert(front[i] == qs[i]);
        }
        lemma_questions_written(front, pos);
        assert(question_wf(qs[qs.len() - 1]));
        lemma_question_written(qs.last(), pos + questions_wire(front).len());
    }
}

/// Well-formed records that fit are written.
pub proof fn lemma_records_written(rs: Seq<RecordView>, pos: int)
    requires
        records_wf(rs),
        pos + records_wire(rs).len() <= PACKET_SIZE,
    ensures
        records_end(rs, pos) == Ok::<int, Errors>(pos + records_wire(rs).len()),
    decreases rs.len(),
{
    if rs.len() > 0 {
        let front = rs.drop_last();
        assert forall|i: int| 0 <= i < front.len() implies record_wf(#[trigger] front[i]) by {
            assert(front[i] == rs[i]);
        }
        lemma_records_written(front, pos);
        assert(record_wf(rs[rs.len() - 1]));
        lemma_record_written(rs.last(), pos + records_wire(front).len());
    }
}

/// A buffer that holds the wire forms of well-formed questions in a row
/// is read as those questions.
pub proof fn lemma_questions_round_trip(buf: Seq<u8>, at: int, qs: Seq<QuestionView>)
    requires
        buf.len() == PACKET_SIZE,
        questions_wf(qs),
        holds(buf, at, questions_wire(qs)),
    ensures
        questions_at(buf, at, qs.len()) == Ok::<(Seq<QuestionView>, int), Errors>(
            (qs, at + questions_wire(qs).len()),
        ),
    decreases qs.len(),
{
    if qs.len() == 0 {
        assert(qs =~= Seq::<QuestionView>::empty());
    } else {
        let front = qs.drop_last();
        assert forall|i: int| 0 <= i < front.len() implies question_wf(#[trigger] front[i]) by {
            assert(front[i] == qs[i]);
        }
        assert(question_wf(qs[qs.len() - 1]));
        lemma_holds_parts(buf, at, questions_wire(front), question_wire(qs.last()));
        lemma_questions_round_trip(buf, at, front);
        lemma_question_round_trip(buf, at + questions_wire(front).len(), qs.last());
        assert(front.push(qs.last()) =~= qs);
    }
}

/// A buffer that holds the wire forms of well-formed records in a row is
/// read as those records.
pub proof fn lemma_records_round_trip(buf: Seq<u8>, at: int, rs: Seq<RecordView>)
    requires
        buf.len() == PACKET_SIZE,
        records_wf(rs),
        holds(buf, at, records_wire(rs)),
    ensures
        records_at(buf, at, rs.len()) == Ok::<(Seq<RecordView>, int), Errors>(
            (rs, at + records_wire(rs).len()),
        ),
    decreases rs.len(),
{
    if rs.len() == 0 {
        assert(rs =~= Seq::<RecordView>::empty());
    } else {
        let front = rs.drop_last();
        assert forall|i: int| 0 <= i < front.len() implies record_wf(#[trigger] front[i]) by {
            assert(front[i] == rs[i]);
        }
        assert(record_wf(rs[rs.len() - 1]));
        lemma_holds_parts(buf, at, records_wire(front), rs.last().wire());
        lemma_records_round_trip(buf, at, front);
        lemma_record_round_trip(buf, at + records_wire(front).len(), rs.last());
        assert(front.push(rs.last()) =~= rs);
    }
}

/// A header takes twelve bytes.
pub proof fn lemma_header_wire_len(h: Header)
    ensures
        header_wire(h).len() == HEADER_LEN,
{
}

/// A well-formed packet that fits behind `at` is written, up to the end of
/// its wire form.
pub proof fn lemma_packet_written(p: PacketView, at: int)
    requires
        packet_wf(p),
        0 <= at,
        at + p.wire().len() <= PACKET_SIZE,
    ensures
        p.write_end(at) == Ok::<int, Errors>(at + p.wire().len()),
{
    let questions = questions_wire(p.questions).len() as int;
    let answers = records_wire(p.answers).len() as int;
    let authorities = records_wire(p.authorities).len() as int;
    let additionals = records_wire(p.additionals).len() as int;
    lemma_header_wire_len(p.header);
    assert(p.wire().len() == HEADER_LEN + questions + answers + authorities + additionals);
    let questions_from = at + HEADER_LEN;
    let answers_from = questions_from + questions;
    let authorities_from = answers_from + answers;
    let additionals_from = authorities_from + authorities;
    lemma_questions_written(p.questions, questions_from);
    lemma_records_written(p.answers, answers_from);
    lemma_records_written(p.authorities, authorities_from);
    lemma_records_written(p.additionals, additionals_from);
    assert(questions_end(p.questions, questions_from) == Ok::<int, Errors>(answers_from));
    assert(records_end(p.answers, answers_from) == Ok::<int, Errors>(authorities_from));
    assert(records_end(p.authorities, authorities_from) == Ok::<int, Errors>(additionals_from));
    assert(records_end(p.additionals, additionals_from) == Ok::<int, Errors>(
        additionals_from + additionals,
    ));
}

/// A buffer that holds the wire form of a well-formed packet is read as
/// that packet, and the cursor ends behind it.
pub proof fn lemma_packet_read(buf: Seq<u8>, at: int, p: PacketView)
    requires
        buf.len() == PACKET_SIZE,
        packet_wf(p),
        holds(buf, at, p.wire()),
    ensures
        packet_at(buf, at) == Ok::<(PacketView, int), Errors>((p, at + p.wire().len())),
{
    let d1 = header_wire(p.header);
    let d2 = d1 + questions_wire(p.questions);
    let d3 = d2 + records_wire(p.answers);
    let d4 = d3 + records_wire(p.authorities);
    lemma_holds_parts(buf, at, d4, records_wire(p.additionals));
    lemma_holds_parts(buf, at, d3, records_wire(p.authorities));
    lemma_holds_parts(buf, at, d2, records_wire(p.answers));
    lemma_holds_parts(buf, at, d1, questions_wire(p.questions));
    lemma_header_round_trip(buf, at, p.header);
    lemma_questions_round_trip(buf, at + d1.len(), p.questions);
    lemma_records_round_trip(buf, at + d2.len(), p.answers);
    lemma_records_round_trip(buf, at + d3.len(), p.authorities);
    lemma_records_round_trip(buf, at + d4.len(), p.additionals);
}

/// Round trip: a well-formed packet that fits into the buffer behind `at`
/// is written there in full, and reading what was written gives the
/// packet back, field for field, with the cursor behind it.
pub proof fn lemma_packet_round_trip(buf: Seq<u8>, at: int, p: PacketView)
    requires
        buf.len() == PACKET_SIZE,
        packet_wf(p),
        0 <= at,
        at + p.wire().len() <= PACKET_SIZE,
    ensures
        p.write_end(at) == Ok::<int, Errors>(at + p.wire().len()),
        packet_at(placed(buf, at, p.wire()), at) == Ok::<(PacketView, int), Errors>(
            (p, at + p.wire().len()),
        ),
{
    lemma_packet_written(p, at);
    lemma_placed_holds(buf, at, p.wire());
    lemma_packet_read(placed(buf, at, p.wire()), at, p);
}

} // verus!
