//! Resource records: the preamble that all share, and the payload of each
//! type.

use vstd::prelude::*;
use vstd::string::*;
use crate::errors::Errors;
use crate::errors::Result;
use crate::name::join_text;
use crate::name::name_cursor;
use crate::name::walk;
use crate::question::QueryType;
use crate::question::name_fits;
use crate::question::text_wire;
use crate::raw_packet::PACKET_SIZE;
use crate::raw_packet::RawPacket;
use crate::raw_packet::lemma_placed_patch;
use crate::raw_packet::placed;
use crate::raw_packet::u16_at;
use crate::raw_packet::u16_bytes;
use crate::raw_packet::u32_at;
use crate::raw_packet::u32_bytes;
use crate::raw_packet::write_result;

verus! {

/// Length of what follows the name in a preamble: type, class, time to
/// live and payload length.
pub const PREAMBLE_FIXED_LEN: usize = 10;

/// What every record starts with.
#[derive(Debug)]
pub struct RecordPreamble {
    /// The name that the record is about.
    pub name: String,
    /// The type of the record.
    pub query_type: QueryType,
    /// The class, in practice always 1.
    pub class: u16,
    /// For how many seconds the record may be kept.
    pub ttl: u32,
    /// Length of the payload in bytes.
    pub len: u16,
}

/// A preamble as a value: its name as text.
pub struct PreambleView {
    pub name: Seq<char>,
    pub query_type: QueryType,
    pub class: u16,
    pub ttl: u32,
    pub len: u16,
}

impl View for RecordPreamble {
    type V = PreambleView;

    open spec fn view(&self) -> PreambleView {
        PreambleView {
            name: self.name@,
            query_type: self.query_type,
            class: self.class,
            ttl: self.ttl,
            len: self.len,
        }
    }
}

/// A record of one of the known types, or of another with its payload as
/// it came.
#[derive(Debug)]
#[allow(inconsistent_fields)]
pub enum Record {
    Unknown { preamble: RecordPreamble, data: Vec<u8> },
    /// An IPv4 address, most significant octet first.
    A { preamble: RecordPreamble, ip: [u8; 4] },
    NS { preamble: RecordPreamble, name: String },
    Cname { preamble: RecordPreamble, name: String },
    MX { preamble: RecordPreamble, priority: u16, name: String },
    /// An IPv6 address as its eight segments.
    Aaaa { preamble: RecordPreamble, ip: [u16; 8] },
}

/// A record as a value.
#[allow(inconsistent_fields)]
pub enum RecordView {
    Unknown { preamble: PreambleView, data: Seq<u8> },
    A { preamble: PreambleView, ip: Seq<u8> },
    NS { preamble: PreambleView, name: Seq<char> },
    Cname { preamble: PreambleView, name: Seq<char> },
    MX { preamble: PreambleView, priority: u16, name: Seq<char> },
    Aaaa { preamble: PreambleView, ip: Seq<u16> },
}

impl View for Record {
    type V = RecordView;

    open spec fn view(&self) -> RecordView {
        match self {
            Record::Unknown { preamble, data } => RecordView::Unknown {
                preamble: preamble@,
                data: data@,
            },
            Record::A { preamble, ip } => RecordView::A { preamble: preamble@, ip: ip@ },
            Record::NS { preamble, name } => RecordView::NS { preamble: preamble@, name: name@ },
            Record::Cname { preamble, name } => RecordView::Cname {
                preamble: preamble@,
                name: name@,
            },
            Record::MX { preamble, priority, name } => RecordView::MX {
                preamble: preamble@,
                priority: *priority,
                name: name@,
            },
            Record::Aaaa { preamble, ip } => RecordView::Aaaa { preamble: preamble@, ip: ip@ },
        }
    }
}

impl RecordView {
    /// The preamble of the record.
    pub open spec fn preamble(self) -> PreambleView {
        match self {
            RecordView::Unknown { preamble, .. } => preamble,
            RecordView::A { preamble, .. } => preamble,
            RecordView::NS { preamble, .. } => preamble,
            RecordView::Cname { preamble, .. } => preamble,
            RecordView::MX { preamble, .. } => preamble,
            RecordView::Aaaa { preamble, .. } => preamble,
        }
    }

    /// The payload of the record as it stands on the wire.
    pub open spec fn rdata(self) -> Seq<u8> {
        match self {
            RecordView::Unknown { data, .. } => data,
            RecordView::A { ip, .. } => ip,
            RecordView::NS { name, .. } => text_wire(name),
            RecordView::Cname { name, .. } => text_wire(name),
            RecordView::MX { priority, name, .. } => u16_bytes(priority) + text_wire(name),
            RecordView::Aaaa { ip, .. } => segments_wire(ip),
        }
    }

    /// What writing the payload at `pos` returns.
    pub open spec fn rdata_result(self, pos: int) -> Result<()> {
        match self {
            RecordView::NS { name, .. } => name_result(name, pos),
            RecordView::Cname { name, .. } => name_result(name, pos),
            RecordView::MX { name, .. } => if pos + 2 > PACKET_SIZE {
                Err(Errors::BufferOverflow)
            } else {
                name_result(name, pos + 2)
            },
            _ => write_result(pos, self.rdata().len() as int),
        }
    }

    /// What writing the record at `pos` returns.
    pub open spec fn write_result(self, pos: int) -> Result<()> {
        let head = preamble_wire(self.preamble()).len();
        if !name_fits(self.preamble().name) {
            Err(Errors::InvalidLabelLen)
        } else if pos + head > PACKET_SIZE {
            Err(Errors::BufferOverflow)
        } else {
            self.rdata_result(pos + head)
        }
    }

    /// The wire form of the record: its preamble with the true length of
    /// the payload in place of the length it holds, then the payload.
    pub open spec fn wire(self) -> Seq<u8> {
        let p = self.preamble();
        text_wire(p.name) + u16_bytes(p.query_type.num()) + u16_bytes(p.class) + u32_bytes(p.ttl)
            + u16_bytes(self.rdata().len() as u16) + self.rdata()
    }
}

/// What writing the dotted name `name` at `pos` returns.
pub open spec fn name_result(name: Seq<char>, pos: int) -> Result<()> {
    if !name_fits(name) {
        Err(Errors::InvalidLabelLen)
    } else {
        write_result(pos, text_wire(name).len() as int)
    }
}

/// The segments of an address, each as two big-endian bytes.
pub open spec fn segments_wire(ip: Seq<u16>) -> Seq<u8>
    decreases ip.len(),
{
    if ip.len() == 0 {
        seq![]
    } else {
        segments_wire(ip.drop_last()) + u16_bytes(ip.last())
    }
}

/// The wire form of a preamble: name, type, class, time to live, length.
pub open spec fn preamble_wire(p: PreambleView) -> Seq<u8> {
    text_wire(p.name) + u16_bytes(p.query_type.num()) + u16_bytes(p.class) + u32_bytes(p.ttl)
        + u16_bytes(p.len)
}

/// The record whose preamble is `preamble` and whose payload starts at
/// `data` in `buf`, with the position behind it.
pub open spec fn rdata_at(buf: Seq<u8>, data: int, preamble: PreambleView) -> Result<
    (RecordView, int),
> {
    match preamble.query_type {
        QueryType::Unknown(_) => if data + preamble.len > PACKET_SIZE {
            Err(Errors::BufferOverflow)
        } else if preamble.len == 0 {
            Err(Errors::RangeErr)
        } else {
            Ok(
                (
                    RecordView::Unknown {
                        preamble,
                        data: buf.subrange(data, data + preamble.len),
                    },
                    data + preamble.len,
                ),
            )
        },
        QueryType::A => if data + 4 > PACKET_SIZE {
            Err(Errors::BufferEnd)
        } else {
            Ok((RecordView::A { preamble, ip: buf.subrange(data, data + 4) }, data + 4))
        },
        QueryType::Aaaa => if data + 16 > PACKET_SIZE {
            Err(Errors::BufferEnd)
        } else {
            Ok(
                (
                    RecordView::Aaaa {
                        preamble,
                        ip: Seq::new(8, |i: int| u16_at(buf, data + 2 * i)),
                    },
                    data + 16,
                ),
            )
        },
        QueryType::NS => match walk(buf, data, 0).end {
            Err(e) => Err(e),
            Ok(_) => Ok(
                (
                    RecordView::NS { preamble, name: join_text(walk(buf, data, 0).labels) },
                    name_cursor(buf, data),
                ),
            ),
        },
        QueryType::Cname => match walk(buf, data, 0).end {
            Err(e) => Err(e),
            Ok(_) => Ok(
                (
                    RecordView::Cname { preamble, name: join_text(walk(buf, data, 0).labels) },
                    name_cursor(buf, data),
                ),
            ),
        },
        QueryType::MX => if data + 2 > PACKET_SIZE {
            Err(Errors::BufferEnd)
        } else {
            match walk(buf, data + 2, 0).end {
                Err(e) => Err(e),
                Ok(_) => Ok(
                    (
                        RecordView::MX {
                            preamble,
                            priority: u16_at(buf, data),
                            name: join_text(walk(buf, data + 2, 0).labels),
                        },
                        name_cursor(buf, data + 2),
                    ),
                ),
            }
        },
    }
}

/// The record that stands at `at` in `buf` with the position behind it, or
/// the reason why none can be read there.
pub open spec fn record_at(buf: Seq<u8>, at: int) -> Result<(RecordView, int)> {
    let name = walk(buf, at, 0);
    let fixed = name_cursor(buf, at);
    match name.end {
        Err(e) => Err(e),
        Ok(_) => if fixed + PREAMBLE_FIXED_LEN > PACKET_SIZE {
            Err(Errors::BufferEnd)
        } else {
            rdata_at(
                buf,
                fixed + PREAMBLE_FIXED_LEN,
                PreambleView {
                    name: join_text(name.labels),
                    query_type: QueryType::of_num(u16_at(buf, fixed)),
                    class: u16_at(buf, fixed + 2),
                    ttl: u32_at(buf, fixed + 4),
                    len: u16_at(buf, fixed + 8),
                },
            )
        },
    }
}

impl Record {
    /// Reads the record under the cursor.
    ///
    /// The type in the preamble decides how the payload is read. The
    /// payload of an address is read whatever length the preamble gives;
    /// that of an unknown type is taken as the bytes of that length, which
    /// must be at least one.
    pub fn parse(buf: &mut RawPacket) -> (r: Result<Record>)
        requires
            old(buf).wf(),
        ensures
            final(buf).wf(),
            final(buf).bytes() == old(buf).bytes(),
            match record_at(old(buf).bytes(), old(buf).pos()) {
                Ok((rec, end)) => (r matches Ok(x) && x@ == rec) && final(buf).pos() == end,
                Err(e) => (r matches Err(x) && x == e),
            },
    {
        let mut name = String::new();
        match buf.read_query_name(&mut name) {
            Ok(()) => {},
            Err(e) => { return Err(e); },
        }
        assert(name@ =~= join_text(walk(old(buf).bytes(), old(buf).pos(), 0).labels));
        let query_type_num: u16 = match buf.read_u16() {
            Ok(v) => v,
            Err(e) => { return Err(e); },
        };
        let class: u16 = match buf.read_u16() {
            Ok(v) => v,
            Err(e) => { return Err(e); },
        };
        let ttl: u32 = match buf.read_u32() {
            Ok(v) => v,
            Err(e) => { return Err(e); },
        };
        let len: u16 = match buf.read_u16() {
            Ok(v) => v,
            Err(e) => { return Err(e); },
        };
        let query_type = QueryType::from_num(query_type_num);
        let preamble = RecordPreamble { name, query_type, class, ttl, len };
        Self::parse_rdata(buf, preamble)
    }

    /// Reads the payload under the cursor, as the type in `preamble` asks.
    fn parse_rdata(buf: &mut RawPacket, preamble: RecordPreamble) -> (r: Result<Record>)
        requires
            old(buf).wf(),
            old(buf).pos() >= PREAMBLE_FIXED_LEN,
        ensures
            final(buf).wf(),
            final(buf).bytes() == old(buf).bytes(),
            match rdata_at(old(buf).bytes(), old(buf).pos(), preamble@) {
                Ok((rec, end)) => (r matches Ok(x) && x@ == rec) && final(buf).pos() == end,
                Err(e) => (r matches Err(x) && x == e),
            },
    {
        let ghost bytes = buf.bytes();
        let ghost at = buf.pos();
        match preamble.query_type {
            QueryType::Unknown(_) => {
                let pos: usize = buf.cursor();
                let len: usize = preamble.len as usize;
                match buf.step(len) {
                    Ok(()) => {},
                    Err(e) => { return Err(e); },
                }
                let data = match buf.get_bytes_from(pos, pos + len - 1) {
                    Ok(bytes) => vstd::slice::slice_to_vec(bytes),
                    Err(e) => { return Err(e); },
                };
                Ok(Record::Unknown { preamble, data })
            },
            QueryType::A => {
                let a: u8 = match buf.read_u8() {
                    Ok(v) => v,
                    Err(e) => { return Err(e); },
                };
                let b: u8 = match buf.read_u8() {
                    Ok(v) => v,
                    Err(e) => { return Err(e); },
                };
                let c: u8 = match buf.read_u8() {
                    Ok(v) => v,
                    Err(e) => { return Err(e); },
                };
                let d: u8 = match buf.read_u8() {
                    Ok(v) => v,
                    Err(e) => { return Err(e); },
                };
                let ip: [u8; 4] = [a, b, c, d];
                assert(ip@ =~= bytes.subrange(at, at + 4));
                Ok(Record::A { preamble, ip })
            },
            QueryType::NS => {
                let mut name = String::new();
                match buf.read_query_name(&mut name) {
                    Ok(()) => {},
                    Err(e) => { return Err(e); },
                }
                assert(name@ =~= join_text(walk(bytes, at, 0).labels));
                Ok(Record::NS { preamble, name })
            },
            QueryType::Cname => {
                let mut name = String::new();
                match buf.read_query_name(&mut name) {
                    Ok(()) => {},
                    Err(e) => { return Err(e); },
                }
                assert(name@ =~= join_text(walk(bytes, at, 0).labels));
                Ok(Record::Cname { preamble, name })
            },
            QueryType::MX => {
                let priority: u16 = match buf.read_u16() {
                    Ok(v) => v,
                    Err(e) => { return Err(e); },
                };
                let mut name = String::new();
                match buf.read_query_name(&mut name) {
                    Ok(()) => {},
                    Err(e) => { return Err(e); },
                }
                assert(name@ =~= join_text(walk(bytes, at + 2, 0).labels));
                Ok(Record::MX { preamble, priority, name })
            },
            QueryType::Aaaa => {
                let mut ip: [u16; 8] = [0;8];
                let mut i: usize = 0;
                while i < 8
                    invariant
                        buf.wf(),
                        preamble.query_type is Aaaa,
                        buf.bytes() == bytes,
                        at == old(buf).pos(),
                        bytes == old(buf).bytes(),
                        i <= 8,
                        at + 2 * i <= PACKET_SIZE,
                        buf.pos() == at + 2 * i,
                        forall|k: int| 0 <= k < i ==> ip@[k] == u16_at(bytes, at + 2 * k),
                    decreases 8 - i,
                {
                    let segment: u16 = match buf.read_u16() {
                        Ok(v) => v,
                        Err(e) => { return Err(e); },
                    };
                    ip[i] = segment;
                    i += 1;
                }
                assert(ip@ =~= Seq::new(8, |k: int| u16_at(bytes, at + 2 * k)));
                Ok(Record::Aaaa { preamble, ip })
            },
        }
    }

    /// The preamble of the record.
    pub fn preamble(&self) -> (p: &RecordPreamble)
        ensures
            p@ == self@.preamble(),
    {
        match self {
            Record::Unknown { preamble, .. } => preamble,
            Record::A { preamble, .. } => preamble,
            Record::NS { preamble, .. } => preamble,
            Record::Cname { preamble, .. } => preamble,
            Record::MX { preamble, .. } => preamble,
            Record::Aaaa { preamble, .. } => preamble,
        }
    }

    /// Writes the record at the cursor, its names without compression.
    ///
    /// The preamble goes first, with the length it holds as a stand-in;
    /// then the payload; then the true length of the payload is put where
    /// the stand-in was. The type written is the one in the preamble.
    pub fn write(&self, buf: &mut RawPacket) -> (r: Result<()>)
        requires
            old(buf).wf(),
        ensures
            final(buf).wf(),
            r == self@.write_result(old(buf).pos()),
            r is Ok ==> final(buf).wrote(*old(buf), self@.wire()),
    {
        let ghost b0 = *buf;
        let ghost p = self@.preamble();
        let ghost head = text_wire(p.name) + u16_bytes(p.query_type.num()) + u16_bytes(p.class)
            + u32_bytes(p.ttl);
        let ghost rdata = self@.rdata();
        let len_pos: usize = match Self::write_preamble(self.preamble(), buf) {
            Ok(len_pos) => len_pos,
            Err(e) => { return Err(e); },
        };
        let ghost b1 = *buf;
        match self.write_rdata(buf) {
            Ok(()) => {},
            Err(e) => { return Err(e); },
        }
        let ghost b2 = *buf;
        let written: usize = buf.cursor() - (len_pos + 2);
        let r = buf.set_u16(len_pos, written as u16);
        proof {
            assert(preamble_wire(p) =~= head + u16_bytes(p.len));
            b2.lemma_wrote_more(b0, b1, preamble_wire(p), rdata);
            assert(preamble_wire(p) + rdata =~= head + u16_bytes(p.len) + rdata);
            lemma_placed_patch(
                b0.bytes(),
                b0.pos(),
                head,
                u16_bytes(p.len),
                u16_bytes(written as u16),
                rdata,
            );
            assert(self@.wire() =~= head + u16_bytes(written as u16) + rdata);
        }
        r
    }

    /// Writes the preamble at the cursor and returns where its length
    /// field stands.
    fn write_preamble(preamble: &RecordPreamble, buf: &mut RawPacket) -> (r: Result<usize>)
        requires
            old(buf).wf(),
        ensures
            final(buf).wf(),
            !name_fits(preamble@.name) ==> (r matches Err(e) && e == Errors::InvalidLabelLen)
                && final(buf).bytes() == old(buf).bytes() && final(buf).pos() == old(buf).pos(),
            name_fits(preamble@.name) ==> final(buf).wrote(*old(buf), preamble_wire(preamble@))
                && (match r {
                Ok(len_pos) => old(buf).pos() + preamble_wire(preamble@).len() <= PACKET_SIZE
                    && len_pos + 2 == old(buf).pos() + preamble_wire(preamble@).len(),
                Err(e) => e == Errors::BufferOverflow && old(buf).pos() + preamble_wire(
                    preamble@
                ).len() > PACKET_SIZE,
            }),
    {
        let ghost b0 = *buf;
        let ghost p = preamble@;
        let ghost d1 = text_wire(p.name);
        let ghost d2 = d1 + u16_bytes(p.query_type.num());
        let ghost d3 = d2 + u16_bytes(p.class);
        let ghost d4 = d3 + u32_bytes(p.ttl);
        let ghost d5 = d4 + u16_bytes(p.len);
        assert(d5 =~= preamble_wire(p));
        match buf.write_query_name(preamble.name.as_str()) {
            Ok(()) => {},
            Err(e) => {
                proof {
                    if name_fits(p.name) {
                        buf.lemma_wrote_full(b0, d1, d5.subrange(d1.len() as int, d5.len() as int));
                        assert(d1 + d5.subrange(d1.len() as int, d5.len() as int) =~= d5);
                    }
                }
                return Err(e);
            },
        }
        let ghost b1 = *buf;
        match buf.write_u16(preamble.query_type.to_num()) {
            Ok(()) => {
                proof {
                    buf.lemma_wrote_more(b0, b1, d1, u16_bytes(p.query_type.num()));
                }
            },
            Err(e) => {
                proof {
                    buf.lemma_wrote_more(b0, b1, d1, u16_bytes(p.query_type.num()));
                    buf.lemma_wrote_full(b0, d2, d5.subrange(d2.len() as int, d5.len() as int));
                    assert(d2 + d5.subrange(d2.len() as int, d5.len() as int) =~= d5);
                }
                return Err(e);
            },
        }
        let ghost b2 = *buf;
        match buf.write_u16(preamble.class) {
            Ok(()) => {
                proof {
                    buf.lemma_wrote_more(b0, b2, d2, u16_bytes(p.class));
                }
            },
            Err(e) => {
                proof {
                    buf.lemma_wrote_more(b0, b2, d2, u16_bytes(p.class));
                    buf.lemma_wrote_full(b0, d3, d5.subrange(d3.len() as int, d5.len() as int));
                    assert(d3 + d5.subrange(d3.len() as int, d5.len() as int) =~= d5);
                }
                return Err(e);
            },
        }
        let ghost b3 = *buf;
        match buf.write_u32(preamble.ttl) {
            Ok(()) => {
                proof {
                    buf.lemma_wrote_more(b0, b3, d3, u32_bytes(p.ttl));
                }
            },
            Err(e) => {
                proof {
                    buf.lemma_wrote_more(b0, b3, d3, u32_bytes(p.ttl));
                    buf.lemma_wrote_full(b0, d4, d5.subrange(d4.len() as int, d5.len() as int));
                    assert(d4 + d5.subrange(d4.len() as int, d5.len() as int) =~= d5);
                }
                return Err(e);
            },
        }
        let ghost b4 = *buf;
        let len_pos: usize = buf.cursor();
        match buf.write_u16(preamble.len) {
            Ok(()) => {
                proof {
                    buf.lemma_wrote_more(b0, b4, d4, u16_bytes(p.len));
                }
            },
            Err(e) => {
                proof {
                    buf.lemma_wrote_more(b0, b4, d4, u16_bytes(p.len));
                }
                return Err(e);
            },
        }
        Ok(len_pos)
    }

    /// Writes the payload at the cursor.
    fn write_rdata(&self, buf: &mut RawPacket) -> (r: Result<()>)
        requires
            old(buf).wf(),
        ensures
            final(buf).wf(),
            r == self@.rdata_result(old(buf).pos()),
            r is Ok ==> final(buf).wrote(*old(buf), self@.rdata()),
    {
        let ghost b0 = *buf;
        match self {
            Record::Unknown { data, .. } => buf.write_bytes(data.as_slice()),
            Record::A { ip, .. } => buf.write_bytes(ip.as_slice()),
            Record::NS { name, .. } => buf.write_query_name(name.as_str()),
            Record::Cname { name, .. } => buf.write_query_name(name.as_str()),
            Record::MX { priority, name, .. } => {
                match buf.write_u16(*priority) {
                    Ok(()) => {},
                    Err(e) => { return Err(e); },
                }
                let ghost b1 = *buf;
                let r = buf.write_query_name(name.as_str());
                proof {
                    if r is Ok {
                        buf.lemma_wrote_more(b0, b1, u16_bytes(*priority), text_wire(name@));
                    }
                }
                r
            },
            Record::Aaaa { ip, .. } => {
                let mut i: usize = 0;
                assert(ip@.subrange(0, 0) =~= Seq::<u16>::empty());
                assert(buf.bytes() =~= placed(b0.bytes(), b0.pos(), Seq::<u8>::empty()));
                proof {
                    lemma_segments_len(ip@);
                }
                while i < 8
                    invariant
                        b0.wf(),
                        b0 == *old(buf),
                        self@.rdata() == segments_wire(ip@),
                        self@.rdata_result(b0.pos()) == write_result(b0.pos(), 16),
                        i <= 8,
                        ip@.len() == 8,
                        buf.wrote(b0, segments_wire(ip@.subrange(0, i as int))),
                        segments_wire(ip@.subrange(0, i as int)).len() == 2 * i,
                        b0.pos() + 2 * i <= PACKET_SIZE,
                    decreases 8 - i,
                {
                    let ghost b1 = *buf;
                    let ghost done = segments_wire(ip@.subrange(0, i as int));
                    let r = buf.write_u16(ip[i]);
                    proof {
                        assert(ip@.subrange(0, i + 1).drop_last() =~= ip@.subrange(0, i as int));
                        buf.lemma_wrote_more(b0, b1, done, u16_bytes(ip@[i as int]));
                    }
                    match r {
                        Ok(()) => {},
                        Err(e) => {
                            proof {
                                lemma_segments_len(ip@);
                            }
                            return Err(e);
                        },
                    }
                    i += 1;
                }
                proof {
                    assert(ip@.subrange(0, 8) =~= ip@);
                }
                Ok(())
            },
        }
    }
}

/// Payloads of unknown types: a record of a type without a variant that
/// was read from `buf` holds the payload bytes as they stand in `buf`, and
/// its wire form ends with the number of those bytes and the bytes
/// themselves.
pub proof fn lemma_unknown_payload_kept(buf: Seq<u8>, at: int)
    requires
        buf.len() == PACKET_SIZE,
        record_at(buf, at) is Ok,
        record_at(buf, at).unwrap().0 is Unknown,
    ensures
        ({
            let (rec, end) = record_at(buf, at).unwrap();
            let n = rec.preamble().len as int;
            let wire = rec.wire();
            &&& n >= 1
            &&& 0 <= end - n
            &&& end <= PACKET_SIZE
            &&& rec.rdata() == buf.subrange(end - n, end)
            &&& wire.len() >= n + 2
            &&& wire.subrange(wire.len() - n, wire.len() as int) == buf.subrange(end - n, end)
            &&& wire.subrange(wire.len() - n - 2, wire.len() - n) == u16_bytes(rec.preamble().len)
        }),
{
    let (rec, end) = record_at(buf, at).unwrap();
    let n = rec.preamble().len as int;
    let wire = rec.wire();
    let p = rec.preamble();
    let head = text_wire(p.name) + u16_bytes(p.query_type.num()) + u16_bytes(p.class) + u32_bytes(
        p.ttl,
    );
    crate::name::lemma_walk_bounds(buf, at, 0);
    assert(rec.rdata().len() == n);
    assert(wire =~= head + u16_bytes(p.len) + rec.rdata());
    assert(wire.subrange(wire.len() - n, wire.len() as int) =~= rec.rdata());
    assert(wire.subrange(wire.len() - n - 2, wire.len() - n) =~= u16_bytes(p.len));
}

/// Each segment takes two bytes.
pub proof fn lemma_segments_len(ip: Seq<u16>)
    ensures
        segments_wire(ip).len() == 2 * ip.len(),
    decreases ip.len(),
{
    if ip.len() > 0 {
        lemma_segments_len(ip.drop_last());
    }
}

} // verus!
