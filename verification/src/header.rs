//! The twelve-byte packet header: identifier, flags, response code and the
//! four section counts.

use vstd::prelude::*;
use crate::errors::Errors;
use crate::errors::Result;
use crate::raw_packet::PACKET_SIZE;
use crate::raw_packet::RawPacket;
use crate::raw_packet::advance;
use crate::raw_packet::u16_at;
use crate::raw_packet::u16_bytes;
use crate::raw_packet::write_result;

verus! {

/// Length of a header on the wire.
pub const HEADER_LEN: usize = 12;

/// The response code of a packet.
#[derive(Debug, Clone, Copy, PartialEq, Eq, Structural)]
pub enum ResponseCode {
    Noerror,
    Former,
    Servfail,
    Nxdomain,
    Notimp,
    Refused,
}

impl ResponseCode {
    /// The code that a number stands for. Numbers that stand for none
    /// count as `Noerror`.
    pub open spec fn of_num(code: u8) -> ResponseCode {
        if code == 1 {
            ResponseCode::Former
        } else if code == 2 {
            ResponseCode::Servfail
        } else if code == 3 {
            ResponseCode::Nxdomain
        } else if code == 4 {
            ResponseCode::Notimp
        } else if code == 5 {
            ResponseCode::Refused
        } else {
            ResponseCode::Noerror
        }
    }

    /// The number of this code, 0 to 5.
    pub open spec fn num(self) -> u8 {
        match self {
            ResponseCode::Noerror => 0,
            ResponseCode::Former => 1,
            ResponseCode::Servfail => 2,
            ResponseCode::Nxdomain => 3,
            ResponseCode::Notimp => 4,
            ResponseCode::Refused => 5,
        }
    }

    /// The code that `code` stands for; `Noerror` where it stands for none.
    pub fn from_num(code: u8) -> (r: Self)
        ensures
            r == Self::of_num(code),
    {
        match code {
            1 => Self::Former,
            2 => Self::Servfail,
            3 => Self::Nxdomain,
            4 => Self::Notimp,
            5 => Self::Refused,
            _ => Self::Noerror,
        }
    }

    /// The number of this code.
    pub fn to_num(&self) -> (n: u8)
        ensures
            n == self.num(),
    {
        match self {
            Self::Noerror => 0,
            Self::Former => 1,
            Self::Servfail => 2,
            Self::Nxdomain => 3,
            Self::Notimp => 4,
            Self::Refused => 5,
        }
    }
}

/// What a packet says about itself.
#[derive(Debug, Clone, Copy, PartialEq, Eq, Structural)]
pub struct Header {
    /// Identifier that a response echoes from its query.
    pub id: u16,
    /// Set in a response, clear in a query.
    pub qr: bool,
    /// Operation code, four bits.
    pub op_code: u8,
    /// The responding server is authoritative.
    pub aa: bool,
    /// The message was truncated.
    pub tc: bool,
    /// Recursion is desired.
    pub rd: bool,
    /// Recursion is available.
    pub ra: bool,
    /// Reserved, three bits.
    pub z: u8,
    /// Response code, four bits.
    pub rcode: ResponseCode,
    /// Number of entries in the question section.
    pub qd_count: u16,
    /// Number of entries in the answer section.
    pub an_count: u16,
    /// Number of entries in the authority section.
    pub ns_count: u16,
    /// Number of entries in the additional section.
    pub ar_count: u16,
}

/// `mask` if the flag is set, else nothing.
pub open spec fn flag(set: bool, mask: u8) -> u8 {
    if set {
        mask
    } else {
        0
    }
}

/// The first flag byte: response flag, operation code, authoritative,
/// truncated, recursion desired.
pub open spec fn flags_hi(h: Header) -> u8 {
    flag(h.qr, 0x80) | ((h.op_code & 0x0F) << 3) | flag(h.aa, 0x04) | flag(h.tc, 0x02) | flag(
        h.rd,
        0x01,
    )
}

/// The second flag byte: recursion available, reserved bits, response code.
pub open spec fn flags_lo(h: Header) -> u8 {
    flag(h.ra, 0x80) | ((h.z & 0x07) << 4) | h.rcode.num()
}

/// The header as its twelve bytes.
pub open spec fn header_wire(h: Header) -> Seq<u8> {
    u16_bytes(h.id) + seq![flags_hi(h), flags_lo(h)] + u16_bytes(h.qd_count) + u16_bytes(
        h.an_count,
    ) + u16_bytes(h.ns_count) + u16_bytes(h.ar_count)
}

/// The header that the twelve bytes from `at` on hold.
pub open spec fn header_at(buf: Seq<u8>, at: int) -> Header {
    Header {
        id: u16_at(buf, at),
        qr: buf[at + 2] & 0x80 > 0,
        op_code: (buf[at + 2] & 0x78) >> 3,
        aa: buf[at + 2] & 0x04 > 0,
        tc: buf[at + 2] & 0x02 > 0,
        rd: buf[at + 2] & 0x01 > 0,
        ra: buf[at + 3] & 0x80 > 0,
        z: (buf[at + 3] & 0x70) >> 4,
        rcode: ResponseCode::of_num(buf[at + 3] & 0x0F),
        qd_count: u16_at(buf, at + 4),
        an_count: u16_at(buf, at + 6),
        ns_count: u16_at(buf, at + 8),
        ar_count: u16_at(buf, at + 10),
    }
}

impl Header {
    /// The header with every field zero or clear.
    pub open spec fn new_spec() -> Header {
        Header {
            id: 0,
            qr: false,
            op_code: 0,
            aa: false,
            tc: false,
            rd: false,
            ra: false,
            z: 0,
            rcode: ResponseCode::Noerror,
            qd_count: 0,
            an_count: 0,
            ns_count: 0,
            ar_count: 0,
        }
    }

    /// A header with every field zero or clear.
    pub fn new() -> (h: Self)
        ensures
            h == Self::new_spec(),
    {
        Header {
            id: 0,
            qr: false,
            op_code: 0,
            aa: false,
            tc: false,
            rd: false,
            ra: false,
            z: 0,
            rcode: ResponseCode::Noerror,
            qd_count: 0,
            an_count: 0,
            ns_count: 0,
            ar_count: 0,
        }
    }

    /// The operation code fits its four bits and the reserved field its
    /// three.
    pub open spec fn wf(&self) -> bool {
        self.op_code < 16 && self.z < 8
    }

    /// Reads the header under the cursor into `self`. Fails with
    /// `BufferEnd` where fewer than twelve bytes are left, and leaves `self`
    /// as it was.
    pub fn parse(&mut self, buf: &mut RawPacket) -> (r: Result<()>)
        requires
            old(buf).wf(),
        ensures
            final(buf).wf(),
            final(buf).bytes() == old(buf).bytes(),
            final(buf).pos() == advance(old(buf).pos(), HEADER_LEN as int),
            old(buf).pos() + HEADER_LEN <= PACKET_SIZE ==> r == Ok::<(), Errors>(()) && *final(self)
                == header_at(old(buf).bytes(), old(buf).pos()) && final(self).wf(),
            old(buf).pos() + HEADER_LEN > PACKET_SIZE ==> r == Err::<(), Errors>(Errors::BufferEnd)
                && *final(self) == *old(self),
    {
        let id: u16 = match buf.read_u16() {
            Ok(v) => v,
            Err(e) => { return Err(e); },
        };
        let byte1: u8 = match buf.read_u8() {
            Ok(v) => v,
            Err(e) => { return Err(e); },
        };
        let byte2: u8 = match buf.read_u8() {
            Ok(v) => v,
            Err(e) => { return Err(e); },
        };
        let qd_count: u16 = match buf.read_u16() {
            Ok(v) => v,
            Err(e) => { return Err(e); },
        };
        let an_count: u16 = match buf.read_u16() {
            Ok(v) => v,
            Err(e) => { return Err(e); },
        };
        let ns_count: u16 = match buf.read_u16() {
            Ok(v) => v,
            Err(e) => { return Err(e); },
        };
        let ar_count: u16 = match buf.read_u16() {
            Ok(v) => v,
            Err(e) => { return Err(e); },
        };
        self.id = id;
        self.qr = byte1 & 0x80 > 0;
        self.op_code = (byte1 & 0x78) >> 3;
        self.aa = byte1 & 0x04 > 0;
        self.tc = byte1 & 0x02 > 0;
        self.rd = byte1 & 0x01 > 0;
        self.ra = byte2 & 0x80 > 0;
        self.z = (byte2 & 0x70) >> 4;
        self.rcode = ResponseCode::from_num(byte2 & 0x0F);
        self.qd_count = qd_count;
        self.an_count = an_count;
        self.ns_count = ns_count;
        self.ar_count = ar_count;
        assert((byte1 & 0x78) >> 3 < 16) by (bit_vector);
        assert((byte2 & 0x70) >> 4 < 8) by (bit_vector);
        Ok(())
    }

    /// Writes the header at the cursor. Fails with `BufferOverflow` where
    /// fewer than twelve bytes are left; the bytes that fit are written.
    pub fn write(&self, buf: &mut RawPacket) -> (r: Result<()>)
        requires
            old(buf).wf(),
        ensures
            final(buf).wrote(*old(buf), header_wire(*self)),
            r == write_result(old(buf).pos(), HEADER_LEN as int),
    {
        let ghost b0 = *buf;
        let hi: u8 = (if self.qr {
            0x80u8
        } else {
            0u8
        }) | ((self.op_code & 0x0F) << 3) | (if self.aa {
            0x04u8
        } else {
            0u8
        }) | (if self.tc {
            0x02u8
        } else {
            0u8
        }) | (if self.rd {
            0x01u8
        } else {
            0u8
        });
        let lo: u8 = (if self.ra {
            0x80u8
        } else {
            0u8
        }) | ((self.z & 0x07) << 4) | self.rcode.to_num();
        let ghost d1 = u16_bytes(self.id);
        let ghost d2 = d1 + seq![hi];
        let ghost d3 = d2 + seq![lo];
        let ghost d4 = d3 + u16_bytes(self.qd_count);
        let ghost d5 = d4 + u16_bytes(self.an_count);
        let ghost d6 = d5 + u16_bytes(self.ns_count);
        let ghost d7 = d6 + u16_bytes(self.ar_count);
        assert(d7 =~= header_wire(*self));
        assert(d7.len() == 12);

        let r1 = buf.write_u16(self.id);
        let ghost b1 = *buf;
        if r1.is_err() {
            proof {
                buf.lemma_wrote_full(b0, d1, d7.subrange(2, 12));
                assert(d1 + d7.subrange(2, 12) =~= d7);
            }
            return r1;
        }
        let r2 = buf.write_u8(hi);
        let ghost b2 = *buf;
        proof {
            buf.lemma_wrote_more(b0, b1, d1, seq![hi]);
        }
        if r2.is_err() {
            proof {
                buf.lemma_wrote_full(b0, d2, d7.subrange(3, 12));
                assert(d2 + d7.subrange(3, 12) =~= d7);
            }
            return r2;
        }
        let r3 = buf.write_u8(lo);
        let ghost b3 = *buf;
        proof {
            buf.lemma_wrote_more(b0, b2, d2, seq![lo]);
        }
        if r3.is_err() {
            proof {
                buf.lemma_wrote_full(b0, d3, d7.subrange(4, 12));
                assert(d3 + d7.subrange(4, 12) =~= d7);
            }
            return r3;
        }
        let r4 = buf.write_u16(self.qd_count);
        let ghost b4 = *buf;
        proof {
            buf.lemma_wrote_more(b0, b3, d3, u16_bytes(self.qd_count));
        }
        if r4.is_err() {
            proof {
                buf.lemma_wrote_full(b0, d4, d7.subrange(6, 12));
                assert(d4 + d7.subrange(6, 12) =~= d7);
            }
            return r4;
        }
        let r5 = buf.write_u16(self.an_count);
        let ghost b5 = *buf;
        proof {
            buf.lemma_wrote_more(b0, b4, d4, u16_bytes(self.an_count));
        }
        if r5.is_err() {
            proof {
                buf.lemma_wrote_full(b0, d5, d7.subrange(8, 12));
                assert(d5 + d7.subrange(8, 12) =~= d7);
            }
            return r5;
        }
        let r6 = buf.write_u16(self.ns_count);
        let ghost b6 = *buf;
        proof {
            buf.lemma_wrote_more(b0, b5, d5, u16_bytes(self.ns_count));
        }
        if r6.is_err() {
            proof {
                buf.lemma_wrote_full(b0, d6, d7.subrange(10, 12));
                assert(d6 + d7.subrange(10, 12) =~= d7);
            }
            return r6;
        }
        let r7 = buf.write_u16(self.ar_count);
        proof {
            buf.lemma_wrote_more(b0, b6, d6, u16_bytes(self.ar_count));
        }
        r7
    }
}

} // verus!
