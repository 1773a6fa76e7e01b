//! The cursor buffer: 512 bytes and a position, with bounds-checked reads
//! and writes of big-endian scalars and of domain names.

use vstd::prelude::*;
use vstd::string::*;
use crate::errors::Errors;
use crate::errors::Result;
use crate::name::MAX_JUMPS;
use crate::name::encode_name;
use crate::name::first_pointer;
use crate::name::join_text;
use crate::name::label_string;
use crate::name::labels_fit;
use crate::name::name_cursor;
use crate::name::name_wire;
use crate::name::split_labels;
use crate::name::walk;

verus! {

/// Size of a datagram buffer: the ceiling of a classic DNS message over UDP.
pub const PACKET_SIZE: usize = 512;

/// The 16-bit value whose big-endian bytes are `hi`, `lo`.
pub open spec fn be16(hi: u8, lo: u8) -> u16 {
    ((hi as u16) << 8) | (lo as u16)
}

/// The 32-bit value whose big-endian halves are `hi`, `lo`.
pub open spec fn be32(hi: u16, lo: u16) -> u32 {
    ((hi as u32) << 16) | (lo as u32)
}

/// The big-endian 16-bit value stored at `at`, `at + 1`.
pub open spec fn u16_at(buf: Seq<u8>, at: int) -> u16 {
    be16(buf[at], buf[at + 1])
}

/// The big-endian 32-bit value stored at `at .. at + 4`.
pub open spec fn u32_at(buf: Seq<u8>, at: int) -> u32 {
    be32(u16_at(buf, at), u16_at(buf, at + 2))
}

/// The two bytes of `v`, most significant first.
pub open spec fn u16_bytes(v: u16) -> Seq<u8> {
    seq![(v >> 8) as u8, (v & 0xFF) as u8]
}

/// The four bytes of `v`, most significant first.
pub open spec fn u32_bytes(v: u32) -> Seq<u8> {
    u16_bytes((v >> 16) as u16) + u16_bytes((v & 0xFFFF) as u16)
}

/// `buf` with `data` laid over it from index `at` on. What would fall
/// behind the end of `buf` is cut off.
pub open spec fn placed(buf: Seq<u8>, at: int, data: Seq<u8>) -> Seq<u8> {
    Seq::new(
        buf.len(),
        |i: int|
            if at <= i < at + data.len() {
                data[i - at]
            } else {
                buf[i]
            },
    )
}

/// Where the cursor stands after an access of `n` bytes from `at`: behind
/// them if they lie inside the buffer, at its end if not.
pub open spec fn advance(at: int, n: int) -> int {
    if at + n <= PACKET_SIZE {
        at + n
    } else {
        PACKET_SIZE as int
    }
}

/// What a write of `len` bytes at `pos` returns: it succeeds if they fit.
pub open spec fn write_result(pos: int, len: int) -> Result<()> {
    if pos + len <= PACKET_SIZE {
        Ok(())
    } else {
        Err(Errors::BufferOverflow)
    }
}

/// Laying `d1` and then `d2` behind it is laying `d1 + d2`.
pub proof fn lemma_placed_concat(buf: Seq<u8>, at: int, d1: Seq<u8>, d2: Seq<u8>)
    ensures
        placed(placed(buf, at, d1), at + d1.len(), d2) == placed(buf, at, d1 + d2),
{
    assert(placed(placed(buf, at, d1), at + d1.len(), d2) =~= placed(buf, at, d1 + d2));
}

/// What reaches the end of the buffer hides whatever would follow it.
pub proof fn lemma_placed_cut(buf: Seq<u8>, at: int, d1: Seq<u8>, d2: Seq<u8>)
    requires
        at + d1.len() >= buf.len(),
    ensures
        placed(buf, at, d1 + d2) == placed(buf, at, d1),
{
    assert(placed(buf, at, d1 + d2) =~= placed(buf, at, d1));
}

/// Laying a field anew where it was laid before replaces it.
pub proof fn lemma_placed_patch(
    buf: Seq<u8>,
    at: int,
    head: Seq<u8>,
    field: Seq<u8>,
    patch: Seq<u8>,
    tail: Seq<u8>,
)
    requires
        field.len() == patch.len(),
    ensures
        placed(placed(buf, at, head + field + tail), at + head.len(), patch) == placed(
            buf,
            at,
            head + patch + tail,
        ),
{
    assert(placed(placed(buf, at, head + field + tail), at + head.len(), patch) =~= placed(
        buf,
        at,
        head + patch + tail,
    ));
}

/// Bytes that were laid into a buffer are read back from it.
pub proof fn lemma_placed_reads(buf: Seq<u8>, at: int, data: Seq<u8>)
    requires
        0 <= at,
        at + data.len() <= buf.len(),
    ensures
        placed(buf, at, data).len() == buf.len(),
        placed(buf, at, data).subrange(at, at + data.len()) == data,
        forall|i: int| 0 <= i < data.len() ==> placed(buf, at, data)[at + i] == data[i],
{
    assert(placed(buf, at, data).subrange(at, at + data.len()) =~= data);
}

/// The two bytes of a number, read as big-endian, give the number back.
pub proof fn lemma_u16_bytes_value(v: u16)
    ensures
        u16_bytes(v).len() == 2,
        be16(u16_bytes(v)[0], u16_bytes(v)[1]) == v,
{
    assert(((((v >> 8) as u8) as u16) << 8) | (((v & 0xFF) as u8) as u16) == v) by (bit_vector);
}

/// The four bytes of a number, read as big-endian, give the number back.
pub proof fn lemma_u32_bytes_value(v: u32)
    ensures
        u32_bytes(v).len() == 4,
        be32(
            be16(u32_bytes(v)[0], u32_bytes(v)[1]),
            be16(u32_bytes(v)[2], u32_bytes(v)[3]),
        ) == v,
{
    let hi = (v >> 16) as u16;
    let lo = (v & 0xFFFF) as u16;
    lemma_u16_bytes_value(hi);
    lemma_u16_bytes_value(lo);
    assert(((((v >> 16) as u16) as u32) << 16) | (((v & 0xFFFF) as u16) as u32) == v)
        by (bit_vector);
}

/// Byte order: a 16-bit number written at `at` is the number read at `at`,
/// and its more significant byte comes first.
pub proof fn lemma_u16_round_trip(buf: Seq<u8>, at: int, v: u16)
    requires
        0 <= at,
        at + 2 <= buf.len(),
    ensures
        u16_at(placed(buf, at, u16_bytes(v)), at) == v,
        placed(buf, at, u16_bytes(v))[at] == v / 256,
        placed(buf, at, u16_bytes(v))[at + 1] == v % 256,
{
    lemma_u16_bytes_value(v);
    lemma_placed_reads(buf, at, u16_bytes(v));
    assert(placed(buf, at, u16_bytes(v))[at + 0] == u16_bytes(v)[0]);
    assert(placed(buf, at, u16_bytes(v))[at + 1] == u16_bytes(v)[1]);
    assert((v >> 8) as u8 == v / 256) by (bit_vector);
    assert((v & 0xFF) as u8 == v % 256) by (bit_vector);
}

/// Byte order: a 32-bit number written at `at` is the number read at `at`,
/// and its bytes come from the most significant to the least.
pub proof fn lemma_u32_round_trip(buf: Seq<u8>, at: int, v: u32)
    requires
        0 <= at,
        at + 4 <= buf.len(),
    ensures
        u32_at(placed(buf, at, u32_bytes(v)), at) == v,
        placed(buf, at, u32_bytes(v))[at] == v / 0x100_0000,
        placed(buf, at, u32_bytes(v))[at + 1] == (v / 0x1_0000) % 256,
        placed(buf, at, u32_bytes(v))[at + 2] == (v / 256) % 256,
        placed(buf, at, u32_bytes(v))[at + 3] == v % 256,
{
    lemma_u32_bytes_value(v);
    lemma_placed_reads(buf, at, u32_bytes(v));
    let b = placed(buf, at, u32_bytes(v));
    assert(b[at + 0] == u32_bytes(v)[0]);
    assert(b[at + 1] == u32_bytes(v)[1]);
    assert(b[at + 2] == u32_bytes(v)[2]);
    assert(b[at + 3] == u32_bytes(v)[3]);
    assert((((v >> 16) as u16) >> 8) as u8 == v / 0x100_0000) by (bit_vector);
    assert((((v >> 16) as u16) & 0xFF) as u8 == (v / 0x1_0000) % 256) by (bit_vector);
    assert((((v & 0xFFFF) as u16) >> 8) as u8 == (v / 256) % 256) by (bit_vector);
    assert((((v & 0xFFFF) as u16) & 0xFF) as u8 == v % 256) by (bit_vector);
}

/// A network packet as its bytes, with the position of the next read or
/// write.
pub struct RawPacket {
    /// The bytes of the packet.
    pub buf: [u8; PACKET_SIZE],
    /// Position of the next read or write.
    cursor: usize,
}

impl RawPacket {
    /// The position of the cursor.
    pub closed spec fn pos(&self) -> int {
        self.cursor as int
    }

    /// The bytes of the buffer.
    pub closed spec fn bytes(&self) -> Seq<u8> {
        self.buf@
    }

    /// The cursor never stands behind the end of the buffer.
    pub open spec fn wf(&self) -> bool {
        &&& 0 <= self.pos() <= PACKET_SIZE
        &&& self.bytes().len() == PACKET_SIZE
    }

    /// `self` is what `before` becomes when `data` is written at its
    /// cursor: the bytes that fit are laid in, and the cursor stands behind
    /// them.
    pub open spec fn wrote(&self, before: RawPacket, data: Seq<u8>) -> bool {
        &&& self.wf()
        &&& self.bytes() == placed(before.bytes(), before.pos(), data)
        &&& self.pos() == advance(before.pos(), data.len() as int)
    }

    /// Two writes in a row are one write of both.
    pub proof fn lemma_wrote_more(
        self,
        before: RawPacket,
        mid: RawPacket,
        d1: Seq<u8>,
        d2: Seq<u8>,
    )
        requires
            before.wf(),
            mid.wrote(before, d1),
            self.wrote(mid, d2),
            before.pos() + d1.len() <= PACKET_SIZE,
        ensures
            self.wrote(before, d1 + d2),
    {
        lemma_placed_concat(before.bytes(), before.pos(), d1, d2);
    }

    /// A write that filled the buffer is a write of anything longer.
    pub proof fn lemma_wrote_full(self, before: RawPacket, d1: Seq<u8>, d2: Seq<u8>)
        requires
            before.wf(),
            self.wrote(before, d1),
            before.pos() + d1.len() >= PACKET_SIZE,
        ensures
            self.wrote(before, d1 + d2),
    {
        lemma_placed_cut(before.bytes(), before.pos(), d1, d2);
    }

    /// A buffer of zeroes with the cursor at its start.
    pub fn new() -> (p: Self)
        ensures
            p.wf(),
            p.pos() == 0,
            p.bytes() == Seq::new(PACKET_SIZE as nat, |i: int| 0u8),
    {
        let p = RawPacket { buf: [0;PACKET_SIZE], cursor: 0 };
        assert(p.buf@ =~= Seq::new(PACKET_SIZE as nat, |i: int| 0u8));
        p
    }

    /// The position of the cursor.
    pub fn cursor(&self) -> (c: usize)
        ensures
            c == self.pos(),
    {
        self.cursor
    }

    /// Moves the cursor forward by `step` bytes. Fails, moving nothing, if
    /// that would put it behind the end of the buffer.
    pub fn step(&mut self, step: usize) -> (r: Result<()>)
        requires
            old(self).wf(),
        ensures
            final(self).wf(),
            final(self).bytes() == old(self).bytes(),
            old(self).pos() + step <= PACKET_SIZE ==> r == Ok::<(), Errors>(()) && final(self).pos()
                == old(self).pos() + step,
            old(self).pos() + step > PACKET_SIZE ==> r == Err::<(), Errors>(Errors::BufferOverflow)
                && final(self).pos() == old(self).pos(),
    {
        if step > PACKET_SIZE - self.cursor {
            return Err(Errors::BufferOverflow);
        }
        self.cursor += step;
        Ok(())
    }

    /// Moves the cursor to `pos`. Fails, moving nothing, if `pos` lies
    /// behind the end of the buffer.
    pub fn seek(&mut self, pos: usize) -> (r: Result<()>)
        ensures
            old(self).wf() ==> final(self).wf(),
            final(self).bytes() == old(self).bytes(),
            pos <= PACKET_SIZE ==> r == Ok::<(), Errors>(()) && final(self).pos() == pos,
            pos > PACKET_SIZE ==> r == Err::<(), Errors>(Errors::BufferOverflow)
                && final(self).pos() == old(self).pos(),
    {
        if pos > PACKET_SIZE {
            return Err(Errors::BufferOverflow);
        }
        self.cursor = pos;
        Ok(())
    }

    /// Reads the byte under the cursor and moves past it. Fails at the end
    /// of the buffer.
    pub fn read_u8(&mut self) -> (r: Result<u8>)
        requires
            old(self).wf(),
        ensures
            final(self).wf(),
            final(self).bytes() == old(self).bytes(),
            final(self).pos() == advance(old(self).pos(), 1),
            old(self).pos() < PACKET_SIZE ==> r == Ok::<u8, Errors>(
                old(self).bytes()[old(self).pos()],
            ),
            old(self).pos() >= PACKET_SIZE ==> r == Err::<u8, Errors>(Errors::BufferEnd),
    {
        if self.cursor >= PACKET_SIZE {
            return Err(Errors::BufferEnd);
        }
        self.cursor += 1;
        Ok(self.buf[self.cursor - 1])
    }

    /// Reads two bytes as a big-endian number. Where fewer than two are
    /// left, fails and leaves the cursor at the end of the buffer.
    pub fn read_u16(&mut self) -> (r: Result<u16>)
        requires
            old(self).wf(),
        ensures
            final(self).wf(),
            final(self).bytes() == old(self).bytes(),
            final(self).pos() == advance(old(self).pos(), 2),
            old(self).pos() + 2 <= PACKET_SIZE ==> r == Ok::<u16, Errors>(
                u16_at(old(self).bytes(), old(self).pos()),
            ),
            old(self).pos() + 2 > PACKET_SIZE ==> r == Err::<u16, Errors>(Errors::BufferEnd),
    {
        let hi: u8 = match self.read_u8() {
            Ok(b) => b,
            Err(e) => { return Err(e); },
        };
        let lo: u8 = match self.read_u8() {
            Ok(b) => b,
            Err(e) => { return Err(e); },
        };
        Ok(((hi as u16) << 8) | (lo as u16))
    }

    /// Reads four bytes as a big-endian number. Where fewer than four are
    /// left, fails and leaves the cursor at the end of the buffer.
    pub fn read_u32(&mut self) -> (r: Result<u32>)
        requires
            old(self).wf(),
        ensures
            final(self).wf(),
            final(self).bytes() == old(self).bytes(),
            final(self).pos() == advance(old(self).pos(), 4),
            old(self).pos() + 4 <= PACKET_SIZE ==> r == Ok::<u32, Errors>(
                u32_at(old(self).bytes(), old(self).pos()),
            ),
            old(self).pos() + 4 > PACKET_SIZE ==> r == Err::<u32, Errors>(Errors::BufferEnd),
    {
        let hi: u16 = match self.read_u16() {
            Ok(h) => h,
            Err(e) => { return Err(e); },
        };
        let lo: u16 = match self.read_u16() {
            Ok(l) => l,
            Err(e) => { return Err(e); },
        };
        Ok(((hi as u32) << 16) | (lo as u32))
    }

    /// The byte at `pos`; the cursor stays.
    pub fn get_byte_at(&self, pos: usize) -> (r: Result<u8>)
        ensures
            pos < PACKET_SIZE ==> r == Ok::<u8, Errors>(self.bytes()[pos as int]),
            pos >= PACKET_SIZE ==> r == Err::<u8, Errors>(Errors::BufferOverflow),
    {
        if pos >= PACKET_SIZE {
            return Err(Errors::BufferOverflow);
        }
        Ok(self.buf[pos])
    }

    /// The bytes from `start` to `end`, both included; the cursor stays.
    pub fn get_bytes_from(&self, start: usize, end: usize) -> (r: Result<&[u8]>)
        ensures
            start > end ==> r == Err::<&[u8], Errors>(Errors::RangeErr),
            start <= end && end >= PACKET_SIZE ==> r == Err::<&[u8], Errors>(
                Errors::BufferOverflow,
            ),
            start <= end < PACKET_SIZE ==> (r matches Ok(bytes) && bytes@ == self.bytes().subrange(
                start as int,
                end + 1,
            )),
    {
        if start > end {
            return Err(Errors::RangeErr);
        }
        if start >= PACKET_SIZE || end >= PACKET_SIZE {
            return Err(Errors::BufferOverflow);
        }
        Ok(vstd::slice::slice_subrange(self.buf.as_slice(), start, end + 1))
    }

    /// Writes one byte under the cursor and moves past it. Fails, writing
    /// nothing, at the end of the buffer.
    pub fn write_u8(&mut self, val: u8) -> (r: Result<()>)
        requires
            old(self).wf(),
        ensures
            final(self).wrote(*old(self), seq![val]),
            r == write_result(old(self).pos(), 1),
    {
        if self.cursor >= PACKET_SIZE {
            assert(self.buf@ =~= placed(self.buf@, self.cursor as int, seq![val]));
            return Err(Errors::BufferOverflow);
        }
        self.buf[self.cursor] = val;
        self.cursor += 1;
        assert(self.buf@ =~= placed(old(self).bytes(), old(self).pos(), seq![val]));
        Ok(())
    }

    /// Writes `val` as two big-endian bytes. Where only one byte is left,
    /// that one is written, the cursor stops at the end of the buffer and
    /// the call fails.
    pub fn write_u16(&mut self, val: u16) -> (r: Result<()>)
        requires
            old(self).wf(),
        ensures
            final(self).wrote(*old(self), u16_bytes(val)),
            r == write_result(old(self).pos(), 2),
    {
        let hi: u8 = (val >> 8) as u8;
        let lo: u8 = (val & 0xFF) as u8;
        let first = self.write_u8(hi);
        let second = match first {
            Ok(()) => self.write_u8(lo),
            Err(e) => Err(e),
        };
        assert(self.buf@ =~= placed(old(self).bytes(), old(self).pos(), u16_bytes(val)));
        second
    }

    /// Writes `val` as four big-endian bytes. Where fewer than four are
    /// left, those are written, the cursor stops at the end of the buffer
    /// and the call fails.
    pub fn write_u32(&mut self, val: u32) -> (r: Result<()>)
        requires
            old(self).wf(),
        ensures
            final(self).wrote(*old(self), u32_bytes(val)),
            r == write_result(old(self).pos(), 4),
    {
        let hi: u16 = (val >> 16) as u16;
        let lo: u16 = (val & 0xFFFF) as u16;
        let first = self.write_u16(hi);
        let second = match first {
            Ok(()) => self.write_u16(lo),
            Err(e) => Err(e),
        };
        assert(self.buf@ =~= placed(old(self).bytes(), old(self).pos(), u32_bytes(val)));
        second
    }

    /// Overwrites the two bytes at `pos`, `pos + 1` with `val`, big-endian;
    /// the cursor stays. Fails, writing nothing, unless both lie inside the
    /// buffer.
    pub fn set_u16(&mut self, pos: usize, val: u16) -> (r: Result<()>)
        ensures
            old(self).wf() ==> final(self).wf(),
            final(self).pos() == old(self).pos(),
            pos + 2 <= PACKET_SIZE ==> r == Ok::<(), Errors>(()) && final(self).bytes() == placed(
                old(self).bytes(),
                pos as int,
                u16_bytes(val),
            ),
            pos + 2 > PACKET_SIZE ==> r == Err::<(), Errors>(Errors::BufferOverflow)
                && final(self).bytes() == old(self).bytes(),
    {
        if pos >= PACKET_SIZE - 1 {
            return Err(Errors::BufferOverflow);
        }
        self.buf[pos] = (val >> 8) as u8;
        self.buf[pos + 1] = (val & 0xFF) as u8;
        assert(self.buf@ =~= placed(old(self).bytes(), pos as int, u16_bytes(val)));
        Ok(())
    }

    /// Writes `data` byte by byte. Where it does not fit, as much as fits
    /// is written, the cursor stops at the end of the buffer and the call
    /// fails.
    pub fn write_bytes(&mut self, data: &[u8]) -> (r: Result<()>)
        requires
            old(self).wf(),
        ensures
            final(self).wrote(*old(self), data@),
            r == write_result(old(self).pos(), data@.len() as int),
    {
        let n: usize = data.len();
        let mut i: usize = 0;
        assert(self.bytes() =~= placed(old(self).bytes(), old(self).pos(), data@.subrange(0, 0)));
        while i < n
            invariant
                self.wf(),
                i <= n,
                n == data@.len(),
                old(self).wf(),
                old(self).pos() + i <= PACKET_SIZE,
                self.pos() == old(self).pos() + i,
                self.bytes() == placed(old(self).bytes(), old(self).pos(), data@.subrange(0, i as int)),
            decreases n - i,
        {
            match self.write_u8(data[i]) {
                Ok(()) => {},
                Err(e) => {
                    assert(self.bytes() =~= placed(old(self).bytes(), old(self).pos(), data@));
                    return Err(e);
                },
            }
            i += 1;
            assert(self.bytes() =~= placed(
                old(self).bytes(),
                old(self).pos(),
                data@.subrange(0, i as int),
            ));
        }
        assert(data@.subrange(0, n as int) =~= data@);
        Ok(())
    }

    /// Writes the dotted name `name` without compression: each label
    /// behind its length byte, then a zero byte. A name with a label of
    /// more than 63 bytes is refused before anything is written.
    pub fn write_query_name(&mut self, name: &str) -> (r: Result<()>)
        requires
            old(self).wf(),
        ensures
            final(self).wf(),
            !labels_fit(split_labels(name.spec_bytes())) ==> r == Err::<(), Errors>(
                Errors::InvalidLabelLen,
            ) && final(self).bytes() == old(self).bytes() && final(self).pos() == old(self).pos(),
            labels_fit(split_labels(name.spec_bytes())) ==> final(self).wrote(
                *old(self),
                name_wire(name.spec_bytes()),
            ) && r == write_result(old(self).pos(), name_wire(name.spec_bytes()).len() as int),
    {
        match encode_name(name.as_bytes()) {
            Some(wire) => self.write_bytes(wire.as_slice()),
            None => Err(Errors::InvalidLabelLen),
        }
    }

    /// Reads the name under the cursor and appends it to `output`: its
    /// labels as lower-case text, joined by dots.
    ///
    /// The name may hold pointers. The cursor ends behind the first pointer
    /// if there is one, else behind the zero byte that closes the name. The
    /// call fails with `JumpCycle` once five pointers were followed, and
    /// with `BufferOverflow` where the name leaves the buffer; the labels
    /// read until then stay in `output`.
    pub fn read_query_name(&mut self, output: &mut String) -> (r: Result<()>)
        requires
            old(self).wf(),
        ensures
            final(self).wf(),
            final(self).bytes() == old(self).bytes(),
            final(self).pos() == name_cursor(old(self).bytes(), old(self).pos()),
            final(output)@ == old(output)@ + join_text(
                walk(old(self).bytes(), old(self).pos(), 0).labels,
            ),
            r == (match walk(old(self).bytes(), old(self).pos(), 0).end {
                Ok(_) => Ok::<(), Errors>(()),
                Err(e) => Err::<(), Errors>(e),
            }),
    {
        let ghost buf = self.bytes();
        let ghost start = self.pos();
        let mut pos: usize = self.cursor;
        let mut jumped = false;
        let mut jumps: usize = 0;
        let mut first = true;
        let ghost mut done: Seq<Seq<u8>> = seq![];
        proof {
            assert(done + walk(buf, start, 0).labels =~= walk(buf, start, 0).labels);
            assert(old(output)@ + join_text(done) =~= old(output)@);
        }
        loop
            invariant
                self.wf(),
                self.bytes() == buf,
                buf == old(self).bytes(),
                start == old(self).pos(),
                jumps <= MAX_JUMPS,
                pos <= 0x3FFF,
                walk(buf, start, 0).labels == done + walk(buf, pos as int, jumps as int).labels,
                walk(buf, start, 0).end == walk(buf, pos as int, jumps as int).end,
                output@ == old(output)@ + join_text(done),
                first <==> done.len() == 0,
                jumped ==> (first_pointer(buf, start) matches Some(p) && self.pos() == p + 2),
                !jumped ==> jumps == 0 && self.pos() == start && first_pointer(buf, start)
                    == first_pointer(buf, pos as int),
            decreases MAX_JUMPS - jumps, PACKET_SIZE - pos,
        {
            if jumps >= MAX_JUMPS {
                assert(done + Seq::<Seq<u8>>::empty() =~= done);
                return Err(Errors::JumpCycle);
            }
            let len: u8 = match self.get_byte_at(pos) {
                Ok(b) => b,
                Err(e) => {
                    assert(done + Seq::<Seq<u8>>::empty() =~= done);
                    return Err(e);
                },
            };
            if len & 0xC0 == 0xC0 {
                if !jumped {
                    match self.seek(pos + 2) {
                        Ok(()) => {},
                        Err(e) => {
                            assert(done + Seq::<Seq<u8>>::empty() =~= done);
                            return Err(e);
                        },
                    }
                }
                let len_2: u8 = match self.get_byte_at(pos + 1) {
                    Ok(b) => b,
                    Err(e) => {
                        assert(done + Seq::<Seq<u8>>::empty() =~= done);
                        return Err(e);
                    },
                };
                let target: u16 = (((len as u16) << 8) | (len_2 as u16)) & 0x3FFF;
                assert(target <= 0x3FFF) by (bit_vector)
                    requires
                        target == (((len as u16) << 8) | (len_2 as u16)) & 0x3FFF,
                ;
                pos = target as usize;
                jumps += 1;
                jumped = true;
            } else if len == 0 {
                assert(done + Seq::<Seq<u8>>::empty() =~= done);
                if !jumped {
                    match self.seek(pos + 1) {
                        Ok(()) => {},
                        Err(e) => { return Err(e); },
                    }
                }
                return Ok(());
            } else {
                let label = match self.get_bytes_from(pos + 1, pos + len as usize) {
                    Ok(l) => l,
                    Err(e) => {
                        assert(done + Seq::<Seq<u8>>::empty() =~= done);
                        return Err(e);
                    },
                };
                let text = label_string(label);
                if !first {
                    proof {
                        reveal_strlit(".");
                    }
                    output.append(".");
                    assert("."@ =~= seq!['.']);
                }
                output.append(text.as_str());
                proof {
                    let rest = walk(buf, pos + 1 + len, jumps as int);
                    assert(done + (seq![label@] + rest.labels) =~= done.push(label@) + rest.labels);
                    assert(done.push(label@).drop_last() =~= done);
                    assert(output@ =~= old(output)@ + join_text(done.push(label@)));
                    done = done.push(label@);
                }
                first = false;
                pos = pos + 1 + len as usize;
            }
        }
    }
}

} // verus!
