//! A question: the name asked for, the record type wanted, and the class.

use vstd::prelude::*;
use vstd::string::*;
use vstd::utf8::*;
use crate::errors::Errors;
use crate::errors::Result;
use crate::name::join_text;
use crate::name::labels_fit;
use crate::name::name_cursor;
use crate::name::name_wire;
use crate::name::split_labels;
use crate::name::walk;
use crate::raw_packet::PACKET_SIZE;
use crate::raw_packet::RawPacket;
use crate::raw_packet::u16_at;
use crate::raw_packet::u16_bytes;
use crate::raw_packet::write_result;

verus! {

/// The type of a record, or of the records that a question asks for.
#[derive(Debug, Clone, Copy, PartialEq, Eq, Structural)]
pub enum QueryType {
    /// A type this library has no variant for, with its number.
    Unknown(u16),
    A,
    NS,
    Cname,
    MX,
    Aaaa,
}

impl QueryType {
    /// The type that a number stands for.
    pub open spec fn of_num(rec_type: u16) -> QueryType {
        if rec_type == 1 {
            QueryType::A
        } else if rec_type == 2 {
            QueryType::NS
        } else if rec_type == 5 {
            QueryType::Cname
        } else if rec_type == 15 {
            QueryType::MX
        } else if rec_type == 28 {
            QueryType::Aaaa
        } else {
            QueryType::Unknown(rec_type)
        }
    }

    /// The number of this type.
    pub open spec fn num(self) -> u16 {
        match self {
            QueryType::Unknown(num) => num,
            QueryType::A => 1,
            QueryType::NS => 2,
            QueryType::Cname => 5,
            QueryType::MX => 15,
            QueryType::Aaaa => 28,
        }
    }

    /// `Unknown` holds no number that has a variant of its own.
    pub open spec fn wf(self) -> bool {
        QueryType::of_num(self.num()) == self
    }

    /// The type that `rec_type` stands for; `Unknown` with the number
    /// where it has no variant.
    pub fn from_num(rec_type: u16) -> (t: Self)
        ensures
            t == Self::of_num(rec_type),
            t.wf(),
            t.num() == rec_type,
    {
        match rec_type {
            1 => Self::A,
            2 => Self::NS,
            5 => Self::Cname,
            15 => Self::MX,
            28 => Self::Aaaa,
            _ => Self::Unknown(rec_type),
        }
    }

    /// The number of this type.
    pub fn to_num(&self) -> (n: u16)
        ensures
            n == self.num(),
    {
        match self {
            Self::Unknown(num) => *num,
            Self::A => 1,
            Self::NS => 2,
            Self::Cname => 5,
            Self::MX => 15,
            Self::Aaaa => 28,
        }
    }
}

/// One entry of the question section.
#[derive(Debug)]
pub struct Question {
    /// The name asked for, its labels joined by dots.
    pub name: String,
    /// The type of record asked for.
    pub query_type: QueryType,
    /// The class, in practice always 1.
    pub class: u16,
}

/// A question as a value: its name as text.
pub struct QuestionView {
    pub name: Seq<char>,
    pub query_type: QueryType,
    pub class: u16,
}

impl View for Question {
    type V = QuestionView;

    open spec fn view(&self) -> QuestionView {
        QuestionView { name: self.name@, query_type: self.query_type, class: self.class }
    }
}

/// Each label of the dotted name can be encoded.
pub open spec fn name_fits(name: Seq<char>) -> bool {
    labels_fit(split_labels(encode_utf8(name)))
}

/// The wire form of a dotted name given as text.
pub open spec fn text_wire(name: Seq<char>) -> Seq<u8> {
    name_wire(encode_utf8(name))
}

/// The wire form of a question: name, type, class.
pub open spec fn question_wire(q: QuestionView) -> Seq<u8> {
    text_wire(q.name) + u16_bytes(q.query_type.num()) + u16_bytes(q.class)
}

/// The question that stands at `at` in `buf` with the position behind it,
/// or the reason why none can be read there.
pub open spec fn question_at(buf: Seq<u8>, at: int) -> Result<(QuestionView, int)> {
    let name = walk(buf, at, 0);
    let fixed = name_cursor(buf, at);
    match name.end {
        Err(e) => Err(e),
        Ok(_) => if fixed + 4 > PACKET_SIZE {
            Err(Errors::BufferEnd)
        } else {
            Ok(
                (
                    QuestionView {
                        name: join_text(name.labels),
                        query_type: QueryType::of_num(u16_at(buf, fixed)),
                        class: u16_at(buf, fixed + 2),
                    },
                    fixed + 4,
                ),
            )
        },
    }
}

impl Question {
    /// A question with an empty name, type `Unknown(0)` and class 0.
    pub fn new() -> (q: Self)
        ensures
            q@ == (QuestionView { name: Seq::empty(), query_type: QueryType::Unknown(0), class: 0 }),
    {
        Question { name: String::new(), query_type: QueryType::Unknown(0), class: 0 }
    }

    /// Reads the question under the cursor into `self`. The name read is
    /// appended to the name that `self` holds. Where the question cannot
    /// be read, `self` stays as it was.
    pub fn parse(&mut self, buf: &mut RawPacket) -> (r: Result<()>)
        requires
            old(buf).wf(),
        ensures
            final(buf).wf(),
            final(buf).bytes() == old(buf).bytes(),
            match question_at(old(buf).bytes(), old(buf).pos()) {
                Ok((q, end)) => r == Ok::<(), Errors>(()) && final(buf).pos() == end && final(self)@
                    == (QuestionView {
                    name: old(self)@.name + q.name,
                    query_type: q.query_type,
                    class: q.class,
                }),
                Err(e) => r == Err::<(), Errors>(e) && *final(self) == *old(self),
            },
    {
        let mut name = String::new();
        match buf.read_query_name(&mut name) {
            Ok(()) => {},
            Err(e) => { return Err(e); },
        }
        let type_num: u16 = match buf.read_u16() {
            Ok(v) => v,
            Err(e) => { return Err(e); },
        };
        let class: u16 = match buf.read_u16() {
            Ok(v) => v,
            Err(e) => { return Err(e); },
        };
        assert(name@ =~= join_text(walk(old(buf).bytes(), old(buf).pos(), 0).labels));
        self.name.append(name.as_str());
        self.query_type = QueryType::from_num(type_num);
        self.class = class;
        Ok(())
    }

    /// Writes the question at the cursor, its name without compression. A
    /// name with a label of more than 63 bytes is refused before anything
    /// is written.
    pub fn write(&self, buf: &mut RawPacket) -> (r: Result<()>)
        requires
            old(buf).wf(),
        ensures
            final(buf).wf(),
            !name_fits(self@.name) ==> r == Err::<(), Errors>(Errors::InvalidLabelLen)
                && final(buf).bytes() == old(buf).bytes() && final(buf).pos() == old(buf).pos(),
            name_fits(self@.name) ==> final(buf).wrote(*old(buf), question_wire(self@)) && r
                == write_result(old(buf).pos(), question_wire(self@).len() as int),
    {
        let ghost b0 = *buf;
        let ghost d1 = text_wire(self@.name);
        let ghost d2 = d1 + u16_bytes(self.query_type.num());
        let ghost d3 = d2 + u16_bytes(self.class);
        let r1 = buf.write_query_name(self.name.as_str());
        let ghost b1 = *buf;
        if r1.is_err() {
            proof {
                if name_fits(self@.name) {
                    buf.lemma_wrote_full(b0, d1, u16_bytes(self.query_type.num()) + u16_bytes(self.class));
                    assert(d1 + (u16_bytes(self.query_type.num()) + u16_bytes(self.class)) =~= d3);
                }
            }
            return r1;
        }
        let r2 = buf.write_u16(self.query_type.to_num());
        let ghost b2 = *buf;
        proof {
            buf.lemma_wrote_more(b0, b1, d1, u16_bytes(self.query_type.num()));
        }
        if r2.is_err() {
            proof {
                buf.lemma_wrote_full(b0, d2, u16_bytes(self.class));
            }
            return r2;
        }
        let r3 = buf.write_u16(self.class);
        proof {
            buf.lemma_wrote_more(b0, b2, d2, u16_bytes(self.class));
        }
        r3
    }
}

} // verus!
