//! A whole packet: the header and the four sections it counts.

use vstd::prelude::*;
use crate::errors::Errors;
use crate::errors::Result;
use crate::header::HEADER_LEN;
use crate::header::Header;
use crate::header::header_at;
use crate::header::header_wire;
use crate::question::Question;
use crate::question::QuestionView;
use crate::question::name_fits;
use crate::question::question_at;
use crate::question::question_wire;
use crate::raw_packet::PACKET_SIZE;
use crate::raw_packet::RawPacket;
use crate::record::Record;
use crate::record::RecordView;
use crate::record::record_at;

verus! {

/// A packet: what it says about itself, the questions, and the records of
/// the answer, authority and additional sections.
pub struct DNSPacket {
    pub header: Header,
    pub question_sec: Vec<Question>,
    pub answer_sec: Vec<Record>,
    pub authority_sec: Vec<Record>,
    pub additional_sec: Vec<Record>,
}

/// A packet as a value.
pub struct PacketView {
    pub header: Header,
    pub questions: Seq<QuestionView>,
    pub answers: Seq<RecordView>,
    pub authorities: Seq<RecordView>,
    pub additionals: Seq<RecordView>,
}

/// The questions as values.
pub open spec fn question_views(section: Seq<Question>) -> Seq<QuestionView> {
    section.map_values(|q: Question| q@)
}

/// The records as values.
pub open spec fn record_views(section: Seq<Record>) -> Seq<RecordView> {
    section.map_values(|r: Record| r@)
}

impl View for DNSPacket {
    type V = PacketView;

    open spec fn view(&self) -> PacketView {
        PacketView {
            header: self.header,
            questions: question_views(self.question_sec@),
            answers: record_views(self.answer_sec@),
            authorities: record_views(self.authority_sec@),
            additionals: record_views(self.additional_sec@),
        }
    }
}

impl PacketView {
    /// Each count in the header is the length of its section.
    pub open spec fn counts_match(self) -> bool {
        &&& self.header.qd_count == self.questions.len()
        &&& self.header.an_count == self.answers.len()
        &&& self.header.ns_count == self.authorities.len()
        &&& self.header.ar_count == self.additionals.len()
    }

    /// The wire form of the packet: header, questions, answers,
    /// authorities, additionals.
    pub open spec fn wire(self) -> Seq<u8> {
        header_wire(self.header) + questions_wire(self.questions) + records_wire(self.answers)
            + records_wire(self.authorities) + records_wire(self.additionals)
    }

    /// Where writing the packet at `pos` ends, or why it fails.
    pub open spec fn write_end(self, pos: int) -> Result<int> {
        if pos + HEADER_LEN > PACKET_SIZE {
            Err(Errors::BufferOverflow)
        } else {
            match questions_end(self.questions, pos + HEADER_LEN) {
                Err(e) => Err(e),
                Ok(answers_at) => match records_end(self.answers, answers_at) {
                    Err(e) => Err(e),
                    Ok(authorities_at) => match records_end(self.authorities, authorities_at) {
                        Err(e) => Err(e),
                        Ok(additionals_at) => records_end(self.additionals, additionals_at),
                    },
                },
            }
        }
    }
}

/// The wire forms of the questions, one after the other.
pub open spec fn questions_wire(qs: Seq<QuestionView>) -> Seq<u8>
    decreases qs.len(),
{
    if qs.len() == 0 {
        seq![]
    } else {
        questions_wire(qs.drop_last()) + question_wire(qs.last())
    }
}

/// The wire forms of the records, one after the other.
pub open spec fn records_wire(rs: Seq<RecordView>) -> Seq<u8>
    decreases rs.len(),
{
    if rs.len() == 0 {
        seq![]
    } else {
        records_wire(rs.drop_last()) + rs.last().wire()
    }
}

/// Where writing the question at `pos` ends, or why it fails.
pub open spec fn question_end(q: QuestionView, pos: int) -> Result<int> {
    if !name_fits(q.name) {
        Err(Errors::InvalidLabelLen)
    } else if pos + question_wire(q).len() > PACKET_SIZE {
        Err(Errors::BufferOverflow)
    } else {
        Ok(pos + question_wire(q).len())
    }
}

/// Where writing the record at `pos` ends, or why it fails.
pub open spec fn record_end(r: RecordView, pos: int) -> Result<int> {
    match r.write_result(pos) {
        Err(e) => Err(e),
        Ok(_) => Ok(pos + r.wire().len()),
    }
}

/// Where writing the questions in turn from `pos` on ends, or why the
/// first of them that fails does.
pub open spec fn questions_end(qs: Seq<QuestionView>, pos: int) -> Result<int>
    decreases qs.len(),
{
    if qs.len() == 0 {
        Ok(pos)
    } else {
        match questions_end(qs.drop_last(), pos) {
            Err(e) => Err(e),
            Ok(mid) => question_end(qs.last(), mid),
        }
    }
}

/// Where writing the records in turn from `pos` on ends, or why the first
/// of them that fails does.
pub open spec fn records_end(rs: Seq<RecordView>, pos: int) -> Result<int>
    decreases rs.len(),
{
    if rs.len() == 0 {
        Ok(pos)
    } else {
        match records_end(rs.drop_last(), pos) {
            Err(e) => Err(e),
            Ok(mid) => record_end(rs.last(), mid),
        }
    }
}

/// The `n` questions that stand in `buf` from `at` on with the position
/// behind them, or the reason why the first that cannot be read cannot.
pub open spec fn questions_at(buf: Seq<u8>, at: int, n: nat) -> Result<(Seq<QuestionView>, int)>
    decreases n,
{
    if n == 0 {
        Ok((seq![], at))
    } else {
        match questions_at(buf, at, (n - 1) as nat) {
            Err(e) => Err(e),
            Ok((qs, mid)) => match question_at(buf, mid) {
                Err(e) => Err(e),
                Ok((q, end)) => Ok((qs.push(q), end)),
            },
        }
    }
}

/// The `n` records that stand in `buf` from `at` on with the position
/// behind them, or the reason why the first that cannot be read cannot.
pub open spec fn records_at(buf: Seq<u8>, at: int, n: nat) -> Result<(Seq<RecordView>, int)>
    decreases n,
{
    if n == 0 {
        Ok((seq![], at))
    } else {
        match records_at(buf, at, (n - 1) as nat) {
            Err(e) => Err(e),
            Ok((rs, mid)) => match record_at(buf, mid) {
                Err(e) => Err(e),
                Ok((r, end)) => Ok((rs.push(r), end)),
            },
        }
    }
}

/// The packet that stands in `buf` at `at` with the position behind it:
/// the header, then as many entries of each section as the header counts.
pub open spec fn packet_at(buf: Seq<u8>, at: int) -> Result<(PacketView, int)> {
    if at + HEADER_LEN > PACKET_SIZE {
        Err(Errors::BufferEnd)
    } else {
        let header = header_at(buf, at);
        match questions_at(buf, at + HEADER_LEN, header.qd_count as nat) {
            Err(e) => Err(e),
            Ok((questions, answers_at)) => match records_at(buf, answers_at, header.an_count as nat) {
                Err(e) => Err(e),
                Ok((answers, authorities_at)) => match records_at(
                    buf,
                    authorities_at,
                    header.ns_count as nat,
                ) {
                    Err(e) => Err(e),
                    Ok((authorities, additionals_at)) => match records_at(
                        buf,
                        additionals_at,
                        header.ar_count as nat,
                    ) {
                        Err(e) => Err(e),
                        Ok((additionals, end)) => Ok(
                            (
                                PacketView { header, questions, answers, authorities, additionals },
                                end,
                            ),
                        ),
                    },
                },
            },
        }
    }
}

/// Once a question cannot be read, asking for more questions fails alike.
pub proof fn lemma_questions_at_fails(buf: Seq<u8>, at: int, k: nat, n: nat)
    requires
        k <= n,
        questions_at(buf, at, k) is Err,
    ensures
        questions_at(buf, at, n) == questions_at(buf, at, k),
    decreases n - k,
{
    if k < n {
        lemma_questions_at_fails(buf, at, k, (n - 1) as nat);
    }
}

/// Once a record cannot be read, asking for more records fails alike.
pub proof fn lemma_records_at_fails(buf: Seq<u8>, at: int, k: nat, n: nat)
    requires
        k <= n,
        records_at(buf, at, k) is Err,
    ensures
        records_at(buf, at, n) == records_at(buf, at, k),
    decreases n - k,
{
    if k < n {
        lemma_records_at_fails(buf, at, k, (n - 1) as nat);
    }
}

/// Reading `n` entries yields `n` entries.
pub proof fn lemma_questions_at_len(buf: Seq<u8>, at: int, n: nat)
    ensures
        questions_at(buf, at, n) matches Ok((qs, _)) ==> qs.len() == n,
    decreases n,
{
    if n > 0 {
        lemma_questions_at_len(buf, at, (n - 1) as nat);
    }
}

/// Reading `n` entries yields `n` entries.
pub proof fn lemma_records_at_len(buf: Seq<u8>, at: int, n: nat)
    ensures
        records_at(buf, at, n) matches Ok((rs, _)) ==> rs.len() == n,
    decreases n,
{
    if n > 0 {
        lemma_records_at_len(buf, at, (n - 1) as nat);
    }
}

/// Once a question cannot be written, writing more questions fails alike.
pub proof fn lemma_questions_end_fails(qs: Seq<QuestionView>, pos: int, k: int)
    requires
        0 <= k <= qs.len(),
        questions_end(qs.subrange(0, k), pos) is Err,
    ensures
        questions_end(qs, pos) == questions_end(qs.subrange(0, k), pos),
    decreases qs.len() - k,
{
    if k < qs.len() {
        assert(qs.subrange(0, k + 1).drop_last() =~= qs.subrange(0, k));
        lemma_questions_end_fails(qs, pos, k + 1);
    } else {
        assert(qs.subrange(0, k) =~= qs);
    }
}

/// Once a record cannot be written, writing more records fails alike.
pub proof fn lemma_records_end_fails(rs: Seq<RecordView>, pos: int, k: int)
    requires
        0 <= k <= rs.len(),
        records_end(rs.subrange(0, k), pos) is Err,
    ensures
        records_end(rs, pos) == records_end(rs.subrange(0, k), pos),
    decreases rs.len() - k,
{
    if k < rs.len() {
        assert(rs.subrange(0, k + 1).drop_last() =~= rs.subrange(0, k));
        lemma_records_end_fails(rs, pos, k + 1);
    } else {
        assert(rs.subrange(0, k) =~= rs);
    }
}

/// Reads `count` questions from the cursor on and appends them to
/// `section`.
fn parse_questions(buf: &mut RawPacket, count: u16, section: &mut Vec<Question>) -> (r: Result<()>)
    requires
        old(buf).wf(),
    ensures
        final(buf).wf(),
        final(buf).bytes() == old(buf).bytes(),
        match questions_at(old(buf).bytes(), old(buf).pos(), count as nat) {
            Ok((qs, end)) => r == Ok::<(), Errors>(()) && final(buf).pos() == end
                && question_views(final(section)@) == question_views(old(section)@) + qs,
            Err(e) => r == Err::<(), Errors>(e),
        },
{
    let ghost bytes = buf.bytes();
    let ghost at = buf.pos();
    let ghost mut done: Seq<QuestionView> = seq![];
    let mut i: u16 = 0;
    assert(question_views(section@) + done =~= question_views(section@));
    while i < count
        invariant
            buf.wf(),
            buf.bytes() == bytes,
            bytes == old(buf).bytes(),
            at == old(buf).pos(),
            i <= count,
            questions_at(bytes, at, i as nat) == Ok::<(Seq<QuestionView>, int), Errors>(
                (done, buf.pos()),
            ),
            question_views(section@) == question_views(old(section)@) + done,
        decreases count - i,
    {
        let ghost prev = buf.pos();
        let mut question = Question::new();
        match question.parse(buf) {
            Ok(()) => {},
            Err(e) => {
                proof {
                    lemma_questions_at_fails(bytes, at, (i + 1) as nat, count as nat);
                }
                return Err(e);
            },
        }
        proof {
            let q = question_at(bytes, prev).unwrap().0;
            assert(Seq::<char>::empty() + q.name =~= q.name);
            assert(question@ == q);
            assert(question_views(section@.push(question)) =~= question_views(section@).push(
                question@,
            ));
            assert(question_views(old(section)@) + done.push(question@) =~= (question_views(
                old(section)@,
            ) + done).push(question@));
            done = done.push(question@);
        }
        section.push(question);
        i += 1;
    }
    Ok(())
}

/// Reads `count` records from the cursor on and appends them to `section`.
fn parse_records(buf: &mut RawPacket, count: u16, section: &mut Vec<Record>) -> (r: Result<()>)
    requires
        old(buf).wf(),
    ensures
        final(buf).wf(),
        final(buf).bytes() == old(buf).bytes(),
        match records_at(old(buf).bytes(), old(buf).pos(), count as nat) {
            Ok((rs, end)) => r == Ok::<(), Errors>(()) && final(buf).pos() == end
                && record_views(final(section)@) == record_views(old(section)@) + rs,
            Err(e) => r == Err::<(), Errors>(e),
        },
{
    let ghost bytes = buf.bytes();
    let ghost at = buf.pos();
    let ghost mut done: Seq<RecordView> = seq![];
    let mut i: u16 = 0;
    assert(record_views(section@) + done =~= record_views(section@));
    while i < count
        invariant
            buf.wf(),
            buf.bytes() == bytes,
            bytes == old(buf).bytes(),
            at == old(buf).pos(),
            i <= count,
            records_at(bytes, at, i as nat) == Ok::<(Seq<RecordView>, int), Errors>(
                (done, buf.pos()),
            ),
            record_views(section@) == record_views(old(section)@) + done,
        decreases count - i,
    {
        let record = match Record::parse(buf) {
            Ok(record) => record,
            Err(e) => {
                proof {
                    lemma_records_at_fails(bytes, at, (i + 1) as nat, count as nat);
                }
                return Err(e);
            },
        };
        proof {
            assert(record_views(section@.push(record)) =~= record_views(section@).push(record@));
            assert(record_views(old(section)@) + done.push(record@) =~= (record_views(
                old(section)@,
            ) + done).push(record@));
            done = done.push(record@);
        }
        section.push(record);
        i += 1;
    }
    Ok(())
}

/// Writes the questions in turn from the cursor on.
fn write_questions(section: &Vec<Question>, buf: &mut RawPacket) -> (r: Result<()>)
    requires
        old(buf).wf(),
    ensures
        final(buf).wf(),
        match questions_end(question_views(section@), old(buf).pos()) {
            Ok(end) => r == Ok::<(), Errors>(()) && final(buf).pos() == end && final(buf).wrote(
                *old(buf),
                questions_wire(question_views(section@)),
            ) && end == old(buf).pos() + questions_wire(question_views(section@)).len(),
            Err(e) => r == Err::<(), Errors>(e),
        },
{
    let ghost b0 = *buf;
    let ghost qs = question_views(section@);
    let n: usize = section.len();
    let mut i: usize = 0;
    proof {
        assert(qs.subrange(0, 0) =~= Seq::<QuestionView>::empty());
        assert(buf.bytes() =~= crate::raw_packet::placed(
            b0.bytes(),
            b0.pos(),
            Seq::<u8>::empty(),
        ));
    }
    while i < n
        invariant
            b0.wf(),
            b0 == *old(buf),
            qs == question_views(section@),
            n == section@.len(),
            i <= n,
            questions_end(qs.subrange(0, i as int), b0.pos()) == Ok::<int, Errors>(buf.pos()),
            buf.wrote(b0, questions_wire(qs.subrange(0, i as int))),
            b0.pos() + questions_wire(qs.subrange(0, i as int)).len() == buf.pos(),
        decreases n - i,
    {
        let ghost b1 = *buf;
        let ghost done = questions_wire(qs.subrange(0, i as int));
        let r = section[i].write(buf);
        proof {
            assert(qs.subrange(0, i + 1).drop_last() =~= qs.subrange(0, i as int));
            assert(qs.subrange(0, i + 1).last() == section@[i as int]@);
            if r is Ok {
                buf.lemma_wrote_more(b0, b1, done, question_wire(section@[i as int]@));
            } else {
                lemma_questions_end_fails(qs, b0.pos(), i + 1);
            }
        }
        match r {
            Ok(()) => {},
            Err(e) => { return Err(e); },
        }
        i += 1;
    }
    proof {
        assert(qs.subrange(0, n as int) =~= qs);
    }
    Ok(())
}

/// Writes the records in turn from the cursor on.
fn write_records(section: &Vec<Record>, buf: &mut RawPacket) -> (r: Result<()>)
    requires
        old(buf).wf(),
    ensures
        final(buf).wf(),
        match records_end(record_views(section@), old(buf).pos()) {
            Ok(end) => r == Ok::<(), Errors>(()) && final(buf).pos() == end && final(buf).wrote(
                *old(buf),
                records_wire(record_views(section@)),
            ) && end == old(buf).pos() + records_wire(record_views(section@)).len(),
            Err(e) => r == Err::<(), Errors>(e),
        },
{
    let ghost b0 = *buf;
    let ghost rs = record_views(section@);
    let n: usize = section.len();
    let mut i: usize = 0;
    proof {
        assert(rs.subrange(0, 0) =~= Seq::<RecordView>::empty());
        assert(buf.bytes() =~= crate::raw_packet::placed(
            b0.bytes(),
            b0.pos(),
            Seq::<u8>::empty(),
        ));
    }
    while i < n
        invariant
            b0.wf(),
            b0 == *old(buf),
            rs == record_views(section@),
            n == section@.len(),
            i <= n,
            records_end(rs.subrange(0, i as int), b0.pos()) == Ok::<int, Errors>(buf.pos()),
            buf.wrote(b0, records_wire(rs.subrange(0, i as int))),
            b0.pos() + records_wire(rs.subrange(0, i as int)).len() == buf.pos(),
        decreases n - i,
    {
        let ghost b1 = *buf;
        let ghost done = records_wire(rs.subrange(0, i as int));
        let r = section[i].write(buf);
        proof {
            assert(rs.subrange(0, i + 1).drop_last() =~= rs.subrange(0, i as int));
            assert(rs.subrange(0, i + 1).last() == section@[i as int]@);
            if r is Ok {
                buf.lemma_wrote_more(b0, b1, done, section@[i as int]@.wire());
            } else {
                lemma_records_end_fails(rs, b0.pos(), i + 1);
            }
        }
        match r {
            Ok(()) => {},
            Err(e) => { return Err(e); },
        }
        i += 1;
    }
    proof {
        assert(rs.subrange(0, n as int) =~= rs);
    }
    Ok(())
}

impl DNSPacket {
    /// A packet with an empty header and empty sections.
    pub fn new() -> (p: Self)
        ensures
            p.header == Header::new_spec(),
            p@.questions.len() == 0,
            p@.answers.len() == 0,
            p@.authorities.len() == 0,
            p@.additionals.len() == 0,
    {
        DNSPacket {
            header: Header::new(),
            question_sec: Vec::new(),
            answer_sec: Vec::new(),
            authority_sec: Vec::new(),
            additional_sec: Vec::new(),
        }
    }

    /// Reads the packet under the cursor into `self`: the header, then as
    /// many entries of each section as the header counts. The entries read
    /// are appended to those that `self` holds. Where one of them cannot
    /// be read the call fails with its error and `self` stays as it was,
    /// so a packet that came back holds in each section the number of
    /// entries that its header gives.
    pub fn parse(&mut self, buf: &mut RawPacket) -> (r: Result<()>)
        requires
            old(buf).wf(),
        ensures
            final(buf).wf(),
            final(buf).bytes() == old(buf).bytes(),
            match packet_at(old(buf).bytes(), old(buf).pos()) {
                Ok((p, end)) => r == Ok::<(), Errors>(()) && final(buf).pos() == end && final(self)@
                    == (PacketView {
                    header: p.header,
                    questions: old(self)@.questions + p.questions,
                    answers: old(self)@.answers + p.answers,
                    authorities: old(self)@.authorities + p.authorities,
                    additionals: old(self)@.additionals + p.additionals,
                }) && p.counts_match(),
                Err(e) => r == Err::<(), Errors>(e) && *final(self) == *old(self),
            },
    {
        let ghost bytes = buf.bytes();
        let mut header = Header::new();
        match header.parse(buf) {
            Ok(()) => {},
            Err(e) => { return Err(e); },
        }
        let ghost questions_from = buf.pos();
        let mut questions: Vec<Question> = Vec::new();
        match parse_questions(buf, header.qd_count, &mut questions) {
            Ok(()) => {},
            Err(e) => { return Err(e); },
        }
        let ghost answers_from = buf.pos();
        let mut answers: Vec<Record> = Vec::new();
        match parse_records(buf, header.an_count, &mut answers) {
            Ok(()) => {},
            Err(e) => { return Err(e); },
        }
        let ghost authorities_from = buf.pos();
        let mut authorities: Vec<Record> = Vec::new();
        match parse_records(buf, header.ns_count, &mut authorities) {
            Ok(()) => {},
            Err(e) => { return Err(e); },
        }
        let ghost additionals_from = buf.pos();
        let mut additionals: Vec<Record> = Vec::new();
        match parse_records(buf, header.ar_count, &mut additionals) {
            Ok(()) => {},
            Err(e) => { return Err(e); },
        }
        proof {
            lemma_questions_at_len(bytes, questions_from, header.qd_count as nat);
            lemma_records_at_len(bytes, answers_from, header.an_count as nat);
            lemma_records_at_len(bytes, authorities_from, header.ns_count as nat);
            lemma_records_at_len(bytes, additionals_from, header.ar_count as nat);
            assert(question_views(Seq::empty()) + question_views(questions@) =~= question_views(
                questions@,
            ));
            assert(record_views(Seq::empty()) + record_views(answers@) =~= record_views(answers@));
            assert(record_views(Seq::empty()) + record_views(authorities@) =~= record_views(
                authorities@,
            ));
            assert(record_views(Seq::empty()) + record_views(additionals@) =~= record_views(
                additionals@,
            ));
            assert(question_views(self.question_sec@ + questions@) =~= question_views(
                self.question_sec@,
            ) + question_views(questions@));
            assert(record_views(self.answer_sec@ + answers@) =~= record_views(self.answer_sec@)
                + record_views(answers@));
            assert(record_views(self.authority_sec@ + authorities@) =~= record_views(
                self.authority_sec@,
            ) + record_views(authorities@));
            assert(record_views(self.additional_sec@ + additionals@) =~= record_views(
                self.additional_sec@,
            ) + record_views(additionals@));
        }
        self.header = header;
        self.question_sec.append(&mut questions);
        self.answer_sec.append(&mut answers);
        self.authority_sec.append(&mut authorities);
        self.additional_sec.append(&mut additionals);
        Ok(())
    }

    /// Writes the packet at the cursor: the header as it stands, then each
    /// section in turn. The counts in the header are written as they are,
    /// whatever the sections hold.
    pub fn write(&self, buf: &mut RawPacket) -> (r: Result<()>)
        requires
            old(buf).wf(),
        ensures
            final(buf).wf(),
            match self@.write_end(old(buf).pos()) {
                Ok(end) => r == Ok::<(), Errors>(()) && final(buf).pos() == end && final(buf).wrote(
                    *old(buf),
                    self@.wire(),
                ),
                Err(e) => r == Err::<(), Errors>(e),
            },
    {
        let ghost b0 = *buf;
        let ghost v = self@;
        match self.header.write(buf) {
            Ok(()) => {},
            Err(e) => { return Err(e); },
        }
        let ghost b1 = *buf;
        let ghost d1 = header_wire(v.header);
        match write_questions(&self.question_sec, buf) {
            Ok(()) => {},
            Err(e) => { return Err(e); },
        }
        let ghost b2 = *buf;
        let ghost d2 = d1 + questions_wire(v.questions);
        proof {
            b2.lemma_wrote_more(b0, b1, d1, questions_wire(v.questions));
        }
        match write_records(&self.answer_sec, buf) {
            Ok(()) => {},
            Err(e) => { return Err(e); },
        }
        let ghost b3 = *buf;
        let ghost d3 = d2 + records_wire(v.answers);
        proof {
            b3.lemma_wrote_more(b0, b2, d2, records_wire(v.answers));
        }
        match write_records(&self.authority_sec, buf) {
            Ok(()) => {},
            Err(e) => { return Err(e); },
        }
        let ghost b4 = *buf;
        let ghost d4 = d3 + records_wire(v.authorities);
        proof {
            b4.lemma_wrote_more(b0, b3, d3, records_wire(v.authorities));
        }
        match write_records(&self.additional_sec, buf) {
            Ok(()) => {},
            Err(e) => { return Err(e); },
        }
        proof {
            buf.lemma_wrote_more(b0, b4, d4, records_wire(v.additionals));
        }
        Ok(())
    }
}

} // verus!
