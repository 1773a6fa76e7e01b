//! The resolver's side of an exchange: the query it sends upstream, and
//! the response it hands back to whoever asked.
//!
//! Sending and receiving is left to the caller. What is decided here is
//! which packet goes out and what is made of the packet that comes back.

use vstd::prelude::*;
use vstd::string::*;
use crate::dns_packet::DNSPacket;
use crate::dns_packet::PacketView;
use crate::dns_packet::packet_at;
use crate::errors::Result;
use crate::header::Header;
use crate::header::ResponseCode;
use crate::question::QueryType;
use crate::question::Question;
use crate::question::QuestionView;
use crate::raw_packet::PACKET_SIZE;
use crate::raw_packet::RawPacket;
use crate::raw_packet::placed;

verus! {

/// The class of every question asked: Internet.
pub const CLASS_IN: u16 = 1;

/// The UDP port that DNS servers listen on.
pub const UDP_PORT: u16 = 53;

/// The IPv4 address of the upstream resolver, most significant octet
/// first.
pub const DNS_RESOLVER_IP: [u8; 4] = [8, 8, 8, 8];

/// The IPv4 address that the resolver binds its own socket to: any.
pub const DNS_SERVER_IP: [u8; 4] = [0, 0, 0, 0];

/// What is done with a query that came in.
pub enum Plan {
    /// The question is to be looked up upstream, and the outcome handed to
    /// `finish_response` with this identifier.
    Lookup { id: u16, question: Question },
    /// The response is ready to be sent.
    Reply { response: DNSPacket },
}

/// Calls `rand::thread_rng` and `Rng::gen` for a 16-bit number. The number
/// is drawn at random, so nothing is claimed of it. The generator is
/// seeded from the operating system on first use in a thread, and panics
/// if the system gives it no seed.
#[verifier::external_body]
fn random_id() -> u16 {
    rand::Rng::gen(&mut rand::thread_rng())
}

/// The header of a query for one question, recursion desired.
pub open spec fn query_header(id: u16) -> Header {
    Header { id, qd_count: 1, rd: true, ..Header::new_spec() }
}

/// The header that every response starts from: the identifier of the
/// query, marked as a response, recursion desired and available.
pub open spec fn response_header(id: u16) -> Header {
    Header { id, qr: true, rd: true, ra: true, ..Header::new_spec() }
}

/// The query with identifier `id` that asks for the records of type
/// `query_type` of the name `query`.
pub fn build_query(id: u16, query: &str, query_type: QueryType) -> (p: DNSPacket)
    ensures
        p@ == (PacketView {
            header: query_header(id),
            questions: seq![QuestionView { name: query@, query_type, class: CLASS_IN }],
            answers: Seq::empty(),
            authorities: Seq::empty(),
            additionals: Seq::empty(),
        }),
        p@.counts_match(),
{
    let mut packet = DNSPacket::new();
    packet.header.id = id;
    packet.header.qd_count = 1;
    packet.header.rd = true;
    let mut que = Question::new();
    que.name = query.to_owned();
    que.query_type = query_type;
    que.class = CLASS_IN;
    packet.question_sec.push(que);
    assert(packet@.questions =~= seq![QuestionView { name: query@, query_type, class: CLASS_IN }]);
    assert(packet@.answers =~= Seq::empty());
    assert(packet@.authorities =~= Seq::empty());
    assert(packet@.additionals =~= Seq::empty());
    packet
}

/// A query with a fresh random identifier that asks for the records of
/// type `query_type` of the name `query`.
pub fn new_query(query: &str, query_type: QueryType) -> (p: DNSPacket)
    ensures
        p@ == (PacketView {
            header: query_header(p.header.id),
            questions: seq![QuestionView { name: query@, query_type, class: CLASS_IN }],
            answers: Seq::empty(),
            authorities: Seq::empty(),
            additionals: Seq::empty(),
        }),
        p@.counts_match(),
{
    build_query(random_id(), query, query_type)
}

/// The packet written into a fresh buffer, from its start. The cursor of
/// the buffer stands behind the packet.
pub fn encode_packet(packet: &DNSPacket) -> (r: Result<RawPacket>)
    ensures
        match packet@.write_end(0) {
            Ok(end) => (r matches Ok(buf) && buf.wf() && buf.pos() == end && buf.bytes() == placed(
                Seq::new(PACKET_SIZE as nat, |i: int| 0u8),
                0,
                packet@.wire(),
            )),
            Err(e) => (r matches Err(x) && x == e),
        },
{
    let mut buf = RawPacket::new();
    match packet.write(&mut buf) {
        Ok(()) => Ok(buf),
        Err(e) => Err(e),
    }
}

/// The packet that stands under the cursor of `buf`.
pub fn read_packet(buf: &mut RawPacket) -> (r: Result<DNSPacket>)
    requires
        old(buf).wf(),
    ensures
        final(buf).wf(),
        final(buf).bytes() == old(buf).bytes(),
        match packet_at(old(buf).bytes(), old(buf).pos()) {
            Ok((p, end)) => (r matches Ok(x) && x@ == p) && final(buf).pos() == end
                && p.counts_match(),
            Err(e) => (r matches Err(x) && x == e),
        },
{
    let mut packet = DNSPacket::new();
    match packet.parse(buf) {
        Ok(()) => {
            proof {
                let p = packet_at(old(buf).bytes(), old(buf).pos()).unwrap().0;
                assert(packet@.questions =~= p.questions);
                assert(packet@.answers =~= p.answers);
                assert(packet@.authorities =~= p.authorities);
                assert(packet@.additionals =~= p.additionals);
            }
            Ok(packet)
        },
        Err(e) => Err(e),
    }
}

/// The response to a query that holds no question: a format error.
pub open spec fn refusal(id: u16) -> PacketView {
    PacketView {
        header: Header { rcode: ResponseCode::Former, ..response_header(id) },
        questions: Seq::empty(),
        answers: Seq::empty(),
        authorities: Seq::empty(),
        additionals: Seq::empty(),
    }
}

/// The response to a query whose lookup failed: a server failure, with no
/// entries.
pub open spec fn failure(id: u16) -> PacketView {
    PacketView {
        header: Header { rcode: ResponseCode::Servfail, ..response_header(id) },
        questions: Seq::empty(),
        answers: Seq::empty(),
        authorities: Seq::empty(),
        additionals: Seq::empty(),
    }
}

/// The response that relays what came back from upstream: its response
/// code, its records and their counts, behind the question that was asked.
pub open spec fn relay(id: u16, question: QuestionView, upstream: PacketView) -> PacketView {
    PacketView {
        header: Header {
            rcode: upstream.header.rcode,
            qd_count: 1,
            an_count: upstream.header.an_count,
            ns_count: upstream.header.ns_count,
            ar_count: upstream.header.ar_count,
            ..response_header(id)
        },
        questions: seq![question],
        answers: upstream.answers,
        authorities: upstream.authorities,
        additionals: upstream.additionals,
    }
}

/// Decides what to do with a query that came in. Its last question is to
/// be looked up; a query without a question gets a format error at once.
pub fn plan_response(query: DNSPacket) -> (plan: Plan)
    ensures
        query@.questions.len() == 0 ==> (plan matches Plan::Reply { response } && response@
            == refusal(query.header.id)),
        query@.questions.len() > 0 ==> (plan matches Plan::Lookup { id, question } && id
            == query.header.id && question@ == query@.questions.last()),
{
    let id: u16 = query.header.id;
    let mut questions = query.question_sec;
    match questions.pop() {
        Some(question) => Plan::Lookup { id, question },
        None => {
            let mut response = empty_response(id);
            response.header.rcode = ResponseCode::Former;
            Plan::Reply { response }
        },
    }
}

/// The response to the query with identifier `id` that asked `question`,
/// given how the lookup went: what came back is relayed, a failure becomes
/// a server failure.
pub fn finish_response(id: u16, question: Question, upstream: Result<DNSPacket>) -> (response:
    DNSPacket)
    ensures
        match upstream {
            Ok(packet) => response@ == relay(id, question@, packet@),
            Err(_) => response@ == failure(id),
        },
        upstream matches Ok(packet) ==> (packet@.counts_match() ==> response@.counts_match()),
        upstream is Err ==> response@.counts_match(),
{
    let mut response = empty_response(id);
    match upstream {
        Ok(packet) => {
            response.question_sec.push(question);
            response.header.rcode = packet.header.rcode;
            response.header.qd_count = 1;
            response.header.an_count = packet.header.an_count;
            response.header.ns_count = packet.header.ns_count;
            response.header.ar_count = packet.header.ar_count;
            response.answer_sec = packet.answer_sec;
            response.authority_sec = packet.authority_sec;
            response.additional_sec = packet.additional_sec;
            assert(response@.questions =~= seq![question@]);
        },
        Err(_) => {
            response.header.rcode = ResponseCode::Servfail;
        },
    }
    response
}

/// A response without entries that carries the identifier of its query.
fn empty_response(id: u16) -> (response: DNSPacket)
    ensures
        response@ == (PacketView {
            header: response_header(id),
            questions: Seq::empty(),
            answers: Seq::empty(),
            authorities: Seq::empty(),
            additionals: Seq::empty(),
        }),
{
    let mut response = DNSPacket::new();
    response.header.id = id;
    response.header.rd = true;
    response.header.ra = true;
    response.header.qr = true;
    assert(response@.questions =~= Seq::empty());
    assert(response@.answers =~= Seq::empty());
    assert(response@.authorities =~= Seq::empty());
    assert(response@.additionals =~= Seq::empty());
    response
}

} // verus!
