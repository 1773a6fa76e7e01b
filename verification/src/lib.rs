//! Wire-format engine of a small DNS client and forwarder: a fixed-size
//! cursor buffer, the codecs for header, question and resource record, the
//! packet assembler, and the decisions of the forwarding resolver.

pub mod dns_packet;
pub mod errors;
pub mod header;
pub mod name;
pub mod question;
pub mod raw_packet;
pub mod record;
pub mod round_trip;
pub mod server;
