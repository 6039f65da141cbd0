//! An iterative DNS resolver: the wire codec for DNS messages and the
//! referral-following resolution state machine.

pub mod error;
pub mod fields;
pub mod header;
pub mod ipv4;
pub mod ipv6;
pub mod name;
pub mod packet;
pub mod query;
pub mod question;
pub mod reader;
pub mod record;
pub mod resolver;
pub mod wire;

pub use error::{DnsError, Stage};
pub use fields::{ClassField, TypeField};
pub use header::DNSHeader;
pub use ipv4::{ipv4_addr_from_bytes, Ipv4Address};
pub use ipv6::{ipv6_addr_from_bytes, Ipv6Address};
pub use name::DomainName;
pub use packet::DNSPacket;
pub use query::{build_query, build_query_with_id};
pub use question::DNSQuestion;
pub use reader::Reader;
pub use record::{Answer, DNSRecord};
pub use resolver::{Failure, Resolver, Step, TransportFailure};
