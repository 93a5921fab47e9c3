//! A DNS message codec and the decision logic of a small stub name server.
pub mod bits;
pub mod error;
pub mod header;
pub mod message;
pub mod name;
pub mod record;
pub mod server;

pub use error::DnsError;
pub use header::{Header, OperationCode, QueryResponseIndicator, ResponseCode};
pub use message::DnsMessage;
pub use name::{deserialize_name, serialize_name};
pub use record::{Answer, Question};
pub use server::{get_response, DnsServerConfig, DnsServerMode, Forwarding};
