//! The transport-and-message core of a DNS protocol stack: the wire codec for
//! names and messages, stream and datagram framing, the table of outstanding
//! transactions, and the decisions of the multiplexer and the retry wrapper.

pub mod error;
pub mod name;
pub mod message;
pub mod transaction;
pub mod framing;
pub mod retry;
pub mod multiplexer;
pub mod tls;
