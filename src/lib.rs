//! A small DNS toolkit: a verified codec for the DNS wire format (names
//! with compression pointers, headers, questions and resource records) and
//! a verified state machine that walks the delegation hierarchy from a root
//! hint down to an answer. Sending and receiving datagrams is left to the
//! caller.

mod bytes;
pub mod constants;
pub mod domain_name;
pub mod errors;
pub mod resolver;
pub mod round_trip;
mod text;
pub mod wire;
