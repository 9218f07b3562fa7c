//! A small DNS client codec: it builds the wire form of a query with one
//! question and decodes the answer section of the reply.
//!
//! Building a query: [`dns_header`] holds the twelve-byte header,
//! [`dns_name`] says what the wire form of a domain name is, [`dns_question`]
//! builds a question from a domain, and [`dns_packet`] puts header and
//! question into one buffer.
//!
//! Decoding a reply: [`name_reader`] reads the names of a message, with and
//! without following compression pointers, and [`parse_answer`] reads the
//! records of the answer section.
//!
//! [`round_trip`] and [`domain_text`] prove how these parts fit together.
//!
//! The contracts are stated over byte sequences and proved; no function reads
//! or writes outside a buffer, whatever the bytes are. Two calls leave the
//! verified code and are taken on trust: `rand` draws the id of a fresh
//! header, and `String::from_utf8_lossy` turns the bytes of a label into text.

pub mod dns_header;
pub mod dns_name;
pub mod dns_packet;
pub mod dns_question;
pub mod domain_text;
pub mod error;
pub mod name_reader;
pub mod parse_answer;
pub mod round_trip;
pub mod wire;
