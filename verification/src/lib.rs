//! A small DNS forwarder core: the wire codec for headers, questions and
//! resource records (with name decompression), and the rules by which one
//! question is answered from an upstream reply.

pub mod error;
pub mod wire;
pub mod name;
pub mod text;
pub mod types;
pub mod message;
pub mod resolver;
