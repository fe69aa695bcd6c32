//! The logic of a forwarder that turns delimited messages from a serial port
//! into UDP datagrams.
pub mod args;
pub mod framing;
pub mod numbers;
pub mod ports;
pub mod reader;
pub mod rewrite;
pub mod ring;
pub mod select;
pub mod serial;
pub mod session;
pub mod stats;
pub mod subseq;
pub mod terminator;
pub mod text;
pub mod writer;
