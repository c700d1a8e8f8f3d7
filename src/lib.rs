//! A minimal broker-style wire protocol: length-prefixed frames with
//! big-endian fixed-width header fields, and a per-connection state machine
//! that reads one request frame and answers it by echoing its correlation id.

pub mod codec;
pub mod connection;
