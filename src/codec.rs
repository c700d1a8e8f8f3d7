//! Byte-level encoding of the frame envelope and of the request and response
//! headers. All integers are big-endian two's complement of fixed width.

use vstd::prelude::*;
use byteorder::{BigEndian, ByteOrder};

verus! {

/// Length in bytes of the size prefix that starts every frame.
pub const SIZE_FIELD_LEN: usize = 4;

/// Length in bytes of the fixed part of a request header
/// (api key, api version, correlation id).
pub const REQUEST_HEADER_LEN: usize = 8;

/// Big-endian bytes of a signed 16-bit integer.
pub open spec fn i16_be(n: i16) -> Seq<u8> {
    let u = n as u16;
    seq![(u >> 8u16) as u8, u as u8]
}

/// Big-endian bytes of a signed 32-bit integer.
pub open spec fn i32_be(n: i32) -> Seq<u8> {
    let u = n as u32;
    seq![(u >> 24u32) as u8, (u >> 16u32) as u8, (u >> 8u32) as u8, u as u8]
}

/// The signed 16-bit integer stored big-endian in `b[at]`, `b[at + 1]`.
pub open spec fn be_i16_at(b: Seq<u8>, at: int) -> i16 {
    (((b[at] as u16) << 8u16) | (b[at + 1] as u16)) as i16
}

/// The signed 32-bit integer stored big-endian in `b[at .. at + 4]`.
pub open spec fn be_i32_at(b: Seq<u8>, at: int) -> i32 {
    (((b[at] as u32) << 24u32) | ((b[at + 1] as u32) << 16u32) | ((b[at + 2] as u32) << 8u32)
        | (b[at + 3] as u32)) as i32
}

/// `b` with the four bytes at `at` replaced by the big-endian bytes of `n`.
pub open spec fn with_i32_at(b: Seq<u8>, at: int, n: i32) -> Seq<u8> {
    b.subrange(0, at) + i32_be(n) + b.subrange(at + 4, b.len() as int)
}

/// Relies on byteorder's `BigEndian::read_i16`: the first two bytes of the
/// slice, most significant first.
#[verifier::external_body]
fn read_i16_at(b: &[u8], at: usize) -> (r: i16)
    requires
        at + 2 <= b@.len(),
    ensures
        r == be_i16_at(b@, at as int),
{
    BigEndian::read_i16(&b[at..])
}

/// Relies on byteorder's `BigEndian::read_i32`: the first four bytes of the
/// slice, most significant first.
#[verifier::external_body]
pub(crate) fn read_i32_at(b: &[u8], at: usize) -> (r: i32)
    requires
        at + 4 <= b@.len(),
    ensures
        r == be_i32_at(b@, at as int),
{
    BigEndian::read_i32(&b[at..])
}

/// Relies on byteorder's `BigEndian::write_i32`: it overwrites the first four
/// bytes of the slice with `n`, most significant first, and nothing else.
#[verifier::external_body]
fn write_i32_at(buf: &mut Vec<u8>, at: usize, n: i32)
    requires
        at + 4 <= old(buf)@.len(),
    ensures
        final(buf)@ == with_i32_at(old(buf)@, at as int, n),
{
    BigEndian::write_i32(&mut buf[at..], n)
}

/// Why a request payload could not be decoded.
#[derive(Debug, Clone, Copy, PartialEq, Eq, Structural)]
pub enum DecodeError {
    /// The payload is shorter than the fixed request header.
    InsufficientData,
}

/// The header that starts every request payload.
#[derive(Debug, Clone)]
pub struct RequestHeader {
    pub request_api_key: i16,
    pub request_api_version: i16,
    pub correlation_id: i32,
    /// Never carried by the fixed header; always `None` after decoding.
    pub client_id: Option<String>,
}

/// A decoded request: its header (no request body is modelled).
#[derive(Debug, Clone)]
pub struct RequestMessage {
    pub request_header: RequestHeader,
}

/// The header of a response: the correlation id of the request it answers.
#[derive(Debug, Clone, Copy, PartialEq, Eq, Structural)]
pub struct ResponseHeader {
    pub correlation_id: i32,
}

/// A response ready to be framed (no response body is modelled).
#[derive(Debug, Clone, Copy, PartialEq, Eq, Structural)]
pub struct ResponseMessage {
    pub response_header: ResponseHeader,
}

/// What decoding `payload` as a request header yields: every fixed field
/// read from its offset, and no client id.
pub open spec fn header_decodes_to(h: RequestHeader, payload: Seq<u8>) -> bool {
    &&& h.request_api_key == be_i16_at(payload, 0)
    &&& h.request_api_version == be_i16_at(payload, 2)
    &&& h.correlation_id == be_i32_at(payload, 4)
    &&& h.client_id is None
}

/// The complete response frame that carries `correlation_id`: a size prefix
/// of 4 followed by the correlation id.
pub open spec fn response_frame(correlation_id: i32) -> Seq<u8> {
    i32_be(4) + i32_be(correlation_id)
}

/// The complete request frame with the given header fields and no client id.
pub open spec fn request_frame(api_key: i16, api_version: i16, correlation_id: i32) -> Seq<u8> {
    i32_be(8) + i16_be(api_key) + i16_be(api_version) + i32_be(correlation_id)
}

/// Appends the big-endian bytes of `n` to `buf`.
fn push_i32(buf: &mut Vec<u8>, n: i32)
    requires
        old(buf)@.len() + 4 <= usize::MAX,
    ensures
        final(buf)@ == old(buf)@ + i32_be(n),
{
    let start = buf.len();
    let mut i: usize = 0;
    while i < 4
        invariant
            0 <= i <= 4,
            start == old(buf)@.len(),
            start + 4 <= usize::MAX,
            buf@.len() == start + i,
            buf@.subrange(0, start as int) == old(buf)@,
        decreases 4 - i,
    {
        buf.push(0u8);
        i = i + 1;
        assert(buf@.subrange(0, start as int) =~= old(buf)@);
    }
    write_i32_at(buf, start, n);
    assert(buf@ =~= old(buf)@ + i32_be(n));
}

impl ResponseHeader {
    /// Appends the encoded header to `writer`.
    pub fn write_to(&self, writer: &mut Vec<u8>)
        requires
            old(writer)@.len() + 4 <= usize::MAX,
        ensures
            final(writer)@ == old(writer)@ + i32_be(self.correlation_id),
    {
        push_i32(writer, self.correlation_id);
    }
}

impl ResponseMessage {
    pub fn new(response_header: ResponseHeader) -> (r: Self)
        ensures
            r.response_header == response_header,
    {
        ResponseMessage { response_header }
    }

    /// The framed response: the size prefix, measured from the encoded
    /// header, followed by the header.
    pub fn to_bytes(&self) -> (r: Vec<u8>)
        ensures
            r@ == response_frame(self.response_header.correlation_id),
    {
        let mut buffer: Vec<u8> = Vec::new();
        push_i32(&mut buffer, 0);
        self.response_header.write_to(&mut buffer);
        let message_size = (buffer.len() - SIZE_FIELD_LEN) as i32;
        write_i32_at(&mut buffer, 0, message_size);
        assert(buffer@ =~= response_frame(self.response_header.correlation_id));
        buffer
    }
}

impl RequestHeader {
    /// Decodes the fixed request header from the start of `payload`.
    pub fn read_from(payload: &[u8]) -> (r: Result<RequestHeader, DecodeError>)
        ensures
            r is Ok <==> payload@.len() >= REQUEST_HEADER_LEN,
            r matches Ok(h) ==> header_decodes_to(h, payload@),
            r matches Err(e) ==> e == DecodeError::InsufficientData,
    {
        if payload.len() < REQUEST_HEADER_LEN {
            return Err(DecodeError::InsufficientData);
        }
        let request_api_key = read_i16_at(payload, 0);
        let request_api_version = read_i16_at(payload, 2);
        let correlation_id = read_i32_at(payload, 4);
        Ok(RequestHeader { request_api_key, request_api_version, correlation_id, client_id: None })
    }
}

impl RequestMessage {
    /// Decodes a request from its payload (the bytes after the size prefix).
    pub fn read_from(payload: &[u8]) -> (r: Result<RequestMessage, DecodeError>)
        ensures
            r is Ok <==> payload@.len() >= REQUEST_HEADER_LEN,
            r matches Ok(m) ==> header_decodes_to(m.request_header, payload@),
            r matches Err(e) ==> e == DecodeError::InsufficientData,
    {
        let request_header = RequestHeader::read_from(payload)?;
        Ok(RequestMessage { request_header })
    }
}

/// Decoding the big-endian bytes of `n` gives back `n`.
pub proof fn lemma_i32_round_trip(n: i32)
    ensures
        be_i32_at(i32_be(n), 0) == n,
{
    assert(((((((n as u32) >> 24u32) as u8 as u32) << 24u32) | ((((n as u32) >> 16u32) as u8 as u32)
        << 16u32) | ((((n as u32) >> 8u32) as u8 as u32) << 8u32) | ((n as u32) as u8 as u32))
        as i32) == n) by (bit_vector);
}

} // verus!
