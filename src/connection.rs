//! The decisions of one connection, apart from its I/O.
//!
//! A connection answers exactly one request: the caller hands it every chunk
//! of bytes read from the stream (`on_data`), or tells it that the stream was
//! closed (`on_closed`), and performs the `Step` that comes back. The state is
//! the prefix of the stream that belongs to the request frame, so how the
//! stream was cut into chunks does not matter.

use vstd::prelude::*;
use vstd::slice::slice_subrange;
use crate::codec::{
    be_i32_at, i16_be, i32_be, lemma_i32_round_trip, read_i32_at, request_frame, response_frame,
    DecodeError, RequestMessage, ResponseHeader, ResponseMessage, REQUEST_HEADER_LEN,
    SIZE_FIELD_LEN,
};

verus! {

/// Why a connection ended without a response.
#[derive(Debug, Clone, Copy, PartialEq, Eq, Structural)]
pub enum ConnectionError {
    /// The stream closed before the whole frame arrived.
    ClosedEarly,
    /// The size prefix is negative.
    NegativeSize,
    /// The payload does not hold a request header.
    Decode(DecodeError),
}

/// What the caller does next.
#[derive(Debug, Clone)]
pub enum Step {
    /// Read at most this many more bytes (always at least one).
    NeedMore(usize),
    /// Write these bytes, then close the connection.
    Respond(Vec<u8>),
    /// Close the connection without a response.
    Fail(ConnectionError),
}

/// The size declared by the first four bytes of a frame.
pub open spec fn declared_size(s: Seq<u8>) -> int {
    be_i32_at(s, 0) as int
}

/// How many bytes at the start of stream `s` belong to the request frame.
pub open spec fn frame_len(s: Seq<u8>) -> int {
    if s.len() < 4 {
        s.len() as int
    } else if declared_size(s) < 0 {
        4
    } else if s.len() <= 4 + declared_size(s) {
        s.len() as int
    } else {
        4 + declared_size(s)
    }
}

/// The part of stream `s` that the connection takes in.
pub open spec fn frame_prefix(s: Seq<u8>) -> Seq<u8> {
    s.take(frame_len(s))
}

/// `r` is a state a connection can be in: no byte past the frame.
pub open spec fn well_framed(r: Seq<u8>) -> bool {
    r.len() < 4 || (declared_size(r) < 0 && r.len() == 4) || (0 <= declared_size(r) && r.len()
        <= 4 + declared_size(r))
}

/// How many more bytes the frame needs, given the bytes `r` received so far.
pub open spec fn needed(r: Seq<u8>) -> int {
    if r.len() < 4 {
        4 - r.len()
    } else if declared_size(r) < 0 {
        0
    } else {
        4 + declared_size(r) - r.len()
    }
}

/// What the bytes `r` received so far decide: nothing yet (`None`), the
/// correlation id to echo, or an error.
pub open spec fn outcome(r: Seq<u8>) -> Option<Result<i32, ConnectionError>> {
    if needed(r) > 0 {
        None
    } else if declared_size(r) < 0 {
        Some(Err(ConnectionError::NegativeSize))
    } else if declared_size(r) < REQUEST_HEADER_LEN {
        Some(Err(ConnectionError::Decode(DecodeError::InsufficientData)))
    } else {
        Some(Ok(be_i32_at(r, 8)))
    }
}

/// What the connection decides when the stream closes after `r` was received.
pub open spec fn closed_outcome(r: Seq<u8>) -> Result<i32, ConnectionError> {
    match outcome(r) {
        None => Err(ConnectionError::ClosedEarly),
        Some(o) => o,
    }
}

/// What a peer that sends `stream` and then closes its side gets back.
pub open spec fn exchange(stream: Seq<u8>) -> Result<Seq<u8>, ConnectionError> {
    match closed_outcome(frame_prefix(stream)) {
        Ok(c) => Ok(response_frame(c)),
        Err(e) => Err(e),
    }
}

/// `st` carries out the decision `o`; `need` is the count of a `NeedMore`.
pub open spec fn step_is(st: Step, o: Option<Result<i32, ConnectionError>>, need: int) -> bool {
    match o {
        None => st matches Step::NeedMore(n) && n == need,
        Some(Ok(c)) => st matches Step::Respond(b) && b@ == response_frame(c),
        Some(Err(e)) => st matches Step::Fail(f) && f == e,
    }
}

/// Streams that agree on their first four bytes declare the same size.
proof fn lemma_same_size(x: Seq<u8>, y: Seq<u8>)
    requires
        x.len() >= 4,
        y.len() >= 4,
        forall|i: int| 0 <= i < 4 ==> x[i] == y[i],
    ensures
        declared_size(x) == declared_size(y),
{
    assert(x[0] == y[0] && x[1] == y[1] && x[2] == y[2] && x[3] == y[3]);
}

/// The frame prefix of a stream is a state, and a state is its own prefix.
pub proof fn lemma_frame_prefix_well_framed(s: Seq<u8>)
    ensures
        well_framed(frame_prefix(s)),
        well_framed(s) ==> frame_prefix(s) == s,
{
    let p = frame_prefix(s);
    if s.len() >= 4 {
        lemma_same_size(s, p);
    }
    if well_framed(s) {
        assert(p =~= s);
    }
}

/// Taking in the rest `t` of a stream after its beginning `s` leaves the
/// connection where taking in all of `s + t` at once would.
pub proof fn lemma_chunking(s: Seq<u8>, t: Seq<u8>)
    ensures
        frame_prefix(frame_prefix(s) + t) == frame_prefix(s + t),
{
    let p = frame_prefix(s);
    let st = s + t;
    let pt = p + t;
    if s.len() < 4 {
        assert(p =~= s);
    } else {
        lemma_same_size(s, p);
        lemma_same_size(s, st);
        lemma_same_size(s, pt);
        if declared_size(s) < 0 {
            assert(frame_prefix(pt) =~= frame_prefix(st));
        } else if s.len() <= 4 + declared_size(s) {
            assert(p =~= s);
        } else {
            assert(frame_prefix(pt) =~= frame_prefix(st));
        }
    }
}

/// The state after the chunks `chunks`, each taken in from the state the
/// ones before it left.
pub open spec fn fed(chunks: Seq<Seq<u8>>) -> Seq<u8>
    decreases chunks.len(),
{
    if chunks.len() == 0 {
        Seq::empty()
    } else {
        frame_prefix(fed(chunks.drop_last()) + chunks.last())
    }
}

/// The chunks `chunks` one after another.
pub open spec fn joined(chunks: Seq<Seq<u8>>) -> Seq<u8>
    decreases chunks.len(),
{
    if chunks.len() == 0 {
        Seq::empty()
    } else {
        joined(chunks.drop_last()) + chunks.last()
    }
}

/// However a stream is cut into chunks, taking them in one by one leaves
/// the connection in the same state, so it decides the same.
pub proof fn lemma_any_chunking(chunks: Seq<Seq<u8>>)
    ensures
        fed(chunks) == frame_prefix(joined(chunks)),
        outcome(fed(chunks)) == outcome(frame_prefix(joined(chunks))),
    decreases chunks.len(),
{
    if chunks.len() == 0 {
        assert(frame_prefix(Seq::<u8>::empty()) =~= Seq::<u8>::empty());
    } else {
        lemma_any_chunking(chunks.drop_last());
        lemma_chunking(joined(chunks.drop_last()), chunks.last());
    }
}

/// Answers a request payload (the bytes after the size prefix): decodes the
/// request header and frames a response that echoes its correlation id.
pub fn respond(payload: &[u8]) -> (r: Result<Vec<u8>, DecodeError>)
    ensures
        r is Ok <==> payload@.len() >= REQUEST_HEADER_LEN,
        r matches Ok(b) ==> b@ == response_frame(be_i32_at(payload@, 4)),
        r matches Err(e) ==> e == DecodeError::InsufficientData,
{
    let request = RequestMessage::read_from(payload)?;
    let response_header = ResponseHeader { correlation_id: request.request_header.correlation_id };
    let response = ResponseMessage::new(response_header);
    Ok(response.to_bytes())
}

/// One connection's progress through its single request/response exchange.
pub struct Connection {
    received: Vec<u8>,
}

impl View for Connection {
    type V = Seq<u8>;

    /// The bytes of the request frame received so far.
    closed spec fn view(&self) -> Seq<u8> {
        self.received@
    }
}

impl Connection {
    pub open spec fn wf(&self) -> bool {
        well_framed(self@)
    }

    /// A connection that has received nothing yet.
    pub fn new() -> (r: Connection)
        ensures
            r@ == Seq::<u8>::empty(),
            r.wf(),
    {
        Connection { received: Vec::new() }
    }

    /// How many more bytes the request frame needs; zero once it is complete
    /// or its size prefix is negative.
    pub fn wanted(&self) -> (r: usize)
        requires
            self.wf(),
        ensures
            r == needed(self@),
    {
        let len = self.received.len();
        if len < SIZE_FIELD_LEN {
            return SIZE_FIELD_LEN - len;
        }
        let size = read_i32_at(self.received.as_slice(), 0);
        if size < 0 {
            0
        } else {
            SIZE_FIELD_LEN + size as usize - len
        }
    }

    /// What to do now, from the bytes received so far.
    fn decide(&self) -> (r: Step)
        requires
            self.wf(),
        ensures
            step_is(r, outcome(self@), needed(self@)),
    {
        let need = self.wanted();
        if need > 0 {
            return Step::NeedMore(need);
        }
        let size = read_i32_at(self.received.as_slice(), 0);
        if size < 0 {
            return Step::Fail(ConnectionError::NegativeSize);
        }
        let payload = slice_subrange(self.received.as_slice(), SIZE_FIELD_LEN, self.received.len());
        proof {
            if payload@.len() >= REQUEST_HEADER_LEN {
                assert(payload@[4] == self@[8] && payload@[5] == self@[9] && payload@[6] == self@[10]
                    && payload@[7] == self@[11]);
            }
        }
        match respond(payload) {
            Ok(bytes) => Step::Respond(bytes),
            Err(e) => Step::Fail(ConnectionError::Decode(e)),
        }
    }

    /// Takes in a chunk read from the stream, keeping only the bytes that
    /// belong to the request frame, and says what to do next.
    pub fn on_data(&mut self, chunk: &[u8]) -> (r: Step)
        requires
            old(self).wf(),
        ensures
            final(self).wf(),
            final(self)@ == frame_prefix(old(self)@ + chunk@),
            step_is(r, outcome(final(self)@), needed(final(self)@)),
    {
        proof {
            lemma_frame_prefix_well_framed(old(self)@);
            assert(old(self)@ + chunk@.take(0) =~= old(self)@);
        }
        let mut i: usize = 0;
        while i < chunk.len()
            invariant
                0 <= i <= chunk@.len(),
                self.wf(),
                self@ == frame_prefix(old(self)@ + chunk@.take(i as int)),
            decreases chunk@.len() - i,
        {
            let ghost before = self@;
            let byte = chunk[i];
            proof {
                lemma_chunking(old(self)@ + chunk@.take(i as int), seq![byte]);
                assert(old(self)@ + chunk@.take(i as int) + seq![byte] =~= old(self)@ + chunk@.take(
                    i + 1,
                ));
            }
            if self.wanted() > 0 {
                self.received.push(byte);
                proof {
                    lemma_same_size_after_push(before, byte);
                    lemma_frame_prefix_well_framed(self@);
                    assert(before + seq![byte] =~= self@);
                }
            } else {
                proof {
                    let x = before + seq![byte];
                    lemma_same_size_after_push(before, byte);
                    assert(frame_prefix(x) =~= before);
                }
            }
            i = i + 1;
        }
        proof {
            assert(chunk@.take(chunk@.len() as int) =~= chunk@);
        }
        self.decide()
    }

    /// Says what to do when the stream was closed after the bytes received
    /// so far.
    pub fn on_closed(&self) -> (r: Step)
        requires
            self.wf(),
        ensures
            step_is(r, Some(closed_outcome(self@)), 0),
    {
        if self.wanted() > 0 {
            Step::Fail(ConnectionError::ClosedEarly)
        } else {
            self.decide()
        }
    }
}

/// Appending a byte to a stream of at least four bytes keeps its size.
proof fn lemma_same_size_after_push(x: Seq<u8>, b: u8)
    ensures
        x.len() >= 4 ==> declared_size(x + seq![b]) == declared_size(x),
{
    if x.len() >= 4 {
        lemma_same_size(x, x + seq![b]);
    }
}

/// The first four bytes of `a + b` are those of `a`, when `a` has four.
proof fn lemma_be_i32_of_concat(a: Seq<u8>, b: Seq<u8>, at: int)
    requires
        0 <= at,
        at + 4 <= a.len(),
    ensures
        be_i32_at(a + b, at) == be_i32_at(a, at),
        be_i32_at(b + a, b.len() + at) == be_i32_at(a, at),
{
    let x = a + b;
    let y = b + a;
    assert(x[at] == a[at] && x[at + 1] == a[at + 1] && x[at + 2] == a[at + 2] && x[at + 3] == a[at
        + 3]);
    assert(y[b.len() + at] == a[at] && y[b.len() + at + 1] == a[at + 1] && y[b.len() + at + 2]
        == a[at + 2] && y[b.len() + at + 3] == a[at + 3]);
}

/// A response frame carries a size of 4 and then the correlation id.
pub proof fn lemma_response_frame_fields(correlation_id: i32)
    ensures
        response_frame(correlation_id).len() == 8,
        be_i32_at(response_frame(correlation_id), 0) == 4,
        be_i32_at(response_frame(correlation_id), 4) == correlation_id,
{
    lemma_i32_round_trip(4);
    lemma_i32_round_trip(correlation_id);
    lemma_be_i32_of_concat(i32_be(4), i32_be(correlation_id), 0);
    lemma_be_i32_of_concat(i32_be(correlation_id), i32_be(4), 0);
}

/// A well-formed request frame with correlation id `correlation_id` is
/// answered with the response frame of size 4 that carries the same id.
pub proof fn lemma_echo(api_key: i16, api_version: i16, correlation_id: i32)
    ensures
        exchange(request_frame(api_key, api_version, correlation_id)) == Ok::<Seq<u8>, ConnectionError>(
            response_frame(correlation_id),
        ),
        be_i32_at(response_frame(correlation_id), 0) == 4,
        be_i32_at(response_frame(correlation_id), 4) == correlation_id,
{
    let f = request_frame(api_key, api_version, correlation_id);
    let head = i32_be(8) + i16_be(api_key) + i16_be(api_version);
    lemma_i32_round_trip(8);
    lemma_i32_round_trip(correlation_id);
    lemma_be_i32_of_concat(i32_be(8), i16_be(api_key) + i16_be(api_version) + i32_be(correlation_id), 0);
    assert(f =~= i32_be(8) + (i16_be(api_key) + i16_be(api_version) + i32_be(correlation_id)));
    lemma_be_i32_of_concat(i32_be(correlation_id), head, 0);
    assert(f.len() == 12);
    assert(frame_prefix(f) =~= f);
    lemma_response_frame_fields(correlation_id);
}

/// Whatever a peer sends, a response it gets back starts with a size equal
/// to the number of bytes that follow the size field.
pub proof fn lemma_size_prefix(stream: Seq<u8>)
    ensures
        exchange(stream) matches Ok(b) ==> be_i32_at(b, 0) == b.len() - 4,
{
    if let Ok(c) = closed_outcome(frame_prefix(stream)) {
        lemma_response_frame_fields(c);
    }
}

/// The api key and api version of a request do not change its response.
pub proof fn lemma_header_independence(
    key_a: i16,
    version_a: i16,
    key_b: i16,
    version_b: i16,
    correlation_id: i32,
)
    ensures
        exchange(request_frame(key_a, version_a, correlation_id)) == exchange(
            request_frame(key_b, version_b, correlation_id),
        ),
{
    lemma_echo(key_a, version_a, correlation_id);
    lemma_echo(key_b, version_b, correlation_id);
}

/// A frame whose stream closes before the declared size has arrived gets no
/// response; the connection ends with `ClosedEarly`.
pub proof fn lemma_truncated_frame(stream: Seq<u8>)
    requires
        stream.len() < 4 || (0 <= declared_size(stream) && stream.len() < 4 + declared_size(stream)),
    ensures
        exchange(stream) == Err::<Seq<u8>, ConnectionError>(ConnectionError::ClosedEarly),
{
    assert(frame_prefix(stream) =~= stream);
}

} // verus!
