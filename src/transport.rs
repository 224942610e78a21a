//! The host side: send a command, read the reply frame byte by byte, and
//! retry a bounded number of times.
//!
//! The link itself stays with the caller: `Request` and `ReplyReader` decide,
//! the caller writes and reads.

use vstd::prelude::*;
use crate::codec::{
    decoded,
    deserialize_crc_cobs,
    frame_of,
    lemma_frame_fits,
    serialize_crc_cobs,
    DeserError,
    FRAME_CAPACITY,
    SENTINEL,
};
use crate::bytes::le_bytes;
use crate::cobs::cobs_decode;
use crate::protocol::{Command, Response, Wire};

verus! {

/// Number of times a command is written before the request gives up.
pub const MAX_RETRIES: usize = 3;

/// Why an attempt, or a whole request, failed.
#[derive(Clone, Copy, Debug, PartialEq, Eq, Structural)]
pub enum TransportError {
    /// Every attempt failed.
    RetriesExhausted,
    /// The reply held nothing before the sentinel, or filled the receive
    /// buffer without one.
    EmptyOrOversizedFrame,
    /// The reply frame was damaged or malformed.
    BadFrame(DeserError),
    /// The device answered that it could not parse the command.
    Rejected,
}

/// What a complete reply, sentinel included, makes of its attempt.
pub open spec fn reply_outcome(reply: Seq<u8>) -> Result<Response, TransportError> {
    if reply.len() <= 1 {
        Err(TransportError::EmptyOrOversizedFrame)
    } else {
        match decoded::<Response>(reply) {
            Ok(Response::ParseError) => Err(TransportError::Rejected),
            Ok(r) => Ok(r),
            Err(e) => Err(TransportError::BadFrame(e)),
        }
    }
}

/// The state of reading one reply.
#[derive(Clone, Copy, Debug, PartialEq, Eq)]
pub enum ReadStatus {
    /// Read another byte.
    More,
    /// The reply is complete, with the outcome of the attempt.
    Complete(Result<Response, TransportError>),
}

/// One byte `b` of a reply, given the bytes `held` before it: the bytes held
/// afterwards and the state of the read.
pub open spec fn read_step(held: Seq<u8>, b: u8) -> (Seq<u8>, ReadStatus) {
    let now = held.push(b);
    if b == SENTINEL {
        (Seq::empty(), ReadStatus::Complete(reply_outcome(now)))
    } else if now.len() >= FRAME_CAPACITY {
        (Seq::empty(), ReadStatus::Complete(Err(TransportError::EmptyOrOversizedFrame)))
    } else {
        (now, ReadStatus::More)
    }
}

/// Collects the bytes of one reply.
pub struct ReplyReader {
    buf: Vec<u8>,
}

impl View for ReplyReader {
    type V = Seq<u8>;

    /// The bytes of the reply read so far.
    closed spec fn view(&self) -> Seq<u8> {
        self.buf@
    }
}

impl ReplyReader {
    /// Fewer bytes are held than the buffer takes.
    pub closed spec fn wf(&self) -> bool {
        self.buf@.len() < FRAME_CAPACITY
    }

    pub fn new() -> (r: ReplyReader)
        ensures
            r.wf(),
            r@ == Seq::<u8>::empty(),
    {
        ReplyReader { buf: Vec::new() }
    }

    /// Takes one byte read from the link.
    pub fn push(&mut self, b: u8) -> (r: ReadStatus)
        requires
            old(self).wf(),
        ensures
            final(self).wf(),
            (final(self)@, r) == read_step(old(self)@, b),
    {
        self.buf.push(b);
        if b == SENTINEL {
            let outcome = judge_reply(self.buf.as_slice());
            self.buf.clear();
            ReadStatus::Complete(outcome)
        } else if self.buf.len() >= FRAME_CAPACITY {
            self.buf.clear();
            ReadStatus::Complete(Err(TransportError::EmptyOrOversizedFrame))
        } else {
            ReadStatus::More
        }
    }
}

/// The outcome of an attempt whose complete reply, sentinel included, is
/// `reply`.
pub fn judge_reply(reply: &[u8]) -> (r: Result<Response, TransportError>)
    ensures
        r == reply_outcome(reply@),
{
    if reply.len() <= 1 {
        return Err(TransportError::EmptyOrOversizedFrame);
    }
    let mut frame = vstd::slice::slice_to_vec(reply);
    match deserialize_crc_cobs::<Response>(frame.as_mut_slice()) {
        Ok(Response::ParseError) => Err(TransportError::Rejected),
        Ok(r) => Ok(r),
        Err(e) => Err(TransportError::BadFrame(e)),
    }
}

/// What the request does after an attempt.
#[derive(Clone, Copy, Debug, PartialEq, Eq)]
pub enum HostStep {
    /// Write the frame again and read a new reply.
    Resend,
    /// The request is over, with this result.
    Done(Result<Response, TransportError>),
}

/// The step after an attempt with `outcome`, when `writes` attempts have
/// been made.
pub open spec fn next_step(writes: nat, outcome: Result<Response, TransportError>) -> HostStep {
    match outcome {
        Ok(r) => HostStep::Done(Ok(r)),
        Err(_) => if writes >= MAX_RETRIES {
            HostStep::Done(Err(TransportError::RetriesExhausted))
        } else {
            HostStep::Resend
        },
    }
}

/// The attempts of a request whose successive outcomes are `outcomes`, from
/// `writes` writes made: the number of writes at the end, and the result,
/// if the request ended.
pub open spec fn run_attempts(writes: nat, outcomes: Seq<Result<Response, TransportError>>) -> (
    nat,
    Option<Result<Response, TransportError>>,
)
    decreases outcomes.len(),
{
    if outcomes.len() == 0 {
        (writes, None)
    } else {
        match next_step(writes, outcomes[0]) {
            HostStep::Done(r) => (writes, Some(r)),
            HostStep::Resend => run_attempts(writes + 1, outcomes.drop_first()),
        }
    }
}

/// One command sent to the device, with the count of its attempts.
pub struct Request {
    frame: Vec<u8>,
    writes: usize,
}

impl Request {
    /// Between one and `MAX_RETRIES` writes have been made.
    pub closed spec fn wf(&self) -> bool {
        1 <= self.writes <= MAX_RETRIES
    }

    /// The frame that each attempt writes.
    pub closed spec fn frame_bytes(&self) -> Seq<u8> {
        self.frame@
    }

    /// Number of writes of the frame made so far, the first one included.
    pub closed spec fn write_count(&self) -> nat {
        self.writes as nat
    }

    /// Encodes `cmd`; its frame is to be written once right away.
    pub fn new(cmd: &Command) -> (r: Request)
        ensures
            r.wf(),
            r.frame_bytes() == frame_of(*cmd),
            r.write_count() == 1,
    {
        let mut out: Vec<u8> = Vec::new();
        while out.len() < FRAME_CAPACITY
            invariant
                out@.len() <= FRAME_CAPACITY,
            decreases FRAME_CAPACITY - out@.len(),
        {
            out.push(0);
        }
        proof {
            lemma_frame_fits(*cmd);
        }
        let n = match serialize_crc_cobs(cmd, out.as_mut_slice()) {
            Ok(n) => n,
            Err(_) => 0,
        };
        out.truncate(n);
        assert(out@ =~= frame_of(*cmd));
        Request { frame: out, writes: 1 }
    }

    /// Number of writes of the frame made so far, the first one included.
    pub fn writes(&self) -> (r: usize)
        ensures
            r == self.write_count(),
    {
        self.writes
    }

    /// The bytes to write for each attempt.
    pub fn frame(&self) -> (r: &[u8])
        ensures
            r@ == self.frame_bytes(),
    {
        self.frame.as_slice()
    }

    /// Takes the outcome of the latest attempt and says what to do next.
    pub fn finish_attempt(&mut self, outcome: Result<Response, TransportError>) -> (r: HostStep)
        requires
            old(self).wf(),
        ensures
            final(self).wf(),
            r == next_step(old(self).write_count(), outcome),
            final(self).frame_bytes() == old(self).frame_bytes(),
            final(self).write_count() == (if r == HostStep::Resend {
                old(self).write_count() + 1
            } else {
                old(self).write_count()
            }),
    {
        match outcome {
            Ok(r) => HostStep::Done(Ok(r)),
            Err(_) => {
                if self.writes >= MAX_RETRIES {
                    HostStep::Done(Err(TransportError::RetriesExhausted))
                } else {
                    self.writes += 1;
                    HostStep::Resend
                }
            },
        }
    }
}

/// When every attempt fails, a request gives up with `RetriesExhausted`
/// after exactly `MAX_RETRIES` writes, whatever the failures were.
pub proof fn lemma_failures_exhaust_retries(outcomes: Seq<Result<Response, TransportError>>)
    requires
        outcomes.len() >= MAX_RETRIES,
        forall|i: int| 0 <= i < outcomes.len() ==> outcomes[i] is Err,
    ensures
        run_attempts(1, outcomes) == (
            MAX_RETRIES as nat,
            Some(Err::<Response, TransportError>(TransportError::RetriesExhausted)),
        ),
{
    let o1 = outcomes.drop_first();
    let o2 = o1.drop_first();
    assert(o1[0] == outcomes[1]);
    assert(o2[0] == outcomes[2]);
    assert(run_attempts(3, o2) == (
        3nat,
        Some(Err::<Response, TransportError>(TransportError::RetriesExhausted)),
    ));
    assert(run_attempts(2, o1) == run_attempts(3, o2));
}

/// A reply that arrives with a damaged checksum fails its attempt.
pub proof fn lemma_crc_mismatch_fails(reply: Seq<u8>)
    requires
        decoded::<Response>(reply) == Err::<Response, DeserError>(DeserError::CrcError),
    ensures
        reply_outcome(reply) == Err::<Response, TransportError>(
            TransportError::BadFrame(DeserError::CrcError),
        ),
{
    if reply.len() <= 1 {
        let d = cobs_decode(reply)->Some_0;
        assert(d.len() == 0);
        assert forall|p: (Response, u32)| d != #[trigger] (p.0.wire() + le_bytes(p.1)) by {
            assert((p.0.wire() + le_bytes(p.1)).len() >= 4);
        }
    }
}

/// When every reply read arrives with a damaged checksum, a request gives up
/// with `RetriesExhausted` after exactly `MAX_RETRIES` writes.
pub proof fn lemma_retry_bound(replies: Seq<Seq<u8>>)
    requires
        replies.len() >= MAX_RETRIES,
        forall|i: int|
            0 <= i < replies.len() ==> decoded::<Response>(#[trigger] replies[i]) == Err::<
                Response,
                DeserError,
            >(DeserError::CrcError),
    ensures
        run_attempts(1, replies.map_values(|r: Seq<u8>| reply_outcome(r))) == (
            MAX_RETRIES as nat,
            Some(Err::<Response, TransportError>(TransportError::RetriesExhausted)),
        ),
{
    let outcomes = replies.map_values(|r: Seq<u8>| reply_outcome(r));
    assert forall|i: int| 0 <= i < outcomes.len() implies outcomes[i] is Err by {
        lemma_crc_mismatch_fails(replies[i]);
    }
    lemma_failures_exhaust_retries(outcomes);
}

} // verus!
