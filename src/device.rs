//! The device side: a receive assembler fed one byte at a time, and the
//! dispatcher that answers each command.

use vstd::prelude::*;
use crate::codec::{
    decoded,
    deserialize_crc_cobs,
    frame_of,
    lemma_frame_fits,
    lemma_round_trip,
    lemma_sentinel_only_at_end,
    DeserError,
    FRAME_CAPACITY,
    SENTINEL,
};
use crate::protocol::{Command, Response};

verus! {

/// The answer to `cmd`. No device state is modelled: a `SetValue` is
/// acknowledged and a `Get` reads the value 0.
pub open spec fn response_to(cmd: Command) -> Response {
    match cmd {
        Command::SetValue(..) => Response::SetOk,
        Command::Get(id, p, dev) => Response::Data(id, p, 0, dev),
    }
}

/// Answers a decoded command.
pub fn dispatch(command: Command) -> (r: Response)
    ensures
        r == response_to(command),
{
    match command {
        Command::SetValue(..) => Response::SetOk,
        Command::Get(id, p, dev) => Response::Data(id, p, 0, dev),
    }
}

/// What the device sends back to the host.
#[derive(Clone, Copy, Debug, PartialEq, Eq, Structural)]
pub enum DeviceReply {
    /// Send this response.
    Respond(Response),
    /// The frame arrived damaged: ask for it again.
    Resend,
}

/// The reply to a complete frame, sentinel included.
pub open spec fn frame_reply(frame: Seq<u8>) -> DeviceReply {
    match decoded::<Command>(frame) {
        Ok(cmd) => DeviceReply::Respond(response_to(cmd)),
        Err(DeserError::CrcError) => DeviceReply::Resend,
        Err(DeserError::ParseError) => DeviceReply::Respond(Response::ParseError),
    }
}

/// One received byte `c`, given the bytes `held` since the last frame: the
/// bytes held afterwards and the replies due.
///
/// A full buffer is first emptied, with a `ParseError` reply; then `c` is
/// stored; a sentinel completes the frame, which is answered and dropped.
pub open spec fn rx_step(held: Seq<u8>, c: u8) -> (Seq<u8>, Seq<DeviceReply>) {
    let overflow = held.len() >= FRAME_CAPACITY;
    let kept = if overflow {
        Seq::empty()
    } else {
        held
    };
    let first = if overflow {
        seq![DeviceReply::Respond(Response::ParseError)]
    } else {
        Seq::empty()
    };
    let now = kept.push(c);
    if c == SENTINEL {
        (Seq::empty(), first.push(frame_reply(now)))
    } else {
        (now, first)
    }
}

/// The bytes held and the replies due after receiving `bytes` in order.
pub open spec fn rx_run(held: Seq<u8>, bytes: Seq<u8>) -> (Seq<u8>, Seq<DeviceReply>)
    decreases bytes.len(),
{
    if bytes.len() == 0 {
        (held, Seq::empty())
    } else {
        let (h, r) = rx_run(held, bytes.drop_last());
        let (h2, r2) = rx_step(h, bytes.last());
        (h2, r + r2)
    }
}

proof fn lemma_fill(s: Seq<u8>, k: int)
    requires
        0 <= k <= s.len() <= 2 * FRAME_CAPACITY,
        forall|i: int| 0 <= i < s.len() ==> s[i] != SENTINEL,
    ensures
        rx_run(Seq::empty(), s.subrange(0, k)) == (if k <= FRAME_CAPACITY {
            (s.subrange(0, k), Seq::<DeviceReply>::empty())
        } else {
            (
                s.subrange(FRAME_CAPACITY as int, k),
                seq![DeviceReply::Respond(Response::ParseError)],
            )
        }),
    decreases k,
{
    let p = s.subrange(0, k);
    if k > 0 {
        lemma_fill(s, k - 1);
        assert(p.drop_last() =~= s.subrange(0, k - 1));
        if k <= FRAME_CAPACITY {
            assert(s.subrange(0, k - 1).push(s[k - 1]) =~= p);
        } else if k == FRAME_CAPACITY + 1 {
            assert(Seq::<u8>::empty().push(s[k - 1]) =~= s.subrange(FRAME_CAPACITY as int, k));
            assert(Seq::<DeviceReply>::empty() + seq![DeviceReply::Respond(Response::ParseError)]
                =~= seq![DeviceReply::Respond(Response::ParseError)]);
        } else {
            assert(s.subrange(FRAME_CAPACITY as int, k - 1).push(s[k - 1]) =~= s.subrange(
                FRAME_CAPACITY as int,
                k,
            ));
            assert(seq![DeviceReply::Respond(Response::ParseError)] + Seq::<DeviceReply>::empty()
                =~= seq![DeviceReply::Respond(Response::ParseError)]);
        }
    } else {
        assert(p =~= Seq::<u8>::empty());
    }
}

/// Receiving more bytes than the buffer holds (but not twice as many), none
/// of them a sentinel, into an empty assembler: it empties itself once, with
/// exactly one `ParseError` reply, and goes on filling with the bytes that
/// came after, with room left for more.
pub proof fn lemma_overflow_recovery(s: Seq<u8>)
    requires
        FRAME_CAPACITY < s.len() <= 2 * FRAME_CAPACITY,
        forall|i: int| 0 <= i < s.len() ==> s[i] != SENTINEL,
    ensures
        rx_run(Seq::empty(), s) == (
            s.subrange(FRAME_CAPACITY as int, s.len() as int),
            seq![DeviceReply::Respond(Response::ParseError)],
        ),
        rx_run(Seq::empty(), s).0.len() <= FRAME_CAPACITY,
{
    lemma_fill(s, s.len() as int);
    assert(s.subrange(0, s.len() as int) =~= s);
}

/// The frame of a command, received into an empty assembler, is answered
/// with the response to that command, and leaves the assembler empty.
pub proof fn lemma_frame_answered(cmd: Command)
    ensures
        rx_run(Seq::empty(), frame_of(cmd)) == (
            Seq::<u8>::empty(),
            seq![DeviceReply::Respond(response_to(cmd))],
        ),
{
    let f = frame_of(cmd);
    lemma_frame_fits(cmd);
    lemma_sentinel_only_at_end(cmd);
    let body = f.drop_last();
    assert forall|i: int| 0 <= i < body.len() implies body[i] != SENTINEL by {
        assert(body[i] == f[i]);
    }
    lemma_fill(body, body.len() as int);
    assert(body.subrange(0, body.len() as int) =~= body);
    lemma_round_trip(cmd, Seq::empty());
    assert(body.push(f.last()) =~= f);
    assert(f + Seq::<u8>::empty() =~= f);
    assert(Seq::<DeviceReply>::empty().push(frame_reply(f)) =~= seq![
        DeviceReply::Respond(response_to(cmd)),
    ]);
    assert(Seq::<DeviceReply>::empty() + seq![DeviceReply::Respond(response_to(cmd))] =~= seq![
        DeviceReply::Respond(response_to(cmd)),
    ]);
}

/// The buffer as it is after a reset.
pub open spec fn zeroed() -> Seq<u8> {
    Seq::new(FRAME_CAPACITY as nat, |i: int| 0u8)
}

/// Collects the bytes of one frame in a fixed buffer.
pub struct Assembler {
    buf: Vec<u8>,
    index: usize,
}

impl View for Assembler {
    type V = Seq<u8>;

    /// The bytes received since the last frame.
    closed spec fn view(&self) -> Seq<u8> {
        self.buf@.subrange(0, self.index as int)
    }
}

impl Assembler {
    /// The buffer has its fixed size, the index lies within it, and every
    /// byte past the index is zero.
    pub closed spec fn wf(&self) -> bool {
        &&& self.buf@.len() == FRAME_CAPACITY
        &&& self.index <= FRAME_CAPACITY
        &&& forall|i: int| self.index <= i < FRAME_CAPACITY ==> self.buf@[i] == 0
    }

    /// The whole buffer.
    pub closed spec fn buf_bytes(&self) -> Seq<u8> {
        self.buf@
    }

    pub fn new() -> (r: Assembler)
        ensures
            r.wf(),
            r@ == Seq::<u8>::empty(),
            r.buf_bytes() == zeroed(),
    {
        let mut buf: Vec<u8> = Vec::new();
        while buf.len() < FRAME_CAPACITY
            invariant
                buf@.len() <= FRAME_CAPACITY,
                forall|i: int| 0 <= i < buf@.len() ==> buf@[i] == 0,
            decreases FRAME_CAPACITY - buf@.len(),
        {
            buf.push(0);
        }
        let r = Assembler { buf, index: 0 };
        assert(r@ =~= Seq::<u8>::empty());
        assert(r.buf_bytes() =~= zeroed());
        r
    }

    /// Number of bytes received since the last frame.
    pub fn index(&self) -> (r: usize)
        requires
            self.wf(),
        ensures
            r == self@.len(),
    {
        self.index
    }

    /// The whole buffer, past the index as well.
    pub fn buffer(&self) -> (r: &[u8])
        ensures
            r@ == self.buf_bytes(),
    {
        self.buf.as_slice()
    }

    fn reset(&mut self)
        requires
            old(self).wf(),
        ensures
            final(self).wf(),
            final(self)@ == Seq::<u8>::empty(),
            final(self).buf_bytes() == zeroed(),
    {
        let mut i: usize = 0;
        while i < self.index
            invariant
                self.buf@.len() == FRAME_CAPACITY,
                self.index <= FRAME_CAPACITY,
                i <= self.index,
                forall|j: int| 0 <= j < i ==> self.buf@[j] == 0,
                forall|j: int| self.index <= j < FRAME_CAPACITY ==> self.buf@[j] == 0,
            decreases self.index - i,
        {
            self.buf.set(i, 0);
            i += 1;
        }
        self.index = 0;
        assert(self@ =~= Seq::<u8>::empty());
        assert(self.buf_bytes() =~= zeroed());
    }

    /// Takes one received byte and returns the replies it calls for: at most
    /// one for an overflow and one for a completed frame.
    pub fn push(&mut self, c: u8) -> (r: Vec<DeviceReply>)
        requires
            old(self).wf(),
        ensures
            final(self).wf(),
            (final(self)@, r@) == rx_step(old(self)@, c),
            c == SENTINEL ==> final(self).buf_bytes() == zeroed(),
    {
        let mut replies: Vec<DeviceReply> = Vec::new();
        if self.index >= FRAME_CAPACITY {
            self.reset();
            replies.push(DeviceReply::Respond(Response::ParseError));
        }
        let ghost kept = self@;
        self.buf.set(self.index, c);
        self.index += 1;
        assert(self@ =~= kept.push(c));
        if c == SENTINEL {
            let mut frame = vstd::slice::slice_to_vec(
                vstd::slice::slice_subrange(self.buf.as_slice(), 0, self.index),
            );
            let reply = match deserialize_crc_cobs::<Command>(frame.as_mut_slice()) {
                Ok(cmd) => DeviceReply::Respond(dispatch(cmd)),
                Err(DeserError::CrcError) => DeviceReply::Resend,
                Err(DeserError::ParseError) => DeviceReply::Respond(Response::ParseError),
            };
            replies.push(reply);
            self.reset();
        }
        assert(replies@ =~= rx_step(old(self)@, c).1);
        replies
    }
}

} // verus!
