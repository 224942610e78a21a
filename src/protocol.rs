//! The values exchanged over the link and their byte layout.
//!
//! Each enum is written as its variant index in one byte, followed by its
//! fields in declaration order; a `u32` field takes four bytes, least
//! significant first.

use vstd::prelude::*;
use crate::bytes::{le_bytes, lemma_le_bytes_injective, push_u32, read_u32};

verus! {

pub type Id = u32;

pub type DevId = u32;

pub type Parameter = u32;

/// The payload of a `Set` command.
#[derive(Clone, Copy, Debug, PartialEq, Eq, Structural)]
pub enum Message {
    A,
    B(u32),
    /// The IEEE-754 bit pattern of a single-precision float.
    C(u32),
}

/// A request from the host to the device.
#[derive(Clone, Copy, Debug, PartialEq, Eq, Structural)]
pub enum Command {
    SetValue(Id, Message, DevId),
    Get(Id, Parameter, DevId),
}

/// A reply from the device to the host.
#[derive(Clone, Copy, Debug, PartialEq, Eq, Structural)]
pub enum Response {
    Data(Id, Parameter, u32, DevId),
    SetOk,
    ParseError,
}

/// The longest layout of any `Command` or `Response`: `Response::Data`.
pub const MAX_WIRE_LEN: usize = 17;

/// A value with a fixed, self-delimiting byte layout.
pub trait Wire: Sized {
    /// The bytes that represent `self`.
    spec fn wire(&self) -> Seq<u8>;

    /// No layout is longer than `MAX_WIRE_LEN`.
    proof fn lemma_wire_len(&self)
        ensures
            self.wire().len() <= MAX_WIRE_LEN,
    ;

    /// No two values have layouts where one is a prefix of the other, so a
    /// byte sequence starts with the layout of at most one value.
    proof fn lemma_prefix_unique(a: Self, b: Self, s: Seq<u8>)
        requires
            a.wire().is_prefix_of(s),
            b.wire().is_prefix_of(s),
        ensures
            a == b,
    ;

    /// Appends the layout of `self` to `out`.
    fn write_wire(&self, out: &mut Vec<u8>)
        ensures
            final(out)@ == old(out)@ + self.wire(),
    ;

    /// Reads the value whose layout starts `buf`, with the number of bytes it
    /// takes; `None` when `buf` starts with the layout of no value.
    fn read_wire(buf: &[u8]) -> (r: Option<(Self, usize)>)
        ensures
            match r {
                Some((v, n)) => n == v.wire().len() && v.wire().is_prefix_of(buf@),
                None => forall|v: Self| !(#[trigger] v.wire()).is_prefix_of(buf@),
            },
    ;
}

/// The bytes of `s` from index `i` on.
pub open spec fn from(s: Seq<u8>, i: int) -> Seq<u8> {
    s.subrange(i, s.len() as int)
}

proof fn lemma_prefix_split(x: Seq<u8>, y: Seq<u8>, s: Seq<u8>)
    requires
        (x + y).is_prefix_of(s),
    ensures
        x.is_prefix_of(s),
        y.is_prefix_of(from(s, x.len() as int)),
{
    assert forall|j: int| 0 <= j < x.len() implies x[j] == s[j] by {
        assert((x + y)[j] == x[j]);
    }
    assert(x =~= s.subrange(0, x.len() as int));
    assert forall|j: int| 0 <= j < y.len() implies y[j] == from(s, x.len() as int)[j] by {
        assert((x + y)[x.len() + j] == y[j]);
    }
    assert(y =~= from(s, x.len() as int).subrange(0, y.len() as int));
}

proof fn lemma_prefix_join(x: Seq<u8>, y: Seq<u8>, s: Seq<u8>)
    requires
        x.is_prefix_of(s),
        y.is_prefix_of(from(s, x.len() as int)),
    ensures
        (x + y).is_prefix_of(s),
{
    assert forall|j: int| 0 <= j < (x + y).len() implies (x + y)[j] == s[j] by {
        if j >= x.len() {
            assert(from(s, x.len() as int)[j - x.len()] == s[j]);
        }
    }
    assert(x + y =~= s.subrange(0, (x + y).len() as int));
}

proof fn lemma_le_prefix_unique(a: u32, b: u32, s: Seq<u8>)
    requires
        le_bytes(a).is_prefix_of(s),
        le_bytes(b).is_prefix_of(s),
    ensures
        a == b,
{
    assert(le_bytes(a) =~= le_bytes(b));
    lemma_le_bytes_injective(a, b);
}

impl Message {
    fn read_at(buf: &[u8], at: usize) -> (r: Option<(Message, usize)>)
        requires
            at <= buf@.len(),
        ensures
            match r {
                Some((m, n)) => n == m.wire().len() && m.wire().is_prefix_of(from(buf@, at as int)),
                None => forall|m: Message| !(#[trigger] m.wire()).is_prefix_of(from(buf@, at as int)),
            },
    {
        let rest = Ghost(from(buf@, at as int));
        if at == buf.len() {
            assert forall|m: Message| !(#[trigger] m.wire()).is_prefix_of(rest@) by {}
            return None;
        }
        let tag = buf[at];
        if tag == 0 {
            assert(Message::A.wire() =~= rest@.subrange(0, 1));
            Some((Message::A, 1))
        } else if tag == 1 || tag == 2 {
            if buf.len() - at < 5 {
                assert forall|m: Message| !(#[trigger] m.wire()).is_prefix_of(rest@) by {
                    if m.wire().is_prefix_of(rest@) {
                        assert(m.wire()[0] == rest@[0]);
                    }
                }
                return None;
            }
            let x = read_u32(buf, at + 1);
            let m = if tag == 1 {
                Message::B(x)
            } else {
                Message::C(x)
            };
            assert(m.wire() =~= rest@.subrange(0, 5));
            Some((m, 5))
        } else {
            assert forall|m: Message| !(#[trigger] m.wire()).is_prefix_of(rest@) by {
                if m.wire().is_prefix_of(rest@) {
                    assert(m.wire()[0] == rest@[0]);
                }
            }
            None
        }
    }
}

impl Wire for Message {
    open spec fn wire(&self) -> Seq<u8> {
        match *self {
            Message::A => seq![0u8],
            Message::B(x) => seq![1u8] + le_bytes(x),
            Message::C(x) => seq![2u8] + le_bytes(x),
        }
    }

    proof fn lemma_wire_len(&self) {
    }

    proof fn lemma_prefix_unique(a: Message, b: Message, s: Seq<u8>) {
        assert(a.wire()[0] == s[0] && b.wire()[0] == s[0]);
        match (a, b) {
            (Message::B(x), Message::B(y)) | (Message::C(x), Message::C(y)) => {
                lemma_prefix_split(seq![s[0]], le_bytes(x), s);
                lemma_prefix_split(seq![s[0]], le_bytes(y), s);
                lemma_le_prefix_unique(x, y, from(s, 1));
            },
            _ => {},
        }
    }

    fn write_wire(&self, out: &mut Vec<u8>) {
        match *self {
            Message::A => {
                out.push(0);
            },
            Message::B(x) => {
                out.push(1);
                push_u32(out, x);
            },
            Message::C(x) => {
                out.push(2);
                push_u32(out, x);
            },
        }
        assert(final(out)@ =~= old(out)@ + self.wire());
    }

    fn read_wire(buf: &[u8]) -> (r: Option<(Message, usize)>) {
        assert(from(buf@, 0) =~= buf@);
        Message::read_at(buf, 0)
    }
}

impl Wire for Command {
    open spec fn wire(&self) -> Seq<u8> {
        match *self {
            Command::SetValue(id, m, dev) => seq![0u8] + le_bytes(id) + m.wire() + le_bytes(dev),
            Command::Get(id, p, dev) => seq![1u8] + le_bytes(id) + le_bytes(p) + le_bytes(dev),
        }
    }

    proof fn lemma_wire_len(&self) {
    }

    proof fn lemma_prefix_unique(a: Command, b: Command, s: Seq<u8>) {
        assert(a.wire()[0] == s[0] && b.wire()[0] == s[0]);
        match (a, b) {
            (Command::SetValue(i1, m1, d1), Command::SetValue(i2, m2, d2)) => {
                lemma_set_value_fields(i1, m1, d1, s);
                lemma_set_value_fields(i2, m2, d2, s);
                lemma_le_prefix_unique(i1, i2, from(s, 1));
                Message::lemma_prefix_unique(m1, m2, from(s, 5));
                lemma_le_prefix_unique(d1, d2, from(s, 5 + m1.wire().len() as int));
            },
            (Command::Get(i1, p1, d1), Command::Get(i2, p2, d2)) => {
                lemma_four_fields(seq![1u8], i1, p1, d1, s);
                lemma_four_fields(seq![1u8], i2, p2, d2, s);
                lemma_le_prefix_unique(i1, i2, from(s, 1));
                lemma_le_prefix_unique(p1, p2, from(s, 5));
                lemma_le_prefix_unique(d1, d2, from(s, 9));
            },
            _ => {},
        }
    }

    fn write_wire(&self, out: &mut Vec<u8>) {
        match *self {
            Command::SetValue(id, m, dev) => {
                out.push(0);
                push_u32(out, id);
                m.write_wire(out);
                push_u32(out, dev);
            },
            Command::Get(id, p, dev) => {
                out.push(1);
                push_u32(out, id);
                push_u32(out, p);
                push_u32(out, dev);
            },
        }
        assert(final(out)@ =~= old(out)@ + self.wire());
    }

    fn read_wire(buf: &[u8]) -> (r: Option<(Command, usize)>) {
        let s = Ghost(buf@);
        if buf.len() == 0 {
            assert forall|c: Command| !(#[trigger] c.wire()).is_prefix_of(s@) by {
                assert(c.wire().len() > 0);
            }
            return None;
        }
        let tag = buf[0];
        if tag == 0 && buf.len() >= 5 {
            let id = read_u32(buf, 1);
            match Message::read_at(buf, 5) {
                None => {
                    assert forall|c: Command| !(#[trigger] c.wire()).is_prefix_of(s@) by {
                        if c.wire().is_prefix_of(s@) {
                            assert(c.wire()[0] == s@[0]);
                            if let Command::SetValue(i, m, d) = c {
                                lemma_set_value_fields(i, m, d, s@);
                            }
                        }
                    }
                    None
                },
                Some((m, k)) => {
                    if buf.len() - 5 - k < 4 {
                        assert forall|c: Command| !(#[trigger] c.wire()).is_prefix_of(s@) by {
                            if c.wire().is_prefix_of(s@) {
                                assert(c.wire()[0] == s@[0]);
                                if let Command::SetValue(i, m2, d) = c {
                                    lemma_set_value_fields(i, m2, d, s@);
                                    Message::lemma_prefix_unique(m, m2, from(s@, 5));
                                }
                            }
                        }
                        return None;
                    }
                    let dev = read_u32(buf, 5 + k);
                    let c = Command::SetValue(id, m, dev);
                    proof {
                        let head = seq![0u8] + le_bytes(id);
                        assert(head =~= s@.subrange(0, 5));
                        lemma_prefix_join(head, m.wire(), s@);
                        assert(le_bytes(dev) =~= from(s@, 5 + k).subrange(0, 4));
                        lemma_prefix_join(head + m.wire(), le_bytes(dev), s@);
                    }
                    Some((c, 5 + k + 4))
                },
            }
        } else if tag == 1 && buf.len() >= 13 {
            let id = read_u32(buf, 1);
            let p = read_u32(buf, 5);
            let dev = read_u32(buf, 9);
            let c = Command::Get(id, p, dev);
            assert(c.wire() =~= s@.subrange(0, 13));
            Some((c, 13))
        } else {
            assert forall|c: Command| !(#[trigger] c.wire()).is_prefix_of(s@) by {
                if c.wire().is_prefix_of(s@) {
                    assert(c.wire()[0] == s@[0]);
                    if let Command::SetValue(i, m, d) = c {
                        lemma_set_value_fields(i, m, d, s@);
                    }
                }
            }
            None
        }
    }
}

impl Wire for Response {
    open spec fn wire(&self) -> Seq<u8> {
        match *self {
            Response::Data(id, p, v, dev) => seq![0u8] + le_bytes(id) + le_bytes(p) + le_bytes(v)
                + le_bytes(dev),
            Response::SetOk => seq![1u8],
            Response::ParseError => seq![2u8],
        }
    }

    proof fn lemma_wire_len(&self) {
    }

    proof fn lemma_prefix_unique(a: Response, b: Response, s: Seq<u8>) {
        assert(a.wire()[0] == s[0] && b.wire()[0] == s[0]);
        if let (Response::Data(i1, p1, v1, d1), Response::Data(i2, p2, v2, d2)) = (a, b) {
            lemma_data_fields(i1, p1, v1, d1, s);
            lemma_data_fields(i2, p2, v2, d2, s);
            lemma_le_prefix_unique(i1, i2, from(s, 1));
            lemma_le_prefix_unique(p1, p2, from(s, 5));
            lemma_le_prefix_unique(v1, v2, from(s, 9));
            lemma_le_prefix_unique(d1, d2, from(s, 13));
        }
    }

    fn write_wire(&self, out: &mut Vec<u8>) {
        match *self {
            Response::Data(id, p, v, dev) => {
                out.push(0);
                push_u32(out, id);
                push_u32(out, p);
                push_u32(out, v);
                push_u32(out, dev);
            },
            Response::SetOk => {
                out.push(1);
            },
            Response::ParseError => {
                out.push(2);
            },
        }
        assert(final(out)@ =~= old(out)@ + self.wire());
    }

    fn read_wire(buf: &[u8]) -> (r: Option<(Response, usize)>) {
        let s = Ghost(buf@);
        if buf.len() == 0 {
            assert forall|v: Response| !(#[trigger] v.wire()).is_prefix_of(s@) by {
                assert(v.wire().len() > 0);
            }
            return None;
        }
        let tag = buf[0];
        if tag == 0 && buf.len() >= 17 {
            let id = read_u32(buf, 1);
            let p = read_u32(buf, 5);
            let v = read_u32(buf, 9);
            let dev = read_u32(buf, 13);
            let r = Response::Data(id, p, v, dev);
            assert(r.wire() =~= s@.subrange(0, 17));
            Some((r, 17))
        } else if tag == 1 {
            assert(Response::SetOk.wire() =~= s@.subrange(0, 1));
            Some((Response::SetOk, 1))
        } else if tag == 2 {
            assert(Response::ParseError.wire() =~= s@.subrange(0, 1));
            Some((Response::ParseError, 1))
        } else {
            assert forall|v: Response| !(#[trigger] v.wire()).is_prefix_of(s@) by {
                if v.wire().is_prefix_of(s@) {
                    assert(v.wire()[0] == s@[0]);
                }
            }
            None
        }
    }
}

proof fn lemma_set_value_fields(id: u32, m: Message, dev: u32, s: Seq<u8>)
    requires
        Command::SetValue(id, m, dev).wire().is_prefix_of(s),
    ensures
        le_bytes(id).is_prefix_of(from(s, 1)),
        m.wire().is_prefix_of(from(s, 5)),
        le_bytes(dev).is_prefix_of(from(s, 5 + m.wire().len() as int)),
{
    let head = seq![0u8] + le_bytes(id);
    lemma_prefix_split(head + m.wire(), le_bytes(dev), s);
    lemma_prefix_split(head, m.wire(), s);
    lemma_prefix_split(seq![0u8], le_bytes(id), s);
}

proof fn lemma_four_fields(tag: Seq<u8>, a: u32, b: u32, c: u32, s: Seq<u8>)
    requires
        tag.len() == 1,
        (tag + le_bytes(a) + le_bytes(b) + le_bytes(c)).is_prefix_of(s),
    ensures
        le_bytes(a).is_prefix_of(from(s, 1)),
        le_bytes(b).is_prefix_of(from(s, 5)),
        le_bytes(c).is_prefix_of(from(s, 9)),
{
    lemma_prefix_split(tag + le_bytes(a) + le_bytes(b), le_bytes(c), s);
    lemma_prefix_split(tag + le_bytes(a), le_bytes(b), s);
    lemma_prefix_split(tag, le_bytes(a), s);
}

proof fn lemma_data_fields(id: u32, p: u32, v: u32, dev: u32, s: Seq<u8>)
    requires
        Response::Data(id, p, v, dev).wire().is_prefix_of(s),
    ensures
        le_bytes(id).is_prefix_of(from(s, 1)),
        le_bytes(p).is_prefix_of(from(s, 5)),
        le_bytes(v).is_prefix_of(from(s, 9)),
        le_bytes(dev).is_prefix_of(from(s, 13)),
{
    let tag = seq![0u8];
    lemma_prefix_split(tag + le_bytes(id) + le_bytes(p) + le_bytes(v), le_bytes(dev), s);
    lemma_four_fields(tag, id, p, v, s);
}

} // verus!
