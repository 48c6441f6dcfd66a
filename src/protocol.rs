//! Protocol frames, their mathematical model, and the encoder.

use std::sync::Arc;
use vstd::prelude::*;
use vstd::utf8::encode_utf8;

verus! {

/// A raw byte string, used for keys and values.
pub type RawValue = Vec<u8>;

/// One protocol value, as the codec produces and consumes it.
#[derive(PartialEq, Eq, Debug)]
pub enum RESP {
    SimpleString(Vec<u8>),
    Error(String, String),
    Integer(i64),
    BulkString(Arc<Vec<u8>>),
    Array(Vec<RESP>),
    Null,
}

/// The mathematical model of a protocol value.
pub enum Frame {
    Simple(Seq<u8>),
    Error(Seq<char>, Seq<char>),
    Integer(int),
    Bulk(Seq<u8>),
    Array(Seq<Frame>),
    Null,
}

impl RESP {
    pub open spec fn view(&self) -> Frame
        decreases self,
    {
        match self {
            RESP::SimpleString(s) => Frame::Simple(s@),
            RESP::Error(k, m) => Frame::Error(k@, m@),
            RESP::Integer(i) => Frame::Integer(*i as int),
            RESP::BulkString(b) => Frame::Bulk(b@),
            RESP::Array(v) => Frame::Array(
                Seq::new(v.len() as nat, |i: int| if 0 <= i < v.len() { v[i].view() } else { Frame::Null }),
            ),
            RESP::Null => Frame::Null,
        }
    }
}


/// The models of a sequence of values.
pub open spec fn frames_of(v: Seq<RESP>) -> Seq<Frame> {
    v.map_values(|r: RESP| r@)
}

pub proof fn lemma_array_view(v: Vec<RESP>)
    ensures
        RESP::Array(v)@ == Frame::Array(frames_of(v@)),
{
    assert(RESP::Array(v)@->Array_0 =~= frames_of(v@));
}

/// The line terminator of the protocol.
pub open spec fn crlf() -> Seq<u8> {
    seq![13u8, 10u8]
}

/// The ASCII decimal digits of a natural number, without leading zeros.
pub open spec fn nat_digits(n: nat) -> Seq<u8>
    decreases n,
{
    if n < 10 {
        seq![(48 + n) as u8]
    } else {
        nat_digits(n / 10).push((48 + n % 10) as u8)
    }
}

/// The ASCII decimal form of an integer, with a leading `-` when negative.
pub open spec fn int_digits(i: int) -> Seq<u8> {
    if i < 0 {
        seq![45u8] + nat_digits((-i) as nat)
    } else {
        nat_digits(i as nat)
    }
}

/// The wire form of a frame.
pub open spec fn encode_frame(f: Frame) -> Seq<u8>
    decreases f, 0nat,
{
    match f {
        Frame::Simple(s) => seq![43u8] + s + crlf(),
        Frame::Error(k, m) => seq![45u8] + encode_utf8(k) + seq![32u8] + encode_utf8(m) + crlf(),
        Frame::Integer(i) => seq![58u8] + int_digits(i) + crlf(),
        Frame::Bulk(b) => seq![36u8] + nat_digits(b.len()) + crlf() + b + crlf(),
        Frame::Array(fs) => seq![42u8] + nat_digits(fs.len()) + crlf() + encode_seq(fs, fs.len()),
        Frame::Null => seq![36u8, 45u8, 49u8, 13u8, 10u8],
    }
}

/// The wire forms of the first `n` frames of `fs`, one after the other.
pub open spec fn encode_seq(fs: Seq<Frame>, n: nat) -> Seq<u8>
    decreases fs, n,
{
    if n == 0 || n > fs.len() {
        seq![]
    } else {
        encode_seq(fs, (n - 1) as nat) + encode_frame(fs[n - 1])
    }
}

pub(crate) fn push_all(out: &mut Vec<u8>, bytes: &[u8])
    ensures
        final(out)@ == old(out)@ + bytes@,
{
    let mut i: usize = 0;
    while i < bytes.len()
        invariant
            i <= bytes@.len(),
            out@ == old(out)@ + bytes@.subrange(0, i as int),
        decreases bytes@.len() - i,
    {
        out.push(bytes[i]);
        i = i + 1;
        assert(bytes@.subrange(0, i as int) == bytes@.subrange(0, i - 1) + seq![bytes@[i - 1]]);
    }
    assert(bytes@.subrange(0, bytes@.len() as int) == bytes@);
}

/// Appends the decimal digits of `n`.
pub(crate) fn write_decimal(n: u64, out: &mut Vec<u8>)
    ensures
        final(out)@ == old(out)@ + nat_digits(n as nat),
    decreases n,
{
    if n >= 10 {
        write_decimal(n / 10, out);
    }
    out.push((48 + n % 10) as u8);
}

pub(crate) fn write_integer(i: i64, out: &mut Vec<u8>)
    ensures
        final(out)@ == old(out)@ + int_digits(i as int),
{
    if i < 0 {
        out.push(45u8);
        let m: u64 = (-(i as i128)) as u64;
        write_decimal(m, out);
    } else {
        write_decimal(i as u64, out);
    }
}

fn write_text(s: &String, out: &mut Vec<u8>)
    ensures
        final(out)@ == old(out)@ + encode_utf8(s@),
{
    let b = s.as_str().as_bytes();
    push_all(out, b);
}

impl RESP {
    /// Appends the line terminator.
    pub fn write_end(out: &mut Vec<u8>)
        ensures
            final(out)@ == old(out)@ + crlf(),
    {
        out.push(13u8);
        out.push(10u8);
    }

    /// Appends the wire form of this frame to `out`; nothing is flushed.
    pub fn write_to(&self, out: &mut Vec<u8>)
        ensures
            final(out)@ == old(out)@ + encode_frame(self@),
        decreases self,
    {
        match self {
            RESP::SimpleString(s) => {
                out.push(43u8);
                push_all(out, s.as_slice());
                RESP::write_end(out);
            },
            RESP::Error(k, m) => {
                out.push(45u8);
                write_text(k, out);
                out.push(32u8);
                write_text(m, out);
                RESP::write_end(out);
            },
            RESP::Integer(i) => {
                out.push(58u8);
                write_integer(*i, out);
                RESP::write_end(out);
            },
            RESP::BulkString(b) => {
                out.push(36u8);
                write_decimal(b.len() as u64, out);
                RESP::write_end(out);
                push_all(out, b.as_slice());
                RESP::write_end(out);
            },
            RESP::Array(v) => {
                out.push(42u8);
                write_decimal(v.len() as u64, out);
                RESP::write_end(out);
                let ghost start = out@;
                let ghost fs = self@->Array_0;
                let mut i: usize = 0;
                while i < v.len()
                    invariant
                        i <= v@.len(),
                        *self == RESP::Array(*v),
                        fs.len() == v@.len(),
                        forall|j: int| 0 <= j < v@.len() ==> fs[j] == (#[trigger] v@[j])@,
                        out@ == start + encode_seq(fs, i as nat),
                    decreases v@.len() - i,
                {
                    let ghost before = out@;
                    proof {
                        vstd::std_specs::vec::axiom_vec_index_decreases(*v, i as int);
                        assert(decreases_to!(*self => self->Array_0));
                        assert(decreases_to!(*self => v[i as int]));
                    }
                    v[i].write_to(out);
                    i = i + 1;
                    assert(out@ == before + encode_frame(fs[i - 1]));
                }
            },
            RESP::Null => {
                out.push(36u8);
                out.push(45u8);
                out.push(49u8);
                RESP::write_end(out);
            },
        }
    }
}

/// One unit of engine work, or its reply: a single frame, or several in the
/// order in which the client sent them.
#[derive(Debug, PartialEq, Eq)]
pub enum ClientReq {
    Single(RESP),
    Pipeline(Vec<RESP>),
}

impl ClientReq {
    /// The frames, in order.
    pub open spec fn frames(&self) -> Seq<Frame> {
        match self {
            ClientReq::Single(r) => seq![r@],
            ClientReq::Pipeline(v) => frames_of(v@),
        }
    }

    /// A pipeline holds at least two frames; one frame alone is `Single`.
    pub open spec fn wf(&self) -> bool {
        match self {
            ClientReq::Single(_) => true,
            ClientReq::Pipeline(v) => v@.len() >= 2,
        }
    }

    /// The number of frames.
    pub fn len(&self) -> (n: usize)
        ensures
            n == self.frames().len(),
    {
        match self {
            ClientReq::Single(_) => 1,
            ClientReq::Pipeline(rs) => rs.len(),
        }
    }

    /// The frames, in order.
    pub fn into_vec(self) -> (v: Vec<RESP>)
        ensures
            frames_of(v@) == self.frames(),
    {
        match self {
            ClientReq::Single(r) => {
                let ghost f = r@;
                let v = vec![r];
                assert(frames_of(v@) =~= seq![f]);
                v
            },
            ClientReq::Pipeline(v) => v,
        }
    }

    /// Appends the wire form of every frame, in order, to `out`: the bytes of
    /// one batch, to be flushed once.
    pub fn write_to(&self, out: &mut Vec<u8>)
        ensures
            final(out)@ == old(out)@ + encode_seq(self.frames(), self.frames().len()),
    {
        match self {
            ClientReq::Single(r) => {
                r.write_to(out);
                assert(encode_seq(self.frames(), 1) == encode_seq(self.frames(), 0) + encode_frame(r@));
                assert(old(out)@ + (seq![] + encode_frame(r@)) == old(out)@ + encode_frame(r@));
            },
            ClientReq::Pipeline(v) => {
                let ghost fs = self.frames();
                let ghost start = out@;
                let mut i: usize = 0;
                while i < v.len()
                    invariant
                        i <= v@.len(),
                        fs == frames_of(v@),
                        out@ == start + encode_seq(fs, i as nat),
                    decreases v@.len() - i,
                {
                    let ghost before = out@;
                    v[i].write_to(out);
                    i = i + 1;
                    assert(out@ == before + encode_frame(fs[i - 1]));
                    assert(start + encode_seq(fs, i as nat) == start + encode_seq(fs, (i - 1) as nat) + encode_frame(fs[i - 1]));
                }
            },
        }
    }
}

} // verus!
