//! The read phase of a connection: how the bytes it holds become one
//! bundle of requests for the engine.

use crate::parser::{decode_at, decode_frame, Decoded, Parsed};
use crate::protocol::{frames_of, ClientReq, Frame, RESP};
use vstd::prelude::*;

verus! {

/// Every whole frame from position `pos` on, in order; then the position
/// where decoding stopped, and whether it stopped on invalid bytes.
pub open spec fn decode_stream(b: Seq<u8>, pos: int) -> (Seq<Frame>, int, bool)
    decreases b.len() - pos,
{
    match decode_at(b, pos) {
        Decoded::Done(f, e) => if pos < e <= b.len() {
            let rest = decode_stream(b, e);
            (seq![f] + rest.0, rest.1, rest.2)
        } else {
            (seq![], pos, true)
        },
        Decoded::Incomplete => (seq![], pos, false),
        Decoded::Fatal => (seq![], pos, true),
    }
}

/// What a session does with the bytes it holds.
pub enum ReadStep {
    /// Send these frames to the engine; the first `consumed` bytes are used.
    Dispatch(ClientReq, usize),
    /// No whole frame yet: read more bytes.
    NeedMore,
    /// The bytes are not valid: drop the connection.
    Fatal,
}

/// Packs decoded frames into one bundle: a single frame alone, several as a
/// pipeline, in the same order.
pub fn fill_output_pipeline_req(mut frames: Vec<RESP>) -> (r: ClientReq)
    ensures
        r.frames() == frames_of(frames@),
        r.wf() <==> frames@.len() >= 1,
{
    if frames.len() == 1 {
        let ghost fs = frames_of(frames@);
        let f = frames.pop().unwrap();
        let r = ClientReq::Single(f);
        assert(r.frames() =~= fs);
        r
    } else {
        ClientReq::Pipeline(frames)
    }
}

/// Decodes every whole frame at the start of `buf`. When at least one is
/// there and the rest is incomplete, they go to the engine together, without
/// waiting for more bytes.
pub fn read_step(buf: &[u8]) -> (r: ReadStep)
    ensures
        ({
            let d = decode_stream(buf@, 0);
            match r {
                ReadStep::Dispatch(req, n) => !d.2 && d.0.len() > 0 && req.frames() == d.0 && req.wf()
                    && n == d.1,
                ReadStep::NeedMore => !d.2 && d.0.len() == 0,
                ReadStep::Fatal => d.2,
            }
        }),
{
    let mut frames: Vec<RESP> = Vec::new();
    let mut pos: usize = 0;
    loop
        invariant
            pos <= buf@.len(),
            decode_stream(buf@, 0) == ({
                let rest = decode_stream(buf@, pos as int);
                (frames_of(frames@) + rest.0, rest.1, rest.2)
            }),
        decreases buf@.len() - pos,
    {
        let ghost before = frames_of(frames@);
        match decode_frame(buf, pos) {
            Parsed::Done(f, e) => {
                let ghost fv = f@;
                frames.push(f);
                proof {
                    let rest = decode_stream(buf@, e as int);
                    assert(frames_of(frames@) =~= before + seq![fv]);
                    assert(before + (seq![fv] + rest.0) == frames_of(frames@) + rest.0);
                }
                pos = e;
            },
            Parsed::Incomplete => {
                assert(frames_of(frames@) + seq![] == frames_of(frames@));
                if frames.len() == 0 {
                    return ReadStep::NeedMore;
                }
                let n = pos;
                return ReadStep::Dispatch(fill_output_pipeline_req(frames), n);
            },
            Parsed::Fatal => {
                return ReadStep::Fatal;
            },
        }
    }
}

/// The read buffer's capacity before the next read: doubled when full.
pub fn grown_capacity(len: usize, capacity: usize) -> (r: usize)
    requires
        len <= capacity,
    ensures
        len < capacity ==> r == capacity,
        len == capacity && capacity == 0 ==> r == 4096,
        len == capacity && 0 < capacity <= usize::MAX / 2 ==> r == 2 * capacity,
        len == capacity && capacity > usize::MAX / 2 ==> r == usize::MAX,
{
    if len < capacity {
        capacity
    } else if capacity == 0 {
        4096
    } else if capacity <= usize::MAX / 2 {
        2 * capacity
    } else {
        usize::MAX
    }
}

} // verus!
