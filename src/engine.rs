//! The data engine: command resolution, the command semantics over the
//! store's model, bundles run in order, and the laws they obey.

use crate::protocol::{frames_of, int_digits, lemma_array_view, ClientReq, Frame, RESP};
use crate::store::{
    evict, expired_keys, incr_spec, l_pop_spec, l_push_spec, list_or_empty, outside_window,
    r_pop_spec, r_push_spec, set_spec, DataModel, RedisData,
};
use crate::table::bytes_eq;
use std::sync::Arc;
use vstd::prelude::*;

verus! {

pub open spec fn ping_word() -> Seq<u8> {
    seq![80u8, 73u8, 78u8, 71u8]
}

pub open spec fn command_word() -> Seq<u8> {
    seq![67u8, 79u8, 77u8, 77u8, 65u8, 78u8, 68u8]
}

pub open spec fn get_word() -> Seq<u8> {
    seq![71u8, 69u8, 84u8]
}

pub open spec fn incr_word() -> Seq<u8> {
    seq![73u8, 78u8, 67u8, 82u8]
}

pub open spec fn lpop_word() -> Seq<u8> {
    seq![76u8, 80u8, 79u8, 80u8]
}

pub open spec fn rpop_word() -> Seq<u8> {
    seq![82u8, 80u8, 79u8, 80u8]
}

pub open spec fn set_word() -> Seq<u8> {
    seq![83u8, 69u8, 84u8]
}

pub open spec fn lpush_word() -> Seq<u8> {
    seq![76u8, 80u8, 85u8, 83u8, 72u8]
}

pub open spec fn rpush_word() -> Seq<u8> {
    seq![82u8, 80u8, 85u8, 83u8, 72u8]
}

pub open spec fn pong_frame() -> Frame {
    Frame::Simple(seq![80u8, 79u8, 78u8, 71u8])
}

pub open spec fn ok_frame() -> Frame {
    Frame::Simple(seq![79u8, 75u8])
}

/// The reply to an unknown command or one with too many arguments.
pub open spec fn arity_error() -> Frame {
    Frame::Error("Error"@, "too many arguments"@)
}

/// The reply to an empty command.
pub open spec fn empty_command_error() -> Frame {
    Frame::Error("todo"@, "empty command"@)
}

pub open spec fn bulk_or_null(o: Option<Seq<u8>>) -> Frame {
    match o {
        Some(v) => Frame::Bulk(v),
        None => Frame::Null,
    }
}

/// A command word or argument: a simple or a bulk string.
pub open spec fn is_arg(f: Frame) -> bool {
    f is Simple || f is Bulk
}

pub open spec fn arg_bytes(f: Frame) -> Seq<u8> {
    match f {
        Frame::Simple(s) => s,
        Frame::Bulk(s) => s,
        _ => seq![],
    }
}

/// The words of a command: the elements of an array, or any other frame
/// alone.
pub open spec fn words(req: Frame) -> Seq<Frame> {
    match req {
        Frame::Array(fs) => fs,
        other => seq![other],
    }
}

/// One command with words `ws`, run at instant `t`: the next state and the
/// reply.
pub open spec fn step_words(s: DataModel, ws: Seq<Frame>, t: u64) -> (DataModel, Frame) {
    if ws.len() == 0 {
        (s, empty_command_error())
    } else if ws.len() > 3 || !(forall|i: int| 0 <= i < ws.len() ==> is_arg(#[trigger] ws[i])) {
        (s, arity_error())
    } else {
        let c = arg_bytes(ws[0]);
        if ws.len() == 1 {
            if c == ping_word() {
                (s, pong_frame())
            } else if c == command_word() {
                (s, ok_frame())
            } else {
                (s, arity_error())
            }
        } else if ws.len() == 2 {
            let k = arg_bytes(ws[1]);
            if c == get_word() {
                let s1 = evict(s, t);
                (s1, if s1.strings.contains_key(k) { Frame::Bulk(s1.strings[k]) } else { Frame::Null })
            } else if c == incr_word() {
                let s1 = evict(s, t);
                (s1, match incr_spec(s1.strings, k) {
                    Ok(Some(i)) => Frame::Simple(int_digits(i)),
                    Ok(None) => Frame::Null,
                    Err(d) => Frame::Error("WRONG_TYPE"@, d),
                })
            } else if c == lpop_word() {
                (l_pop_spec(s, k).0, bulk_or_null(l_pop_spec(s, k).1))
            } else if c == rpop_word() {
                (r_pop_spec(s, k).0, bulk_or_null(r_pop_spec(s, k).1))
            } else {
                (s, arity_error())
            }
        } else {
            let k = arg_bytes(ws[1]);
            let v = arg_bytes(ws[2]);
            if c == set_word() {
                (set_spec(s, k, v), ok_frame())
            } else if c == lpush_word() {
                (l_push_spec(s, k, v), ok_frame())
            } else if c == rpush_word() {
                (r_push_spec(s, k, v), ok_frame())
            } else {
                (s, arity_error())
            }
        }
    }
}

/// One request frame, run at instant `t`.
pub open spec fn step(s: DataModel, req: Frame, t: u64) -> (DataModel, Frame) {
    step_words(s, words(req), t)
}

/// The requests `reqs`, run one after the other at instant `t`: the final
/// state and the replies, in order.
pub open spec fn run(s: DataModel, reqs: Seq<Frame>, t: u64) -> (DataModel, Seq<Frame>)
    decreases reqs.len(),
{
    if reqs.len() == 0 {
        (s, seq![])
    } else {
        let prev = run(s, reqs.drop_last(), t);
        let last = step(prev.0, reqs.last(), t);
        (last.0, prev.1.push(last.1))
    }
}

fn arg_slice(f: &RESP) -> (r: Option<&[u8]>)
    ensures
        match r {
            Some(b) => is_arg(f@) && b@ == arg_bytes(f@),
            None => !is_arg(f@),
        },
{
    match f {
        RESP::SimpleString(s) => Some(s.as_slice()),
        RESP::BulkString(b) => Some(b.as_slice()),
        _ => None,
    }
}

fn bytes_of(b: &[u8]) -> (r: Arc<Vec<u8>>)
    ensures
        r@ == b@,
{
    let mut v: Vec<u8> = Vec::new();
    crate::protocol::push_all(&mut v, b);
    Arc::new(v)
}

fn reply_bulk(o: Option<Arc<Vec<u8>>>) -> (r: RESP)
    ensures
        r@ == bulk_or_null(
            match o {
                Some(v) => Some(v@),
                None => None,
            },
        ),
{
    match o {
        Some(v) => RESP::BulkString(v),
        None => RESP::Null,
    }
}

/// The data engine: it owns the stores and runs each command on them.
pub struct RedisEngine {
    data: RedisData,
}

impl RedisEngine {
    pub closed spec fn view(&self) -> DataModel {
        self.data@
    }

    pub closed spec fn wf(&self) -> bool {
        self.data.wf()
    }

    pub fn new() -> (r: RedisEngine)
        ensures
            r.wf(),
            r@.strings == Map::<Seq<u8>, Seq<u8>>::empty(),
            r@.lists == Map::<Seq<u8>, Seq<Seq<u8>>>::empty(),
            r@.eviction == Seq::<(u64, Seq<u8>)>::empty(),
            r@.last_scanned == 0,
    {
        RedisEngine { data: RedisData::new() }
    }

    /// The reply to an unknown command or one with too many arguments.
    pub fn error_resp() -> (r: RESP)
        ensures
            r@ == arity_error(),
    {
        RESP::Error("Error".to_owned(), "too many arguments".to_owned())
    }

    pub fn ok() -> (r: RESP)
        ensures
            r@ == ok_frame(),
    {
        RESP::SimpleString(vec![79u8, 75u8])
    }

    fn run_single_word(c: &[u8]) -> (r: RESP)
        ensures
            r@ == (if c@ == ping_word() {
                pong_frame()
            } else if c@ == command_word() {
                ok_frame()
            } else {
                arity_error()
            }),
    {
        let ping: [u8; 4] = [80u8, 73u8, 78u8, 71u8];
        let command: [u8; 7] = [67u8, 79u8, 77u8, 77u8, 65u8, 78u8, 68u8];
        assert(ping@ == ping_word());
        assert(command@ == command_word());
        if bytes_eq(c, &ping) {
            let r = RESP::SimpleString(vec![80u8, 79u8, 78u8, 71u8]);
            assert(r@ == pong_frame());
            r
        } else if bytes_eq(c, &command) {
            Self::ok()
        } else {
            Self::error_resp()
        }
    }

    fn run_key_command(&mut self, c: &[u8], k: &[u8], t: u64) -> (r: RESP)
        requires
            old(self).wf(),
        ensures
            final(self).wf(),
            (final(self)@, r@) == step_words(
                old(self)@,
                seq![Frame::Simple(c@), Frame::Simple(k@)],
                t,
            ),
    {
        let ghost ws = seq![Frame::Simple(c@), Frame::Simple(k@)];
        assert(forall|i: int| 0 <= i < ws.len() ==> is_arg(#[trigger] ws[i]));
        let get: [u8; 3] = [71u8, 69u8, 84u8];
        let incr: [u8; 4] = [73u8, 78u8, 67u8, 82u8];
        let lpop: [u8; 4] = [76u8, 80u8, 79u8, 80u8];
        let rpop: [u8; 4] = [82u8, 80u8, 79u8, 80u8];
        assert(get@ == get_word());
        assert(incr@ == incr_word());
        assert(lpop@ == lpop_word());
        assert(rpop@ == rpop_word());
        if bytes_eq(c, &get) {
            let v = self.data.get(k, t);
            reply_bulk(v)
        } else if bytes_eq(c, &incr) {
            match self.data.incr(k, t) {
                Ok(Some(i)) => {
                    let mut out: Vec<u8> = Vec::new();
                    crate::protocol::write_integer(i, &mut out);
                    RESP::SimpleString(out)
                },
                Ok(None) => RESP::Null,
                Err(e) => RESP::Error("WRONG_TYPE".to_owned(), e),
            }
        } else if bytes_eq(c, &lpop) {
            let v = self.data.l_pop(k);
            reply_bulk(v)
        } else if bytes_eq(c, &rpop) {
            let v = self.data.r_pop(k);
            reply_bulk(v)
        } else {
            Self::error_resp()
        }
    }

    fn run_key_value_command(&mut self, c: &[u8], k: &[u8], v: &[u8], t: u64) -> (r: RESP)
        requires
            old(self).wf(),
        ensures
            final(self).wf(),
            (final(self)@, r@) == step_words(
                old(self)@,
                seq![Frame::Simple(c@), Frame::Simple(k@), Frame::Simple(v@)],
                t,
            ),
    {
        let ghost ws = seq![Frame::Simple(c@), Frame::Simple(k@), Frame::Simple(v@)];
        assert(forall|i: int| 0 <= i < ws.len() ==> is_arg(#[trigger] ws[i]));
        let set: [u8; 3] = [83u8, 69u8, 84u8];
        let lpush: [u8; 5] = [76u8, 80u8, 85u8, 83u8, 72u8];
        let rpush: [u8; 5] = [82u8, 80u8, 85u8, 83u8, 72u8];
        assert(set@ == set_word());
        assert(lpush@ == lpush_word());
        assert(rpush@ == rpush_word());
        if bytes_eq(c, &set) {
            self.data.set(bytes_of(k), bytes_of(v), None);
            Self::ok()
        } else if bytes_eq(c, &lpush) {
            self.data.l_push(bytes_of(k), bytes_of(v), None);
            Self::ok()
        } else if bytes_eq(c, &rpush) {
            self.data.r_push(bytes_of(k), bytes_of(v), None);
            Self::ok()
        } else {
            Self::error_resp()
        }
    }

    /// Runs one command frame at instant `t` and returns its reply. Command
    /// errors are replies too.
    pub fn handle_request(&mut self, req: &RESP, t: u64) -> (r: RESP)
        requires
            old(self).wf(),
        ensures
            final(self).wf(),
            (final(self)@, r@) == step(old(self)@, req@, t),
    {
        match req {
            RESP::Array(v) => {
                proof {
                    lemma_array_view(*v);
                }
                let ghost ws = frames_of(v@);
                assert(words(req@) == ws);
                let n = v.len();
                if n == 0 {
                    RESP::Error("todo".to_owned(), "empty command".to_owned())
                } else if n > 3 {
                    Self::error_resp()
                } else {
                    let c = match arg_slice(&v[0]) {
                        Some(c) => c,
                        None => {
                            assert(!is_arg(ws[0]));
                            return Self::error_resp();
                        },
                    };
                    if n == 1 {
                        assert(forall|i: int| 0 <= i < ws.len() ==> is_arg(#[trigger] ws[i]));
                        Self::run_single_word(c)
                    } else {
                        let k = match arg_slice(&v[1]) {
                            Some(k) => k,
                            None => {
                                assert(!is_arg(ws[1]));
                                return Self::error_resp();
                            },
                        };
                        if n == 2 {
                            assert(forall|i: int| 0 <= i < ws.len() ==> is_arg(#[trigger] ws[i])) by {
                                assert(is_arg(ws[0]) && is_arg(ws[1]));
                            }
                            self.run_key_command(c, k, t)
                        } else {
                            let w = match arg_slice(&v[2]) {
                                Some(w) => w,
                                None => {
                                    assert(!is_arg(ws[2]));
                                    return Self::error_resp();
                                },
                            };
                            assert(forall|i: int| 0 <= i < ws.len() ==> is_arg(#[trigger] ws[i])) by {
                                assert(is_arg(ws[0]) && is_arg(ws[1]) && is_arg(ws[2]));
                            }
                            self.run_key_value_command(c, k, w, t)
                        }
                    }
                }
            },
            _ => {
                let ghost ws = words(req@);
                match arg_slice(req) {
                    Some(c) => {
                        assert(forall|i: int| 0 <= i < ws.len() ==> is_arg(#[trigger] ws[i]));
                        Self::run_single_word(c)
                    },
                    None => {
                        assert(!is_arg(ws[0]));
                        Self::error_resp()
                    },
                }
            },
        }
    }

    /// Runs every command of a bundle, in order, at instant `t`, with no
    /// other work in between, and returns the replies in a bundle of the
    /// same shape.
    pub fn handle_bundle(&mut self, req: &ClientReq, t: u64) -> (r: ClientReq)
        requires
            old(self).wf(),
        ensures
            final(self).wf(),
            final(self)@ == run(old(self)@, req.frames(), t).0,
            r.frames() == run(old(self)@, req.frames(), t).1,
            r.frames().len() == req.frames().len(),
            r is Single <==> req is Single,
            r.wf() == req.wf(),
    {
        proof {
            lemma_run_len(old(self)@, req.frames(), t);
        }
        match req {
            ClientReq::Single(f) => {
                assert(req.frames().drop_last() =~= Seq::<Frame>::empty());
                assert(run(old(self)@, req.frames().drop_last(), t) == (old(self)@, Seq::<Frame>::empty()));
                assert(req.frames().last() == f@);
                let reply = self.handle_request(f, t);
                let r = ClientReq::Single(reply);
                assert(r.frames() =~= run(old(self)@, req.frames(), t).1);
                r
            },
            ClientReq::Pipeline(v) => {
                let ghost fs = req.frames();
                let mut out: Vec<RESP> = Vec::with_capacity(v.len());
                let mut i: usize = 0;
                while i < v.len()
                    invariant
                        self.wf(),
                        i <= v@.len(),
                        fs == frames_of(v@),
                        self@ == run(old(self)@, fs.subrange(0, i as int), t).0,
                        frames_of(out@) == run(old(self)@, fs.subrange(0, i as int), t).1,
                    decreases v@.len() - i,
                {
                    let ghost before = frames_of(out@);
                    let reply = self.handle_request(&v[i], t);
                    let ghost rv = reply@;
                    out.push(reply);
                    i = i + 1;
                    assert(fs.subrange(0, i as int).drop_last() == fs.subrange(0, i - 1));
                    assert(fs.subrange(0, i as int).last() == fs[i - 1]);
                    assert(frames_of(out@) =~= before.push(rv));
                }
                assert(fs.subrange(0, i as int) == fs);
                ClientReq::Pipeline(out)
            },
        }
    }
}

/// Running `n` requests gives `n` replies.
pub proof fn lemma_run_len(s: DataModel, reqs: Seq<Frame>, t: u64)
    ensures
        run(s, reqs, t).1.len() == reqs.len(),
    decreases reqs.len(),
{
    if reqs.len() > 0 {
        lemma_run_len(s, reqs.drop_last(), t);
    }
}

/// A command frame as clients send it: an array of bulk strings.
pub open spec fn command(ws: Seq<Seq<u8>>) -> Frame {
    Frame::Array(ws.map_values(|w: Seq<u8>| Frame::Bulk(w)))
}

/// After `SET k v`, `GET k` replies with `v`, unless an expiry attached to
/// `k` falls due before the `GET`.
pub proof fn lemma_set_then_get(s: DataModel, k: Seq<u8>, v: Seq<u8>, t1: u64, t2: u64)
    requires
        !expired_keys(s.eviction, s.last_scanned, t2).contains(k),
    ensures
        step(step(s, command(seq![set_word(), k, v]), t1).0, command(seq![get_word(), k]), t2).1
            == Frame::Bulk(v),
{
    let set = command(seq![set_word(), k, v]);
    let get = command(seq![get_word(), k]);
    assert(words(set)[0] == Frame::Bulk(set_word()));
    assert(words(get)[0] == Frame::Bulk(get_word()));
    assert(words(set)[1] == Frame::Bulk(k));
    assert(words(set)[2] == Frame::Bulk(v));
    assert(words(get)[1] == Frame::Bulk(k));
    assert(set_word() != ping_word() && set_word() != command_word());
    assert(get_word() != incr_word());
    let s1 = step(s, set, t1).0;
    assert(s1 == set_spec(s, k, v));
    if t2 > s1.last_scanned {
        assert(!expired_keys(s1.eviction, s1.last_scanned, t2).contains(k));
    }
}

/// `LPUSH k a; LPUSH k b; LPOP k; LPOP k` replies `b`, then `a`.
pub proof fn lemma_lpush_lpop(s: DataModel, k: Seq<u8>, a: Seq<u8>, b: Seq<u8>, t: u64)
    ensures
        ({
            let s1 = step(s, command(seq![lpush_word(), k, a]), t).0;
            let s2 = step(s1, command(seq![lpush_word(), k, b]), t).0;
            let first = step(s2, command(seq![lpop_word(), k]), t);
            let second = step(first.0, command(seq![lpop_word(), k]), t);
            first.1 == Frame::Bulk(b) && second.1 == Frame::Bulk(a)
        }),
{
    let push_a = command(seq![lpush_word(), k, a]);
    let push_b = command(seq![lpush_word(), k, b]);
    let pop = command(seq![lpop_word(), k]);
    assert(words(push_a)[0] == Frame::Bulk(lpush_word()) && words(push_a)[1] == Frame::Bulk(k)
        && words(push_a)[2] == Frame::Bulk(a));
    assert(words(push_b)[0] == Frame::Bulk(lpush_word()) && words(push_b)[1] == Frame::Bulk(k)
        && words(push_b)[2] == Frame::Bulk(b));
    assert(words(pop)[0] == Frame::Bulk(lpop_word()) && words(pop)[1] == Frame::Bulk(k));
    assert(lpush_word() != set_word());
    assert(lpop_word() != get_word() && lpop_word() != incr_word());
    let s1 = step(s, push_a, t).0;
    assert(s1 == l_push_spec(s, k, a));
    let s2 = step(s1, push_b, t).0;
    assert(s2 == l_push_spec(s1, k, b));
    assert(s2.lists[k] == seq![b] + (seq![a] + list_or_empty(s.lists, k)));
    let first = step(s2, pop, t);
    assert(first.0.lists[k] =~= seq![a] + list_or_empty(s.lists, k));
}

/// `RPUSH k a; RPUSH k b; RPOP k; RPOP k` replies `b`, then `a`.
pub proof fn lemma_rpush_rpop(s: DataModel, k: Seq<u8>, a: Seq<u8>, b: Seq<u8>, t: u64)
    ensures
        ({
            let s1 = step(s, command(seq![rpush_word(), k, a]), t).0;
            let s2 = step(s1, command(seq![rpush_word(), k, b]), t).0;
            let first = step(s2, command(seq![rpop_word(), k]), t);
            let second = step(first.0, command(seq![rpop_word(), k]), t);
            first.1 == Frame::Bulk(b) && second.1 == Frame::Bulk(a)
        }),
{
    let push_a = command(seq![rpush_word(), k, a]);
    let push_b = command(seq![rpush_word(), k, b]);
    let pop = command(seq![rpop_word(), k]);
    assert(words(push_a)[0] == Frame::Bulk(rpush_word()) && words(push_a)[1] == Frame::Bulk(k)
        && words(push_a)[2] == Frame::Bulk(a));
    assert(words(push_b)[0] == Frame::Bulk(rpush_word()) && words(push_b)[1] == Frame::Bulk(k)
        && words(push_b)[2] == Frame::Bulk(b));
    assert(words(pop)[0] == Frame::Bulk(rpop_word()) && words(pop)[1] == Frame::Bulk(k));
    assert(rpush_word() != set_word() && rpush_word() != lpush_word());
    assert(rpop_word() != get_word() && rpop_word() != incr_word() && rpop_word() != lpop_word());
    let s1 = step(s, push_a, t).0;
    assert(s1 == r_push_spec(s, k, a));
    let s2 = step(s1, push_b, t).0;
    assert(s2 == r_push_spec(s1, k, b));
    assert(s2.lists[k] == list_or_empty(s.lists, k).push(a).push(b));
    let first = step(s2, pop, t);
    assert(first.0.lists[k] =~= list_or_empty(s.lists, k).push(a));
}

/// `GET` on an absent key replies `Null`.
pub proof fn lemma_get_absent(s: DataModel, k: Seq<u8>, t: u64)
    requires
        !s.strings.contains_key(k),
    ensures
        step(s, command(seq![get_word(), k]), t).1 == Frame::Null,
{
    let get = command(seq![get_word(), k]);
    assert(words(get)[0] == Frame::Bulk(get_word()) && words(get)[1] == Frame::Bulk(k));
}

/// `LPOP` and `RPOP` on an absent or empty list reply `Null` and change
/// nothing.
pub proof fn lemma_pop_empty(s: DataModel, k: Seq<u8>, t: u64)
    requires
        list_or_empty(s.lists, k).len() == 0,
    ensures
        step(s, command(seq![lpop_word(), k]), t) == (s, Frame::Null),
        step(s, command(seq![rpop_word(), k]), t) == (s, Frame::Null),
{
    let l = command(seq![lpop_word(), k]);
    let r = command(seq![rpop_word(), k]);
    assert(words(l)[0] == Frame::Bulk(lpop_word()) && words(l)[1] == Frame::Bulk(k));
    assert(words(r)[0] == Frame::Bulk(rpop_word()) && words(r)[1] == Frame::Bulk(k));
    assert(lpop_word() != get_word() && lpop_word() != incr_word());
    assert(rpop_word() != get_word() && rpop_word() != incr_word() && rpop_word() != lpop_word());
}

/// An empty command replies with the empty-command error and changes
/// nothing.
pub proof fn lemma_empty_command(s: DataModel, t: u64)
    ensures
        step(s, Frame::Array(seq![]), t) == (s, empty_command_error()),
{
}

/// A command with more than three words replies with the arity error and
/// changes nothing.
pub proof fn lemma_over_arity(s: DataModel, ws: Seq<Frame>, t: u64)
    requires
        ws.len() > 3,
    ensures
        step(s, Frame::Array(ws), t) == (s, arity_error()),
{
}

/// A command whose name is none that its number of words allows replies
/// with the arity error and changes nothing.
pub proof fn lemma_unknown_command(s: DataModel, ws: Seq<Frame>, t: u64)
    requires
        1 <= ws.len() <= 3,
        ws.len() == 1 ==> arg_bytes(ws[0]) != ping_word() && arg_bytes(ws[0]) != command_word(),
        ws.len() == 2 ==> arg_bytes(ws[0]) != get_word() && arg_bytes(ws[0]) != incr_word()
            && arg_bytes(ws[0]) != lpop_word() && arg_bytes(ws[0]) != rpop_word(),
        ws.len() == 3 ==> arg_bytes(ws[0]) != set_word() && arg_bytes(ws[0]) != lpush_word()
            && arg_bytes(ws[0]) != rpush_word(),
    ensures
        step(s, Frame::Array(ws), t) == (s, arity_error()),
{
}

/// Reply `i` of a bundle is the reply to request `i`, run on the state that
/// the requests before it left.
pub proof fn lemma_run_positionwise(s: DataModel, reqs: Seq<Frame>, t: u64, i: int)
    requires
        0 <= i < reqs.len(),
    ensures
        run(s, reqs, t).1[i] == step(run(s, reqs.subrange(0, i), t).0, reqs[i], t).1,
    decreases reqs.len(),
{
    lemma_run_len(s, reqs.drop_last(), t);
    if i == reqs.len() - 1 {
        assert(reqs.drop_last() == reqs.subrange(0, i));
    } else {
        lemma_run_positionwise(s, reqs.drop_last(), t, i);
        assert(reqs.drop_last().subrange(0, i) == reqs.subrange(0, i));
    }
}

/// After a scan at `t`, no key that had an expiry before `t` attached is
/// left among the plain values, provided no expiry lay before the last scan.
pub proof fn lemma_evict_removes_expired(s: DataModel, t: u64, k: Seq<u8>, e: u64)
    requires
        forall|i: int| 0 <= i < s.eviction.len() ==> s.last_scanned <= #[trigger] s.eviction[i].0,
        s.eviction.contains((e, k)),
        e < t,
    ensures
        !evict(s, t).strings.contains_key(k),
{
    let i = choose|i: int| 0 <= i < s.eviction.len() && s.eviction[i] == (e, k);
    assert(s.eviction[i].0 == e);
    assert(expired_keys(s.eviction, s.last_scanned, t).contains(k));
}

/// An expiry is live when it is not before the last scan.
pub open spec fn attached_live(s: DataModel, k: Seq<u8>) -> bool {
    exists|i: int| 0 <= i < s.eviction.len() && s.eviction[i].1 == k && #[trigger] s.eviction[i].0 >= s.last_scanned
}

/// No key is in more than one of: the plain values, the lists, the live
/// expiries.
pub open spec fn keys_disjoint(s: DataModel) -> bool {
    forall|k: Seq<u8>|
        #![trigger s.strings.contains_key(k), s.lists.contains_key(k)]
        #![trigger s.strings.contains_key(k), attached_live(s, k)]
        #![trigger s.lists.contains_key(k), attached_live(s, k)]
        !(s.strings.contains_key(k) && s.lists.contains_key(k)) && !(s.strings.contains_key(k)
            && attached_live(s, k)) && !(s.lists.contains_key(k) && attached_live(s, k))
}

/// A command that writes a key as one type while it is held as another, or
/// while an expiry is attached to it.
pub open spec fn crosses_types(s: DataModel, req: Frame) -> bool {
    let ws = words(req);
    ws.len() == 3 && (forall|i: int| 0 <= i < ws.len() ==> is_arg(#[trigger] ws[i])) && ({
        let c = arg_bytes(ws[0]);
        let k = arg_bytes(ws[1]);
        (c == set_word() && (s.lists.contains_key(k) || attached_live(s, k))) || ((c
            == lpush_word() || c == rpush_word()) && (s.strings.contains_key(k) || attached_live(
            s,
            k,
        )))
    })
}

proof fn lemma_evict_keeps_disjoint(s: DataModel, t: u64)
    requires
        keys_disjoint(s),
    ensures
        keys_disjoint(evict(s, t)),
{
    if t > s.last_scanned {
        let s1 = evict(s, t);
        let p = outside_window(s.last_scanned, t);
        assert forall|k: Seq<u8>| attached_live(s1, k) implies attached_live(s, k) by {
            let i = choose|i: int| 0 <= i < s1.eviction.len() && s1.eviction[i].1 == k && #[trigger] s1.eviction[i].0 >= s1.last_scanned;
            s.eviction.lemma_filter_contains_rev(p, s1.eviction[i]);
            assert(s1.eviction.contains(s1.eviction[i]));
            broadcast use vstd::seq_lib::group_filter_ensures;

            let j = choose|j: int| 0 <= j < s.eviction.len() && s.eviction[j] == s1.eviction[i];
            assert(s.eviction[j].0 >= s.last_scanned);
        }
    }
}

/// A command keeps the keys of the three structures apart, unless it writes
/// a key across types.
pub proof fn lemma_step_keeps_disjoint(s: DataModel, req: Frame, t: u64)
    requires
        keys_disjoint(s),
        !crosses_types(s, req),
    ensures
        keys_disjoint(step(s, req, t).0),
{
    lemma_evict_keeps_disjoint(s, t);
    let ws = words(req);
    let s1 = step(s, req, t).0;
    if ws.len() == 0 || ws.len() > 3 || !(forall|i: int| 0 <= i < ws.len() ==> is_arg(#[trigger] ws[i])) {
        assert(s1 == s);
    } else {
        let c = arg_bytes(ws[0]);
        if ws.len() == 1 {
            assert(s1 == s);
        } else if ws.len() == 2 {
            let k = arg_bytes(ws[1]);
            if c == get_word() || c == incr_word() {
                assert(s1 == evict(s, t));
            } else if (c == lpop_word() && l_pop_spec(s, k).1 is Some) || (c == rpop_word() && r_pop_spec(s, k).1 is Some) {
                assert(s.lists.contains_key(k));
                assert(s1.lists.dom() =~= s.lists.dom());
                assert(s1.strings == s.strings && s1.eviction == s.eviction && s1.last_scanned == s.last_scanned);
                assert forall|kk: Seq<u8>| attached_live(s1, kk) == attached_live(s, kk) by {}
                assert forall|kk: Seq<u8>| s1.lists.contains_key(kk) == s.lists.contains_key(kk) by {}
            } else {
                assert(s1 == s);
            }
        } else {
            let k = arg_bytes(ws[1]);
            assert(s1.eviction == s.eviction && s1.last_scanned == s.last_scanned);
            assert forall|kk: Seq<u8>| attached_live(s1, kk) == attached_live(s, kk) by {}
            if c == set_word() {
                assert(!s.lists.contains_key(k) && !attached_live(s, k));
                assert(s1.lists == s.lists);
                assert forall|kk: Seq<u8>| s1.strings.contains_key(kk) == (s.strings.contains_key(kk) || kk == k) by {}
            } else if c == lpush_word() || c == rpush_word() {
                assert(!s.strings.contains_key(k) && !attached_live(s, k));
                assert(s1.strings == s.strings);
                assert forall|kk: Seq<u8>| s1.lists.contains_key(kk) == (s.lists.contains_key(kk) || kk == k) by {}
            } else {
                assert(s1 == s);
            }
        }
    }
}

/// Any sequence of commands keeps the keys of the three structures apart,
/// unless one of them writes a key across types.
pub proof fn lemma_run_keeps_disjoint(s: DataModel, reqs: Seq<Frame>, t: u64)
    requires
        keys_disjoint(s),
        forall|i: int|
            0 <= i < reqs.len() ==> !crosses_types(#[trigger] run(s, reqs.subrange(0, i), t).0, reqs[i]),
    ensures
        keys_disjoint(run(s, reqs, t).0),
    decreases reqs.len(),
{
    if reqs.len() > 0 {
        let p = reqs.drop_last();
        assert forall|i: int| 0 <= i < p.len() implies !crosses_types(
            #[trigger] run(s, p.subrange(0, i), t).0,
            p[i],
        ) by {
            assert(p.subrange(0, i) == reqs.subrange(0, i));
            assert(!crosses_types(run(s, reqs.subrange(0, i), t).0, reqs[i]));
        }
        lemma_run_keeps_disjoint(s, p, t);
        let n = reqs.len() - 1;
        assert(reqs.subrange(0, n) == p);
        assert(!crosses_types(run(s, reqs.subrange(0, n), t).0, reqs[n]));
        lemma_step_keeps_disjoint(run(s, p, t).0, reqs.last(), t);
    }
}

} // verus!
