//! The decoder: the grammar of the wire format over byte sequences, and a
//! parser proved against it. It never consumes part of a frame: it hands
//! back a whole frame, or says that more bytes are needed, or that the bytes
//! are invalid.

use crate::protocol::{frames_of, lemma_array_view, push_all, Frame, RESP};
use std::sync::Arc;
use vstd::prelude::*;
use vstd::utf8::{decode_utf8, encode_utf8, valid_utf8};

verus! {

/// What the decoder makes of the bytes that start at some position.
pub enum Decoded {
    /// A whole frame, and the position just past it.
    Done(Frame, int),
    /// The bytes end before the frame does.
    Incomplete,
    /// The bytes cannot start a frame.
    Fatal,
}

pub open spec fn is_crlf_at(b: Seq<u8>, i: int) -> bool {
    0 <= i && i + 1 < b.len() && b[i] == 13u8 && b[i + 1] == 10u8
}

/// The position of the first CR/LF pair at or after `from`.
pub open spec fn line_end(b: Seq<u8>, from: int) -> Option<int>
    decreases b.len() - from,
{
    if from < 0 || from + 1 >= b.len() {
        None
    } else if is_crlf_at(b, from) {
        Some(from)
    } else {
        line_end(b, from + 1)
    }
}

pub open spec fn is_digit(c: u8) -> bool {
    48u8 <= c <= 57u8
}

pub open spec fn is_alnum(c: u8) -> bool {
    is_digit(c) || (65u8 <= c <= 90u8) || (97u8 <= c <= 122u8)
}

pub open spec fn all_digits(s: Seq<u8>) -> bool {
    s.len() > 0 && forall|i: int| 0 <= i < s.len() ==> is_digit(#[trigger] s[i])
}

/// The number that a string of decimal digits stands for.
pub open spec fn digits_value(s: Seq<u8>) -> nat
    decreases s.len(),
{
    if s.len() == 0 {
        0
    } else {
        digits_value(s.drop_last()) * 10 + (s.last() - 48) as nat
    }
}

pub open spec fn i64_bound() -> nat {
    0x8000_0000_0000_0000nat
}

/// A signed decimal: an optional `-`, then one or more digits, within `i64`.
pub open spec fn decimal_value(s: Seq<u8>) -> Option<int> {
    if s.len() > 0 && s[0] == 45u8 {
        let d = s.skip(1);
        if all_digits(d) && digits_value(d) <= i64_bound() {
            Some(-(digits_value(d) as int))
        } else {
            None
        }
    } else if all_digits(s) && digits_value(s) < i64_bound() {
        Some(digits_value(s) as int)
    } else {
        None
    }
}

/// A non-negative decimal count: one or more digits, within `i64`.
pub open spec fn count_value(s: Seq<u8>) -> Option<nat> {
    if all_digits(s) && digits_value(s) < i64_bound() {
        Some(digits_value(s))
    } else {
        None
    }
}

proof fn lemma_digits_prefix(s: Seq<u8>, k: int)
    requires
        0 <= k <= s.len(),
    ensures
        digits_value(s) >= digits_value(s.subrange(0, k)),
    decreases s.len(),
{
    if k < s.len() {
        lemma_digits_prefix(s.drop_last(), k);
        assert(s.drop_last().subrange(0, k) == s.subrange(0, k));
    } else {
        assert(s.subrange(0, k) == s);
    }
}

fn find_crlf(b: &[u8], from: usize) -> (r: Option<usize>)
    ensures
        r matches Some(e) ==> from <= e && e + 2 <= b@.len() && is_crlf_at(b@, e as int),
        r matches Some(e) ==> line_end(b@, from as int) == Some(e as int),
        r is None ==> line_end(b@, from as int) is None,
{
    let mut i: usize = from;
    while i < b.len() && i + 1 < b.len()
        invariant
            from <= i,
            line_end(b@, from as int) == line_end(b@, i as int),
        decreases b@.len() - i,
    {
        if b[i] == 13u8 && b[i + 1] == 10u8 {
            return Some(i);
        }
        i = i + 1;
    }
    None
}

/// Reads `b[start..end]` as digits whose value is at most `limit`.
pub(crate) fn read_positive_decimal(b: &[u8], start: usize, end: usize, limit: u64) -> (r: Option<u64>)
    requires
        start <= end <= b@.len(),
    ensures
        ({
            let s = b@.subrange(start as int, end as int);
            match r {
                Some(v) => all_digits(s) && digits_value(s) <= limit && v == digits_value(s),
                None => !(all_digits(s) && digits_value(s) <= limit),
            }
        }),
{
    let ghost s = b@.subrange(start as int, end as int);
    if start == end {
        return None;
    }
    let mut acc: u128 = 0;
    let mut i: usize = start;
    while i < end
        invariant
            start <= i <= end <= b@.len(),
            s == b@.subrange(start as int, end as int),
            acc <= limit,
            forall|j: int| 0 <= j < i - start ==> is_digit(#[trigger] s[j]),
            acc == digits_value(s.subrange(0, i - start)),
        decreases end - i,
    {
        let c = b[i];
        if c < 48u8 || c > 57u8 {
            assert(!is_digit(s[i - start]));
            return None;
        }
        let ghost pre = s.subrange(0, i - start);
        acc = acc * 10 + (c - 48u8) as u128;
        i = i + 1;
        assert(s.subrange(0, i - start).drop_last() == pre);
        if acc > limit as u128 {
            proof {
                if all_digits(s) {
                    lemma_digits_prefix(s, i - start);
                }
            }
            return None;
        }
    }
    assert(s.subrange(0, i - start) == s);
    Some(acc as u64)
}

/// Reads `b[start..end]` as a signed decimal.
pub(crate) fn read_decimal(b: &[u8], start: usize, end: usize) -> (r: Option<i64>)
    requires
        start <= end <= b@.len(),
    ensures
        ({
            let s = b@.subrange(start as int, end as int);
            match r {
                Some(v) => decimal_value(s) == Some(v as int),
                None => decimal_value(s) is None,
            }
        }),
{
    let ghost s = b@.subrange(start as int, end as int);
    if start < end && b[start] == 45u8 {
        assert(s.skip(1) == b@.subrange(start + 1, end as int));
        match read_positive_decimal(b, start + 1, end, 0x8000_0000_0000_0000u64) {
            Some(v) => Some((-(v as i128)) as i64),
            None => None,
        }
    } else {
        match read_positive_decimal(b, start, end, 0x7fff_ffff_ffff_ffffu64) {
            Some(v) => Some(v as i64),
            None => None,
        }
    }
}

/// The end of the run of alphanumeric bytes that starts at `i`, before `e`.
pub open spec fn alnum_end(b: Seq<u8>, i: int, e: int) -> int
    decreases e - i,
{
    if 0 <= i < e && e <= b.len() && is_alnum(b[i]) {
        alnum_end(b, i + 1, e)
    } else {
        i
    }
}

/// The end of the run of spaces that starts at `i`, before `e`.
pub open spec fn space_end(b: Seq<u8>, i: int, e: int) -> int
    decreases e - i,
{
    if 0 <= i < e && e <= b.len() && b[i] == 32u8 {
        space_end(b, i + 1, e)
    } else {
        i
    }
}

/// The tokens of an inline command `b[i..e]`: alphanumeric runs separated
/// by runs of spaces, with nothing before the first or after the last.
pub open spec fn inline_tokens(b: Seq<u8>, i: int, e: int) -> Option<Seq<Seq<u8>>>
    decreases e - i,
{
    let k = alnum_end(b, i, e);
    if k <= i {
        None
    } else if k >= e {
        Some(seq![b.subrange(i, k)])
    } else {
        let j = space_end(b, k, e);
        if j <= k || j > e {
            None
        } else {
            match inline_tokens(b, j, e) {
                Some(ts) => Some(seq![b.subrange(i, k)] + ts),
                None => None,
            }
        }
    }
}

pub open spec fn simple_frames(ts: Seq<Seq<u8>>) -> Seq<Frame> {
    ts.map_values(|t: Seq<u8>| Frame::Simple(t))
}

/// An error line `b[s..e]`: a kind token, one space, then the message.
pub open spec fn error_frame(b: Seq<u8>, s: int, e: int) -> Option<Frame> {
    let k = alnum_end(b, s, e);
    if s < k < e && b[k] == 32u8 && valid_utf8(b.subrange(s, k)) && valid_utf8(
        b.subrange(k + 1, e),
    ) {
        Some(Frame::Error(decode_utf8(b.subrange(s, k)), decode_utf8(b.subrange(k + 1, e))))
    } else {
        None
    }
}

/// Puts `fs` in front of the elements of a decoded array.
pub open spec fn prepend_elems(fs: Seq<Frame>, d: Decoded) -> Decoded {
    match d {
        Decoded::Done(Frame::Array(rest), e) => Decoded::Done(Frame::Array(fs + rest), e),
        other => other,
    }
}

/// The frame that starts at position `pos` of `b`.
pub open spec fn decode_at(b: Seq<u8>, pos: int) -> Decoded
    decreases b.len() - pos, 0int,
{
    if pos < 0 || pos >= b.len() {
        Decoded::Incomplete
    } else {
        let c = b[pos];
        if c == 43u8 || c == 45u8 || c == 58u8 || c == 36u8 || c == 42u8 {
            match line_end(b, pos + 1) {
                None => Decoded::Incomplete,
                Some(e) => {
                    let next = e + 2;
                    if c == 43u8 {
                        Decoded::Done(Frame::Simple(b.subrange(pos + 1, e)), next)
                    } else if c == 45u8 {
                        match error_frame(b, pos + 1, e) {
                            Some(f) => Decoded::Done(f, next),
                            None => Decoded::Fatal,
                        }
                    } else if c == 58u8 {
                        match decimal_value(b.subrange(pos + 1, e)) {
                            Some(v) => Decoded::Done(Frame::Integer(v), next),
                            None => Decoded::Fatal,
                        }
                    } else if c == 36u8 {
                        match decimal_value(b.subrange(pos + 1, e)) {
                            Some(n) => if n == -1 {
                                Decoded::Done(Frame::Null, next)
                            } else if n < 0 {
                                Decoded::Fatal
                            } else if next + n + 2 > b.len() {
                                Decoded::Incomplete
                            } else if is_crlf_at(b, next + n) {
                                Decoded::Done(Frame::Bulk(b.subrange(next, next + n)), next + n + 2)
                            } else {
                                Decoded::Fatal
                            },
                            None => Decoded::Fatal,
                        }
                    } else {
                        match count_value(b.subrange(pos + 1, e)) {
                            Some(n) => if pos < next <= b.len() {
                                decode_elems(b, next, n)
                            } else {
                                Decoded::Fatal
                            },
                            None => Decoded::Fatal,
                        }
                    }
                },
            }
        } else {
            match line_end(b, pos) {
                None => Decoded::Incomplete,
                Some(e) => match inline_tokens(b, pos, e) {
                    Some(ts) => Decoded::Done(Frame::Array(simple_frames(ts)), e + 2),
                    None => Decoded::Fatal,
                },
            }
        }
    }
}

/// `n` frames one after the other from position `p`, as an array.
pub open spec fn decode_elems(b: Seq<u8>, p: int, n: nat) -> Decoded
    decreases b.len() - p, 1int,
{
    if p < 0 || p > b.len() {
        Decoded::Fatal
    } else if n == 0 {
        Decoded::Done(Frame::Array(seq![]), p)
    } else {
        match decode_at(b, p) {
            Decoded::Done(f, e) => if p < e <= b.len() {
                prepend_elems(seq![f], decode_elems(b, e, (n - 1) as nat))
            } else {
                Decoded::Fatal
            },
            other => other,
        }
    }
}

/// Puts `d` in front of a decoded token list.
pub open spec fn prepend_tokens(d: Seq<Seq<u8>>, o: Option<Seq<Seq<u8>>>) -> Option<Seq<Seq<u8>>> {
    match o {
        Some(ts) => Some(d + ts),
        None => None,
    }
}

fn scan_alnum(b: &[u8], i: usize, e: usize) -> (r: usize)
    requires
        i <= e <= b@.len(),
    ensures
        r == alnum_end(b@, i as int, e as int),
        i <= r <= e,
{
    let mut j: usize = i;
    while j < e && ((48u8 <= b[j] && b[j] <= 57u8) || (65u8 <= b[j] && b[j] <= 90u8) || (97u8
        <= b[j] && b[j] <= 122u8))
        invariant
            i <= j <= e <= b@.len(),
            alnum_end(b@, i as int, e as int) == alnum_end(b@, j as int, e as int),
        decreases e - j,
    {
        j = j + 1;
    }
    j
}

fn scan_spaces(b: &[u8], i: usize, e: usize) -> (r: usize)
    requires
        i <= e <= b@.len(),
    ensures
        r == space_end(b@, i as int, e as int),
        i <= r <= e,
{
    let mut j: usize = i;
    while j < e && b[j] == 32u8
        invariant
            i <= j <= e <= b@.len(),
            space_end(b@, i as int, e as int) == space_end(b@, j as int, e as int),
        decreases e - j,
    {
        j = j + 1;
    }
    j
}

/// Relies on `String::from_utf8`: it accepts exactly the byte strings that
/// are valid UTF-8, and the string it returns is made of those bytes.
#[verifier::external_body]
fn utf8_string(b: &[u8]) -> (r: Option<String>)
    ensures
        r is Some <==> valid_utf8(b@),
        r matches Some(s) ==> encode_utf8(s@) == b@,
{
    String::from_utf8(b.to_vec()).ok()
}

fn copy_bytes(b: &[u8]) -> (r: Vec<u8>)
    ensures
        r@ == b@,
{
    let mut v: Vec<u8> = Vec::new();
    push_all(&mut v, b);
    v
}

/// The executable counterpart of [`Decoded`].
pub(crate) enum Parsed {
    Done(RESP, usize),
    Incomplete,
    Fatal,
}

impl Parsed {
    pub(crate) open spec fn view(&self) -> Decoded {
        match self {
            Parsed::Done(r, e) => Decoded::Done(r@, *e as int),
            Parsed::Incomplete => Decoded::Incomplete,
            Parsed::Fatal => Decoded::Fatal,
        }
    }
}

proof fn lemma_prepend_elems_assoc(a: Seq<Frame>, c: Seq<Frame>, d: Decoded)
    ensures
        prepend_elems(a, prepend_elems(c, d)) == prepend_elems(a + c, d),
{
    match d {
        Decoded::Done(Frame::Array(rest), e) => {
            assert(a + (c + rest) == (a + c) + rest);
        },
        _ => {},
    }
}

fn read_inline_commands(b: &[u8], pos: usize, e: usize) -> (r: Parsed)
    requires
        pos <= e,
        e + 2 <= b@.len(),
    ensures
        r@ == (match inline_tokens(b@, pos as int, e as int) {
            Some(ts) => Decoded::Done(Frame::Array(simple_frames(ts)), e + 2),
            None => Decoded::Fatal,
        }),
{
    let blen = b.len();
    let end: usize = e + 2;
    let mut toks: Vec<RESP> = Vec::new();
    let ghost mut done: Seq<Seq<u8>> = seq![];
    let mut i: usize = pos;
    loop
        invariant
            pos <= i <= e,
            end == e + 2 <= b@.len(),
            frames_of(toks@) == simple_frames(done),
            inline_tokens(b@, pos as int, e as int) == prepend_tokens(
                done,
                inline_tokens(b@, i as int, e as int),
            ),
        decreases e - i,
    {
        let k = scan_alnum(b, i, e);
        if k <= i {
            return Parsed::Fatal;
        }
        let ghost old_done = done;
        let ghost old_toks = toks@;
        let tok = copy_bytes(&b[i..k]);
        let ghost tv = tok@;
        toks.push(RESP::SimpleString(tok));
        proof {
            done = done.push(b@.subrange(i as int, k as int));
            assert(frames_of(toks@) =~= frames_of(old_toks).push(Frame::Simple(tv)));
            assert(simple_frames(done) =~= simple_frames(old_done).push(Frame::Simple(tv)));
        }
        if k >= e {
            proof {
                assert(old_done + seq![b@.subrange(i as int, k as int)] == done);
                lemma_array_view(toks);
            }
            return Parsed::Done(RESP::Array(toks), end);
        }
        let j = scan_spaces(b, k, e);
        if j <= k {
            return Parsed::Fatal;
        }
        proof {
            let rest = inline_tokens(b@, j as int, e as int);
            match rest {
                Some(ts) => {
                    assert(old_done + (seq![b@.subrange(i as int, k as int)] + ts) == done + ts);
                },
                None => {},
            }
        }
        i = j;
    }
}

fn read_bulk(b: &[u8], next: usize, n: i64) -> (r: Parsed)
    requires
        next <= b@.len(),
        n >= 0,
    ensures
        r@ == (if next + n + 2 > b@.len() {
            Decoded::Incomplete
        } else if is_crlf_at(b@, next + n) {
            Decoded::Done(Frame::Bulk(b@.subrange(next as int, next + n)), next + n + 2)
        } else {
            Decoded::Fatal
        }),
        r matches Parsed::Done(_, e) ==> next < e <= b@.len(),
{
    let avail: u64 = (b.len() - next) as u64;
    let want: u64 = n as u64;
    if want > avail || avail - want < 2 {
        return Parsed::Incomplete;
    }
    let end: usize = next + (n as usize);
    if b[end] == 13u8 && b[end + 1] == 10u8 {
        let v = copy_bytes(&b[next..end]);
        Parsed::Done(RESP::BulkString(Arc::new(v)), end + 2)
    } else {
        Parsed::Fatal
    }
}

fn read_error(b: &[u8], s: usize, e: usize) -> (r: Option<RESP>)
    requires
        s <= e <= b@.len(),
    ensures
        match r {
            Some(v) => error_frame(b@, s as int, e as int) == Some(v@),
            None => error_frame(b@, s as int, e as int) is None,
        },
{
    let k = scan_alnum(b, s, e);
    if s < k && k < e && b[k] == 32u8 {
        let kind = utf8_string(&b[s..k]);
        let msg = utf8_string(&b[k + 1..e]);
        match (kind, msg) {
            (Some(ks), Some(ms)) => {
                proof {
                    vstd::utf8::encode_utf8_decode_utf8(ks@);
                    vstd::utf8::encode_utf8_decode_utf8(ms@);
                }
                Some(RESP::Error(ks, ms))
            },
            _ => None,
        }
    } else {
        None
    }
}

pub(crate) fn decode_frame(b: &[u8], pos: usize) -> (r: Parsed)
    requires
        pos <= b@.len(),
    ensures
        r@ == decode_at(b@, pos as int),
        r matches Parsed::Done(_, e) ==> pos < e <= b@.len(),
    decreases b@.len() - pos,
{
    if pos >= b.len() {
        return Parsed::Incomplete;
    }
    let c = b[pos];
    if c == 43u8 || c == 45u8 || c == 58u8 || c == 36u8 || c == 42u8 {
        let e = match find_crlf(b, pos + 1) {
            Some(e) => e,
            None => {
                return Parsed::Incomplete;
            },
        };
        let next = e + 2;
        if c == 43u8 {
            let v = copy_bytes(&b[pos + 1..e]);
            Parsed::Done(RESP::SimpleString(v), next)
        } else if c == 45u8 {
            match read_error(b, pos + 1, e) {
                Some(v) => Parsed::Done(v, next),
                None => Parsed::Fatal,
            }
        } else if c == 58u8 {
            match read_decimal(b, pos + 1, e) {
                Some(v) => Parsed::Done(RESP::Integer(v), next),
                None => Parsed::Fatal,
            }
        } else if c == 36u8 {
            match read_decimal(b, pos + 1, e) {
                Some(n) => {
                    if n == -1 {
                        Parsed::Done(RESP::Null, next)
                    } else if n < 0 {
                        Parsed::Fatal
                    } else {
                        read_bulk(b, next, n)
                    }
                },
                None => Parsed::Fatal,
            }
        } else {
            let n = match read_positive_decimal(b, pos + 1, e, 0x7fff_ffff_ffff_ffffu64) {
                Some(n) => n,
                None => {
                    return Parsed::Fatal;
                },
            };
            let ghost total = decode_elems(b@, next as int, n as nat);
            assert(total == decode_at(b@, pos as int));
            let mut items: Vec<RESP> = Vec::new();
            let mut p: usize = next;
            let mut i: u64 = 0;
            while i < n
                invariant
                    pos < next <= p <= b@.len(),
                    i <= n,
                    total == decode_elems(b@, next as int, n as nat),
                    total == decode_at(b@, pos as int),
                    total == prepend_elems(
                        frames_of(items@),
                        decode_elems(b@, p as int, (n - i) as nat),
                    ),
                decreases n - i,
            {
                let ghost before = items@;
                match decode_frame(b, p) {
                    Parsed::Done(f, end) => {
                        let ghost fv = f@;
                        items.push(f);
                        proof {
                            assert(frames_of(items@) =~= frames_of(before) + seq![fv]);
                            lemma_prepend_elems_assoc(
                                frames_of(before),
                                seq![fv],
                                decode_elems(b@, end as int, (n - i - 1) as nat),
                            );
                        }
                        p = end;
                        i = i + 1;
                    },
                    Parsed::Incomplete => {
                        assert(decode_elems(b@, p as int, (n - i) as nat) == Decoded::Incomplete);
                        assert(prepend_elems(frames_of(items@), Decoded::Incomplete) == Decoded::Incomplete);
                        return Parsed::Incomplete;
                    },
                    Parsed::Fatal => {
                        assert(decode_elems(b@, p as int, (n - i) as nat) == Decoded::Fatal);
                        assert(prepend_elems(frames_of(items@), Decoded::Fatal) == Decoded::Fatal);
                        return Parsed::Fatal;
                    },
                }
            }
            proof {
                assert(frames_of(items@) + seq![] == frames_of(items@));
                lemma_array_view(items);
            }
            Parsed::Done(RESP::Array(items), p)
        }
    } else {
        match find_crlf(b, pos) {
            Some(e) => read_inline_commands(b, pos, e),
            None => Parsed::Incomplete,
        }
    }
}

/// Why the decoder handed back no frame.
#[derive(Debug, PartialEq, Eq, Clone, Copy)]
pub enum ReadError {
    /// More bytes are needed; retry with the same bytes and more after them.
    Incomplete,
    /// The bytes are not valid: the connection must be dropped.
    Fatal,
}

/// What [`read`] hands back for `bytes`.
pub open spec fn read_result(bytes: Seq<u8>, r: Result<(&[u8], RESP), ReadError>) -> bool {
    match decode_at(bytes, 0) {
        Decoded::Done(f, e) => r matches Ok((rem, v)) && v@ == f && rem@ == bytes.subrange(
            e,
            bytes.len() as int,
        ),
        Decoded::Incomplete => r matches Err(ReadError::Incomplete),
        Decoded::Fatal => r matches Err(ReadError::Fatal),
    }
}

/// Decodes the frame at the start of `bytes`, and hands back the bytes
/// after it. Nothing is consumed unless a whole frame is there.
pub fn read(bytes: &[u8]) -> (r: Result<(&[u8], RESP), ReadError>)
    ensures
        read_result(bytes@, r),
{
    match decode_frame(bytes, 0) {
        Parsed::Done(v, e) => Ok((&bytes[e..bytes.len()], v)),
        Parsed::Incomplete => Err(ReadError::Incomplete),
        Parsed::Fatal => Err(ReadError::Fatal),
    }
}

/// Decodes an array frame at the start of `bytes`; any other frame is fatal.
pub fn read_array(bytes: &[u8]) -> (r: Result<(&[u8], RESP), ReadError>)
    ensures
        bytes@.len() > 0 && bytes@[0] == 42u8 ==> read_result(bytes@, r),
        bytes@.len() > 0 && bytes@[0] != 42u8 ==> r matches Err(ReadError::Fatal),
        bytes@.len() == 0 ==> r matches Err(ReadError::Incomplete),
{
    if bytes.len() == 0 {
        Err(ReadError::Incomplete)
    } else if bytes[0] != 42u8 {
        Err(ReadError::Fatal)
    } else {
        read(bytes)
    }
}

/// The value of a string of decimal digits.
pub fn read_integer_ascii(bytes: &[u8]) -> (r: u64)
    requires
        forall|i: int| 0 <= i < bytes@.len() ==> is_digit(#[trigger] bytes@[i]),
        digits_value(bytes@) <= u64::MAX,
    ensures
        r == digits_value(bytes@),
{
    let mut acc: u64 = 0;
    let mut i: usize = 0;
    while i < bytes.len()
        invariant
            i <= bytes@.len(),
            forall|j: int| 0 <= j < bytes@.len() ==> is_digit(#[trigger] bytes@[j]),
            digits_value(bytes@) <= u64::MAX,
            acc == digits_value(bytes@.subrange(0, i as int)),
        decreases bytes@.len() - i,
    {
        proof {
            lemma_digits_prefix(bytes@, i + 1);
            assert(bytes@.subrange(0, i + 1).drop_last() == bytes@.subrange(0, i as int));
        }
        acc = acc * 10 + (bytes[i] - 48u8) as u64;
        i = i + 1;
    }
    assert(bytes@.subrange(0, i as int) == bytes@);
    acc
}

} // verus!
