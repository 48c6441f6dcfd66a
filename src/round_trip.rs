//! The codec's laws: a well-formed frame decodes from its own wire form,
//! every frame the decoder hands back is well-formed (so its wire form
//! decodes back to it), and a frame once decoded stays the same when more
//! bytes arrive.

use crate::parser::{
    all_digits, alnum_end, count_value, decimal_value, decode_at, decode_elems, digits_value,
    i64_bound, is_alnum, is_crlf_at, line_end, Decoded,
};
use crate::parser::{error_frame, inline_tokens, simple_frames, space_end};
use crate::protocol::{crlf, encode_frame, encode_seq, int_digits, nat_digits, Frame};
use vstd::prelude::*;
use vstd::utf8::{decode_utf8, encode_utf8, valid_utf8};

verus! {

proof fn lemma_nat_digits(n: nat)
    ensures
        all_digits(nat_digits(n)),
        digits_value(nat_digits(n)) == n,
    decreases n,
{
    let s = nat_digits(n);
    if n < 10 {
        assert(s.drop_last() =~= Seq::<u8>::empty());
        assert(digits_value(s) == digits_value(s.drop_last()) * 10 + (s.last() - 48) as nat);
    } else {
        lemma_nat_digits(n / 10);
        assert(s.drop_last() == nat_digits(n / 10));
        assert(s.last() == (48 + n % 10) as u8);
        assert(((48 + n % 10) as u8) as int == 48 + n % 10);
        assert(digits_value(s) == digits_value(nat_digits(n / 10)) * 10 + (s.last() - 48) as nat);
        assert((n / 10) * 10 + n % 10 == n) by (nonlinear_arith);
        assert forall|i: int| 0 <= i < s.len() implies crate::parser::is_digit(#[trigger] s[i]) by {
            if i < s.len() - 1 {
                assert(s[i] == nat_digits(n / 10)[i]);
            }
        }
    }
}

proof fn lemma_int_digits(i: int)
    requires
        -i64_bound() <= i < i64_bound(),
    ensures
        decimal_value(int_digits(i)) == Some(i),
{
    if i < 0 {
        let d = nat_digits((-i) as nat);
        lemma_nat_digits((-i) as nat);
        assert(int_digits(i).skip(1) == d);
    } else {
        lemma_nat_digits(i as nat);
        assert(crate::parser::is_digit(nat_digits(i as nat)[0]));
    }
}

proof fn lemma_count_digits(n: nat)
    requires
        n < i64_bound(),
    ensures
        count_value(nat_digits(n)) == Some(n),
{
    lemma_nat_digits(n);
}

/// The first CR/LF at or after `from` is at `j` when there is one at `j`
/// and none before it.
proof fn lemma_line_end_at(b: Seq<u8>, from: int, j: int)
    requires
        0 <= from <= j,
        is_crlf_at(b, j),
        forall|i: int| from <= i < j ==> !is_crlf_at(b, i),
    ensures
        line_end(b, from) == Some(j),
    decreases j - from,
{
    if from < j {
        lemma_line_end_at(b, from + 1, j);
    }
}

proof fn lemma_line_end_props(b: Seq<u8>, from: int)
    requires
        0 <= from,
        line_end(b, from) is Some,
    ensures
        ({
            let e = line_end(b, from)->Some_0;
            &&& from <= e
            &&& is_crlf_at(b, e)
            &&& forall|i: int| from <= i < e ==> !is_crlf_at(b, i)
        }),
    decreases b.len() - from,
{
    if !is_crlf_at(b, from) {
        lemma_line_end_props(b, from + 1);
    }
}

proof fn lemma_alnum_end_at(b: Seq<u8>, i: int, j: int, e: int)
    requires
        0 <= i <= j <= e <= b.len(),
        forall|x: int| i <= x < j ==> is_alnum(#[trigger] b[x]),
        j < e ==> !is_alnum(b[j]),
    ensures
        alnum_end(b, i, e) == j,
    decreases j - i,
{
    if i < j {
        lemma_alnum_end_at(b, i + 1, j, e);
    }
}

proof fn lemma_alnum_end_props(b: Seq<u8>, i: int, e: int)
    requires
        0 <= i <= e <= b.len(),
    ensures
        i <= alnum_end(b, i, e) <= e,
        forall|x: int| i <= x < alnum_end(b, i, e) ==> is_alnum(#[trigger] b[x]),
    decreases e - i,
{
    if i < e && is_alnum(b[i]) {
        lemma_alnum_end_props(b, i + 1, e);
    }
}

/// No CR/LF pair inside.
pub open spec fn no_crlf(s: Seq<u8>) -> bool {
    forall|i: int| 0 <= i < s.len() - 1 ==> !(#[trigger] s[i] == 13u8 && s[i + 1] == 10u8)
}

pub open spec fn all_alnum(s: Seq<u8>) -> bool {
    forall|i: int| 0 <= i < s.len() ==> is_alnum(#[trigger] s[i])
}

/// A frame that the wire form can carry: simple strings and error messages
/// hold no CR/LF, error kinds are alphanumeric, numbers and lengths fit in
/// `i64`.
pub open spec fn well_formed(f: Frame) -> bool
    decreases f,
{
    match f {
        Frame::Simple(s) => no_crlf(s),
        Frame::Error(k, m) => encode_utf8(k).len() > 0 && all_alnum(encode_utf8(k)) && no_crlf(
            encode_utf8(m),
        ),
        Frame::Integer(i) => -i64_bound() <= i < i64_bound(),
        Frame::Bulk(b) => b.len() < i64_bound(),
        Frame::Array(fs) => fs.len() < i64_bound() && forall|i: int|
            0 <= i < fs.len() ==> well_formed(#[trigger] fs[i]),
        Frame::Null => true,
    }
}

/// `b` holds `w` from position `pos` on.
pub open spec fn holds_at(b: Seq<u8>, pos: int, w: Seq<u8>) -> bool {
    0 <= pos && pos + w.len() <= b.len() && b.subrange(pos, pos + w.len()) == w
}

proof fn lemma_holds_at_index(b: Seq<u8>, pos: int, w: Seq<u8>)
    requires
        holds_at(b, pos, w),
    ensures
        forall|i: int| 0 <= i < w.len() ==> b[pos + i] == #[trigger] w[i],
{
    assert forall|i: int| 0 <= i < w.len() implies b[pos + i] == #[trigger] w[i] by {
        assert(b.subrange(pos, pos + w.len())[i] == b[pos + i]);
    }
}

proof fn lemma_holds_at_split(b: Seq<u8>, pos: int, w1: Seq<u8>, w2: Seq<u8>)
    requires
        holds_at(b, pos, w1 + w2),
    ensures
        holds_at(b, pos, w1),
        holds_at(b, pos + w1.len(), w2),
{
    let full = b.subrange(pos, pos + w1.len() + w2.len());
    assert(full == w1 + w2);
    assert(b.subrange(pos, pos + w1.len()) =~= full.subrange(0, w1.len() as int));
    assert(full.subrange(0, w1.len() as int) =~= w1);
    assert(b.subrange(pos + w1.len(), pos + w1.len() + w2.len()) =~= full.subrange(
        w1.len() as int,
        (w1.len() + w2.len()) as int,
    ));
    assert(full.subrange(w1.len() as int, (w1.len() + w2.len()) as int) =~= w2);
}

/// A header line: a tag byte, then `body`, then CR/LF, where `body` holds
/// no CR/LF and does not end in CR.
proof fn lemma_header_line(b: Seq<u8>, pos: int, tag: u8, body: Seq<u8>)
    requires
        holds_at(b, pos, seq![tag] + body + crlf()),
        no_crlf(body),
    ensures
        line_end(b, pos + 1) == Some(pos + 1 + body.len()),
        b[pos] == tag,
        b.subrange(pos + 1, pos + 1 + body.len()) == body,
{
    let w = seq![tag] + body + crlf();
    lemma_holds_at_index(b, pos, w);
    assert(w[0] == tag);
    let j = pos + 1 + body.len();
    assert(w[1 + body.len() as int] == 13u8);
    assert(w[2 + body.len() as int] == 10u8);
    assert forall|i: int| pos + 1 <= i < j implies !is_crlf_at(b, i) by {
        let x = i - pos - 1;
        assert(w[1 + x] == body[x]);
        if x < body.len() - 1 {
            assert(w[2 + x] == body[x + 1]);
        } else {
            assert(w[2 + x] == 13u8);
        }
    }
    lemma_line_end_at(b, pos + 1, j);
    assert forall|x: int| 0 <= x < body.len() implies b.subrange(pos + 1, j)[x] == body[x] by {
        assert(w[1 + x] == body[x]);
    }
    assert(b.subrange(pos + 1, j) =~= body);
}

proof fn lemma_digits_no_crlf(n: nat)
    ensures
        no_crlf(nat_digits(n)),
        no_crlf(int_digits(n as int)),
{
    lemma_nat_digits(n);
    let s = nat_digits(n);
    assert forall|i: int| 0 <= i < s.len() - 1 implies !(#[trigger] s[i] == 13u8 && s[i + 1] == 10u8) by {
        assert(crate::parser::is_digit(s[i]));
    }
}

proof fn lemma_int_digits_no_crlf(i: int)
    ensures
        no_crlf(int_digits(i)),
{
    if i < 0 {
        let d = nat_digits((-i) as nat);
        lemma_nat_digits((-i) as nat);
        let s = int_digits(i);
        assert forall|x: int| 0 <= x < s.len() - 1 implies !(#[trigger] s[x] == 13u8 && s[x + 1] == 10u8) by {
            if x > 0 {
                assert(s[x] == d[x - 1]);
                assert(crate::parser::is_digit(d[x - 1]));
            } else {
                assert(s[0] == 45u8);
            }
        }
    } else {
        lemma_digits_no_crlf(i as nat);
    }
}

proof fn lemma_encode_nonempty(f: Frame)
    ensures
        encode_frame(f).len() > 0,
{
    let e = encode_frame(f);
    match f {
        Frame::Simple(x) => assert(e == seq![43u8] + x + crlf()),
        Frame::Error(k, m) => assert(e == seq![45u8] + encode_utf8(k) + seq![32u8] + encode_utf8(m)
            + crlf()),
        Frame::Integer(i) => assert(e == seq![58u8] + int_digits(i) + crlf()),
        Frame::Bulk(d) => assert(e == seq![36u8] + nat_digits(d.len()) + crlf() + d + crlf()),
        Frame::Array(fs) => assert(e == seq![42u8] + nat_digits(fs.len()) + crlf() + encode_seq(
            fs,
            fs.len(),
        )),
        Frame::Null => {},
    }
}

proof fn lemma_encode_seq_prefix(fs: Seq<Frame>, j: nat, n: nat)
    requires
        j <= n <= fs.len(),
    ensures
        encode_seq(fs, j).len() <= encode_seq(fs, n).len(),
        encode_seq(fs, n).subrange(0, encode_seq(fs, j).len() as int) == encode_seq(fs, j),
    decreases n,
{
    if j == n {
        assert(encode_seq(fs, n).subrange(0, encode_seq(fs, n).len() as int) =~= encode_seq(fs, n));
    } else {
        lemma_encode_seq_prefix(fs, j, (n - 1) as nat);
        let prev = encode_seq(fs, (n - 1) as nat);
        assert(encode_seq(fs, n) == prev + encode_frame(fs[n - 1]));
        assert((prev + encode_frame(fs[n - 1])).subrange(0, encode_seq(fs, j).len() as int)
            =~= prev.subrange(0, encode_seq(fs, j).len() as int));
    }
}

proof fn lemma_nat_digits_header(n: nat)
    requires
        n < i64_bound(),
    ensures
        decimal_value(nat_digits(n)) == Some(n as int),
        count_value(nat_digits(n)) == Some(n),
        no_crlf(nat_digits(n)),
{
    lemma_nat_digits(n);
    lemma_digits_no_crlf(n);
    assert(crate::parser::is_digit(nat_digits(n)[0]));
}

/// A well-formed frame decodes from its own wire form, wherever that stands.
pub proof fn lemma_decode_window(b: Seq<u8>, pos: int, f: Frame)
    requires
        well_formed(f),
        holds_at(b, pos, encode_frame(f)),
    ensures
        decode_at(b, pos) == Decoded::Done(f, pos + encode_frame(f).len()),
    decreases f, 0nat,
{
    let enc = encode_frame(f);
    match f {
        Frame::Simple(x) => {
            lemma_header_line(b, pos, 43u8, x);
        },
        Frame::Integer(i) => {
            lemma_int_digits_no_crlf(i);
            lemma_int_digits(i);
            lemma_header_line(b, pos, 58u8, int_digits(i));
        },
        Frame::Null => {
            let body = seq![45u8, 49u8];
            assert(enc =~= seq![36u8] + body + crlf());
            assert(body.skip(1) =~= seq![49u8]);
            lemma_nat_digits(1);
            assert(nat_digits(1) =~= seq![49u8]);
            lemma_header_line(b, pos, 36u8, body);
        },
        Frame::Bulk(d) => {
            let head = seq![36u8] + nat_digits(d.len()) + crlf();
            assert(enc =~= head + (d + crlf()));
            lemma_holds_at_split(b, pos, head, d + crlf());
            lemma_nat_digits_header(d.len());
            lemma_header_line(b, pos, 36u8, nat_digits(d.len()));
            let next = pos + head.len();
            lemma_holds_at_split(b, next, d, crlf());
            lemma_holds_at_index(b, next + d.len(), crlf());
            assert(crlf()[0] == 13u8 && crlf()[1] == 10u8);
        },
        Frame::Error(k, m) => {
            let ek = encode_utf8(k);
            let em = encode_utf8(m);
            let body = ek + seq![32u8] + em;
            assert(enc =~= seq![45u8] + body + crlf());
            assert forall|i: int| 0 <= i < body.len() - 1 implies !(#[trigger] body[i] == 13u8 && body[i + 1] == 10u8) by {
                if i < ek.len() {
                    assert(body[i] == ek[i]);
                    assert(is_alnum(ek[i]));
                } else if i == ek.len() {
                    assert(body[i] == 32u8);
                } else {
                    assert(body[i] == em[i - ek.len() - 1]);
                    assert(body[i + 1] == em[i - ek.len()]);
                }
            }
            lemma_header_line(b, pos, 45u8, body);
            let e = pos + 1 + body.len();
            let kend = pos + 1 + ek.len();
            let w = seq![45u8] + body + crlf();
            lemma_holds_at_index(b, pos, w);
            assert forall|x: int| pos + 1 <= x < kend implies is_alnum(#[trigger] b[x]) by {
                assert(w[x - pos] == ek[x - pos - 1]);
            }
            assert(w[kend - pos] == 32u8);
            lemma_alnum_end_at(b, pos + 1, kend, e);
            assert(b.subrange(pos + 1, e) == body);
            assert(b.subrange(pos + 1, kend) =~= body.subrange(0, ek.len() as int));
            assert(body.subrange(0, ek.len() as int) =~= ek);
            assert(b.subrange(kend + 1, e) =~= body.subrange(ek.len() as int + 1, body.len() as int));
            assert(body.subrange(ek.len() as int + 1, body.len() as int) =~= em);
            vstd::utf8::encode_utf8_valid_utf8(k);
            vstd::utf8::encode_utf8_valid_utf8(m);
            vstd::utf8::encode_utf8_decode_utf8(k);
            vstd::utf8::encode_utf8_decode_utf8(m);
            assert(error_frame(b, pos + 1, e) == Some(f));
        },
        Frame::Array(fs) => {
            let n = fs.len();
            let head = seq![42u8] + nat_digits(n) + crlf();
            assert(enc =~= head + encode_seq(fs, n));
            lemma_holds_at_split(b, pos, head, encode_seq(fs, n));
            lemma_nat_digits_header(n);
            lemma_header_line(b, pos, 42u8, nat_digits(n));
            let next = pos + head.len();
            assert(decreases_to!(f => f->Array_0));
            lemma_decode_elems_window(b, next, fs, 0);
            assert(fs.subrange(0, n as int) =~= fs);
        },
    }
}

/// The elements `j..` of an array decode, one after the other, from their
/// wire forms.
proof fn lemma_decode_elems_window(b: Seq<u8>, start: int, fs: Seq<Frame>, j: nat)
    requires
        j <= fs.len(),
        forall|i: int| 0 <= i < fs.len() ==> well_formed(#[trigger] fs[i]),
        holds_at(b, start, encode_seq(fs, fs.len())),
    ensures
        decode_elems(b, start + encode_seq(fs, j).len(), (fs.len() - j) as nat) == Decoded::Done(
            Frame::Array(fs.subrange(j as int, fs.len() as int)),
            start + encode_seq(fs, fs.len()).len(),
        ),
    decreases fs, fs.len() - j,
{
    let n = fs.len();
    let p = start + encode_seq(fs, j).len();
    if j == n {
        assert(fs.subrange(j as int, n as int) =~= Seq::<Frame>::empty());
    } else {
        lemma_encode_seq_prefix(fs, j + 1, n);
        let pre = encode_seq(fs, j + 1);
        assert(pre == encode_seq(fs, j) + encode_frame(fs[j as int]));
        assert(holds_at(b, start, pre)) by {
            assert(b.subrange(start, start + pre.len()) =~= b.subrange(
                start,
                start + encode_seq(fs, n).len(),
            ).subrange(0, pre.len() as int));
        }
        lemma_holds_at_split(b, start, encode_seq(fs, j), encode_frame(fs[j as int]));
        assert(decreases_to!(fs => fs[j as int]));
        lemma_decode_window(b, p, fs[j as int]);
        lemma_encode_nonempty(fs[j as int]);
        lemma_decode_elems_window(b, start, fs, j + 1);
        assert(seq![fs[j as int]] + fs.subrange(j as int + 1, n as int) =~= fs.subrange(j as int, n as int));
    }
}

proof fn lemma_inline_tokens_props(b: Seq<u8>, i: int, e: int)
    requires
        0 <= i <= e <= b.len(),
        inline_tokens(b, i, e) is Some,
    ensures
        ({
            let ts = inline_tokens(b, i, e)->Some_0;
            &&& ts.len() <= e - i
            &&& forall|j: int| 0 <= j < ts.len() ==> all_alnum(#[trigger] ts[j])
        }),
    decreases e - i,
{
    let k = alnum_end(b, i, e);
    lemma_alnum_end_props(b, i, e);
    let tok = b.subrange(i, k);
    assert(all_alnum(tok)) by {
        assert forall|x: int| 0 <= x < tok.len() implies is_alnum(#[trigger] tok[x]) by {
            assert(tok[x] == b[i + x]);
        }
    }
    let ts = inline_tokens(b, i, e)->Some_0;
    if k >= e {
        assert(ts == seq![tok]);
    } else {
        let j = space_end(b, k, e);
        lemma_inline_tokens_props(b, j, e);
        let rest = inline_tokens(b, j, e)->Some_0;
        assert(ts == seq![tok] + rest);
        assert forall|x: int| 0 <= x < ts.len() implies all_alnum(#[trigger] ts[x]) by {
            if x > 0 {
                assert(ts[x] == rest[x - 1]);
            }
        }
    }
}

proof fn lemma_no_crlf_between(b: Seq<u8>, from: int, s: int, t: int)
    requires
        0 <= from <= s <= t,
        t < b.len(),
        forall|i: int| from <= i < t ==> !is_crlf_at(b, i),
    ensures
        no_crlf(b.subrange(s, t)),
{
    let w = b.subrange(s, t);
    assert forall|i: int| 0 <= i < w.len() - 1 implies !(#[trigger] w[i] == 13u8 && w[i + 1] == 10u8) by {
        assert(w[i] == b[s + i]);
        assert(w[i + 1] == b[s + i + 1]);
        assert(!is_crlf_at(b, s + i));
    }
}

/// Every frame that the decoder hands back is well-formed, and lies within
/// the bytes.
pub proof fn lemma_decoded_well_formed(b: Seq<u8>, pos: int)
    requires
        0 <= pos,
        b.len() < i64_bound(),
        decode_at(b, pos) is Done,
    ensures
        match decode_at(b, pos) {
            Decoded::Done(f, e) => well_formed(f) && pos < e <= b.len(),
            _ => false,
        },
    decreases b.len() - pos, 0int,
{
    let c = b[pos];
    if c == 43u8 || c == 45u8 || c == 58u8 || c == 36u8 || c == 42u8 {
        lemma_line_end_props(b, pos + 1);
        let e = line_end(b, pos + 1)->Some_0;
        let next = e + 2;
        if c == 43u8 {
            lemma_no_crlf_between(b, pos + 1, pos + 1, e);
        } else if c == 45u8 {
            let k = alnum_end(b, pos + 1, e);
            lemma_alnum_end_props(b, pos + 1, e);
            let kb = b.subrange(pos + 1, k);
            let mb = b.subrange(k + 1, e);
            vstd::utf8::decode_utf8_encode_utf8(kb);
            vstd::utf8::decode_utf8_encode_utf8(mb);
            assert forall|x: int| 0 <= x < kb.len() implies is_alnum(#[trigger] kb[x]) by {
                assert(kb[x] == b[pos + 1 + x]);
            }
            lemma_no_crlf_between(b, pos + 1, k + 1, e);
        } else if c == 42u8 {
            let n = count_value(b.subrange(pos + 1, e))->Some_0;
            lemma_decoded_elems_well_formed(b, next, n);
        }
    } else {
        lemma_line_end_props(b, pos);
        let e = line_end(b, pos)->Some_0;
        lemma_inline_tokens_props(b, pos, e);
        let ts = inline_tokens(b, pos, e)->Some_0;
        let fs = simple_frames(ts);
        assert forall|j: int| 0 <= j < fs.len() implies well_formed(#[trigger] fs[j]) by {
            assert(fs[j] == Frame::Simple(ts[j]));
            assert(all_alnum(ts[j]));
            assert forall|x: int| 0 <= x < ts[j].len() - 1 implies !(#[trigger] ts[j][x] == 13u8
                && ts[j][x + 1] == 10u8) by {
                assert(is_alnum(ts[j][x]));
            }
        }
    }
}

proof fn lemma_decoded_elems_well_formed(b: Seq<u8>, p: int, n: nat)
    requires
        0 <= p <= b.len(),
        b.len() < i64_bound(),
        decode_elems(b, p, n) is Done,
    ensures
        match decode_elems(b, p, n) {
            Decoded::Done(Frame::Array(fs), end) => fs.len() == n && p <= end <= b.len() && forall|
                i: int,
            | 0 <= i < fs.len() ==> well_formed(#[trigger] fs[i]),
            _ => false,
        },
    decreases b.len() - p, 1int,
{
    if n > 0 {
        lemma_decoded_well_formed(b, p);
        let (f, e) = match decode_at(b, p) {
            Decoded::Done(f, e) => (f, e),
            _ => arbitrary(),
        };
        lemma_decoded_elems_well_formed(b, e, (n - 1) as nat);
        let (rest, end) = match decode_elems(b, e, (n - 1) as nat) {
            Decoded::Done(Frame::Array(rest), end) => (rest, end),
            _ => arbitrary(),
        };
        let fs = seq![f] + rest;
        assert(decode_elems(b, p, n) == Decoded::Done(Frame::Array(fs), end));
        assert forall|i: int| 0 <= i < fs.len() implies well_formed(#[trigger] fs[i]) by {
            if i > 0 {
                assert(fs[i] == rest[i - 1]);
            }
        }
    }
}

/// A well-formed frame decodes from its wire form, whatever bytes follow.
pub proof fn lemma_encode_then_decode(f: Frame, rest: Seq<u8>)
    requires
        well_formed(f),
    ensures
        decode_at(encode_frame(f) + rest, 0) == Decoded::Done(f, encode_frame(f).len() as int),
{
    let b = encode_frame(f) + rest;
    assert(b.subrange(0, encode_frame(f).len() as int) =~= encode_frame(f));
    lemma_decode_window(b, 0, f);
}

/// Whatever frame the decoder reads from bytes held in memory, its wire form
/// decodes back to that same frame.
pub proof fn lemma_decoded_frame_round_trip(b: Seq<u8>, f: Frame, e: int)
    requires
        b.len() < i64_bound(),
        decode_at(b, 0) == Decoded::Done(f, e),
    ensures
        decode_at(encode_frame(f), 0) == Decoded::Done(f, encode_frame(f).len() as int),
{
    lemma_decoded_well_formed(b, 0);
    lemma_encode_then_decode(f, seq![]);
    assert(encode_frame(f) + seq![] =~= encode_frame(f));
}

proof fn lemma_line_end_extend(b: Seq<u8>, x: Seq<u8>, from: int)
    requires
        0 <= from,
        line_end(b, from) is Some,
    ensures
        line_end(b + x, from) == line_end(b, from),
{
    lemma_line_end_props(b, from);
    let e = line_end(b, from)->Some_0;
    let bx = b + x;
    assert forall|i: int| from <= i < e implies !is_crlf_at(bx, i) by {
        assert(bx[i] == b[i] && bx[i + 1] == b[i + 1]);
        assert(!is_crlf_at(b, i));
    }
    assert(bx[e] == b[e] && bx[e + 1] == b[e + 1]);
    lemma_line_end_at(bx, from, e);
}

proof fn lemma_alnum_end_extend(b: Seq<u8>, x: Seq<u8>, i: int, e: int)
    requires
        e <= b.len(),
    ensures
        alnum_end(b + x, i, e) == alnum_end(b, i, e),
    decreases e - i,
{
    if 0 <= i < e {
        assert((b + x)[i] == b[i]);
        lemma_alnum_end_extend(b, x, i + 1, e);
    }
}

proof fn lemma_space_end_extend(b: Seq<u8>, x: Seq<u8>, i: int, e: int)
    requires
        e <= b.len(),
    ensures
        space_end(b + x, i, e) == space_end(b, i, e),
    decreases e - i,
{
    if 0 <= i < e {
        assert((b + x)[i] == b[i]);
        lemma_space_end_extend(b, x, i + 1, e);
    }
}

proof fn lemma_subrange_extend(b: Seq<u8>, x: Seq<u8>, i: int, j: int)
    requires
        0 <= i <= j <= b.len(),
    ensures
        (b + x).subrange(i, j) == b.subrange(i, j),
{
    assert((b + x).subrange(i, j) =~= b.subrange(i, j));
}

proof fn lemma_inline_tokens_extend(b: Seq<u8>, x: Seq<u8>, i: int, e: int)
    requires
        0 <= i <= e <= b.len(),
    ensures
        inline_tokens(b + x, i, e) == inline_tokens(b, i, e),
    decreases e - i,
{
    lemma_alnum_end_extend(b, x, i, e);
    lemma_alnum_end_props(b, i, e);
    let k = alnum_end(b, i, e);
    if i < k {
        lemma_subrange_extend(b, x, i, k);
        if k < e {
            lemma_space_end_extend(b, x, k, e);
            let j = space_end(b, k, e);
            if k < j <= e {
                lemma_inline_tokens_extend(b, x, j, e);
            }
        }
    }
}

/// Bytes after a whole frame do not change it: once the decoder has a frame
/// at `pos`, more bytes give the same frame, ending at the same place.
pub proof fn lemma_decode_extend(b: Seq<u8>, x: Seq<u8>, pos: int)
    requires
        0 <= pos,
        decode_at(b, pos) is Done,
    ensures
        decode_at(b + x, pos) == decode_at(b, pos),
    decreases b.len() - pos, 0int,
{
    let bx = b + x;
    let c = b[pos];
    assert(bx[pos] == c);
    if c == 43u8 || c == 45u8 || c == 58u8 || c == 36u8 || c == 42u8 {
        lemma_line_end_extend(b, x, pos + 1);
        lemma_line_end_props(b, pos + 1);
        let e = line_end(b, pos + 1)->Some_0;
        let next = e + 2;
        lemma_subrange_extend(b, x, pos + 1, e);
        if c == 45u8 {
            lemma_alnum_end_extend(b, x, pos + 1, e);
            lemma_alnum_end_props(b, pos + 1, e);
            let k = alnum_end(b, pos + 1, e);
            if pos + 1 < k < e {
                assert(bx[k] == b[k]);
                lemma_subrange_extend(b, x, pos + 1, k);
                lemma_subrange_extend(b, x, k + 1, e);
            }
        } else if c == 36u8 {
            let n = decimal_value(b.subrange(pos + 1, e))->Some_0;
            if n >= 0 {
                assert(next + n + 2 <= b.len());
                assert(bx[next + n] == b[next + n] && bx[next + n + 1] == b[next + n + 1]);
                lemma_subrange_extend(b, x, next, next + n);
            }
        } else if c == 42u8 {
            let n = count_value(b.subrange(pos + 1, e))->Some_0;
            lemma_decode_elems_extend(b, x, next, n);
        }
    } else {
        lemma_line_end_extend(b, x, pos);
        lemma_line_end_props(b, pos);
        let e = line_end(b, pos)->Some_0;
        lemma_inline_tokens_extend(b, x, pos, e);
    }
}

proof fn lemma_decode_elems_extend(b: Seq<u8>, x: Seq<u8>, p: int, n: nat)
    requires
        0 <= p <= b.len(),
        decode_elems(b, p, n) is Done,
    ensures
        decode_elems(b + x, p, n) == decode_elems(b, p, n),
    decreases b.len() - p, 1int,
{
    if n > 0 {
        lemma_decode_extend(b, x, p);
        let e = match decode_at(b, p) {
            Decoded::Done(_, e) => e,
            _ => arbitrary(),
        };
        lemma_decode_elems_extend(b, x, e, (n - 1) as nat);
    }
}

} // verus!
