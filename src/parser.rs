//! The wire codec: one message parsed from the front of a byte buffer, and
//! replies rendered as bytes.
use vstd::prelude::*;
use vstd::string::{StrSliceExecFns, StringExecFns};
use vstd::utf8::{encode_utf8, encode_utf8_decode_utf8, encode_utf8_valid_utf8};
use crate::db::key_views;
use crate::decimal::{
    all_digits, i64_of_text, i64_string, int_chars, int_text, is_digit, lemma_i64_text,
    lemma_int_text_value, lemma_nat_text, nat_text, parse_i64, push_i64_text, push_u128_text,
    usize_string,
};
use crate::network::{bulk_of, bulk_words};
use crate::text::{append_bytes, copy_range, lossy_decode, lossy_text};
use crate::types::{lemma_wires_of, wire_of, wires_of, RESPResult, Wire};

verus! {

pub open spec fn crlf() -> Seq<u8> {
    seq![13u8, 10u8]
}

pub open spec fn crlf_at(b: Seq<u8>, j: int) -> bool {
    0 <= j && j + 1 < b.len() && b[j] == 13 && b[j + 1] == 10
}

/// The position of the first CRLF at or after `i`.
pub open spec fn find_crlf(b: Seq<u8>, i: int) -> Option<int>
    decreases b.len() - i,
{
    if i < 0 || i + 1 >= b.len() {
        None
    } else if crlf_at(b, i) {
        Some(i)
    } else {
        find_crlf(b, i + 1)
    }
}

pub proof fn lemma_find_crlf(b: Seq<u8>, i: int)
    requires
        0 <= i,
    ensures
        match find_crlf(b, i) {
            Some(j) => i <= j && crlf_at(b, j) && forall|m: int| i <= m < j ==> !crlf_at(b, m),
            None => forall|m: int| i <= m ==> !crlf_at(b, m),
        },
    decreases b.len() - i,
{
    if i + 1 >= b.len() {
    } else if crlf_at(b, i) {
    } else {
        lemma_find_crlf(b, i + 1);
    }
}

/// The message that starts at `i`, with the position just after it.
pub open spec fn parse_at(b: Seq<u8>, i: int) -> Option<(Wire, int)>
    decreases b.len() - i, 1int,
{
    if i < 0 || i >= b.len() {
        None
    } else {
        match find_crlf(b, i + 1) {
            None => None,
            Some(j) => {
                proof {
                    lemma_find_crlf(b, i + 1);
                }
                let line = b.subrange(i + 1, j);
                let tag = b[i];
                if tag == 43 {
                    Some((Wire::Simple(lossy_decode(line)), j + 2))
                } else if tag == 45 {
                    Some((Wire::Error(lossy_decode(line)), j + 2))
                } else if tag == 58 {
                    let v = match i64_of_text(line) {
                        Some(v) => v,
                        None => 0,
                    };
                    Some((Wire::Integer(v), j + 2))
                } else if tag == 36 {
                    match i64_of_text(line) {
                        None => None,
                        Some(n) => if n == -1 {
                            Some((Wire::Bulk(None), j + 2))
                        } else if n >= 0 && crlf_at(b, j + 2 + n) {
                            Some((Wire::Bulk(Some(b.subrange(j + 2, j + 2 + n))), j + 4 + n))
                        } else {
                            None
                        },
                    }
                } else if tag == 42 {
                    match i64_of_text(line) {
                        None => None,
                        Some(k) => match parse_items(b, j + 2, k as int) {
                            Some((xs, e)) => Some((Wire::Array(xs), e)),
                            None => None,
                        },
                    }
                } else {
                    None
                }
            },
        }
    }
}

/// `k` messages one after the other from `i`, with the position after the
/// last; none when `k` is not positive.
pub open spec fn parse_items(b: Seq<u8>, i: int, k: int) -> Option<(Seq<Wire>, int)>
    decreases b.len() - i, 2int,
{
    if i < 0 || i > b.len() {
        None
    } else if k <= 0 {
        Some((Seq::empty(), i))
    } else {
        match parse_at(b, i) {
            None => None,
            Some((x, e)) => if i < e <= b.len() {
                match parse_items(b, e, k - 1) {
                    None => None,
                    Some((xs, f)) => Some((seq![x] + xs, f)),
                }
            } else {
                None
            },
        }
    }
}

/// What `parse_resp_message` gives on a buffer: the message at its front and
/// the number of bytes it takes.
pub open spec fn parse(b: Seq<u8>) -> Option<(Wire, int)> {
    parse_at(b, 0)
}

/// The bytes of a message.
pub open spec fn render(w: Wire) -> Seq<u8>
    decreases w,
{
    match w {
        Wire::Simple(s) => seq![43u8] + encode_utf8(s) + crlf(),
        Wire::Error(s) => seq![45u8] + encode_utf8(s) + crlf(),
        Wire::Integer(i) => seq![58u8] + int_text(i as int) + crlf(),
        Wire::Bulk(None) => seq![36u8, 45u8, 49u8] + crlf(),
        Wire::Bulk(Some(p)) => seq![36u8] + nat_text(p.len()) + crlf() + p + crlf(),
        Wire::Array(xs) => seq![42u8] + nat_text(xs.len()) + crlf() + render_all(xs),
    }
}

/// The bytes of several messages, one after the other.
pub open spec fn render_all(xs: Seq<Wire>) -> Seq<u8>
    decreases xs,
{
    if xs.len() == 0 {
        Seq::empty()
    } else {
        render_all(xs.drop_last()) + render(xs.last())
    }
}

/// No CRLF pair lies within `s`.
pub open spec fn no_crlf(s: Seq<u8>) -> bool {
    forall|m: int| 0 <= m < s.len() - 1 ==> !(s[m] == 13 && #[trigger] s[m + 1] == 10)
}

/// A message that survives rendering: its inline texts hold no CRLF, and its
/// lengths fit the signed 64-bit headers.
pub open spec fn renderable(w: Wire) -> bool
    decreases w,
{
    match w {
        Wire::Simple(s) => no_crlf(encode_utf8(s)),
        Wire::Error(s) => no_crlf(encode_utf8(s)),
        Wire::Integer(_) => true,
        Wire::Bulk(None) => true,
        Wire::Bulk(Some(p)) => p.len() <= i64::MAX,
        Wire::Array(xs) => xs.len() <= i64::MAX && forall|t: int|
            0 <= t < xs.len() ==> renderable(#[trigger] xs[t]),
    }
}

proof fn lemma_find_crlf_first(b: Seq<u8>, a: int, j: int)
    requires
        0 <= a <= j,
        crlf_at(b, j),
        forall|m: int| a <= m < j ==> !crlf_at(b, m),
    ensures
        find_crlf(b, a) == Some(j),
    decreases j - a,
{
    if a < j {
        lemma_find_crlf_first(b, a + 1, j);
    }
}

/// A line of `text` then CRLF at `a` is found as such.
pub proof fn lemma_line(b: Seq<u8>, a: int, text: Seq<u8>)
    requires
        0 <= a,
        a + text.len() + 2 <= b.len(),
        b.subrange(a, a + text.len() + 2) == text + crlf(),
        no_crlf(text),
    ensures
        find_crlf(b, a) == Some(a + text.len()),
        b.subrange(a, a + text.len()) == text,
{
    let j = a + text.len();
    let full = b.subrange(a, j + 2);
    assert forall|m: int| a <= m < j + 2 implies b[m] == (text + crlf())[m - a] by {
        assert(full[m - a] == b[m]);
    }
    assert(b.subrange(a, j) =~= text);
    assert(b[j] == 13 && b[j + 1] == 10);
    assert forall|m: int| a <= m < j implies !crlf_at(b, m) by {
        let q = m - a;
        if m + 1 < j {
            assert(b[m] == text[q]);
            assert(b[m + 1] == text[q + 1]);
        } else {
            assert(b[m + 1] == 13);
        }
    }
    lemma_find_crlf_first(b, a, j);
}

/// The header line of a rendering `[tag] + t + CRLF + rest` at `i`.
proof fn lemma_header(b: Seq<u8>, i: int, tag: u8, t: Seq<u8>, rest: Seq<u8>)
    requires
        0 <= i,
        i + t.len() + 3 + rest.len() <= b.len(),
        b.subrange(i, i + t.len() + 3 + rest.len()) == seq![tag] + t + crlf() + rest,
        no_crlf(t),
    ensures
        b[i] == tag,
        find_crlf(b, i + 1) == Some(i + 1 + t.len()),
        b.subrange(i + 1, i + 1 + t.len()) == t,
        b.subrange(i + 3 + t.len(), i + 3 + t.len() + rest.len()) == rest,
{
    let r = seq![tag] + t + crlf() + rest;
    let n = t.len() as int;
    assert forall|m: int| i <= m < i + n + 3 + rest.len() implies b[m] == r[m - i] by {
        assert(b.subrange(i, i + n + 3 + rest.len())[m - i] == b[m]);
    }
    assert(b.subrange(i + 1, i + 1 + n + 2) =~= t + crlf());
    lemma_line(b, i + 1, t);
    assert(b.subrange(i + 3 + n, i + 3 + n + rest.len()) =~= rest);
}

pub proof fn lemma_digits_line(t: Seq<u8>)
    requires
        all_digits(t),
    ensures
        no_crlf(t),
        t.len() == 0 || t.last() != 13,
{
    if t.len() > 0 {
        assert(is_digit(t[t.len() - 1]));
    }
    assert forall|m: int| 0 <= m < t.len() - 1 implies !(t[m] == 13 && #[trigger] t[m + 1] == 10) by {
        assert(is_digit(t[m]));
    }
}

pub proof fn lemma_int_line(n: int)
    ensures
        no_crlf(int_text(n)),
        int_text(n).len() == 0 || int_text(n).last() != 13,
{
    lemma_nat_text(if n < 0 { -n } else { n } as nat);
    let t = int_text(n);
    if n < 0 {
        let d = nat_text((-n) as nat);
        lemma_digits_line(d);
        assert forall|m: int| 0 <= m < t.len() - 1 implies !(t[m] == 13 && #[trigger] t[m + 1] == 10) by {
            assert(t[m + 1] == d[m]);
            assert(is_digit(d[m]));
        }
        assert(t.last() == d.last());
    } else {
        lemma_digits_line(t);
    }
}

proof fn lemma_text_line(s: Seq<char>)
    requires
        no_crlf(encode_utf8(s)),
    ensures
        lossy_decode(encode_utf8(s)) == s,
{
    encode_utf8_valid_utf8(s);
    encode_utf8_decode_utf8(s);
}

pub proof fn lemma_render_all_append(xs: Seq<Wire>, ys: Seq<Wire>)
    ensures
        render_all(xs + ys) == render_all(xs) + render_all(ys),
    decreases ys.len(),
{
    if ys.len() == 0 {
        assert(xs + ys =~= xs);
        assert(render_all(xs) + render_all(ys) =~= render_all(xs));
    } else {
        lemma_render_all_append(xs, ys.drop_last());
        assert((xs + ys).drop_last() =~= xs + ys.drop_last());
        assert(render_all(xs) + render_all(ys) =~= render_all(xs) + render_all(ys.drop_last()) + render(
            ys.last(),
        ));
    }
}

/// A rendered message parses back where it stands in a larger buffer.
#[verifier::rlimit(100)]
proof fn lemma_parse_render_at(b: Seq<u8>, i: int, w: Wire)
    requires
        renderable(w),
        0 <= i,
        i + render(w).len() <= b.len(),
        b.subrange(i, i + render(w).len()) == render(w),
    ensures
        parse_at(b, i) == Some((w, i + render(w).len())),
    decreases w,
{
    let e: Seq<u8> = Seq::empty();
    match w {
        Wire::Simple(s) => {
            let t = encode_utf8(s);
            assert(render(w) =~= seq![43u8] + t + crlf() + e);
            lemma_header(b, i, 43, t, e);
            lemma_text_line(s);
        },
        Wire::Error(s) => {
            let t = encode_utf8(s);
            assert(render(w) =~= seq![45u8] + t + crlf() + e);
            lemma_header(b, i, 45, t, e);
            lemma_text_line(s);
        },
        Wire::Integer(v) => {
            let t = int_text(v as int);
            assert(render(w) =~= seq![58u8] + t + crlf() + e);
            lemma_int_line(v as int);
            lemma_header(b, i, 58, t, e);
            lemma_i64_text(v);
        },
        Wire::Bulk(None) => {
            let t = int_text(-1);
            assert(nat_text(1) =~= seq![49u8]);
            assert(t =~= seq![45u8, 49u8]);
            assert(render(w) =~= seq![36u8] + t + crlf() + e);
            lemma_int_line(-1);
            lemma_header(b, i, 36, t, e);
            lemma_int_text_value(-1);
        },
        Wire::Bulk(Some(p)) => {
            let t = nat_text(p.len());
            assert(t == int_text(p.len() as int));
            let rest = p + crlf();
            assert(render(w) =~= seq![36u8] + t + crlf() + rest);
            lemma_int_line(p.len() as int);
            lemma_header(b, i, 36, t, rest);
            lemma_int_text_value(p.len() as int);
            let j = i + 1 + t.len();
            let k = j + 2 + p.len();
            assert(b.subrange(j + 2, k) =~= rest.subrange(0, p.len() as int));
            assert(b.subrange(j + 2, k) =~= p);
            assert(b[k] == rest[p.len() as int]);
            assert(b[k + 1] == rest[p.len() as int + 1]);
        },
        Wire::Array(xs) => {
            let t = nat_text(xs.len());
            assert(t == int_text(xs.len() as int));
            let rest = render_all(xs);
            assert(render(w) =~= seq![42u8] + t + crlf() + rest);
            lemma_int_line(xs.len() as int);
            lemma_header(b, i, 42, t, rest);
            lemma_int_text_value(xs.len() as int);
            lemma_parse_items_render(b, i + 3 + t.len(), xs);
        },
    }
}

/// Rendered messages one after the other parse back as the same sequence.
proof fn lemma_parse_items_render(b: Seq<u8>, i: int, xs: Seq<Wire>)
    requires
        forall|t: int| 0 <= t < xs.len() ==> renderable(#[trigger] xs[t]),
        0 <= i,
        i + render_all(xs).len() <= b.len(),
        b.subrange(i, i + render_all(xs).len()) == render_all(xs),
    ensures
        parse_items(b, i, xs.len() as int) == Some((xs, i + render_all(xs).len())),
    decreases xs,
{
    if xs.len() == 0 {
        assert(xs =~= Seq::<Wire>::empty());
    } else {
        let x = xs[0];
        let ys = xs.drop_first();
        assert(xs =~= seq![x] + ys);
        lemma_render_all_append(seq![x], ys);
        assert(seq![x].drop_last() =~= Seq::<Wire>::empty());
        assert(render_all(Seq::<Wire>::empty()) == Seq::<u8>::empty());
        assert(seq![x].last() == x);
        assert(render_all(seq![x]) =~= render(x));
        let n = render(x).len();
        let all = render_all(xs);
        assert(b.subrange(i, i + n) =~= render(x)) by {
            assert(b.subrange(i, i + n) =~= b.subrange(i, i + all.len()).subrange(0, n as int));
        }
        lemma_parse_render_at(b, i, x);
        lemma_render_nonempty(x);
        assert(b.subrange(i + n, i + n + render_all(ys).len()) =~= render_all(ys)) by {
            assert(b.subrange(i + n, i + n + render_all(ys).len()) =~= b.subrange(i, i + all.len()).subrange(n as int, all.len() as int));
        }
        assert forall|t: int| 0 <= t < ys.len() implies renderable(#[trigger] ys[t]) by {
            assert(ys[t] == xs[t + 1]);
        }
        lemma_parse_items_render(b, i + n, ys);
        assert(seq![x] + ys =~= xs);
    }
}

proof fn lemma_render_nonempty(w: Wire)
    ensures
        render(w).len() > 0,
{
}

/// Rendering then parsing gives the message back, with the number of bytes
/// that its rendering takes.
pub proof fn lemma_codec_round_trip(w: Wire)
    requires
        renderable(w),
    ensures
        parse(render(w)) == Some((w, render(w).len() as int)),
{
    let r = render(w);
    assert(r.subrange(0, r.len() as int) =~= r);
    lemma_parse_render_at(r, 0, w);
}

pub(crate) fn find_crlf_exec(b: &[u8], i: usize) -> (r: Option<usize>)
    ensures
        match r {
            Some(j) => find_crlf(b@, i as int) == Some(j as int) && i <= j && crlf_at(b@, j as int),
            None => find_crlf(b@, i as int) is None,
        },
{
    let mut j: usize = i;
    while j < b.len() && b.len() - j > 1
        invariant
            i <= j,
            find_crlf(b@, i as int) == find_crlf(b@, j as int),
        decreases b@.len() - j,
    {
        if b[j] == 13 && b[j + 1] == 10 {
            proof {
                lemma_find_crlf(b@, i as int);
            }
            return Some(j);
        }
        j = j + 1;
    }
    None
}

fn parse_message_at(b: &[u8], i: usize) -> (r: Result<(RESPResult, usize), String>)
    ensures
        match r {
            Ok((v, e)) => parse_at(b@, i as int) == Some((v@, e as int)),
            Err(_) => parse_at(b@, i as int) is None,
        },
    decreases b@.len() - i, 0int,
{
    if i >= b.len() {
        return Err("Invalid or empty message".to_string());
    }
    let tag = b[i];
    if tag != 43 && tag != 45 && tag != 58 && tag != 36 && tag != 42 {
        return Err("Invalid or empty message".to_string());
    }
    let j = match find_crlf_exec(b, i + 1) {
        Some(j) => j,
        None => return Err("Missing CRLF".to_string()),
    };
    let ghost line = b@.subrange(i + 1, j as int);
    if tag == 43 {
        let s = lossy_text(&b[i + 1..j]);
        Ok((RESPResult::SimpleString(s), j + 2))
    } else if tag == 45 {
        let s = lossy_text(&b[i + 1..j]);
        Ok((RESPResult::Error(s), j + 2))
    } else if tag == 58 {
        let v = match parse_i64(b, i + 1, j) {
            Some(v) => v,
            None => 0,
        };
        Ok((RESPResult::Integer(v), j + 2))
    } else if tag == 36 {
        let n = match parse_i64(b, i + 1, j) {
            Some(n) => n,
            None => return Err("Invalid bulk string length".to_string()),
        };
        if n == -1 {
            return Ok((RESPResult::BulkString(None), j + 2));
        }
        if n < 0 {
            return Err("Invalid bulk string length".to_string());
        }
        let start = j + 2;
        if (n as u64) > (b.len() - start) as u64 || b.len() - start - (n as usize) < 2 {
            return Err("Missing CRLF".to_string());
        }
        let end = start + n as usize;
        if b[end] != 13 || b[end + 1] != 10 {
            return Err("Missing CRLF".to_string());
        }
        let payload = copy_range(b, start, end);
        Ok((RESPResult::BulkString(Some(payload)), end + 2))
    } else {
        let k = match parse_i64(b, i + 1, j) {
            Some(k) => k,
            None => return Err("Invalid array length".to_string()),
        };
        match parse_items_at(b, j + 2, k) {
            Ok((xs, e)) => {
                let ghost w = Wire::Array(wires_of(xs@));
                assert(RESPResult::Array(xs)@ == w);
                Ok((RESPResult::Array(xs), e))
            },
            Err(m) => Err(m),
        }
    }
}

fn parse_items_at(b: &[u8], i: usize, k: i64) -> (r: Result<(Vec<RESPResult>, usize), String>)
    requires
        i <= b@.len(),
    ensures
        match r {
            Ok((xs, e)) => parse_items(b@, i as int, k as int) == Some((wires_of(xs@), e as int)),
            Err(_) => parse_items(b@, i as int, k as int) is None,
        },
    decreases b@.len() - i, 1int,
{
    let mut xs: Vec<RESPResult> = Vec::new();
    let mut pos: usize = i;
    let mut left: i64 = k;
    while left > 0
        invariant
            i <= pos <= b@.len(),
            left <= k,
            parse_items(b@, i as int, k as int) == match parse_items(b@, pos as int, left as int) {
                Some((ys, f)) => Some((wires_of(xs@) + ys, f)),
                None => None,
            },
        decreases left,
    {
        let (x, e) = match parse_message_at(b, pos) {
            Ok(p) => p,
            Err(m) => return Err(m),
        };
        if e <= pos || e > b.len() {
            return Err("Invalid message length".to_string());
        }
        let ghost old_xs = xs@;
        xs.push(x);
        proof {
            assert(xs@.drop_last() =~= old_xs);
            match parse_items(b@, e as int, left - 1) {
                Some((ys, f)) => {
                    assert(wires_of(old_xs) + (seq![x@] + ys) =~= wires_of(xs@) + ys);
                },
                None => {},
            }
        }
        pos = e;
        left = left - 1;
    }
    assert(wires_of(xs@) + Seq::<Wire>::empty() =~= wires_of(xs@));
    Ok((xs, pos))
}

/// Parses the message at the front of `message`, giving it with the number of
/// bytes it takes.
pub fn parse_resp_message(message: &[u8]) -> (r: Result<(RESPResult, usize), String>)
    ensures
        match r {
            Ok((v, n)) => parse(message@) == Some((v@, n as int)),
            Err(_) => parse(message@) is None,
        },
{
    parse_message_at(message, 0)
}

pub(crate) fn push_crlf(out: &mut Vec<u8>)
    ensures
        final(out)@ == old(out)@ + crlf(),
{
    out.push(13);
    out.push(10);
    assert(final(out)@ =~= old(out)@ + crlf());
}

fn render_into(out: &mut Vec<u8>, m: &RESPResult)
    ensures
        final(out)@ == old(out)@ + render(m@),
    decreases m,
{
    match m {
        RESPResult::SimpleString(s) => {
            out.push(43);
            append_bytes(out, s.as_str().as_bytes());
            push_crlf(out);
            assert(final(out)@ =~= old(out)@ + render(m@));
        },
        RESPResult::Error(s) => {
            out.push(45);
            append_bytes(out, s.as_str().as_bytes());
            push_crlf(out);
            assert(final(out)@ =~= old(out)@ + render(m@));
        },
        RESPResult::Integer(i) => {
            out.push(58);
            push_i64_text(out, *i);
            push_crlf(out);
            assert(final(out)@ =~= old(out)@ + render(m@));
        },
        RESPResult::BulkString(None) => {
            out.push(36);
            out.push(45);
            out.push(49);
            push_crlf(out);
            assert(final(out)@ =~= old(out)@ + render(m@));
        },
        RESPResult::BulkString(Some(p)) => {
            out.push(36);
            push_u128_text(out, p.len() as u128);
            push_crlf(out);
            append_bytes(out, p.as_slice());
            push_crlf(out);
            assert(final(out)@ =~= old(out)@ + render(m@));
        },
        RESPResult::Array(xs) => {
            out.push(42);
            push_u128_text(out, xs.len() as u128);
            push_crlf(out);
            let ghost head = out@;
            proof {
                lemma_wires_of(xs@);
            }
            let mut i: usize = 0;
            while i < xs.len()
                invariant
                    *m == RESPResult::Array(*xs),
                    i <= xs@.len(),
                    wires_of(xs@).len() == xs@.len(),
                    forall|t: int| 0 <= t < xs@.len() ==> #[trigger] wires_of(xs@)[t] == wire_of(xs@[t]),
                    out@ == head + render_all(wires_of(xs@).subrange(0, i as int)),
                decreases xs@.len() - i,
            {
                proof {
                    vstd::std_specs::vec::axiom_vec_index_decreases(*xs, i as int);
                    assert(decreases_to!(*m => (*m)->Array_0));
                    assert(decreases_to!(*m => xs@[i as int]));
                }
                render_into(out, &xs[i]);
                proof {
                    let ws = wires_of(xs@);
                    assert(ws.subrange(0, i + 1).drop_last() =~= ws.subrange(0, i as int));
                }
                i = i + 1;
            }
            assert(wires_of(xs@).subrange(0, i as int) =~= wires_of(xs@));
            assert(final(out)@ =~= old(out)@ + render(m@));
        },
    }
}

/// The bytes of a reply.
pub fn respresult_to_resp_string(respmessage: &RESPResult) -> (r: Vec<u8>)
    ensures
        r@ == render(respmessage@),
{
    let mut out: Vec<u8> = Vec::new();
    render_into(&mut out, respmessage);
    assert(out@ =~= render(respmessage@));
    out
}

/// The words that shell-style splitting makes of a line, or none when a quote
/// is left open.
pub uninterp spec fn shell_split(s: Seq<char>) -> Option<Seq<Seq<char>>>;

/// Relies on `shell_words::split`: the words depend on the line alone, and its
/// only error is a quote left open.
#[verifier::external_body]
fn split_words(s: &str) -> (r: Result<Vec<String>, String>)
    ensures
        r is Ok <==> shell_split(s@) is Some,
        r matches Ok(v) ==> key_views(v@) == shell_split(s@)->Some_0,
        r matches Err(e) ==> e@ == "missing closing quote"@,
{
    match shell_words::split(s) {
        Ok(v) => Ok(v),
        Err(e) => Err(e.to_string()),
    }
}

/// The line without the carriage returns at its end.
pub open spec fn trim_cr(s: Seq<char>) -> Seq<char>
    decreases s.len(),
{
    if s.len() > 0 && s.last() == '\r' {
        trim_cr(s.drop_last())
    } else {
        s
    }
}

fn trim_cr_exec(s: &str) -> (r: &str)
    ensures
        r@ == trim_cr(s@),
{
    let mut n: usize = s.unicode_len();
    assert(s@.subrange(0, n as int) =~= s@);
    while n > 0 && s.get_char(n - 1) == '\r'
        invariant
            n <= s@.len(),
            trim_cr(s@) == trim_cr(s@.subrange(0, n as int)),
        decreases n,
    {
        assert(s@.subrange(0, n as int).drop_last() =~= s@.subrange(0, n - 1));
        n = n - 1;
    }
    s.substring_char(0, n)
}

/// The request message of a command line: an array of the line's words, each as
/// a bulk string.
pub open spec fn line_message(s: Seq<char>) -> Result<Seq<u8>, Seq<char>> {
    match shell_split(trim_cr(s)) {
        None => Err("missing closing quote"@),
        Some(ws) => if ws.len() == 0 {
            Err("No command"@)
        } else {
            Ok(render(Wire::Array(bulk_words(ws))))
        },
    }
}

/// Splits a command line into words, shell-style, and frames them as a request.
pub fn string_to_resp_message(message: &str) -> (r: Result<Vec<u8>, String>)
    ensures
        match line_message(message@) {
            Ok(b) => r matches Ok(v) && v@ == b,
            Err(m) => r matches Err(e) && e@ == m,
        },
{
    let line = trim_cr_exec(message);
    let words = match split_words(line) {
        Ok(w) => w,
        Err(e) => return Err(e),
    };
    if words.len() == 0 {
        return Err("No command".to_string());
    }
    let ghost ws = key_views(words@);
    let mut parts: Vec<RESPResult> = Vec::new();
    let mut i: usize = 0;
    while i < words.len()
        invariant
            i <= words@.len(),
            ws == key_views(words@),
            wires_of(parts@) == bulk_words(ws).subrange(0, i as int),
        decreases words@.len() - i,
    {
        let a = bulk_of(&words[i]);
        let ghost before = parts@;
        parts.push(a);
        proof {
            assert(parts@.drop_last() =~= before);
            assert(bulk_words(ws).subrange(0, i + 1) =~= bulk_words(ws).subrange(0, i as int).push(a@));
        }
        i = i + 1;
    }
    assert(bulk_words(ws).subrange(0, i as int) =~= bulk_words(ws));
    Ok(respresult_to_resp_string(&RESPResult::Array(parts)))
}

/// How a reply reads to a person: strings as they are, an error after
/// `(error) `, a missing bulk string as `(nil)`, and the items of an array
/// numbered from 1, one per line.
pub open spec fn display_text(w: Wire) -> Seq<char>
    decreases w,
{
    match w {
        Wire::Simple(s) => s,
        Wire::Error(e) => "(error) "@ + e,
        Wire::Integer(i) => int_chars(i as int),
        Wire::Bulk(Some(b)) => lossy_decode(b),
        Wire::Bulk(None) => "(nil)"@,
        Wire::Array(xs) => display_items(xs),
    }
}

/// The numbered lines of the items of an array.
pub open spec fn display_items(xs: Seq<Wire>) -> Seq<char>
    decreases xs,
{
    if xs.len() == 0 {
        Seq::empty()
    } else {
        display_items(xs.drop_last()) + (if xs.len() > 1 {
            "\n"@
        } else {
            Seq::empty()
        }) + int_chars(xs.len() as int) + ") "@ + display_text(xs.last())
    }
}

/// The text of a reply as a person reads it.
pub fn resp_message_to_string(respmessage: &RESPResult) -> (r: String)
    ensures
        r@ == display_text(respmessage@),
    decreases respmessage,
{
    match respmessage {
        RESPResult::SimpleString(s) => s.clone(),
        RESPResult::Error(e) => {
            let mut out = "(error) ".to_string();
            out.append(e.as_str());
            out
        },
        RESPResult::Integer(i) => i64_string(*i),
        RESPResult::BulkString(Some(b)) => lossy_text(b.as_slice()),
        RESPResult::BulkString(None) => "(nil)".to_string(),
        RESPResult::Array(xs) => {
            proof {
                lemma_wires_of(xs@);
            }
            let mut out = String::new();
            let mut i: usize = 0;
            while i < xs.len()
                invariant
                    *respmessage == RESPResult::Array(*xs),
                    i <= xs@.len(),
                    wires_of(xs@).len() == xs@.len(),
                    forall|t: int| 0 <= t < xs@.len() ==> #[trigger] wires_of(xs@)[t] == wire_of(xs@[t]),
                    out@ == display_items(wires_of(xs@).subrange(0, i as int)),
                decreases xs@.len() - i,
            {
                proof {
                    vstd::std_specs::vec::axiom_vec_index_decreases(*xs, i as int);
                    assert(decreases_to!(*respmessage => (*respmessage)->Array_0));
                }
                let item = resp_message_to_string(&xs[i]);
                if i > 0 {
                    out.append("\n");
                }
                let n = usize_string(i + 1);
                out.append(n.as_str());
                out.append(") ");
                out.append(item.as_str());
                proof {
                    let ws = wires_of(xs@);
                    assert(ws.subrange(0, i + 1).drop_last() =~= ws.subrange(0, i as int));
                    assert(ws.subrange(0, i + 1).last() == ws[i as int]);
                    if i == 0 {
                        assert(display_items(ws.subrange(0, 0)) == Seq::<char>::empty());
                    }
                }
                i = i + 1;
                assert(out@ =~= display_items(wires_of(xs@).subrange(0, i as int)));
            }
            assert(wires_of(xs@).subrange(0, i as int) =~= wires_of(xs@));
            out
        },
    }
}

} // verus!
