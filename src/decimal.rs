//! Decimal text of integers, as bytes: the grammar that std's `parse` accepts
//! for integer types, and the text that `to_string` gives.
use vstd::prelude::*;
use vstd::utf8::{
    decode_utf8, encode_utf8, encode_utf8_decode_utf8, encode_utf8_valid_utf8, is_ascii_chars,
    is_ascii_chars_encode_utf8, valid_utf8,
};
use crate::text::utf8_text;

verus! {

pub open spec fn is_digit(b: u8) -> bool {
    48 <= b <= 57
}

pub open spec fn all_digits(s: Seq<u8>) -> bool {
    forall|i: int| 0 <= i < s.len() ==> is_digit(#[trigger] s[i])
}

/// The number that a sequence of decimal digits denotes.
pub open spec fn digits_value(s: Seq<u8>) -> nat
    decreases s.len(),
{
    if s.len() == 0 {
        0
    } else {
        digits_value(s.drop_last()) * 10 + (s.last() - 48) as nat
    }
}

/// The number written by an unsigned decimal: an optional `+`, then one or
/// more digits.
pub open spec fn unsigned_text_value(s: Seq<u8>) -> Option<nat> {
    let d = if s.len() > 0 && s[0] == 43 { s.drop_first() } else { s };
    if d.len() > 0 && all_digits(d) {
        Some(digits_value(d))
    } else {
        None
    }
}

/// The number written by a signed decimal: an optional `+` or `-`, then one or
/// more digits.
pub open spec fn signed_text_value(s: Seq<u8>) -> Option<int> {
    if s.len() > 0 && s[0] == 45 {
        let d = s.drop_first();
        if d.len() > 0 && all_digits(d) {
            Some(-digits_value(d))
        } else {
            None
        }
    } else {
        match unsigned_text_value(s) {
            Some(v) => Some(v as int),
            None => None,
        }
    }
}

/// What `str::parse::<i64>` gives on this text.
pub open spec fn i64_of_text(s: Seq<u8>) -> Option<i64> {
    match signed_text_value(s) {
        Some(v) => if i64::MIN <= v <= i64::MAX {
            Some(v as i64)
        } else {
            None
        },
        None => None,
    }
}

/// What `str::parse::<u64>` gives on this text.
pub open spec fn u64_of_text(s: Seq<u8>) -> Option<u64> {
    match unsigned_text_value(s) {
        Some(v) => if v <= u64::MAX {
            Some(v as u64)
        } else {
            None
        },
        None => None,
    }
}

/// The decimal digits of a natural number, without leading zeros.
pub open spec fn nat_text(n: nat) -> Seq<u8>
    decreases n,
{
    if n < 10 {
        seq![(48 + n) as u8]
    } else {
        nat_text(n / 10).push((48 + n % 10) as u8)
    }
}

/// The decimal text of an integer, with a `-` before a negative one.
pub open spec fn int_text(n: int) -> Seq<u8> {
    if n < 0 {
        seq![45u8] + nat_text((-n) as nat)
    } else {
        nat_text(n as nat)
    }
}

pub proof fn lemma_digits_value_prefix(s: Seq<u8>, k: int)
    requires
        all_digits(s),
        0 <= k <= s.len(),
    ensures
        digits_value(s.subrange(0, k)) <= digits_value(s),
    decreases s.len(),
{
    if k < s.len() {
        let t = s.drop_last();
        assert(t.subrange(0, k) =~= s.subrange(0, k));
        lemma_digits_value_prefix(t, k);
    } else {
        assert(s.subrange(0, k) =~= s);
    }
}

pub proof fn lemma_nat_text(n: nat)
    ensures
        nat_text(n).len() > 0,
        all_digits(nat_text(n)),
        digits_value(nat_text(n)) == n,
    decreases n,
{
    if n >= 10 {
        lemma_nat_text(n / 10);
        let t = nat_text(n);
        assert(t.drop_last() =~= nat_text(n / 10));
        assert(t.last() - 48 == n % 10);
        assert(n == (n / 10) * 10 + n % 10);
        assert(digits_value(t) == digits_value(t.drop_last()) * 10 + (t.last() - 48) as nat);
        assert(digits_value(t) == n);
    } else {
        let t = nat_text(n);
        assert(t.drop_last() =~= Seq::<u8>::empty());
        assert(digits_value(t.drop_last()) == 0);
        assert(t.last() == (48 + n) as u8);
    }
}

/// Reading back the text of an integer gives the integer.
pub proof fn lemma_int_text_value(n: int)
    ensures
        signed_text_value(int_text(n)) == Some(n),
        int_text(n).len() > 0,
{
    if n < 0 {
        lemma_nat_text((-n) as nat);
        assert(int_text(n).drop_first() =~= nat_text((-n) as nat));
    } else {
        lemma_nat_text(n as nat);
        assert(is_digit(nat_text(n as nat)[0]));
    }
}

pub proof fn lemma_i64_text(n: i64)
    ensures
        i64_of_text(int_text(n as int)) == Some(n),
{
    lemma_int_text_value(n as int);
}

/// The value of the digits in `b[start..end]`, when they are all digits and the
/// value is at most `limit`.
fn parse_digits(b: &[u8], start: usize, end: usize, limit: u128) -> (r: Option<u128>)
    requires
        start <= end <= b@.len(),
    ensures
        r == (if end > start && all_digits(b@.subrange(start as int, end as int)) && digits_value(
            b@.subrange(start as int, end as int),
        ) <= limit {
            Some(digits_value(b@.subrange(start as int, end as int)) as u128)
        } else {
            None
        }),
{
    let ghost s = b@.subrange(start as int, end as int);
    if end == start {
        return None;
    }
    let mut acc: u128 = 0;
    let mut i: usize = start;
    while i < end
        invariant
            start <= i <= end <= b@.len(),
            s == b@.subrange(start as int, end as int),
            all_digits(s.subrange(0, i - start)),
            acc == digits_value(s.subrange(0, i - start)),
            acc <= limit,
        decreases end - i,
    {
        let c = b[i];
        if c < 48 || c > 57 {
            assert(!is_digit(s[i - start]));
            return None;
        }
        let ghost p = s.subrange(0, i - start);
        let ghost q = s.subrange(0, i - start + 1);
        assert(q.drop_last() =~= p);
        i = i + 1;
        let next = match acc.checked_mul(10) {
            Some(m) => m.checked_add((c - 48) as u128),
            None => None,
        };
        match next {
            Some(n) if n <= limit => {
                acc = n;
            },
            _ => {
                proof {
                    if all_digits(s) {
                        lemma_digits_value_prefix(s, i - start);
                    }
                }
                return None;
            },
        }
    }
    assert(s.subrange(0, i - start) =~= s);
    Some(acc)
}

/// `str::parse::<i64>` on the text in `b[start..end]`.
pub fn parse_i64(b: &[u8], start: usize, end: usize) -> (r: Option<i64>)
    requires
        start <= end <= b@.len(),
    ensures
        r == i64_of_text(b@.subrange(start as int, end as int)),
{
    let ghost s = b@.subrange(start as int, end as int);
    if start < end && b[start] == 45 {
        assert(s.drop_first() =~= b@.subrange(start + 1, end as int));
        match parse_digits(b, start + 1, end, 0x8000_0000_0000_0000) {
            Some(m) => {
                if m == 0x8000_0000_0000_0000 {
                    Some(i64::MIN)
                } else {
                    Some(-(m as i64))
                }
            },
            None => None,
        }
    } else {
        let first: usize = if start < end && b[start] == 43 {
            start + 1
        } else {
            start
        };
        assert(b@.subrange(first as int, end as int) =~= (if s.len() > 0 && s[0] == 43 {
            s.drop_first()
        } else {
            s
        }));
        match parse_digits(b, first, end, 0x7fff_ffff_ffff_ffff) {
            Some(m) => Some(m as i64),
            None => None,
        }
    }
}

/// `str::parse::<u64>` on the text in `b[start..end]`.
pub fn parse_u64(b: &[u8], start: usize, end: usize) -> (r: Option<u64>)
    requires
        start <= end <= b@.len(),
    ensures
        r == u64_of_text(b@.subrange(start as int, end as int)),
{
    let ghost s = b@.subrange(start as int, end as int);
    let first: usize = if start < end && b[start] == 43 {
        start + 1
    } else {
        start
    };
    assert(b@.subrange(first as int, end as int) =~= (if s.len() > 0 && s[0] == 43 {
        s.drop_first()
    } else {
        s
    }));
    match parse_digits(b, first, end, u64::MAX as u128) {
        Some(m) => Some(m as u64),
        None => None,
    }
}

/// What `str::parse::<u128>` gives on this text.
pub open spec fn u128_of_text(s: Seq<u8>) -> Option<u128> {
    match unsigned_text_value(s) {
        Some(v) => if v <= u128::MAX {
            Some(v as u128)
        } else {
            None
        },
        None => None,
    }
}

/// `str::parse::<u128>` on the text in `b[start..end]`.
pub fn parse_u128(b: &[u8], start: usize, end: usize) -> (r: Option<u128>)
    requires
        start <= end <= b@.len(),
    ensures
        r == u128_of_text(b@.subrange(start as int, end as int)),
{
    let ghost s = b@.subrange(start as int, end as int);
    let first: usize = if start < end && b[start] == 43 {
        start + 1
    } else {
        start
    };
    assert(b@.subrange(first as int, end as int) =~= (if s.len() > 0 && s[0] == 43 {
        s.drop_first()
    } else {
        s
    }));
    parse_digits(b, first, end, u128::MAX)
}

/// Appends the decimal digits of `n`.
pub fn push_u128_text(out: &mut Vec<u8>, n: u128)
    ensures
        final(out)@ == old(out)@ + nat_text(n as nat),
    decreases n,
{
    if n >= 10 {
        push_u128_text(out, n / 10);
    }
    out.push((48 + n % 10) as u8);
    proof {
        if n >= 10 {
            assert(nat_text(n as nat) == nat_text((n / 10) as nat).push((48 + n % 10) as u8));
        }
    }
    assert(final(out)@ =~= old(out)@ + nat_text(n as nat));
}

/// Appends the decimal text of `n`, with a `-` before a negative one.
pub fn push_i64_text(out: &mut Vec<u8>, n: i64)
    ensures
        final(out)@ == old(out)@ + int_text(n as int),
{
    if n < 0 {
        out.push(45);
        let m: u64 = if n == i64::MIN {
            0x8000_0000_0000_0000
        } else {
            (-n) as u64
        };
        push_u128_text(out, m as u128);
        assert(final(out)@ =~= old(out)@ + int_text(n as int));
    } else {
        push_u128_text(out, n as u128);
    }
}

/// The decimal text of an integer, as characters.
pub open spec fn int_chars(n: int) -> Seq<char> {
    Seq::new(int_text(n).len(), |i: int| int_text(n)[i] as char)
}

proof fn lemma_int_text_ascii(n: int)
    ensures
        forall|i: int| 0 <= i < int_text(n).len() ==> #[trigger] int_text(n)[i] < 128,
{
    lemma_nat_text(if n < 0 { -n } else { n } as nat);
    assert forall|i: int| 0 <= i < int_text(n).len() implies #[trigger] int_text(n)[i] < 128 by {
        if n < 0 {
            if i > 0 {
                assert(int_text(n)[i] == nat_text((-n) as nat)[i - 1]);
                assert(is_digit(nat_text((-n) as nat)[i - 1]));
            }
        } else {
            assert(is_digit(nat_text(n as nat)[i]));
        }
    }
}

/// The text of an integer is valid UTF-8 that decodes to its characters.
pub proof fn lemma_int_chars(n: int)
    ensures
        encode_utf8(int_chars(n)) == int_text(n),
        valid_utf8(int_text(n)),
        decode_utf8(int_text(n)) == int_chars(n),
{
    let c = int_chars(n);
    let t = int_text(n);
    lemma_int_text_ascii(n);
    assert(is_ascii_chars(c)) by {
        assert forall|i: int| 0 <= i < c.len() implies '\0' <= #[trigger] c[i] <= '\u{7f}' by {
            assert(t[i] < 128);
            assert(c[i] == t[i] as char);
        }
    }
    is_ascii_chars_encode_utf8(c);
    assert forall|i: int| 0 <= i < t.len() implies encode_utf8(c)[i] == t[i] by {
        assert(c[i] as u8 == encode_utf8(c)[i]);
        assert(t[i] < 128);
        assert(c[i] == t[i] as char);
        assert((t[i] as char) as u8 == t[i]);
    }
    assert(encode_utf8(c) =~= t);
    encode_utf8_valid_utf8(c);
    encode_utf8_decode_utf8(c);
}

/// The decimal text of `n`, as a string.
pub fn i64_string(n: i64) -> (r: String)
    ensures
        r@ == int_chars(n as int),
{
    let mut b: Vec<u8> = Vec::new();
    push_i64_text(&mut b, n);
    proof {
        assert(b@ =~= int_text(n as int));
        lemma_int_chars(n as int);
    }
    match utf8_text(b.as_slice()) {
        Some(s) => s,
        None => String::new(),
    }
}

/// The decimal text of `n`, as a string.
pub fn usize_string(n: usize) -> (r: String)
    ensures
        r@ == int_chars(n as int),
{
    let mut b: Vec<u8> = Vec::new();
    push_u128_text(&mut b, n as u128);
    proof {
        assert(b@ =~= int_text(n as int));
        lemma_int_chars(n as int);
    }
    match utf8_text(b.as_slice()) {
        Some(s) => s,
        None => String::new(),
    }
}

} // verus!
