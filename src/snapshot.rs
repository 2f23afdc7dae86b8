//! The snapshot file: a line-oriented text that holds every key with its
//! expiration time and value.
use vstd::prelude::*;
use vstd::utf8::{decode_utf8, encode_utf8, encode_utf8_decode_utf8, encode_utf8_valid_utf8, valid_utf8};
use crate::db::{expirations_of, has_key, keys_unique, keyspace_of, lemma_push_entry, Db, Entry};
use crate::decimal::{
    all_digits, i64_of_text, int_text, is_digit, lemma_i64_text, lemma_nat_text, nat_text, parse_i64,
    parse_u128, parse_u64, push_i64_text, push_u128_text, u128_of_text, u64_of_text,
};
use crate::parser::{
    crlf, crlf_at, find_crlf, find_crlf_exec, push_crlf, lemma_digits_line, lemma_find_crlf, lemma_int_line, lemma_line,
    no_crlf,
};
use crate::text::{append_bytes, utf8_text};
use crate::types::{lemma_values_of, value_of, values_of, Value, DB_TYPE};

verus! {

/// The text of a UTC time, given in milliseconds since the Unix epoch.
pub uninterp spec fn utc_text_of(ms: int) -> Seq<char>;

/// Relies on chrono's `DateTime::<Utc>::from_timestamp_millis` and its
/// `Display`: the text depends on the time alone; there is none outside the
/// range that chrono represents, which runs past year 262000 (8e15 ms).
#[verifier::external_body]
fn utc_text(ms: i64) -> (r: Option<String>)
    ensures
        r matches Some(s) ==> s@ == utc_text_of(ms as int),
        0 <= ms <= 8_000_000_000_000_000 ==> r is Some,
{
    match chrono::DateTime::from_timestamp_millis(ms) {
        Some(d) => Some(d.to_string()),
        None => None,
    }
}

pub open spec fn dashes() -> Seq<u8> {
    Seq::new(56, |i: int| 45u8)
}

pub open spec fn redis_word() -> Seq<u8> {
    seq![82u8, 69, 68, 73, 83]
}

pub open spec fn version_word() -> Seq<u8> {
    seq![48u8, 48, 48, 49]
}

pub open spec fn keys_values_word() -> Seq<u8> {
    seq![75u8, 69, 89, 83, 45, 86, 65, 76, 85, 69, 83]
}

pub open spec fn eof_word() -> Seq<u8> {
    seq![69u8, 79, 70]
}

/// The start of an expiration line, `FD `.
pub open spec fn fd_word() -> Seq<u8> {
    seq![70u8, 68, 32]
}

/// The lines before the entries.
pub open spec fn snapshot_header(ts: Seq<u8>) -> Seq<u8> {
    dashes() + crlf() + redis_word() + crlf() + version_word() + crlf() + dashes() + crlf() + ts + crlf()
        + dashes() + crlf() + keys_values_word() + crlf()
}

/// The type letter of a value: `i`, `s` or `a`.
pub open spec fn type_letter(v: Value) -> u8 {
    match v {
        Value::Int(_) => 105,
        Value::Str(_) => 115,
        Value::List(_) => 97,
    }
}

/// The encoding of an integer or a string.
pub open spec fn scalar_text(v: Value) -> Seq<u8> {
    match v {
        Value::Int(n) => seq![36u8] + int_text(n as int) + crlf(),
        Value::Str(s) => seq![36u8] + nat_text(encode_utf8(s).len()) + seq![36u8] + encode_utf8(s) + crlf(),
        Value::List(_) => Seq::empty(),
    }
}

/// The items of a list, each as its type line then its encoding.
pub open spec fn items_text(xs: Seq<Value>) -> Seq<u8>
    decreases xs.len(),
{
    if xs.len() == 0 {
        Seq::empty()
    } else {
        items_text(xs.drop_last()) + seq![36u8, type_letter(xs.last())] + crlf() + scalar_text(xs.last())
    }
}

pub open spec fn is_scalar(v: Value) -> bool {
    !(v is List)
}

/// A list that holds no list.
pub open spec fn flat(v: Value) -> bool {
    match v {
        Value::List(xs) => forall|t: int| 0 <= t < xs.len() ==> is_scalar(#[trigger] xs[t]),
        _ => true,
    }
}

/// The encoding of a value.
pub open spec fn value_text(v: Value) -> Seq<u8> {
    match v {
        Value::List(xs) => seq![42u8] + nat_text(xs.len()) + crlf() + items_text(xs),
        _ => scalar_text(v),
    }
}

/// The block of one entry.
pub open spec fn entry_text(key: Seq<char>, v: Value, exp: u128) -> Seq<u8> {
    dashes() + crlf() + fd_word() + nat_text(exp as nat) + crlf() + seq![36u8, type_letter(v)] + crlf()
        + seq![36u8] + encode_utf8(key) + crlf() + value_text(v)
}

/// The blocks of the entries, in order.
pub open spec fn entries_text(es: Seq<Entry>) -> Seq<u8>
    decreases es.len(),
{
    if es.len() == 0 {
        Seq::empty()
    } else {
        entries_text(es.drop_last()) + entry_text(es.last().key@, es.last().value@, es.last().expire_at)
    }
}

/// Every value is flat.
pub open spec fn all_flat(es: Seq<Entry>) -> bool {
    forall|i: int| 0 <= i < es.len() ==> flat(#[trigger] es[i].value@)
}

/// The snapshot of the entries, with `ts` as its time line.
pub open spec fn snapshot_text(es: Seq<Entry>, ts: Seq<u8>) -> Seq<u8> {
    snapshot_header(ts) + entries_text(es) + dashes() + crlf() + eof_word() + crlf()
}

fn push_word(out: &mut Vec<u8>, w: &Vec<u8>)
    ensures
        final(out)@ == old(out)@ + w@,
{
    append_bytes(out, w.as_slice());
}

fn dashes_vec() -> (r: Vec<u8>)
    ensures
        r@ == dashes(),
{
    let mut v: Vec<u8> = Vec::new();
    let mut i: usize = 0;
    while i < 56
        invariant
            i <= 56,
            v@ == Seq::new(i as nat, |j: int| 45u8),
        decreases 56 - i,
    {
        v.push(45);
        i = i + 1;
        assert(v@ =~= Seq::new(i as nat, |j: int| 45u8));
    }
    v
}

fn push_scalar(out: &mut Vec<u8>, v: &DB_TYPE)
    requires
        is_scalar(v@),
    ensures
        final(out)@ == old(out)@ + scalar_text(v@),
{
    match v {
        DB_TYPE::Int(n) => {
            out.push(36);
            push_i64_text(out, *n);
            push_crlf(out);
        },
        DB_TYPE::Str(s) => {
            let b = s.as_str().as_bytes();
            out.push(36);
            push_u128_text(out, b.len() as u128);
            out.push(36);
            append_bytes(out, b);
            push_crlf(out);
        },
        DB_TYPE::Array(_) => {},
    }
    assert(final(out)@ =~= old(out)@ + scalar_text(v@));
}

/// Appends the encoding of a value; false, with `out` as it may then stand, on
/// a list that holds a list.
fn push_value(out: &mut Vec<u8>, v: &DB_TYPE) -> (ok: bool)
    ensures
        ok == flat(v@),
        ok ==> final(out)@ == old(out)@ + value_text(v@),
{
    match v {
        DB_TYPE::Array(xs) => {
            proof {
                lemma_values_of(xs@);
            }
            out.push(42);
            push_u128_text(out, xs.len() as u128);
            push_crlf(out);
            let ghost head = out@;
            let ghost vs = values_of(xs@);
            let mut i: usize = 0;
            while i < xs.len()
                invariant
                    *v == DB_TYPE::Array(*xs),
                    vs == values_of(xs@),
                    vs.len() == xs@.len(),
                    forall|t: int| 0 <= t < xs@.len() ==> #[trigger] vs[t] == value_of(xs@[t]),
                    i <= xs@.len(),
                    forall|t: int| 0 <= t < i ==> is_scalar(#[trigger] vs[t]),
                    out@ == head + items_text(vs.subrange(0, i as int)),
                decreases xs@.len() - i,
            {
                let x = &xs[i];
                let is_list = match x {
                    DB_TYPE::Array(_) => true,
                    _ => false,
                };
                if is_list {
                    assert(!is_scalar(vs[i as int]));
                    assert(v@ == Value::List(vs));
                    assert(!flat(Value::List(vs)));
                    assert(!flat(v@));
                    return false;
                }
                let letter: u8 = match x {
                    DB_TYPE::Int(_) => 105,
                    _ => 115,
                };
                out.push(36);
                out.push(letter);
                push_crlf(out);
                push_scalar(out, x);
                proof {
                    let pre = vs.subrange(0, i as int);
                    let next = vs.subrange(0, i + 1);
                    assert(next.drop_last() =~= pre);
                    assert(next.last() == value_of(xs@[i as int]));
                    assert(out@ =~= head + items_text(next));
                }
                i = i + 1;
            }
            assert(vs.subrange(0, i as int) =~= vs);
            assert(final(out)@ =~= old(out)@ + value_text(v@));
            true
        },
        _ => {
            push_scalar(out, v);
            true
        },
    }
}

fn push_entry(out: &mut Vec<u8>, e: &Entry, dash: &Vec<u8>) -> (ok: bool)
    requires
        dash@ == dashes(),
    ensures
        ok == flat(e.value@),
        ok ==> final(out)@ == old(out)@ + entry_text(e.key@, e.value@, e.expire_at),
{
    push_word(out, dash);
    push_crlf(out);
    push_word(out, &vec![70u8, 68, 32]);
    push_u128_text(out, e.expire_at);
    push_crlf(out);
    let letter: u8 = match &e.value {
        DB_TYPE::Int(_) => 105,
        DB_TYPE::Str(_) => 115,
        DB_TYPE::Array(_) => 97,
    };
    out.push(36);
    out.push(letter);
    push_crlf(out);
    out.push(36);
    append_bytes(out, e.key.as_str().as_bytes());
    push_crlf(out);
    let ghost mid = out@;
    let ok = push_value(out, &e.value);
    assert(ok ==> final(out)@ =~= old(out)@ + entry_text(e.key@, e.value@, e.expire_at));
    ok
}

impl Db {
    /// The snapshot of the keyspace with `ts` as its time line, or an error
    /// when a list holds a list.
    pub fn render_snapshot(&self, ts: &str) -> (r: Result<Vec<u8>, String>)
        ensures
            match r {
                Ok(b) => all_flat(self.entries()) && b@ == snapshot_text(self.entries(), encode_utf8(ts@)),
                Err(e) => !all_flat(self.entries()) && e@ == "nested arrays are not supported"@,
            },
    {
        let dash = dashes_vec();
        let mut out: Vec<u8> = Vec::new();
        push_word(&mut out, &dash);
        push_crlf(&mut out);
        push_word(&mut out, &vec![82u8, 69, 68, 73, 83]);
        push_crlf(&mut out);
        push_word(&mut out, &vec![48u8, 48, 48, 49]);
        push_crlf(&mut out);
        push_word(&mut out, &dash);
        push_crlf(&mut out);
        append_bytes(&mut out, ts.as_bytes());
        push_crlf(&mut out);
        push_word(&mut out, &dash);
        push_crlf(&mut out);
        push_word(&mut out, &vec![75u8, 69, 89, 83, 45, 86, 65, 76, 85, 69, 83]);
        push_crlf(&mut out);
        assert(out@ =~= snapshot_header(encode_utf8(ts@)));
        let ghost head = out@;
        let ghost es = self.entries();
        let mut i: usize = 0;
        while i < self.entry_count()
            invariant
                es == self.entries(),
                dash@ == dashes(),
                i <= es.len(),
                forall|t: int| 0 <= t < i ==> flat(#[trigger] es[t].value@),
                out@ == head + entries_text(es.subrange(0, i as int)),
            decreases es.len() - i,
        {
            let e = self.entry(i);
            if !push_entry(&mut out, e, &dash) {
                return Err("nested arrays are not supported".to_string());
            }
            proof {
                let pre = es.subrange(0, i as int);
                let next = es.subrange(0, i + 1);
                assert(next.drop_last() =~= pre);
                assert(next.last() == es[i as int]);
                assert(out@ =~= head + entries_text(next));
            }
            i = i + 1;
        }
        assert(es.subrange(0, i as int) =~= es);
        push_word(&mut out, &dash);
        push_crlf(&mut out);
        push_word(&mut out, &vec![69u8, 79, 70]);
        push_crlf(&mut out);
        assert(out@ =~= snapshot_text(es, encode_utf8(ts@)));
        Ok(out)
    }
}

/// One entry read back: key, value and expiration time (0 for none).
pub type Record = (Seq<char>, Value, u128);

/// The line at `i`: the bytes before the next CRLF, and the position after it.
pub open spec fn line_at(b: Seq<u8>, i: int) -> Option<(Seq<u8>, int)> {
    if i < 0 {
        None
    } else {
        match find_crlf(b, i) {
            Some(j) => Some((b.subrange(i, j), j + 2)),
            None => None,
        }
    }
}

/// The position after the `KEYS-VALUES` line, skipping the lines before it.
pub open spec fn skip_header(b: Seq<u8>, i: int) -> Option<int>
    decreases b.len() - i,
{
    if i < 0 {
        None
    } else {
        match find_crlf(b, i) {
            None => None,
            Some(j) => {
                proof {
                    lemma_find_crlf(b, i);
                }
                if b.subrange(i, j) == keys_values_word() {
                    Some(j + 2)
                } else {
                    skip_header(b, j + 2)
                }
            },
        }
    }
}

/// The first position at or after `i` that holds `c`.
pub open spec fn find_byte(b: Seq<u8>, i: int, c: u8) -> Option<int>
    decreases b.len() - i,
{
    if i < 0 || i >= b.len() {
        None
    } else if b[i] == c {
        Some(i)
    } else {
        find_byte(b, i + 1, c)
    }
}

/// A type line `$t`: its letter.
pub open spec fn type_at(b: Seq<u8>, i: int) -> Option<(u8, int)> {
    match line_at(b, i) {
        Some((l, j)) => if l.len() >= 2 {
            Some((l[1], j))
        } else {
            None
        },
        None => None,
    }
}

/// A key line `$key`.
pub open spec fn key_at(b: Seq<u8>, i: int) -> Option<(Seq<char>, int)> {
    match line_at(b, i) {
        Some((l, j)) => if l.len() >= 1 && valid_utf8(l.drop_first()) {
            Some((decode_utf8(l.drop_first()), j))
        } else {
            None
        },
        None => None,
    }
}

/// An integer line `$n`.
pub open spec fn int_at(b: Seq<u8>, i: int) -> Option<(Value, int)> {
    match line_at(b, i) {
        Some((l, j)) => if l.len() >= 1 {
            match i64_of_text(l.drop_first()) {
                Some(n) => Some((Value::Int(n), j)),
                None => None,
            }
        } else {
            None
        },
        None => None,
    }
}

/// A string `$len$payload` then CRLF.
pub open spec fn str_at(b: Seq<u8>, i: int) -> Option<(Value, int)> {
    if 0 <= i < b.len() && b[i] == 36 {
        match find_byte(b, i + 1, 36) {
            Some(p) => match u64_of_text(b.subrange(i + 1, p)) {
                Some(n) => {
                    let q = p + 1 + n;
                    if crlf_at(b, q) && valid_utf8(b.subrange(p + 1, q)) {
                        Some((Value::Str(decode_utf8(b.subrange(p + 1, q))), q + 2))
                    } else {
                        None
                    }
                },
                None => None,
            },
            None => None,
        }
    } else {
        None
    }
}

/// An integer or a string, by its type letter.
pub open spec fn scalar_at(b: Seq<u8>, i: int, t: u8) -> Option<(Value, int)> {
    if t == 105 {
        int_at(b, i)
    } else if t == 115 {
        str_at(b, i)
    } else {
        None
    }
}

/// `k` list items, each a type line then its encoding.
pub open spec fn items_at(b: Seq<u8>, i: int, k: nat) -> Option<(Seq<Value>, int)>
    decreases k,
{
    if k == 0 {
        Some((Seq::empty(), i))
    } else {
        match type_at(b, i) {
            None => None,
            Some((t, j)) => match scalar_at(b, j, t) {
                None => None,
                Some((v, e)) => match items_at(b, e, (k - 1) as nat) {
                    None => None,
                    Some((vs, f)) => Some((seq![v] + vs, f)),
                },
            },
        }
    }
}

/// A value, by its type letter.
pub open spec fn value_at(b: Seq<u8>, i: int, t: u8) -> Option<(Value, int)> {
    if t == 97 {
        match line_at(b, i) {
            Some((l, j)) => if l.len() >= 1 {
                match u64_of_text(l.drop_first()) {
                    Some(k) => match items_at(b, j, k as nat) {
                        Some((vs, f)) => Some((Value::List(vs), f)),
                        None => None,
                    },
                    None => None,
                }
            } else {
                None
            },
            None => None,
        }
    } else {
        scalar_at(b, i, t)
    }
}

/// An expiration line `FD n`.
pub open spec fn fd_at(b: Seq<u8>, i: int) -> Option<(u128, int)> {
    match line_at(b, i) {
        Some((l, j)) => if l.len() >= 3 && l.subrange(0, 3) == fd_word() {
            match u128_of_text(l.subrange(3, l.len() as int)) {
                Some(e) => Some((e, j)),
                None => None,
            }
        } else {
            None
        },
        None => None,
    }
}

/// An entry: its expiration line, type line, key line and value.
pub open spec fn entry_at(b: Seq<u8>, i: int) -> Option<(Record, int)> {
    match fd_at(b, i) {
        None => None,
        Some((e, i1)) => match type_at(b, i1) {
            None => None,
            Some((t, i2)) => match key_at(b, i2) {
                None => None,
                Some((k, i3)) => match value_at(b, i3, t) {
                    None => None,
                    Some((v, i4)) => Some(((k, v, e), i4)),
                },
            },
        },
    }
}

/// The entries from `i` on, each followed by a separator line, up to the `EOF`
/// line; and whether that line was reached.
pub open spec fn entries_from(b: Seq<u8>, i: int) -> (Seq<Record>, bool)
    decreases b.len() - i,
{
    if i < 0 || i > b.len() {
        (Seq::empty(), false)
    } else {
        match line_at(b, i) {
            None => (Seq::empty(), false),
            Some((l, _)) => if l == eof_word() {
                (Seq::empty(), true)
            } else {
                match entry_at(b, i) {
                    None => (Seq::empty(), false),
                    Some((r, e)) => match line_at(b, e) {
                        None => (seq![r], false),
                        Some((_, f)) => if i < f <= b.len() {
                            let rest = entries_from(b, f);
                            (seq![r] + rest.0, rest.1)
                        } else {
                            (seq![r], false)
                        },
                    },
                }
            },
        }
    }
}

/// What a snapshot holds: the entries read, in order, and whether the whole
/// text was read.
pub open spec fn load_records(b: Seq<u8>) -> (Seq<Record>, bool) {
    match skip_header(b, 0) {
        None => (Seq::empty(), false),
        Some(i) => match line_at(b, i) {
            None => (Seq::empty(), false),
            Some((_, j)) => entries_from(b, j),
        },
    }
}

/// The keyspace after storing the records in order.
pub open spec fn apply_keyspace(ks: Map<Seq<char>, Value>, rs: Seq<Record>) -> Map<Seq<char>, Value>
    decreases rs.len(),
{
    if rs.len() == 0 {
        ks
    } else {
        apply_keyspace(ks, rs.drop_last()).insert(rs.last().0, rs.last().1)
    }
}

/// The expiration index after storing the records in order.
pub open spec fn apply_expirations(exp: Map<Seq<char>, u128>, rs: Seq<Record>) -> Map<Seq<char>, u128>
    decreases rs.len(),
{
    if rs.len() == 0 {
        exp
    } else {
        let m = apply_expirations(exp, rs.drop_last());
        if rs.last().2 > 0 {
            m.insert(rs.last().0, rs.last().2)
        } else {
            m
        }
    }
}

fn line_exec(b: &[u8], i: usize) -> (r: Option<(usize, usize)>)
    ensures
        match r {
            Some((j, n)) => line_at(b@, i as int) == Some((b@.subrange(i as int, j as int), n as int)) && i
                <= j && n == j + 2 && n <= b@.len(),
            None => line_at(b@, i as int) is None,
        },
{
    let len = b.len();
    match find_crlf_exec(b, i) {
        Some(j) => {
            assert(j + 1 < len);
            Some((j, j + 2))
        },
        None => None,
    }
}

fn range_is(b: &[u8], s: usize, e: usize, w: &Vec<u8>) -> (r: bool)
    requires
        s <= e <= b@.len(),
    ensures
        r == (b@.subrange(s as int, e as int) == w@),
{
    if e - s != w.len() {
        return false;
    }
    let mut i: usize = 0;
    while i < w.len()
        invariant
            s <= e <= b@.len(),
            e - s == w@.len(),
            i <= w@.len(),
            forall|t: int| 0 <= t < i ==> b@[s + t] == w@[t],
        decreases w@.len() - i,
    {
        if b[s + i] != w[i] {
            assert(b@.subrange(s as int, e as int)[i as int] != w@[i as int]);
            return false;
        }
        i = i + 1;
    }
    assert(b@.subrange(s as int, e as int) =~= w@);
    true
}

fn skip_header_exec(b: &[u8]) -> (r: Option<usize>)
    ensures
        match r {
            Some(n) => skip_header(b@, 0) == Some(n as int) && n <= b@.len(),
            None => skip_header(b@, 0) is None,
        },
{
    let kv = vec![75u8, 69, 89, 83, 45, 86, 65, 76, 85, 69, 83];
    let mut i: usize = 0;
    loop
        invariant
            i <= b@.len(),
            kv@ == keys_values_word(),
            skip_header(b@, 0) == skip_header(b@, i as int),
        decreases b@.len() - i,
    {
        match line_exec(b, i) {
            None => return None,
            Some((j, n)) => {
                if range_is(b, i, j, &kv) {
                    return Some(n);
                }
                i = n;
            },
        }
    }
}

fn find_byte_exec(b: &[u8], i: usize, c: u8) -> (r: Option<usize>)
    ensures
        match r {
            Some(p) => find_byte(b@, i as int, c) == Some(p as int) && i <= p < b@.len(),
            None => find_byte(b@, i as int, c) is None,
        },
{
    let mut p: usize = i;
    while p < b.len()
        invariant
            i <= p,
            find_byte(b@, i as int, c) == find_byte(b@, p as int, c),
        decreases b@.len() - p,
    {
        if b[p] == c {
            return Some(p);
        }
        p = p + 1;
    }
    None
}

fn type_exec(b: &[u8], i: usize) -> (r: Option<(u8, usize)>)
    ensures
        match r {
            Some((t, n)) => type_at(b@, i as int) == Some((t, n as int)) && n <= b@.len(),
            None => type_at(b@, i as int) is None,
        },
{
    match line_exec(b, i) {
        Some((j, n)) => if j - i >= 2 {
            Some((b[i + 1], n))
        } else {
            None
        },
        None => None,
    }
}

fn key_exec(b: &[u8], i: usize) -> (r: Option<(String, usize)>)
    ensures
        match r {
            Some((k, n)) => key_at(b@, i as int) == Some((k@, n as int)) && n <= b@.len(),
            None => key_at(b@, i as int) is None,
        },
{
    match line_exec(b, i) {
        Some((j, n)) => if j - i >= 1 {
            assert(b@.subrange(i as int, j as int).drop_first() =~= b@.subrange(i + 1, j as int));
            match utf8_text(&b[i + 1..j]) {
                Some(k) => Some((k, n)),
                None => None,
            }
        } else {
            None
        },
        None => None,
    }
}

fn int_exec(b: &[u8], i: usize) -> (r: Option<(DB_TYPE, usize)>)
    ensures
        match r {
            Some((v, n)) => int_at(b@, i as int) == Some((v@, n as int)) && n <= b@.len(),
            None => int_at(b@, i as int) is None,
        },
{
    match line_exec(b, i) {
        Some((j, n)) => if j - i >= 1 {
            assert(b@.subrange(i as int, j as int).drop_first() =~= b@.subrange(i + 1, j as int));
            match parse_i64(b, i + 1, j) {
                Some(v) => Some((DB_TYPE::Int(v), n)),
                None => None,
            }
        } else {
            None
        },
        None => None,
    }
}

fn str_exec(b: &[u8], i: usize) -> (r: Option<(DB_TYPE, usize)>)
    ensures
        match r {
            Some((v, n)) => str_at(b@, i as int) == Some((v@, n as int)) && n <= b@.len(),
            None => str_at(b@, i as int) is None,
        },
{
    if i >= b.len() || b[i] != 36 {
        return None;
    }
    let p = match find_byte_exec(b, i + 1, 36) {
        Some(p) => p,
        None => return None,
    };
    let n = match parse_u64(b, i + 1, p) {
        Some(n) => n,
        None => return None,
    };
    if (n as u128) + 3 > (b.len() - p) as u128 {
        return None;
    }
    let q = p + 1 + n as usize;
    if b[q] != 13 || b[q + 1] != 10 {
        return None;
    }
    match utf8_text(&b[p + 1..q]) {
        Some(s) => Some((DB_TYPE::Str(s), q + 2)),
        None => None,
    }
}

fn scalar_exec(b: &[u8], i: usize, t: u8) -> (r: Option<(DB_TYPE, usize)>)
    ensures
        match r {
            Some((v, n)) => scalar_at(b@, i as int, t) == Some((v@, n as int)) && n <= b@.len(),
            None => scalar_at(b@, i as int, t) is None,
        },
{
    if t == 105 {
        int_exec(b, i)
    } else if t == 115 {
        str_exec(b, i)
    } else {
        None
    }
}

fn items_exec(b: &[u8], i: usize, k: u64) -> (r: Option<(Vec<DB_TYPE>, usize)>)
    requires
        i <= b@.len(),
    ensures
        match r {
            Some((xs, n)) => items_at(b@, i as int, k as nat) == Some((values_of(xs@), n as int)) && n
                <= b@.len(),
            None => items_at(b@, i as int, k as nat) is None,
        },
{
    let mut out: Vec<DB_TYPE> = Vec::new();
    let mut pos: usize = i;
    let mut left: u64 = k;
    assert(values_of(out@) =~= Seq::<Value>::empty());
    assert(items_at(b@, i as int, k as nat) == match items_at(b@, pos as int, left as nat) {
        Some((ys, f)) => Some((values_of(out@) + ys, f)),
        None => None,
    }) by {
        match items_at(b@, pos as int, left as nat) {
            Some((ys, f)) => {
                assert(values_of(out@) + ys =~= ys);
            },
            None => {},
        }
    }
    while left > 0
        invariant
            pos <= b@.len(),
            items_at(b@, i as int, k as nat) == match items_at(b@, pos as int, left as nat) {
                Some((ys, f)) => Some((values_of(out@) + ys, f)),
                None => None,
            },
        decreases left,
    {
        let (t, j) = match type_exec(b, pos) {
            Some(p) => p,
            None => return None,
        };
        let (v, e) = match scalar_exec(b, j, t) {
            Some(p) => p,
            None => return None,
        };
        let ghost before = out@;
        out.push(v);
        proof {
            lemma_values_of(before);
            lemma_values_of(out@);
            assert(values_of(out@) =~= values_of(before).push(v@));
            match items_at(b@, e as int, (left - 1) as nat) {
                Some((ys, f)) => {
                    assert(values_of(before) + (seq![v@] + ys) =~= values_of(out@) + ys);
                },
                None => {},
            }
        }
        pos = e;
        left = left - 1;
    }
    assert(values_of(out@) + Seq::<Value>::empty() =~= values_of(out@));
    Some((out, pos))
}

fn value_exec(b: &[u8], i: usize, t: u8) -> (r: Option<(DB_TYPE, usize)>)
    ensures
        match r {
            Some((v, n)) => value_at(b@, i as int, t) == Some((v@, n as int)) && n <= b@.len(),
            None => value_at(b@, i as int, t) is None,
        },
{
    if t == 97 {
        match line_exec(b, i) {
            Some((j, n)) => if j - i >= 1 {
                assert(b@.subrange(i as int, j as int).drop_first() =~= b@.subrange(i + 1, j as int));
                match parse_u64(b, i + 1, j) {
                    Some(k) => match items_exec(b, n, k) {
                        Some((xs, f)) => Some((DB_TYPE::Array(xs), f)),
                        None => None,
                    },
                    None => None,
                }
            } else {
                None
            },
            None => None,
        }
    } else {
        scalar_exec(b, i, t)
    }
}

fn fd_exec(b: &[u8], i: usize) -> (r: Option<(u128, usize)>)
    ensures
        match r {
            Some((e, n)) => fd_at(b@, i as int) == Some((e, n as int)) && n <= b@.len(),
            None => fd_at(b@, i as int) is None,
        },
{
    match line_exec(b, i) {
        Some((j, n)) => if j - i >= 3 && range_is(b, i, i + 3, &vec![70u8, 68, 32]) {
            assert(b@.subrange(i as int, j as int).subrange(0, 3) =~= b@.subrange(i as int, i + 3));
            assert(b@.subrange(i as int, j as int).subrange(3, (j - i) as int) =~= b@.subrange(i + 3, j as int));
            match parse_u128(b, i + 3, j) {
                Some(e) => Some((e, n)),
                None => None,
            }
        } else {
            if j - i >= 3 {
                assert(b@.subrange(i as int, j as int).subrange(0, 3) =~= b@.subrange(i as int, i + 3));
            }
            None
        },
        None => None,
    }
}

fn entry_exec(b: &[u8], i: usize) -> (r: Option<(String, DB_TYPE, u128, usize)>)
    ensures
        match r {
            Some((k, v, e, n)) => entry_at(b@, i as int) == Some(((k@, v@, e), n as int)) && n <= b@.len(),
            None => entry_at(b@, i as int) is None,
        },
{
    let (e, i1) = match fd_exec(b, i) {
        Some(p) => p,
        None => return None,
    };
    let (t, i2) = match type_exec(b, i1) {
        Some(p) => p,
        None => return None,
    };
    let (k, i3) = match key_exec(b, i2) {
        Some(p) => p,
        None => return None,
    };
    let (v, i4) = match value_exec(b, i3, t) {
        Some(p) => p,
        None => return None,
    };
    Some((k, v, e, i4))
}

/// Why an entry cannot be read at `i`: its expiration line, its type letter,
/// or the rest of it.
pub open spec fn entry_error(b: Seq<u8>, i: int) -> Seq<char> {
    match fd_at(b, i) {
        None => "Cannot correctly read expire for object"@,
        Some((_, i1)) => match type_at(b, i1) {
            Some((t, _)) => if t != 105 && t != 115 && t != 97 {
                "Invalid char encountered for object type"@
            } else {
                "Cannot correctly read object"@
            },
            None => "Cannot correctly read object"@,
        },
    }
}

/// The error that reading the entries from `i` on ends with, when it does not
/// reach the `EOF` line.
pub open spec fn entries_error(b: Seq<u8>, i: int) -> Seq<char>
    decreases b.len() - i,
{
    if i < 0 || i > b.len() {
        "Unexpected EOF"@
    } else {
        match line_at(b, i) {
            None => "Unexpected EOF"@,
            Some((l, _)) => if l == eof_word() {
                Seq::empty()
            } else {
                match entry_at(b, i) {
                    None => entry_error(b, i),
                    Some((_, e)) => match line_at(b, e) {
                        None => "Unexpected EOF"@,
                        Some((_, f)) => if i < f <= b.len() {
                            entries_error(b, f)
                        } else {
                            "Unexpected EOF"@
                        },
                    },
                }
            },
        }
    }
}

/// The error that reading a snapshot ends with, when it does not read it all:
/// `EOF` when no `KEYS-VALUES` line is found.
pub open spec fn load_error(b: Seq<u8>) -> Seq<char> {
    match skip_header(b, 0) {
        None => "EOF"@,
        Some(i) => match line_at(b, i) {
            None => "Unexpected EOF"@,
            Some((_, j)) => entries_error(b, j),
        },
    }
}

fn entry_error_exec(b: &[u8], i: usize) -> (r: String)
    ensures
        r@ == entry_error(b@, i as int),
{
    match fd_exec(b, i) {
        None => "Cannot correctly read expire for object".to_string(),
        Some((_, i1)) => match type_exec(b, i1) {
            Some((t, _)) => if t != 105 && t != 115 && t != 97 {
                "Invalid char encountered for object type".to_string()
            } else {
                "Cannot correctly read object".to_string()
            },
            None => "Cannot correctly read object".to_string(),
        },
    }
}

/// Reads a snapshot into the keyspace, storing each entry as it is read: on an
/// error the entries before it stay stored.
pub fn load_snapshot(db: &mut Db, b: &[u8]) -> (r: Result<String, String>)
    requires
        old(db).wf(),
    ensures
        final(db).wf(),
        final(db).keyspace() == apply_keyspace(old(db).keyspace(), load_records(b@).0),
        final(db).expirations() == apply_expirations(old(db).expirations(), load_records(b@).0),
        r is Ok <==> load_records(b@).1,
        r matches Ok(s) ==> s@ == "OK"@,
        r matches Err(e) ==> e@ == load_error(b@),
{
    let start = match skip_header_exec(b) {
        Some(i) => i,
        None => return Err("EOF".to_string()),
    };
    let mut pos = match line_exec(b, start) {
        Some((_, n)) => n,
        None => return Err("Unexpected EOF".to_string()),
    };
    let eof = vec![69u8, 79, 70];
    let ghost all = load_records(b@);
    let ghost mut done: Seq<Record> = Seq::empty();
    assert(all.0 =~= done + entries_from(b@, pos as int).0);
    loop
        invariant
            db.wf(),
            pos <= b@.len(),
            eof@ == eof_word(),
            all == load_records(b@),
            all.1 == entries_from(b@, pos as int).1,
            all.0 == done + entries_from(b@, pos as int).0,
            load_error(b@) == entries_error(b@, pos as int),
            db.keyspace() == apply_keyspace(old(db).keyspace(), done),
            db.expirations() == apply_expirations(old(db).expirations(), done),
        decreases b@.len() - pos,
    {
        let (j, _) = match line_exec(b, pos) {
            Some(p) => p,
            None => {
                assert(all.0 =~= done);
                return Err("Unexpected EOF".to_string());
            },
        };
        if range_is(b, pos, j, &eof) {
            assert(all.0 =~= done);
            return Ok("OK".to_string());
        }
        let (k, v, e, n) = match entry_exec(b, pos) {
            Some(p) => p,
            None => {
                assert(all.0 =~= done);
                return Err(entry_error_exec(b, pos));
            },
        };
        let ghost rec: Record = (k@, v@, e);
        crate::db::set(db, k, v, e);
        proof {
            let prev = done;
            done = done.push(rec);
            assert(done.drop_last() =~= prev);
        }
        let f = match line_exec(b, n) {
            Some((_, f)) => f,
            None => {
                assert(all.0 =~= done);
                return Err("Unexpected EOF".to_string());
            },
        };
        if f <= pos {
            assert(all.0 =~= done);
            return Err("Unexpected EOF".to_string());
        }
        assert(all.0 =~= done + entries_from(b@, f as int).0);
        pos = f;
    }
}

/// The snapshot text of the keyspace, stamped with the UTC time `now` (in
/// milliseconds since the Unix epoch).
pub fn snapshot_at(db: &Db, now: u128) -> (r: Result<Vec<u8>, String>)
    ensures
        r matches Ok(b) ==> all_flat(db.entries()) && b@ == snapshot_text(
            db.entries(),
            encode_utf8(utc_text_of(now as int)),
        ),
        !all_flat(db.entries()) ==> (r matches Err(e) && e@ == "nested arrays are not supported"@),
        all_flat(db.entries()) && now <= 8_000_000_000_000_000 ==> r is Ok,
{
    let stamp = if now <= i64::MAX as u128 {
        utc_text(now as i64)
    } else {
        None
    };
    match stamp {
        Some(ts) => db.render_snapshot(ts.as_str()),
        None => match db.render_snapshot("") {
            Ok(_) => Err("time out of range".to_string()),
            Err(e) => Err(e),
        },
    }
}

/// An entry block without its separator line.
pub open spec fn entry_body(e: Entry) -> Seq<u8> {
    fd_word() + nat_text(e.expire_at as nat) + crlf() + seq![36u8, type_letter(e.value@)] + crlf() + seq![36u8]
        + encode_utf8(e.key@) + crlf() + value_text(e.value@)
}

/// What follows the separator line before the first entry.
pub open spec fn snapshot_tail(es: Seq<Entry>) -> Seq<u8>
    decreases es.len(),
{
    if es.len() == 0 {
        eof_word() + crlf()
    } else {
        entry_body(es[0]) + dashes() + crlf() + snapshot_tail(es.drop_first())
    }
}

/// The records that the entries are read back as.
pub open spec fn records_of(es: Seq<Entry>) -> Seq<Record> {
    Seq::new(es.len(), |t: int| (es[t].key@, es[t].value@, es[t].expire_at))
}

/// A string whose length the snapshot can carry.
pub open spec fn str_fits(v: Value) -> bool {
    match v {
        Value::Str(s) => encode_utf8(s).len() <= u64::MAX,
        _ => true,
    }
}

/// An entry that the snapshot carries: a key without CRLF, a flat value, and
/// lengths that fit 64 bits.
pub open spec fn entry_fits(e: Entry) -> bool {
    &&& no_crlf(encode_utf8(e.key@))
    &&& flat(e.value@)
    &&& str_fits(e.value@)
    &&& (e.value@ matches Value::List(xs) ==> xs.len() <= u64::MAX && forall|t: int|
        0 <= t < xs.len() ==> str_fits(#[trigger] xs[t]))
}

proof fn lemma_split(b: Seq<u8>, i: int, x: Seq<u8>, y: Seq<u8>)
    requires
        0 <= i,
        i + x.len() + y.len() <= b.len(),
        b.subrange(i, i + x.len() + y.len()) == x + y,
    ensures
        b.subrange(i, i + x.len()) == x,
        b.subrange(i + x.len(), i + x.len() + y.len()) == y,
{
    assert(b.subrange(i, i + x.len()) =~= (x + y).subrange(0, x.len() as int));
    assert(b.subrange(i + x.len(), i + x.len() + y.len()) =~= (x + y).subrange(x.len() as int, (x.len() + y.len()) as int));
}

proof fn lemma_entries_text_front(es: Seq<Entry>)
    requires
        es.len() > 0,
    ensures
        entries_text(es) == entry_text(es[0].key@, es[0].value@, es[0].expire_at) + entries_text(es.drop_first()),
    decreases es.len(),
{
    if es.len() == 1 {
        assert(es.drop_last() =~= Seq::<Entry>::empty());
        assert(es.drop_first() =~= Seq::<Entry>::empty());
        assert(entries_text(es) =~= entry_text(es[0].key@, es[0].value@, es[0].expire_at) + entries_text(es.drop_first()));
    } else {
        lemma_entries_text_front(es.drop_last());
        assert(es.drop_last().drop_first() =~= es.drop_first().drop_last());
        assert(es.drop_first().last() == es.last());
        assert(es.drop_last()[0] == es[0]);
        assert(entries_text(es) =~= entry_text(es[0].key@, es[0].value@, es[0].expire_at) + entries_text(es.drop_first()));
    }
}

/// The separator line and the end line that close a snapshot.
pub open spec fn eof_block() -> Seq<u8> {
    dashes() + crlf() + eof_word() + crlf()
}

proof fn lemma_snapshot_tail(es: Seq<Entry>)
    ensures
        entries_text(es) + eof_block() == dashes() + crlf() + snapshot_tail(es),
    decreases es.len(),
{
    let d = dashes() + crlf();
    if es.len() == 0 {
        assert(entries_text(es) + eof_block() =~= d + snapshot_tail(es));
    } else {
        lemma_entries_text_front(es);
        lemma_snapshot_tail(es.drop_first());
        let e = es[0];
        let body = entry_body(e);
        let r = entries_text(es.drop_first());
        let t = snapshot_tail(es.drop_first());
        assert(entry_text(e.key@, e.value@, e.expire_at) =~= d + body);
        assert(entries_text(es) + eof_block() =~= d + body + (r + eof_block()));
        assert(r + eof_block() == d + t);
        assert(snapshot_tail(es) == body + dashes() + crlf() + t);
        assert(d + body + (d + t) =~= d + snapshot_tail(es));
    }
}

proof fn lemma_items_text_front(xs: Seq<Value>)
    requires
        xs.len() > 0,
    ensures
        items_text(xs) == seq![36u8, type_letter(xs[0])] + crlf() + scalar_text(xs[0]) + items_text(xs.drop_first()),
    decreases xs.len(),
{
    if xs.len() == 1 {
        assert(xs.drop_last() =~= Seq::<Value>::empty());
        assert(xs.drop_first() =~= Seq::<Value>::empty());
        assert(items_text(xs) =~= seq![36u8, type_letter(xs[0])] + crlf() + scalar_text(xs[0]) + items_text(xs.drop_first()));
    } else {
        lemma_items_text_front(xs.drop_last());
        assert(xs.drop_last().drop_first() =~= xs.drop_first().drop_last());
        assert(xs.drop_first().last() == xs.last());
        assert(xs.drop_last()[0] == xs[0]);
        assert(items_text(xs) =~= seq![36u8, type_letter(xs[0])] + crlf() + scalar_text(xs[0]) + items_text(xs.drop_first()));
    }
}

proof fn lemma_find_byte_first(b: Seq<u8>, a: int, j: int, c: u8)
    requires
        0 <= a <= j < b.len(),
        b[j] == c,
        forall|m: int| a <= m < j ==> b[m] != c,
    ensures
        find_byte(b, a, c) == Some(j),
    decreases j - a,
{
    if a < j {
        lemma_find_byte_first(b, a + 1, j, c);
    }
}

/// `$` then `text` then CRLF at `i` reads as the line `$text`.
proof fn lemma_dollar_line(b: Seq<u8>, i: int, lead: u8, text: Seq<u8>)
    requires
        0 <= i,
        lead != 13,
        i + text.len() + 3 <= b.len(),
        b.subrange(i, i + text.len() + 3) == seq![lead] + text + crlf(),
        no_crlf(text),
    ensures
        line_at(b, i) == Some((seq![lead] + text, i + text.len() + 3)),
{
    let t = seq![lead] + text;
    assert(no_crlf(t)) by {
        assert forall|m: int| 0 <= m < t.len() - 1 implies !(t[m] == 13 && #[trigger] t[m + 1] == 10) by {
            if m > 0 {
                let q = m - 1;
                assert(t[m] == text[q]);
                assert(t[m + 1] == text[q + 1]);
            }
        }
    }
    assert(seq![lead] + text + crlf() =~= t + crlf());
    lemma_line(b, i, t);
}

proof fn lemma_digits_no_dollar(d: Seq<u8>)
    requires
        all_digits(d),
    ensures
        forall|m: int| 0 <= m < d.len() ==> d[m] != 36,
{
    assert forall|m: int| 0 <= m < d.len() implies d[m] != 36 by {
        assert(is_digit(d[m]));
    }
}

proof fn lemma_u64_text(n: nat)
    requires
        n <= u64::MAX,
    ensures
        u64_of_text(nat_text(n)) == Some(n as u64),
{
    lemma_nat_text(n);
    assert(is_digit(nat_text(n)[0]));
}

proof fn lemma_u128_text(n: nat)
    requires
        n <= u128::MAX,
    ensures
        u128_of_text(nat_text(n)) == Some(n as u128),
{
    lemma_nat_text(n);
    assert(is_digit(nat_text(n)[0]));
}

/// The expiration line `FD n` at `i`.
proof fn lemma_fd_line(b: Seq<u8>, i: int, exp: u128)
    requires
        0 <= i,
        i + fd_word().len() + nat_text(exp as nat).len() + 2 <= b.len(),
        b.subrange(i, i + fd_word().len() + nat_text(exp as nat).len() + 2) == fd_word() + nat_text(
            exp as nat,
        ) + crlf(),
    ensures
        fd_at(b, i) == Some((exp, i + fd_word().len() + nat_text(exp as nat).len() + 2)),
{
    let d = nat_text(exp as nat);
    lemma_nat_text(exp as nat);
    lemma_u128_text(exp as nat);
    let fd = fd_word() + d;
    assert(no_crlf(fd)) by {
        assert forall|m: int| 0 <= m < fd.len() - 1 implies !(fd[m] == 13 && #[trigger] fd[m + 1] == 10) by {
            if m >= 3 {
                assert(fd[m] == d[m - 3]);
                assert(is_digit(d[m - 3]));
            } else {
                assert(fd[m] == fd_word()[m]);
            }
        }
    }
    assert(fd_word() + d + crlf() =~= fd + crlf());
    lemma_line(b, i, fd);
    assert(fd.subrange(0, 3) =~= fd_word());
    assert(fd.subrange(3, fd.len() as int) =~= d);
}

#[verifier::spinoff_prover]
#[verifier::rlimit(50)]
proof fn lemma_scalar_at(b: Seq<u8>, i: int, v: Value)
    requires
        is_scalar(v),
        str_fits(v),
        0 <= i,
        i + scalar_text(v).len() <= b.len(),
        b.subrange(i, i + scalar_text(v).len()) == scalar_text(v),
    ensures
        scalar_at(b, i, type_letter(v)) == Some((v, i + scalar_text(v).len())),
{
    match v {
        Value::Int(n) => {
            let t = int_text(n as int);
            assert(scalar_text(v) =~= seq![36u8] + t + crlf());
            lemma_int_line(n as int);
            lemma_dollar_line(b, i, 36, t);
            assert((seq![36u8] + t).drop_first() =~= t);
            lemma_i64_text(n);
            assert(line_at(b, i) == Some((seq![36u8] + t, i + scalar_text(v).len())));
            assert(i64_of_text((seq![36u8] + t).drop_first()) == Some(n));
            assert(int_at(b, i) == Some((v, i + scalar_text(v).len())));
            assert(type_letter(v) == 105);
            assert(scalar_at(b, i, 105) == int_at(b, i));
        },
        Value::Str(s) => {
            let p = encode_utf8(s);
            let d = nat_text(p.len());
            lemma_nat_text(p.len());
            lemma_u64_text(p.len());
            let whole = scalar_text(v);
            assert(whole =~= seq![36u8] + d + seq![36u8] + p + crlf());
            assert forall|m: int| 0 <= m < whole.len() implies b[i + m] == whole[m] by {
                assert(b.subrange(i, i + whole.len())[m] == b[i + m]);
            }
            let q = i + 1 + d.len();
            lemma_digits_no_dollar(d);
            assert forall|m: int| i + 1 <= m < q implies b[m] != 36 by {
                assert(b[m] == whole[m - i]);
                assert(whole[m - i] == d[m - i - 1]);
            }
            assert(b[q] == whole[q - i]);
            lemma_find_byte_first(b, i + 1, q, 36);
            assert forall|m: int| 0 <= m < d.len() implies b.subrange(i + 1, q)[m] == d[m] by {
                assert(b[i + 1 + m] == whole[1 + m]);
            }
            assert(b.subrange(i + 1, q) =~= d);
            let e = q + 1 + p.len();
            assert(b[e] == whole[e - i]);
            assert(b[e + 1] == whole[e + 1 - i]);
            assert forall|m: int| 0 <= m < p.len() implies b.subrange(q + 1, e)[m] == p[m] by {
                assert(b[q + 1 + m] == whole[q + 1 + m - i]);
            }
            assert(b.subrange(q + 1, e) =~= p);
            encode_utf8_valid_utf8(s);
            encode_utf8_decode_utf8(s);
            assert(b.subrange(i, i + whole.len())[0] == b[i]);
            assert(whole[0] == 36);
            assert(crlf_at(b, e));
            assert(u64_of_text(b.subrange(i + 1, q)) == Some(p.len() as u64));
            assert(str_at(b, i) == Some((v, e + 2)));
            assert(e + 2 == i + scalar_text(v).len());
        },
        Value::List(_) => {},
    }
}

#[verifier::spinoff_prover]
#[verifier::rlimit(50)]
proof fn lemma_items_at(b: Seq<u8>, i: int, xs: Seq<Value>)
    requires
        forall|t: int| 0 <= t < xs.len() ==> is_scalar(#[trigger] xs[t]) && str_fits(xs[t]),
        0 <= i,
        i + items_text(xs).len() <= b.len(),
        b.subrange(i, i + items_text(xs).len()) == items_text(xs),
    ensures
        items_at(b, i, xs.len()) == Some((xs, i + items_text(xs).len())),
    decreases xs.len(),
{
    if xs.len() == 0 {
        assert(xs =~= Seq::<Value>::empty());
    } else {
        lemma_items_text_front(xs);
        let x = xs[0];
        let head = seq![36u8, type_letter(x)] + crlf();
        let body = scalar_text(x);
        let rest = items_text(xs.drop_first());
        assert(items_text(xs) =~= head + (body + rest));
        lemma_split(b, i, head, body + rest);
        lemma_split(b, i + head.len(), body, rest);
        let letter = seq![type_letter(x)];
        assert(no_crlf(letter));
        assert(head =~= seq![36u8] + letter + crlf());
        lemma_dollar_line(b, i, 36, letter);
        lemma_scalar_at(b, i + head.len(), x);
        assert forall|t: int| 0 <= t < xs.drop_first().len() implies is_scalar(#[trigger] xs.drop_first()[t])
            && str_fits(xs.drop_first()[t]) by {
            assert(xs.drop_first()[t] == xs[t + 1]);
        }
        lemma_items_at(b, i + head.len() + body.len(), xs.drop_first());
        assert(seq![x] + xs.drop_first() =~= xs);
    }
}

#[verifier::spinoff_prover]
#[verifier::rlimit(50)]
proof fn lemma_value_at(b: Seq<u8>, i: int, e: Entry)
    requires
        entry_fits(e),
        0 <= i,
        i + value_text(e.value@).len() <= b.len(),
        b.subrange(i, i + value_text(e.value@).len()) == value_text(e.value@),
    ensures
        value_at(b, i, type_letter(e.value@)) == Some((e.value@, i + value_text(e.value@).len())),
{
    let v = e.value@;
    match v {
        Value::List(xs) => {
            let d = nat_text(xs.len());
            lemma_nat_text(xs.len());
            lemma_digits_line(d);
            lemma_u64_text(xs.len());
            let head = seq![42u8] + d + crlf();
            let rest = items_text(xs);
            assert(value_text(v) =~= head + rest);
            lemma_split(b, i, head, rest);
            lemma_dollar_line(b, i, 42, d);
            assert((seq![42u8] + d).drop_first() =~= d);
            assert forall|t: int| 0 <= t < xs.len() implies is_scalar(#[trigger] xs[t]) && str_fits(xs[t]) by {}
            lemma_items_at(b, i + head.len(), xs);
        },
        _ => {
            lemma_scalar_at(b, i, v);
        },
    }
}

#[verifier::spinoff_prover]
#[verifier::rlimit(50)]
proof fn lemma_entry_at(b: Seq<u8>, i: int, e: Entry)
    requires
        entry_fits(e),
        0 <= i,
        i + entry_body(e).len() <= b.len(),
        b.subrange(i, i + entry_body(e).len()) == entry_body(e),
    ensures
        entry_at(b, i) == Some(((e.key@, e.value@, e.expire_at), i + entry_body(e).len())),
{
    let l1 = fd_word() + nat_text(e.expire_at as nat) + crlf();
    let letter = seq![type_letter(e.value@)];
    let l2 = seq![36u8] + letter + crlf();
    let k = encode_utf8(e.key@);
    let l3 = seq![36u8] + k + crlf();
    let vt = value_text(e.value@);
    assert(entry_body(e) =~= l1 + (l2 + (l3 + vt)));
    lemma_split(b, i, l1, l2 + (l3 + vt));
    let i1 = i + l1.len();
    lemma_split(b, i1, l2, l3 + vt);
    let i2 = i1 + l2.len();
    lemma_split(b, i2, l3, vt);
    let i3 = i2 + l3.len();
    lemma_fd_line(b, i, e.expire_at);
    assert(no_crlf(letter));
    lemma_dollar_line(b, i1, 36, letter);
    lemma_dollar_line(b, i2, 36, k);
    assert((seq![36u8] + k).drop_first() =~= k);
    encode_utf8_valid_utf8(e.key@);
    encode_utf8_decode_utf8(e.key@);
    lemma_value_at(b, i3, e);
}

#[verifier::spinoff_prover]
#[verifier::rlimit(50)]
proof fn lemma_entries_from(b: Seq<u8>, i: int, es: Seq<Entry>)
    requires
        forall|t: int| 0 <= t < es.len() ==> entry_fits(#[trigger] es[t]),
        0 <= i <= b.len(),
        b.subrange(i, b.len() as int) == snapshot_tail(es),
    ensures
        entries_from(b, i) == (records_of(es), true),
    decreases es.len(),
{
    if es.len() == 0 {
        assert(snapshot_tail(es) =~= eof_word() + crlf());
        assert(no_crlf(eof_word()));
        lemma_line(b, i, eof_word());
        assert(records_of(es) =~= Seq::<Record>::empty());
    } else {
        let e = es[0];
        let body = entry_body(e);
        let sep = dashes() + crlf();
        let rest = snapshot_tail(es.drop_first());
        assert(snapshot_tail(es) =~= body + (sep + rest));
        lemma_split(b, i, body, sep + rest);
        let j = i + body.len();
        lemma_split(b, j, sep, rest);
        // the first line is the expiration line, not the end
        assert(b[i] == body[0]);
        assert(body[0] == 70);
        let first = line_at(b, i);
        lemma_entry_at(b, i, e);
        assert(no_crlf(dashes()));
        lemma_line(b, j, dashes());
        let f = j + sep.len();
        assert(b.subrange(f, b.len() as int) =~= rest) by {
            assert(b.subrange(f, b.len() as int) =~= b.subrange(j + sep.len(), j + sep.len() + rest.len()));
        }
        assert forall|t: int| 0 <= t < es.drop_first().len() implies entry_fits(#[trigger] es.drop_first()[t]) by {
            assert(es.drop_first()[t] == es[t + 1]);
        }
        lemma_entries_from(b, f, es.drop_first());
        lemma_find_crlf(b, i);
        match first {
            Some((l, _)) => {
                assert(l[0] == b[i]);
                assert(l != eof_word());
            },
            None => {},
        }
        assert(seq![(e.key@, e.value@, e.expire_at)] + records_of(es.drop_first()) =~= records_of(es));
    }
}

proof fn lemma_skip_line(b: Seq<u8>, p: int, l: Seq<u8>)
    requires
        0 <= p,
        p + l.len() + 2 <= b.len(),
        b.subrange(p, p + l.len() + 2) == l + crlf(),
        no_crlf(l),
    ensures
        l != keys_values_word() ==> skip_header(b, p) == skip_header(b, p + l.len() + 2),
        l == keys_values_word() ==> skip_header(b, p) == Some(p + l.len() + 2),
{
    lemma_line(b, p, l);
}

proof fn lemma_word_lines()
    ensures
        no_crlf(dashes()),
        no_crlf(redis_word()),
        no_crlf(version_word()),
        no_crlf(keys_values_word()),
        dashes() != keys_values_word(),
        redis_word() != keys_values_word(),
        version_word() != keys_values_word(),
{
    assert(dashes().len() != keys_values_word().len());
    assert(redis_word().len() != keys_values_word().len());
    assert(version_word().len() != keys_values_word().len());
    let k = keys_values_word();
    assert forall|m: int| 0 <= m < k.len() - 1 implies !(k[m] == 13 && #[trigger] k[m + 1] == 10) by {}
    let r = redis_word();
    assert forall|m: int| 0 <= m < r.len() - 1 implies !(r[m] == 13 && #[trigger] r[m + 1] == 10) by {}
    let v = version_word();
    assert forall|m: int| 0 <= m < v.len() - 1 implies !(v[m] == 13 && #[trigger] v[m + 1] == 10) by {}
}

proof fn lemma_sub_of(b: Seq<u8>, h: Seq<u8>, p: int, q: int)
    requires
        h.len() <= b.len(),
        b.subrange(0, h.len() as int) == h,
        0 <= p <= q <= h.len(),
    ensures
        b.subrange(p, q) == h.subrange(p, q),
{
    assert forall|m: int| 0 <= m < q - p implies b.subrange(p, q)[m] == h.subrange(p, q)[m] by {
        assert(b.subrange(0, h.len() as int)[p + m] == b[p + m]);
    }
    assert(b.subrange(p, q) =~= h.subrange(p, q));
}

/// The header lines are skipped up to and with the `KEYS-VALUES` line.
proof fn lemma_skip_header(b: Seq<u8>, ts: Seq<u8>)
    requires
        snapshot_header(ts).len() <= b.len(),
        b.subrange(0, snapshot_header(ts).len() as int) == snapshot_header(ts),
        no_crlf(ts),
        ts != keys_values_word(),
    ensures
        skip_header(b, 0) == Some(snapshot_header(ts).len() as int),
{
    let h = snapshot_header(ts);
    let c = crlf();
    lemma_word_lines();
    let line0 = 0int;
    let line1 = line0 + 58;
    let line2 = line1 + 7;
    let line3 = line2 + 6;
    let line4 = line3 + 58;
    let line5 = line4 + ts.len() + 2;
    let line6 = line5 + 58;
    assert(h.len() == line6 + 13);
    assert(h.subrange(line0, line1) =~= dashes() + c);
    assert(h.subrange(line1, line2) =~= redis_word() + c);
    assert(h.subrange(line2, line3) =~= version_word() + c);
    assert(h.subrange(line3, line4) =~= dashes() + c);
    assert(h.subrange(line4, line5) =~= ts + c);
    assert(h.subrange(line5, line6) =~= dashes() + c);
    assert(h.subrange(line6, line6 + 13) =~= keys_values_word() + c);
    lemma_sub_of(b, h, line0, line1);
    lemma_sub_of(b, h, line1, line2);
    lemma_sub_of(b, h, line2, line3);
    lemma_sub_of(b, h, line3, line4);
    lemma_sub_of(b, h, line4, line5);
    lemma_sub_of(b, h, line5, line6);
    lemma_sub_of(b, h, line6, line6 + 13);
    lemma_skip_line(b, line0, dashes());
    lemma_skip_line(b, line1, redis_word());
    lemma_skip_line(b, line2, version_word());
    lemma_skip_line(b, line3, dashes());
    lemma_skip_line(b, line4, ts);
    lemma_skip_line(b, line5, dashes());
    lemma_skip_line(b, line6, keys_values_word());
}

/// Storing the records of distinct keys in order into an empty keyspace gives
/// the keyspace and expiration index of the entries.
proof fn lemma_apply_records(es: Seq<Entry>)
    requires
        keys_unique(es),
    ensures
        apply_keyspace(Map::empty(), records_of(es)) == keyspace_of(es),
        apply_expirations(Map::empty(), records_of(es)) == expirations_of(es),
    decreases es.len(),
{
    if es.len() == 0 {
        assert(keyspace_of(es) =~= Map::<Seq<char>, Value>::empty());
        assert(expirations_of(es) =~= Map::<Seq<char>, u128>::empty());
    } else {
        let init = es.drop_last();
        let e = es.last();
        assert(keys_unique(init));
        lemma_apply_records(init);
        assert(records_of(es).drop_last() =~= records_of(init));
        assert(!has_key(init, e.key@)) by {
            if has_key(init, e.key@) {
                let j = choose|j: int| 0 <= j < init.len() && init[j].key@ == e.key@;
                assert(es[j].key@ != es[es.len() - 1].key@);
            }
        }
        lemma_push_entry(init, e);
        assert(init.push(e) =~= es);
        assert(!expirations_of(init).contains_key(e.key@));
        assert(expirations_of(init).remove(e.key@) =~= expirations_of(init));
    }
}

/// Snapshot round trip: reading back, into an empty keyspace, the snapshot
/// that a keyspace of integers, strings and flat lists gives, with keys
/// without CRLF and any time line without CRLF other than `KEYS-VALUES`,
/// restores every value and every expiration time.
pub proof fn law_snapshot_round_trip(db: Db, ts: Seq<char>)
    requires
        db.wf(),
        forall|t: int| 0 <= t < db.entries().len() ==> entry_fits(#[trigger] db.entries()[t]),
        no_crlf(encode_utf8(ts)),
        encode_utf8(ts) != keys_values_word(),
    ensures
        ({
            let (records, complete) = load_records(snapshot_text(db.entries(), encode_utf8(ts)));
            &&& complete
            &&& apply_keyspace(Map::empty(), records) == db.keyspace()
            &&& apply_expirations(Map::empty(), records) == db.expirations()
        }),
{
    let es = db.entries();
    let tsb = encode_utf8(ts);
    let h = snapshot_header(tsb);
    let d = dashes() + crlf();
    let tail = snapshot_tail(es);
    let b = snapshot_text(es, tsb);
    lemma_snapshot_tail(es);
    assert(b =~= h + (entries_text(es) + eof_block()));
    assert(b =~= h + (d + tail));
    assert(b.subrange(0, h.len() as int) =~= h);
    lemma_skip_header(b, tsb);
    lemma_word_lines();
    assert(b.subrange(h.len() as int, h.len() as int + 58) =~= dashes() + crlf());
    lemma_line(b, h.len() as int, dashes());
    let j = h.len() as int + 58;
    assert(b.subrange(j, b.len() as int) =~= tail);
    lemma_entries_from(b, j, es);
    lemma_apply_records(es);
}

} // verus!
