//! Properties that hold across several operations.
use vstd::prelude::*;
use vstd::utf8::{decode_utf8, valid_utf8};
use crate::command::{
    delete_done, get_done, push_done, set_done, set_plan, step_done, stored_args, text_arg,
    text_args, unchanged,
};
use crate::db::{count_distinct_present, count_present, expired, Db};
use crate::decimal::{i64_of_text, int_chars};
use crate::types::{Value, Wire};

verus! {

/// The text that GET shows for a value stored by SET from these bytes.
pub open spec fn shown_text(s: Seq<u8>) -> Seq<char> {
    match i64_of_text(s) {
        Some(n) => int_chars(n as int),
        None => decode_utf8(s),
    }
}

/// GET after SET: SET k s then GET k gives s back as text; a decimal integer
/// comes back in its decimal form. This holds unless an expiration time that
/// `k` already had (SET keeps it) has passed by the time of the GET.
pub proof fn law_get_after_set(
    a: Db,
    b: Db,
    c: Db,
    k: Seq<u8>,
    s: Seq<u8>,
    set_at: u128,
    get_at: u128,
    r1: Result<Seq<char>, Seq<char>>,
    r2: Result<Seq<char>, Seq<char>>,
)
    requires
        valid_utf8(k),
        valid_utf8(s),
        set_done(a, b, seq![Wire::Bulk(Some(k)), Wire::Bulk(Some(s))], set_at, r1),
        get_done(b, c, seq![Wire::Bulk(Some(k))], get_at, r2),
        !expired(a.expirations(), decode_utf8(k), get_at),
    ensures
        r1 == Ok::<Seq<char>, Seq<char>>("OK"@),
        r2 == Ok::<Seq<char>, Seq<char>>(shown_text(s)),
{
    let key = decode_utf8(k);
    assert(b.keyspace().contains_key(key));
}

/// Expiration: once SET has stored `k` with expiration time `at`, GET at time
/// `t` sees the value while `t <= at` and nothing after.
pub proof fn law_expiration(
    a: Db,
    b: Db,
    c: Db,
    args: Seq<Wire>,
    set_at: u128,
    get_at: u128,
    r1: Result<Seq<char>, Seq<char>>,
    r2: Result<Seq<char>, Seq<char>>,
)
    requires
        set_done(a, b, args, set_at, r1),
        set_plan(args, set_at) matches Ok((k, v, at)) && at > 0,
        get_done(b, c, seq![Wire::Bulk(Some(args[0]->Bulk_0->Some_0))], get_at, r2),
    ensures
        ({
            let (k, v, at) = set_plan(args, set_at)->Ok_0;
            &&& get_at <= at ==> r2 == crate::command::shown(Some(v))
            &&& get_at > at ==> r2 == Ok::<Seq<char>, Seq<char>>(Seq::empty())
        }),
{
    let (k, v, at) = set_plan(args, set_at)->Ok_0;
    assert(text_arg(args[0]) == Ok::<Seq<char>, Seq<char>>(k));
    assert(b.expirations().contains_key(k));
}

/// `EX 1` at time `t` sets the expiration time to `t + 1000`, the same as
/// `PX 1000`.
pub proof fn law_ex_one_second(k: Seq<u8>, v: Seq<u8>, now: u128)
    requires
        valid_utf8(k),
        valid_utf8(v),
        now + 1000 <= u128::MAX,
    ensures
        set_plan(
            seq![Wire::Bulk(Some(k)), Wire::Bulk(Some(v)), Wire::Bulk(Some(seq![69u8, 88])), Wire::Bulk(Some(seq![49u8]))],
            now,
        ) matches Ok((_, _, at)) && at == now + 1000,
        set_plan(
            seq![Wire::Bulk(Some(k)), Wire::Bulk(Some(v)), Wire::Bulk(Some(seq![80u8, 88])), Wire::Bulk(Some(seq![49u8, 48, 48, 48]))],
            now,
        ) matches Ok((_, _, at)) && at == now + 1000,
{
    reveal_strlit("EX");
    reveal_strlit("PX");
    reveal_strlit("EXAT");
    reveal_strlit("PXAT");
    lemma_ascii_word(seq![69u8, 88]);
    lemma_ascii_word(seq![80u8, 88]);
    let one = seq![49u8];
    assert(one.drop_last() =~= Seq::<u8>::empty());
    let thousand = seq![49u8, 48, 48, 48];
    assert(thousand.drop_last() =~= seq![49u8, 48, 48]);
    assert(thousand.drop_last().drop_last() =~= seq![49u8, 48]);
    assert(thousand.drop_last().drop_last().drop_last() =~= seq![49u8]);
    assert(crate::decimal::digits_value(thousand) == 1000) by {
        reveal_with_fuel(crate::decimal::digits_value, 5);
    }
    assert(crate::decimal::digits_value(one) == 1);
    assert(crate::decimal::all_digits(one));
    assert(crate::decimal::all_digits(thousand));
    assert(crate::decimal::u64_of_text(one) == Some(1u64));
    assert(crate::decimal::u64_of_text(thousand) == Some(1000u64));
    assert(decode_utf8(seq![69u8, 88]) == "EX"@);
    assert(decode_utf8(seq![80u8, 88]) == "PX"@);
    assert("PX"@ != "EX"@) by {
        assert("PX"@[0] != "EX"@[0]);
    }
}

proof fn lemma_ascii_word(b: Seq<u8>)
    requires
        b.len() == 2,
        b[0] < 128,
        b[1] < 128,
    ensures
        valid_utf8(b),
        decode_utf8(b) == seq![b[0] as char, b[1] as char],
{
    let c = seq![b[0] as char, b[1] as char];
    vstd::utf8::is_ascii_chars_encode_utf8(c);
    assert(vstd::utf8::encode_utf8(c) =~= b) by {
        assert((b[0] as char) as u8 == b[0]);
        assert((b[1] as char) as u8 == b[1]);
    }
    vstd::utf8::encode_utf8_valid_utf8(c);
    vstd::utf8::encode_utf8_decode_utf8(c);
}

/// Without repeated keys, counting distinct keys is counting listed keys.
pub proof fn lemma_distinct_count(dom: Set<Seq<char>>, ks: Seq<Seq<char>>)
    requires
        ks.no_duplicates(),
    ensures
        count_distinct_present(dom, ks) == count_present(dom, ks),
    decreases ks.len(),
{
    if ks.len() > 0 {
        let init = ks.drop_last();
        assert(init.no_duplicates());
        assert(!init.contains(ks.last())) by {
            if init.contains(ks.last()) {
                let w = choose|w: int| 0 <= w < init.len() && init[w] == ks.last();
                assert(ks[w] == ks[ks.len() - 1]);
            }
        }
        lemma_distinct_count(dom, init);
    }
}

/// DEL: the count is the number of listed keys that were present (each key
/// listed once), and none of them is present afterwards.
pub proof fn law_delete_count(a: Db, b: Db, args: Seq<Wire>, r: Result<int, Seq<char>>)
    requires
        args.len() > 0,
        delete_done(a, b, args, r),
        text_args(args) matches Ok(ks) && ks.no_duplicates(),
    ensures
        ({
            let ks = text_args(args)->Ok_0;
            &&& r == Ok::<int, Seq<char>>(count_present(a.keyspace().dom(), ks) as int)
            &&& forall|i: int| 0 <= i < ks.len() ==> !b.keyspace().contains_key(#[trigger] ks[i])
        }),
{
    let ks = text_args(args)->Ok_0;
    lemma_distinct_count(a.keyspace().dom(), ks);
    assert forall|i: int| 0 <= i < ks.len() implies !b.keyspace().contains_key(#[trigger] ks[i]) by {
        assert(ks.to_set().contains(ks[i]));
    }
}

/// INCR and DECR on an absent key both store the integer 1.
pub proof fn law_step_absent(
    a: Db,
    b: Db,
    k: Seq<u8>,
    now: u128,
    down: bool,
    r: Result<Seq<char>, Seq<char>>,
)
    requires
        valid_utf8(k),
        !a.keyspace().contains_key(decode_utf8(k)),
        step_done(a, b, seq![Wire::Bulk(Some(k))], now, down, r),
    ensures
        r == Ok::<Seq<char>, Seq<char>>("OK"@),
        b.keyspace() == a.keyspace().insert(decode_utf8(k), Value::Int(1)),
{
    let key = decode_utf8(k);
    a.lemma_expirations_in_keyspace();
    assert(!a.expirations().contains_key(key));
    assert(a.keyspace_after_read(key, now) == a.keyspace());
}

/// INCR on a key that holds a string fails and changes nothing.
pub proof fn law_increment_string(
    a: Db,
    b: Db,
    k: Seq<u8>,
    now: u128,
    r: Result<Seq<char>, Seq<char>>,
)
    requires
        valid_utf8(k),
        a.read(decode_utf8(k), now) matches Some(Value::Str(_)),
        step_done(a, b, seq![Wire::Bulk(Some(k))], now, false, r),
    ensures
        r == Err::<Seq<char>, Seq<char>>("value is not an integer or out of range"@),
        unchanged(a, b),
{
}

/// LPUSH k v1 .. vn on an absent key leaves the values in reverse order, head
/// first; RPUSH leaves them in order.
pub proof fn law_push_order(
    a: Db,
    b: Db,
    k: Seq<u8>,
    values: Seq<Wire>,
    right: bool,
    r: Result<Seq<char>, Seq<char>>,
)
    requires
        valid_utf8(k),
        values.len() > 0,
        !a.keyspace().contains_key(decode_utf8(k)),
        stored_args(values) is Ok,
        push_done(a, b, seq![Wire::Bulk(Some(k))] + values, right, r),
    ensures
        ({
            let vs = stored_args(values)->Ok_0;
            b.keyspace()[decode_utf8(k)] == Value::List(if right { vs } else { vs.reverse() })
        }),
{
    let args = seq![Wire::Bulk(Some(k))] + values;
    assert(args.drop_first() =~= values);
    assert(args[0] == Wire::Bulk(Some(k)));
    let vs = stored_args(values)->Ok_0;
    assert(vs + Seq::<Value>::empty() =~= vs);
    assert(vs.reverse() + Seq::<Value>::empty() =~= vs.reverse());
}

proof fn lemma_repeated_increment(
    dbs: Seq<Db>,
    k: Seq<u8>,
    now: u128,
    rs: Seq<Result<Seq<char>, Seq<char>>>,
    n: int,
)
    requires
        valid_utf8(k),
        dbs.len() == rs.len() + 1,
        rs.len() < i64::MAX,
        !dbs[0].keyspace().contains_key(decode_utf8(k)),
        forall|i: int| 0 <= i < rs.len() ==> step_done(#[trigger] dbs[i], dbs[i + 1], seq![Wire::Bulk(Some(k))], now, false, rs[i]),
        1 <= n <= rs.len(),
    ensures
        dbs[n].keyspace().contains_key(decode_utf8(k)),
        dbs[n].keyspace()[decode_utf8(k)] == Value::Int(n as i64),
        !dbs[n].expirations().contains_key(decode_utf8(k)),
        rs[n - 1] == Ok::<Seq<char>, Seq<char>>("OK"@),
    decreases n,
{
    let key = decode_utf8(k);
    assert(step_done(dbs[n - 1], dbs[n], seq![Wire::Bulk(Some(k))], now, false, rs[n - 1]));
    if n == 1 {
        dbs[0].lemma_expirations_in_keyspace();
        assert(dbs[0].keyspace_after_read(key, now) == dbs[0].keyspace());
    } else {
        lemma_repeated_increment(dbs, k, now, rs, n - 1);
        assert(dbs[n - 1].read(key, now) == Some(Value::Int((n - 1) as i64)));
    }
}

/// Repeated INCR: n increments, one after another, of a key that was absent
/// leave it holding n, each one replying "OK". Concurrent clients get this
/// result when each command runs alone on the keyspace.
pub proof fn law_repeated_increment(
    dbs: Seq<Db>,
    k: Seq<u8>,
    now: u128,
    rs: Seq<Result<Seq<char>, Seq<char>>>,
)
    requires
        valid_utf8(k),
        dbs.len() == rs.len() + 1,
        rs.len() < i64::MAX,
        !dbs[0].keyspace().contains_key(decode_utf8(k)),
        forall|i: int| 0 <= i < rs.len() ==> step_done(#[trigger] dbs[i], dbs[i + 1], seq![Wire::Bulk(Some(k))], now, false, rs[i]),
    ensures
        forall|n: int| 1 <= n <= rs.len() ==> (#[trigger] dbs[n]).keyspace()[decode_utf8(k)] == Value::Int(n as i64)
            && rs[n - 1] == Ok::<Seq<char>, Seq<char>>("OK"@),
{
    assert forall|n: int| 1 <= n <= rs.len() implies (#[trigger] dbs[n]).keyspace()[decode_utf8(k)] == Value::Int(
        n as i64,
    ) && rs[n - 1] == Ok::<Seq<char>, Seq<char>>("OK"@) by {
        lemma_repeated_increment(dbs, k, now, rs, n);
    }
}

} // verus!
