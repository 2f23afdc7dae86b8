//! The command dispatcher: a command name and its arguments are checked and
//! turned into a store operation and a reply.
use vstd::prelude::*;
use vstd::utf8::{decode_utf8, encode_utf8, valid_utf8};
use crate::db::{
    count_distinct_present, count_present, decrement, delete, decremented, exists_count, get,
    incremented, increment, key_views, list_at, lpush, rpush, Db,
};
use crate::decimal::{i64_of_text, i64_string, int_chars, parse_i64, parse_u64, u64_of_text, usize_string};
use crate::snapshot::{all_flat, snapshot_at, snapshot_text, utc_text_of};
use crate::text::utf8_text;
use crate::types::{lemma_wires_of, values_of, wires_of, RESPResult, Value, Wire, DB_TYPE};

verus! {

/// The text of an argument: it must be a bulk string of valid UTF-8.
pub open spec fn text_arg(w: Wire) -> Result<Seq<char>, Seq<char>> {
    match w {
        Wire::Bulk(Some(b)) => if valid_utf8(b) {
            Ok(decode_utf8(b))
        } else {
            Err("Invalid UTF-8"@)
        },
        _ => Err("Error: Not bulk string"@),
    }
}

/// The value that a textual argument is stored as: an integer when its text is
/// a signed 64-bit decimal, a string otherwise.
pub open spec fn stored_arg(w: Wire) -> Result<Value, Seq<char>> {
    match text_arg(w) {
        Ok(t) => match i64_of_text(w->Bulk_0->Some_0) {
            Some(n) => Ok(Value::Int(n)),
            None => Ok(Value::Str(t)),
        },
        Err(m) => Err(m),
    }
}

/// The texts of several arguments, or the error of the first that has none.
pub open spec fn text_args(args: Seq<Wire>) -> Result<Seq<Seq<char>>, Seq<char>>
    decreases args.len(),
{
    if args.len() == 0 {
        Ok(Seq::empty())
    } else {
        match text_args(args.drop_last()) {
            Err(m) => Err(m),
            Ok(ks) => match text_arg(args.last()) {
                Err(m) => Err(m),
                Ok(k) => Ok(ks.push(k)),
            },
        }
    }
}

/// The stored values of several arguments, or the error of the first that has
/// none.
pub open spec fn stored_args(args: Seq<Wire>) -> Result<Seq<Value>, Seq<char>>
    decreases args.len(),
{
    if args.len() == 0 {
        Ok(Seq::empty())
    } else {
        match stored_args(args.drop_last()) {
            Err(m) => Err(m),
            Ok(vs) => match stored_arg(args.last()) {
                Err(m) => Err(m),
                Ok(v) => Ok(vs.push(v)),
            },
        }
    }
}

/// The state is left as it was.
pub open spec fn unchanged(a: Db, b: Db) -> bool {
    a.keyspace() == b.keyspace() && a.expirations() == b.expirations()
}

/// The views of a string result.
pub open spec fn text_result(r: Result<String, String>) -> Result<Seq<char>, Seq<char>> {
    match r {
        Ok(s) => Ok(s@),
        Err(e) => Err(e@),
    }
}

/// The views of a count result.
pub open spec fn count_result(r: Result<usize, String>) -> Result<int, Seq<char>> {
    match r {
        Ok(n) => Ok(n as int),
        Err(e) => Err(e@),
    }
}

/// ECHO: the text of its one argument.
pub open spec fn echo_reply(args: Seq<Wire>) -> Result<Seq<char>, Seq<char>> {
    if args.len() != 1 {
        Err("Incorrect number of arguments for echo"@)
    } else {
        text_arg(args[0])
    }
}

/// The absolute expiration time that a SET mode gives to `t` at time `now`.
pub open spec fn expiry_of(mode: Seq<char>, t: u64, now: u128) -> Result<u128, Seq<char>> {
    if mode == "EX"@ {
        if now + t * 1000 <= u128::MAX {
            Ok((now + t * 1000) as u128)
        } else {
            Err("value is not an integer or out of range"@)
        }
    } else if mode == "PX"@ {
        if now + t <= u128::MAX {
            Ok((now + t) as u128)
        } else {
            Err("value is not an integer or out of range"@)
        }
    } else if mode == "EXAT"@ {
        Ok((t * 1000) as u128)
    } else if mode == "PXAT"@ {
        Ok(t as u128)
    } else {
        Err("Optional argument not understood"@)
    }
}

/// The mode argument of SET.
pub open spec fn mode_arg(w: Wire) -> Result<Seq<char>, Seq<char>> {
    match w {
        Wire::Bulk(Some(b)) => text_arg(w),
        _ => Err("Error: Not bulk string"@),
    }
}

/// The time argument of SET: an unsigned decimal.
pub open spec fn time_arg(w: Wire) -> Result<u64, Seq<char>> {
    match w {
        Wire::Bulk(Some(b)) => match u64_of_text(b) {
            Some(t) => Ok(t),
            None => Err("value is not an integer or out of range"@),
        },
        _ => Err("Error: Not bulk string"@),
    }
}

/// What SET stores: key, value and expiration time (0 for none).
pub open spec fn set_plan(args: Seq<Wire>, now: u128) -> Result<(Seq<char>, Value, u128), Seq<char>> {
    if args.len() != 2 && args.len() != 4 {
        Err("Missing key/value for SET"@)
    } else {
        match text_arg(args[0]) {
            Err(m) => Err(m),
            Ok(k) => match stored_arg(args[1]) {
                Err(m) => Err(m),
                Ok(v) => if args.len() == 2 {
                    Ok((k, v, 0u128))
                } else {
                    match mode_arg(args[2]) {
                        Err(m) => Err(m),
                        Ok(mode) => match time_arg(args[3]) {
                            Err(m) => Err(m),
                            Ok(t) => match expiry_of(mode, t, now) {
                                Err(m) => Err(m),
                                Ok(at) => Ok((k, v, at)),
                            },
                        },
                    }
                },
            },
        }
    }
}

/// SET took effect as planned, with reply "OK", or failed with no effect.
pub open spec fn set_done(a: Db, b: Db, args: Seq<Wire>, now: u128, r: Result<Seq<char>, Seq<char>>) -> bool {
    match set_plan(args, now) {
        Ok((k, v, t)) => r == Ok::<Seq<char>, Seq<char>>("OK"@) && b.keyspace() == a.keyspace().insert(k, v)
            && b.expirations() == (if t > 0 {
            a.expirations().insert(k, t)
        } else {
            a.expirations()
        }),
        Err(m) => r == Err::<Seq<char>, Seq<char>>(m) && unchanged(a, b),
    }
}

/// How GET shows a value: an integer in decimal, a string as it is, an absent
/// key as the empty text.
pub open spec fn shown(v: Option<Value>) -> Result<Seq<char>, Seq<char>> {
    match v {
        None => Ok(Seq::empty()),
        Some(Value::Int(n)) => Ok(int_chars(n as int)),
        Some(Value::Str(s)) => Ok(s),
        Some(Value::List(_)) => Err("Cannot unpack DB_TYPE"@),
    }
}

/// GET read its key, with lazy expiration, or failed with no effect.
pub open spec fn get_done(a: Db, b: Db, args: Seq<Wire>, now: u128, r: Result<Seq<char>, Seq<char>>) -> bool {
    if args.len() != 1 {
        r == Err::<Seq<char>, Seq<char>>("Missing key/value for GET"@) && unchanged(a, b)
    } else {
        match text_arg(args[0]) {
            Err(m) => r == Err::<Seq<char>, Seq<char>>(m) && unchanged(a, b),
            Ok(k) => r == shown(a.read(k, now)) && b.keyspace() == a.keyspace_after_read(k, now)
                && b.expirations() == a.expirations_after_read(k, now),
        }
    }
}

/// EXISTS counted its keys, each time listed, with no effect.
pub open spec fn exists_done(a: Db, b: Db, args: Seq<Wire>, r: Result<int, Seq<char>>) -> bool {
    unchanged(a, b) && if args.len() == 0 {
        r == Err::<int, Seq<char>>("Missing key/value for EXISTS"@)
    } else {
        match text_args(args) {
            Err(m) => r == Err::<int, Seq<char>>(m),
            Ok(ks) => r == Ok::<int, Seq<char>>(count_present(a.keyspace().dom(), ks) as int),
        }
    }
}

/// DEL removed its keys and counted the distinct ones present, or failed with
/// no effect.
pub open spec fn delete_done(a: Db, b: Db, args: Seq<Wire>, r: Result<int, Seq<char>>) -> bool {
    if args.len() == 0 {
        r == Err::<int, Seq<char>>("Missing key/value for DEL"@) && unchanged(a, b)
    } else {
        match text_args(args) {
            Err(m) => r == Err::<int, Seq<char>>(m) && unchanged(a, b),
            Ok(ks) => r == Ok::<int, Seq<char>>(count_distinct_present(a.keyspace().dom(), ks) as int)
                && b.keyspace() == a.keyspace().remove_keys(ks.to_set()) && b.expirations()
                == a.expirations().remove_keys(ks.to_set()),
        }
    }
}

/// INCR (or DECR, when `down`) stored the new integer with reply "OK", or failed.
pub open spec fn step_done(
    a: Db,
    b: Db,
    args: Seq<Wire>,
    now: u128,
    down: bool,
    r: Result<Seq<char>, Seq<char>>,
) -> bool {
    if args.len() != 1 {
        r == Err::<Seq<char>, Seq<char>>(
            if down {
                "Missing key/value for DECR"@
            } else {
                "Missing key/value for INCR"@
            },
        ) && unchanged(a, b)
    } else {
        match text_arg(args[0]) {
            Err(m) => r == Err::<Seq<char>, Seq<char>>(m) && unchanged(a, b),
            Ok(k) => b.expirations() == a.expirations_after_read(k, now) && match (if down {
                decremented(a.read(k, now))
            } else {
                incremented(a.read(k, now))
            }) {
                Some(n) => r == Ok::<Seq<char>, Seq<char>>("OK"@) && b.keyspace() == a.keyspace_after_read(
                    k,
                    now,
                ).insert(k, Value::Int(n)),
                None => r == Err::<Seq<char>, Seq<char>>("value is not an integer or out of range"@)
                    && b.keyspace() == a.keyspace_after_read(k, now),
            },
        }
    }
}

/// LPUSH (or RPUSH, when `right`) extended the list with reply its new length in
/// decimal, or failed with no effect.
pub open spec fn push_done(a: Db, b: Db, args: Seq<Wire>, right: bool, r: Result<Seq<char>, Seq<char>>) -> bool {
    if args.len() < 2 {
        r == Err::<Seq<char>, Seq<char>>(
            if right {
                "Missing key/value for RPUSH"@
            } else {
                "Missing key/value for LPUSH"@
            },
        ) && unchanged(a, b)
    } else {
        match text_arg(args[0]) {
            Err(m) => r == Err::<Seq<char>, Seq<char>>(m) && unchanged(a, b),
            Ok(k) => match stored_args(args.drop_first()) {
                Err(m) => r == Err::<Seq<char>, Seq<char>>(m) && unchanged(a, b),
                Ok(vs) => match list_at(a.keyspace(), k) {
                    None => r == Err::<Seq<char>, Seq<char>>("Not an array"@) && unchanged(a, b),
                    Some(xs) => {
                        let n = if right {
                            xs + vs
                        } else {
                            vs.reverse() + xs
                        };
                        &&& r == Ok::<Seq<char>, Seq<char>>(int_chars(n.len() as int))
                        &&& b.keyspace() == a.keyspace().insert(k, Value::List(n))
                        &&& b.expirations() == a.expirations()
                    },
                },
            },
        }
    }
}

fn text(s: &str) -> (r: String)
    ensures
        r@ == s@,
{
    s.to_owned()
}

/// The text of an argument.
pub fn text_of(arg: &RESPResult) -> (r: Result<String, String>)
    ensures
        text_result(r) == text_arg(arg@),
{
    match arg {
        RESPResult::BulkString(Some(b)) => match utf8_text(b.as_slice()) {
            Some(s) => Ok(s),
            None => Err(text("Invalid UTF-8")),
        },
        _ => Err(text("Error: Not bulk string")),
    }
}

/// The stored value of an argument.
pub fn stored_of(arg: &RESPResult) -> (r: Result<DB_TYPE, String>)
    ensures
        match r {
            Ok(v) => stored_arg(arg@) == Ok::<Value, Seq<char>>(v@),
            Err(e) => stored_arg(arg@) == Err::<Value, Seq<char>>(e@),
        },
{
    let t = match text_of(arg) {
        Ok(t) => t,
        Err(e) => return Err(e),
    };
    match arg {
        RESPResult::BulkString(Some(b)) => match parse_i64(b.as_slice(), 0, b.len()) {
            Some(n) => {
                assert(b@.subrange(0, b@.len() as int) =~= b@);
                Ok(DB_TYPE::Int(n))
            },
            None => {
                assert(b@.subrange(0, b@.len() as int) =~= b@);
                Ok(DB_TYPE::Str(t))
            },
        },
        _ => Err(t),
    }
}

fn texts_of(data: &[RESPResult], from: usize) -> (r: Result<Vec<String>, String>)
    requires
        from <= data@.len(),
    ensures
        match text_args(wires_of(data@).subrange(from as int, data@.len() as int)) {
            Ok(ks) => r matches Ok(v) && key_views(v@) == ks && v@.len() == data@.len() - from,
            Err(m) => r matches Err(e) && e@ == m,
        },
{
    let ghost ws = wires_of(data@).subrange(from as int, data@.len() as int);
    proof {
        lemma_wires_of(data@);
    }
    let mut out: Vec<String> = Vec::new();
    let mut i: usize = from;
    assert(ws.subrange(0, 0) =~= Seq::<Wire>::empty());
    assert(key_views(out@) =~= Seq::<Seq<char>>::empty());
    while i < data.len()
        invariant
            from <= i <= data@.len(),
            ws == wires_of(data@).subrange(from as int, data@.len() as int),
            wires_of(data@).len() == data@.len(),
            forall|t: int| 0 <= t < data@.len() ==> #[trigger] wires_of(data@)[t] == data@[t]@,
            text_args(ws.subrange(0, i - from)) == Ok::<Seq<Seq<char>>, Seq<char>>(key_views(out@)),
            out@.len() == i - from,
        decreases data@.len() - i,
    {
        let ghost pre = ws.subrange(0, i - from);
        let ghost next = ws.subrange(0, i - from + 1);
        assert(next.drop_last() =~= pre);
        assert(next.last() == data@[i as int]@);
        match text_of(&data[i]) {
            Ok(s) => {
                let ghost before = out@;
                out.push(s);
                assert(key_views(out@) =~= key_views(before).push(s@));
            },
            Err(e) => {
                proof {
                    lemma_text_args_prefix_err(ws, i - from + 1);
                }
                return Err(e);
            },
        }
        i = i + 1;
    }
    assert(ws.subrange(0, i - from) =~= ws);
    Ok(out)
}

proof fn lemma_text_args_prefix_err(ws: Seq<Wire>, n: int)
    requires
        0 <= n <= ws.len(),
        text_args(ws.subrange(0, n)) is Err,
    ensures
        text_args(ws) == text_args(ws.subrange(0, n)),
    decreases ws.len() - n,
{
    if n < ws.len() {
        let next = ws.subrange(0, n + 1);
        assert(next.drop_last() =~= ws.subrange(0, n));
        lemma_text_args_prefix_err(ws, n + 1);
    } else {
        assert(ws.subrange(0, n) =~= ws);
    }
}

proof fn lemma_stored_args_prefix_err(ws: Seq<Wire>, n: int)
    requires
        0 <= n <= ws.len(),
        stored_args(ws.subrange(0, n)) is Err,
    ensures
        stored_args(ws) == stored_args(ws.subrange(0, n)),
    decreases ws.len() - n,
{
    if n < ws.len() {
        let next = ws.subrange(0, n + 1);
        assert(next.drop_last() =~= ws.subrange(0, n));
        lemma_stored_args_prefix_err(ws, n + 1);
    } else {
        assert(ws.subrange(0, n) =~= ws);
    }
}

fn stored_values_of(data: &[RESPResult], from: usize) -> (r: Result<Vec<DB_TYPE>, String>)
    requires
        from <= data@.len(),
    ensures
        match stored_args(wires_of(data@).subrange(from as int, data@.len() as int)) {
            Ok(vs) => r matches Ok(v) && values_of(v@) == vs,
            Err(m) => r matches Err(e) && e@ == m,
        },
{
    let ghost ws = wires_of(data@).subrange(from as int, data@.len() as int);
    proof {
        lemma_wires_of(data@);
    }
    let mut out: Vec<DB_TYPE> = Vec::new();
    let mut i: usize = from;
    assert(ws.subrange(0, 0) =~= Seq::<Wire>::empty());
    assert(values_of(out@) =~= Seq::<Value>::empty());
    while i < data.len()
        invariant
            from <= i <= data@.len(),
            ws == wires_of(data@).subrange(from as int, data@.len() as int),
            wires_of(data@).len() == data@.len(),
            forall|t: int| 0 <= t < data@.len() ==> #[trigger] wires_of(data@)[t] == data@[t]@,
            stored_args(ws.subrange(0, i - from)) == Ok::<Seq<Value>, Seq<char>>(values_of(out@)),
        decreases data@.len() - i,
    {
        let ghost pre = ws.subrange(0, i - from);
        let ghost next = ws.subrange(0, i - from + 1);
        assert(next.drop_last() =~= pre);
        assert(next.last() == data@[i as int]@);
        match stored_of(&data[i]) {
            Ok(v) => {
                let ghost before = out@;
                out.push(v);
                assert(out@.drop_last() =~= before);
            },
            Err(e) => {
                proof {
                    lemma_stored_args_prefix_err(ws, i - from + 1);
                }
                return Err(e);
            },
        }
        i = i + 1;
    }
    assert(ws.subrange(0, i - from) =~= ws);
    Ok(out)
}

/// ECHO: replies with the text of its one argument.
pub fn echo_command(data: &[RESPResult]) -> (r: Result<String, String>)
    ensures
        text_result(r) == echo_reply(wires_of(data@)),
{
    proof {
        lemma_wires_of(data@);
    }
    if data.len() != 1 {
        return Err(text("Incorrect number of arguments for echo"));
    }
    text_of(&data[0])
}

fn mode_of(arg: &RESPResult) -> (r: Result<String, String>)
    ensures
        text_result(r) == mode_arg(arg@),
{
    match arg {
        RESPResult::BulkString(Some(_)) => text_of(arg),
        _ => Err(text("Error: Not bulk string")),
    }
}

fn time_of(arg: &RESPResult) -> (r: Result<u64, String>)
    ensures
        match r {
            Ok(t) => time_arg(arg@) == Ok::<u64, Seq<char>>(t),
            Err(e) => time_arg(arg@) == Err::<u64, Seq<char>>(e@),
        },
{
    match arg {
        RESPResult::BulkString(Some(b)) => {
            assert(b@.subrange(0, b@.len() as int) =~= b@);
            match parse_u64(b.as_slice(), 0, b.len()) {
                Some(t) => Ok(t),
                None => Err(text("value is not an integer or out of range")),
            }
        },
        _ => Err(text("Error: Not bulk string")),
    }
}

fn expiry(mode: &String, t: u64, now: u128) -> (r: Result<u128, String>)
    ensures
        match r {
            Ok(at) => expiry_of(mode@, t, now) == Ok::<u128, Seq<char>>(at),
            Err(e) => expiry_of(mode@, t, now) == Err::<u128, Seq<char>>(e@),
        },
{
    let ex = text("EX");
    let px = text("PX");
    let exat = text("EXAT");
    let pxat = text("PXAT");
    let ms: u128 = t as u128 * 1000;
    if *mode == ex {
        if now > u128::MAX - ms {
            Err(text("value is not an integer or out of range"))
        } else {
            Ok(now + ms)
        }
    } else if *mode == px {
        if now > u128::MAX - t as u128 {
            Err(text("value is not an integer or out of range"))
        } else {
            Ok(now + t as u128)
        }
    } else if *mode == exat {
        Ok(ms)
    } else if *mode == pxat {
        Ok(t as u128)
    } else {
        Err(text("Optional argument not understood"))
    }
}

/// SET key value [EX|PX|EXAT|PXAT t]: stores the value, an integer when its
/// text is one, with the expiration time that the mode gives.
pub fn set_command(db: &mut Db, data: &[RESPResult], now: u128) -> (r: Result<String, String>)
    requires
        old(db).wf(),
    ensures
        final(db).wf(),
        set_done(*old(db), *final(db), wires_of(data@), now, text_result(r)),
{
    proof {
        lemma_wires_of(data@);
    }
    if data.len() != 2 && data.len() != 4 {
        return Err(text("Missing key/value for SET"));
    }
    let key = match text_of(&data[0]) {
        Ok(k) => k,
        Err(e) => return Err(e),
    };
    let value = match stored_of(&data[1]) {
        Ok(v) => v,
        Err(e) => return Err(e),
    };
    let mut t: u128 = 0;
    if data.len() == 4 {
        let mode = match mode_of(&data[2]) {
            Ok(m) => m,
            Err(e) => return Err(e),
        };
        let n = match time_of(&data[3]) {
            Ok(n) => n,
            Err(e) => return Err(e),
        };
        t = match expiry(&mode, n, now) {
            Ok(at) => at,
            Err(e) => return Err(e),
        };
    }
    crate::db::set(db, key, value, t)
}

/// GET key: the key's value as text, the empty text when it is absent or has
/// expired.
pub fn get_command(db: &mut Db, data: &[RESPResult], now: u128) -> (r: Result<String, String>)
    requires
        old(db).wf(),
    ensures
        final(db).wf(),
        get_done(*old(db), *final(db), wires_of(data@), now, text_result(r)),
{
    proof {
        lemma_wires_of(data@);
    }
    if data.len() != 1 {
        return Err(text("Missing key/value for GET"));
    }
    let key = match text_of(&data[0]) {
        Ok(k) => k,
        Err(e) => return Err(e),
    };
    match get(db, key.as_str(), now) {
        Some(DB_TYPE::Int(i)) => Ok(i64_string(i)),
        Some(DB_TYPE::Str(s)) => Ok(s),
        Some(DB_TYPE::Array(_)) => Err(text("Cannot unpack DB_TYPE")),
        None => Ok(String::new()),
    }
}

/// EXISTS key...: how many of the keys are present, each counted as often as
/// it is listed.
pub fn exists_command(db: &Db, data: &[RESPResult]) -> (r: Result<usize, String>)
    requires
        db.wf(),
    ensures
        exists_done(*db, *db, wires_of(data@), count_result(r)),
        r matches Ok(n) ==> n <= data@.len(),
{
    if data.len() == 0 {
        return Err(text("Missing key/value for EXISTS"));
    }
    assert(wires_of(data@).subrange(0, data@.len() as int) =~= wires_of(data@)) by {
        lemma_wires_of(data@);
    }
    let keys = match texts_of(data, 0) {
        Ok(k) => k,
        Err(e) => return Err(e),
    };
    Ok(exists_count(db, keys))
}

/// DEL key...: removes the keys and counts the distinct ones that were present.
pub fn delete_command(db: &mut Db, data: &[RESPResult]) -> (r: Result<usize, String>)
    requires
        old(db).wf(),
    ensures
        final(db).wf(),
        delete_done(*old(db), *final(db), wires_of(data@), count_result(r)),
        r matches Ok(n) ==> n <= data@.len(),
{
    if data.len() == 0 {
        return Err(text("Missing key/value for DEL"));
    }
    assert(wires_of(data@).subrange(0, data@.len() as int) =~= wires_of(data@)) by {
        lemma_wires_of(data@);
    }
    let keys = match texts_of(data, 0) {
        Ok(k) => k,
        Err(e) => return Err(e),
    };
    Ok(delete(db, keys))
}

/// INCR key.
pub fn increment_command(db: &mut Db, data: &[RESPResult], now: u128) -> (r: Result<String, String>)
    requires
        old(db).wf(),
    ensures
        final(db).wf(),
        step_done(*old(db), *final(db), wires_of(data@), now, false, text_result(r)),
{
    proof {
        lemma_wires_of(data@);
    }
    if data.len() != 1 {
        return Err(text("Missing key/value for INCR"));
    }
    let key = match text_of(&data[0]) {
        Ok(k) => k,
        Err(e) => return Err(e),
    };
    increment(db, key.as_str(), now)
}

/// DECR key.
pub fn decrement_command(db: &mut Db, data: &[RESPResult], now: u128) -> (r: Result<String, String>)
    requires
        old(db).wf(),
    ensures
        final(db).wf(),
        step_done(*old(db), *final(db), wires_of(data@), now, true, text_result(r)),
{
    proof {
        lemma_wires_of(data@);
    }
    if data.len() != 1 {
        return Err(text("Missing key/value for DECR"));
    }
    let key = match text_of(&data[0]) {
        Ok(k) => k,
        Err(e) => return Err(e),
    };
    decrement(db, key.as_str(), now)
}

fn push_command(db: &mut Db, data: &[RESPResult], right: bool) -> (r: Result<String, String>)
    requires
        old(db).wf(),
    ensures
        final(db).wf(),
        push_done(*old(db), *final(db), wires_of(data@), right, text_result(r)),
{
    proof {
        lemma_wires_of(data@);
    }
    if data.len() < 2 {
        if right {
            return Err(text("Missing key/value for RPUSH"));
        } else {
            return Err(text("Missing key/value for LPUSH"));
        }
    }
    let key = match text_of(&data[0]) {
        Ok(k) => k,
        Err(e) => return Err(e),
    };
    assert(wires_of(data@).subrange(1, data@.len() as int) =~= wires_of(data@).drop_first());
    let values = match stored_values_of(data, 1) {
        Ok(v) => v,
        Err(e) => return Err(e),
    };
    let pushed = if right {
        rpush(db, key.as_str(), values)
    } else {
        lpush(db, key.as_str(), values)
    };
    match pushed {
        Ok(n) => Ok(usize_string(n)),
        Err(e) => Err(e),
    }
}

/// LPUSH key value...: prepends the values one at a time.
pub fn lpush_command(db: &mut Db, data: &[RESPResult]) -> (r: Result<String, String>)
    requires
        old(db).wf(),
    ensures
        final(db).wf(),
        push_done(*old(db), *final(db), wires_of(data@), false, text_result(r)),
{
    push_command(db, data, false)
}

/// RPUSH key value...: appends the values in order.
pub fn rpush_command(db: &mut Db, data: &[RESPResult]) -> (r: Result<String, String>)
    requires
        old(db).wf(),
    ensures
        final(db).wf(),
        push_done(*old(db), *final(db), wires_of(data@), true, text_result(r)),
{
    push_command(db, data, true)
}

/// LOAD path: the path of the snapshot file to read.
pub open spec fn load_path(args: Seq<Wire>) -> Result<Seq<char>, Seq<char>> {
    if args.len() != 1 {
        Err("Error: only provide path when loading: LOAD ./file.rdb"@)
    } else {
        text_arg(args[0])
    }
}

/// LOAD path: checks the arguments and gives the path to read.
pub fn load_command(data: &[RESPResult]) -> (r: Result<String, String>)
    ensures
        text_result(r) == load_path(wires_of(data@)),
{
    proof {
        lemma_wires_of(data@);
    }
    if data.len() != 1 {
        return Err(text("Error: only provide path when loading: LOAD ./file.rdb"));
    }
    text_of(&data[0])
}

/// SAVE: the snapshot text of the keyspace, stamped with the time `now`.
pub fn save_command(db: &Db, now: u128) -> (r: Result<Vec<u8>, String>)
    ensures
        r matches Ok(b) ==> all_flat(db.entries()) && b@ == snapshot_text(
            db.entries(),
            encode_utf8(utc_text_of(now as int)),
        ),
        !all_flat(db.entries()) ==> (r matches Err(e) && e@ == "nested arrays are not supported"@),
        all_flat(db.entries()) && now <= 8_000_000_000_000_000 ==> r is Ok,
{
    snapshot_at(db, now)
}

/// What a routed command asks for: a reply, a snapshot to be written, or a
/// snapshot file to be read.
#[derive(Debug, PartialEq)]
pub enum Outcome {
    Reply(RESPResult),
    Save(Vec<u8>),
    Load(String),
}

/// The text of a simple-string reply, or of an error.
pub open spec fn simple_reply(r: Result<Outcome, String>) -> Option<Result<Seq<char>, Seq<char>>> {
    match r {
        Ok(Outcome::Reply(RESPResult::SimpleString(s))) => Some(Ok(s@)),
        Err(e) => Some(Err(e@)),
        _ => None,
    }
}

/// The number of an integer reply, or the text of an error.
pub open spec fn integer_reply(r: Result<Outcome, String>) -> Option<Result<int, Seq<char>>> {
    match r {
        Ok(Outcome::Reply(RESPResult::Integer(i))) => Some(Ok(i as int)),
        Err(e) => Some(Err(e@)),
        _ => None,
    }
}

/// The names of the commands.
pub open spec fn known_command(c: Seq<char>) -> bool {
    c == "PING"@ || c == "ECHO"@ || c == "SET"@ || c == "GET"@ || c == "EXISTS"@ || c == "DEL"@ || c
        == "INCR"@ || c == "DECR"@ || c == "LPUSH"@ || c == "RPUSH"@ || c == "SAVE"@ || c == "LOAD"@
}

fn simple(r: Result<String, String>) -> (o: Result<Outcome, String>)
    ensures
        simple_reply(o) == Some(text_result(r)),
{
    match r {
        Ok(s) => Ok(Outcome::Reply(RESPResult::SimpleString(s))),
        Err(e) => Err(e),
    }
}

fn integer(r: Result<usize, String>, bound: usize) -> (o: Result<Outcome, String>)
    requires
        bound <= i64::MAX,
        r matches Ok(n) ==> n <= bound,
    ensures
        integer_reply(o) == Some(count_result(r)),
{
    match r {
        Ok(n) => Ok(Outcome::Reply(RESPResult::Integer(n as i64))),
        Err(e) => Err(e),
    }
}

/// What routing command `c` with arguments `args` at time `now` does: `a` is
/// the state before, `b` after, `r` the outcome.
pub open spec fn routed(a: Db, b: Db, c: Seq<char>, args: Seq<Wire>, now: u128, r: Result<Outcome, String>) -> bool {
    &&& (c == "PING"@ ==> simple_reply(r) == Some(Ok::<Seq<char>, Seq<char>>("PONG"@)) && unchanged(a, b))
    &&& (c == "ECHO"@ ==> simple_reply(r) == Some(echo_reply(args)) && unchanged(a, b))
    &&& (c == "SET"@ ==> (simple_reply(r) matches Some(v) && set_done(a, b, args, now, v)))
    &&& (c == "GET"@ ==> (simple_reply(r) matches Some(v) && get_done(a, b, args, now, v)))
    &&& (c == "EXISTS"@ ==> (integer_reply(r) matches Some(v) && exists_done(a, b, args, v)))
    &&& (c == "DEL"@ ==> (integer_reply(r) matches Some(v) && delete_done(a, b, args, v)))
    &&& (c == "INCR"@ ==> (simple_reply(r) matches Some(v) && step_done(a, b, args, now, false, v)))
    &&& (c == "DECR"@ ==> (simple_reply(r) matches Some(v) && step_done(a, b, args, now, true, v)))
    &&& (c == "LPUSH"@ ==> (simple_reply(r) matches Some(v) && push_done(a, b, args, false, v)))
    &&& (c == "RPUSH"@ ==> (simple_reply(r) matches Some(v) && push_done(a, b, args, true, v)))
    &&& (c == "SAVE"@ ==> unchanged(a, b) && (r is Ok ==> (r matches Ok(Outcome::Save(bytes))
        && all_flat(a.entries()) && bytes@ == snapshot_text(a.entries(), encode_utf8(utc_text_of(now as int)))))
        && (!all_flat(a.entries()) ==> (r matches Err(e) && e@ == "nested arrays are not supported"@))
        && (all_flat(a.entries()) && now <= 8_000_000_000_000_000 ==> r is Ok))
    &&& (c == "LOAD"@ ==> unchanged(a, b) && match load_path(args) {
        Ok(p) => r matches Ok(Outcome::Load(s)) && s@ == p,
        Err(m) => r matches Err(e) && e@ == m,
    })
    &&& (!known_command(c) ==> (r matches Err(e) && e@ == "ERR unknown command"@ && unchanged(a, b)))
}

/// The length and first letter of each command name: no two names share both,
/// so the names are distinct.
proof fn lemma_command_names()
    ensures
        "ECHO"@.len() == 4 && "ECHO"@[0] == 'E',
        "SET"@.len() == 3 && "SET"@[0] == 'S',
        "GET"@.len() == 3 && "GET"@[0] == 'G',
        "PING"@.len() == 4 && "PING"@[0] == 'P',
        "EXISTS"@.len() == 6 && "EXISTS"@[0] == 'E',
        "DEL"@.len() == 3 && "DEL"@[0] == 'D',
        "INCR"@.len() == 4 && "INCR"@[0] == 'I',
        "DECR"@.len() == 4 && "DECR"@[0] == 'D',
        "LPUSH"@.len() == 5 && "LPUSH"@[0] == 'L',
        "RPUSH"@.len() == 5 && "RPUSH"@[0] == 'R',
        "SAVE"@.len() == 4 && "SAVE"@[0] == 'S',
        "LOAD"@.len() == 4 && "LOAD"@[0] == 'L',
{
    reveal_strlit("ECHO");
    reveal_strlit("SET");
    reveal_strlit("GET");
    reveal_strlit("PING");
    reveal_strlit("EXISTS");
    reveal_strlit("DEL");
    reveal_strlit("INCR");
    reveal_strlit("DECR");
    reveal_strlit("LPUSH");
    reveal_strlit("RPUSH");
    reveal_strlit("SAVE");
    reveal_strlit("LOAD");
}

/// Routes a command by its name (matched case-sensitively) to its operation.
pub fn command_router(db: &mut Db, command: &str, data: &[RESPResult], now: u128) -> (r: Result<Outcome, String>)
    requires
        old(db).wf(),
        data@.len() <= i64::MAX,
    ensures
        final(db).wf(),
        routed(*old(db), *final(db), command@, wires_of(data@), now, r),
{
    proof {
        lemma_command_names();
    }
    let c = text(command);
    if c == text("ECHO") {
        simple(echo_command(data))
    } else if c == text("SET") {
        simple(set_command(db, data, now))
    } else if c == text("GET") {
        simple(get_command(db, data, now))
    } else if c == text("PING") {
        Ok(Outcome::Reply(RESPResult::SimpleString(text("PONG"))))
    } else if c == text("EXISTS") {
        integer(exists_command(db, data), data.len())
    } else if c == text("DEL") {
        integer(delete_command(db, data), data.len())
    } else if c == text("INCR") {
        simple(increment_command(db, data, now))
    } else if c == text("DECR") {
        simple(decrement_command(db, data, now))
    } else if c == text("LPUSH") {
        simple(lpush_command(db, data))
    } else if c == text("RPUSH") {
        simple(rpush_command(db, data))
    } else if c == text("SAVE") {
        match save_command(db, now) {
            Ok(b) => Ok(Outcome::Save(b)),
            Err(e) => Err(e),
        }
    } else if c == text("LOAD") {
        match load_command(data) {
            Ok(p) => Ok(Outcome::Load(p)),
            Err(e) => Err(e),
        }
    } else {
        Err(text("ERR unknown command"))
    }
}

} // verus!
