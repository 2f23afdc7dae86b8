//! Requests that arrive from a connection as a list of words.
use vstd::prelude::*;
use vstd::utf8::encode_utf8;
use crate::command::{command_router, routed, Outcome};
use crate::db::Db;
use crate::decimal::{parse_u64, u64_of_text};
use crate::text::append_bytes;
use crate::types::{wires_of, RESPResult, Wire};

verus! {

/// Each word as a bulk string of its UTF-8 bytes.
pub open spec fn bulk_words(ws: Seq<Seq<char>>) -> Seq<Wire> {
    Seq::new(ws.len(), |i: int| Wire::Bulk(Some(encode_utf8(ws[i]))))
}

/// A bulk string that holds the bytes of `s`.
pub fn bulk_of(s: &String) -> (r: RESPResult)
    ensures
        r@ == Wire::Bulk(Some(encode_utf8(s@))),
{
    let mut b: Vec<u8> = Vec::new();
    append_bytes(&mut b, s.as_str().as_bytes());
    assert(b@ =~= encode_utf8(s@));
    RESPResult::BulkString(Some(b))
}

/// Routes a request given as words: the first names the command, the others
/// are its arguments, each as a bulk string.
pub fn read_network_input(db: &mut Db, commands: Vec<String>, now: u128) -> (r: Result<Outcome, String>)
    requires
        old(db).wf(),
        commands@.len() <= i64::MAX,
    ensures
        final(db).wf(),
        commands@.len() == 0 ==> (r matches Err(e) && e@ == "Empty array"@ && *final(db) == *old(db)),
        commands@.len() > 0 ==> routed(
            *old(db),
            *final(db),
            commands@[0]@,
            bulk_words(commands@.map_values(|s: String| s@)).drop_first(),
            now,
            r,
        ),
{
    if commands.len() == 0 {
        return Err("Empty array".to_string());
    }
    let ghost ws = commands@.map_values(|s: String| s@);
    let mut arguments: Vec<RESPResult> = Vec::new();
    let mut i: usize = 1;
    while i < commands.len()
        invariant
            1 <= i <= commands@.len(),
            ws == commands@.map_values(|s: String| s@),
            wires_of(arguments@) == bulk_words(ws).subrange(1, i as int),
            arguments@.len() == i - 1,
        decreases commands@.len() - i,
    {
        let a = bulk_of(&commands[i]);
        let ghost before = arguments@;
        arguments.push(a);
        proof {
            assert(arguments@.drop_last() =~= before);
            assert(bulk_words(ws).subrange(1, i + 1) =~= bulk_words(ws).subrange(1, i as int).push(a@));
        }
        i = i + 1;
    }
    assert(bulk_words(ws).subrange(1, i as int) =~= bulk_words(ws).drop_first());
    command_router(db, commands[0].as_str(), arguments.as_slice(), now)
}

pub open spec fn is_space(c: u8) -> bool {
    c == 32 || c == 9 || c == 10 || c == 13 || c == 11 || c == 12
}

/// `b[s..e]` is `b[1..]` without the white space at its ends.
pub open spec fn trimmed(b: Seq<u8>, s: int, e: int) -> bool {
    &&& 0 <= s <= e <= b.len()
    &&& forall|i: int| 1 <= i < s ==> is_space(#[trigger] b[i])
    &&& forall|i: int| e <= i < b.len() ==> is_space(#[trigger] b[i])
    &&& (s < e ==> !is_space(b[s]) && !is_space(b[e - 1]))
}

/// The count in a header line such as `*3` or `$5`: the number after the
/// first byte, with white space around it, as an unsigned decimal.
pub fn header_count(line: &[u8]) -> (r: Option<usize>)
    ensures
        line@.len() == 0 ==> r is None,
        line@.len() > 0 ==> exists|s: int, e: int|
            1 <= s && trimmed(line@, s, e) && match u64_of_text(line@.subrange(s, e)) {
                Some(n) => (n <= usize::MAX && r == Some(n as usize)) || (n > usize::MAX && r is None),
                None => r is None,
            },
{
    if line.len() == 0 {
        return None;
    }
    let mut s: usize = 1;
    while s < line.len() && (line[s] == 32 || line[s] == 9 || line[s] == 10 || line[s] == 13 || line[s] == 11
        || line[s] == 12)
        invariant
            1 <= s <= line@.len(),
            forall|i: int| 1 <= i < s ==> is_space(#[trigger] line@[i]),
        decreases line@.len() - s,
    {
        s = s + 1;
    }
    let mut e: usize = line.len();
    while e > s && (line[e - 1] == 32 || line[e - 1] == 9 || line[e - 1] == 10 || line[e - 1] == 13
        || line[e - 1] == 11 || line[e - 1] == 12)
        invariant
            s <= e <= line@.len(),
            forall|i: int| e <= i < line@.len() ==> is_space(#[trigger] line@[i]),
        decreases e - s,
    {
        e = e - 1;
    }
    assert(trimmed(line@, s as int, e as int));
    match parse_u64(line, s, e) {
        Some(n) => if n as u128 <= usize::MAX as u128 {
            Some(n as usize)
        } else {
            None
        },
        None => None,
    }
}

} // verus!
