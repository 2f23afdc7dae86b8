//! Requests typed as a command line.
use vstd::prelude::*;
use vstd::utf8::{encode_utf8, encode_utf8_decode_utf8, encode_utf8_valid_utf8};
use crate::command::{command_router, routed, unchanged, Outcome};
use crate::db::Db;
use crate::network::bulk_words;
use crate::parser::{
    lemma_codec_round_trip, line_message, parse_resp_message, renderable, shell_split,
    string_to_resp_message, trim_cr,
};
use crate::text::utf8_text;
use crate::types::{lemma_wires_of, wires_of, RESPResult, Wire};

verus! {

/// The words of a line fit the request framing: their number and each one's
/// length in bytes fit a signed 64-bit header.
pub open spec fn words_fit(ws: Seq<Seq<char>>) -> bool {
    ws.len() <= i64::MAX && forall|i: int| 0 <= i < ws.len() ==> encode_utf8(#[trigger] ws[i]).len()
        <= i64::MAX
}

proof fn lemma_words_renderable(ws: Seq<Seq<char>>)
    requires
        words_fit(ws),
    ensures
        renderable(Wire::Array(bulk_words(ws))),
{
    let xs = bulk_words(ws);
    assert forall|t: int| 0 <= t < xs.len() implies renderable(#[trigger] xs[t]) by {
        assert(xs[t] == Wire::Bulk(Some(encode_utf8(ws[t]))));
    }
}

/// Routes a command line: its words are framed as a request, parsed back, and
/// the first names the command.
pub fn read_cli_input(db: &mut Db, message: &str, now: u128) -> (r: Result<Outcome, String>)
    requires
        old(db).wf(),
    ensures
        final(db).wf(),
        match line_message(message@) {
            Err(m) => (r matches Err(e) && e@ == m) && unchanged(*old(db), *final(db)),
            Ok(_) => {
                let ws = shell_split(trim_cr(message@))->Some_0;
                words_fit(ws) ==> routed(
                    *old(db),
                    *final(db),
                    ws[0],
                    bulk_words(ws).drop_first(),
                    now,
                    r,
                )
            },
        },
{
    let resp = match string_to_resp_message(message) {
        Ok(b) => b,
        Err(e) => return Err(e),
    };
    let ghost ws = shell_split(trim_cr(message@))->Some_0;
    proof {
        if words_fit(ws) {
            lemma_words_renderable(ws);
            lemma_codec_round_trip(Wire::Array(bulk_words(ws)));
        }
    }
    let message_result = match parse_resp_message(resp.as_slice()) {
        Ok((m, _)) => m,
        Err(e) => return Err(e),
    };
    let command_values = match message_result {
        RESPResult::Array(a) => {
            if a.len() == 0 {
                return Err("Empty array".to_string());
            }
            a
        },
        _ => return Err("Err".to_string()),
    };
    proof {
        lemma_wires_of(command_values@);
        if words_fit(ws) {
            let xs = bulk_words(ws);
            assert(wires_of(command_values@) == xs);
            assert(command_values@[0]@ == xs[0]);
            encode_utf8_valid_utf8(ws[0]);
            encode_utf8_decode_utf8(ws[0]);
        }
    }
    let command = match &command_values[0] {
        RESPResult::BulkString(Some(b)) => match utf8_text(b.as_slice()) {
            Some(s) => s,
            None => return Err("Invalid UTF-8".to_string()),
        },
        _ => return Err("Error: Not bulk string".to_string()),
    };
    let n = command_values.len();
    if (n - 1) as u64 > 0x7fff_ffff_ffff_ffff {
        return Err("Too many arguments".to_string());
    }
    let arguments = &command_values.as_slice()[1..n];
    proof {
        lemma_wires_of(command_values@);
        lemma_wires_of(arguments@);
        assert(arguments@ =~= command_values@.subrange(1, n as int));
        if words_fit(ws) {
            let xs = bulk_words(ws);
            assert(wires_of(command_values@) == xs);
            assert(command_values@[0]@ == xs[0]);
            encode_utf8_valid_utf8(ws[0]);
            encode_utf8_decode_utf8(ws[0]);
            assert(wires_of(arguments@) =~= xs.drop_first());
        }
    }
    command_router(db, command.as_str(), arguments, now)
}

} // verus!
