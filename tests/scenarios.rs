use rs_redis::cli::read_cli_input;
use rs_redis::command::{command_router, delete_command, exists_command, save_command, Outcome};
use rs_redis::db::{self, Db};
use rs_redis::network::read_network_input;
use rs_redis::parser::{
    parse_resp_message, resp_message_to_string, respresult_to_resp_string, string_to_resp_message,
};
use rs_redis::types::{RESPResult, DB_TYPE};

const NOW: u128 = 1_700_000_000_000;

fn bulk(s: &str) -> RESPResult {
    RESPResult::BulkString(Some(s.as_bytes().to_vec()))
}

/// Parses one request frame, routes it, and renders the reply.
fn serve(db: &mut Db, request: &[u8], now: u128) -> Vec<u8> {
    let (msg, used) = parse_resp_message(request).expect("request parses");
    assert_eq!(used, request.len());
    let parts = match msg {
        RESPResult::Array(parts) => parts,
        other => panic!("not an array: {:?}", other),
    };
    let name = match &parts[0] {
        RESPResult::BulkString(Some(b)) => String::from_utf8(b.clone()).unwrap(),
        other => panic!("not a bulk string: {:?}", other),
    };
    let reply = match command_router(db, &name, &parts[1..], now) {
        Ok(Outcome::Reply(m)) => m,
        Ok(other) => panic!("unexpected outcome: {:?}", other),
        Err(e) => RESPResult::Error(e),
    };
    respresult_to_resp_string(&reply)
}

#[test]
fn wire_ping() {
    let mut db = Db::new();
    assert_eq!(serve(&mut db, b"*1\r\n$4\r\nPING\r\n", NOW), b"+PONG\r\n".to_vec());
}

#[test]
fn wire_echo() {
    let mut db = Db::new();
    assert_eq!(serve(&mut db, b"*2\r\n$4\r\nECHO\r\n$5\r\nhello\r\n", NOW), b"+hello\r\n".to_vec());
}

#[test]
fn wire_set_then_get() {
    let mut db = Db::new();
    assert_eq!(serve(&mut db, b"*3\r\n$3\r\nSET\r\n$3\r\nfoo\r\n$3\r\nbar\r\n", NOW), b"+OK\r\n".to_vec());
    assert_eq!(serve(&mut db, b"*2\r\n$3\r\nGET\r\n$3\r\nfoo\r\n", NOW), b"+bar\r\n".to_vec());
}

#[test]
fn wire_set_ex_then_get_after_expiry() {
    let mut db = Db::new();
    let set = b"*5\r\n$3\r\nSET\r\n$1\r\nk\r\n$1\r\nv\r\n$2\r\nEX\r\n$1\r\n1\r\n";
    assert_eq!(serve(&mut db, set, NOW), b"+OK\r\n".to_vec());
    assert_eq!(serve(&mut db, b"*2\r\n$3\r\nGET\r\n$1\r\nk\r\n", NOW + 999), b"+v\r\n".to_vec());
    assert_eq!(serve(&mut db, b"*2\r\n$3\r\nGET\r\n$1\r\nk\r\n", NOW + 1100), b"+\r\n".to_vec());
}

#[test]
fn wire_lpush_twice() {
    let mut db = Db::new();
    let first = b"*4\r\n$5\r\nLPUSH\r\n$1\r\nL\r\n$1\r\n1\r\n$1\r\n2\r\n";
    let second = b"*3\r\n$5\r\nLPUSH\r\n$1\r\nL\r\n$1\r\n3\r\n";
    assert_eq!(serve(&mut db, first, NOW), b"+2\r\n".to_vec());
    assert_eq!(serve(&mut db, second, NOW), b"+3\r\n".to_vec());
    assert_eq!(
        db::get(&mut db, "L", NOW),
        Some(DB_TYPE::Array(vec![DB_TYPE::Int(3), DB_TYPE::Int(2), DB_TYPE::Int(1)]))
    );
}

#[test]
fn wire_incr_twice_then_get() {
    let mut db = Db::new();
    let incr = b"*2\r\n$4\r\nINCR\r\n$1\r\nn\r\n";
    assert_eq!(serve(&mut db, incr, NOW), b"+OK\r\n".to_vec());
    assert_eq!(serve(&mut db, incr, NOW), b"+OK\r\n".to_vec());
    assert_eq!(serve(&mut db, b"*2\r\n$3\r\nGET\r\n$1\r\nn\r\n", NOW), b"+2\r\n".to_vec());
}

#[test]
fn wire_exists_and_del_replies_are_integers() {
    let mut db = Db::new();
    serve(&mut db, b"*3\r\n$3\r\nSET\r\n$1\r\na\r\n$1\r\n1\r\n", NOW);
    serve(&mut db, b"*3\r\n$3\r\nSET\r\n$1\r\nb\r\n$1\r\n2\r\n", NOW);
    assert_eq!(serve(&mut db, b"*4\r\n$6\r\nEXISTS\r\n$1\r\na\r\n$1\r\nb\r\n$1\r\nc\r\n", NOW), b":2\r\n".to_vec());
    assert_eq!(serve(&mut db, b"*4\r\n$3\r\nDEL\r\n$1\r\na\r\n$1\r\nb\r\n$1\r\nc\r\n", NOW), b":2\r\n".to_vec());
    assert_eq!(serve(&mut db, b"*2\r\n$6\r\nEXISTS\r\n$1\r\na\r\n", NOW), b":0\r\n".to_vec());
}

#[test]
fn wire_unknown_command() {
    let mut db = Db::new();
    assert_eq!(serve(&mut db, b"*1\r\n$4\r\nping\r\n", NOW), b"-ERR unknown command\r\n".to_vec());
}

#[test]
fn codec_round_trip_values() {
    let values = vec![
        RESPResult::SimpleString("OK".to_string()),
        RESPResult::SimpleString(String::new()),
        RESPResult::Error("bad thing".to_string()),
        RESPResult::Integer(0),
        RESPResult::Integer(-42),
        RESPResult::Integer(i64::MAX),
        RESPResult::Integer(i64::MIN),
        RESPResult::BulkString(None),
        RESPResult::BulkString(Some(vec![])),
        RESPResult::BulkString(Some(b"a\r\nb".to_vec())),
        RESPResult::Array(vec![]),
        RESPResult::Array(vec![
            RESPResult::Integer(1),
            RESPResult::Array(vec![bulk("x"), RESPResult::BulkString(None)]),
            RESPResult::SimpleString("y".to_string()),
        ]),
    ];
    for v in values {
        let bytes = respresult_to_resp_string(&v);
        let (back, used) = parse_resp_message(&bytes).expect("parses back");
        assert_eq!(used, bytes.len());
        assert_eq!(back, v);
    }
}

#[test]
fn render_exact_bytes() {
    assert_eq!(respresult_to_resp_string(&RESPResult::Integer(-5)), b":-5\r\n".to_vec());
    assert_eq!(respresult_to_resp_string(&RESPResult::BulkString(None)), b"$-1\r\n".to_vec());
    assert_eq!(respresult_to_resp_string(&bulk("hey")), b"$3\r\nhey\r\n".to_vec());
    assert_eq!(
        respresult_to_resp_string(&RESPResult::Array(vec![RESPResult::Integer(7), bulk("a")])),
        b"*2\r\n:7\r\n$1\r\na\r\n".to_vec()
    );
}

#[test]
fn parse_errors() {
    assert!(parse_resp_message(b"").is_err());
    assert!(parse_resp_message(b"?x\r\n").is_err());
    assert!(parse_resp_message(b"+no end").is_err());
    assert!(parse_resp_message(b"$abc\r\n").is_err());
    assert!(parse_resp_message(b"$5\r\nhi\r\n").is_err());
    assert!(parse_resp_message(b"$-2\r\n").is_err());
    assert!(parse_resp_message(b"*2\r\n:1\r\n").is_err());
}

#[test]
fn parse_lenient_integer_and_empty_array() {
    assert_eq!(parse_resp_message(b":abc\r\n"), Ok((RESPResult::Integer(0), 6)));
    assert_eq!(parse_resp_message(b"*-1\r\n"), Ok((RESPResult::Array(vec![]), 5)));
    assert_eq!(parse_resp_message(b"+PONG\r\nrest"), Ok((RESPResult::SimpleString("PONG".to_string()), 7)));
}

#[test]
fn parse_simple_string_invalid_utf8_is_replaced() {
    let (resp, _) = parse_resp_message(b"+a\xffb\r\n").unwrap();
    assert_eq!(resp, RESPResult::SimpleString("a\u{fffd}b".to_string()));
}

#[test]
fn get_after_set_integer_text() {
    let mut db = Db::new();
    let mut run = |args: Vec<RESPResult>, name: &str| command_router(&mut db, name, &args, NOW);
    run(vec![bulk("k"), bulk("+0012")], "SET").unwrap();
    assert_eq!(
        run(vec![bulk("k")], "GET"),
        Ok(Outcome::Reply(RESPResult::SimpleString("12".to_string())))
    );
    run(vec![bulk("s"), bulk("12a")], "SET").unwrap();
    assert_eq!(
        run(vec![bulk("s")], "GET"),
        Ok(Outcome::Reply(RESPResult::SimpleString("12a".to_string())))
    );
}

#[test]
fn set_expiration_modes_agree() {
    for (mode, t) in [("EX", "2"), ("PX", "2000"), ("EXAT", "1700000002"), ("PXAT", "1700000002000")] {
        let mut db = Db::new();
        let args = vec![bulk("k"), bulk("v"), bulk(mode), bulk(t)];
        command_router(&mut db, "SET", &args, NOW).unwrap();
        let get = vec![bulk("k")];
        assert_eq!(
            command_router(&mut db, "GET", &get, NOW + 2000),
            Ok(Outcome::Reply(RESPResult::SimpleString("v".to_string())))
        );
        assert_eq!(
            command_router(&mut db, "GET", &get, NOW + 2001),
            Ok(Outcome::Reply(RESPResult::SimpleString(String::new())))
        );
    }
}

#[test]
fn set_keeps_earlier_expiration() {
    let mut db = Db::new();
    command_router(&mut db, "SET", &[bulk("k"), bulk("v"), bulk("PX"), bulk("10")], NOW).unwrap();
    command_router(&mut db, "SET", &[bulk("k"), bulk("w")], NOW).unwrap();
    assert_eq!(db::get(&mut db, "k", NOW + 11), None);
}

#[test]
fn set_time_errors() {
    let mut db = Db::new();
    assert_eq!(
        command_router(&mut db, "SET", &[bulk("k"), bulk("v"), bulk("EX"), bulk("soon")], NOW),
        Err("value is not an integer or out of range".to_string())
    );
    assert_eq!(
        command_router(&mut db, "SET", &[bulk("k"), bulk("v"), RESPResult::Integer(1), bulk("1")], NOW),
        Err("Error: Not bulk string".to_string())
    );
    assert_eq!(
        command_router(&mut db, "SET", &[bulk("k"), bulk("v"), bulk("EX"), RESPResult::Integer(1)], NOW),
        Err("Error: Not bulk string".to_string())
    );
    assert_eq!(db::exists_count(&db, vec!["k".to_string()]), 0);
}

#[test]
fn delete_counts_distinct_keys() {
    let mut db = Db::new();
    db::set(&mut db, "a".to_string(), DB_TYPE::Int(1), 5).unwrap();
    let n = delete_command(&mut db, &[bulk("a"), bulk("a"), bulk("zz")]).unwrap();
    assert_eq!(n, 1);
    assert_eq!(db::exists_count(&db, vec!["a".to_string()]), 0);
    // the expiration entry went with the key
    db::set(&mut db, "a".to_string(), DB_TYPE::Int(2), 0).unwrap();
    assert_eq!(db::get(&mut db, "a", 1000), Some(DB_TYPE::Int(2)));
}

#[test]
fn exists_counts_each_listing() {
    let mut db = Db::new();
    db::set(&mut db, "a".to_string(), DB_TYPE::Int(1), 0).unwrap();
    assert_eq!(exists_command(&db, &[bulk("a"), bulk("a"), bulk("b")]), Ok(2));
    assert_eq!(exists_command(&db, &[]), Err("Missing key/value for EXISTS".to_string()));
}

#[test]
fn exists_does_not_expire() {
    let mut db = Db::new();
    db::set(&mut db, "a".to_string(), DB_TYPE::Int(1), 10).unwrap();
    assert_eq!(db::exists_count(&db, vec!["a".to_string()]), 1);
    assert_eq!(db::get(&mut db, "a", 11), None);
    assert_eq!(db::exists_count(&db, vec!["a".to_string()]), 0);
}

#[test]
fn increment_on_string_changes_nothing() {
    let mut db = Db::new();
    db::set(&mut db, "s".to_string(), DB_TYPE::Str("x".to_string()), 0).unwrap();
    assert_eq!(
        db::increment(&mut db, "s", NOW),
        Err("value is not an integer or out of range".to_string())
    );
    assert_eq!(db::get(&mut db, "s", NOW), Some(DB_TYPE::Str("x".to_string())));
}

#[test]
fn increment_at_limit_fails() {
    let mut db = Db::new();
    db::set(&mut db, "m".to_string(), DB_TYPE::Int(i64::MAX), 0).unwrap();
    assert!(db::increment(&mut db, "m", NOW).is_err());
    db::set(&mut db, "m".to_string(), DB_TYPE::Int(i64::MIN), 0).unwrap();
    assert!(db::decrement(&mut db, "m", NOW).is_err());
    assert_eq!(db::get(&mut db, "m", NOW), Some(DB_TYPE::Int(i64::MIN)));
}

#[test]
fn increment_of_expired_key_starts_over() {
    let mut db = Db::new();
    db::set(&mut db, "c".to_string(), DB_TYPE::Int(41), 10).unwrap();
    db::increment(&mut db, "c", 11).unwrap();
    assert_eq!(db::get(&mut db, "c", 12), Some(DB_TYPE::Int(1)));
}

#[test]
fn many_increments_count_up() {
    let mut db = Db::new();
    for _ in 0..50 {
        db::increment(&mut db, "hits", NOW).unwrap();
    }
    assert_eq!(db::get(&mut db, "hits", NOW), Some(DB_TYPE::Int(50)));
}

#[test]
fn push_orders() {
    let mut db = Db::new();
    assert_eq!(db::lpush(&mut db, "l", vec![DB_TYPE::Int(1), DB_TYPE::Int(2), DB_TYPE::Int(3)]), Ok(3));
    assert_eq!(db::rpush(&mut db, "r", vec![DB_TYPE::Int(1), DB_TYPE::Int(2), DB_TYPE::Int(3)]), Ok(3));
    assert_eq!(
        db::get(&mut db, "l", NOW),
        Some(DB_TYPE::Array(vec![DB_TYPE::Int(3), DB_TYPE::Int(2), DB_TYPE::Int(1)]))
    );
    assert_eq!(
        db::get(&mut db, "r", NOW),
        Some(DB_TYPE::Array(vec![DB_TYPE::Int(1), DB_TYPE::Int(2), DB_TYPE::Int(3)]))
    );
}

#[test]
fn push_onto_non_list_fails() {
    let mut db = Db::new();
    db::set(&mut db, "k".to_string(), DB_TYPE::Int(1), 0).unwrap();
    assert_eq!(db::lpush(&mut db, "k", vec![DB_TYPE::Int(2)]), Err("Not an array".to_string()));
    assert_eq!(db::rpush(&mut db, "k", vec![DB_TYPE::Int(2)]), Err("Not an array".to_string()));
    assert_eq!(db::get(&mut db, "k", NOW), Some(DB_TYPE::Int(1)));
}

#[test]
fn get_of_list_cannot_be_shown() {
    let mut db = Db::new();
    db::rpush(&mut db, "l", vec![DB_TYPE::Int(1)]).unwrap();
    assert_eq!(
        command_router(&mut db, "GET", &[bulk("l")], NOW),
        Err("Cannot unpack DB_TYPE".to_string())
    );
}

#[test]
fn invalid_utf8_key_is_rejected() {
    let mut db = Db::new();
    let key = RESPResult::BulkString(Some(vec![0xc3]));
    assert_eq!(
        command_router(&mut db, "SET", &[key, bulk("v")], NOW),
        Err("Invalid UTF-8".to_string())
    );
}

#[test]
fn save_and_load_outcomes() {
    let mut db = Db::new();
    db::set(&mut db, "k".to_string(), DB_TYPE::Str("v".to_string()), 0).unwrap();
    match command_router(&mut db, "SAVE", &[], 947638923004) {
        Ok(Outcome::Save(bytes)) => {
            let text = String::from_utf8(bytes).unwrap();
            assert!(text.contains("2000-01-12 01:02:03.004 UTC\r\n"));
            assert!(text.contains("$k\r\n$1$v\r\n"));
        }
        other => panic!("unexpected: {:?}", other),
    }
    assert_eq!(
        command_router(&mut db, "LOAD", &[bulk("./dump.rdb")], NOW),
        Ok(Outcome::Load("./dump.rdb".to_string()))
    );
    assert_eq!(
        command_router(&mut db, "LOAD", &[], NOW),
        Err("Error: only provide path when loading: LOAD ./file.rdb".to_string())
    );
}

#[test]
fn save_command_stamps_time() {
    let db = Db::new();
    let bytes = save_command(&db, 0).unwrap();
    let text = String::from_utf8(bytes).unwrap();
    assert!(text.contains("\r\n1970-01-01 00:00:00 UTC\r\n"));
    assert!(text.ends_with("EOF\r\n"));
}

#[test]
fn network_input_routes_words() {
    let mut db = Db::new();
    let r = read_network_input(&mut db, vec!["SET".to_string(), "k".to_string(), "7".to_string()], NOW);
    assert_eq!(r, Ok(Outcome::Reply(RESPResult::SimpleString("OK".to_string()))));
    let r = read_network_input(&mut db, vec!["GET".to_string(), "k".to_string()], NOW);
    assert_eq!(r, Ok(Outcome::Reply(RESPResult::SimpleString("7".to_string()))));
    assert_eq!(read_network_input(&mut db, vec![], NOW), Err("Empty array".to_string()));
}

#[test]
fn command_line_framing() {
    assert_eq!(
        string_to_resp_message("SET 'a b' c\r").unwrap(),
        b"*3\r\n$3\r\nSET\r\n$3\r\na b\r\n$1\r\nc\r\n".to_vec()
    );
    assert_eq!(string_to_resp_message("   "), Err("No command".to_string()));
    assert_eq!(string_to_resp_message("ECHO 'open"), Err("missing closing quote".to_string()));
}

#[test]
fn command_line_input_routes() {
    let mut db = Db::new();
    assert_eq!(
        read_cli_input(&mut db, "ECHO \"hi there\"", NOW),
        Ok(Outcome::Reply(RESPResult::SimpleString("hi there".to_string())))
    );
    assert_eq!(
        read_cli_input(&mut db, "RPUSH l a b\r\r", NOW),
        Ok(Outcome::Reply(RESPResult::SimpleString("2".to_string())))
    );
    assert_eq!(
        db::get(&mut db, "l", NOW),
        Some(DB_TYPE::Array(vec![DB_TYPE::Str("a".to_string()), DB_TYPE::Str("b".to_string())]))
    );
}

#[test]
fn display_of_replies() {
    assert_eq!(resp_message_to_string(&RESPResult::SimpleString("OK".to_string())), "OK");
    assert_eq!(resp_message_to_string(&RESPResult::Error("boom".to_string())), "(error) boom");
    assert_eq!(resp_message_to_string(&RESPResult::Integer(-12)), "-12");
    assert_eq!(resp_message_to_string(&RESPResult::BulkString(None)), "(nil)");
    assert_eq!(resp_message_to_string(&RESPResult::BulkString(Some(vec![b'o', 0xff]))), "o\u{fffd}");
    assert_eq!(
        resp_message_to_string(&RESPResult::Array(vec![bulk("a"), RESPResult::Integer(2), RESPResult::BulkString(None)])),
        "1) a\n2) 2\n3) (nil)"
    );
    assert_eq!(resp_message_to_string(&RESPResult::Array(vec![])), "");
}
