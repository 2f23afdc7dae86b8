use rs_redis::command::{
    command_router, decrement_command, delete_command, echo_command, exists_command, get_command,
    increment_command, lpush_command, rpush_command, set_command, Outcome,
};
use rs_redis::db::{self, Db};
use rs_redis::types::{RESPResult, DB_TYPE};

const NOW: u128 = 1_700_000_000_000;

fn bulk(s: &str) -> RESPResult {
    RESPResult::BulkString(Some(s.as_bytes().to_vec()))
}

#[test]
fn test_echo_command_valid() {
    let data: Vec<_> = vec![RESPResult::BulkString(Some(b"hello".to_vec()))];
    let result = echo_command(&data);
    assert_eq!(result, Ok("hello".to_string()));
}

#[test]
fn test_echo_command_invalid_arg_count() {
    let data = vec![];
    let result = echo_command(&data);
    assert_eq!(result, Err("Incorrect number of arguments for echo".to_string()));
    let data = vec![
        RESPResult::BulkString(Some(b"hello".to_vec())),
        RESPResult::BulkString(Some(b"world".to_vec())),
    ];
    let result = echo_command(&data);
    assert_eq!(result, Err("Incorrect number of arguments for echo".to_string()));
}

#[test]
fn test_echo_command_not_bulk_string() {
    let data = vec![RESPResult::Integer(42)];
    let result = echo_command(&data);
    assert_eq!(result, Err("Error: Not bulk string".to_string()));
}

#[test]
fn test_echo_command_invalid_utf8() {
    let data = vec![RESPResult::BulkString(Some(vec![0xff, 0xfe, 0xfd]))];
    let result = echo_command(&data);
    assert!(result.is_err());
    assert!(result.unwrap_err().starts_with("Invalid UTF-8"));
}

#[test]
fn test_ping_command_valid() {
    let mut db = Db::new();
    let data: Vec<_> = vec![RESPResult::BulkString(Some(b"PING".to_vec()))];
    let result = command_router(&mut db, "PING", &data, NOW);
    assert_eq!(result, Ok(Outcome::Reply(RESPResult::SimpleString("PONG".to_string()))));
}

#[test]
fn test_set_and_get_command_success() {
    let mut db = Db::new();
    let set_input = vec![bulk("foo"), bulk("bar")];
    let set_result = set_command(&mut db, &set_input, NOW);
    assert_eq!(set_result, Ok("OK".to_string()));

    let get_input = vec![bulk("foo")];
    let get_result = get_command(&mut db, &get_input, NOW);
    assert_eq!(get_result, Ok("bar".to_string()));
}

#[test]
fn test_set_command_missing_args() {
    let mut db = Db::new();
    let input = vec![bulk("foo")];
    let result = set_command(&mut db, &input, NOW);
    assert_eq!(result, Err("Missing key/value for SET".to_string()));
}

#[test]
fn test_ex_expiry() {
    let mut db = Db::new();
    let data = vec![bulk("key_ex"), bulk("value"), bulk("EX"), bulk("1")];
    set_command(&mut db, &data, NOW).unwrap();

    let get_result = get_command(&mut db, &[bulk("key_ex")], NOW).unwrap();
    assert_eq!(get_result, "value");

    // 1.1 s later
    let get_result = get_command(&mut db, &[bulk("key_ex")], NOW + 1100).unwrap();
    assert_eq!(get_result, "");
}

#[test]
fn test_px_expiry() {
    let mut db = Db::new();
    let data = vec![bulk("key_px"), bulk("value"), bulk("PX"), bulk("500")];
    set_command(&mut db, &data, NOW).unwrap();

    let get_result = get_command(&mut db, &[bulk("key_px")], NOW + 600).unwrap();
    assert_eq!(get_result, "");
}

#[test]
fn test_exat_expiry() {
    let mut db = Db::new();
    let now_secs = NOW / 1000;
    let expire_at = now_secs + 1;
    let data = vec![bulk("key_exat"), bulk("value"), bulk("EXAT"), bulk(&expire_at.to_string())];
    set_command(&mut db, &data, NOW).unwrap();

    let get_result = get_command(&mut db, &[bulk("key_exat")], NOW + 1100).unwrap();
    assert_eq!(get_result, "");
}

#[test]
fn test_pxat_expiry() {
    let mut db = Db::new();
    let expire_at = NOW + 500;
    let data = vec![bulk("key_pxat"), bulk("value"), bulk("PXAT"), bulk(&expire_at.to_string())];
    set_command(&mut db, &data, NOW).unwrap();

    let get_result = get_command(&mut db, &[bulk("key_pxat")], NOW + 600).unwrap();
    assert_eq!(get_result, "");
}

#[test]
fn test_set_command_invalid_arg() {
    let mut db = Db::new();
    let data = vec![
        RESPResult::BulkString(Some(b"key_invalid".to_vec())),
        RESPResult::BulkString(Some(b"value".to_vec())),
        RESPResult::BulkString(Some(b"BOGUS".to_vec())),
        RESPResult::BulkString(Some(b"9999".to_vec())),
    ];
    let result = set_command(&mut db, &data, NOW);
    assert!(result.is_err());
    assert_eq!(result.unwrap_err(), "Optional argument not understood");
}

#[test]
fn test_get_command_missing_args() {
    let mut db = Db::new();
    let input = vec![];
    let result = get_command(&mut db, &input, NOW);
    assert_eq!(result, Err("Missing key/value for GET".to_string()));
}

#[test]
fn test_get_command_nonexistent_key() {
    let mut db = Db::new();
    let input = vec![bulk("nonexistent")];
    let result = get_command(&mut db, &input, NOW);
    assert_eq!(result, Ok(String::new()));
}

#[test]
fn test_set_command_invalid_type() {
    let mut db = Db::new();
    let input = vec![RESPResult::Integer(42), bulk("bar")];
    let result = set_command(&mut db, &input, NOW);
    assert_eq!(result, Err("Error: Not bulk string".to_string()));
}

#[test]
fn test_get_command_invalid_type() {
    let mut db = Db::new();
    let input = vec![RESPResult::Integer(42)];
    let result = get_command(&mut db, &input, NOW);
    assert_eq!(result, Err("Error: Not bulk string".to_string()));
}

#[test]
fn test_exists_command_existing_key() {
    let mut db = Db::new();
    db::set(&mut db, "exists_test".to_string(), DB_TYPE::Str("value".to_string()), 0).unwrap();
    let data = vec![bulk("exists_test")];
    let result = exists_command(&db, &data).unwrap();
    assert_eq!(result, 1);
}

#[test]
fn test_exists_command_missing_key() {
    let db = Db::new();
    let data = vec![bulk("nonexistent_key")];
    let result = exists_command(&db, &data).unwrap();
    assert_eq!(result, 0);
}

#[test]
fn test_delete_command_existing_key() {
    let mut db = Db::new();
    db::set(&mut db, "delete_test".to_string(), DB_TYPE::Str("value".to_string()), 0).unwrap();
    let data = vec![bulk("delete_test")];
    let result = delete_command(&mut db, &data).unwrap();
    assert_eq!(result, 1);

    let exists = db::exists_count(&db, vec!["delete_test".to_string()]);
    assert_eq!(exists, 0);
}

#[test]
fn test_delete_command_missing_key() {
    let mut db = Db::new();
    let data = vec![bulk("nonexistent")];
    let result = delete_command(&mut db, &data).unwrap();
    assert_eq!(result, 0);
}

#[test]
fn test_increment_command_initial_value() {
    let mut db = Db::new();
    let data = vec![bulk("counter_test")];
    let result = increment_command(&mut db, &data, NOW).unwrap();
    assert_eq!(result, "OK");

    let result2 = increment_command(&mut db, &data, NOW).unwrap();
    assert_eq!(result2, "OK");

    let result3 = get_command(&mut db, &data, NOW);
    assert_eq!(result3, Ok("2".to_string()));
}

#[test]
fn test_decrement_command_initial_value() {
    let mut db = Db::new();
    let data = vec![bulk("dec_test")];
    let result = decrement_command(&mut db, &data, NOW).unwrap();
    assert_eq!(result, "OK");

    let result2 = decrement_command(&mut db, &data, NOW).unwrap();
    assert_eq!(result2, "OK");

    let result3 = get_command(&mut db, &data, NOW);
    assert_eq!(result3, Ok("0".to_string()));
}

#[test]
fn test_increment_after_set() {
    let mut db = Db::new();
    db::set(&mut db, "num_key".to_string(), DB_TYPE::Int(5), 0).unwrap();
    let data = vec![bulk("num_key")];
    let result = increment_command(&mut db, &data, NOW).unwrap();
    assert_eq!(result, "OK");

    let result3 = get_command(&mut db, &data, NOW);
    assert_eq!(result3, Ok("6".to_string()));
}

#[test]
fn test_decrement_after_set() {
    let mut db = Db::new();
    db::set(&mut db, "dec_key".to_string(), DB_TYPE::Int(10), 0).unwrap();
    let data = vec![bulk("dec_key")];
    let result = decrement_command(&mut db, &data, NOW).unwrap();
    assert_eq!(result, "OK");

    let result2 = get_command(&mut db, &data, NOW);
    assert_eq!(result2, Ok("9".to_string()));
}

#[test]
fn test_increment_invalid_data() {
    let mut db = Db::new();
    db::set(&mut db, "bad_data".to_string(), DB_TYPE::Str("value".to_string()), 0).unwrap();
    let data = vec![bulk("bad_data")];
    let result = increment_command(&mut db, &data, NOW);
    assert!(result.is_err());
}

#[test]
fn test_lpush_valid_int_and_string() {
    let mut db = Db::new();
    let input = vec![bulk("mylist"), bulk("123"), bulk("hello")];

    let result = lpush_command(&mut db, &input);
    assert!(result.is_ok());
    assert_eq!(result.unwrap(), "2");

    let stored = db::get(&mut db, "mylist", NOW).unwrap();
    match stored {
        DB_TYPE::Array(ref items) => {
            assert_eq!(items, &vec![DB_TYPE::Str("hello".to_string()), DB_TYPE::Int(123)]);
        }
        _ => panic!("Expected DB_TYPE::Array"),
    }
}

#[test]
fn test_lpush_missing_value() {
    let mut db = Db::new();
    let input = vec![bulk("mylist")];
    let result = lpush_command(&mut db, &input);
    assert!(result.is_err());
    assert_eq!(result.unwrap_err(), "Missing key/value for LPUSH");
}

#[test]
fn test_lpush_invalid_type() {
    let mut db = Db::new();
    let input = vec![RESPResult::BulkString(None), bulk("hello")];
    let result = lpush_command(&mut db, &input);
    assert!(result.is_err());
    assert_eq!(result.unwrap_err(), "Error: Not bulk string");
}

#[test]
fn test_rpush_valid_mixed_types() {
    let mut db = Db::new();
    let input = vec![bulk("mylist1"), bulk("123"), bulk("hello")];

    let result = rpush_command(&mut db, &input);
    assert!(result.is_ok());
    assert_eq!(result.unwrap(), "2");

    let stored = db::get(&mut db, "mylist1", NOW).unwrap();
    match stored {
        DB_TYPE::Array(ref items) => {
            assert_eq!(items, &vec![DB_TYPE::Int(123), DB_TYPE::Str("hello".to_string())]);
        }
        _ => panic!("Expected DB_TYPE::Array"),
    }
}

#[test]
fn test_rpush_missing_values() {
    let mut db = Db::new();
    let input = vec![bulk("mylist")];
    let result = rpush_command(&mut db, &input);
    assert!(result.is_err());
    assert_eq!(result.unwrap_err(), "Missing key/value for RPUSH");
}

#[test]
fn test_rpush_invalid_key_type() {
    let mut db = Db::new();
    let input = vec![RESPResult::BulkString(None), bulk("hello")];
    let result = rpush_command(&mut db, &input);
    assert!(result.is_err());
    assert_eq!(result.unwrap_err(), "Error: Not bulk string");
}

#[test]
fn test_rpush_multiple_calls_appends_right() {
    let mut db = Db::new();
    let input1 = vec![bulk("mylist2"), bulk("a")];
    let input2 = vec![bulk("mylist2"), bulk("b"), bulk("c")];

    let _ = rpush_command(&mut db, &input1);
    let _ = rpush_command(&mut db, &input2);

    let stored = db::get(&mut db, "mylist2", NOW).unwrap();
    match stored {
        DB_TYPE::Array(ref items) => {
            assert_eq!(
                items,
                &vec![
                    DB_TYPE::Str("a".to_string()),
                    DB_TYPE::Str("b".to_string()),
                    DB_TYPE::Str("c".to_string()),
                ]
            );
        }
        _ => panic!("Expected DB_TYPE::Array"),
    }
}
