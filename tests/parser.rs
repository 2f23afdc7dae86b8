use rs_redis::parser::parse_resp_message;
use rs_redis::types::RESPResult;

#[test]
fn parser_test_parse_simple_string() {
    let input = b"+PONG\r\n";
    let (resp, _) = parse_resp_message(input).expect("Parsing failed");
    assert_eq!(resp, RESPResult::SimpleString("PONG".to_string()));
}

#[test]
fn parser_test_parse_simple_string_bytes() {
    let input = b"+PONG\r\n";
    let (resp, bytes) = parse_resp_message(input).expect("Parsing failed");
    assert_eq!((resp, bytes), (RESPResult::SimpleString("PONG".to_string()), 7 as usize));
}

#[test]
fn parser_test_parse_bulk_string() {
    let input = b"$5\r\nhello\r\n";
    let (resp, _) = parse_resp_message(input).expect("Parsing failed");
    assert_eq!(resp, RESPResult::BulkString(Some(b"hello".to_vec())));
}

#[test]
fn parser_test_parse_null_bulk_string() {
    let input = b"$-1\r\n";
    let (resp, _) = parse_resp_message(input).expect("Parsing failed");
    assert_eq!(resp, RESPResult::BulkString(None));
}

#[test]
fn test_parse_array() {
    let input = b"*2\r\n$3\r\nfoo\r\n$3\r\nbar\r\n";
    let (resp, _) = parse_resp_message(input).expect("Parsing failed");
    assert_eq!(
        resp,
        RESPResult::Array(vec![
            RESPResult::BulkString(Some(b"foo".to_vec())),
            RESPResult::BulkString(Some(b"bar".to_vec()))
        ])
    );
}

#[test]
fn test_parse_integer() {
    let input = b":12345\r\n";
    let (resp, _) = parse_resp_message(input).expect("Parsing failed");
    assert_eq!(resp, RESPResult::Integer(12345));
}

#[test]
fn parsertests_test_parse_simple_string() {
    let input = b"+PONG\r\n";
    let (resp, _) = parse_resp_message(input).expect("Parsing failed");
    assert_eq!(resp, RESPResult::SimpleString("PONG".to_string()));
}

#[test]
fn parsertests_test_parse_simple_string_bytes() {
    let input = b"+PONG\r\n";
    let (resp, bytes) = parse_resp_message(input).expect("Parsing failed");
    assert_eq!((resp, bytes), (RESPResult::SimpleString("PONG".to_string()), 7 as usize));
}

#[test]
fn parsertests_test_parse_bulk_string() {
    let input = b"$5\r\nhello\r\n";
    let (resp, _) = parse_resp_message(input).expect("Parsing failed");
    assert_eq!(resp, RESPResult::BulkString(Some(b"hello".to_vec())));
}

#[test]
fn parsertests_test_parse_null_bulk_string() {
    let input = b"$-1\r\n";
    let (resp, _) = parse_resp_message(input).expect("Parsing failed");
    assert_eq!(resp, RESPResult::BulkString(None));
}
