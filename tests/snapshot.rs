use rs_redis::db::{self, Db};
use rs_redis::snapshot::load_snapshot;
use rs_redis::types::DB_TYPE;

#[test]
fn test_write_db_to_file_basic() {
    let mut db = Db::new();
    db::set(&mut db, "intkey".to_string(), DB_TYPE::Int(42), 100).unwrap();
    db::set(&mut db, "strkey".to_string(), DB_TYPE::Str("hello".to_string()), 200).unwrap();
    db::set(
        &mut db,
        "arrkey".to_string(),
        DB_TYPE::Array(vec![DB_TYPE::Int(1), DB_TYPE::Str("hi".to_string())]),
        0,
    )
    .unwrap();

    let result = db.render_snapshot("2025-07-06 16:19:16.580 UTC");
    assert!(result.is_ok());

    let contents = String::from_utf8(result.unwrap()).unwrap();
    assert!(contents.contains("REDIS"));
    assert!(contents.contains("KEYS-VALUES"));
    assert!(contents.contains("FD 100"));
    assert!(contents.contains("FD 200"));
    assert!(contents.contains("$i"));
    assert!(contents.contains("$s"));
    assert!(contents.contains("EOF"));
    assert!(contents.contains("hello"));
}

#[test]
fn test_write_db_to_file_with_nested_array_should_fail() {
    let mut db = Db::new();
    db::set(
        &mut db,
        "bad".to_string(),
        DB_TYPE::Array(vec![DB_TYPE::Array(vec![DB_TYPE::Int(1)])]),
        0,
    )
    .unwrap();

    let result = db.render_snapshot("2025-07-06 16:19:16.580 UTC");
    assert!(result.is_err());
    assert_eq!(result.unwrap_err(), "nested arrays are not supported".to_string());
}

const SNAPSHOT: &str = "--------------------------------------------------------\r\n\
REDIS\r\n\
0001\r\n\
--------------------------------------------------------\r\n\
2025-07-06 16:19:16.580645320 UTC\r\n\
--------------------------------------------------------\r\n\
KEYS-VALUES\r\n\
--------------------------------------------------------\r\n\
FD 100\r\n\
$i\r\n\
$intkey\r\n\
$42\r\n\
--------------------------------------------------------\r\n\
FD 200\r\n\
$s\r\n\
$strkey\r\n\
$5$hello\r\n\
--------------------------------------------------------\r\n\
FD 0\r\n\
$a\r\n\
$arrkey\r\n\
*2\r\n\
$i\r\n\
$1\r\n\
$s\r\n\
$2$hi\r\n\
--------------------------------------------------------\r\n\
EOF\r\n";

#[test]
fn load_snapshot_reads_entries() {
    let mut db = Db::new();
    let result = load_snapshot(&mut db, SNAPSHOT.as_bytes());
    assert_eq!(result, Ok("OK".to_string()));

    assert_eq!(db::get(&mut db, "intkey", 50), Some(DB_TYPE::Int(42)));
    assert_eq!(db::get(&mut db, "strkey", 50), Some(DB_TYPE::Str("hello".to_string())));
    assert_eq!(
        db::get(&mut db, "arrkey", 50),
        Some(DB_TYPE::Array(vec![DB_TYPE::Int(1), DB_TYPE::Str("hi".to_string())]))
    );
    // expiration times were read: intkey expires after 100, strkey after 200
    assert_eq!(db::get(&mut db, "intkey", 150), None);
    assert_eq!(db::get(&mut db, "strkey", 150), Some(DB_TYPE::Str("hello".to_string())));
    assert_eq!(db::get(&mut db, "strkey", 250), None);
    assert_eq!(db::get(&mut db, "arrkey", 1_000_000), Some(DB_TYPE::Array(vec![DB_TYPE::Int(1), DB_TYPE::Str("hi".to_string())])));
}

#[test]
fn snapshot_round_trip() {
    let mut db = Db::new();
    db::set(&mut db, "n".to_string(), DB_TYPE::Int(-7), 1234).unwrap();
    db::set(&mut db, "s".to_string(), DB_TYPE::Str("two\r\nlines $ here".to_string()), 0).unwrap();
    db::set(
        &mut db,
        "l".to_string(),
        DB_TYPE::Array(vec![DB_TYPE::Str("x".to_string()), DB_TYPE::Int(9)]),
        99,
    )
    .unwrap();
    let bytes = db.render_snapshot("now").unwrap();

    let mut back = Db::new();
    assert_eq!(load_snapshot(&mut back, &bytes), Ok("OK".to_string()));
    assert_eq!(db::get(&mut back, "n", 1000), Some(DB_TYPE::Int(-7)));
    assert_eq!(db::get(&mut back, "n", 1235), None);
    assert_eq!(db::get(&mut back, "s", 5), Some(DB_TYPE::Str("two\r\nlines $ here".to_string())));
    assert_eq!(
        db::get(&mut back, "l", 99),
        Some(DB_TYPE::Array(vec![DB_TYPE::Str("x".to_string()), DB_TYPE::Int(9)]))
    );
    assert_eq!(db::get(&mut back, "l", 100), None);
}

#[test]
fn load_snapshot_rejects_bad_expire_line() {
    let mut db = Db::new();
    let text = SNAPSHOT.replace("FD 200", "XX 200");
    assert_eq!(
        load_snapshot(&mut db, text.as_bytes()),
        Err("Cannot correctly read expire for object".to_string())
    );
    // the entry before the bad one stays stored
    assert_eq!(db::get(&mut db, "intkey", 50), Some(DB_TYPE::Int(42)));
    assert_eq!(db::get(&mut db, "strkey", 50), None);
}

#[test]
fn load_snapshot_without_header_fails() {
    let mut db = Db::new();
    assert_eq!(load_snapshot(&mut db, b"REDIS\r\n0001\r\n"), Err("EOF".to_string()));
}

#[test]
fn load_snapshot_rejects_bad_type_letter() {
    let mut db = Db::new();
    let text = SNAPSHOT.replace("$s\r\n$strkey", "$x\r\n$strkey");
    assert_eq!(
        load_snapshot(&mut db, text.as_bytes()),
        Err("Invalid char encountered for object type".to_string())
    );
}

#[test]
fn load_snapshot_rejects_bad_value() {
    let mut db = Db::new();
    let text = SNAPSHOT.replace("$42\r\n", "$4x2\r\n");
    assert_eq!(load_snapshot(&mut db, text.as_bytes()), Err("Cannot correctly read object".to_string()));
}

#[test]
fn load_snapshot_truncated() {
    let mut db = Db::new();
    let cut = &SNAPSHOT[..SNAPSHOT.len() - 5];
    assert_eq!(load_snapshot(&mut db, cut.as_bytes()), Err("Unexpected EOF".to_string()));
}
