use ferrite_kv::resp::{get_decimal, get_line, Cursor, Frame, RespError};

fn bulk(s: &str) -> Frame {
    Frame::Bulk(s.as_bytes().to_vec())
}

fn parse_checked(buf: &[u8]) -> Frame {
    let mut cursor = Cursor::new(buf);
    Frame::check(&mut cursor).unwrap();
    cursor.set_position(0);
    Frame::parse(&mut cursor).unwrap()
}

fn encode(frame: &Frame) -> Vec<u8> {
    let mut out = Vec::new();
    frame.serialize(&mut out);
    out
}

#[test]
fn test_parse_simple_string() {
    let buf = b"+OK\r\n";
    let mut cursor = Cursor::new(&buf[..]);
    Frame::check(&mut cursor).unwrap();
    cursor.set_position(0);
    let frame = Frame::parse(&mut cursor).unwrap();
    assert_eq!(frame, Frame::Simple("OK".to_string()));
}

#[test]
fn test_parse_error() {
    let buf = b"-ERR unknown command\r\n";
    let mut cursor = Cursor::new(&buf[..]);
    Frame::check(&mut cursor).unwrap();
    cursor.set_position(0);
    let frame = Frame::parse(&mut cursor).unwrap();
    assert_eq!(frame, Frame::Error("ERR unknown command".to_string()));
}

#[test]
fn test_parse_integer() {
    let buf = b":1048576\r\n";
    let mut cursor = Cursor::new(&buf[..]);
    Frame::check(&mut cursor).unwrap();
    cursor.set_position(0);
    let frame = Frame::parse(&mut cursor).unwrap();
    assert_eq!(frame, Frame::Integer(1048576));
}

#[test]
fn test_parse_bulk_string() {
    let buf = b"$5\r\nhello\r\n";
    let mut cursor = Cursor::new(&buf[..]);
    Frame::check(&mut cursor).unwrap();
    cursor.set_position(0);
    let frame = Frame::parse(&mut cursor).unwrap();
    assert_eq!(frame, Frame::Bulk(b"hello".to_vec()));
}

#[test]
fn test_parse_null_bulk_string() {
    let buf = b"$-1\r\n";
    let mut cursor = Cursor::new(&buf[..]);
    Frame::check(&mut cursor).unwrap();
    cursor.set_position(0);
    let frame = Frame::parse(&mut cursor).unwrap();
    assert_eq!(frame, Frame::Null);
}

#[test]
fn test_parse_array() {
    let buf = b"*2\r\n$3\r\nGET\r\n$4\r\nuser\r\n";
    let mut cursor = Cursor::new(&buf[..]);
    Frame::check(&mut cursor).unwrap();
    cursor.set_position(0);
    let frame = Frame::parse(&mut cursor).unwrap();
    assert_eq!(
        frame,
        Frame::Array(vec![Frame::Bulk(b"GET".to_vec()), Frame::Bulk(b"user".to_vec())])
    );
}

#[test]
fn test_parse_inline() {
    let buf = b"PING\r\n";
    let mut cursor = Cursor::new(&buf[..]);
    Frame::check(&mut cursor).unwrap();
    cursor.set_position(0);
    let frame = Frame::parse(&mut cursor).unwrap();
    assert_eq!(frame, Frame::Array(vec![Frame::Bulk(b"PING".to_vec())]));
}

#[test]
fn test_incomplete_detection() {
    let buf = b"*2\r\n$3\r\nGET\r\n$4\r\nus";
    let mut cursor = Cursor::new(&buf[..]);
    assert_eq!(Frame::check(&mut cursor), Err(RespError::Incomplete));
}

#[test]
fn test_serialize_and_parse_roundtrip() {
    let sent = Frame::Array(vec![
        Frame::Bulk(b"SET".to_vec()),
        Frame::Bulk(b"counter".to_vec()),
        Frame::Bulk(b"42".to_vec()),
    ]);
    let mut out = Vec::new();
    sent.serialize(&mut out);

    let mut cursor = Cursor::new(&out[..]);
    Frame::check(&mut cursor).unwrap();
    cursor.set_position(0);
    let parsed = Frame::parse(&mut cursor).unwrap();
    assert_eq!(sent, parsed);
}

#[test]
fn check_leaves_cursor_after_frame() {
    let buf = b"+OK\r\n:7\r\n";
    let mut cursor = Cursor::new(&buf[..]);
    Frame::check(&mut cursor).unwrap();
    assert_eq!(cursor.position(), 5);
    Frame::check(&mut cursor).unwrap();
    assert_eq!(cursor.position(), 9);
    assert_eq!(Frame::check(&mut cursor), Err(RespError::Incomplete));
}

#[test]
fn parse_leaves_cursor_after_frame() {
    let buf = b"$3\r\nabc\r\n+next\r\n";
    let mut cursor = Cursor::new(&buf[..]);
    assert_eq!(Frame::parse(&mut cursor).unwrap(), bulk("abc"));
    assert_eq!(cursor.position(), 9);
    assert_eq!(Frame::parse(&mut cursor).unwrap(), Frame::Simple("next".to_string()));
}

#[test]
fn parse_negative_integer_and_empty_bulk() {
    assert_eq!(parse_checked(b":-42\r\n"), Frame::Integer(-42));
    assert_eq!(parse_checked(b"$0\r\n\r\n"), Frame::Bulk(Vec::new()));
    assert_eq!(parse_checked(b"*0\r\n"), Frame::Array(Vec::new()));
    assert_eq!(parse_checked(b"*-1\r\n"), Frame::Null);
}

#[test]
fn parse_nested_array() {
    let frame = parse_checked(b"*2\r\n*1\r\n:1\r\n$-1\r\n");
    assert_eq!(
        frame,
        Frame::Array(vec![Frame::Array(vec![Frame::Integer(1)]), Frame::Null])
    );
}

#[test]
fn parse_inline_splits_on_whitespace() {
    let frame = parse_checked(b"SET  key\tvalue\r\n");
    assert_eq!(frame, Frame::Array(vec![bulk("SET"), bulk("key"), bulk("value")]));
}

#[test]
fn check_rejects_bad_bulk_terminator() {
    let mut cursor = Cursor::new(&b"$3\r\nabcXY"[..]);
    assert_eq!(
        Frame::check(&mut cursor),
        Err(RespError::Invalid("expected CRLF after bulk string".to_string()))
    );
}

#[test]
fn check_rejects_bad_length() {
    let mut cursor = Cursor::new(&b"$x\r\n"[..]);
    assert_eq!(
        Frame::check(&mut cursor),
        Err(RespError::Invalid("failed to parse integer".to_string()))
    );
}

#[test]
fn check_empty_buffer_is_incomplete() {
    let mut cursor = Cursor::new(&b""[..]);
    assert_eq!(Frame::check(&mut cursor), Err(RespError::Incomplete));
    let mut cursor = Cursor::new(&b"$5\r\nhel"[..]);
    assert_eq!(Frame::check(&mut cursor), Err(RespError::Incomplete));
}

#[test]
fn parse_rejects_invalid_utf8_simple() {
    let mut cursor = Cursor::new(&b"+\xff\r\n"[..]);
    assert!(matches!(Frame::parse(&mut cursor), Err(RespError::Invalid(_))));
}

#[test]
fn get_line_reads_up_to_crlf() {
    let buf = b"hello\r\nworld\r\n";
    let mut cursor = Cursor::new(&buf[..]);
    assert_eq!(get_line(&mut cursor).unwrap(), b"hello");
    assert_eq!(cursor.position(), 7);
    assert_eq!(get_line(&mut cursor).unwrap(), b"world");
    assert_eq!(get_line(&mut cursor), Err(RespError::Incomplete));
}

#[test]
fn get_line_without_crlf_is_incomplete() {
    let mut cursor = Cursor::new(&b"partial\r"[..]);
    assert_eq!(get_line(&mut cursor), Err(RespError::Incomplete));
}

#[test]
fn get_decimal_parses_signed() {
    let mut cursor = Cursor::new(&b"-17\r\n"[..]);
    assert_eq!(get_decimal(&mut cursor), Ok(-17));
    assert_eq!(cursor.position(), 5);
    let mut cursor = Cursor::new(&b"9223372036854775807\r\n"[..]);
    assert_eq!(get_decimal(&mut cursor), Ok(i64::MAX));
}

#[test]
fn get_decimal_rejects_garbage_and_overflow() {
    let mut cursor = Cursor::new(&b"12a\r\n"[..]);
    assert_eq!(
        get_decimal(&mut cursor),
        Err(RespError::Invalid("failed to parse integer".to_string()))
    );
    let mut cursor = Cursor::new(&b"9223372036854775808\r\n"[..]);
    assert!(matches!(get_decimal(&mut cursor), Err(RespError::Invalid(_))));
}

#[test]
fn serialize_each_kind() {
    assert_eq!(encode(&Frame::Simple("OK".to_string())), b"+OK\r\n".to_vec());
    assert_eq!(encode(&Frame::Error("ERR x".to_string())), b"-ERR x\r\n".to_vec());
    assert_eq!(encode(&Frame::Integer(-5)), b":-5\r\n".to_vec());
    assert_eq!(encode(&bulk("hi")), b"$2\r\nhi\r\n".to_vec());
    assert_eq!(encode(&Frame::Null), b"$-1\r\n".to_vec());
    assert_eq!(
        encode(&Frame::Array(vec![Frame::Integer(1), Frame::Null])),
        b"*2\r\n:1\r\n$-1\r\n".to_vec()
    );
}

#[test]
fn serialize_appends_to_existing_buffer() {
    let mut out = b"xy".to_vec();
    Frame::Integer(3).serialize(&mut out);
    assert_eq!(out, b"xy:3\r\n".to_vec());
}

#[test]
fn roundtrip_of_every_kind() {
    let frames = vec![
        Frame::Simple("PONG".to_string()),
        Frame::Error("ERR bad".to_string()),
        Frame::Integer(i64::MIN),
        Frame::Bulk(vec![0, 13, 10, 255]),
        Frame::Null,
        Frame::Array(vec![Frame::Array(vec![]), bulk("x")]),
    ];
    for f in frames {
        let bytes = encode(&f);
        let mut cursor = Cursor::new(&bytes[..]);
        Frame::check(&mut cursor).unwrap();
        assert_eq!(cursor.position(), bytes.len());
        assert_eq!(parse_checked(&bytes), f);
    }
}

#[test]
fn resp_error_describe() {
    assert_eq!(RespError::Incomplete.describe(), "incomplete RESP frame");
    assert_eq!(
        RespError::Invalid("boom".to_string()).describe(),
        "invalid RESP frame: boom"
    );
}

#[test]
fn clone_is_deep_and_equal() {
    let f = Frame::Array(vec![
        Frame::Simple("s".to_string()),
        Frame::Error("e".to_string()),
        Frame::Integer(9),
        bulk("b"),
        Frame::Null,
        Frame::Array(vec![bulk("inner")]),
    ]);
    let g = f.clone();
    assert_eq!(f, g);
    assert_eq!(encode(&f), encode(&g));
}
