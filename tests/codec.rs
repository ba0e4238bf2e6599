use rodent_redis::resp::Resp;

fn parse_all(bytes: &[u8]) -> Resp {
    let (value, used) = Resp::parse(bytes, true).expect("a closed input always reads");
    assert_eq!(used, bytes.len());
    value
}

#[test]
fn simple_round_trip() {
    let bytes = b"+OK\r\n";
    let value = parse_all(bytes);
    assert_eq!(value, Resp::Simple(b"OK".to_vec()));
    assert_eq!(value.serialize(), bytes.to_vec());
}

#[test]
fn error_round_trip() {
    let bytes = b"-ERR unknown command 'foo'\r\n";
    let value = parse_all(bytes);
    assert_eq!(value, Resp::Error(b"ERR unknown command 'foo'".to_vec()));
    assert_eq!(value.serialize(), bytes.to_vec());
}

#[test]
fn integer_round_trip() {
    for (bytes, n) in [
        (&b":0\r\n"[..], 0i64),
        (&b":42\r\n"[..], 42),
        (&b":-17\r\n"[..], -17),
        (&b":9223372036854775807\r\n"[..], i64::MAX),
        (&b":-9223372036854775808\r\n"[..], i64::MIN),
    ] {
        let value = parse_all(bytes);
        assert_eq!(value, Resp::Integer(n));
        assert_eq!(value.serialize(), bytes.to_vec());
    }
}

#[test]
fn bulk_round_trip() {
    let bytes = b"$3\r\nbar\r\n";
    let value = parse_all(bytes);
    assert_eq!(value, Resp::Bulk(b"bar".to_vec()));
    assert_eq!(value.serialize(), bytes.to_vec());
}

#[test]
fn empty_bulk_round_trip() {
    let bytes = b"$0\r\n\r\n";
    let value = parse_all(bytes);
    assert_eq!(value, Resp::Bulk(Vec::new()));
    assert_eq!(value.serialize(), bytes.to_vec());
}

#[test]
fn null_round_trip() {
    let bytes = b"$-1\r\n";
    let value = parse_all(bytes);
    assert_eq!(value, Resp::Null);
    assert_eq!(value.serialize(), bytes.to_vec());
}

#[test]
fn array_round_trip() {
    let bytes = b"*3\r\n$3\r\nSET\r\n$-1\r\n$3\r\nbar\r\n";
    let value = parse_all(bytes);
    assert_eq!(
        value,
        Resp::Array(vec![Resp::Bulk(b"SET".to_vec()), Resp::Null, Resp::Bulk(b"bar".to_vec())])
    );
    assert_eq!(value.serialize(), bytes.to_vec());
}

#[test]
fn integer_with_garbage_reads_zero() {
    assert_eq!(parse_all(b":abc\r\n"), Resp::Integer(0));
}

#[test]
fn integer_overflow_reads_zero() {
    assert_eq!(parse_all(b":9223372036854775808\r\n"), Resp::Integer(0));
}

#[test]
fn integer_reads_leading_digits() {
    assert_eq!(parse_all(b":12ab\r\n"), Resp::Integer(12));
    assert_eq!(parse_all(b":+7\r\n"), Resp::Integer(7));
}

#[test]
fn bulk_length_is_advisory() {
    assert_eq!(parse_all(b"$10\r\nabc\r\n"), Resp::Bulk(b"abc".to_vec()));
}

#[test]
fn unknown_tag_reads_null() {
    assert_eq!(Resp::parse(b"?what\r\n", false), Some((Resp::Null, 7)));
}

#[test]
fn closed_empty_input_reads_null() {
    assert_eq!(Resp::parse(b"", true), Some((Resp::Null, 0)));
}

#[test]
fn open_input_waits_for_whole_lines() {
    assert_eq!(Resp::parse(b"", false), None);
    assert_eq!(Resp::parse(b"+OK", false), None);
    assert_eq!(Resp::parse(b"$3\r\n", false), None);
    assert_eq!(Resp::parse(b"*2\r\n$3\r\nGET\r\n$3\r\n", false), None);
}

#[test]
fn closed_input_fills_missing_elements_with_null() {
    assert_eq!(
        Resp::parse(b"*3\r\n$3\r\nGET\r\n", true),
        Some((Resp::Array(vec![Resp::Bulk(b"GET".to_vec()), Resp::Null, Resp::Null]), 13))
    );
}

#[test]
fn negative_array_count_is_empty() {
    assert_eq!(parse_all(b"*-4\r\n"), Resp::Array(Vec::new()));
}

#[test]
fn parse_leaves_following_bytes() {
    let bytes = b"+PONG\r\n:1\r\n";
    assert_eq!(Resp::parse(bytes, false), Some((Resp::Simple(b"PONG".to_vec()), 7)));
    assert_eq!(Resp::parse(&bytes[7..], false), Some((Resp::Integer(1), 4)));
}

#[test]
fn short_lines_do_not_panic() {
    assert_eq!(parse_all(b"+\n"), Resp::Simple(Vec::new()));
    assert_eq!(parse_all(b"$"), Resp::Null);
    assert_eq!(parse_all(b":"), Resp::Integer(0));
}

#[test]
fn serialize_integer_reply() {
    assert_eq!(Resp::Integer(2).serialize(), b":2\r\n".to_vec());
}

#[test]
fn array_count_beyond_i32_is_empty() {
    assert_eq!(parse_all(b"*3000000000\r\n"), Resp::Array(Vec::new()));
}

#[test]
fn array_element_minus_one_is_null() {
    assert_eq!(
        Resp::parse(b"*2\r\n$-1\r\n$1\r\nx\r\n", false),
        Some((Resp::Array(vec![Resp::Null, Resp::Bulk(b"x".to_vec())]), 16))
    );
}
