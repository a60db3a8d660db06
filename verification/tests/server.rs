use resp_store::commands::types::ResponseError;
use resp_store::resp::types::{MultiBulk, ParseError, RESPMap, RESPSet, RESPValue};
use resp_store::server::{dispatch, read_request, timeout_ms};

fn bulk(s: &str) -> RESPValue {
    RESPValue::BulkString(s.to_string())
}

fn command(words: &[&str]) -> RESPValue {
    RESPValue::Array(MultiBulk(words.iter().map(|w| bulk(w)).collect()))
}

#[test]
fn server_read_request() {
    let whole = read_request(b"*2\r\n$4\r\nECHO\r\n$2\r\nhi\r\n").unwrap();
    assert_eq!(whole, Ok(command(&["ECHO", "hi"])));
    assert_eq!(read_request(b"*2\r\n$4\r\nECHO\r\n").unwrap(), Err(ParseError::Incomplete));
    assert_eq!(read_request(b"?what\r\n").unwrap(), Err(ParseError::Invalid));
    assert!(read_request(&[0x2b, 0xff, 0x0d, 0x0a]).is_none());
}

#[test]
fn server_dispatch() {
    assert_eq!(dispatch(&command(&["ECHO", "hello"])), Ok(bulk("hello")));
    assert_eq!(dispatch(&command(&["eChO"])), Ok(bulk("")));
    assert_eq!(dispatch(&command(&["PiNg"])), Ok(RESPValue::SimpleString("PONG".to_string())));
    assert_eq!(dispatch(&command(&["GET", "k"])), Err(ResponseError::UnsupportedCommandError));
    assert_eq!(dispatch(&command(&["PINGS"])), Err(ResponseError::UnsupportedCommandError));
    assert_eq!(dispatch(&command(&[])), Err(ResponseError::MalformedRequestError));
    assert_eq!(dispatch(&bulk("PING")), Err(ResponseError::MalformedRequestError));
    assert_eq!(
        dispatch(&RESPValue::Array(MultiBulk(vec![RESPValue::Integer(1)]))),
        Err(ResponseError::MalformedRequestError)
    );
}

#[test]
fn server_timeout_setting() {
    assert_eq!(timeout_ms(None), 0);
    assert_eq!(timeout_ms(Some("1500".to_string())), 1500);
    assert_eq!(timeout_ms(Some("+7".to_string())), 7);
    assert_eq!(timeout_ms(Some("-1".to_string())), 0);
    assert_eq!(timeout_ms(Some("12ms".to_string())), 0);
    assert_eq!(timeout_ms(Some("18446744073709551616".to_string())), 0);
    assert_eq!(timeout_ms(Some("18446744073709551615".to_string())), u64::MAX);
}

#[test]
fn double_values_compare_by_number() {
    let d = |s: &str| RESPValue::Double(s.to_string());
    assert_eq!(d("1.5e1"), d("15"));
    assert_eq!(d("0"), d("-0.0"));
    assert_eq!(d("nan"), d("NaN"));
    assert_eq!(d("Infinity"), d("inf"));
    assert_ne!(d("inf"), d("-inf"));
    assert_ne!(d("1.0"), d("1.01"));
    assert_eq!(d("120.000"), d("1.2E2"));
    assert_eq!(d(".5"), d("5e-1"));
    assert_ne!(d("5e-1"), d("-5e-1"));
    assert_eq!(
        d("1e99999999999999999999999999999999999999999"),
        d("10e99999999999999999999999999999999999999998")
    );
    assert_ne!(
        d("1e99999999999999999999999999999999999999999"),
        d("1e-99999999999999999999999999999999999999999")
    );
    assert_eq!(d("2e-3"), d("0.002"));
    assert_ne!(d("abc"), d("abd"));
    assert_eq!(d("abc"), d("abc"));
}

#[test]
fn codec_round_trip_of_nested_value() {
    let value = RESPValue::Attribute {
        metadata: RESPMap(vec![(bulk("ttl"), RESPValue::Integer(-3))]),
        value: Box::new(RESPValue::Array(MultiBulk(vec![
            RESPValue::SetValue(RESPSet(vec![RESPValue::Boolean(true), RESPValue::Null])),
            RESPValue::VerbatimString { encoding: "mkd".to_string(), data: "a\r\nb".to_string() },
            RESPValue::Double("-2.5e3".to_string()),
            RESPValue::BulkError("ERR x".to_string()),
        ]))),
    };
    let text = value.to_string();
    assert_eq!(text.parse::<RESPValue>(), Ok(value));
    let mut bytes = text.clone().into_bytes();
    bytes.extend_from_slice(b":1\r\n");
    let (decoded, used) = RESPValue::decode(&bytes).ok().unwrap();
    assert_eq!(used, text.len());
    assert_eq!(decoded.to_string(), text);
}

#[test]
fn codec_big_number_is_canonical() {
    assert_eq!(
        "(+0012\r\n".parse::<RESPValue>(),
        Ok(RESPValue::BigNum("12".to_string()))
    );
    assert_eq!("(-0\r\n".parse::<RESPValue>(), Ok(RESPValue::BigNum("0".to_string())));
    assert_eq!(RESPValue::BigNum("-45".to_string()).to_string(), "(-45\r\n");
}

#[test]
fn codec_map_keys_are_unique() {
    let parsed = "%2\r\n+k\r\n:1\r\n+k\r\n:2\r\n".parse::<RESPValue>();
    assert_eq!(
        parsed,
        Ok(RESPValue::MapValue(RESPMap(vec![(RESPValue::SimpleString("k".to_string()), RESPValue::Integer(2))])))
    );
}

#[test]
fn codec_prefixes_are_incomplete() {
    let value = RESPValue::MapValue(RESPMap(vec![
        (bulk("list"), RESPValue::Array(MultiBulk(vec![RESPValue::Integer(12), RESPValue::Null]))),
        (RESPValue::SimpleString("n".to_string()), RESPValue::Double("1.5".to_string())),
    ]));
    let bytes = value.encode();
    for k in 0..bytes.len() {
        assert!(matches!(RESPValue::decode(&bytes[..k]), Err(ParseError::Incomplete)), "prefix {}", k);
    }
    assert!(matches!(RESPValue::decode(&bytes), Ok((_, n)) if n == bytes.len()));
}

#[test]
fn equality_is_symmetric_and_transitive() {
    let d = |s: &str| RESPValue::Double(s.to_string());
    let m1 = RESPValue::MapValue(RESPMap(vec![(bulk("a"), d("1.5")), (bulk("b"), d("2"))]));
    let m2 = RESPValue::MapValue(RESPMap(vec![(bulk("b"), d("2e0")), (bulk("a"), d("15e-1"))]));
    let m3 = RESPValue::MapValue(RESPMap(vec![(bulk("a"), d("1.50")), (bulk("b"), d("+2.0"))]));
    assert_eq!(m1, m2);
    assert_eq!(m2, m1);
    assert_eq!(m2, m3);
    assert_eq!(m1, m3);
    let s1 = RESPValue::SetValue(RESPSet(vec![d("0"), RESPValue::Integer(1)]));
    let s2 = RESPValue::SetValue(RESPSet(vec![RESPValue::Integer(1), d("-0.0")]));
    assert_eq!(s1, s2);
    assert_eq!(s2, s1);
    let s3 = RESPValue::SetValue(RESPSet(vec![RESPValue::Integer(1), d("1")]));
    assert_ne!(s1, s3);
    assert_ne!(s3, s1);
}
