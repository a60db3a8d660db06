use num_bigint::BigInt;
use resp_store::resp::types::{MultiBulk, RESPMap, RESPSet, RESPValue};
use std::f64::{INFINITY, NAN, NEG_INFINITY};
use std::str::FromStr;

fn double(v: f64) -> RESPValue {
    if v.is_nan() {
        RESPValue::Double("nan".to_string())
    } else {
        RESPValue::Double(format!("{}", v))
    }
}

#[test]
fn encode_test_simple_string() {
    let cases = vec![
        (
            RESPValue::SimpleString("OK".to_string()),
            "+OK\r\n",
            "succeeds in parsing a valid SimpleString",
        ),
        (
            RESPValue::SimpleString("".to_string()),
            "+\r\n",
            "succeeds parsing a valid SimpleString (empty)",
        ),
    ];

    for (input, expected, msg) in cases {
        assert_eq!(input.to_string(), expected, "{}", msg);
    }
}

#[test]
fn encode_test_simple_error() {
    let cases = vec![(
        RESPValue::SimpleError("Error message".to_string()),
        "-Error message\r\n",
        "succeeds parsing a valid simple error",
    )];

    for (input, expected, msg) in cases {
        assert_eq!(input.to_string(), expected, "{}", msg);
    }
}

#[test]
fn encode_test_integer() {
    let cases = vec![
        (
            RESPValue::Integer(1000),
            ":1000\r\n",
            "succeeds parsing a valid positive integer",
        ),
        (
            RESPValue::Integer(-1000),
            ":-1000\r\n",
            "succeeds parsing a valid negative integer",
        ),
    ];

    for (input, expected, msg) in cases {
        assert_eq!(input.to_string(), expected, "{}", msg);
    }
}

#[test]
fn encode_test_null() {
    let cases = vec![(RESPValue::Null, "_\r\n", "succeeds parsing null")];

    for (input, expected, msg) in cases {
        assert_eq!(input.to_string(), expected, "{}", msg);
    }
}

#[test]
fn encode_test_boolean() {
    let cases = vec![
        (
            RESPValue::Boolean(true),
            "#t\r\n",
            "succeeds in processing boolean (t)",
        ),
        (
            RESPValue::Boolean(false),
            "#f\r\n",
            "succeeds in processing boolean (f)",
        ),
    ];

    for (input, expected, msg) in cases {
        assert_eq!(input.to_string(), expected, "{}", msg);
    }
}

#[test]
fn encode_test_double() {
    let cases = vec![
        (
            double(1.23),
            ",1.23\r\n",
            "parses valid positive double",
        ),
        (
            double(-1.23),
            ",-1.23\r\n",
            "parses valid negative double",
        ),
        (
            double(123 as f64),
            ",123\r\n",
            "parses valid non-fractional double",
        ),
        (
            double(123e2 as f64),
            ",12300\r\n", // Note: the scientific notation is not kept
            "parses valid non-fractional, unsigned exponential, double",
        ),
        (
            double(123e-2 as f64),
            ",1.23\r\n",
            "parses valid non-fractional, negative exponential, double",
        ),
        (
            double(123E+2 as f64),
            ",12300\r\n",
            "parses valid non-fractional, positive exponential, double",
        ),
        (double(INFINITY), ",inf\r\n", "parses valid inf"),
        (
            double(NEG_INFINITY),
            ",-inf\r\n",
            "parses valid negative inf",
        ),
        (double(NAN), ",nan\r\n", "parses valid nan"),
    ];

    for (input, expected, msg) in cases {
        assert_eq!(input.to_string(), expected, "{}", msg);
    }
}

#[test]
fn encode_test_big_number() {
    let cases = vec![
        (
            RESPValue::BigNum(
                BigInt::from_str("3492890328409238509324850943850943825024385").unwrap().to_string(),
            ),
            "(3492890328409238509324850943850943825024385\r\n",
            "succeeds in parsing positive big number",
        ),
        (
            RESPValue::BigNum(
                BigInt::from_str("-3492890328409238509324850943850943825024385").unwrap().to_string(),
            ),
            "(-3492890328409238509324850943850943825024385\r\n",
            "succeeds in parsing negative big number",
        ),
    ];

    for (input, expected, msg) in cases {
        assert_eq!(input.to_string(), expected, "{}", msg);
    }
}

#[test]
fn encode_test_bulk_string() {
    let cases = vec![
        (
            RESPValue::BulkString("hello\r\n".to_string()),
            "$7\r\nhello\r\n\r\n",
            "succeeds in parsing a valid full-length string",
        ),
        (
            RESPValue::BulkString("hello".to_string()),
            "$5\r\nhello\r\n",
            "succeeds in parsing a valid full-length string with CRLF in content",
        ),
        (
            RESPValue::BulkString("".to_string()),
            "$0\r\n\r\n",
            "succeeds in parsing a valid empty string",
        ),
    ];

    for (input, expected, msg) in cases {
        assert_eq!(input.to_string(), expected, "{}", msg);
    }
}

#[test]
fn encode_test_null_bulk_string() {
    let cases = vec![(
        RESPValue::NullBulkString,
        "$-1\r\n",
        "succeeds in parsing a valid null bulk string",
    )];

    for (input, expected, msg) in cases {
        assert_eq!(input.to_string(), expected, "{}", msg);
    }
}

#[test]
fn encode_test_array() {
    let cases = vec![
        (
            RESPValue::Array(MultiBulk(vec![])),
            "*0\r\n",
            "succeeds in parsing empty array",
        ),
        (
            RESPValue::Array(MultiBulk(vec![
                RESPValue::BulkString("hello".to_string()),
                RESPValue::BulkString("world".to_string()),
            ])),
            "*2\r\n$5\r\nhello\r\n$5\r\nworld\r\n",
            "succeeds in parsing array with content",
        ),
        (
            RESPValue::Array(MultiBulk(vec![
                RESPValue::Integer(1),
                RESPValue::Integer(2),
                RESPValue::Integer(3),
                RESPValue::Integer(4),
                RESPValue::BulkString("hello".to_string()),
            ])),
            "*5\r\n:1\r\n:2\r\n:3\r\n:4\r\n$5\r\nhello\r\n",
            "succeeds in parsing mixed data-type array",
        ),
        (
            RESPValue::Array(MultiBulk(vec![
                RESPValue::Array(MultiBulk(vec![
                    RESPValue::Integer(1),
                    RESPValue::Integer(2),
                    RESPValue::Integer(3),
                ])),
                RESPValue::Array(MultiBulk(vec![
                    RESPValue::SimpleString("Hello".to_string()),
                    RESPValue::SimpleError("World".to_string()),
                ])),
            ])),
            "*2\r\n*3\r\n:1\r\n:2\r\n:3\r\n*2\r\n+Hello\r\n-World\r\n",
            "succeeds in parsing multi-dimensional array",
        ),
        (
            RESPValue::Array(MultiBulk(vec![
                RESPValue::BulkString("hello".to_string()),
                RESPValue::NullBulkString,
                RESPValue::NullArray,
                RESPValue::BulkString("world".to_string()),
            ])),
            "*4\r\n$5\r\nhello\r\n$-1\r\n*-1\r\n$5\r\nworld\r\n",
            "suceeds processing array with null elements",
        ),
    ];

    for (input, expected, msg) in cases {
        assert_eq!(input.to_string(), expected, "{}", msg);
    }
}

#[test]
fn encode_test_null_array() {
    let cases = vec![(
        RESPValue::NullArray,
        "*-1\r\n",
        "succeeds processing valid null array",
    )];

    for (input, expected, msg) in cases {
        assert_eq!(input.to_string(), expected, "{}", msg)
    }
}

#[test]
fn encode_test_bulk_error() {
    let cases = vec![
        (
            RESPValue::BulkError("SYNTAX invalid syntax".to_string()),
            "!21\r\nSYNTAX invalid syntax\r\n",
            "succeeds in parsing valid bulk error",
        ),
        (
            RESPValue::BulkError("".to_string()),
            "!0\r\n\r\n",
            "succeeds in parsing valid bulk error (empty)",
        ),
        (
            RESPValue::BulkError("SYNTAX invalid syntax\r\n".to_string()),
            "!23\r\nSYNTAX invalid syntax\r\n\r\n",
            "succeeds in parsing valid bulk error with CRLF within content",
        ),
    ];

    for (input, expected, msg) in cases {
        assert_eq!(input.to_string(), expected, "{}", msg);
    }
}

#[test]
fn encode_test_verbatim_string() {
    let cases = vec![
        (
            RESPValue::VerbatimString {
                encoding: "txt".to_string(),
                data: "Some string".to_string(),
            },
            "=15\r\ntxt:Some string\r\n",
            "succeeds processing valid verbatim string",
        ),
        (
            RESPValue::VerbatimString {
                encoding: "txt".to_string(),
                data: "Some string\r\n".to_string(),
            },
            "=17\r\ntxt:Some string\r\n\r\n",
            "succeeds processing valid verbatim string with CRLF within content",
        ),
    ];

    for (input, expected, msg) in cases {
        assert_eq!(input.to_string(), expected, "{}", msg);
    }
}

#[test]
fn encode_test_map() {
    let cases = vec![
        (
            RESPValue::MapValue(RESPMap(vec![
                (
                    RESPValue::SimpleString("first".to_string()),
                    RESPValue::Integer(1),
                ),
                (
                    RESPValue::SimpleString("second".to_string()),
                    RESPValue::Integer(2),
                ),
            ])),
            "%2\r\n+first\r\n:1\r\n+second\r\n:2\r\n",
            "succeeds parsing valid map",
        ),
        (
            RESPValue::MapValue(RESPMap(vec![])),
            "%0\r\n",
            "succeeds parsing valid empty map",
        ),
    ];

    for (input, _, msg) in cases {
        let rt = input.to_string().parse::<RESPValue>().unwrap();
        assert_eq!(rt, input, "{}", msg);
    }
}

#[test]
fn encode_test_attribute() {
    let cases = vec![
        (
            RESPValue::Attribute {
                metadata: RESPMap(vec![(
                    RESPValue::SimpleString("key-popularity".to_string()),
                    RESPValue::MapValue(RESPMap(vec![
                        (
                            RESPValue::BulkString("a".to_string()),
                            double(0.1923),
                        ),
                        (
                            RESPValue::BulkString("b".to_string()),
                            double(0.0012),
                        ),
                    ])),
                )]),
                value: Box::new(RESPValue::SimpleString("hello".to_string())),
            },
            "|1\r\n+key-popularity\r\n%2\r\n$1\r\na\r\n,0.1923\r\n$1\r\nb\r\n,0.0012\r\n+hello\r\n",
            "succeeds parsing valid attribute",
        ),
    ];

    for (input, _, msg) in cases {
        let rt = input.to_string().parse::<RESPValue>().unwrap();
        assert_eq!(rt, input, "{}", msg);
    }
}

#[test]
fn encode_test_set() {
    let cases = vec![
        (
            RESPValue::SetValue(RESPSet(vec![
                RESPValue::SimpleString("hello".to_string()),
                RESPValue::SimpleString("world".to_string()),
            ])),
            "~2\r\n+hello\r\n+world\r\n",
            "succeeds parsing valid set",
        ),
        (
            RESPValue::SetValue(RESPSet(vec![])),
            "~0\r\n",
            "succeeds parsing valid set (empty)",
        ),
    ];

    for (input, _, msg) in cases {
        let rt = input.to_string().parse::<RESPValue>().unwrap();
        assert_eq!(rt, input, "{}", msg);
    }
}

#[test]
fn encode_test_push() {
    let cases = vec![
        (
            RESPValue::Push(MultiBulk(vec![
                RESPValue::SimpleString("hello".to_string()),
                RESPValue::SimpleString("world".to_string()),
            ])),
            ">2\r\n+hello\r\n+world\r\n",
            "succeeds parsing valid push",
        ),
        (
            RESPValue::Push(MultiBulk(vec![])),
            ">0\r\n",
            "succeeds parsing valid push (empty)",
        ),
    ];

    for (input, expected, msg) in cases {
        assert_eq!(input.to_string(), expected, "{}", msg);
    }
}
