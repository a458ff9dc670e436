use respkv::Command;
use respkv::ParserError;
use respkv::encode_command;
use respkv::parse;

fn bulk(bytes: &[u8]) -> Command {
    Command::BulkString { value: bytes.to_vec() }
}

fn expect_array_of_bulks(cmd: Command) -> Vec<Vec<u8>> {
    match cmd {
        Command::Array { values } => values
            .into_iter()
            .map(|c| match c {
                Command::BulkString { value } => value,
                _ => panic!("expected a bulk string element"),
            })
            .collect(),
        _ => panic!("expected an array"),
    }
}

#[test]
fn decode_ping_request() {
    let input = b"*1\r\n$4\r\nPING\r\n";
    let (cmd, used) = parse(input).unwrap();
    assert_eq!(used, input.len());
    let parts = expect_array_of_bulks(cmd);
    assert_eq!(parts.len(), 1);
    assert_eq!(parts[0], b"PING".to_vec());
}

#[test]
fn decode_echo_request() {
    let input = b"*2\r\n$4\r\nECHO\r\n$5\r\nhello\r\n";
    let (cmd, used) = parse(input).unwrap();
    assert_eq!(used, input.len());
    let parts = expect_array_of_bulks(cmd);
    assert_eq!(parts.len(), 2);
    assert_eq!(parts[0], b"ECHO".to_vec());
    assert_eq!(parts[1], b"hello".to_vec());
}

#[test]
fn decode_simple_string_and_integer() {
    let (cmd, used) = parse(b"+OK\r\n").unwrap();
    assert_eq!(used, 5);
    match cmd {
        Command::SimpleString { value } => assert_eq!(value, b"OK".to_vec()),
        _ => panic!("expected a simple string"),
    }

    let (cmd, used) = parse(b":-42\r\n").unwrap();
    assert_eq!(used, 6);
    match cmd {
        Command::Integer { value } => assert_eq!(value, -42),
        _ => panic!("expected an integer"),
    }

    let (cmd, _) = parse(b":9223372036854775807\r\n").unwrap();
    match cmd {
        Command::Integer { value } => assert_eq!(value, i64::MAX),
        _ => panic!("expected an integer"),
    }

    let (cmd, _) = parse(b":-9223372036854775808\r\n").unwrap();
    match cmd {
        Command::Integer { value } => assert_eq!(value, i64::MIN),
        _ => panic!("expected an integer"),
    }
}

#[test]
fn decode_error_frame() {
    let (cmd, used) = parse(b"-ERR boom\r\n").unwrap();
    assert_eq!(used, 11);
    match cmd {
        Command::Error { value } => assert_eq!(value, b"ERR boom".to_vec()),
        _ => panic!("expected an error frame"),
    }
}

#[test]
fn decode_null_bulk() {
    let (cmd, used) = parse(b"$-1\r\n").unwrap();
    assert_eq!(used, 5);
    assert!(matches!(cmd, Command::Null));
}

#[test]
fn bulk_strings_are_binary_safe() {
    // Payload holds \r, \n, NUL and a high byte; the length prefix rules.
    let input = b"$6\r\na\r\nb\x00\xff\r\n";
    let (cmd, used) = parse(input).unwrap();
    assert_eq!(used, input.len());
    match cmd {
        Command::BulkString { value } => assert_eq!(value, b"a\r\nb\x00\xff".to_vec()),
        _ => panic!("expected a bulk string"),
    }
}

#[test]
fn decode_truncated_inputs_ask_for_more() {
    for input in [
        &b"*2\r\n$3\r\nGET\r\n"[..],
        &b"*1\r\n$4\r\nPI"[..],
        &b"$10\r\nhello"[..],
        &b"+OK\r"[..],
        &b""[..],
    ] {
        match parse(input) {
            Err(ParserError::EmptyInput) | Err(ParserError::UnexpectedEOF) => {}
            other => panic!("expected an incomplete-input error, got {:?}", other),
        }
    }
}

#[test]
fn decode_rejects_malformed_frames() {
    assert!(matches!(parse(b"?what\r\n"), Err(ParserError::UnknownTypeByte)));
    assert!(matches!(parse(b"$abc\r\nxx\r\n"), Err(ParserError::BadLength)));
    assert!(matches!(parse(b"*-3\r\n"), Err(ParserError::BadLength)));
    assert!(matches!(parse(b":12a\r\n"), Err(ParserError::BadInteger)));
    assert!(matches!(parse(b":\r\n"), Err(ParserError::BadInteger)));
    assert!(matches!(parse(b"$3\r\nabcX\n"), Err(ParserError::MissingTerminator)));
    assert!(matches!(parse(b"+OK\rX"), Err(ParserError::MissingTerminator)));
}

#[test]
fn decode_accepts_leading_zero_lengths() {
    let (cmd, used) = parse(b"$03\r\nabc\r\n").unwrap();
    assert_eq!(used, 10);
    match cmd {
        Command::BulkString { value } => assert_eq!(value, b"abc".to_vec()),
        _ => panic!("expected a bulk string"),
    }
}

#[test]
fn decode_consumes_one_frame_only() {
    let input = b"+first\r\n+second\r\n";
    let (cmd, used) = parse(input).unwrap();
    assert_eq!(used, 8);
    match cmd {
        Command::SimpleString { value } => assert_eq!(value, b"first".to_vec()),
        _ => panic!("expected a simple string"),
    }
    let (cmd2, used2) = parse(&input[used..]).unwrap();
    assert_eq!(used2, 9);
    match cmd2 {
        Command::SimpleString { value } => assert_eq!(value, b"second".to_vec()),
        _ => panic!("expected a simple string"),
    }
}

#[test]
fn encode_request_round_trips() {
    let cmd = Command::Array {
        values: vec![bulk(b"SET"), bulk(b"key\r\nwith\x00bytes"), bulk(b"value")],
    };
    let encoded = encode_command(&cmd);
    let (decoded, used) = parse(&encoded).unwrap();
    assert_eq!(used, encoded.len());
    let parts = expect_array_of_bulks(decoded);
    assert_eq!(parts, vec![b"SET".to_vec(), b"key\r\nwith\x00bytes".to_vec(), b"value".to_vec()]);
}

#[test]
fn encode_matches_wire_forms() {
    assert_eq!(encode_command(&Command::SimpleString { value: b"OK".to_vec() }), b"+OK\r\n".to_vec());
    assert_eq!(encode_command(&Command::Error { value: b"ERR x".to_vec() }), b"-ERR x\r\n".to_vec());
    assert_eq!(encode_command(&Command::Integer { value: -7 }), b":-7\r\n".to_vec());
    assert_eq!(encode_command(&Command::Integer { value: 1234567890 }), b":1234567890\r\n".to_vec());
    assert_eq!(encode_command(&Command::BulkString { value: b"hello".to_vec() }), b"$5\r\nhello\r\n".to_vec());
    assert_eq!(encode_command(&Command::Null), b"$-1\r\n".to_vec());
    let nested = Command::Array { values: vec![Command::Integer { value: 1 }, Command::Null] };
    assert_eq!(encode_command(&nested), b"*2\r\n:1\r\n$-1\r\n".to_vec());
}

#[test]
fn nested_arrays_round_trip() {
    let cmd = Command::Array {
        values: vec![
            Command::Array { values: vec![bulk(b"a"), bulk(b"b")] },
            Command::Integer { value: 0 },
        ],
    };
    let encoded = encode_command(&cmd);
    let (decoded, used) = parse(&encoded).unwrap();
    assert_eq!(used, encoded.len());
    assert_eq!(encode_command(&decoded), encoded);
}

#[test]
fn splitting_a_frame_at_any_boundary_is_safe() {
    let cmd = Command::Array { values: vec![bulk(b"ECHO"), bulk(b"hel\r\nlo")] };
    let encoded = encode_command(&cmd);
    for cut in 0..encoded.len() {
        // The first half alone never yields a frame, only "need more bytes".
        match parse(&encoded[..cut]) {
            Err(ParserError::EmptyInput) | Err(ParserError::UnexpectedEOF) => {}
            other => panic!("cut at {}: expected incomplete, got {:?}", cut, other),
        }
    }
    // The reassembled whole yields the frame, consuming it exactly.
    let (decoded, used) = parse(&encoded).unwrap();
    assert_eq!(used, encoded.len());
    assert_eq!(encode_command(&decoded), encoded);
}
