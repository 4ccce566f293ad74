use respframe::connection::{Connection, Error as ConnError};
use respframe::frame::{Cursor, Error, Frame, ProtocolError};

fn parse_all(bytes: &[u8]) -> Result<Frame, Error> {
    let mut cur = Cursor::new(bytes);
    Frame::parse(&mut cur)
}

fn check_all(bytes: &[u8]) -> Result<(), Error> {
    let mut cur = Cursor::new(bytes);
    Frame::check(&mut cur)
}

#[test]
fn cursor_primitives() {
    let data = b"ab\r\ncd";
    let mut cur = Cursor::new(data);
    assert_eq!(respframe::frame::peek_u8(&mut cur), Ok(b'a'));
    assert_eq!(respframe::frame::get_u8(&mut cur), Ok(b'a'));
    assert_eq!(cur.consumed(), 1);
    let line = respframe::frame::get_line(&mut cur).unwrap();
    assert_eq!(line, b"b");
    assert_eq!(cur.consumed(), 4);
    assert_eq!(respframe::frame::skip(&mut cur, 2), Ok(()));
    assert_eq!(cur.consumed(), 6);
    assert_eq!(respframe::frame::skip(&mut cur, 1), Err(Error::Incomplete));
    assert_eq!(respframe::frame::get_u8(&mut cur), Err(Error::Incomplete));
    assert_eq!(respframe::frame::peek_u8(&mut cur), Err(Error::Incomplete));
    assert_eq!(respframe::frame::get_line(&mut cur), Err(Error::Incomplete));
}

#[test]
fn get_decimal_reads_strict_lines() {
    let mut cur = Cursor::new(b"123\r\nrest");
    assert_eq!(respframe::frame::get_decimal(&mut cur), Ok(123));
    assert_eq!(cur.consumed(), 5);
    let mut bad = Cursor::new(b"12x\r\n");
    assert_eq!(
        respframe::frame::get_decimal(&mut bad),
        Err(Error::Other(ProtocolError::InvalidFormat))
    );
}

#[test]
fn simple_round_trip() {
    let f = Frame::Simple(String::from("OK"));
    let enc = f.encode();
    assert_eq!(enc, b"+OK\r\n".to_vec());
    assert_eq!(parse_all(&enc).unwrap(), f);
}

#[test]
fn error_round_trip() {
    let f = Frame::Error(String::from("Error message"));
    let enc = f.encode();
    assert_eq!(enc, b"-Error message\r\n".to_vec());
    assert_eq!(parse_all(&enc).unwrap(), f);
}

#[test]
fn integer_round_trip() {
    let f = Frame::Integer(42);
    let enc = f.encode();
    assert_eq!(enc, b":42\r\n".to_vec());
    assert_eq!(parse_all(&enc).unwrap(), f);

    let max = Frame::Integer(u64::MAX);
    let enc = max.encode();
    assert_eq!(enc, b":18446744073709551615\r\n".to_vec());
    assert_eq!(parse_all(&enc).unwrap(), max);
}

#[test]
fn bulk_round_trip() {
    let f = Frame::Bulk(b"hello".to_vec());
    let enc = f.encode();
    assert_eq!(enc, b"$5\r\nhello\r\n".to_vec());
    assert_eq!(parse_all(&enc).unwrap(), f);
}

#[test]
fn bulk_binary_safe_payload() {
    // the payload may contain terminator bytes; the length prefix rules
    let f = Frame::Bulk(b"a\r\nb\0c".to_vec());
    let enc = f.encode();
    assert_eq!(enc, b"$6\r\na\r\nb\0c\r\n".to_vec());
    assert_eq!(parse_all(&enc).unwrap(), f);
}

#[test]
fn null_round_trip() {
    let f = Frame::Null;
    let enc = f.encode();
    assert_eq!(enc, b"$-1\r\n".to_vec());
    assert_eq!(parse_all(&enc).unwrap(), f);
}

#[test]
fn nested_array_round_trip() {
    let f = Frame::Array(vec![
        Frame::Simple(String::from("a")),
        Frame::Array(vec![Frame::Integer(7), Frame::Null]),
        Frame::Bulk(b"xy".to_vec()),
    ]);
    let enc = f.encode();
    assert_eq!(enc, b"*3\r\n+a\r\n*2\r\n:7\r\n$-1\r\n$2\r\nxy\r\n".to_vec());
    assert_eq!(parse_all(&enc).unwrap(), f);
}

#[test]
fn empty_array_round_trip() {
    let f = Frame::Array(vec![]);
    let enc = f.encode();
    assert_eq!(enc, b"*0\r\n".to_vec());
    assert_eq!(parse_all(&enc).unwrap(), f);
}

#[test]
fn null_sentinel_decodes_to_null() {
    assert_eq!(parse_all(b"$-1\r\n").unwrap(), Frame::Null);
}

#[test]
fn other_negative_bulk_headers_are_protocol_errors() {
    for bad in [&b"$-2\r\n"[..], b"$-12\r\n", b"$-0\r\n", b"$-1x\r\n", b"$-\r\n"] {
        assert_eq!(
            parse_all(bad),
            Err(Error::Other(ProtocolError::InvalidFormat)),
            "expected a protocol error for {:?}",
            bad
        );
        assert_eq!(check_all(bad), Err(Error::Other(ProtocolError::InvalidFormat)));
    }
}

#[test]
fn strict_decimal_lines() {
    assert_eq!(parse_all(b":007\r\n").unwrap(), Frame::Integer(7));
    for bad in [&b":12a\r\n"[..], b":-1\r\n", b":+5\r\n", b":\r\n", b": 1\r\n"] {
        assert_eq!(
            parse_all(bad),
            Err(Error::Other(ProtocolError::InvalidFormat)),
            "expected a protocol error for {:?}",
            bad
        );
    }
    // one past u64::MAX overflows and is malformed, not incomplete
    assert_eq!(
        parse_all(b":18446744073709551616\r\n"),
        Err(Error::Other(ProtocolError::InvalidFormat))
    );
}

#[test]
fn invalid_type_byte() {
    assert_eq!(
        parse_all(b"x\r\n"),
        Err(Error::Other(ProtocolError::InvalidTypeByte(b'x')))
    );
}

#[test]
fn invalid_utf8_line_is_protocol_error() {
    assert_eq!(
        parse_all(b"+\xff\xfe\r\n"),
        Err(Error::Other(ProtocolError::InvalidFormat))
    );
    assert_eq!(
        check_all(b"+\xff\xfe\r\n"),
        Err(Error::Other(ProtocolError::InvalidFormat))
    );
}

#[test]
fn incomplete_inputs() {
    for short in [
        &b""[..],
        b"+",
        b"+hel",
        b"+hello\r",
        b":12",
        b"$",
        b"$-",
        b"$-1\r",
        b"$5\r\nhel",
        b"$5\r\nhello\r",
        b"*",
        b"*2\r\n+a\r\n",
    ] {
        assert_eq!(parse_all(short), Err(Error::Incomplete), "for {:?}", short);
        assert_eq!(check_all(short), Err(Error::Incomplete), "for {:?}", short);
    }
}

#[test]
fn array_with_missing_elements_is_incomplete() {
    // a count of 3 followed by only 2 complete sub-frames: never a 2-element array
    let bytes = b"*3\r\n+a\r\n+b\r\n";
    assert_eq!(parse_all(bytes), Err(Error::Incomplete));
    let mut conn = Connection::new();
    conn.feed(bytes);
    assert_eq!(conn.try_read_frame(), Ok(None));
}

#[test]
fn validate_ok_means_decode_ok() {
    // two-phase consistency: wherever check accepts, parse yields a frame
    let samples: [&[u8]; 6] = [
        b"+OK\r\n",
        b":123\r\n",
        b"$4\r\nPING\r\n",
        b"$-1\r\n",
        b"*2\r\n:1\r\n:2\r\n",
        b"*1\r\n*1\r\n+deep\r\n",
    ];
    for bytes in samples {
        let mut c1 = Cursor::new(bytes);
        assert!(Frame::check(&mut c1).is_ok());
        let mut c2 = Cursor::new(bytes);
        let parsed = Frame::parse(&mut c2);
        assert!(parsed.is_ok(), "decode after successful validate for {:?}", bytes);
        assert_eq!(c1.consumed(), c2.consumed());
    }
}

#[test]
fn validate_advances_exactly_past_the_frame() {
    let bytes = b"+first\r\n+second\r\n";
    let mut cur = Cursor::new(bytes);
    assert!(Frame::check(&mut cur).is_ok());
    assert_eq!(cur.consumed(), 8);
}

#[test]
fn ping_request_scenario() {
    // one delivery of `*1\r\n$4\r\nPING\r\n` yields exactly one frame,
    // and echoing it reproduces the identical wire bytes
    let bytes = b"*1\r\n$4\r\nPING\r\n";
    let mut conn = Connection::new();
    conn.feed(bytes);
    let frame = conn.try_read_frame().unwrap().unwrap();
    assert_eq!(frame, Frame::Array(vec![Frame::Bulk(b"PING".to_vec())]));
    assert_eq!(conn.try_read_frame(), Ok(None));
    assert_eq!(frame.encode(), bytes.to_vec());
}

#[test]
fn fragmentation_independence_at_every_offset() {
    let frame = Frame::Array(vec![
        Frame::Bulk(b"PING".to_vec()),
        Frame::Simple(String::from("ok")),
        Frame::Integer(1009),
    ]);
    let enc = frame.encode();
    for cut in 0..=enc.len() {
        let mut conn = Connection::new();
        conn.feed(&enc[..cut]);
        if cut < enc.len() {
            assert_eq!(conn.try_read_frame(), Ok(None), "cut at {}", cut);
        }
        conn.feed(&enc[cut..]);
        let got = conn.try_read_frame().unwrap().unwrap();
        assert_eq!(got, frame, "cut at {}", cut);
    }
}

#[test]
fn trailing_bytes_stay_buffered() {
    let mut conn = Connection::new();
    conn.feed(b"+one\r\n+two\r\n+thr");
    assert_eq!(
        conn.try_read_frame().unwrap().unwrap(),
        Frame::Simple(String::from("one"))
    );
    assert_eq!(
        conn.try_read_frame().unwrap().unwrap(),
        Frame::Simple(String::from("two"))
    );
    assert_eq!(conn.try_read_frame(), Ok(None));
    conn.feed(b"ee\r\n");
    assert_eq!(
        conn.try_read_frame().unwrap().unwrap(),
        Frame::Simple(String::from("three"))
    );
}

#[test]
fn malformed_bytes_condemn_the_connection() {
    let mut conn = Connection::new();
    conn.feed(b"!oops\r\n");
    assert_eq!(
        conn.try_read_frame(),
        Err(ConnError::Protocol(ProtocolError::InvalidTypeByte(b'!')))
    );
}

#[test]
fn peer_close_decision() {
    let conn = Connection::new();
    assert!(conn.on_peer_closed());
    let mut mid = Connection::new();
    mid.feed(b"+par");
    assert!(!mid.on_peer_closed());
}
