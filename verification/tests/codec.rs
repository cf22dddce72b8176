//! Exercises the wire codec: exact encodings, round trips, incomplete
//! detection, and the malformed cases.

use my_redis::connection::{classify_eof, try_parse, StreamEnd};
use my_redis::frame::{Frame, FrameError};

fn parse_all(bytes: &[u8]) -> Result<Option<(Frame, usize)>, FrameError> {
    try_parse(&bytes.to_vec())
}

fn round_trips(f: Frame) {
    let enc = f.encode();
    match parse_all(&enc) {
        Ok(Some((back, n))) => {
            assert_eq!(n, enc.len());
            assert_eq!(back, f);
        }
        other => panic!("expected a complete frame, got {:?}", other),
    }
}

#[test]
fn simple_ok_encodes_exactly() {
    let f = Frame::Simple("OK".to_string());
    assert_eq!(f.encode(), b"+OK\r\n".to_vec());
}

#[test]
fn bulk_hello_encodes_exactly() {
    let f = Frame::Bulk(b"hello".to_vec());
    assert_eq!(f.encode(), b"$5\r\nhello\r\n".to_vec());
}

#[test]
fn null_encodes_exactly() {
    assert_eq!(Frame::Null.encode(), b"$-1\r\n".to_vec());
}

#[test]
fn array_encodes_exactly() {
    let f = Frame::Array(vec![
        Frame::Simple("GET".to_string()),
        Frame::Simple("hello".to_string()),
    ]);
    assert_eq!(f.encode(), b"*2\r\n+GET\r\n+hello\r\n".to_vec());
}

#[test]
fn integer_and_error_encode_exactly() {
    assert_eq!(Frame::Integer(0).encode(), b":0\r\n".to_vec());
    assert_eq!(Frame::Integer(12345).encode(), b":12345\r\n".to_vec());
    assert_eq!(Frame::Error("bad".to_string()).encode(), b"-bad\r\n".to_vec());
}

#[test]
fn round_trip_each_variant() {
    round_trips(Frame::Simple("status line".to_string()));
    round_trips(Frame::Error("some error".to_string()));
    round_trips(Frame::Integer(u64::MAX));
    round_trips(Frame::Integer(0));
    round_trips(Frame::Bulk(vec![0, 13, 10, 255, 7]));
    round_trips(Frame::Bulk(Vec::new()));
    round_trips(Frame::Null);
    round_trips(Frame::Array(Vec::new()));
    round_trips(Frame::Array(vec![
        Frame::Simple("SET".to_string()),
        Frame::Bulk(b"value with \r inside".to_vec()),
        Frame::Null,
        Frame::Array(vec![Frame::Integer(7), Frame::Error(String::new())]),
    ]));
}

#[test]
fn round_trip_non_ascii_text() {
    round_trips(Frame::Simple("héllo wörld ✓".to_string()));
}

#[test]
fn truncation_is_always_incomplete() {
    let frames = vec![
        Frame::Simple("OK".to_string()),
        Frame::Integer(4711),
        Frame::Bulk(b"hello".to_vec()),
        Frame::Null,
        Frame::Array(vec![
            Frame::Simple("GET".to_string()),
            Frame::Bulk(b"key".to_vec()),
        ]),
    ];
    for f in frames {
        let enc = f.encode();
        for cut in 0..enc.len() {
            match parse_all(&enc[..cut]) {
                Ok(None) => {}
                other => panic!("cut at {} of {:?}: got {:?}", cut, enc, other),
            }
        }
    }
}

#[test]
fn leftover_bytes_are_not_consumed() {
    let mut bytes = Frame::Simple("OK".to_string()).encode();
    bytes.extend_from_slice(b":1\r\n");
    match parse_all(&bytes) {
        Ok(Some((f, n))) => {
            assert_eq!(f, Frame::Simple("OK".to_string()));
            assert_eq!(n, 5);
        }
        other => panic!("got {:?}", other),
    }
}

#[test]
fn invalid_tag_is_malformed() {
    match parse_all(b"%3\r\n") {
        Err(FrameError::Other(_)) => {}
        other => panic!("got {:?}", other),
    }
}

#[test]
fn invalid_decimal_is_malformed() {
    assert!(matches!(parse_all(b":12a\r\n"), Err(FrameError::Other(_))));
    assert!(matches!(parse_all(b":\r\n"), Err(FrameError::Other(_))));
    assert!(matches!(
        parse_all(b":18446744073709551616\r\n"),
        Err(FrameError::Other(_))
    ));
    assert!(matches!(parse_all(b"*-1\r\n"), Err(FrameError::Other(_))));
}

#[test]
fn largest_integer_still_parses() {
    assert!(matches!(
        parse_all(b":18446744073709551615\r\n"),
        Ok(Some((Frame::Integer(u64::MAX), 23)))
    ));
}

#[test]
fn bad_null_marker_is_malformed() {
    assert!(matches!(parse_all(b"$-2\r\n"), Err(FrameError::Other(_))));
    assert!(matches!(parse_all(b"$-10\r\n"), Err(FrameError::Other(_))));
}

#[test]
fn bulk_without_terminator_is_malformed() {
    assert!(matches!(parse_all(b"$3\r\nabcXY"), Err(FrameError::Other(_))));
}

#[test]
fn invalid_utf8_text_is_malformed() {
    assert!(matches!(parse_all(b"+ab\xff\r\n"), Err(FrameError::Other(_))));
}

#[test]
fn non_ascii_utf8_text_parses() {
    let bytes = "+h\u{e9}llo\r\n".as_bytes();
    match parse_all(bytes) {
        Ok(Some((Frame::Simple(s), n))) => {
            assert_eq!(s, "héllo");
            assert_eq!(n, bytes.len());
        }
        other => panic!("got {:?}", other),
    }
}

#[test]
fn partial_crlf_is_incomplete() {
    assert!(matches!(parse_all(b"+OK\r"), Ok(None)));
    assert!(matches!(parse_all(b"$-"), Ok(None)));
    assert!(matches!(parse_all(b""), Ok(None)));
    assert!(matches!(parse_all(b"*2\r\n+GET\r\n"), Ok(None)));
}

#[test]
fn from_string_wraps_simple() {
    assert_eq!(
        Frame::from_string("hi".to_string()),
        Frame::Simple("hi".to_string())
    );
}

#[test]
fn eof_classification() {
    assert_eq!(classify_eof(0), StreamEnd::Clean);
    assert_eq!(classify_eof(3), StreamEnd::Reset);
}

#[test]
fn render_shows_human_text() {
    assert_eq!(Frame::Simple("OK".to_string()).render(), "OK");
    assert_eq!(Frame::Error("oops".to_string()).render(), "error: oops");
    assert_eq!(Frame::Integer(1234).render(), "1234");
    assert_eq!(Frame::Bulk(b"hello".to_vec()).render(), "hello");
    assert_eq!(Frame::Bulk(vec![0xff, 0xfe]).render(), "(binary)");
    assert_eq!(Frame::Null.render(), "(nil)");
    let arr = Frame::Array(vec![
        Frame::Simple("GET".to_string()),
        Frame::Bulk(b"key".to_vec()),
        Frame::Integer(2),
    ]);
    assert_eq!(arr.render(), "GET key 2");
    assert_eq!(Frame::Array(Vec::new()).render(), "");
}

#[test]
fn to_err_names_the_frame() {
    assert_eq!(
        Frame::Integer(7).to_err(),
        "unexpected frame: 7".to_string()
    );
}
