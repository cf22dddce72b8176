//! Exercises the command layer: decoding frames into commands, the
//! error cases, the canonical frame forms, and the client-side reply
//! readers.

use my_redis::client::{get_reply, response_of, set_reply};
use my_redis::cmd::{Command, Get, SetCmd};
use my_redis::frame::Frame;

fn cmd_frame(parts: Vec<Frame>) -> Frame {
    Frame::Array(parts)
}

#[test]
fn get_decodes_from_array() {
    let f = cmd_frame(vec![
        Frame::Simple("GET".to_string()),
        Frame::Simple("hello".to_string()),
    ]);
    match Command::from_frame(f) {
        Ok(Command::Get(g)) => assert_eq!(g.key, "hello"),
        other => panic!("got {:?}", err_text(other)),
    }
}

#[test]
fn get_name_is_case_insensitive() {
    let f = cmd_frame(vec![
        Frame::Bulk(b"GeT".to_vec()),
        Frame::Bulk(b"k".to_vec()),
    ]);
    match Command::from_frame(f) {
        Ok(Command::Get(g)) => assert_eq!(g.key, "k"),
        other => panic!("got {:?}", err_text(other)),
    }
}

#[test]
fn set_decodes_without_expiration() {
    let f = cmd_frame(vec![
        Frame::Simple("set".to_string()),
        Frame::Simple("hello".to_string()),
        Frame::Bulk(b"world".to_vec()),
    ]);
    match Command::from_frame(f) {
        Ok(Command::SetCmd(s)) => {
            assert_eq!(s.key, "hello");
            assert_eq!(s.value, b"world".to_vec());
            assert!(s.expiration.is_none());
        }
        other => panic!("got {:?}", err_text(other)),
    }
}

#[test]
fn set_expiration_suffix_is_accepted_but_ignored() {
    let f = cmd_frame(vec![
        Frame::Simple("SET".to_string()),
        Frame::Simple("k".to_string()),
        Frame::Bulk(b"v".to_vec()),
        Frame::Simple("PX".to_string()),
        Frame::Integer(1000),
    ]);
    match Command::from_frame(f) {
        Ok(Command::SetCmd(s)) => assert!(s.expiration.is_none()),
        other => panic!("got {:?}", err_text(other)),
    }
}

#[test]
fn unknown_command_is_rejected() {
    let f = cmd_frame(vec![
        Frame::Simple("DEL".to_string()),
        Frame::Simple("k".to_string()),
    ]);
    assert!(Command::from_frame(f).is_err());
}

#[test]
fn non_array_frame_is_rejected() {
    assert!(Command::from_frame(Frame::Simple("GET".to_string())).is_err());
}

#[test]
fn get_with_extra_argument_is_rejected() {
    let f = cmd_frame(vec![
        Frame::Simple("GET".to_string()),
        Frame::Simple("k".to_string()),
        Frame::Simple("extra".to_string()),
    ]);
    assert!(Command::from_frame(f).is_err());
}

#[test]
fn set_without_value_is_rejected() {
    let f = cmd_frame(vec![
        Frame::Simple("SET".to_string()),
        Frame::Simple("k".to_string()),
    ]);
    assert!(Command::from_frame(f).is_err());
}

#[test]
fn get_into_frame_is_canonical() {
    let g = Get { key: "hello".to_string() };
    let f = g.into_frame();
    assert_eq!(f.encode(), b"*2\r\n+GET\r\n+hello\r\n".to_vec());
}

#[test]
fn set_into_frame_includes_expiration_suffix() {
    let s = SetCmd {
        key: "k".to_string(),
        value: b"v".to_vec(),
        expiration: Some(250),
    };
    let f = s.into_frame();
    assert_eq!(f.encode(), b"*5\r\n+SET\r\n+k\r\n$1\r\nv\r\n+PX\r\n:250\r\n".to_vec());
    let bare = SetCmd {
        key: "k".to_string(),
        value: b"v".to_vec(),
        expiration: None,
    };
    assert_eq!(bare.into_frame().encode(), b"*3\r\n+SET\r\n+k\r\n$1\r\nv\r\n".to_vec());
}

#[test]
fn reply_readers_follow_the_protocol() {
    assert_eq!(
        response_of(Frame::Error("boom".to_string())),
        Err("boom".to_string())
    );
    assert_eq!(
        response_of(Frame::Simple("OK".to_string())),
        Ok(Frame::Simple("OK".to_string()))
    );
    assert_eq!(get_reply(Frame::Bulk(b"v".to_vec())), Ok(Some(b"v".to_vec())));
    assert_eq!(get_reply(Frame::Null), Ok(None));
    assert!(get_reply(Frame::Integer(1)).is_err());
    assert_eq!(set_reply(Frame::Simple("OK".to_string())), Ok(()));
    assert!(set_reply(Frame::Simple("ok".to_string())).is_err());
    assert!(set_reply(Frame::Null).is_err());
}

fn err_text(r: Result<Command, my_redis::parse::ParseError>) -> String {
    match r {
        Ok(Command::Get(g)) => format!("Get({})", g.key),
        Ok(Command::SetCmd(s)) => format!("Set({})", s.key),
        Err(e) => e.message(),
    }
}
