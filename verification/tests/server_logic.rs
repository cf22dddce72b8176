//! Exercises the store, the reclaimer step, admission control, the
//! accept backoff, and the handler state machine.

use my_redis::frame::Frame;
use my_redis::server::{
    handler_step, listener_should_accept, AcceptBackoff, Admission, ConnEvent, HandlerAction,
    HandlerState,
};
use my_redis::shutdown::Shutdown;
use my_redis::store::Store;

fn set_frame(key: &str, value: &[u8]) -> Frame {
    Frame::Array(vec![
        Frame::Simple("SET".to_string()),
        Frame::Simple(key.to_string()),
        Frame::Bulk(value.to_vec()),
    ])
}

fn get_frame(key: &str) -> Frame {
    Frame::Array(vec![
        Frame::Simple("GET".to_string()),
        Frame::Simple(key.to_string()),
    ])
}

fn respond(store: &mut Store, frame: Frame) -> (HandlerState, Frame) {
    let (state, action) = handler_step(HandlerState::Running, false, ConnEvent::FrameArrived(frame), store, 0);
    match action {
        HandlerAction::Respond(f) => (state, f),
        HandlerAction::Stop => panic!("expected a response"),
    }
}

#[test]
fn set_then_get_returns_the_value() {
    let mut store = Store::new();
    let (_, ok) = respond(&mut store, set_frame("hello", b"world"));
    assert_eq!(ok, Frame::Simple("OK".to_string()));
    let (_, reply) = respond(&mut store, get_frame("hello"));
    assert_eq!(reply, Frame::Bulk(b"world".to_vec()));
}

#[test]
fn get_of_absent_key_returns_null() {
    let mut store = Store::new();
    let (_, reply) = respond(&mut store, get_frame("missing"));
    assert_eq!(reply, Frame::Null);
}

#[test]
fn overwrite_is_last_write_wins() {
    let mut store = Store::new();
    respond(&mut store, set_frame("k", b"v1"));
    respond(&mut store, set_frame("k", b"v2"));
    let (_, reply) = respond(&mut store, get_frame("k"));
    assert_eq!(reply, Frame::Bulk(b"v2".to_vec()));
}

#[test]
fn overwrite_supersedes_old_expiration_schedule() {
    let mut store = Store::new();
    // First generation expires at t=100; overwrite carries no deadline.
    store.set("k".to_string(), b"v1".to_vec(), Some(100));
    store.set("k".to_string(), b"v2".to_vec(), None);
    // Past the old deadline the reclaimer drops only the stale record.
    let next = store.purge_expired(200);
    assert_eq!(next, None);
    assert_eq!(store.get(&"k".to_string(), 200), Some(b"v2".to_vec()));
}

#[test]
fn expired_entry_is_reclaimed() {
    let mut store = Store::new();
    store.set("gone".to_string(), b"x".to_vec(), Some(50));
    store.set("kept".to_string(), b"y".to_vec(), Some(500));
    let next = store.purge_expired(60);
    assert_eq!(next, Some(500));
    assert_eq!(store.get(&"gone".to_string(), 60), None);
    assert_eq!(store.get(&"kept".to_string(), 60), Some(b"y".to_vec()));
}

#[test]
fn get_rechecks_the_deadline_before_reclaim() {
    let mut store = Store::new();
    store.set("k".to_string(), b"v".to_vec(), Some(100));
    // Not yet expired.
    assert_eq!(store.get(&"k".to_string(), 99), Some(b"v".to_vec()));
    // Past the deadline the value is withheld even before a purge runs.
    assert_eq!(store.get(&"k".to_string(), 100), None);
}

#[test]
fn set_reports_new_soonest_deadline() {
    let mut store = Store::new();
    let wake1 = store.set("a".to_string(), b"1".to_vec(), Some(300));
    assert!(wake1);
    let wake2 = store.set("b".to_string(), b"2".to_vec(), Some(400));
    assert!(!wake2);
    let wake3 = store.set("c".to_string(), b"3".to_vec(), Some(100));
    assert!(wake3);
    let wake4 = store.set("d".to_string(), b"4".to_vec(), None);
    assert!(!wake4);
}

#[test]
fn purge_on_shutdown_does_nothing() {
    let mut store = Store::new();
    store.set("k".to_string(), b"v".to_vec(), Some(10));
    store.set_shutdown();
    assert!(store.is_shutdown());
    assert_eq!(store.purge_expired(100), None);
    // The entry is still there: only its deadline hides it from get.
    assert_eq!(store.get(&"k".to_string(), 5), Some(b"v".to_vec()));
}

#[test]
fn admission_blocks_at_capacity() {
    let mut a = Admission::new(2);
    assert!(a.try_acquire());
    assert!(a.try_acquire());
    // The third concurrent attempt is not admitted...
    assert!(!a.try_acquire());
    // ...until one of the first two finishes.
    a.release();
    assert!(a.try_acquire());
}

#[test]
fn backoff_doubles_then_gives_up() {
    let mut b = AcceptBackoff::new();
    let mut delays = Vec::new();
    loop {
        delays.push(b.current());
        if b.on_error() {
            break;
        }
    }
    assert_eq!(delays, vec![1, 2, 4, 8, 16, 32, 64, 128]);
}

#[test]
fn shutdown_closes_handler_between_messages() {
    let mut store = Store::new();
    let (state, action) = handler_step(
        HandlerState::Running,
        true,
        ConnEvent::ShutdownSignal,
        &mut store,
        0,
    );
    assert_eq!(state, HandlerState::Closed);
    assert!(matches!(action, HandlerAction::Stop));
}

#[test]
fn in_flight_request_completes_during_shutdown() {
    let mut store = Store::new();
    let (state, action) = handler_step(
        HandlerState::Running,
        true,
        ConnEvent::FrameArrived(set_frame("k", b"v")),
        &mut store,
        0,
    );
    // The response is still produced, then the handler drains.
    match action {
        HandlerAction::Respond(f) => assert_eq!(f, Frame::Simple("OK".to_string())),
        HandlerAction::Stop => panic!("expected a response"),
    }
    assert_eq!(state, HandlerState::Draining);
    assert_eq!(store.get(&"k".to_string(), 0), Some(b"v".to_vec()));
}

#[test]
fn no_accept_after_shutdown_trigger() {
    let a = Admission::new(8);
    assert!(listener_should_accept(false, &a));
    assert!(!listener_should_accept(true, &a));
}

#[test]
fn protocol_error_answers_error_frame_and_closes() {
    let mut store = Store::new();
    let bad = Frame::Array(vec![Frame::Simple("NOPE".to_string())]);
    let (state, action) = handler_step(
        HandlerState::Running,
        false,
        ConnEvent::FrameArrived(bad),
        &mut store,
        0,
    );
    assert_eq!(state, HandlerState::Closed);
    match action {
        HandlerAction::Respond(Frame::Error(_)) => {}
        other => panic!("got {:?}", other),
    }
}

#[test]
fn stream_end_closes_cleanly() {
    let mut store = Store::new();
    let (state, action) = handler_step(
        HandlerState::Running,
        false,
        ConnEvent::StreamEnded,
        &mut store,
        0,
    );
    assert_eq!(state, HandlerState::Closed);
    assert!(matches!(action, HandlerAction::Stop));
}

#[test]
fn shutdown_subscription_is_sticky() {
    let mut s = Shutdown::new();
    assert!(!s.is_shutdown());
    s.observe();
    assert!(s.is_shutdown());
}

#[test]
fn equal_deadlines_are_both_reclaimed() {
    let mut store = Store::new();
    store.set("a".to_string(), b"1".to_vec(), Some(100));
    store.set("b".to_string(), b"2".to_vec(), Some(100));
    assert_eq!(store.purge_expired(100), None);
    assert_eq!(store.get(&"a".to_string(), 100), None);
    assert_eq!(store.get(&"b".to_string(), 100), None);
}

#[test]
fn purge_before_deadline_reports_it() {
    let mut store = Store::new();
    store.set("a".to_string(), b"1".to_vec(), Some(100));
    assert_eq!(store.purge_expired(10), Some(100));
    assert_eq!(store.get(&"a".to_string(), 10), Some(b"1".to_vec()));
}
