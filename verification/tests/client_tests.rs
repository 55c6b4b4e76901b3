use ritsu::client::{Config, Request, Session, Step};
use ritsu::dps_message::message::MessageType;
use ritsu::message::{Message, MessageType as RtType};
use ritsu::rt_client::{
    join_extras, Request as RtRequest, Session as RtSession, Step as RtStep,
};

#[test]
fn dps_config_new_sets_retry_settings() {
    let c = Config::new(200, 3500);
    assert_eq!(c.retry_time_msec_join, 20);
    assert_eq!(c.retry_count_join, 3);
    assert_eq!(c.retry_time_msec_ready_startup, 1000);
    assert_eq!(c.retry_count_ready_startup, 3);
    assert_eq!(c.retry_time_msec_ready, 200);
    assert_eq!(c.retry_count_ready, 3);
    assert_eq!(c.retry_time_msec_done, 50);
    assert_eq!(c.retry_count_done, 3);
    assert_eq!(c.retry_time_msec_exit, 20);
    assert_eq!(c.retry_count_exit, 3);
}

#[test]
fn dps_session_without_socket_starts_no_request() {
    let mut s = Session::new(7);
    assert!(!s.is_connected());
    assert!(s.is_startup());
    assert_eq!(s.message_id(), 0);
    assert!(s.begin_request(MessageType::Join, 3).is_none());
    assert_eq!(s.message_id(), 0);
}

#[test]
fn dps_session_request_text_and_message_ids_wrap() {
    let mut s = Session::new(7);
    s.socket_opened();
    let (q, t) = s.begin_request(MessageType::Join, 3).unwrap();
    assert_eq!(t, "JOIN@1:007");
    assert_eq!(q.mid, 1);
    assert_eq!(q.attempt, 0);
    assert_eq!(q.retry_count, 3);
    for expected in 2..10u8 {
        let (q, _) = s.begin_request(MessageType::Ready, 0).unwrap();
        assert_eq!(q.mid, expected);
    }
    let (q, t) = s.begin_request(MessageType::Done, 0).unwrap();
    assert_eq!(q.mid, 0);
    assert_eq!(t, "DONE@0:007");
}

#[test]
fn dps_request_resends_until_retries_run_out() {
    let mut q = Request::new(MessageType::Ready, 4, 2);
    assert_eq!(q.on_timeout(), Step::Resend);
    assert_eq!(q.attempt, 1);
    assert_eq!(q.on_timeout(), Step::Resend);
    assert_eq!(q.attempt, 2);
    assert_eq!(q.on_timeout(), Step::Finish(MessageType::Error));
    assert_eq!(q.attempt, 2);
}

#[test]
fn dps_request_reply_outcomes() {
    let mut q = Request::new(MessageType::Ready, 4, 1);
    // A reply to another message ID counts as no reply: the request goes out again.
    assert_eq!(q.on_reply("OK@3:007"), Step::Resend);
    assert_eq!(q.attempt, 1);
    // The reply to this request ends it with its type.
    assert_eq!(q.on_reply("SKIP@4:007"), Step::Finish(MessageType::Skip));
    // A text that cannot be read ends it with Error.
    let mut q = Request::new(MessageType::Ready, 4, 5);
    assert_eq!(q.on_reply("garbage"), Step::Finish(MessageType::Error));
    assert_eq!(q.attempt, 0);
    // With no retry left a foreign reply ends the request with Error.
    let mut q = Request::new(MessageType::Ready, 4, 0);
    assert_eq!(q.on_reply("OK@5:007"), Step::Finish(MessageType::Error));
    assert_eq!(q.on_failure(), Step::Finish(MessageType::Error));
}

#[test]
fn dps_session_join_ready_exit() {
    let config = Config::new(100, 2000);
    let mut s = Session::new(1);
    s.socket_opened();
    assert!(!s.finish_join(MessageType::Error));
    assert!(!s.is_connected());
    assert!(s.finish_join(MessageType::Okay));
    assert!(s.is_connected());
    assert!(s.is_startup());
    assert_eq!(s.ready_limits(&config), (1000, 2));
    s.finish_ready();
    assert!(!s.is_startup());
    assert_eq!(s.ready_limits(&config), (100, 3));
    s.finish_exit();
    assert!(!s.is_connected());
    assert!(s.begin_request(MessageType::Ready, 0).is_none());
}

#[test]
fn rt_session_without_socket_answers_error() {
    let mut s = RtSession::new(12);
    match s.begin_request(RtType::Ready, 3, None) {
        Err(m) => {
            assert_eq!(m.mtype, RtType::Error);
            assert_eq!(m.mid, 0);
            assert_eq!(m.cid, 12);
        }
        Ok(_) => panic!("a request without a socket"),
    }
    assert_eq!(s.message_id(), 0);
}

#[test]
fn rt_session_join_request_carries_version() {
    let mut s = RtSession::new(12);
    s.socket_opened();
    let (q, t) = s.begin_request(RtType::Join, 5, Some(join_extras())).unwrap();
    assert_eq!(t, "JOIN@1:012,version=1");
    assert_eq!(q.mid, 1);
    assert_eq!(q.cid, 12);
    assert_eq!(q.retry_count, 5);
    assert_eq!(s.message_id(), 1);
}

#[test]
fn rt_session_request_too_long_answers_error() {
    let mut s = RtSession::new(12);
    s.socket_opened();
    let long = "x".repeat(600);
    match s.begin_request(RtType::Ready, 0, Some(vec![("k".to_string(), long)])) {
        Err(m) => {
            assert_eq!(m.mtype, RtType::Error);
            assert_eq!(m.mid, 1);
        }
        Ok(_) => panic!("an over-long request"),
    }
}

#[test]
fn rt_request_waits_for_its_own_reply() {
    let q = RtRequest::new(RtType::Ready, 3, 12, 1);
    assert!(matches!(q.on_reply("START@2:012"), RtStep::KeepWaiting));
    assert!(matches!(q.on_reply("not a message"), RtStep::KeepWaiting));
    assert!(matches!(q.on_receive_failure(), RtStep::KeepWaiting));
    match q.on_reply("START@3:012") {
        RtStep::Finish(m) => {
            assert_eq!(m.mtype, RtType::Start);
            assert_eq!(m.mid, 3);
        }
        _ => panic!("the reply was not taken"),
    }
    match q.on_send_failure() {
        RtStep::Finish(m) => assert_eq!(m.mtype, RtType::Error),
        _ => panic!("a failed send goes on"),
    }
}

#[test]
fn rt_request_resends_until_retries_run_out() {
    let mut q = RtRequest::new(RtType::Done, 8, 12, 1);
    assert!(matches!(q.on_timeout(), RtStep::Resend));
    assert_eq!(q.attempt, 1);
    match q.on_timeout() {
        RtStep::Finish(m) => {
            assert_eq!(m.mtype, RtType::Error);
            assert_eq!(m.mid, 8);
            assert_eq!(m.cid, 12);
        }
        _ => panic!("retries did not run out"),
    }
}

#[test]
fn rt_session_join_needs_joined() {
    let mut s = RtSession::new(3);
    s.socket_opened();
    let ok = Message::new(RtType::Okay, 1, 3, None).unwrap();
    assert!(!s.finish_join(&ok));
    assert!(!s.is_connected());
    let joined = Message::new(RtType::Joined, 1, 3, None).unwrap();
    assert!(s.finish_join(&joined));
    assert!(s.is_connected());
    assert!(s.is_startup());
    s.finish_ready();
    assert!(!s.is_startup());
    s.finish_exit();
    assert!(!s.is_connected());
}
