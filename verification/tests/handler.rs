use kiwitu::client;
use kiwitu::game::Request;
use kiwitu::handler::{Frame, FrameAction, TickAction, WsSession, CLIENT_TIMEOUT, HEARTBEAT_INTERVAL};
use kiwitu::RoomBrief;

#[test]
fn liveness_constants() {
    assert_eq!(HEARTBEAT_INTERVAL, 5);
    assert_eq!(CLIENT_TIMEOUT, 10);
}

#[test]
fn tick_before_timeout_pings() {
    let mut s = WsSession::new(0);
    assert_eq!(s.on_tick(5), TickAction::Ping);
    // exactly at the threshold the connection is still alive
    assert_eq!(s.on_tick(10), TickAction::Ping);
}

#[test]
fn timeout_disconnects_exactly_once() {
    let mut s = WsSession::new(0);
    assert_eq!(s.on_tick(11), TickAction::Stop);
    assert!(s.stopping());
    assert!(!s.stopping());
    assert!(!s.stopping());
}

#[test]
fn close_frame_stops_then_single_notice() {
    let mut s = WsSession::new(0);
    assert_eq!(s.on_frame(Frame::Close, 1), FrameAction::Stop);
    assert!(s.stopping());
    assert!(!s.stopping());
}

#[test]
fn probes_refresh_liveness() {
    let mut s = WsSession::new(0);
    assert_eq!(s.on_frame(Frame::Ping, 7), FrameAction::Pong);
    assert_eq!(s.last_beat, 7);
    assert_eq!(s.on_frame(Frame::Pong, 9), FrameAction::Ignore);
    assert_eq!(s.last_beat, 9);
    // an activity probe at 9 keeps the connection alive past 11
    assert_eq!(s.on_tick(11), TickAction::Ping);
    assert_eq!(s.on_tick(20), TickAction::Stop);
}

#[test]
fn any_frame_refreshes_liveness() {
    let mut s = WsSession::new(0);
    // an inbound data frame is a sign of life, decodable or not
    let _ = s.on_frame(Frame::Binary(None), 9);
    assert_eq!(s.last_beat, 9);
    assert_eq!(s.on_tick(11), TickAction::Ping);
    let _ = s.on_frame(Frame::Text, 12);
    assert_eq!(s.last_beat, 12);
    let _ = s.on_frame(Frame::Nop, 14);
    assert_eq!(s.last_beat, 14);
    assert_eq!(s.on_tick(25), TickAction::Stop);
}

#[test]
fn binary_frames_route_to_requests() {
    let mut s = WsSession::new(0);
    assert!(s.on_registered(Some(42)));
    assert_eq!(s.id, 42);
    let a = s.on_frame(
        Frame::Binary(Some(client::Message::Chat { text: String::from("hi"), to: None })),
        3,
    );
    match a {
        FrameAction::Forward(Request::Chat(c)) => {
            assert_eq!(c.id, 42);
            assert_eq!(c.text, "hi");
            assert_eq!(c.to, None);
        }
        other => panic!("expected a forwarded chat, got {:?}", other),
    }
    let a = s.on_frame(
        Frame::Binary(Some(client::Message::CreateRoom {
            room: RoomBrief { id: 0, title: String::from("den") },
        })),
        3,
    );
    match a {
        FrameAction::Forward(Request::CreateRoom(c)) => {
            assert_eq!(c.id, 42);
            assert_eq!(c.room.title, "den");
        }
        other => panic!("expected a forwarded create-room, got {:?}", other),
    }
    let a = s.on_frame(Frame::Binary(Some(client::Message::QuitRoom)), 3);
    match a {
        FrameAction::Forward(Request::QuitRoom(q)) => assert_eq!(q.id, 42),
        other => panic!("expected a forwarded quit-room, got {:?}", other),
    }
}

#[test]
fn undecodable_and_text_frames_are_dropped() {
    let mut s = WsSession::new(0);
    assert_eq!(s.on_frame(Frame::Binary(None), 3), FrameAction::Ignore);
    assert_eq!(s.on_frame(Frame::Text, 3), FrameAction::Ignore);
    assert_eq!(s.on_frame(Frame::Nop, 3), FrameAction::Ignore);
}

#[test]
fn registration_failure_stops() {
    let mut s = WsSession::new(0);
    assert!(!s.on_registered(None));
    assert!(s.stopping());
    assert!(!s.stopping());
}
