use logteewoop::{
    HeartbeatAction, SessionAction, StreamWebSocket, WebSocketRequest, WsEvent,
};

#[test]
fn heartbeat_stops_only_past_the_threshold() {
    let session = StreamWebSocket::new(1, 0);
    assert_eq!(session.heartbeat_tick(20_000), HeartbeatAction::Ping);
    assert_eq!(session.heartbeat_tick(20_001), HeartbeatAction::Stop);
}

#[test]
fn ping_refreshes_liveness_and_is_echoed() {
    let mut session = StreamWebSocket::new(1, 0);
    let action = session.handle(WsEvent::Ping(vec![4, 5]), 7);
    match action {
        Some(SessionAction::Pong(payload)) => assert_eq!(payload, vec![4, 5]),
        other => panic!("expected an echoed pong, got {:?}", other),
    }
    assert_eq!(session.last_heartbeat, 7);
    // a silence that would have killed the fresh session no longer does
    assert_eq!(session.heartbeat_tick(20_001), HeartbeatAction::Ping);
}

#[test]
fn pong_refreshes_liveness_silently() {
    let mut session = StreamWebSocket::new(1, 0);
    let action = session.handle(WsEvent::Pong, 9);
    assert!(action.is_none());
    assert_eq!(session.last_heartbeat, 9);
}

#[test]
fn requests_are_forwarded_with_untouched_liveness() {
    let mut session = StreamWebSocket::new(1, 3);
    let action = session.handle(
        WsEvent::Request(WebSocketRequest::Subscribe { stream_id: 0x42 }),
        8,
    );
    match action {
        Some(SessionAction::Forward(req)) => {
            assert_eq!(req, WebSocketRequest::Subscribe { stream_id: 0x42 })
        },
        other => panic!("expected a forwarded request, got {:?}", other),
    }
    assert_eq!(session.last_heartbeat, 3);
    let action = session.handle(
        WsEvent::Request(WebSocketRequest::Unsubscribe { stream_id: 0x42 }),
        8,
    );
    assert!(matches!(
        action,
        Some(SessionAction::Forward(WebSocketRequest::Unsubscribe { stream_id: 0x42 }))
    ));
}

#[test]
fn malformed_input_is_rejected_without_teardown() {
    let mut session = StreamWebSocket::new(1, 0);
    let action = session.handle(WsEvent::Malformed, 1);
    assert!(matches!(action, Some(SessionAction::Reject)));
}

#[test]
fn binary_frames_are_ignored() {
    let mut session = StreamWebSocket::new(1, 0);
    assert!(session.handle(WsEvent::Binary, 1).is_none());
}

#[test]
fn close_stops_the_session() {
    let mut session = StreamWebSocket::new(1, 0);
    let action = session.handle(WsEvent::Close, 1);
    assert!(matches!(action, Some(SessionAction::Stop)));
}

#[test]
fn torn_down_session_leaves_every_subscriber_set() {
    // the teardown contract: after Stop, the caller removes the socket
    // from the store, and no stream pushes to it any more
    let mut cache = logteewoop::StreamCache::new();
    cache.subscribe(0x1, 5, 0);
    cache.subscribe(0x2, 5, 0);
    let mut session = StreamWebSocket::new(5, 0);
    if session.heartbeat_tick(20_001) == HeartbeatAction::Stop {
        cache.remove_socket(5);
    }
    assert_eq!(cache.write_chunk(0x1, b"x\n", 1).len(), 0);
    assert_eq!(cache.write_chunk(0x2, b"x\n", 1).len(), 0);
}
