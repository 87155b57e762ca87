//! One live subscriber connection: liveness tracking and the decisions
//! taken for each inbound event.
//!
//! The transport owns the channel itself; it hands parsed events in and
//! performs the actions handed back. On `Stop` the caller must also
//! remove the session's socket from every stream
//! (`StreamCache::remove_socket`), so that a torn-down session appears
//! in no subscriber set.
use vstd::prelude::*;
use crate::messages::WebSocketRequest;

verus! {

/// How often a session's liveness is checked and a probe sent, in
/// milliseconds.
pub const HEARTBEAT_INTERVAL_MILLIS: i64 = 5000;

/// How long a silent peer is tolerated before teardown, in milliseconds.
pub const CLIENT_TIMEOUT_MILLIS: i64 = 20000;

/// What arrives on a live connection, already parsed by the transport.
#[derive(Debug)]
pub enum WsEvent {
    /// A liveness probe from the peer, with its payload to echo.
    Ping(Vec<u8>),
    /// The peer's answer to a probe of ours.
    Pong,
    /// A well-formed structured request.
    Request(WebSocketRequest),
    /// A text frame that did not parse as a request: a protocol error of
    /// that one message, never a reason to end the connection.
    Malformed,
    /// A binary frame; ignored.
    Binary,
    /// The peer closed the channel.
    Close,
}

/// What the session asks its transport to do in reply to an event.
#[derive(Debug)]
pub enum SessionAction {
    /// Echo a probe's payload back.
    Pong(Vec<u8>),
    /// Hand the request to the stream store, with this session's handle.
    Forward(WebSocketRequest),
    /// Drop the offending message and carry on.
    Reject,
    /// Tear the connection down, then clean every subscriber set.
    Stop,
}

/// What a liveness tick decides.
#[derive(Debug, Clone, Copy, PartialEq, Eq, Structural)]
pub enum HeartbeatAction {
    /// Send a probe out.
    Ping,
    /// The peer has been silent too long: tear the session down.
    Stop,
}

/// One live connection: its identity handle — the socket the store
/// pushes to — and when the peer last answered.
#[derive(Debug)]
pub struct StreamWebSocket {
    pub socket: u64,
    pub last_heartbeat: i64,
}

impl StreamWebSocket {
    pub open spec fn inv(&self) -> bool {
        self.last_heartbeat >= 0
    }

    /// A session created at instant `now` under its handle.
    pub fn new(socket: u64, now: i64) -> (s: StreamWebSocket)
        requires
            now >= 0,
        ensures
            s.inv(),
            s.socket == socket,
            s.last_heartbeat == now,
    {
        StreamWebSocket { socket, last_heartbeat: now }
    }

    /// One liveness tick at instant `now`: a peer silent past the
    /// threshold is torn down, otherwise a probe goes out.
    pub fn heartbeat_tick(&self, now: i64) -> (r: HeartbeatAction)
        requires
            self.inv(),
            now >= 0,
        ensures
            r == if now - self.last_heartbeat > CLIENT_TIMEOUT_MILLIS {
                HeartbeatAction::Stop
            } else {
                HeartbeatAction::Ping
            },
    {
        if now - self.last_heartbeat > CLIENT_TIMEOUT_MILLIS {
            HeartbeatAction::Stop
        } else {
            HeartbeatAction::Ping
        }
    }

    /// One inbound event at instant `now`: probes refresh liveness and
    /// are echoed, requests go to the store, a malformed message is
    /// rejected alone — the connection stays — and a close tears the
    /// session down.
    pub fn handle(&mut self, event: WsEvent, now: i64) -> (r: Option<SessionAction>)
        requires
            old(self).inv(),
            now >= 0,
        ensures
            final(self).inv(),
            final(self).socket == old(self).socket,
            final(self).last_heartbeat == (match event {
                WsEvent::Ping(_) => now,
                WsEvent::Pong => now,
                _ => old(self).last_heartbeat,
            }),
            match event {
                WsEvent::Ping(m) => r == Some(SessionAction::Pong(m)),
                WsEvent::Pong => r == None::<SessionAction>,
                WsEvent::Request(q) => r == Some(SessionAction::Forward(q)),
                WsEvent::Malformed => r == Some(SessionAction::Reject),
                WsEvent::Binary => r == None::<SessionAction>,
                WsEvent::Close => r == Some(SessionAction::Stop),
            },
    {
        match event {
            WsEvent::Ping(m) => {
                self.last_heartbeat = now;
                Some(SessionAction::Pong(m))
            },
            WsEvent::Pong => {
                self.last_heartbeat = now;
                None
            },
            WsEvent::Request(q) => Some(SessionAction::Forward(q)),
            WsEvent::Malformed => Some(SessionAction::Reject),
            WsEvent::Binary => None,
            WsEvent::Close => Some(SessionAction::Stop),
        }
    }
}

} // verus!
