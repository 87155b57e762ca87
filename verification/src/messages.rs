//! Structured messages of the live channel, and the outbound deliveries
//! the store hands back for the transport to perform.
use vstd::prelude::*;
use crate::lines::{LineModel, LogLine};

verus! {

/// An inbound request on a live connection.
#[derive(Debug, Clone, Copy, PartialEq, Eq, Structural)]
pub enum WebSocketRequest {
    Subscribe { stream_id: u128 },
    Unsubscribe { stream_id: u128 },
}

/// An outbound message on a live connection: one or more lines of a
/// stream, used both for the initial snapshot and for live updates.
#[derive(Debug)]
pub enum WebSocketResponse {
    Tail { stream_id: u128, lines: Vec<LogLine> },
}

/// One delivery the transport still has to make: a response bound for
/// one subscribed socket. The store enqueues these without waiting.
#[derive(Debug)]
pub struct Outbound {
    pub socket: u64,
    pub response: WebSocketResponse,
}

/// Mathematical shape of one delivery.
#[verifier::ext_equal]
pub ghost struct PushModel {
    pub socket: u64,
    pub stream_id: u128,
    pub lines: Seq<LineModel>,
}

impl View for Outbound {
    type V = PushModel;

    open spec fn view(&self) -> PushModel {
        match self.response {
            WebSocketResponse::Tail { stream_id, lines } => PushModel {
                socket: self.socket,
                stream_id,
                lines: lines@.map_values(|l: LogLine| l@),
            },
        }
    }
}

/// The views of a vector of deliveries.
pub open spec fn push_views(v: Seq<Outbound>) -> Seq<PushModel> {
    v.map_values(|o: Outbound| o@)
}

/// The write path's transport failure: the producer's byte stream could
/// not be read. Whatever was ingested before it stays committed.
#[derive(Debug)]
pub struct ReadError;

impl ReadError {
    pub fn message(&self) -> (r: &'static str)
        ensures
            r@ == "error reading input"@,
    {
        "error reading input"
    }
}

} // verus!
