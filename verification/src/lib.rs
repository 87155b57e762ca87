//! An in-memory log-streaming backplane: byte chunks keyed by a stream
//! identifier are reconstructed into indexed, timestamped log lines and
//! fanned out to live subscribers, with point-in-time tail snapshots,
//! idle-stream expiration and subscriber liveness tracking.
//!
//! The store is a single authority processing one operation to
//! completion before the next; it never blocks on a subscriber, and the
//! deliveries it hands back are fire-and-forget — a slow subscriber's
//! queue is not bounded or drained here, and no backpressure reaches
//! the producer. Stream history is unbounded in memory; reaped streams
//! vanish without notice to their subscribers.
mod chunks;
mod cli;
mod clock;
mod decode;
mod laws;
mod lines;
mod messages;
mod session;
mod store;

pub use chunks::{first_nl, first_seg_len, seg_split, split_chunk, views_of, NEWLINE};
pub use cli::{run, serve_cmd, CliError, Command, ExecCommand, Opts, ServeAction, ServeCommand};
pub use clock::now_millis;
pub use decode::{decode_lossy, lossy_utf8};
pub use laws::{
    last_with_idx, lemma_empty_chunk, lemma_fanout_sent, lemma_last_with_idx_absent,
    lemma_last_with_idx_add, lemma_last_with_idx_indexed, lemma_line_indices,
    lemma_one_line_across_chunks, lemma_pushes_well_addressed, lemma_reaper, lemma_round_trip,
    lemma_sent_to_add, lemma_snapshot_plus_live, lemma_sweep_uniq, lemma_tail_snapshot,
    lemma_teardown_cleans, lemma_unsubscribe_other_streams, lemma_unsubscribed_not_pushed,
    lemma_update_preserves_others, sent_to, touched_lo,
};
pub use lines::{
    apply_segment, fanout, ingest_lines, ingest_pushes, line_closed, line_views, stream_ingest,
    stream_wf, tail_spec, LineModel, LogLine, LogStream, StreamModel,
};
pub use messages::{push_views, Outbound, PushModel, ReadError, WebSocketRequest, WebSocketResponse};
pub use session::{
    HeartbeatAction, SessionAction, StreamWebSocket, WsEvent, CLIENT_TIMEOUT_MILLIS,
    HEARTBEAT_INTERVAL_MILLIS,
};
pub use store::{
    add_sub, cache_drop_socket, cache_subscribe, cache_sweep, cache_uniq, cache_unsubscribe,
    cache_wf, cache_write, empty_stream, entry_views, has_stream, remove_sub, stream_idx,
    stream_of, stream_or_new, write_pushes, StreamCache, StreamEntry, WriteChunkError,
    EXPIRATION_INTERVAL_MILLIS, LOG_TIMEOUT_MILLIS, TAIL_LINES,
};
