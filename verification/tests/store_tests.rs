use logteewoop::{LogLine, Outbound, StreamCache, WebSocketResponse};

const A: u128 = 0x11;
const B: u128 = 0x22;

fn texts(lines: &[LogLine]) -> Vec<String> {
    lines.iter().map(|l| l.line.clone()).collect()
}

fn indices(lines: &[LogLine]) -> Vec<usize> {
    lines.iter().map(|l| l.idx).collect()
}

fn snapshot_lines(out: &Outbound) -> &Vec<LogLine> {
    match &out.response {
        WebSocketResponse::Tail { lines, .. } => lines,
    }
}

#[test]
fn indices_increase_across_chunks() {
    let mut cache = StreamCache::new();
    cache.write_chunk(A, b"a\nb", 0);
    cache.write_chunk(A, b"c\nd\n", 1);
    cache.write_chunk(A, b"e\n", 2);
    let tail = cache.tail_log(A, 1000);
    assert_eq!(indices(&tail), vec![0, 1, 2, 3]);
    assert_eq!(texts(&tail), vec!["a\n", "bc\n", "d\n", "e\n"]);
}

#[test]
fn split_line_across_calls_yields_one_line() {
    let mut cache = StreamCache::new();
    cache.write_chunk(A, b"abc", 0);
    cache.write_chunk(A, b"def\n", 1);
    let tail = cache.tail_log(A, 1000);
    assert_eq!(tail.len(), 1);
    assert_eq!(tail[0].idx, 0);
    assert_eq!(tail[0].line, "abcdef\n");
}

#[test]
fn two_lines_in_one_call() {
    let mut cache = StreamCache::new();
    cache.write_chunk(A, b"a\nb\n", 0);
    let tail = cache.tail_log(A, 1000);
    assert_eq!(tail.len(), 2);
    assert_eq!(tail[0].idx, 0);
    assert_eq!(tail[0].line, "a\n");
    assert_eq!(tail[1].idx, 1);
    assert_eq!(tail[1].line, "b\n");
}

#[test]
fn empty_chunk_creates_no_line_but_refreshes_idle_timer() {
    let mut cache = StreamCache::new();
    cache.write_chunk(A, b"x\n", 0);
    assert_eq!(cache.streams[0].stream.next_idx, 1);
    // an empty write much later: no new line, no index moved
    cache.write_chunk(A, b"", 200_000);
    assert_eq!(cache.tail_log(A, 1000).len(), 1);
    assert_eq!(cache.streams[0].stream.next_idx, 1);
    // but the idle timer was refreshed: a sweep that would have reaped
    // the stream as of the first write leaves it alone
    cache.clear_expired(300_001);
    assert_eq!(cache.tail_log(A, 1000).len(), 1);
}

#[test]
fn snapshot_holds_min_of_len_and_cap() {
    let mut cache = StreamCache::new();
    for _ in 0..3 {
        cache.write_chunk(A, b"x\n", 0);
    }
    let snap = cache.subscribe(A, 9, 0);
    assert_eq!(snapshot_lines(&snap).len(), 3);

    let mut big = StreamCache::new();
    for _ in 0..1005 {
        big.write_chunk(B, b"y\n", 0);
    }
    let snap = big.subscribe(B, 9, 0);
    let lines = snapshot_lines(&snap);
    assert_eq!(lines.len(), 1000);
    assert_eq!(lines[0].idx, 5);
    assert_eq!(lines[999].idx, 1004);
}

#[test]
fn subscribe_unknown_stream_gives_empty_snapshot() {
    let mut cache = StreamCache::new();
    let snap = cache.subscribe(A, 1, 0);
    assert_eq!(snapshot_lines(&snap).len(), 0);
    // the stream now exists and pushes go to the subscriber
    let pushes = cache.write_chunk(A, b"hi\n", 1);
    assert_eq!(pushes.len(), 1);
    assert_eq!(pushes[0].socket, 1);
}

#[test]
fn unsubscribe_stops_pushes_but_only_there() {
    let mut cache = StreamCache::new();
    cache.subscribe(A, 1, 0);
    cache.subscribe(A, 2, 0);
    cache.subscribe(B, 1, 0);
    cache.unsubscribe(A, 1);
    let pushes = cache.write_chunk(A, b"x\n", 1);
    assert_eq!(pushes.len(), 1);
    assert_eq!(pushes[0].socket, 2);
    // the same session still receives its other stream
    let pushes = cache.write_chunk(B, b"x\n", 1);
    assert_eq!(pushes.len(), 1);
    assert_eq!(pushes[0].socket, 1);
}

#[test]
fn unsubscribe_unknown_stream_is_a_no_op() {
    let mut cache = StreamCache::new();
    cache.unsubscribe(A, 1);
    assert_eq!(cache.streams.len(), 0);
}

#[test]
fn reaper_removes_only_idle_streams() {
    let mut cache = StreamCache::new();
    cache.write_chunk(A, b"old\n", 0);
    cache.write_chunk(B, b"fresh\n", 200_000);
    cache.clear_expired(300_001);
    // A sat idle past the threshold and is gone, as if never created
    assert_eq!(cache.tail_log(A, 1000).len(), 0);
    assert_eq!(cache.tail_log(B, 1000).len(), 1);
}

#[test]
fn reaper_keeps_stream_at_the_threshold() {
    let mut cache = StreamCache::new();
    cache.write_chunk(A, b"x\n", 0);
    cache.clear_expired(300_000);
    assert_eq!(cache.tail_log(A, 1000).len(), 1);
}

#[test]
fn remove_socket_clears_every_subscriber_set() {
    let mut cache = StreamCache::new();
    cache.subscribe(A, 1, 0);
    cache.subscribe(B, 1, 0);
    cache.subscribe(B, 2, 0);
    cache.remove_socket(1);
    assert_eq!(cache.write_chunk(A, b"x\n", 1).len(), 0);
    let pushes = cache.write_chunk(B, b"x\n", 1);
    assert_eq!(pushes.len(), 1);
    assert_eq!(pushes[0].socket, 2);
}

#[test]
fn tail_shorter_than_requested_returns_all() {
    let mut cache = StreamCache::new();
    cache.write_chunk(A, b"a\nb\nc\n", 0);
    let tail = cache.tail_log(A, 10);
    assert_eq!(texts(&tail), vec!["a\n", "b\n", "c\n"]);
}

#[test]
fn tail_unknown_stream_is_empty_not_an_error() {
    let cache = StreamCache::new();
    assert_eq!(cache.tail_log(0x77, 1000).len(), 0);
}

#[test]
fn live_pushes_collapse_to_tail() {
    let mut cache = StreamCache::new();
    cache.subscribe(A, 7, 0);
    let mut received: Vec<LogLine> = Vec::new();
    for chunk in [&b"ab"[..], &b"c\nde"[..], &b"f\n"[..], &b"g\n"[..]] {
        for p in cache.write_chunk(A, chunk, 1) {
            assert_eq!(p.socket, 7);
            received.extend(snapshot_lines(&p).iter().cloned());
        }
    }
    // keep the last delivered version of each index, in index order
    let mut collapsed: Vec<Option<LogLine>> = Vec::new();
    for line in received {
        let idx = line.idx;
        if idx >= collapsed.len() {
            collapsed.resize_with(idx + 1, || None);
        }
        collapsed[idx] = Some(line);
    }
    let live: Vec<String> = collapsed.into_iter().map(|l| l.unwrap().line).collect();
    let tail = cache.tail_log(A, 1000);
    assert_eq!(live, texts(&tail));
    assert_eq!(texts(&tail), vec!["abc\n", "def\n", "g\n"]);
}

#[test]
fn invalid_utf8_is_replaced_never_an_error() {
    let mut cache = StreamCache::new();
    cache.write_chunk(A, &[0xff, 0xfe, b'\n'], 0);
    let tail = cache.tail_log(A, 1000);
    assert_eq!(tail.len(), 1);
    assert_eq!(tail[0].line, "\u{fffd}\u{fffd}\n");
}

#[test]
fn pushes_follow_each_segment() {
    let mut cache = StreamCache::new();
    cache.subscribe(A, 3, 0);
    // two segments in one chunk: two pushes, each one line
    let pushes = cache.write_chunk(A, b"a\nb", 1);
    assert_eq!(pushes.len(), 2);
    assert_eq!(snapshot_lines(&pushes[0]).len(), 1);
    assert_eq!(snapshot_lines(&pushes[0])[0].line, "a\n");
    assert_eq!(snapshot_lines(&pushes[1])[0].line, "b");
}

#[test]
fn subscribing_twice_delivers_once() {
    let mut cache = StreamCache::new();
    cache.subscribe(A, 1, 0);
    cache.subscribe(A, 1, 0);
    let pushes = cache.write_chunk(A, b"x\n", 1);
    assert_eq!(pushes.len(), 1);
    assert_eq!(pushes[0].socket, 1);
}

#[test]
fn per_subscriber_order_follows_ingest_order() {
    let mut cache = StreamCache::new();
    cache.subscribe(A, 1, 0);
    cache.subscribe(A, 2, 0);
    let pushes = cache.write_chunk(A, b"a\nb\n", 1);
    // two segments, two subscribers: the first line reaches both before
    // the second line reaches anyone
    assert_eq!(pushes.len(), 4);
    let to_one: Vec<String> = pushes
        .iter()
        .filter(|p| p.socket == 1)
        .map(|p| snapshot_lines(p)[0].line.clone())
        .collect();
    assert_eq!(to_one, vec!["a\n", "b\n"]);
    let to_two: Vec<String> = pushes
        .iter()
        .filter(|p| p.socket == 2)
        .map(|p| snapshot_lines(p)[0].line.clone())
        .collect();
    assert_eq!(to_two, vec!["a\n", "b\n"]);
}

#[test]
fn error_messages() {
    assert_eq!(logteewoop::WriteChunkError.message(), "could not write chunk");
    assert_eq!(logteewoop::ReadError.message(), "error reading input");
}

#[test]
fn fresh_line_carries_its_index() {
    let line = logteewoop::LogLine::now(5);
    assert_eq!(line.idx, 5);
    assert_eq!(line.line, "");
}

#[test]
fn split_chunk_keeps_terminators() {
    let segs = logteewoop::split_chunk(b"a\nbc\nd");
    assert_eq!(segs, vec![b"a\n".to_vec(), b"bc\n".to_vec(), b"d".to_vec()]);
    let segs = logteewoop::split_chunk(b"");
    assert!(segs.is_empty());
}
