//! Log lines and a single stream's line history.
//!
//! A stream owns an ordered history of indexed, timestamped lines. Bytes
//! are ingested chunk by chunk: each chunk is cut into newline-terminated
//! segments, each segment is decoded and appended — onto the still-open
//! last line, or onto a fresh line when the last one was closed — and the
//! updated line is fanned out to every subscribed socket.
use vstd::prelude::*;
use vstd::string::StringExecFns;
use crate::chunks::{lemma_seg_split_props, seg_split, split_chunk, views_of, NEWLINE};
use crate::decode::{decode_lossy, lossy_utf8};
use crate::messages::{push_views, Outbound, PushModel, WebSocketResponse};

verus! {

/// One log line: an index assigned once per stream, the wall-clock time
/// the line was started, and its text so far.
#[derive(Debug)]
pub struct LogLine {
    pub idx: usize,
    pub ts: i64,
    pub line: String,
}

/// Mathematical shape of a log line.
#[verifier::ext_equal]
pub ghost struct LineModel {
    pub idx: int,
    pub ts: int,
    pub text: Seq<char>,
}

impl View for LogLine {
    type V = LineModel;

    open spec fn view(&self) -> LineModel {
        LineModel { idx: self.idx as int, ts: self.ts as int, text: self.line@ }
    }
}

impl Clone for LogLine {
    fn clone(&self) -> (r: Self)
        ensures
            r@ == self@,
    {
        LogLine { idx: self.idx, ts: self.ts, line: self.line.clone() }
    }
}

impl LogLine {
    /// A fresh, empty line stamped with the current wall-clock time.
    pub fn now(idx: usize) -> (r: LogLine)
        ensures
            r@.idx == idx as int,
            r@.text == Seq::<char>::empty(),
    {
        LogLine { idx, ts: crate::clock::now_millis(), line: String::new() }
    }
}

/// A line is closed once its text ends with a newline.
pub open spec fn line_closed(t: Seq<char>) -> bool {
    t.len() > 0 && t.last() == '\n'
}

/// The views of a vector of lines.
pub open spec fn line_views(v: Seq<LogLine>) -> Seq<LineModel> {
    v.map_values(|l: LogLine| l@)
}

/// Mathematical shape of one stream.
#[verifier::ext_equal]
pub ghost struct StreamModel {
    pub lines: Seq<LineModel>,
    pub next_idx: int,
    pub created: int,
    pub last_change: int,
    pub subs: Seq<u64>,
}

/// Well-formedness of a stream: indices run 0, 1, 2, ... with no gap or
/// reuse, every line but the last is closed, subscribers are distinct,
/// and every instant is non-negative.
pub open spec fn stream_wf(s: StreamModel) -> bool {
    &&& s.next_idx == s.lines.len()
    &&& forall|i: int| 0 <= i < s.lines.len() ==> #[trigger] s.lines[i].idx == i
    &&& forall|i: int| 0 <= i < s.lines.len() - 1 ==> line_closed(#[trigger] s.lines[i].text)
    &&& forall|i: int, j: int| 0 <= i < j < s.subs.len() ==> s.subs[i] != s.subs[j]
    &&& s.created >= 0
    &&& s.last_change >= 0
    &&& forall|i: int| 0 <= i < s.lines.len() ==> #[trigger] s.lines[i].ts >= 0
}

/// One segment lands on the history: onto a fresh line when there is no
/// line yet or the last one is closed, else onto the open last line.
pub open spec fn apply_segment(lines: Seq<LineModel>, seg: Seq<u8>, now: int) -> Seq<LineModel> {
    if lines.len() == 0 || line_closed(lines.last().text) {
        lines.push(LineModel { idx: lines.len() as int, ts: now, text: lossy_utf8(seg) })
    } else {
        let k = lines.len() - 1;
        lines.update(
            k,
            LineModel { idx: lines[k].idx, ts: lines[k].ts, text: lines[k].text + lossy_utf8(seg) },
        )
    }
}

/// The history after every segment of a chunk has landed, in order.
pub open spec fn ingest_lines(lines: Seq<LineModel>, segs: Seq<Seq<u8>>, now: int) -> Seq<LineModel>
    decreases segs.len(),
{
    if segs.len() == 0 {
        lines
    } else {
        ingest_lines(apply_segment(lines, segs[0], now), segs.skip(1), now)
    }
}

/// One line pushed to every subscriber, in subscriber order.
pub open spec fn fanout(subs: Seq<u64>, stream_id: u128, line: LineModel) -> Seq<PushModel> {
    subs.map_values(|s: u64| PushModel { socket: s, stream_id, lines: seq![line] })
}

/// Every delivery a chunk gives rise to: after each segment lands, the
/// updated last line goes out to every subscriber, before the next
/// segment is processed.
pub open spec fn ingest_pushes(
    lines: Seq<LineModel>,
    segs: Seq<Seq<u8>>,
    subs: Seq<u64>,
    stream_id: u128,
    now: int,
) -> Seq<PushModel>
    decreases segs.len(),
{
    if segs.len() == 0 {
        Seq::empty()
    } else {
        let l1 = apply_segment(lines, segs[0], now);
        fanout(subs, stream_id, l1.last()) + ingest_pushes(l1, segs.skip(1), subs, stream_id, now)
    }
}

/// The whole effect of one ingest call on one stream: the idle timer is
/// refreshed even for an empty chunk, and the line history grows by the
/// chunk's segments.
pub open spec fn stream_ingest(s: StreamModel, bytes: Seq<u8>, now: int) -> StreamModel {
    let lines2 = ingest_lines(s.lines, seg_split(bytes), now);
    StreamModel {
        lines: lines2,
        next_idx: lines2.len() as int,
        created: s.created,
        last_change: now,
        subs: s.subs,
    }
}

/// The last `count` lines of a history, all of it when it is shorter.
pub open spec fn tail_spec(lines: Seq<LineModel>, count: int) -> Seq<LineModel> {
    if lines.len() <= count {
        lines
    } else {
        lines.skip(lines.len() - count)
    }
}

/// One stream: its ordered line history plus bookkeeping — creation and
/// last-write instants (milliseconds) and the subscribed sockets, held as
/// plain identity handles only.
#[derive(Debug)]
pub struct LogStream {
    pub lines: Vec<LogLine>,
    pub next_idx: usize,
    pub created: i64,
    pub last_change: i64,
    pub sockets: Vec<u64>,
    /// Cached: whether the last line exists and is still open.
    pub last_open: bool,
}

impl View for LogStream {
    type V = StreamModel;

    open spec fn view(&self) -> StreamModel {
        StreamModel {
            lines: line_views(self.lines@),
            next_idx: self.next_idx as int,
            created: self.created as int,
            last_change: self.last_change as int,
            subs: self.sockets@,
        }
    }
}

impl LogStream {
    /// Well-formed, with the cached openness flag agreeing with the text.
    pub open spec fn inv(&self) -> bool {
        &&& stream_wf(self@)
        &&& self.last_open <==> (self@.lines.len() > 0 && !line_closed(self@.lines.last().text))
    }

    /// An empty stream created at `now`.
    pub fn new(now: i64) -> (s: LogStream)
        requires
            now >= 0,
        ensures
            s.inv(),
            s@ == (StreamModel {
                lines: Seq::<LineModel>::empty(),
                next_idx: 0,
                created: now as int,
                last_change: now as int,
                subs: Seq::<u64>::empty(),
            }),
    {
        let s = LogStream {
            lines: Vec::new(),
            next_idx: 0,
            created: now,
            last_change: now,
            sockets: Vec::new(),
            last_open: false,
        };
        proof {
            assert(s@ =~= StreamModel {
                lines: Seq::<LineModel>::empty(),
                next_idx: 0,
                created: now as int,
                last_change: now as int,
                subs: Seq::<u64>::empty(),
            });
        }
        s
    }

    /// The last `count` lines, fewer if the stream is shorter.
    pub fn tail(&self, count: usize) -> (r: Vec<LogLine>)
        ensures
            line_views(r@) == tail_spec(self@.lines, count as int),
            r@.len() == if self@.lines.len() <= count { self@.lines.len() } else { count as nat },
    {
        let len = self.lines.len();
        let start = if len <= count {
            0
        } else {
            len - count
        };
        let mut r: Vec<LogLine> = Vec::new();
        let mut i = start;
        while i < len
            invariant
                start <= i <= len,
                len == self.lines@.len(),
                r@.len() == i - start,
                forall|t: int| 0 <= t < r@.len() ==> #[trigger] r@[t]@ == self.lines@[start + t]@,
            decreases len - i,
        {
            let one = self.lines[i].clone();
            let ghost r0 = r@;
            r.push(one);
            proof {
                assert forall|t: int| 0 <= t < r@.len() implies #[trigger] r@[t]@ == self.lines@[start
                    + t]@ by {
                    if t < r0.len() {
                        assert(r@[t] == r0[t]);
                    }
                }
            }
            i = i + 1;
        }
        proof {
            let lv = line_views(r@);
            let tv = tail_spec(self@.lines, count as int);
            assert forall|t: int| 0 <= t < lv.len() implies lv[t] == tv[t] by {
                assert(r@[t]@ == self.lines@[start + t]@);
            }
            assert(lv =~= tv);
        }
        r
    }

    /// Ingest one chunk at instant `now`: refresh the idle timer, land
    /// every segment in order, and hand back the deliveries owed to the
    /// subscribers, in segment order and, within a segment, subscriber
    /// order.
    pub fn ingest(&mut self, stream_id: u128, bytes: &[u8], now: i64) -> (pushes: Vec<Outbound>)
        requires
            old(self).inv(),
            now >= 0,
        ensures
            final(self).inv(),
            final(self)@ == stream_ingest(old(self)@, bytes@, now as int),
            push_views(pushes@) == ingest_pushes(
                old(self)@.lines,
                seg_split(bytes@),
                old(self)@.subs,
                stream_id,
                now as int,
            ),
    {
        self.last_change = now;
        let mut pushes: Vec<Outbound> = Vec::new();
        let ghost segs_all = seg_split(bytes@);
        let ghost lines0 = old(self)@.lines;
        let ghost subs = old(self)@.subs;
        proof {
            lemma_seg_split_props(bytes@);
        }
        if bytes.len() == 0 {
            proof {
                assert(segs_all =~= Seq::<Seq<u8>>::empty());
                assert(ingest_lines(lines0, segs_all, now as int) == lines0);
                assert(final(self)@ =~= stream_ingest(old(self)@, bytes@, now as int));
                assert(push_views(pushes@) =~= ingest_pushes(
                    lines0,
                    segs_all,
                    subs,
                    stream_id,
                    now as int,
                ));
            }
            return pushes;
        }
        let segs = split_chunk(bytes);
        let n = segs.len();
        let mut k: usize = 0;
        proof {
            assert(segs_all.take(0) =~= Seq::<Seq<u8>>::empty());
        }
        while k < n
            invariant
                0 <= k <= n,
                n == segs@.len(),
                views_of(segs@) == segs_all,
                segs_all == seg_split(bytes@),
                self.inv(),
                self.created == old(self).created,
                self.last_change == now,
                self.sockets@ == subs,
                now >= 0,
                self@.lines == ingest_lines(lines0, segs_all.take(k as int), now as int),
                push_views(pushes@) == ingest_pushes(
                    lines0,
                    segs_all.take(k as int),
                    subs,
                    stream_id,
                    now as int,
                ),
            decreases n - k,
        {
            let ghost pre_lines = self@.lines;
            let seg = &segs[k];
            proof {
                assert forall|i: int, j2: int| 0 <= i < j2 < subs.len() implies subs[i]
                    != subs[j2] by {
                    assert(self@.subs[i] != self@.subs[j2]);
                }
                lemma_seg_split_props(bytes@);
                assert(segs_all[k as int] == seg@);
                assert(seg_split(bytes@)[k as int].len() > 0);
                assert(seg@.len() > 0);
            }
            let text = decode_lossy(seg.as_slice());
            let terminated = seg[seg.len() - 1] == NEWLINE;
            let ghost new_text = lossy_utf8(seg@);
            if !self.last_open {
                // previous line closed, or none yet: start a new line
                let line = LogLine { idx: self.next_idx, ts: now, line: text };
                self.lines.push(line);
                self.next_idx = self.lines.len();
                proof {
                    assert(line_views(self.lines@) =~= pre_lines.push(
                        LineModel { idx: pre_lines.len() as int, ts: now as int, text: new_text },
                    ));
                    assert(self@.lines =~= apply_segment(pre_lines, seg@, now as int));
                }
            } else {
                // continue the open last line
                let mut last = self.lines.pop().unwrap();
                last.line.append(text.as_str());
                self.lines.push(last);
                proof {
                    let k2 = pre_lines.len() - 1;
                    assert(line_views(self.lines@) =~= pre_lines.update(
                        k2,
                        LineModel {
                            idx: pre_lines[k2].idx,
                            ts: pre_lines[k2].ts,
                            text: pre_lines[k2].text + new_text,
                        },
                    ));
                    assert(self@.lines =~= apply_segment(pre_lines, seg@, now as int));
                }
            }
            self.last_open = !terminated;
            proof {
                // the new last line's text ends with the decoded segment,
                // which ends with '\n' exactly when the segment ends with
                // the newline byte
                assert(new_text.len() > 0);
                assert(self@.lines.last().text.last() == new_text.last());
                assert(line_closed(self@.lines.last().text) <==> terminated);
                // all lines before the last stay closed
                assert forall|i: int| 0 <= i < self@.lines.len() - 1 implies line_closed(
                    #[trigger] self@.lines[i].text,
                ) by {
                    if i < pre_lines.len() - 1 {
                        assert(self@.lines[i] == pre_lines[i]);
                    } else if i == pre_lines.len() - 1 {
                        // a line was pushed after it, so it was closed
                        assert(self@.lines.len() == pre_lines.len() + 1);
                    }
                }
            }
            // fan the updated line out to every subscriber
            let current = self.lines.len() - 1;
            let mut j: usize = 0;
            let ghost line_now = self@.lines.last();
            proof {
                assert(push_views(pushes@) + fanout(subs.take(0), stream_id, line_now)
                    =~= push_views(pushes@));
            }
            let ghost pushes_pre = push_views(pushes@);
            while j < self.sockets.len()
                invariant
                    0 <= j <= self.sockets@.len(),
                    self.sockets@ == subs,
                    0 <= current < self.lines@.len(),
                    line_views(self.lines@).last() == line_now,
                    current == self.lines@.len() - 1,
                    push_views(pushes@) == pushes_pre + fanout(
                        subs.take(j as int),
                        stream_id,
                        line_now,
                    ),
                decreases self.sockets@.len() - j,
            {
                let sock = self.sockets[j];
                let one = self.lines[current].clone();
                let out = Outbound {
                    socket: sock,
                    response: WebSocketResponse::Tail { stream_id, lines: vec![one] },
                };
                proof {
                    assert(out@ == (PushModel { socket: sock, stream_id, lines: seq![line_now] }));
                    assert(push_views(pushes@.push(out)) =~= push_views(pushes@).push(out@));
                    assert(pushes_pre + fanout(subs.take(j + 1 as int), stream_id, line_now)
                        =~= (pushes_pre + fanout(subs.take(j as int), stream_id, line_now)).push(
                        out@,
                    ));
                }
                pushes.push(out);
                j = j + 1;
            }
            proof {
                assert(subs.take(subs.len() as int) =~= subs);
            }
            proof {
                assert forall|i: int, j2: int| 0 <= i < j2 < self@.subs.len() implies self@.subs[i]
                    != self@.subs[j2] by {
                    assert(self@.subs == subs);
                    assert(subs[i] != subs[j2]);
                }
                assert(stream_wf(self@));
            }
            k = k + 1;
            proof {
                assert(segs_all.take(k as int).drop_last() =~= segs_all.take(k - 1 as int));
                assert(segs_all.take(k as int).last() == seg@);
                lemma_ingest_step(lines0, segs_all.take(k as int), now as int);
                lemma_ingest_pushes_step(lines0, segs_all.take(k as int), subs, stream_id, now as int);
                assert(self@.lines == ingest_lines(lines0, segs_all.take(k as int), now as int));
                assert(push_views(pushes@) =~= ingest_pushes(
                    lines0,
                    segs_all.take(k as int),
                    subs,
                    stream_id,
                    now as int,
                ));
            }
        }
        proof {
            assert(segs_all.take(n as int) =~= segs_all);
            assert(final(self)@ =~= stream_ingest(old(self)@, bytes@, now as int));
        }
        pushes
    }
}

/// Landing the segments one by one, the last lands last: ingesting all of
/// `segs` equals ingesting all but the last, then the last.
pub proof fn lemma_ingest_step(lines: Seq<LineModel>, segs: Seq<Seq<u8>>, now: int)
    requires
        segs.len() > 0,
    ensures
        ingest_lines(lines, segs, now) == apply_segment(
            ingest_lines(lines, segs.drop_last(), now),
            segs.last(),
            now,
        ),
    decreases segs.len(),
{
    let l1 = apply_segment(lines, segs[0], now);
    assert(ingest_lines(lines, segs, now) == ingest_lines(l1, segs.skip(1), now));
    if segs.len() == 1 {
        assert(segs.drop_last() =~= Seq::<Seq<u8>>::empty());
        assert(segs.skip(1) =~= Seq::<Seq<u8>>::empty());
        assert(ingest_lines(l1, segs.skip(1), now) == l1);
        assert(ingest_lines(lines, segs.drop_last(), now) == lines);
        assert(segs.last() == segs[0]);
    } else {
        lemma_ingest_step(l1, segs.skip(1), now);
        assert(segs.skip(1).drop_last() =~= segs.drop_last().skip(1));
        assert(segs.skip(1).last() == segs.last());
        assert(segs.drop_last()[0] == segs[0]);
        assert(ingest_lines(lines, segs.drop_last(), now) == ingest_lines(
            l1,
            segs.drop_last().skip(1),
            now,
        ));
    }
}

/// The same unrolling for the deliveries: the pushes of all of `segs`
/// are those of all but the last, then one fan-out of the line the last
/// segment landed on.
pub proof fn lemma_ingest_pushes_step(
    lines: Seq<LineModel>,
    segs: Seq<Seq<u8>>,
    subs: Seq<u64>,
    stream_id: u128,
    now: int,
)
    requires
        segs.len() > 0,
    ensures
        ingest_pushes(lines, segs, subs, stream_id, now) == ingest_pushes(
            lines,
            segs.drop_last(),
            subs,
            stream_id,
            now,
        ) + fanout(subs, stream_id, ingest_lines(lines, segs, now).last()),
    decreases segs.len(),
{
    lemma_ingest_step(lines, segs, now);
    let l1 = apply_segment(lines, segs[0], now);
    assert(ingest_lines(lines, segs, now) == ingest_lines(l1, segs.skip(1), now));
    assert(ingest_pushes(lines, segs, subs, stream_id, now) == fanout(subs, stream_id, l1.last())
        + ingest_pushes(l1, segs.skip(1), subs, stream_id, now));
    if segs.len() == 1 {
        assert(segs.drop_last() =~= Seq::<Seq<u8>>::empty());
        assert(segs.skip(1) =~= Seq::<Seq<u8>>::empty());
        assert(ingest_lines(l1, segs.skip(1), now) == l1);
        assert(ingest_pushes(l1, segs.skip(1), subs, stream_id, now)
            == Seq::<PushModel>::empty());
        assert(ingest_pushes(lines, segs.drop_last(), subs, stream_id, now)
            == Seq::<PushModel>::empty());
        assert(ingest_pushes(lines, segs, subs, stream_id, now) =~= ingest_pushes(
            lines,
            segs.drop_last(),
            subs,
            stream_id,
            now,
        ) + fanout(subs, stream_id, ingest_lines(lines, segs, now).last()));
    } else {
        lemma_ingest_pushes_step(l1, segs.skip(1), subs, stream_id, now);
        assert(segs.skip(1).drop_last() =~= segs.drop_last().skip(1));
        assert(segs.skip(1).last() == segs.last());
        assert(segs.drop_last()[0] == segs[0]);
        assert(ingest_pushes(lines, segs.drop_last(), subs, stream_id, now) == fanout(
            subs,
            stream_id,
            apply_segment(lines, segs[0], now).last(),
        ) + ingest_pushes(l1, segs.drop_last().skip(1), subs, stream_id, now));
        assert(ingest_lines(l1, segs.skip(1), now) == ingest_lines(lines, segs, now));
        assert(ingest_pushes(lines, segs, subs, stream_id, now) =~= ingest_pushes(
            lines,
            segs.drop_last(),
            subs,
            stream_id,
            now,
        ) + fanout(subs, stream_id, ingest_lines(lines, segs, now).last()));
    }
}

} // verus!
