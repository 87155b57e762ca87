//! The store's guarantees, stated and proved once over the models that
//! the operations' contracts speak of.
use vstd::prelude::*;
use crate::chunks::{lemma_first_nl_is, seg_split, NEWLINE};
use crate::decode::lossy_utf8;
use crate::lines::{
    apply_segment, ingest_lines, ingest_pushes, line_closed, stream_ingest, stream_wf, tail_spec,
    LineModel, StreamModel,
};
use crate::messages::PushModel;
use crate::store::{
    cache_drop_socket, cache_sweep, cache_uniq, cache_unsubscribe, cache_wf, has_stream,
    lemma_stream_at, lemma_without_socket_members, remove_sub, stream_idx, stream_of,
    stream_or_new, without_socket, write_pushes, LOG_TIMEOUT_MILLIS,
};

verus! {

/// Line indices of a well-formed stream run 0, 1, 2, ... — assigned in
/// strictly increasing order from 0 with no gap and no reuse, whatever
/// the chunk boundaries were.
pub proof fn lemma_line_indices(s: StreamModel)
    requires
        stream_wf(s),
    ensures
        forall|i: int| 0 <= i < s.lines.len() ==> #[trigger] s.lines[i].idx == i,
        forall|i: int, j: int|
            0 <= i < j < s.lines.len() ==> s.lines[i].idx < s.lines[j].idx,
{
    assert forall|i: int, j: int|
        0 <= i < j < s.lines.len() implies s.lines[i].idx < s.lines[j].idx by {
        assert(s.lines[i].idx == i);
        assert(s.lines[j].idx == j);
    }
}

/// An empty chunk creates no line and moves no index, but does refresh
/// the stream's idle timer, and nothing is pushed for it.
pub proof fn lemma_empty_chunk(s: StreamModel, id: u128, now: int)
    requires
        stream_wf(s),
    ensures
        stream_ingest(s, Seq::<u8>::empty(), now).lines == s.lines,
        stream_ingest(s, Seq::<u8>::empty(), now).next_idx == s.next_idx,
        stream_ingest(s, Seq::<u8>::empty(), now).created == s.created,
        stream_ingest(s, Seq::<u8>::empty(), now).subs == s.subs,
        stream_ingest(s, Seq::<u8>::empty(), now).last_change == now,
        ingest_pushes(s.lines, seg_split(Seq::<u8>::empty()), s.subs, id, now) == Seq::<
            PushModel,
        >::empty(),
{
    assert(seg_split(Seq::<u8>::empty()) =~= Seq::<Seq<u8>>::empty());
}

/// A tail snapshot of a history of N lines holds exactly min(N, count)
/// lines — all of them when the stream is shorter, never an error — and
/// they are precisely the last ones, in order.
pub proof fn lemma_tail_snapshot(lines: Seq<LineModel>, count: int)
    requires
        count >= 0,
    ensures
        tail_spec(lines, count).len() == if lines.len() <= count {
            lines.len() as int
        } else {
            count
        },
        lines.len() <= count ==> tail_spec(lines, count) == lines,
        forall|i: int|
            0 <= i < tail_spec(lines, count).len() ==> tail_spec(lines, count)[i] == lines[
                lines.len() - tail_spec(lines, count).len() + i
            ],
{
}

/// Splitting one logical line across two ingest calls yields exactly
/// one new line, not two: a first chunk without a newline leaves the
/// line open, and a second chunk closing it appends to that same line.
/// The hypotheses on `lossy_utf8` are the decoder's own promises: a
/// chunk without the newline byte decodes without '\n' and to something
/// nonempty, and one ending in the newline byte decodes to text ending
/// in '\n'.
pub proof fn lemma_one_line_across_chunks(
    s: StreamModel,
    b1: Seq<u8>,
    b2: Seq<u8>,
    n1: int,
    n2: int,
)
    requires
        stream_wf(s),
        s.lines.len() == 0 || line_closed(s.lines.last().text),
        b1.len() > 0,
        forall|i: int| 0 <= i < b1.len() ==> b1[i] != NEWLINE,
        b2.len() > 0,
        b2.last() == NEWLINE,
        forall|i: int| 0 <= i < b2.len() - 1 ==> b2[i] != NEWLINE,
        lossy_utf8(b1).len() > 0,
        forall|i: int| 0 <= i < lossy_utf8(b1).len() ==> lossy_utf8(b1)[i] != '\n',
        lossy_utf8(b2).len() > 0,
        lossy_utf8(b2).last() == '\n',
    ensures
        ({
            let s2 = stream_ingest(stream_ingest(s, b1, n1), b2, n2);
            &&& s2.lines.len() == s.lines.len() + 1
            &&& s2.lines.last().text == lossy_utf8(b1) + lossy_utf8(b2)
            &&& line_closed(s2.lines.last().text)
            &&& s2.next_idx == s.next_idx + 1
        }),
{
    // each chunk is a single segment
    lemma_first_nl_is(b1, b1.len() as int);
    assert(b1.take(b1.len() as int) =~= b1);
    assert(seg_split(b1) =~= seq![b1] + seg_split(b1.skip(b1.len() as int)));
    assert(b1.skip(b1.len() as int) =~= Seq::<u8>::empty());
    assert(seg_split(b1) =~= seq![b1]);
    lemma_first_nl_is(b2, b2.len() - 1);
    assert(b2.take(b2.len() as int) =~= b2);
    assert(seg_split(b2) =~= seq![b2] + seg_split(b2.skip(b2.len() as int)));
    assert(seg_split(b2) =~= seq![b2]);

    let s1 = stream_ingest(s, b1, n1);
    let l1 = apply_segment(s.lines, b1, n1);
    assert(seg_split(b1)[0] == b1);
    assert(seg_split(b1).skip(1) =~= Seq::<Seq<u8>>::empty());
    assert(ingest_lines(s.lines, seg_split(b1), n1) == ingest_lines(l1, seg_split(b1).skip(1), n1));
    assert(s1.lines == l1);
    // the first chunk starts a fresh line, which stays open
    assert(l1 == s.lines.push(
        LineModel { idx: s.lines.len() as int, ts: n1, text: lossy_utf8(b1) },
    ));
    assert(!line_closed(l1.last().text));

    let s2 = stream_ingest(s1, b2, n2);
    let l2 = apply_segment(l1, b2, n2);
    assert(seg_split(b2)[0] == b2);
    assert(seg_split(b2).skip(1) =~= Seq::<Seq<u8>>::empty());
    assert(ingest_lines(l1, seg_split(b2), n2) == ingest_lines(l2, seg_split(b2).skip(1), n2));
    assert(s2.lines == l2);
    // the second chunk lands on that same open line and closes it
    let k = l1.len() - 1;
    assert(l2 == l1.update(
        k,
        LineModel { idx: l1[k].idx, ts: l1[k].ts, text: l1[k].text + lossy_utf8(b2) },
    ));
    assert(l2.last().text == lossy_utf8(b1) + lossy_utf8(b2));
    assert(l2.last().text.last() == '\n');
}

/// Replacing the stream under one identifier touches no other entry.
pub proof fn lemma_update_preserves_others(c: Seq<(u128, StreamModel)>, id: u128, m: StreamModel)
    requires
        cache_uniq(c),
        has_stream(c, id),
    ensures
        ({
            let c1 = c.update(stream_idx(c, id), (id, m));
            &&& cache_uniq(c1)
            &&& has_stream(c1, id)
            &&& stream_of(c1, id) == m
            &&& forall|id2: u128|
                id2 != id ==> (#[trigger] has_stream(c1, id2)) == has_stream(c, id2)
            &&& forall|id2: u128|
                id2 != id && has_stream(c, id2) ==> #[trigger] stream_of(c1, id2) == stream_of(
                    c,
                    id2,
                )
        }),
{
    let k = stream_idx(c, id);
    assert(0 <= k < c.len() && c[k].0 == id);
    let c1 = c.update(k, (id, m));
    assert forall|a: int, b: int| 0 <= a < b < c1.len() implies c1[a].0 != c1[b].0 by {
        assert(c[a].0 != c[b].0);
    }
    lemma_stream_at(c1, k);
    assert forall|id2: u128|
        id2 != id implies (#[trigger] has_stream(c1, id2)) == has_stream(c, id2) by {
        if has_stream(c, id2) {
            let w = stream_idx(c, id2);
            assert(c[w].0 == id2);
            assert(w != k);
            assert(c1[w].0 == id2);
            assert(has_stream(c1, id2));
        }
        if has_stream(c1, id2) {
            let w = choose|w: int| 0 <= w < c1.len() && c1[w].0 == id2;
            assert(w != k);
            assert(c[w].0 == id2);
            assert(has_stream(c, id2));
        }
    }
    assert forall|id2: u128|
        id2 != id && has_stream(c, id2) implies #[trigger] stream_of(c1, id2) == stream_of(
        c,
        id2,
    ) by {
        let w = stream_idx(c, id2);
        assert(c[w].0 == id2);
        assert(w != k);
        assert(c1[w].0 == id2);
        lemma_stream_at(c1, w);
        lemma_stream_at(c, w);
    }
}

/// Every delivery an ingest call produces goes to a then-subscribed
/// socket, names the ingested stream, and carries exactly one line.
pub proof fn lemma_pushes_well_addressed(
    lines: Seq<LineModel>,
    segs: Seq<Seq<u8>>,
    subs: Seq<u64>,
    id: u128,
    now: int,
)
    ensures
        forall|k: int|
            0 <= k < ingest_pushes(lines, segs, subs, id, now).len() ==> {
                let p = #[trigger] ingest_pushes(lines, segs, subs, id, now)[k];
                subs.contains(p.socket) && p.stream_id == id && p.lines.len() == 1
            },
    decreases segs.len(),
{
    if segs.len() > 0 {
        let l1 = apply_segment(lines, segs[0], now);
        lemma_pushes_well_addressed(l1, segs.skip(1), subs, id, now);
        let fo = crate::lines::fanout(subs, id, l1.last());
        assert forall|k: int|
            0 <= k < ingest_pushes(lines, segs, subs, id, now).len() implies {
            let p = #[trigger] ingest_pushes(lines, segs, subs, id, now)[k];
            subs.contains(p.socket) && p.stream_id == id && p.lines.len() == 1
        } by {
            let p = ingest_pushes(lines, segs, subs, id, now)[k];
            if k < fo.len() {
                assert(p == fo[k]);
                assert(p.socket == subs[k]);
            } else {
                assert(p == ingest_pushes(l1, segs.skip(1), subs, id, now)[k - fo.len()]);
            }
        }
    }
}

/// After Unsubscribe, an ingest on that stream delivers nothing to the
/// unsubscribed socket.
pub proof fn lemma_unsubscribed_not_pushed(
    c: Seq<(u128, StreamModel)>,
    id: u128,
    socket: u64,
    bytes: Seq<u8>,
    now: int,
)
    requires
        cache_wf(c),
    ensures
        forall|k: int|
            0 <= k < write_pushes(cache_unsubscribe(c, id, socket), id, bytes, now).len()
                ==> (#[trigger] write_pushes(cache_unsubscribe(c, id, socket), id, bytes, now)[
            k]).socket != socket,
{
    let c1 = cache_unsubscribe(c, id, socket);
    let base = stream_or_new(c1, id, now);
    lemma_pushes_well_addressed(base.lines, seg_split(bytes), base.subs, id, now);
    if has_stream(c, id) {
        lemma_update_preserves_others(c, id, remove_sub(stream_of(c, id), socket));
        assert(stream_of(c1, id) == remove_sub(stream_of(c, id), socket));
        lemma_without_socket_members(stream_of(c, id).subs, socket);
        assert forall|k: int|
            0 <= k < write_pushes(c1, id, bytes, now).len() implies (#[trigger] write_pushes(
            c1,
            id,
            bytes,
            now,
        )[k]).socket != socket by {
            let p = write_pushes(c1, id, bytes, now)[k];
            assert(base.subs.contains(p.socket));
            if p.socket == socket {
                let w = choose|w: int| 0 <= w < base.subs.len() && base.subs[w] == socket;
                assert(without_socket(stream_of(c, id).subs, socket)[w] != socket);
            }
        }
    } else {
        assert(c1 == c);
        assert(!has_stream(c1, id));
        assert(base.subs.len() == 0);
        assert forall|k: int|
            0 <= k < write_pushes(c1, id, bytes, now).len() implies (#[trigger] write_pushes(
            c1,
            id,
            bytes,
            now,
        )[k]).socket != socket by {
            let p = write_pushes(c1, id, bytes, now)[k];
            assert(base.subs.contains(p.socket));
            let w = choose|w: int| 0 <= w < base.subs.len() && base.subs[w] == p.socket;
        }
    }
}

/// Unsubscribing from one stream leaves every other stream — and hence
/// what an ingest on it delivers — exactly as it was.
pub proof fn lemma_unsubscribe_other_streams(
    c: Seq<(u128, StreamModel)>,
    id: u128,
    socket: u64,
    id2: u128,
    bytes: Seq<u8>,
    now: int,
)
    requires
        cache_wf(c),
        id2 != id,
    ensures
        stream_or_new(cache_unsubscribe(c, id, socket), id2, now) == stream_or_new(c, id2, now),
        write_pushes(cache_unsubscribe(c, id, socket), id2, bytes, now) == write_pushes(
            c,
            id2,
            bytes,
            now,
        ),
{
    let c1 = cache_unsubscribe(c, id, socket);
    if has_stream(c, id) {
        lemma_update_preserves_others(c, id, remove_sub(stream_of(c, id), socket));
    }
    assert(stream_or_new(c1, id2, now) == stream_or_new(c, id2, now));
}

/// One sweep at instant `now` removes exactly the streams idle past the
/// threshold: a reaped identifier is gone — a later Tail on it serves
/// nothing, as for a stream never created — and a live one keeps its
/// whole state.
pub proof fn lemma_reaper(c: Seq<(u128, StreamModel)>, id: u128, now: int)
    requires
        cache_uniq(c),
    ensures
        has_stream(cache_sweep(c, now), id) <==> (has_stream(c, id) && now - stream_of(
            c,
            id,
        ).last_change <= LOG_TIMEOUT_MILLIS as int),
        has_stream(cache_sweep(c, now), id) ==> stream_of(cache_sweep(c, now), id) == stream_of(
            c,
            id,
        ),
    decreases c.len(),
{
    let sw = cache_sweep(c, now);
    if c.len() == 0 {
        if has_stream(sw, id) {
            let w = choose|w: int| 0 <= w < sw.len() && sw[w].0 == id;
        }
        if has_stream(c, id) {
            let w = choose|w: int| 0 <= w < c.len() && c[w].0 == id;
        }
    } else {
        let dl = c.drop_last();
        let swd = cache_sweep(dl, now);
        let last = c.last();
        assert forall|a: int, b: int| 0 <= a < b < dl.len() implies dl[a].0 != dl[b].0 by {
            assert(c[a].0 != c[b].0);
        }
        lemma_reaper(dl, id, now);
        let kept = now - last.1.last_change <= LOG_TIMEOUT_MILLIS as int;
        if id == last.0 {
            // the last entry is the one under `id`; by distinctness it
            // stands nowhere in the front
            if has_stream(dl, id) {
                let w = stream_idx(dl, id);
                assert(dl[w].0 == id);
                assert(c[w].0 == id);
                assert(c[w].0 != c[c.len() - 1].0);
                assert(false);
            }
            lemma_stream_at(c, c.len() - 1);
            assert(stream_of(c, id) == last.1);
            if kept {
                assert(sw == swd.push(last));
                assert(sw[sw.len() - 1].0 == id);
                assert(has_stream(sw, id));
                let w = stream_idx(sw, id);
                assert(0 <= w < sw.len() && sw[w].0 == id);
                if w < swd.len() {
                    assert(swd[w].0 == id);
                    assert(has_stream(swd, id));
                    assert(false);
                }
                assert(stream_of(sw, id) == last.1);
            } else {
                assert(sw == swd);
                if has_stream(sw, id) {
                    assert(has_stream(swd, id));
                    assert(has_stream(dl, id));
                    assert(false);
                }
            }
        } else {
            // the last entry is some other stream; membership under `id`
            // passes through untouched
            if has_stream(c, id) {
                let w = stream_idx(c, id);
                assert(0 <= w < c.len() && c[w].0 == id);
                assert(w != c.len() - 1);
                assert(dl[w].0 == id);
                assert(has_stream(dl, id));
                lemma_stream_at(dl, w);
                lemma_stream_at(c, w);
                assert(stream_of(dl, id) == stream_of(c, id));
            }
            if has_stream(dl, id) {
                let w = stream_idx(dl, id);
                assert(c[w].0 == id);
                assert(has_stream(c, id));
            }
            lemma_sweep_uniq(dl, now);
            if kept {
                assert(sw == swd.push(last));
                if has_stream(swd, id) {
                    let w = stream_idx(swd, id);
                    assert(0 <= w < swd.len() && swd[w].0 == id);
                    assert(sw[w].0 == id);
                    assert(has_stream(sw, id));
                }
                if has_stream(sw, id) {
                    let w = stream_idx(sw, id);
                    assert(0 <= w < sw.len() && sw[w].0 == id);
                    if w == sw.len() - 1 {
                        assert(sw[w] == last);
                        assert(false);
                    }
                    assert(swd[w].0 == id);
                    assert(has_stream(swd, id));
                    let w2 = stream_idx(swd, id);
                    assert(0 <= w2 < swd.len() && swd[w2].0 == id);
                    if w2 != w {
                        assert(swd[w2].0 != swd[w].0);
                        assert(false);
                    }
                    assert(stream_of(sw, id) == sw[w].1);
                    assert(stream_of(swd, id) == swd[w].1);
                }
            } else {
                assert(sw == swd);
            }
        }
    }
}

/// Every entry a sweep keeps stood in the store, and a sweep of a
/// duplicate-free store is duplicate-free.
pub proof fn lemma_sweep_uniq(c: Seq<(u128, StreamModel)>, now: int)
    requires
        cache_uniq(c),
    ensures
        forall|j: int|
            0 <= j < cache_sweep(c, now).len() ==> c.contains(#[trigger] cache_sweep(c, now)[j]),
        cache_uniq(cache_sweep(c, now)),
    decreases c.len(),
{
    let sw = cache_sweep(c, now);
    if c.len() > 0 {
        let dl = c.drop_last();
        let swd = cache_sweep(dl, now);
        assert forall|a: int, b: int| 0 <= a < b < dl.len() implies dl[a].0 != dl[b].0 by {
            assert(c[a].0 != c[b].0);
        }
        lemma_sweep_uniq(dl, now);
        let kept = now - c.last().1.last_change <= LOG_TIMEOUT_MILLIS as int;
        assert forall|j: int| 0 <= j < sw.len() implies c.contains(#[trigger] sw[j]) by {
            if kept && j == sw.len() - 1 {
                assert(sw[j] == c[c.len() - 1]);
            } else {
                assert(sw[j] == swd[j]);
                assert(dl.contains(swd[j]));
                let t = choose|t: int| 0 <= t < dl.len() && dl[t] == swd[j];
                assert(c[t] == swd[j]);
            }
        }
        assert forall|a: int, b: int| 0 <= a < b < sw.len() implies sw[a].0 != sw[b].0 by {
            if kept && b == sw.len() - 1 {
                assert(sw[a] == swd[a]);
                assert(dl.contains(swd[a]));
                let t = choose|t: int| 0 <= t < dl.len() && dl[t] == swd[a];
                assert(c[t] == swd[a]);
                assert(c[t].0 != c[c.len() - 1].0);
                assert(sw[b] == c[c.len() - 1]);
            } else {
                assert(sw[a] == swd[a] && sw[b] == swd[b]);
            }
        }
    }
}

/// The lines one socket received, in delivery order, each delivery
/// flattened.
pub open spec fn sent_to(ps: Seq<PushModel>, socket: u64) -> Seq<LineModel>
    decreases ps.len(),
{
    if ps.len() == 0 {
        Seq::empty()
    } else {
        let rest = sent_to(ps.drop_last(), socket);
        if ps.last().socket == socket {
            rest + ps.last().lines
        } else {
            rest
        }
    }
}

/// The last delivered version of the line with index `i`, if any.
pub open spec fn last_with_idx(sent: Seq<LineModel>, i: int) -> Option<LineModel>
    decreases sent.len(),
{
    if sent.len() == 0 {
        None
    } else if sent.last().idx == i {
        Some(sent.last())
    } else {
        last_with_idx(sent.drop_last(), i)
    }
}

/// What one socket receives from two delivery batches in a row.
pub proof fn lemma_sent_to_add(a: Seq<PushModel>, b: Seq<PushModel>, socket: u64)
    ensures
        sent_to(a + b, socket) == sent_to(a, socket) + sent_to(b, socket),
    decreases b.len(),
{
    if b.len() == 0 {
        assert(a + b =~= a);
        assert(sent_to(a, socket) + sent_to(b, socket) =~= sent_to(a, socket));
    } else {
        lemma_sent_to_add(a, b.drop_last(), socket);
        assert((a + b).drop_last() =~= a + b.drop_last());
        assert((a + b).last() == b.last());
        if b.last().socket == socket {
            assert(sent_to(a + b, socket) == sent_to(a + b.drop_last(), socket) + b.last().lines);
            assert(sent_to(a, socket) + sent_to(b, socket) =~= (sent_to(a, socket) + sent_to(
                b.drop_last(),
                socket,
            )) + b.last().lines);
        }
    }
}

/// What one fan-out hands a socket: the one line, exactly once, when —
/// and only when — the socket is subscribed.
pub proof fn lemma_fanout_sent(subs: Seq<u64>, id: u128, line: LineModel, socket: u64)
    requires
        forall|a: int, b: int| 0 <= a < b < subs.len() ==> subs[a] != subs[b],
    ensures
        sent_to(crate::lines::fanout(subs, id, line), socket) == if subs.contains(socket) {
            seq![line]
        } else {
            Seq::<LineModel>::empty()
        },
    decreases subs.len(),
{
    let fo = crate::lines::fanout(subs, id, line);
    if subs.len() == 0 {
        if subs.contains(socket) {
            let w = choose|w: int| 0 <= w < subs.len() && subs[w] == socket;
        }
    } else {
        let dl = subs.drop_last();
        assert forall|a: int, b: int| 0 <= a < b < dl.len() implies dl[a] != dl[b] by {
            assert(subs[a] != subs[b]);
        }
        lemma_fanout_sent(dl, id, line, socket);
        let fod = crate::lines::fanout(dl, id, line);
        assert(fo.drop_last() =~= fod);
        assert(fo.last() == (PushModel { socket: subs.last(), stream_id: id, lines: seq![line] }));
        if subs.last() == socket {
            assert(subs[subs.len() - 1] == socket);
            assert(subs.contains(socket));
            if dl.contains(socket) {
                let w = choose|w: int| 0 <= w < dl.len() && dl[w] == socket;
                assert(subs[w] == subs[subs.len() - 1]);
                assert(false);
            }
            assert(sent_to(fo, socket) == sent_to(fod, socket) + seq![line]);
            assert(Seq::<LineModel>::empty() + seq![line] =~= seq![line]);
        } else {
            assert(sent_to(fo, socket) == sent_to(fod, socket));
            if subs.contains(socket) {
                let w = choose|w: int| 0 <= w < subs.len() && subs[w] == socket;
                assert(w < dl.len());
                assert(dl[w] == socket);
                assert(dl.contains(socket));
            }
            if dl.contains(socket) {
                let w = choose|w: int| 0 <= w < dl.len() && dl[w] == socket;
                assert(subs[w] == socket);
                assert(subs.contains(socket));
            }
        }
    }
}

/// The first index an ingest call can touch: the next fresh one when
/// the last line is closed or there is none, else the open last line.
pub open spec fn touched_lo(lines: Seq<LineModel>) -> int {
    if lines.len() == 0 || line_closed(lines.last().text) {
        lines.len() as int
    } else {
        lines.len() - 1
    }
}

/// Round trip of one ingest call, for any subscribed socket: every
/// line the call creates or extends is delivered live, in the order the
/// lines are produced, and the last delivered version of each index is
/// exactly the line the store then holds — so the lines received live,
/// collapsed to their last versions, equal what Tail serves afterwards.
/// Lines the call does not touch are neither changed nor re-delivered.
pub proof fn lemma_round_trip(
    lines: Seq<LineModel>,
    segs: Seq<Seq<u8>>,
    subs: Seq<u64>,
    socket: u64,
    id: u128,
    now: int,
)
    requires
        forall|i: int| 0 <= i < lines.len() ==> #[trigger] lines[i].idx == i,
        forall|a: int, b: int| 0 <= a < b < subs.len() ==> subs[a] != subs[b],
        subs.contains(socket),
        segs.len() > 0,
    ensures
        ({
            let l2 = ingest_lines(lines, segs, now);
            let sent = sent_to(ingest_pushes(lines, segs, subs, id, now), socket);
            let lo = touched_lo(lines);
            &&& l2.len() >= lines.len()
            &&& lo < l2.len()
            &&& (forall|i: int| 0 <= i < l2.len() ==> #[trigger] l2[i].idx == i)
            &&& (forall|i: int| 0 <= i < lo ==> #[trigger] l2[i] == lines[i])
            &&& sent.len() == segs.len()
            &&& (forall|k: int| 0 <= k < sent.len() ==> lo <= #[trigger] sent[k].idx < l2.len())
            &&& (forall|k1: int, k2: int|
                0 <= k1 < k2 < sent.len() ==> #[trigger] sent[k1].idx <= #[trigger] sent[k2].idx)
            &&& (forall|i: int| lo <= i < l2.len() ==> last_with_idx(sent, i) == Some(#[trigger] l2[i]))
        }),
    decreases segs.len(),
{
    let lo = touched_lo(lines);
    if segs.len() == 1 {
        let l1 = apply_segment(lines, segs[0], now);
        assert(ingest_lines(lines, segs, now) == ingest_lines(l1, segs.skip(1), now));
        assert(segs.skip(1) =~= Seq::<Seq<u8>>::empty());
        assert(ingest_lines(l1, segs.skip(1), now) == l1);
        let fo = crate::lines::fanout(subs, id, l1.last());
        assert(ingest_pushes(lines, segs, subs, id, now) == fo + ingest_pushes(
            l1,
            segs.skip(1),
            subs,
            id,
            now,
        ));
        assert(ingest_pushes(l1, segs.skip(1), subs, id, now) == Seq::<PushModel>::empty());
        assert(fo + Seq::<PushModel>::empty() =~= fo);
        lemma_fanout_sent(subs, id, l1.last(), socket);
        let sent = sent_to(ingest_pushes(lines, segs, subs, id, now), socket);
        assert(sent == seq![l1.last()]);
        assert(sent.drop_last() =~= Seq::<LineModel>::empty());
        if lines.len() == 0 || line_closed(lines.last().text) {
            assert(l1 == lines.push(
                LineModel { idx: lines.len() as int, ts: now, text: crate::decode::lossy_utf8(segs[0]) },
            ));
            assert(l1.last().idx == lines.len() as int);
            assert forall|i: int| lo <= i < l1.len() implies last_with_idx(sent, i) == Some(
                #[trigger] l1[i],
            ) by {
                assert(i == lines.len() as int);
                assert(sent.last() == l1.last());
            }
        } else {
            let k0 = lines.len() - 1;
            assert(l1.last().idx == lines[k0].idx);
            assert forall|i: int| lo <= i < l1.len() implies last_with_idx(sent, i) == Some(
                #[trigger] l1[i],
            ) by {
                assert(i == k0);
                assert(sent.last() == l1.last());
            }
        }
    } else {
        let dls = segs.drop_last();
        lemma_round_trip(lines, dls, subs, socket, id, now);
        let l2p = ingest_lines(lines, dls, now);
        let sentp = sent_to(ingest_pushes(lines, dls, subs, id, now), socket);
        crate::lines::lemma_ingest_step(lines, segs, now);
        crate::lines::lemma_ingest_pushes_step(lines, segs, subs, id, now);
        let l2 = ingest_lines(lines, segs, now);
        assert(l2 == apply_segment(l2p, segs.last(), now));
        let fo = crate::lines::fanout(subs, id, l2.last());
        lemma_sent_to_add(ingest_pushes(lines, dls, subs, id, now), fo, socket);
        lemma_fanout_sent(subs, id, l2.last(), socket);
        let sent = sent_to(ingest_pushes(lines, segs, subs, id, now), socket);
        assert(sent == sentp + seq![l2.last()]);
        assert(sent.drop_last() =~= sentp);
        assert(sent.last() == l2.last());
        assert(l2p.len() > lo);
        if l2p.len() == 0 || line_closed(l2p.last().text) {
            // a fresh line is started: its index is new, everything
            // delivered before stays the latest for its own index
            assert(l2 == l2p.push(
                LineModel {
                    idx: l2p.len() as int,
                    ts: now,
                    text: crate::decode::lossy_utf8(segs.last()),
                },
            ));
            assert(sent.last().idx == l2p.len() as int);
            assert forall|i: int| lo <= i < l2.len() implies last_with_idx(sent, i) == Some(
                #[trigger] l2[i],
            ) by {
                if i == l2p.len() as int {
                    assert(last_with_idx(sent, i) == Some(sent.last()));
                } else {
                    assert(sent.last().idx != i);
                    assert(last_with_idx(sent, i) == last_with_idx(sentp, i));
                    assert(l2[i] == l2p[i]);
                }
            }
        } else {
            // the open last line is extended: its latest delivered
            // version is replaced, every other index keeps its own
            let k0 = l2p.len() - 1;
            assert(l2 == l2p.update(
                k0,
                LineModel {
                    idx: l2p[k0].idx,
                    ts: l2p[k0].ts,
                    text: l2p[k0].text + crate::decode::lossy_utf8(segs.last()),
                },
            ));
            assert(sent.last().idx == k0);
            assert(k0 >= lo);
            assert forall|i: int| lo <= i < l2.len() implies last_with_idx(sent, i) == Some(
                #[trigger] l2[i],
            ) by {
                if i == k0 {
                    assert(last_with_idx(sent, i) == Some(sent.last()));
                } else {
                    assert(sent.last().idx != i);
                    assert(last_with_idx(sent, i) == last_with_idx(sentp, i));
                    assert(l2[i] == l2p[i]);
                }
            }
        }
    }
}

/// Collapsing two delivery batches: the later batch wins wherever it
/// delivered the index at all.
pub proof fn lemma_last_with_idx_add(a: Seq<LineModel>, b: Seq<LineModel>, i: int)
    ensures
        last_with_idx(a + b, i) == (match last_with_idx(b, i) {
            Some(l) => Some(l),
            None => last_with_idx(a, i),
        }),
    decreases b.len(),
{
    if b.len() == 0 {
        assert(a + b =~= a);
    } else {
        lemma_last_with_idx_add(a, b.drop_last(), i);
        assert((a + b).drop_last() =~= a + b.drop_last());
        assert((a + b).last() == b.last());
    }
}

/// A batch that never delivered the index collapses to nothing for it.
pub proof fn lemma_last_with_idx_absent(s: Seq<LineModel>, i: int)
    requires
        forall|k: int| 0 <= k < s.len() ==> #[trigger] s[k].idx != i,
    ensures
        last_with_idx(s, i) == None::<LineModel>,
    decreases s.len(),
{
    if s.len() > 0 {
        assert(s[s.len() - 1].idx != i);
        lemma_last_with_idx_absent(s.drop_last(), i);
    }
}

/// A batch holding each index exactly once, in order, collapses to
/// itself.
pub proof fn lemma_last_with_idx_indexed(s: Seq<LineModel>, i: int)
    requires
        forall|k: int| 0 <= k < s.len() ==> #[trigger] s[k].idx == k,
        0 <= i < s.len(),
    ensures
        last_with_idx(s, i) == Some(s[i]),
    decreases s.len(),
{
    if i == s.len() - 1 {
        assert(s.last().idx == i);
    } else {
        assert(s.last().idx == s.len() - 1);
        assert(s.last().idx != i);
        assert forall|k: int| 0 <= k < s.drop_last().len() implies #[trigger] s.drop_last()[k].idx
            == k by {
            assert(s.drop_last()[k] == s[k]);
        }
        lemma_last_with_idx_indexed(s.drop_last(), i);
        assert(s.drop_last()[i] == s[i]);
    }
}

/// The no-loss, no-duplication guarantee of an atomic subscribe: the
/// snapshot it serves, followed by the lines pushed live by a later
/// ingest, collapse — last delivered version per index — to exactly the
/// stream's line history after that ingest, provided the history still
/// fits the snapshot cap.
pub proof fn lemma_snapshot_plus_live(
    c: Seq<(u128, StreamModel)>,
    id: u128,
    socket: u64,
    bytes: Seq<u8>,
    now1: int,
    now2: int,
)
    requires
        cache_wf(c),
        bytes.len() > 0,
        stream_or_new(c, id, now1).lines.len() <= crate::store::TAIL_LINES as int,
    ensures
        ({
            let base = stream_or_new(c, id, now1);
            let snap = tail_spec(base.lines, crate::store::TAIL_LINES as int);
            let c1 = crate::store::cache_subscribe(c, id, socket, now1);
            let l2 = ingest_lines(base.lines, seg_split(bytes), now2);
            let sent = sent_to(write_pushes(c1, id, bytes, now2), socket);
            &&& stream_of(crate::store::cache_write(c1, id, bytes, now2), id).lines == l2
            &&& forall|i: int|
                0 <= i < l2.len() ==> last_with_idx(snap + sent, i) == Some(#[trigger] l2[i])
        }),
{
    let base = stream_or_new(c, id, now1);
    let snap = tail_spec(base.lines, crate::store::TAIL_LINES as int);
    let c1 = crate::store::cache_subscribe(c, id, socket, now1);
    let sub = crate::store::add_sub(base, socket);
    assert(snap == base.lines);

    // the subscribed stream: the base history with the socket registered
    if has_stream(c, id) {
        lemma_update_preserves_others(c, id, sub);
        assert(stream_of(c1, id) == sub);
        assert(has_stream(c1, id));
    } else {
        assert(c1 == c.push((id, sub)));
        assert forall|a: int, b: int| 0 <= a < b < c1.len() implies c1[a].0 != c1[b].0 by {
            if b < c.len() {
                assert(c[a].0 != c[b].0);
            } else {
                if c1[a].0 == id {
                    assert(c[a].0 == id);
                    assert(has_stream(c, id));
                    assert(false);
                }
            }
        }
        lemma_stream_at(c1, c1.len() - 1);
        assert(stream_of(c1, id) == sub);
        assert(has_stream(c1, id));
    }
    assert(stream_or_new(c1, id, now2) == sub);
    assert(sub.lines == base.lines);

    // the registered socket is in the subscriber set, which stays
    // duplicate-free
    let wf_subs = if has_stream(c, id) {
        stream_of(c, id).subs
    } else {
        Seq::<u64>::empty()
    };
    assert(base.subs == wf_subs);
    if has_stream(c, id) {
        let w = stream_idx(c, id);
        assert(0 <= w < c.len() && c[w].0 == id);
        assert(stream_wf(c[w].1));
    }
    assert(forall|a: int, b: int| 0 <= a < b < base.subs.len() ==> base.subs[a] != base.subs[b]);
    if base.subs.contains(socket) {
        assert(sub.subs == base.subs);
    } else {
        assert(sub.subs == base.subs.push(socket));
        assert forall|a: int, b: int| 0 <= a < b < sub.subs.len() implies sub.subs[a]
            != sub.subs[b] by {
            if b < base.subs.len() {
            } else {
                if sub.subs[a] == socket {
                    assert(base.subs[a] == socket);
                    assert(base.subs.contains(socket));
                    assert(false);
                }
            }
        }
        assert(sub.subs[sub.subs.len() - 1] == socket);
    }
    assert(sub.subs.contains(socket));

    // line indices of the base history run 0, 1, 2, ...
    assert forall|i: int| 0 <= i < base.lines.len() implies #[trigger] base.lines[i].idx == i by {
        if has_stream(c, id) {
            let w = stream_idx(c, id);
            assert(stream_wf(c[w].1));
        }
    }

    // the ingest lands on the subscribed stream's history
    lemma_seg_nonempty(bytes);
    lemma_round_trip(base.lines, seg_split(bytes), sub.subs, socket, id, now2);
    let l2 = ingest_lines(base.lines, seg_split(bytes), now2);
    let sent = sent_to(write_pushes(c1, id, bytes, now2), socket);
    let lo = touched_lo(base.lines);

    // the store after the write holds that history
    lemma_update_preserves_others(c1, id, crate::lines::stream_ingest(sub, bytes, now2));
    assert(crate::store::cache_write(c1, id, bytes, now2) == c1.update(
        stream_idx(c1, id),
        (id, crate::lines::stream_ingest(sub, bytes, now2)),
    ));
    assert(stream_of(crate::store::cache_write(c1, id, bytes, now2), id).lines == l2);

    // collapse: live deliveries override the snapshot exactly on the
    // touched indices, and the snapshot alone covers the rest
    assert forall|i: int| 0 <= i < l2.len() implies last_with_idx(snap + sent, i) == Some(
        #[trigger] l2[i],
    ) by {
        lemma_last_with_idx_add(snap, sent, i);
        if i < lo {
            assert forall|k: int| 0 <= k < sent.len() implies #[trigger] sent[k].idx != i by {
                assert(lo <= sent[k].idx);
            }
            lemma_last_with_idx_absent(sent, i);
            assert(i < base.lines.len());
            lemma_last_with_idx_indexed(snap, i);
            assert(l2[i] == base.lines[i]);
        } else {
            assert(last_with_idx(sent, i) == Some(l2[i]));
        }
    }
}

/// A nonempty chunk has at least one segment.
proof fn lemma_seg_nonempty(bytes: Seq<u8>)
    requires
        bytes.len() > 0,
    ensures
        seg_split(bytes).len() > 0,
{
    crate::chunks::lemma_seg_split_props(bytes);
}

/// After a session teardown no stream's subscriber set holds its
/// socket any more, and nothing else of any stream has changed.
pub proof fn lemma_teardown_cleans(c: Seq<(u128, StreamModel)>, socket: u64)
    requires
        cache_wf(c),
    ensures
        cache_drop_socket(c, socket).len() == c.len(),
        forall|j: int|
            0 <= j < c.len() ==> !(#[trigger] cache_drop_socket(c, socket)[j]).1.subs.contains(
                socket,
            ),
        forall|j: int|
            0 <= j < c.len() ==> (#[trigger] cache_drop_socket(c, socket)[j]).0 == c[j].0
                && cache_drop_socket(c, socket)[j].1.lines == c[j].1.lines
                && cache_drop_socket(c, socket)[j].1.last_change == c[j].1.last_change,
        forall|j: int, x: u64|
            0 <= j < c.len() && x != socket ==> (#[trigger] cache_drop_socket(
                c,
                socket,
            )[j].1.subs.contains(x) <==> c[j].1.subs.contains(x)),
{
    let c1 = cache_drop_socket(c, socket);
    assert forall|j: int| 0 <= j < c.len() implies !(#[trigger] c1[j]).1.subs.contains(socket) by {
        lemma_without_socket_members(c[j].1.subs, socket);
        assert(c1[j].1 == remove_sub(c[j].1, socket));
        if c1[j].1.subs.contains(socket) {
            let w = choose|w: int| 0 <= w < c1[j].1.subs.len() && c1[j].1.subs[w] == socket;
            assert(without_socket(c[j].1.subs, socket)[w] != socket);
        }
    }
    assert forall|j: int, x: u64|
        0 <= j < c.len() && x != socket implies (#[trigger] c1[j].1.subs.contains(x) <==> c[
        j].1.subs.contains(x)) by {
        lemma_without_socket_members(c[j].1.subs, socket);
        assert(c1[j].1 == remove_sub(c[j].1, socket));
        if c1[j].1.subs.contains(x) {
            let w = choose|w: int| 0 <= w < c1[j].1.subs.len() && c1[j].1.subs[w] == x;
            assert(c[j].1.subs.contains(without_socket(c[j].1.subs, socket)[w]));
        }
    }
}

} // verus!
