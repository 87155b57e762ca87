//! The stream store: the single authority over every stream.
//!
//! All reads and writes of stream state go through one `StreamCache`
//! value, one operation at a time, so an operation is atomic with
//! respect to every other; the idle-stream sweep is itself just another
//! such operation, deciding on one consistent instant.
use vstd::prelude::*;
use crate::chunks::seg_split;
use crate::lines::{
    ingest_pushes, line_views, stream_ingest, stream_wf, tail_spec, LineModel, LogLine, LogStream,
    StreamModel,
};
use crate::messages::{push_views, Outbound, PushModel, WebSocketResponse};

verus! {

/// How often the reaper sweeps, in milliseconds.
pub const EXPIRATION_INTERVAL_MILLIS: i64 = 5000;

/// How long a stream may sit untouched before the reaper removes it,
/// in milliseconds.
pub const LOG_TIMEOUT_MILLIS: i64 = 300000;

/// How many lines a tail snapshot serves at most.
pub const TAIL_LINES: usize = 1000;

/// The write path's failure: the producer's byte stream could not be
/// read. Ingesting bytes that did arrive never fails.
#[derive(Debug)]
pub struct WriteChunkError;

impl WriteChunkError {
    pub fn message(&self) -> (r: &'static str)
        ensures
            r@ == "could not write chunk"@,
    {
        "could not write chunk"
    }
}

/// One stream under its identifier.
#[derive(Debug)]
pub struct StreamEntry {
    pub id: u128,
    pub stream: LogStream,
}

/// The store: every live stream, keyed by identifier. Entries are
/// created lazily on first write or first subscribe and destroyed only
/// by the reaper.
#[derive(Debug)]
pub struct StreamCache {
    pub streams: Vec<StreamEntry>,
}

/// The views of the store's entries, in storage order.
pub open spec fn entry_views(v: Seq<StreamEntry>) -> Seq<(u128, StreamModel)> {
    v.map_values(|e: StreamEntry| (e.id, e.stream@))
}

impl View for StreamCache {
    type V = Seq<(u128, StreamModel)>;

    open spec fn view(&self) -> Seq<(u128, StreamModel)> {
        entry_views(self.streams@)
    }
}

/// No identifier occurs twice.
pub open spec fn cache_uniq(c: Seq<(u128, StreamModel)>) -> bool {
    forall|i: int, j: int| 0 <= i < j < c.len() ==> c[i].0 != c[j].0
}

/// Identifiers are distinct and every stream is well-formed.
pub open spec fn cache_wf(c: Seq<(u128, StreamModel)>) -> bool {
    &&& cache_uniq(c)
    &&& forall|i: int| 0 <= i < c.len() ==> stream_wf((#[trigger] c[i]).1)
}

/// Whether the store holds a stream under `id`.
pub open spec fn has_stream(c: Seq<(u128, StreamModel)>, id: u128) -> bool {
    exists|i: int| 0 <= i < c.len() && c[i].0 == id
}

/// Where that stream stands.
pub open spec fn stream_idx(c: Seq<(u128, StreamModel)>, id: u128) -> int {
    choose|i: int| 0 <= i < c.len() && c[i].0 == id
}

/// The stream held under `id`.
pub open spec fn stream_of(c: Seq<(u128, StreamModel)>, id: u128) -> StreamModel {
    c[stream_idx(c, id)].1
}

/// An empty stream created at `now`.
pub open spec fn empty_stream(now: int) -> StreamModel {
    StreamModel {
        lines: Seq::<LineModel>::empty(),
        next_idx: 0,
        created: now,
        last_change: now,
        subs: Seq::<u64>::empty(),
    }
}

/// The stream an operation acts on: the one stored, or a fresh one when
/// the identifier is unknown.
pub open spec fn stream_or_new(c: Seq<(u128, StreamModel)>, id: u128, now: int) -> StreamModel {
    if has_stream(c, id) {
        stream_of(c, id)
    } else {
        empty_stream(now)
    }
}

/// With a distinct entry at `i`, the lookup functions point at it.
pub proof fn lemma_stream_at(c: Seq<(u128, StreamModel)>, i: int)
    requires
        cache_uniq(c),
        0 <= i < c.len(),
    ensures
        has_stream(c, c[i].0),
        stream_idx(c, c[i].0) == i,
        stream_of(c, c[i].0) == c[i].1,
{
    assert(has_stream(c, c[i].0));
    let j = stream_idx(c, c[i].0);
    assert(0 <= j < c.len() && c[j].0 == c[i].0);
    if j != i {
        assert(c[i].0 != c[j].0);
    }
}

/// The store after one ingest call: the named stream — fresh if it was
/// unknown — with the chunk landed on it, every other entry untouched.
pub open spec fn cache_write(
    c: Seq<(u128, StreamModel)>,
    id: u128,
    bytes: Seq<u8>,
    now: int,
) -> Seq<(u128, StreamModel)> {
    if has_stream(c, id) {
        c.update(stream_idx(c, id), (id, stream_ingest(stream_of(c, id), bytes, now)))
    } else {
        c.push((id, stream_ingest(empty_stream(now), bytes, now)))
    }
}

/// The deliveries one ingest call owes: the chunk's segments fanned out
/// to the subscribers the stream had when the call arrived.
pub open spec fn write_pushes(
    c: Seq<(u128, StreamModel)>,
    id: u128,
    bytes: Seq<u8>,
    now: int,
) -> Seq<PushModel> {
    ingest_pushes(
        stream_or_new(c, id, now).lines,
        seg_split(bytes),
        stream_or_new(c, id, now).subs,
        id,
        now,
    )
}

/// A subscriber added to a stream, once.
pub open spec fn add_sub(s: StreamModel, socket: u64) -> StreamModel {
    if s.subs.contains(socket) {
        s
    } else {
        StreamModel { subs: s.subs.push(socket), ..s }
    }
}

/// A subscriber set without one socket, order kept.
pub open spec fn without_socket(subs: Seq<u64>, socket: u64) -> Seq<u64>
    decreases subs.len(),
{
    if subs.len() == 0 {
        Seq::empty()
    } else {
        let rest = without_socket(subs.drop_last(), socket);
        if subs.last() == socket {
            rest
        } else {
            rest.push(subs.last())
        }
    }
}

/// A subscriber removed from a stream.
pub open spec fn remove_sub(s: StreamModel, socket: u64) -> StreamModel {
    StreamModel { subs: without_socket(s.subs, socket), ..s }
}

/// The store after a subscribe: the named stream — fresh if unknown —
/// with the socket in its subscriber set.
pub open spec fn cache_subscribe(
    c: Seq<(u128, StreamModel)>,
    id: u128,
    socket: u64,
    now: int,
) -> Seq<(u128, StreamModel)> {
    if has_stream(c, id) {
        c.update(stream_idx(c, id), (id, add_sub(stream_of(c, id), socket)))
    } else {
        c.push((id, add_sub(empty_stream(now), socket)))
    }
}

/// The store after an unsubscribe: that one stream without the socket;
/// a no-op when the stream is unknown.
pub open spec fn cache_unsubscribe(
    c: Seq<(u128, StreamModel)>,
    id: u128,
    socket: u64,
) -> Seq<(u128, StreamModel)> {
    if has_stream(c, id) {
        c.update(stream_idx(c, id), (id, remove_sub(stream_of(c, id), socket)))
    } else {
        c
    }
}

/// The store after one reaper sweep at instant `now`: exactly the
/// streams written to recently enough survive, unchanged and in order.
pub open spec fn cache_sweep(c: Seq<(u128, StreamModel)>, now: int) -> Seq<(u128, StreamModel)>
    decreases c.len(),
{
    if c.len() == 0 {
        Seq::empty()
    } else {
        let rest = cache_sweep(c.drop_last(), now);
        if now - c.last().1.last_change <= LOG_TIMEOUT_MILLIS as int {
            rest.push(c.last())
        } else {
            rest
        }
    }
}

/// The store after a session teardown: the socket gone from every
/// stream's subscriber set, all else untouched.
pub open spec fn cache_drop_socket(
    c: Seq<(u128, StreamModel)>,
    socket: u64,
) -> Seq<(u128, StreamModel)> {
    c.map_values(|e: (u128, StreamModel)| (e.0, remove_sub(e.1, socket)))
}

/// What a subscriber set keeps after one socket is dropped: nothing of
/// that socket, everything else, each kept element taken from the set.
pub proof fn lemma_without_socket_members(subs: Seq<u64>, socket: u64)
    ensures
        forall|i: int|
            0 <= i < without_socket(subs, socket).len() ==> #[trigger] without_socket(
                subs,
                socket,
            )[i] != socket,
        forall|i: int|
            0 <= i < without_socket(subs, socket).len() ==> subs.contains(
                #[trigger] without_socket(subs, socket)[i],
            ),
        forall|x: u64|
            x != socket && subs.contains(x) ==> #[trigger] without_socket(subs, socket).contains(
                x,
            ),
    decreases subs.len(),
{
    let w = without_socket(subs, socket);
    if subs.len() > 0 {
        let dl = subs.drop_last();
        lemma_without_socket_members(dl, socket);
        let wd = without_socket(dl, socket);
        assert forall|i: int| 0 <= i < w.len() implies #[trigger] w[i] != socket && subs.contains(
            w[i],
        ) by {
            if subs.last() == socket || i < wd.len() {
                assert(w[i] == wd[i]);
                assert(dl.contains(wd[i]));
                let t = choose|t: int| 0 <= t < dl.len() && dl[t] == wd[i];
                assert(subs[t] == wd[i]);
            } else {
                assert(w[i] == subs.last());
                assert(subs[subs.len() - 1] == subs.last());
            }
        }
        assert forall|x: u64| x != socket && subs.contains(x) implies #[trigger] w.contains(x) by {
            let t = choose|t: int| 0 <= t < subs.len() && subs[t] == x;
            if t < dl.len() {
                assert(dl[t] == x);
                assert(dl.contains(x));
                assert(wd.contains(x));
                let u = choose|u: int| 0 <= u < wd.len() && wd[u] == x;
                assert(w[u] == x);
            } else {
                assert(subs.last() == x);
                assert(w[w.len() - 1] == x);
            }
        }
    }
}

/// Dropping a socket from a duplicate-free subscriber set leaves it
/// duplicate-free.
pub proof fn lemma_without_socket_distinct(subs: Seq<u64>, socket: u64)
    requires
        forall|i: int, j: int| 0 <= i < j < subs.len() ==> subs[i] != subs[j],
    ensures
        forall|i: int, j: int|
            0 <= i < j < without_socket(subs, socket).len() ==> without_socket(subs, socket)[i]
                != without_socket(subs, socket)[j],
    decreases subs.len(),
{
    let w = without_socket(subs, socket);
    if subs.len() > 0 {
        let dl = subs.drop_last();
        lemma_without_socket_distinct(dl, socket);
        lemma_without_socket_members(dl, socket);
        let wd = without_socket(dl, socket);
        assert forall|i: int, j: int| 0 <= i < j < w.len() implies w[i] != w[j] by {
            if subs.last() == socket || j < wd.len() {
                assert(w[i] == wd[i] && w[j] == wd[j]);
            } else {
                // w[j] is the pushed last element, and w[i] stands in the
                // duplicate-free front
                assert(w[i] == wd[i]);
                assert(dl.contains(wd[i]));
                let t = choose|t: int| 0 <= t < dl.len() && dl[t] == wd[i];
                assert(subs[t] == wd[i]);
                assert(subs[t] != subs[subs.len() - 1]);
                assert(w[j] == subs.last());
            }
        }
    }
}

/// True exactly when the socket stands in the vector.
fn contains_socket(sockets: &Vec<u64>, socket: u64) -> (r: bool)
    ensures
        r == sockets@.contains(socket),
{
    let n = sockets.len();
    let mut i: usize = 0;
    while i < n
        invariant
            0 <= i <= n,
            n == sockets@.len(),
            forall|j: int| 0 <= j < i ==> sockets@[j] != socket,
        decreases n - i,
    {
        if sockets[i] == socket {
            return true;
        }
        i = i + 1;
    }
    proof {
        if sockets@.contains(socket) {
            let w = choose|w: int| 0 <= w < sockets@.len() && sockets@[w] == socket;
            assert(sockets@[w] != socket);
        }
    }
    false
}

/// Drop every occurrence of the socket, keeping the order of the rest.
fn drop_socket_from(sockets: &mut Vec<u64>, socket: u64)
    ensures
        final(sockets)@ == without_socket(old(sockets)@, socket),
{
    let ghost orig = sockets@;
    let n = sockets.len();
    let mut kept: Vec<u64> = Vec::new();
    let mut i: usize = 0;
    proof {
        assert(orig.take(0) =~= Seq::<u64>::empty());
    }
    while i < n
        invariant
            0 <= i <= n,
            n == sockets@.len(),
            sockets@ == orig,
            kept@ == without_socket(orig.take(i as int), socket),
        decreases n - i,
    {
        let s = sockets[i];
        proof {
            assert(orig.take(i as int + 1).drop_last() =~= orig.take(i as int));
            assert(orig.take(i as int + 1).last() == s);
        }
        if s != socket {
            kept.push(s);
        }
        i = i + 1;
    }
    proof {
        assert(orig.take(n as int) =~= orig);
    }
    *sockets = kept;
}

impl StreamCache {
    /// Every stream well-formed, no identifier twice.
    pub open spec fn inv(&self) -> bool {
        &&& forall|i: int|
            0 <= i < self.streams@.len() ==> (#[trigger] self.streams@[i]).stream.inv()
        &&& forall|i: int, j: int|
            0 <= i < j < self.streams@.len() ==> self.streams@[i].id != self.streams@[j].id
    }

    /// The view of a store that satisfies the invariant is well-formed.
    pub proof fn lemma_inv_wf(&self)
        requires
            self.inv(),
        ensures
            cache_wf(self@),
    {
        assert forall|i: int, j: int| 0 <= i < j < self@.len() implies self@[i].0 != self@[j].0 by {
            assert(self@[i].0 == self.streams@[i].id);
            assert(self@[j].0 == self.streams@[j].id);
        }
        assert forall|i: int| 0 <= i < self@.len() implies stream_wf((#[trigger] self@[i]).1) by {
            assert(self@[i].1 == self.streams@[i].stream@);
            assert(self.streams@[i].stream.inv());
        }
    }

    /// An empty store.
    pub fn new() -> (c: StreamCache)
        ensures
            c.inv(),
            c@ == Seq::<(u128, StreamModel)>::empty(),
    {
        let c = StreamCache { streams: Vec::new() };
        proof {
            assert(c@ =~= Seq::<(u128, StreamModel)>::empty());
        }
        c
    }

    /// Where the entry for `stream_id` stands, if anywhere.
    fn find_index(&self, stream_id: u128) -> (r: Option<usize>)
        requires
            self.inv(),
        ensures
            match r {
                Option::Some(i) => i < self.streams@.len() && self.streams@[i as int].id
                    == stream_id && has_stream(self@, stream_id) && stream_idx(self@, stream_id)
                    == i as int,
                Option::None => !has_stream(self@, stream_id),
            },
    {
        let n = self.streams.len();
        let mut i: usize = 0;
        while i < n
            invariant
                0 <= i <= n,
                n == self.streams@.len(),
                self.inv(),
                forall|j: int| 0 <= j < i ==> self.streams@[j].id != stream_id,
            decreases n - i,
        {
            if self.streams[i].id == stream_id {
                proof {
                    self.lemma_inv_wf();
                    assert(self@[i as int].0 == stream_id);
                    lemma_stream_at(self@, i as int);
                }
                return Some(i);
            }
            i = i + 1;
        }
        proof {
            if has_stream(self@, stream_id) {
                let w = stream_idx(self@, stream_id);
                assert(0 <= w < self@.len() && self@[w].0 == stream_id);
                assert(self.streams@[w].id == stream_id);
            }
        }
        None
    }

    /// Ingest one chunk for `stream_id` at instant `now`, creating the
    /// stream lazily when it is unknown, and hand back the deliveries
    /// owed to its subscribers. Ingesting never fails — invalid bytes are
    /// decoded lossily — only the transport's read of the producer can.
    pub fn write_chunk(&mut self, stream_id: u128, bytes: &[u8], now: i64) -> (pushes: Vec<
        Outbound,
    >)
        requires
            old(self).inv(),
            now >= 0,
        ensures
            final(self).inv(),
            final(self)@ == cache_write(old(self)@, stream_id, bytes@, now as int),
            push_views(pushes@) == write_pushes(old(self)@, stream_id, bytes@, now as int),
    {
        let ghost c0 = self@;
        let ghost s0 = self.streams@;
        match self.find_index(stream_id) {
            Some(i) => {
                let mut entry = self.streams.remove(i);
                proof {
                    assert(entry.stream.inv());
                    assert(c0[i as int].1 == entry.stream@);
                }
                let pushes = entry.stream.ingest(stream_id, bytes, now);
                self.streams.insert(i, entry);
                proof {
                    let e1 = self.streams@[i as int];
                    assert(self.streams@ =~= s0.update(i as int, e1));
                    assert(e1.id == stream_id);
                    assert(stream_of(c0, stream_id) == c0[i as int].1);
                    assert(e1.stream@ == stream_ingest(stream_of(c0, stream_id), bytes@, now as int));
                    assert(self@ =~= c0.update(
                        i as int,
                        (stream_id, stream_ingest(stream_of(c0, stream_id), bytes@, now as int)),
                    ));
                    assert(stream_or_new(c0, stream_id, now as int) == stream_of(c0, stream_id));
                    assert forall|a: int, b: int|
                        0 <= a < b < self.streams@.len() implies self.streams@[a].id
                        != self.streams@[b].id by {
                        assert(s0[a].id != s0[b].id);
                    }
                }
                pushes
            },
            None => {
                let mut stream = LogStream::new(now);
                let pushes = stream.ingest(stream_id, bytes, now);
                let entry = StreamEntry { id: stream_id, stream };
                self.streams.push(entry);
                proof {
                    assert(self@ =~= c0.push(
                        (stream_id, stream_ingest(empty_stream(now as int), bytes@, now as int)),
                    ));
                    assert(stream_or_new(c0, stream_id, now as int) == empty_stream(now as int));
                    assert forall|a: int, b: int|
                        0 <= a < b < self.streams@.len() implies self.streams@[a].id
                        != self.streams@[b].id by {
                        if b < s0.len() {
                            assert(s0[a].id != s0[b].id);
                        } else {
                            assert(c0[a].0 == s0[a].id);
                        }
                    }
                }
                pushes
            },
        }
    }

    /// Subscribe a socket to a stream at instant `now`, creating the
    /// stream lazily when it is unknown. The snapshot handed back — the
    /// stream's last `TAIL_LINES` lines — and the registration are one
    /// atomic step: no line written after the snapshot is read can be
    /// missed, and none can be double-delivered.
    pub fn subscribe(&mut self, stream_id: u128, socket: u64, now: i64) -> (snapshot: Outbound)
        requires
            old(self).inv(),
            now >= 0,
        ensures
            final(self).inv(),
            final(self)@ == cache_subscribe(old(self)@, stream_id, socket, now as int),
            snapshot@ == (PushModel {
                socket,
                stream_id,
                lines: tail_spec(
                    stream_or_new(old(self)@, stream_id, now as int).lines,
                    TAIL_LINES as int,
                ),
            }),
    {
        let ghost c0 = self@;
        let ghost s0 = self.streams@;
        match self.find_index(stream_id) {
            Some(i) => {
                let mut entry = self.streams.remove(i);
                proof {
                    assert(entry.stream.inv());
                    assert(c0[i as int].1 == entry.stream@);
                }
                let ghost sub0 = entry.stream@;
                let lines = entry.stream.tail(TAIL_LINES);
                if !contains_socket(&entry.stream.sockets, socket) {
                    let ghost pre = entry.stream.sockets@;
                    entry.stream.sockets.push(socket);
                    proof {
                        assert forall|a: int, b: int|
                            0 <= a < b < entry.stream.sockets@.len() implies entry.stream.sockets@[a]
                            != entry.stream.sockets@[b] by {
                            if b < pre.len() {
                                assert(sub0.subs[a] != sub0.subs[b]);
                            } else {
                                if entry.stream.sockets@[a] == socket {
                                    assert(pre.contains(socket));
                                }
                            }
                        }
                        assert(entry.stream@ =~= add_sub(sub0, socket));
                        assert(entry.stream.inv());
                    }
                } else {
                    proof {
                        assert(entry.stream@ =~= add_sub(sub0, socket));
                    }
                }
                self.streams.insert(i, entry);
                let out = Outbound {
                    socket,
                    response: WebSocketResponse::Tail { stream_id, lines },
                };
                proof {
                    let e1 = self.streams@[i as int];
                    assert(self.streams@ =~= s0.update(i as int, e1));
                    assert(e1.id == stream_id);
                    assert(stream_of(c0, stream_id) == c0[i as int].1);
                    assert(self@ =~= c0.update(
                        i as int,
                        (stream_id, add_sub(stream_of(c0, stream_id), socket)),
                    ));
                    assert(stream_or_new(c0, stream_id, now as int) == stream_of(c0, stream_id));
                    assert forall|a: int, b: int|
                        0 <= a < b < self.streams@.len() implies self.streams@[a].id
                        != self.streams@[b].id by {
                        assert(s0[a].id != s0[b].id);
                    }
                    assert(out@ =~= (PushModel {
                        socket,
                        stream_id,
                        lines: tail_spec(
                            stream_or_new(c0, stream_id, now as int).lines,
                            TAIL_LINES as int,
                        ),
                    }));
                }
                out
            },
            None => {
                let mut stream = LogStream::new(now);
                let lines = stream.tail(TAIL_LINES);
                stream.sockets.push(socket);
                proof {
                    assert(stream@ =~= add_sub(empty_stream(now as int), socket));
                    assert(stream.inv());
                }
                let entry = StreamEntry { id: stream_id, stream };
                self.streams.push(entry);
                let out = Outbound {
                    socket,
                    response: WebSocketResponse::Tail { stream_id, lines },
                };
                proof {
                    assert(self@ =~= c0.push((stream_id, add_sub(empty_stream(now as int), socket))));
                    assert(stream_or_new(c0, stream_id, now as int) == empty_stream(now as int));
                    assert forall|a: int, b: int|
                        0 <= a < b < self.streams@.len() implies self.streams@[a].id
                        != self.streams@[b].id by {
                        if b < s0.len() {
                            assert(s0[a].id != s0[b].id);
                        } else {
                            assert(c0[a].0 == s0[a].id);
                        }
                    }
                    assert(out@ =~= (PushModel {
                        socket,
                        stream_id,
                        lines: tail_spec(
                            stream_or_new(c0, stream_id, now as int).lines,
                            TAIL_LINES as int,
                        ),
                    }));
                }
                out
            },
        }
    }

    /// Remove the socket from that one stream's subscriber set; a no-op
    /// when the stream is unknown or the membership does not exist.
    /// Other streams the socket subscribes to are untouched.
    pub fn unsubscribe(&mut self, stream_id: u128, socket: u64)
        requires
            old(self).inv(),
        ensures
            final(self).inv(),
            final(self)@ == cache_unsubscribe(old(self)@, stream_id, socket),
    {
        let ghost c0 = self@;
        let ghost s0 = self.streams@;
        match self.find_index(stream_id) {
            Some(i) => {
                let mut entry = self.streams.remove(i);
                proof {
                    assert(entry.stream.inv());
                    assert(c0[i as int].1 == entry.stream@);
                }
                let ghost sub0 = entry.stream@;
                drop_socket_from(&mut entry.stream.sockets, socket);
                self.streams.insert(i, entry);
                proof {
                    lemma_without_socket_distinct(sub0.subs, socket);
                    let e1 = self.streams@[i as int];
                    assert(e1.stream@ =~= remove_sub(sub0, socket));
                    assert(e1.stream.inv());
                    assert(self.streams@ =~= s0.update(i as int, e1));
                    assert(stream_of(c0, stream_id) == c0[i as int].1);
                    assert(self@ =~= c0.update(
                        i as int,
                        (stream_id, remove_sub(stream_of(c0, stream_id), socket)),
                    ));
                    assert forall|a: int, b: int|
                        0 <= a < b < self.streams@.len() implies self.streams@[a].id
                        != self.streams@[b].id by {
                        assert(s0[a].id != s0[b].id);
                    }
                }
            },
            None => {
            },
        }
    }

    /// One reaper sweep at instant `now`: every stream whose last write
    /// lies further back than the idle threshold is removed, history and
    /// subscriber set with it, and one consistent `now` decides the whole
    /// sweep. Still-subscribed sessions of a reaped stream are silently
    /// orphaned; no notice is sent.
    pub fn clear_expired(&mut self, now: i64)
        requires
            old(self).inv(),
            now >= 0,
        ensures
            final(self).inv(),
            final(self)@ == cache_sweep(old(self)@, now as int),
    {
        let ghost c0 = self@;
        let mut tmp: Vec<StreamEntry> = Vec::new();
        core::mem::swap(&mut tmp, &mut self.streams);
        let ghost t0 = tmp@;
        proof {
            assert(entry_views(t0.take(0)) =~= Seq::<(u128, StreamModel)>::empty());
            assert(cache_sweep(entry_views(t0.take(0)), now as int)
                == Seq::<(u128, StreamModel)>::empty());
            assert(self@ =~= Seq::<(u128, StreamModel)>::empty());
        }
        let ghost mut p: int = 0;
        while tmp.len() > 0
            invariant
                0 <= p <= t0.len(),
                p + tmp@.len() == t0.len(),
                tmp@ == t0.skip(p),
                entry_views(t0) == c0,
                now >= 0,
                self@ == cache_sweep(entry_views(t0.take(p)), now as int),
                forall|a: int|
                    0 <= a < tmp@.len() ==> (#[trigger] tmp@[a]).stream.inv(),
                forall|a: int, b: int| 0 <= a < b < tmp@.len() ==> tmp@[a].id != tmp@[b].id,
                forall|a: int|
                    0 <= a < self.streams@.len() ==> (#[trigger] self.streams@[a]).stream.inv(),
                forall|a: int, b: int|
                    0 <= a < b < self.streams@.len() ==> self.streams@[a].id
                        != self.streams@[b].id,
                forall|a: int, b: int|
                    0 <= a < self.streams@.len() && 0 <= b < tmp@.len() ==> self.streams@[a].id
                        != tmp@[b].id,
            decreases tmp@.len(),
        {
            let ghost tpre = tmp@;
            let ghost spre = self.streams@;
            let e = tmp.remove(0);
            proof {
                assert(e == tpre[0]);
                assert(tmp@ =~= tpre.skip(1));
                assert(tmp@ =~= t0.skip(p + 1));
                assert(e.stream.inv());
            }
            let keep = now - e.stream.last_change <= LOG_TIMEOUT_MILLIS;
            let ghost ev = (e.id, e.stream@);
            proof {
                let pv = entry_views(t0.take(p + 1));
                assert(pv.drop_last() =~= entry_views(t0.take(p)));
                assert(t0.take(p + 1).last() == t0[p]);
                assert(t0[p] == tpre[0]);
                assert(pv.last() == ev);
                assert(cache_sweep(pv, now as int) == if now as int - ev.1.last_change
                    <= LOG_TIMEOUT_MILLIS as int {
                    cache_sweep(pv.drop_last(), now as int).push(ev)
                } else {
                    cache_sweep(pv.drop_last(), now as int)
                });
            }
            if keep {
                self.streams.push(e);
                proof {
                    assert(self@ =~= entry_views(spre).push(ev));
                    assert forall|a: int, b: int|
                        0 <= a < b < self.streams@.len() implies self.streams@[a].id
                        != self.streams@[b].id by {
                        if b < spre.len() {
                            assert(spre[a].id != spre[b].id);
                        } else {
                            assert(self.streams@[b].id == tpre[0].id);
                            assert(spre[a].id != tpre[0].id);
                        }
                    }
                    assert forall|a: int, b: int|
                        0 <= a < self.streams@.len() && 0 <= b < tmp@.len() implies self.streams@[a].id
                        != tmp@[b].id by {
                        assert(tmp@[b] == tpre[b + 1]);
                        if a < spre.len() {
                            assert(spre[a].id != tpre[b + 1].id);
                        } else {
                            assert(tpre[0].id != tpre[b + 1].id);
                        }
                    }
                }
            } else {
                proof {
                    assert forall|a: int, b: int|
                        0 <= a < self.streams@.len() && 0 <= b < tmp@.len() implies self.streams@[a].id
                        != tmp@[b].id by {
                        assert(tmp@[b] == tpre[b + 1]);
                        assert(spre[a].id != tpre[b + 1].id);
                    }
                }
            }
            proof {
                assert forall|a: int, b: int| 0 <= a < b < tmp@.len() implies tmp@[a].id
                    != tmp@[b].id by {
                    assert(tmp@[a] == tpre[a + 1]);
                    assert(tmp@[b] == tpre[b + 1]);
                }
                p = p + 1;
            }
        }
        proof {
            assert(t0.take(p) =~= t0);
            assert(final(self)@ == cache_sweep(c0, now as int));
        }
    }

    /// Tear a session's store presence down: its socket leaves every
    /// stream's subscriber set, so no further line is ever pushed to it.
    /// Done when a live connection closes or its liveness times out.
    pub fn remove_socket(&mut self, socket: u64)
        requires
            old(self).inv(),
        ensures
            final(self).inv(),
            final(self)@ == cache_drop_socket(old(self)@, socket),
    {
        let ghost c0 = self@;
        let ghost s0 = self.streams@;
        let n = self.streams.len();
        let mut i: usize = 0;
        while i < n
            invariant
                0 <= i <= n,
                n == self.streams@.len(),
                n == s0.len(),
                s0 == old(self).streams@,
                old(self).inv(),
                forall|j: int| i <= j < n ==> self.streams@[j] == s0[j],
                forall|j: int|
                    0 <= j < i ==> (#[trigger] self.streams@[j]).id == s0[j].id
                        && self.streams@[j].stream@ == remove_sub(s0[j].stream@, socket)
                        && self.streams@[j].stream.inv(),
            decreases n - i,
        {
            let ghost spre = self.streams@;
            let mut entry = self.streams.remove(i);
            proof {
                assert(entry == s0[i as int]);
                assert(entry.stream.inv());
            }
            let ghost sub0 = entry.stream@;
            drop_socket_from(&mut entry.stream.sockets, socket);
            self.streams.insert(i, entry);
            proof {
                lemma_without_socket_distinct(sub0.subs, socket);
                let e1 = self.streams@[i as int];
                assert(e1.stream@ =~= remove_sub(sub0, socket));
                assert(e1.stream.inv());
                assert(self.streams@ =~= spre.update(i as int, e1));
            }
            i = i + 1;
        }
        proof {
            assert forall|j: int| 0 <= j < self@.len() implies self@[j] == cache_drop_socket(
                c0,
                socket,
            )[j] by {
                assert(self@[j] == (self.streams@[j].id, self.streams@[j].stream@));
                assert(c0[j] == (s0[j].id, s0[j].stream@));
            }
            assert(self@ =~= cache_drop_socket(c0, socket));
        }
    }

    /// The last `count` lines of the stream, all of them when it is
    /// shorter, and nothing at all for an unknown stream — which is not
    /// an error.
    pub fn tail_log(&self, stream_id: u128, count: usize) -> (r: Vec<LogLine>)
        requires
            self.inv(),
        ensures
            line_views(r@) == if has_stream(self@, stream_id) {
                tail_spec(stream_of(self@, stream_id).lines, count as int)
            } else {
                Seq::<LineModel>::empty()
            },
    {
        match self.find_index(stream_id) {
            Some(i) => {
                let r = self.streams[i].stream.tail(count);
                proof {
                    assert(stream_of(self@, stream_id) == self@[i as int].1);
                    assert(self@[i as int].1 == self.streams@[i as int].stream@);
                }
                r
            },
            None => {
                let r: Vec<LogLine> = Vec::new();
                proof {
                    assert(line_views(r@) =~= Seq::<LineModel>::empty());
                }
                r
            },
        }
    }
}

} // verus!
