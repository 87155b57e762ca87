//! Splitting an ingested byte chunk into line segments.
//!
//! A chunk is cut after every newline byte; each produced segment keeps
//! its trailing newline, and a final unterminated segment has none.
use vstd::prelude::*;

verus! {

/// The line terminator, `b'\n'`.
pub const NEWLINE: u8 = 10;

/// Index of the first newline byte of `b`, or `b.len()` if there is none.
pub open spec fn first_nl(b: Seq<u8>) -> int
    decreases b.len(),
{
    if b.len() == 0 {
        0
    } else if b[0] == NEWLINE {
        0
    } else {
        1 + first_nl(b.skip(1))
    }
}

pub proof fn lemma_first_nl(b: Seq<u8>)
    ensures
        0 <= first_nl(b) <= b.len(),
        forall|j: int| 0 <= j < first_nl(b) ==> b[j] != NEWLINE,
        first_nl(b) < b.len() ==> b[first_nl(b)] == NEWLINE,
    decreases b.len(),
{
    if b.len() == 0 {
    } else if b[0] == NEWLINE {
    } else {
        lemma_first_nl(b.skip(1));
        assert forall|j: int| 0 <= j < first_nl(b) implies b[j] != NEWLINE by {
            if j >= 1 {
                assert(b.skip(1)[j - 1] == b[j]);
            }
        }
        if first_nl(b) < b.len() {
            assert(b.skip(1)[first_nl(b) - 1] == b[first_nl(b)]);
        }
    }
}

/// The position of the first newline, where it stands at `k`.
pub proof fn lemma_first_nl_is(b: Seq<u8>, k: int)
    requires
        0 <= k <= b.len(),
        forall|j: int| 0 <= j < k ==> b[j] != NEWLINE,
        k == b.len() || b[k] == NEWLINE,
    ensures
        first_nl(b) == k,
    decreases b.len(),
{
    if b.len() == 0 {
    } else if b[0] == NEWLINE {
        assert(k == 0);
    } else {
        assert(b[0] != NEWLINE);
        assert(k >= 1);
        assert forall|j: int| 0 <= j < k - 1 implies b.skip(1)[j] != NEWLINE by {
            assert(b.skip(1)[j] == b[j + 1]);
        }
        if k < b.len() {
            assert(b.skip(1)[k - 1] == b[k]);
        }
        lemma_first_nl_is(b.skip(1), k - 1);
    }
}

/// Length of the first segment of a nonempty chunk: up to and including
/// the first newline, or all of `b` if no newline remains.
pub open spec fn first_seg_len(b: Seq<u8>) -> int {
    if first_nl(b) < b.len() {
        first_nl(b) + 1
    } else {
        b.len() as int
    }
}

/// The segments of a chunk, in order. Each keeps its trailing newline;
/// the last one lacks it exactly when the chunk does not end in one.
pub open spec fn seg_split(b: Seq<u8>) -> Seq<Seq<u8>>
    decreases b.len() via seg_split_decreases
{
    if b.len() == 0 {
        Seq::empty()
    } else {
        seq![b.take(first_seg_len(b))] + seg_split(b.skip(first_seg_len(b)))
    }
}

#[via_fn]
proof fn seg_split_decreases(b: Seq<u8>) {
    lemma_first_nl(b);
}

/// Shape of the segments of any chunk: none is empty, a newline stands
/// only at a segment's end, every segment but the last ends in one, and
/// there are segments exactly when the chunk is nonempty.
pub proof fn lemma_seg_split_props(b: Seq<u8>)
    ensures
        forall|i: int| 0 <= i < seg_split(b).len() ==> #[trigger] seg_split(b)[i].len() > 0,
        forall|i: int, j: int|
            0 <= i < seg_split(b).len() && 0 <= j < seg_split(b)[i].len() - 1
                ==> #[trigger] seg_split(b)[i][j] != NEWLINE,
        forall|i: int| 0 <= i < seg_split(b).len() - 1 ==> #[trigger] seg_split(b)[i].last() == NEWLINE,
        seg_split(b).len() == 0 <==> b.len() == 0,
        b.len() > 0 ==> (seg_split(b).last().last() == NEWLINE <==> b.last() == NEWLINE),
    decreases b.len(),
{
    lemma_first_nl(b);
    if b.len() > 0 {
        let c = first_seg_len(b);
        let head = b.take(c);
        let rest = b.skip(c);
        lemma_seg_split_props(rest);
        assert(seg_split(b) == seq![head] + seg_split(rest));
        assert(seg_split(b)[0] == head);
        assert forall|i: int| 1 <= i < seg_split(b).len() implies seg_split(b)[i]
            == seg_split(rest)[i - 1] by {}
        assert(head.len() == c);
        assert forall|j: int| 0 <= j < head.len() - 1 implies head[j] != NEWLINE by {
            assert(head[j] == b[j]);
        }
        if first_nl(b) < b.len() {
            assert(head.last() == b[first_nl(b)]);
        }
        if seg_split(rest).len() == 0 {
            // the head is the last segment; it ends in a newline iff b does
            assert(rest.len() == 0);
            assert(c == b.len());
            assert(head == b);
        } else {
            assert(first_nl(b) < b.len());
            assert(seg_split(b).last() == seg_split(rest).last());
            assert(rest.last() == b.last());
        }
    }
}

/// The views of a vector of byte segments.
pub open spec fn views_of(segs: Seq<Vec<u8>>) -> Seq<Seq<u8>> {
    segs.map_values(|s: Vec<u8>| s@)
}

/// Cut a chunk after every newline byte, keeping the newline with its
/// segment, exactly as `seg_split` describes.
pub fn split_chunk(bytes: &[u8]) -> (segs: Vec<Vec<u8>>)
    ensures
        views_of(segs@) == seg_split(bytes@),
{
    let ghost all: Seq<u8> = bytes@;
    let mut segs: Vec<Vec<u8>> = Vec::new();
    let mut cur: Vec<u8> = Vec::new();
    let mut i: usize = 0;
    let ghost mut start: int = 0;
    proof {
        assert(all.skip(0) =~= all);
        assert(views_of(segs@) + seg_split(all) =~= seg_split(all));
    }
    while i < bytes.len()
        invariant
            0 <= start <= i <= all.len(),
            bytes@ == all,
            cur@ == all.subrange(start, i as int),
            forall|j: int| start <= j < i ==> all[j] != NEWLINE,
            seg_split(all) == views_of(segs@) + seg_split(all.skip(start)),
        decreases all.len() - i,
    {
        let byte = bytes[i];
        cur.push(byte);
        i = i + 1;
        if byte == NEWLINE {
            proof {
                let rest = all.skip(start);
                assert forall|j: int| 0 <= j < i - 1 - start implies rest[j] != NEWLINE by {
                    assert(rest[j] == all[start + j]);
                }
                assert(rest[i - 1 - start] == all[i - 1]);
                lemma_first_nl_is(rest, i - 1 - start);
                assert(first_seg_len(rest) == i as int - start);
                assert(rest.take(i as int - start) =~= cur@);
                assert(rest.skip(i as int - start) =~= all.skip(i as int));
                assert(seg_split(rest) == seq![cur@] + seg_split(all.skip(i as int)));
                assert(views_of(segs@.push(cur)) =~= views_of(segs@).push(cur@));
                assert(views_of(segs@) + (seq![cur@] + seg_split(all.skip(i as int)))
                    =~= (views_of(segs@).push(cur@)) + seg_split(all.skip(i as int)));
            }
            segs.push(cur);
            cur = Vec::new();
            proof {
                start = i as int;
            }
        }
    }
    if cur.len() > 0 {
        proof {
            let rest = all.skip(start);
            assert forall|j: int| 0 <= j < rest.len() implies rest[j] != NEWLINE by {
                assert(rest[j] == all[start + j]);
            }
            lemma_first_nl_is(rest, rest.len() as int);
            assert(first_seg_len(rest) == rest.len());
            assert(rest.take(rest.len() as int) =~= cur@);
            assert(rest.skip(rest.len() as int) =~= Seq::<u8>::empty());
            assert(seg_split(rest) == seq![cur@] + seg_split(Seq::<u8>::empty()));
            assert(seg_split(rest) =~= seq![cur@]);
            assert(views_of(segs@.push(cur)) =~= views_of(segs@).push(cur@));
            assert(views_of(segs@) + seq![cur@] =~= views_of(segs@).push(cur@));
        }
        segs.push(cur);
    } else {
        proof {
            assert(start == i);
            assert(all.skip(start) =~= Seq::<u8>::empty());
            assert(views_of(segs@) + seg_split(all.skip(start)) =~= views_of(segs@));
        }
    }
    segs
}

} // verus!
