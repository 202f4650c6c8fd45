//! The enumeration as a mathematical function of the streams.
//!
//! The state of the walk is the frontier, one position per keyword, and what
//! each stream still holds. Each step reads the next position of the keyword
//! at the left edge of the frontier.

use vstd::prelude::*;
use crate::order::{ascending, Window};

verus! {

/// The keyword at the left edge: the one with the smallest position, and
/// among several of these the smallest keyword.
pub open spec fn leftmost(at: Seq<u32>) -> int
    decreases at.len(),
{
    if at.len() <= 1 {
        0
    } else {
        let l = leftmost(at.drop_last());
        if at.last() < at[l] {
            at.len() - 1
        } else {
            l
        }
    }
}

/// The position at the right edge: the largest of the frontier.
pub open spec fn highest(at: Seq<u32>) -> u32
    decreases at.len(),
{
    if at.len() == 0 {
        0
    } else {
        let h = highest(at.drop_last());
        if at.last() > h {
            at.last()
        } else {
            h
        }
    }
}

/// The position at the left edge: the smallest of the frontier.
pub open spec fn lowest(at: Seq<u32>) -> u32 {
    at[leftmost(at)]
}

/// The window that a frontier describes.
pub open spec fn span_window(at: Seq<u32>) -> Window {
    Window { size: (highest(at) - lowest(at)) as nat, positions: at }
}

/// How many positions the streams still hold, all together.
pub open spec fn unread(rest: Seq<Seq<u32>>) -> nat
    decreases rest.len(),
{
    if rest.len() == 0 {
        0
    } else {
        unread(rest.drop_last()) + rest.last().len()
    }
}

/// The streams after the next position of keyword `l` was read.
pub open spec fn advance(rest: Seq<Seq<u32>>, l: int) -> Seq<Seq<u32>> {
    rest.update(l, rest[l].drop_first())
}

pub proof fn lemma_leftmost_least(at: Seq<u32>)
    requires
        at.len() > 0,
    ensures
        0 <= leftmost(at) < at.len(),
        forall|i: int|
            0 <= i < at.len() ==> lowest(at) < #[trigger] at[i] || (lowest(at) == at[i]
                && leftmost(at) <= i),
    decreases at.len(),
{
    if at.len() > 1 {
        let front = at.drop_last();
        lemma_leftmost_least(front);
        assert forall|i: int| 0 <= i < at.len() implies lowest(at) < #[trigger] at[i] || (lowest(
            at,
        ) == at[i] && leftmost(at) <= i) by {
            if i < front.len() {
                assert(front[i] == at[i]);
            }
        }
    }
}

pub proof fn lemma_leftmost_unique(at: Seq<u32>, c: int)
    requires
        0 <= c < at.len(),
        forall|i: int|
            0 <= i < at.len() ==> at[c] < #[trigger] at[i] || (at[c] == at[i] && c <= i),
    ensures
        c == leftmost(at),
{
    lemma_leftmost_least(at);
    let l = leftmost(at);
    assert(at[c] < at[l] || (at[c] == at[l] && c <= l));
    assert(at[l] < at[c] || (at[l] == at[c] && l <= c));
}

pub proof fn lemma_highest_bounds(at: Seq<u32>)
    requires
        at.len() > 0,
    ensures
        forall|i: int| 0 <= i < at.len() ==> #[trigger] at[i] <= highest(at),
        exists|i: int| 0 <= i < at.len() && #[trigger] at[i] == highest(at),
        lowest(at) <= highest(at),
    decreases at.len(),
{
    let front = at.drop_last();
    if at.len() > 1 {
        lemma_highest_bounds(front);
        assert forall|i: int| 0 <= i < at.len() implies #[trigger] at[i] <= highest(at) by {
            if i < front.len() {
                assert(front[i] == at[i]);
            }
        }
        let w = choose|i: int| 0 <= i < front.len() && #[trigger] front[i] == highest(front);
        assert(at[w] == front[w]);
        if at.last() > highest(front) {
            assert(at[at.len() - 1] == highest(at));
        } else {
            assert(at[w] == highest(at));
        }
    } else {
        assert(front.len() == 0);
        assert(highest(front) == 0);
        assert(at[0] == highest(at));
    }
    lemma_leftmost_least(at);
}

pub proof fn lemma_highest_unique(at: Seq<u32>, h: u32)
    requires
        forall|i: int| 0 <= i < at.len() ==> #[trigger] at[i] <= h,
        exists|i: int| 0 <= i < at.len() && #[trigger] at[i] == h,
    ensures
        h == highest(at),
{
    lemma_highest_bounds(at);
    let w = choose|i: int| 0 <= i < at.len() && #[trigger] at[i] == h;
    let v = choose|i: int| 0 <= i < at.len() && #[trigger] at[i] == highest(at);
    assert(at[w] <= highest(at));
    assert(at[v] <= h);
}

/// Reading one position from a stream that holds one leaves fewer unread.
pub proof fn lemma_advance_unread(rest: Seq<Seq<u32>>, l: int)
    requires
        0 <= l < rest.len(),
        rest[l].len() > 0,
    ensures
        unread(advance(rest, l)) + 1 == unread(rest),
    decreases rest.len(),
{
    let next = advance(rest, l);
    if l == rest.len() - 1 {
        assert(next.drop_last() =~= rest.drop_last());
    } else {
        lemma_advance_unread(rest.drop_last(), l);
        assert(next.drop_last() =~= advance(rest.drop_last(), l));
    }
}

/// The windows recorded from a frontier onwards, in the order of the walk.
///
/// The keyword at the left edge reads its next position. If it has none, the
/// frontier is recorded and the walk ends. If the position lies beyond the
/// right edge, the frontier is recorded before the position takes the
/// keyword's place in it; otherwise it takes that place without a record.
pub open spec fn walk(rest: Seq<Seq<u32>>, at: Seq<u32>) -> Seq<Window>
    decreases unread(rest),
    via walk_decreases
{
    if at.len() == 0 || rest.len() != at.len() {
        Seq::empty()
    } else {
        let l = leftmost(at);
        if rest[l].len() == 0 {
            seq![span_window(at)]
        } else {
            let p = rest[l][0];
            let later = walk(advance(rest, l), at.update(l, p));
            if p > highest(at) {
                seq![span_window(at)] + later
            } else {
                later
            }
        }
    }
}

#[via_fn]
proof fn walk_decreases(rest: Seq<Seq<u32>>, at: Seq<u32>) {
    if !(at.len() == 0 || rest.len() != at.len()) {
        lemma_leftmost_least(at);
        let l = leftmost(at);
        if rest[l].len() > 0 {
            lemma_advance_unread(rest, l);
        }
    }
}

/// The keyword whose stream runs dry and thereby ends the walk.
pub open spec fn last_reader(rest: Seq<Seq<u32>>, at: Seq<u32>) -> int
    decreases unread(rest),
    via last_reader_decreases
{
    if at.len() == 0 || rest.len() != at.len() {
        0
    } else {
        let l = leftmost(at);
        if rest[l].len() == 0 {
            l
        } else {
            last_reader(advance(rest, l), at.update(l, rest[l][0]))
        }
    }
}

#[via_fn]
proof fn last_reader_decreases(rest: Seq<Seq<u32>>, at: Seq<u32>) {
    if !(at.len() == 0 || rest.len() != at.len()) {
        lemma_leftmost_least(at);
        let l = leftmost(at);
        if rest[l].len() > 0 {
            lemma_advance_unread(rest, l);
        }
    }
}

/// The first position of each stream.
pub open spec fn heads(streams: Seq<Seq<u32>>) -> Seq<u32> {
    Seq::new(streams.len(), |i: int| streams[i][0])
}

/// Each stream without its first position.
pub open spec fn tails(streams: Seq<Seq<u32>>) -> Seq<Seq<u32>> {
    Seq::new(streams.len(), |i: int| streams[i].drop_first())
}

/// Whether some stream holds no position at all.
pub open spec fn some_empty(streams: Seq<Seq<u32>>) -> bool {
    exists|i: int| 0 <= i < streams.len() && (#[trigger] streams[i]).len() == 0
}

/// Each stream with the positions of `more` behind its own.
pub open spec fn extended(streams: Seq<Seq<u32>>, more: Seq<Seq<u32>>) -> Seq<Seq<u32>> {
    Seq::new(streams.len(), |i: int| streams[i] + more[i])
}

/// Whether the positions of a stream never descend.
pub open spec fn is_non_decreasing(stream: Seq<u32>) -> bool {
    forall|i: int, j: int| 0 <= i <= j < stream.len() ==> stream[i] <= stream[j]
}

/// The window of a single keyword at position `p`.
pub open spec fn lone_window(p: u32) -> Window {
    Window { size: 0, positions: seq![p] }
}

/// The windows of a single keyword: one per position, in stream order.
pub open spec fn lone_windows(stream: Seq<u32>) -> Seq<Window> {
    stream.map_values(|p: u32| lone_window(p))
}

/// The windows reported for the given streams, one stream per keyword.
///
/// Without keywords there is none. A single keyword reports each of its
/// positions, in stream order. With two or more keywords, and each stream
/// holding a position, the windows of the walk are reported in ascending
/// order; if some stream is empty there is none.
pub open spec fn proximity_windows(streams: Seq<Seq<u32>>) -> Seq<Window> {
    if streams.len() == 0 {
        Seq::empty()
    } else if streams.len() == 1 {
        lone_windows(streams[0])
    } else if some_empty(streams) {
        Seq::empty()
    } else {
        ascending(walk(tails(streams), heads(streams)))
    }
}

/// Whether `w` holds one position per keyword, each taken from the stream of
/// its own keyword, and has the distance between its smallest and its
/// largest position as its size.
pub open spec fn drawn_from(w: Window, streams: Seq<Seq<u32>>) -> bool {
    &&& w.positions.len() == streams.len()
    &&& forall|i: int| 0 <= i < streams.len() ==> (#[trigger] streams[i]).contains(w.positions[i])
    &&& w.size == highest(w.positions) - lowest(w.positions)
}

} // verus!
