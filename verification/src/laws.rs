//! What holds of the reported windows for all streams.

use vstd::prelude::*;
use crate::model::{
    advance, drawn_from, extended, heads, highest, is_non_decreasing, last_reader, leftmost,
    lemma_advance_unread, lemma_highest_bounds, lemma_leftmost_least, lone_window, lone_windows,
    proximity_windows, some_empty, span_window, tails, unread, walk,
};
use crate::order::{is_ascending, lemma_ascending_sorts, lemma_lex_le_reflexive, window_le, Window};
use crate::storage::{window_of, windows_of, Positions, Size};

verus! {

/// Without keywords nothing is reported.
pub proof fn lemma_no_keyword_no_window(streams: Seq<Seq<u32>>)
    requires
        streams.len() == 0,
    ensures
        proximity_windows(streams) == Seq::<Window>::empty(),
{
}

/// The walk ends as soon as the keyword at the left edge has no position
/// left: the frontier is recorded and nothing else, whatever the other
/// streams still hold.
pub proof fn lemma_walk_ends_on_drained_left_edge(rest: Seq<Seq<u32>>, at: Seq<u32>)
    requires
        at.len() > 0,
        rest.len() == at.len(),
        rest[leftmost(at)].len() == 0,
    ensures
        last_reader(rest, at) == leftmost(at),
        walk(rest, at) == seq![span_window(at)],
{
}

/// Positions that stand behind the point at which the walk ends are never
/// read: putting more positions behind any stream but the one that ran dry
/// leaves the recorded windows as they are.
pub proof fn lemma_walk_ignores_unread(rest: Seq<Seq<u32>>, at: Seq<u32>, more: Seq<Seq<u32>>)
    requires
        at.len() > 0,
        rest.len() == at.len(),
        more.len() == at.len(),
        more[last_reader(rest, at)].len() == 0,
    ensures
        walk(extended(rest, more), at) == walk(rest, at),
        last_reader(extended(rest, more), at) == last_reader(rest, at),
    decreases unread(rest),
{
    lemma_leftmost_least(at);
    let l = leftmost(at);
    let longer = extended(rest, more);
    if rest[l].len() == 0 {
        assert(longer[l] =~= rest[l]);
    } else {
        let p = rest[l][0];
        assert(longer[l][0] == p);
        lemma_advance_unread(rest, l);
        lemma_walk_ignores_unread(advance(rest, l), at.update(l, p), more);
        assert(advance(longer, l) =~= extended(advance(rest, l), more)) by {
            assert((rest[l] + more[l]).drop_first() =~= rest[l].drop_first() + more[l]);
        }
    }
}

/// The same for the reported windows: with two or more keywords, each with
/// a position, putting more positions behind any stream but the one whose
/// exhaustion ends the walk changes nothing of what is reported.
pub proof fn lemma_report_ignores_unread(streams: Seq<Seq<u32>>, more: Seq<Seq<u32>>)
    requires
        streams.len() >= 2,
        !some_empty(streams),
        more.len() == streams.len(),
        more[last_reader(tails(streams), heads(streams))].len() == 0,
    ensures
        proximity_windows(extended(streams, more)) == proximity_windows(streams),
{
    let longer = extended(streams, more);
    lemma_walk_ignores_unread(tails(streams), heads(streams), more);
    assert(heads(longer) =~= heads(streams)) by {
        assert forall|i: int| 0 <= i < streams.len() implies heads(longer)[i] == heads(streams)[i] by {
            assert(streams[i].len() > 0);
        }
    }
    assert(tails(longer) =~= extended(tails(streams), more)) by {
        assert forall|i: int| 0 <= i < streams.len() implies tails(longer)[i] == extended(
            tails(streams),
            more,
        )[i] by {
            assert(streams[i].len() > 0);
            assert((streams[i] + more[i]).drop_first() =~= streams[i].drop_first() + more[i]);
        }
    }
    assert(!some_empty(longer)) by {
        assert forall|i: int| 0 <= i < longer.len() implies (#[trigger] longer[i]).len() > 0 by {
            assert(streams[i].len() > 0);
        }
    }
}

/// The reported windows stand in ascending order: by size, and at equal
/// sizes by their positions in keyword order. For a single keyword this is
/// the order of its stream, which must not descend.
pub proof fn lemma_report_is_ascending(streams: Seq<Seq<u32>>)
    requires
        streams.len() == 1 ==> is_non_decreasing(streams[0]),
    ensures
        is_ascending(proximity_windows(streams)),
{
    if streams.len() == 1 {
        let ws = lone_windows(streams[0]);
        assert forall|i: int, j: int| 0 <= i < j < ws.len() implies window_le(
            #[trigger] ws[i],
            #[trigger] ws[j],
        ) by {
            let a = streams[0][i];
            let b = streams[0][j];
            assert(a <= b);
            assert(ws[i] == lone_window(a));
            assert(ws[j] == lone_window(b));
            if a == b {
                lemma_lex_le_reflexive(seq![a]);
            } else {
                assert(seq![a][0] == a);
                assert(seq![b][0] == b);
            }
        }
    } else if streams.len() >= 2 && !some_empty(streams) {
        lemma_ascending_sorts(walk(tails(streams), heads(streams)));
    }
}

/// Equal streams give equal reports: two outputs that each hold what is
/// reported for streams with the same positions agree in length and, window
/// by window, in size and positions.
pub proof fn lemma_report_is_determined(
    streams: Seq<Seq<u32>>,
    again: Seq<Seq<u32>>,
    first: Seq<(Size, Positions)>,
    second: Seq<(Size, Positions)>,
)
    requires
        streams.len() == again.len(),
        forall|i: int| 0 <= i < streams.len() ==> streams[i] =~= again[i],
        windows_of(first) == proximity_windows(streams),
        windows_of(second) == proximity_windows(again),
    ensures
        first.len() == second.len(),
        forall|i: int|
            0 <= i < first.len() ==> (#[trigger] first[i]).0 == second[i].0 && first[i].1@
                == second[i].1@,
{
    assert(streams =~= again);
    assert(windows_of(first).len() == first.len());
    assert(windows_of(second).len() == second.len());
    assert forall|i: int| 0 <= i < first.len() implies (#[trigger] first[i]).0 == second[i].0
        && first[i].1@ == second[i].1@ by {
        assert(windows_of(first)[i] == window_of(first[i]));
        assert(windows_of(second)[i] == window_of(second[i]));
    }
}

/// Every window that the walk records is drawn from the streams, if the
/// frontier is and the streams hold what is still to be read.
pub proof fn lemma_walk_draws_from_streams(
    rest: Seq<Seq<u32>>,
    at: Seq<u32>,
    streams: Seq<Seq<u32>>,
    w: Window,
)
    requires
        at.len() > 0,
        rest.len() == at.len(),
        streams.len() == at.len(),
        forall|i: int| 0 <= i < streams.len() ==> (#[trigger] streams[i]).contains(at[i]),
        forall|i: int, n: int|
            0 <= i < streams.len() && 0 <= n < rest[i].len() ==> (#[trigger] streams[i]).contains(
                #[trigger] rest[i][n],
            ),
        walk(rest, at).contains(w),
    ensures
        drawn_from(w, streams),
    decreases unread(rest),
{
    lemma_leftmost_least(at);
    lemma_highest_bounds(at);
    let l = leftmost(at);
    if rest[l].len() == 0 {
        assert(w == span_window(at));
    } else {
        let p = rest[l][0];
        let later = walk(advance(rest, l), at.update(l, p));
        if w == span_window(at) {
        } else {
            assert(later.contains(w)) by {
                if p > highest(at) {
                    let n = choose|n: int| 0 <= n < walk(rest, at).len() && walk(rest, at)[n] == w;
                    assert(n > 0);
                    assert(later[n - 1] == w);
                }
            }
            lemma_advance_unread(rest, l);
            let next = advance(rest, l);
            let moved = at.update(l, p);
            assert forall|i: int| 0 <= i < streams.len() implies (#[trigger] streams[i]).contains(
                moved[i],
            ) by {
                if i == l {
                    assert(streams[i].contains(rest[i][0]));
                }
            }
            assert forall|i: int, n: int|
                0 <= i < streams.len() && 0 <= n < next[i].len() implies (
            #[trigger] streams[i]).contains(#[trigger] next[i][n]) by {
                if i == l {
                    assert(next[i][n] == rest[i][n + 1]);
                }
            }
            lemma_walk_draws_from_streams(next, moved, streams, w);
        }
    }
}

/// Every reported window holds one position per keyword, each taken from
/// the stream of its own keyword, and its size is the distance between its
/// smallest and its largest position.
pub proof fn lemma_report_draws_from_streams(streams: Seq<Seq<u32>>, w: Window)
    requires
        proximity_windows(streams).contains(w),
    ensures
        drawn_from(w, streams),
{
    if streams.len() == 1 {
        let ws = lone_windows(streams[0]);
        let n = choose|n: int| 0 <= n < ws.len() && ws[n] == w;
        let p = streams[0][n];
        assert(w == lone_window(p));
        assert(streams[0].contains(p));
        assert(w.positions[0] == p);
        lemma_leftmost_least(w.positions);
        lemma_highest_bounds(w.positions);
        assert(w.positions.drop_last().len() == 0);
    } else if streams.len() >= 2 && !some_empty(streams) {
        let found = walk(tails(streams), heads(streams));
        lemma_ascending_sorts(found);
        assert(found.contains(w));
        assert forall|i: int| 0 <= i < streams.len() implies (#[trigger] streams[i]).contains(
            heads(streams)[i],
        ) by {
            assert(streams[i].len() > 0);
            assert(streams[i][0] == heads(streams)[i]);
        }
        assert forall|i: int, n: int|
            0 <= i < streams.len() && 0 <= n < tails(streams)[i].len() implies (
        #[trigger] streams[i]).contains(#[trigger] tails(streams)[i][n]) by {
            assert(streams[i].len() > 0);
            assert(tails(streams)[i][n] == streams[i][n + 1]);
        }
        lemma_walk_draws_from_streams(tails(streams), heads(streams), streams, w);
    } else {
        assert(proximity_windows(streams).len() == 0);
    }
}

} // verus!
