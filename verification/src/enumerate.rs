//! The enumeration itself.

use vstd::prelude::*;
use vstd::std_specs::iter::IteratorSpec;
use crate::frontier::{
    by_keyword, frontier_holds, lemma_by_keyword_holds, lemma_edges_after_read, lemma_rearranged,
    lemma_replaced, lemma_sorted_by_keyword, lemma_sorted_edges,
};
use crate::laws::{lemma_report_draws_from_streams, lemma_report_is_ascending};
use crate::model::{
    advance, drawn_from, heads, highest, leftmost, lemma_highest_bounds, lemma_leftmost_least,
    lone_window, lone_windows, lowest, proximity_windows, some_empty, span_window, tails, walk,
};
use crate::order::{is_ascending, lemma_ascending_unique, Window};
use crate::storage::{
    entry_le, frontier_get, frontier_positions, frontier_push, frontier_set,
    frontier_sort_by_keyword, frontier_sort_by_position, frontier_with_capacity, positions_in,
    single_position, sort_windows, window_of, windows_of, Entry, Frontier, Position, Positions,
    Size, FRONTIER_RESERVE_MAX,
};

verus! {

/// How many more reads the streams allow, all together.
pub open spec fn budget<I: Iterator<Item = Position>>(its: Seq<I>) -> nat
    decreases its.len(),
{
    if its.len() == 0 {
        0
    } else {
        budget(its.drop_last()) + its.last().decrease().unwrap_or(0)
    }
}

/// A stream that allows fewer reads than before lowers the budget.
pub proof fn lemma_budget_drops<I: Iterator<Item = Position>>(its: Seq<I>, l: int, it: I)
    requires
        0 <= l < its.len(),
        its[l].decrease() is Some,
        it.decrease() is Some,
        it.decrease().unwrap() < its[l].decrease().unwrap(),
    ensures
        budget(its.update(l, it)) < budget(its),
    decreases its.len(),
{
    let next = its.update(l, it);
    if l == its.len() - 1 {
        assert(next.drop_last() =~= its.drop_last());
    } else {
        lemma_budget_drops(its.drop_last(), l, it);
        assert(next.drop_last() =~= its.drop_last().update(l, it));
    }
}

/// Whether entry `a` stands at or before entry `b` in a sorted frontier.
pub fn entry_before(a: Entry, b: Entry) -> (r: bool)
    ensures
        r == entry_le(a, b),
{
    a.0 < b.0 || (a.0 == b.0 && a.1 <= b.1)
}

/// Reports each position that the stream of a single keyword still holds as
/// a window of its own, in stream order.
fn report_each<I>(stream: I, output: &mut Vec<(Size, Positions)>) where I: Iterator<Item = Position>
    requires
        stream.obeys_prophetic_iter_laws(),
        stream.decrease() is Some,
    ensures
        windows_of(final(output)@) == windows_of(old(output)@) + lone_windows(stream.remaining()),
{
    let mut stream = stream;
    let ghost whole = stream;
    loop
        invariant_except_break
            stream.obeys_prophetic_iter_laws(),
            stream.decrease() is Some,
            windows_of(output@) + lone_windows(stream.remaining()) == windows_of(old(output)@)
                + lone_windows(whole.remaining()),
        ensures
            windows_of(output@) == windows_of(old(output)@) + lone_windows(whole.remaining()),
        decreases stream.decrease().unwrap(),
    {
        let ghost before = stream;
        let ghost reported = output@;
        match stream.next() {
            Some(p) => {
                let path = single_position(p);
                output.push((0, path));
                proof {
                    assert(windows_of(output@) =~= windows_of(reported).push(lone_window(p)));
                    assert(windows_of(output@) + lone_windows(stream.remaining()) =~= windows_of(
                        reported,
                    ) + lone_windows(before.remaining()));
                }
            },
            None => {
                proof {
                    assert(windows_of(output@) + lone_windows(stream.remaining()) =~= windows_of(
                        output@,
                    ));
                }
                break ;
            },
        }
    }
}

/// Reads the first position of each stream, in keyword order, into a new
/// frontier. There is none as soon as a stream holds no position.
fn first_positions<I>(keywords: &mut Vec<I>) -> (r: Option<Frontier>) where
    I: Iterator<Item = Position>,

    requires
        forall|i: int|
            0 <= i < old(keywords)@.len() ==> (#[trigger] old(keywords)@[i]).obeys_prophetic_iter_laws()
                && old(keywords)@[i].decrease() is Some,
    ensures
        final(keywords)@.len() == old(keywords)@.len(),
        forall|i: int|
            0 <= i < final(keywords)@.len() ==> (#[trigger] final(keywords)@[i]).obeys_prophetic_iter_laws()
                && final(keywords)@[i].decrease() is Some,
        r is Some <==> !some_empty(
            Seq::new(old(keywords)@.len(), |i: int| old(keywords)@[i].remaining()),
        ),
        r is Some ==> r.unwrap()@ == by_keyword(
            heads(Seq::new(old(keywords)@.len(), |i: int| old(keywords)@[i].remaining())),
        ),
        r is Some ==> Seq::new(final(keywords)@.len(), |i: int| final(keywords)@[i].remaining())
            == tails(Seq::new(old(keywords)@.len(), |i: int| old(keywords)@[i].remaining())),
{
    let k: usize = keywords.len();
    let ghost streams = Seq::new(old(keywords)@.len(), |i: int| old(keywords)@[i].remaining());
    let reserve: usize = if k <= FRONTIER_RESERVE_MAX {
        k
    } else {
        FRONTIER_RESERVE_MAX
    };
    let mut current = frontier_with_capacity(reserve);
    let mut i: usize = 0;
    while i < k
        invariant
            i <= k,
            k == keywords@.len(),
            k == old(keywords)@.len(),
            streams == Seq::new(old(keywords)@.len(), |i: int| old(keywords)@[i].remaining()),
            forall|j: int|
                0 <= j < k ==> (#[trigger] keywords@[j]).obeys_prophetic_iter_laws()
                    && keywords@[j].decrease() is Some,
            forall|j: int| i <= j < k ==> #[trigger] keywords@[j] == old(keywords)@[j],
            forall|j: int| 0 <= j < i ==> (#[trigger] streams[j]).len() > 0,
            forall|j: int|
                0 <= j < i ==> (#[trigger] keywords@[j]).remaining() == streams[j].drop_first(),
            current@.len() == i,
            forall|j: int| 0 <= j < i ==> #[trigger] current@[j] == (streams[j][0], j as usize),
        decreases k - i,
    {
        let ghost before = keywords@;
        proof {
            assert(streams[i as int] == before[i as int].remaining());
        }
        match keywords[i].next() {
            Some(p) => {
                frontier_push(&mut current, (p, i));
                proof {
                    assert forall|j: int| 0 <= j < i + 1 implies (
                    #[trigger] keywords@[j]).remaining() == streams[j].drop_first() by {
                        if j < i {
                            assert(keywords@[j] == before[j]);
                        }
                    }
                }
            },
            None => {
                proof {
                    assert(streams[i as int].len() == 0);
                }
                return None;
            },
        }
        i += 1;
    }
    proof {
        assert(!some_empty(streams));
        assert(current@ =~= by_keyword(heads(streams)));
        assert(Seq::new(keywords@.len(), |i: int| keywords@[i].remaining()) =~= tails(streams));
    }
    Some(current)
}

/// Walks the streams from a frontier that stands in keyword order, and
/// appends each window that the walk records to the output.
fn slide<I>(keywords: &mut Vec<I>, current: Frontier, output: &mut Vec<(Size, Positions)>) where
    I: Iterator<Item = Position>,

    requires
        old(keywords)@.len() >= 2,
        forall|i: int|
            0 <= i < old(keywords)@.len() ==> (#[trigger] old(keywords)@[i]).obeys_prophetic_iter_laws(),
        forall|i: int|
            0 <= i < old(keywords)@.len() ==> ((#[trigger] old(keywords)@[i]).decrease() is Some),
        current@.len() == old(keywords)@.len(),
        current@ == by_keyword(positions_in(current@)),
    ensures
        windows_of(final(output)@) == windows_of(old(output)@) + walk(
            Seq::new(old(keywords)@.len(), |i: int| old(keywords)@[i].remaining()),
            positions_in(current@),
        ),
{
    let k: usize = keywords.len();
    let mut current = current;
    let ghost streams = Seq::new(old(keywords)@.len(), |i: int| old(keywords)@[i].remaining());
    let ghost start = positions_in(current@);
    let ghost mut at = start;
    proof {
        assert(at.len() == k);
        lemma_by_keyword_holds(at);
    }
    let ghost unsorted = current@;
    frontier_sort_by_position(&mut current);
    proof {
        lemma_rearranged(unsorted, current@, at);
        lemma_sorted_edges(current@, at);
    }
    let mut leftmost_entry = frontier_get(&current, 0);
    let mut rightmost_entry = frontier_get(&current, k - 1);
    loop
        invariant_except_break
            k == keywords@.len(),
            k == at.len(),
            k >= 2,
            forall|i: int| 0 <= i < k ==> (#[trigger] keywords@[i]).obeys_prophetic_iter_laws(),
            forall|i: int| 0 <= i < k ==> ((#[trigger] keywords@[i]).decrease() is Some),
            frontier_holds(current@, at),
            forall|i: int, j: int|
                0 <= i < j < current@.len() ==> entry_le(
                    #[trigger] current@[i],
                    #[trigger] current@[j],
                ),
            leftmost_entry == (lowest(at), leftmost(at) as usize),
            rightmost_entry.0 == highest(at),
            windows_of(output@) + walk(
                Seq::new(keywords@.len(), |i: int| keywords@[i].remaining()),
                at,
            ) == windows_of(old(output)@) + walk(streams, start),
        ensures
            windows_of(output@) == windows_of(old(output)@) + walk(streams, start),
        decreases budget(keywords@),
    {
        let ghost sorted = current@;
        let ghost before = keywords@;
        let ghost rest = Seq::new(before.len(), |i: int| before[i].remaining());
        let ghost reported = output@;
        proof {
            lemma_leftmost_least(at);
            lemma_highest_bounds(at);
            lemma_sorted_edges(sorted, at);
            assert(rest =~= Seq::new(keywords@.len(), |i: int| keywords@[i].remaining()));
        }
        let l: usize = leftmost_entry.1;
        // The next position of the keyword at the left edge, if it has one.
        let p = keywords[l].next();
        // The second entry is the left edge once the first has moved past it.
        let q = frontier_get(&current, 1);
        let mut slot: usize = 0;
        let minimal = match p {
            Some(v) => v > rightmost_entry.0,
            None => true,
        };
        if minimal {
            // The window cannot shrink on its left edge: record it.
            slot = frontier_get(&current, 0).1;
            frontier_sort_by_keyword(&mut current);
            proof {
                lemma_rearranged(sorted, current@, at);
                lemma_sorted_by_keyword(current@, at);
            }
            let path = frontier_positions(&current);
            let size: Size = rightmost_entry.0 - leftmost_entry.0;
            output.push((size, path));
            proof {
                assert(window_of((size, path)) == span_window(at));
                assert(windows_of(output@) =~= windows_of(reported).push(span_window(at)));
            }
        }
        let v: Position = match p {
            Some(v) => v,
            None => {
                proof {
                    assert(rest[l as int].len() == 0);
                    assert(walk(rest, at) =~= seq![span_window(at)]);
                    assert(windows_of(output@) =~= windows_of(reported) + walk(rest, at));
                }
                break ;
            },
        };
        let read: Entry = (v, l);
        let ghost moved = at.update(l as int, v);
        let ghost held = current@;
        proof {
            assert(before[l as int].remaining() == rest[l as int]);
            assert(rest[l as int].len() > 0);
            assert(v == rest[l as int][0]);
            lemma_budget_drops(before, l as int, keywords@[l as int]);
            assert(keywords@ =~= before.update(l as int, keywords@[l as int]));
            let rest_now = Seq::new(keywords@.len(), |i: int| keywords@[i].remaining());
            assert(rest_now =~= advance(rest, l as int));
            if minimal {
                assert(windows_of(output@) + walk(rest_now, moved) =~= windows_of(reported)
                    + walk(rest, at));
            } else {
                assert(walk(rest, at) == walk(rest_now, moved));
            }
            assert(held[slot as int].1 == l);
            lemma_replaced(held, at, slot as int, v);
            lemma_edges_after_read(sorted, at, v);
        }
        // The keyword's entry takes the position that was read.
        frontier_set(&mut current, slot, read);
        if v > rightmost_entry.0 {
            rightmost_entry = read;
            leftmost_entry = q;
        } else {
            leftmost_entry = if entry_before(read, q) {
                read
            } else {
                q
            };
        }
        let ghost replaced = current@;
        frontier_sort_by_position(&mut current);
        proof {
            lemma_rearranged(replaced, current@, moved);
            at = moved;
        }
    }
}

/// Enumerates the proximity windows of one document.
///
/// `keywords` holds one stream of positions per keyword, each meant to be in
/// ascending order. The output is cleared and then filled with the windows
/// found, each with its size and one position per keyword in keyword order.
/// With two or more keywords the windows stand in ascending order of size and
/// then of positions; with a single keyword they stand in stream order.
///
/// Each stream has to be an iterator that ends and that tells how many reads
/// it allows at most, as the iterator of a `Vec` does: the walk is shown to
/// end from that. Nothing is asked of the order of the positions: what is
/// reported for streams that descend is defined as well, by the same walk.
pub fn near_proximity<I>(keywords: Vec<I>, output: &mut Vec<(Size, Positions)>) where
    I: Iterator<Item = Position>,

    requires
        forall|i: int|
            0 <= i < keywords@.len() ==> (#[trigger] keywords@[i]).obeys_prophetic_iter_laws(),
        forall|i: int| 0 <= i < keywords@.len() ==> ((#[trigger] keywords@[i]).decrease() is Some),
    ensures
        windows_of(final(output)@) == proximity_windows(
            Seq::new(keywords@.len(), |i: int| keywords@[i].remaining()),
        ),
        keywords@.len() == 0 ==> final(output)@.len() == 0,
        keywords@.len() != 1 ==> is_ascending(windows_of(final(output)@)),
        forall|n: int|
            0 <= n < final(output)@.len() ==> drawn_from(
                window_of(#[trigger] final(output)@[n]),
                Seq::new(keywords@.len(), |i: int| keywords@[i].remaining()),
            ),
{
    let ghost streams = Seq::new(keywords@.len(), |i: int| keywords@[i].remaining());
    let mut keywords = keywords;
    output.clear();
    proof {
        assert(windows_of(output@) =~= Seq::<Window>::empty());
    }
    if keywords.len() < 2 {
        if let Some(stream) = keywords.pop() {
            proof {
                assert(stream.remaining() == streams[0]);
            }
            report_each(stream, output);
            proof {
                assert(windows_of(output@) =~= lone_windows(streams[0]));
            }
        }
    } else if let Some(current) = first_positions(&mut keywords) {
        proof {
            assert(positions_in(current@) =~= heads(streams));
        }
        slide(&mut keywords, current, output);
        let ghost found = windows_of(output@);
        proof {
            assert(found =~= walk(tails(streams), heads(streams)));
        }
        sort_windows(output);
        proof {
            lemma_ascending_unique(found, windows_of(output@));
        }
    }
    proof {
        if streams.len() != 1 {
            lemma_report_is_ascending(streams);
        }
        assert forall|n: int| 0 <= n < output@.len() implies drawn_from(
            window_of(#[trigger] output@[n]),
            streams,
        ) by {
            assert(windows_of(output@)[n] == window_of(output@[n]));
            lemma_report_draws_from_streams(streams, window_of(output@[n]));
        }
    }
}

} // verus!
