//! What the frontier holds while the walk runs, and why the entries found at
//! its ends after a sort are the edges of the window.

use vstd::prelude::*;
use vstd::seq_lib::group_to_multiset_ensures;
use crate::model::{
    highest, leftmost, lemma_highest_bounds, lemma_highest_unique, lemma_leftmost_least,
    lemma_leftmost_unique, lowest,
};
use crate::storage::{entry_le, positions_in, Entry};

verus! {

/// The entries of a frontier in keyword order.
pub open spec fn by_keyword(at: Seq<u32>) -> Seq<Entry> {
    Seq::new(at.len(), |i: int| (at[i], i as usize))
}

/// The entries are, in some order, exactly one entry per keyword, each with
/// the position that `at` gives for its keyword.
pub open spec fn frontier_holds(es: Seq<Entry>, at: Seq<u32>) -> bool {
    &&& es.len() == at.len()
    &&& at.len() <= usize::MAX
    &&& es.no_duplicates()
    &&& forall|j: int|
        0 <= j < es.len() ==> ((#[trigger] es[j]).1 as int) < at.len() && es[j].0 == at[es[j].1 as int]
    &&& forall|i: int| 0 <= i < at.len() ==> es.contains(#[trigger] by_keyword(at)[i])
}

/// Entries in keyword order are a frontier for their positions.
pub proof fn lemma_by_keyword_holds(at: Seq<u32>)
    requires
        at.len() <= usize::MAX,
    ensures
        frontier_holds(by_keyword(at), at),
{
    let es = by_keyword(at);
    assert forall|i: int| 0 <= i < at.len() implies es.contains(#[trigger] by_keyword(at)[i]) by {
        assert(es[i] == by_keyword(at)[i]);
    }
}

/// Rearranging the entries keeps the frontier.
pub proof fn lemma_rearranged(old_es: Seq<Entry>, new_es: Seq<Entry>, at: Seq<u32>)
    requires
        frontier_holds(old_es, at),
        new_es.to_multiset() == old_es.to_multiset(),
    ensures
        frontier_holds(new_es, at),
{
    broadcast use group_to_multiset_ensures;

    old_es.lemma_multiset_has_no_duplicates();
    new_es.lemma_multiset_has_no_duplicates_conv();
    assert(new_es.len() == new_es.to_multiset().len());
    assert(old_es.len() == old_es.to_multiset().len());
    assert forall|j: int| 0 <= j < new_es.len() implies ((#[trigger] new_es[j]).1 as int)
        < at.len() && new_es[j].0 == at[new_es[j].1 as int] by {
        assert(new_es.contains(new_es[j]));
        assert(new_es.to_multiset().count(new_es[j]) > 0);
        assert(old_es.contains(new_es[j]));
    }
    assert forall|i: int| 0 <= i < at.len() implies new_es.contains(
        #[trigger] by_keyword(at)[i],
    ) by {
        assert(old_es.contains(by_keyword(at)[i]));
        assert(old_es.to_multiset().count(by_keyword(at)[i]) > 0);
    }
}

/// Two entries of a frontier with the same keyword are the same entry.
pub proof fn lemma_keywords_differ(es: Seq<Entry>, at: Seq<u32>, a: int, b: int)
    requires
        frontier_holds(es, at),
        0 <= a < es.len(),
        0 <= b < es.len(),
        a != b,
    ensures
        es[a].1 != es[b].1,
{
    if es[a].1 == es[b].1 {
        assert(es[a].0 == es[b].0);
        assert(es[a] == es[b]);
    }
}

/// Where the entry of keyword `i` stands in a frontier.
pub proof fn lemma_slot_of(es: Seq<Entry>, at: Seq<u32>, i: int) -> (j: int)
    requires
        frontier_holds(es, at),
        0 <= i < at.len(),
    ensures
        0 <= j < es.len(),
        es[j] == (at[i], i as usize),
{
    assert(es.contains(by_keyword(at)[i]));
    choose|j: int| 0 <= j < es.len() && es[j] == by_keyword(at)[i]
}

/// In a frontier sorted by position, the first entry is the left edge and
/// the last entry is at the right edge.
pub proof fn lemma_sorted_edges(es: Seq<Entry>, at: Seq<u32>)
    requires
        frontier_holds(es, at),
        at.len() > 0,
        forall|i: int, j: int|
            0 <= i < j < es.len() ==> entry_le(#[trigger] es[i], #[trigger] es[j]),
    ensures
        es[0].1 as int == leftmost(at),
        es[0].0 == lowest(at),
        es[es.len() - 1].0 == highest(at),
{
    let c = es[0].1 as int;
    assert forall|i: int| 0 <= i < at.len() implies at[c] < #[trigger] at[i] || (at[c] == at[i]
        && c <= i) by {
        let j = lemma_slot_of(es, at, i);
        if j > 0 {
            assert(entry_le(es[0], es[j]));
        }
    }
    lemma_leftmost_unique(at, c);
    let last = es.len() - 1;
    let h = es[last].0;
    let w = es[last].1 as int;
    assert forall|i: int| 0 <= i < at.len() implies #[trigger] at[i] <= h by {
        let j = lemma_slot_of(es, at, i);
        if j < last {
            assert(entry_le(es[j], es[last]));
        }
    }
    assert(at[w] == h);
    lemma_highest_unique(at, h);
}

/// In a frontier sorted by keyword, each entry stands at its keyword's index.
pub proof fn lemma_sorted_by_keyword(es: Seq<Entry>, at: Seq<u32>)
    requires
        frontier_holds(es, at),
        forall|i: int, j: int|
            0 <= i < j < es.len() ==> (#[trigger] es[i]).1 <= (#[trigger] es[j]).1,
    ensures
        es == by_keyword(at),
        positions_in(es) == at,
{
    assert forall|i: int| 0 <= i < es.len() implies (#[trigger] es[i]).1 == i by {
        lemma_keyword_at_least(es, at, i);
        lemma_keyword_at_most(es, at, i);
    }
    assert(es =~= by_keyword(at));
    assert(positions_in(es) =~= at);
}

proof fn lemma_keyword_at_least(es: Seq<Entry>, at: Seq<u32>, i: int)
    requires
        frontier_holds(es, at),
        forall|i: int, j: int|
            0 <= i < j < es.len() ==> (#[trigger] es[i]).1 <= (#[trigger] es[j]).1,
        0 <= i < es.len(),
    ensures
        es[i].1 >= i,
    decreases i,
{
    if i > 0 {
        lemma_keyword_at_least(es, at, i - 1);
        lemma_keywords_differ(es, at, i - 1, i);
        assert(es[i - 1].1 <= es[i].1);
    }
}

proof fn lemma_keyword_at_most(es: Seq<Entry>, at: Seq<u32>, i: int)
    requires
        frontier_holds(es, at),
        forall|i: int, j: int|
            0 <= i < j < es.len() ==> (#[trigger] es[i]).1 <= (#[trigger] es[j]).1,
        0 <= i < es.len(),
    ensures
        es[i].1 <= i,
    decreases es.len() - i,
{
    if i < es.len() - 1 {
        lemma_keyword_at_most(es, at, i + 1);
        lemma_keywords_differ(es, at, i, i + 1);
        assert(es[i].1 <= es[i + 1].1);
    }
}

/// Replacing the entry of keyword `l` by its next position keeps the
/// frontier, for the positions with that of `l` replaced.
pub proof fn lemma_replaced(es: Seq<Entry>, at: Seq<u32>, s: int, p: u32)
    requires
        frontier_holds(es, at),
        0 <= s < es.len(),
    ensures
        frontier_holds(es.update(s, (p, es[s].1)), at.update(es[s].1 as int, p)),
{
    let l = es[s].1;
    let new_es = es.update(s, (p, l));
    let new_at = at.update(l as int, p);
    assert forall|a: int, b: int| 0 <= a < new_es.len() && 0 <= b < new_es.len() && a
        != b implies new_es[a] != new_es[b] by {
        lemma_keywords_differ(es, at, a, b);
    }
    assert forall|j: int| 0 <= j < new_es.len() implies ((#[trigger] new_es[j]).1 as int)
        < new_at.len() && new_es[j].0 == new_at[new_es[j].1 as int] by {
        if j != s {
            lemma_keywords_differ(es, at, j, s);
            assert(new_es[j] == es[j]);
        }
    }
    assert forall|i: int| 0 <= i < new_at.len() implies new_es.contains(
        #[trigger] by_keyword(new_at)[i],
    ) by {
        if i == l as int {
            assert(new_es[s] == by_keyword(new_at)[i]);
        } else {
            let j = lemma_slot_of(es, at, i);
            assert(new_es[j] == by_keyword(new_at)[i]);
        }
    }
}

/// The edges after the left edge's keyword has read `p`: beyond the right
/// edge, `p` is the new right edge and the second entry the new left edge;
/// otherwise the right edge stays and the smaller of `p`'s entry and the
/// second entry is the new left edge.
pub proof fn lemma_edges_after_read(es: Seq<Entry>, at: Seq<u32>, p: u32)
    requires
        frontier_holds(es, at),
        at.len() >= 2,
        forall|i: int, j: int|
            0 <= i < j < es.len() ==> entry_le(#[trigger] es[i], #[trigger] es[j]),
    ensures
        ({
            let l = leftmost(at);
            let moved = at.update(l, p);
            let read = (p, l as usize);
            &&& highest(moved) == (if p > highest(at) { p } else { highest(at) })
            &&& (moved[leftmost(moved)], leftmost(moved) as usize) == (if p > highest(at)
                || !entry_le(read, es[1]) {
                es[1]
            } else {
                read
            })
        }),
{
    lemma_sorted_edges(es, at);
    lemma_leftmost_least(at);
    lemma_highest_bounds(at);
    let l = leftmost(at);
    let moved = at.update(l, p);
    let read = (p, l as usize);
    let last = es.len() - 1;
    lemma_keywords_differ(es, at, 0, last);
    lemma_keywords_differ(es, at, 0, 1);
    let hi = if p > highest(at) { p } else { highest(at) };
    assert forall|i: int| 0 <= i < moved.len() implies #[trigger] moved[i] <= hi by {
        if i != l {
            assert(at[i] <= highest(at));
        }
    }
    if p > highest(at) {
        assert(moved[l] == hi);
    } else {
        assert(moved[es[last].1 as int] == hi);
    }
    lemma_highest_unique(moved, hi);
    let first = if p > highest(at) || !entry_le(read, es[1]) { es[1] } else { read };
    let c = first.1 as int;
    assert(moved[c] == first.0);
    assert forall|i: int| 0 <= i < moved.len() implies moved[c] < #[trigger] moved[i] || (moved[c]
        == moved[i] && c <= i) by {
        if i != l {
            let j = lemma_slot_of(es, at, i);
            if j > 1 {
                assert(entry_le(es[1], es[j]));
            }
            assert(j != 0);
        } else {
            assert(es[1].0 <= highest(at));
        }
    }
    lemma_leftmost_unique(moved, c);
}

} // verus!
