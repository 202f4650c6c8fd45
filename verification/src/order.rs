//! Windows as mathematical values, and the order in which they are reported.

use vstd::prelude::*;
use vstd::relations::*;
use vstd::seq_lib::{group_to_multiset_ensures, lemma_sorted_unique};

verus! {

/// A window: one position per keyword, in keyword order, and its span.
pub struct Window {
    pub size: nat,
    pub positions: Seq<u32>,
}

/// Lexicographic order on position sequences: the first differing position
/// decides, and a proper prefix comes before what extends it.
pub open spec fn lex_le(a: Seq<u32>, b: Seq<u32>) -> bool
    decreases a.len(),
{
    if a.len() == 0 {
        true
    } else if b.len() == 0 {
        false
    } else if a[0] != b[0] {
        a[0] < b[0]
    } else {
        lex_le(a.drop_first(), b.drop_first())
    }
}

/// Order of the reported windows: by size, then by positions.
pub open spec fn window_le(a: Window, b: Window) -> bool {
    a.size < b.size || (a.size == b.size && lex_le(a.positions, b.positions))
}

/// The windows of `ws` in ascending order.
pub open spec fn ascending(ws: Seq<Window>) -> Seq<Window> {
    ws.sort_by(|a: Window, b: Window| window_le(a, b))
}

/// Whether the windows stand in ascending order.
pub open spec fn is_ascending(ws: Seq<Window>) -> bool {
    forall|i: int, j: int| 0 <= i < j < ws.len() ==> window_le(#[trigger] ws[i], #[trigger] ws[j])
}

pub proof fn lemma_lex_le_reflexive(a: Seq<u32>)
    ensures
        lex_le(a, a),
    decreases a.len(),
{
    if a.len() > 0 {
        lemma_lex_le_reflexive(a.drop_first());
    }
}

pub proof fn lemma_lex_le_antisymmetric(a: Seq<u32>, b: Seq<u32>)
    requires
        lex_le(a, b),
        lex_le(b, a),
    ensures
        a == b,
    decreases a.len(),
{
    if a.len() == 0 {
        assert(b.len() == 0);
        assert(a =~= b);
    } else {
        lemma_lex_le_antisymmetric(a.drop_first(), b.drop_first());
        assert(a =~= seq![a[0]] + a.drop_first());
        assert(b =~= seq![b[0]] + b.drop_first());
    }
}

pub proof fn lemma_lex_le_transitive(a: Seq<u32>, b: Seq<u32>, c: Seq<u32>)
    requires
        lex_le(a, b),
        lex_le(b, c),
    ensures
        lex_le(a, c),
    decreases a.len(),
{
    if a.len() > 0 && a[0] == b[0] && b[0] == c[0] {
        lemma_lex_le_transitive(a.drop_first(), b.drop_first(), c.drop_first());
    }
}

pub proof fn lemma_lex_le_connected(a: Seq<u32>, b: Seq<u32>)
    ensures
        lex_le(a, b) || lex_le(b, a),
    decreases a.len(),
{
    if a.len() > 0 && b.len() > 0 && a[0] == b[0] {
        lemma_lex_le_connected(a.drop_first(), b.drop_first());
    }
}

/// `window_le` is a total order, so a collection of windows has exactly one
/// sorted arrangement.
pub proof fn lemma_window_le_total()
    ensures
        total_ordering(|a: Window, b: Window| window_le(a, b)),
{
    let le = |a: Window, b: Window| window_le(a, b);
    assert forall|x: Window| #[trigger] le(x, x) by {
        lemma_lex_le_reflexive(x.positions);
    }
    assert forall|x: Window, y: Window| #[trigger] le(x, y) && #[trigger] le(y, x) implies x
        == y by {
        lemma_lex_le_antisymmetric(x.positions, y.positions);
    }
    assert forall|x: Window, y: Window, z: Window| #[trigger] le(x, y) && #[trigger] le(
        y,
        z,
    ) implies le(x, z) by {
        if x.size == y.size && y.size == z.size {
            lemma_lex_le_transitive(x.positions, y.positions, z.positions);
        }
    }
    assert forall|x: Window, y: Window| #[trigger] le(x, y) || #[trigger] le(y, x) by {
        lemma_lex_le_connected(x.positions, y.positions);
    }
}

/// The ascending arrangement of a collection of windows is the only one:
/// whatever holds the same windows in ascending order is that arrangement.
pub proof fn lemma_ascending_unique(ws: Seq<Window>, sorted: Seq<Window>)
    requires
        sorted.to_multiset() == ws.to_multiset(),
        is_ascending(sorted),
    ensures
        sorted == ascending(ws),
{
    let le = |a: Window, b: Window| window_le(a, b);
    lemma_window_le_total();
    ws.lemma_sort_by_ensures(le);
    assert(sorted_by(sorted, le)) by {
        assert forall|i: int, j: int| 0 <= i < j < sorted.len() implies #[trigger] le(
            sorted[i],
            sorted[j],
        ) by {
            assert(window_le(sorted[i], sorted[j]));
        }
    }
    lemma_sorted_unique(sorted, ascending(ws), le);
}

/// The ascending arrangement holds the same windows and is in ascending order.
pub proof fn lemma_ascending_sorts(ws: Seq<Window>)
    ensures
        ascending(ws).to_multiset() == ws.to_multiset(),
        ascending(ws).len() == ws.len(),
        is_ascending(ascending(ws)),
        forall|w: Window| ascending(ws).contains(w) <==> ws.contains(w),
{
    broadcast use group_to_multiset_ensures;

    let le = |a: Window, b: Window| window_le(a, b);
    lemma_window_le_total();
    ws.lemma_sort_by_ensures(le);
    let sorted = ascending(ws);
    assert(sorted.len() == sorted.to_multiset().len());
    assert(ws.len() == ws.to_multiset().len());
    assert forall|i: int, j: int| 0 <= i < j < sorted.len() implies window_le(
        #[trigger] sorted[i],
        #[trigger] sorted[j],
    ) by {
        assert(le(sorted[i], sorted[j]));
    }
    assert forall|w: Window| sorted.contains(w) <==> ws.contains(w) by {
        assert(sorted.to_multiset().count(w) == ws.to_multiset().count(w));
    }
}

} // verus!
