//! The small-capacity vectors that hold the frontier and the reported
//! positions, and what is taken on trust about them.

use vstd::prelude::*;
use crate::order::{is_ascending, Window};
use std::iter::FromIterator;
use tinyvec::TinyVec;

verus! {

/// Span of a window.
pub type Size = u32;

/// Occurrence offset of a keyword in a document.
pub type Position = u32;

/// A frontier entry: the position last read for a keyword, then the keyword.
pub type Entry = (Position, usize);

/// The positions of one window, in keyword order, held in a `tinyvec::TinyVec`
/// that keeps up to twelve of them inline. Two of them compare as their
/// slices do.
#[derive(Debug, PartialEq, Eq, PartialOrd, Ord)]
#[verifier::external_body]
pub struct Positions {
    held: TinyVec<[Position; 12]>,
}

/// The frontier: one entry per keyword, held in a `tinyvec::TinyVec` that
/// keeps up to twelve of them inline.
#[verifier::external_body]
pub struct Frontier {
    held: TinyVec<[Entry; 12]>,
}

/// The positions that a `Positions` holds, in order.
pub uninterp spec fn positions_of(v: Positions) -> Seq<u32>;

/// The entries that a frontier holds, in order.
pub uninterp spec fn entries_of(v: Frontier) -> Seq<(u32, usize)>;

impl View for Positions {
    type V = Seq<Position>;

    open spec fn view(&self) -> Seq<Position> {
        positions_of(*self)
    }
}

impl View for Frontier {
    type V = Seq<Entry>;

    open spec fn view(&self) -> Seq<Entry> {
        entries_of(*self)
    }
}

/// Largest capacity that is reserved ahead for a frontier.
pub const FRONTIER_RESERVE_MAX: usize = 0x0100_0000;

/// Order of frontier entries: by position, then by keyword.
pub open spec fn entry_le(a: Entry, b: Entry) -> bool {
    a.0 < b.0 || (a.0 == b.0 && a.1 <= b.1)
}

/// The positions of the entries, in the order of the entries.
pub open spec fn positions_in(es: Seq<Entry>) -> Seq<Position> {
    es.map_values(|e: Entry| e.0)
}

/// The window that a reported pair stands for.
pub open spec fn window_of(w: (Size, Positions)) -> Window {
    Window { size: w.0 as nat, positions: positions_of(w.1) }
}

/// The windows that an output collection stands for.
pub open spec fn windows_of(out: Seq<(Size, Positions)>) -> Seq<Window> {
    out.map_values(|w: (Size, Positions)| window_of(w))
}

impl Positions {
    /// The positions as a vector, in keyword order.
    pub fn to_vec(&self) -> (r: Vec<Position>)
        ensures
            r@ == self@,
    {
        let n: usize = positions_len(self);
        let mut r: Vec<Position> = Vec::new();
        let mut i: usize = 0;
        while i < n
            invariant
                n == self@.len(),
                i <= n,
                r@ == self@.take(i as int),
            decreases n - i,
        {
            r.push(positions_at(self, i));
            proof {
                assert(r@ =~= self@.take(i + 1));
            }
            i += 1;
        }
        proof {
            assert(self@.take(n as int) =~= self@);
        }
        r
    }
}

/// `TinyVec::with_capacity`: the new frontier holds no entry. Beyond the
/// inline capacity the capacity is reserved on the heap, which fails for a
/// request of more bytes than `isize::MAX`: the bound keeps well below that.
#[verifier::external_body]
pub(crate) fn frontier_with_capacity(cap: usize) -> (r: Frontier)
    requires
        cap <= FRONTIER_RESERVE_MAX,
    ensures
        entries_of(r) == Seq::<Entry>::empty(),
{
    Frontier { held: TinyVec::with_capacity(cap) }
}

/// `TinyVec::push`: the entry is appended behind those already held.
#[verifier::external_body]
pub(crate) fn frontier_push(v: &mut Frontier, e: Entry)
    ensures
        entries_of(*final(v)) == entries_of(*old(v)).push(e),
{
    v.held.push(e)
}

/// Indexing a `TinyVec`: the entry at index `i`.
#[verifier::external_body]
pub(crate) fn frontier_get(v: &Frontier, i: usize) -> (r: Entry)
    requires
        i < entries_of(*v).len(),
    ensures
        r == entries_of(*v)[i as int],
{
    v.held[i]
}

/// Assigning through an index of a `TinyVec`: the entry at index `i` is
/// replaced and the others stay.
#[verifier::external_body]
pub(crate) fn frontier_set(v: &mut Frontier, i: usize, e: Entry)
    requires
        i < entries_of(*old(v)).len(),
    ensures
        entries_of(*final(v)) == entries_of(*old(v)).update(i as int, e),
{
    v.held[i] = e;
}

/// `sort_unstable` on the frontier's slice: the same entries, rearranged so
/// that they ascend by position and, at equal positions, by keyword.
#[verifier::external_body]
pub(crate) fn frontier_sort_by_position(v: &mut Frontier)
    ensures
        entries_of(*final(v)).to_multiset() == entries_of(*old(v)).to_multiset(),
        forall|i: int, j: int|
            0 <= i < j < entries_of(*final(v)).len() ==> entry_le(
                #[trigger] entries_of(*final(v))[i],
                #[trigger] entries_of(*final(v))[j],
            ),
{
    v.held.sort_unstable()
}

/// `sort_unstable_by_key` on the frontier's slice, keyed by keyword: the same
/// entries, rearranged so that their keywords do not descend.
#[verifier::external_body]
pub(crate) fn frontier_sort_by_keyword(v: &mut Frontier)
    ensures
        entries_of(*final(v)).to_multiset() == entries_of(*old(v)).to_multiset(),
        forall|i: int, j: int|
            0 <= i < j < entries_of(*final(v)).len() ==> (#[trigger] entries_of(
                *final(v),
            )[i]).1 <= (#[trigger] entries_of(*final(v))[j]).1,
{
    v.held.sort_unstable_by_key(|e| e.1)
}

/// Collecting the frontier's positions into a `TinyVec`: one position per
/// entry, in the frontier's order.
#[verifier::external_body]
pub(crate) fn frontier_positions(v: &Frontier) -> (r: Positions)
    ensures
        positions_of(r) == positions_in(entries_of(*v)),
{
    Positions { held: v.held.iter().map(|e| e.0).collect() }
}

/// `TinyVec::len`: how many positions are held.
#[verifier::external_body]
pub(crate) fn positions_len(v: &Positions) -> (r: usize)
    ensures
        r == positions_of(*v).len(),
{
    v.held.len()
}

/// Indexing a `TinyVec`: the position at index `i`.
#[verifier::external_body]
pub(crate) fn positions_at(v: &Positions, i: usize) -> (r: Position)
    requires
        i < positions_of(*v).len(),
    ensures
        r == positions_of(*v)[i as int],
{
    v.held[i]
}

/// `TinyVec::from_iter` on one position: a vector that holds just that one.
#[verifier::external_body]
pub(crate) fn single_position(p: Position) -> (r: Positions)
    ensures
        positions_of(r) == seq![p],
{
    Positions { held: TinyVec::from_iter(Some(p)) }
}

/// `sort_unstable` on the output: the same windows, rearranged so that they
/// ascend by size and, at equal sizes, by their positions. A pair orders by
/// its size first, and `Positions` orders as the slice that it holds.
#[verifier::external_body]
pub(crate) fn sort_windows(out: &mut Vec<(Size, Positions)>)
    ensures
        windows_of(final(out)@).to_multiset() == windows_of(old(out)@).to_multiset(),
        is_ascending(windows_of(final(out)@)),
{
    out.sort_unstable()
}

} // verus!
