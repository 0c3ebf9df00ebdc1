//! The frontier of a search: a binary min-heap of cells keyed by their
//! tentative distance.
//!
//! The heap is an array in which the entry at index `i` has its children at
//! `2 * i + 1` and `2 * i + 2`. A push puts the new entry last and sifts it
//! up while it is strictly nearer than its parent. A pop takes the root,
//! puts the last entry in its place, sifts that entry down to a leaf along
//! the nearer children (the right one where both are equally near) and then
//! sifts it up again. Which of several equally near entries leaves first is
//! thereby fixed.

use super::hex::Hex;
use vstd::prelude::*;

verus! {

/// A cell on the frontier with the distance at which it was discovered.
#[derive(Debug, Copy, Clone)]
pub struct Visit {
    pub vertex: Hex,
    pub distance: usize,
}

/// The index of the parent of the entry at index `i > 0`.
pub open spec fn parent(i: int) -> int {
    (i - 1) / 2
}

/// `heap` with the entries at `i` and `j` exchanged.
pub open spec fn swapped(heap: Seq<Visit>, i: int, j: int) -> Seq<Visit> {
    heap.update(i, heap[j]).update(j, heap[i])
}

/// Moves the entry at `pos` towards the root while it is strictly nearer
/// than its parent.
pub open spec fn sifted_up(heap: Seq<Visit>, pos: int) -> Seq<Visit>
    decreases pos,
{
    if 0 < pos < heap.len() && heap[pos].distance < heap[parent(pos)].distance {
        sifted_up(swapped(heap, pos, parent(pos)), parent(pos))
    } else {
        heap
    }
}

/// The child of `pos` that a sift down descends to, for an entry with two
/// children: the nearer one, the right one where both are equally near.
pub open spec fn nearer_child(heap: Seq<Visit>, pos: int) -> int {
    if heap[2 * pos + 1].distance >= heap[2 * pos + 2].distance {
        2 * pos + 2
    } else {
        2 * pos + 1
    }
}

/// Moves the entry at `pos` down to a leaf, each time exchanging it with
/// its nearer child; gives the heap and the index where the entry ends.
pub open spec fn sifted_down(heap: Seq<Visit>, pos: int) -> (Seq<Visit>, int)
    decreases heap.len() - pos,
{
    if 0 <= pos && 2 * pos + 2 < heap.len() {
        sifted_down(swapped(heap, pos, nearer_child(heap, pos)), nearer_child(heap, pos))
    } else if 0 <= pos && 2 * pos + 2 == heap.len() {
        (swapped(heap, pos, 2 * pos + 1), 2 * pos + 1)
    } else {
        (heap, pos)
    }
}

/// The heap after `item` is pushed.
pub open spec fn pushed(heap: Seq<Visit>, item: Visit) -> Seq<Visit> {
    sifted_up(heap.push(item), heap.len() as int)
}

/// The heap after its root is popped.
pub open spec fn popped(heap: Seq<Visit>) -> Seq<Visit> {
    if heap.len() <= 1 {
        Seq::empty()
    } else {
        let moved = heap.drop_last().update(0, heap.last());
        let (lowered, pos) = sifted_down(moved, 0);
        sifted_up(lowered, pos)
    }
}

/// The entry at `i > 0` is no nearer than its parent.
pub open spec fn in_order(heap: Seq<Visit>, i: int) -> bool {
    heap[parent(i)].distance <= heap[i].distance
}

/// The entry at `i > 2` is no nearer than the parent of its parent.
pub open spec fn in_order_over(heap: Seq<Visit>, i: int) -> bool {
    heap[parent(parent(i))].distance <= heap[i].distance
}

/// No entry is nearer than its parent.
pub open spec fn is_heap(heap: Seq<Visit>) -> bool {
    forall|i: int| 0 < i < heap.len() ==> #[trigger] in_order(heap, i)
}

/// Every pair of a parent and a child in which `hole` takes no part is in
/// order, and the parent of `hole` is no farther than the children of
/// `hole`: the heap would be in order if the entry at `hole` were taken out.
pub open spec fn in_order_around(heap: Seq<Visit>, hole: int) -> bool {
    &&& forall|i: int|
        0 < i < heap.len() && i != hole && parent(i) != hole ==> #[trigger] in_order(heap, i)
    &&& forall|i: int|
        0 < i < heap.len() && parent(i) == hole && hole > 0 ==> #[trigger] in_order_over(heap, i)
}

/// The entry at `hole` is no farther than its children.
pub open spec fn in_order_below(heap: Seq<Visit>, hole: int) -> bool {
    forall|i: int| 0 < i < heap.len() && parent(i) == hole ==> #[trigger] in_order(heap, i)
}

/// Exchanging two entries keeps the entries.
pub proof fn lemma_swapped(heap: Seq<Visit>, i: int, j: int)
    requires
        0 <= i < heap.len(),
        0 <= j < heap.len(),
    ensures
        swapped(heap, i, j).len() == heap.len(),
        swapped(heap, i, j).to_multiset() == heap.to_multiset(),
{
    broadcast use vstd::multiset::group_multiset_axioms;

    let once = heap.update(i, heap[j]);
    vstd::seq_lib::to_multiset_update(heap, i, heap[j]);
    vstd::seq_lib::to_multiset_update(once, j, heap[i]);
    vstd::seq_lib::to_multiset_contains(heap, heap[i]);
    vstd::seq_lib::to_multiset_contains(heap, heap[j]);
    assert(heap.contains(heap[i]));
    assert(heap.contains(heap[j]));
    assert(swapped(heap, i, j).to_multiset() =~= heap.to_multiset());
}

/// In a heap the root is as near as any entry.
pub proof fn lemma_root_nearest(heap: Seq<Visit>, i: int)
    requires
        is_heap(heap),
        0 <= i < heap.len(),
    ensures
        heap[0].distance <= heap[i].distance,
    decreases i,
{
    if i > 0 {
        assert(in_order(heap, i));
        lemma_root_nearest(heap, parent(i));
    }
}

/// Sifting up an entry that alone may be out of order with its parent
/// gives a heap with the same entries.
pub proof fn lemma_sifted_up(heap: Seq<Visit>, pos: int)
    requires
        0 <= pos < heap.len(),
        in_order_around(heap, pos),
        in_order_below(heap, pos),
    ensures
        is_heap(sifted_up(heap, pos)),
        sifted_up(heap, pos).len() == heap.len(),
        sifted_up(heap, pos).to_multiset() == heap.to_multiset(),
    decreases pos,
{
    if 0 < pos && heap[pos].distance < heap[parent(pos)].distance {
        let up = parent(pos);
        let next = swapped(heap, pos, up);
        lemma_swapped(heap, pos, up);
        assert forall|i: int|
            0 < i < next.len() && i != up && parent(i) != up implies #[trigger] in_order(
            next,
            i,
        ) by {
            if parent(i) == pos {
                assert(in_order_over(heap, i));
            } else if i == pos {
            } else {
                assert(in_order(heap, i));
            }
        }
        assert forall|i: int|
            0 < i < next.len() && parent(i) == up && up > 0 implies #[trigger] in_order_over(
            next,
            i,
        ) by {
            assert(in_order(heap, up));
            if i != pos {
                assert(in_order(heap, i));
            }
        }
        assert forall|i: int| 0 < i < next.len() && parent(i) == up implies #[trigger] in_order(
            next,
            i,
        ) by {
            if i != pos {
                assert(in_order(heap, i));
            }
        }
        lemma_sifted_up(next, up);
    } else {
        assert forall|i: int| 0 < i < heap.len() implies #[trigger] in_order(heap, i) by {
            if i == pos {
            } else if parent(i) == pos {
                assert(in_order(heap, i));
            } else {
                assert(in_order(heap, i));
            }
        }
    }
}

/// One step of a sift down: exchanging the entry at `pos` with a child
/// that is as near as the other child keeps every other pair in order.
proof fn lemma_moved_down(heap: Seq<Visit>, pos: int, child: int, other: int)
    requires
        0 <= pos < child < heap.len(),
        parent(child) == pos,
        in_order_around(heap, pos),
        forall|i: int| 0 < i < heap.len() && parent(i) == pos ==> i == child || i == other,
        other < heap.len() ==> heap[child].distance <= heap[other].distance,
    ensures
        in_order_around(swapped(heap, pos, child), child),
{
    let next = swapped(heap, pos, child);
    assert forall|i: int|
        0 < i < next.len() && i != child && parent(i) != child implies #[trigger] in_order(
        next,
        i,
    ) by {
        if i == pos {
            assert(in_order_over(heap, child));
        } else if parent(i) == pos {
            assert(i == other);
        } else {
            assert(in_order(heap, i));
        }
    }
    assert forall|i: int|
        0 < i < next.len() && parent(i) == child && child > 0 implies #[trigger] in_order_over(
        next,
        i,
    ) by {
        assert(in_order(heap, i));
    }
}

/// Sifting an entry down leaves it at a leaf, with every other pair in
/// order and the same entries.
pub proof fn lemma_sifted_down(heap: Seq<Visit>, pos: int)
    requires
        0 <= pos < heap.len(),
        in_order_around(heap, pos),
    ensures
        pos <= sifted_down(heap, pos).1 < heap.len(),
        sifted_down(heap, pos).0.len() == heap.len(),
        sifted_down(heap, pos).0.to_multiset() == heap.to_multiset(),
        in_order_around(sifted_down(heap, pos).0, sifted_down(heap, pos).1),
        in_order_below(sifted_down(heap, pos).0, sifted_down(heap, pos).1),
    decreases heap.len() - pos,
{
    if 2 * pos + 2 < heap.len() {
        let child = nearer_child(heap, pos);
        let other = 4 * pos + 3 - child;
        let next = swapped(heap, pos, child);
        lemma_swapped(heap, pos, child);
        lemma_moved_down(heap, pos, child, other);
        lemma_sifted_down(next, child);
    } else if 2 * pos + 2 == heap.len() {
        let child = 2 * pos + 1;
        lemma_swapped(heap, pos, child);
        lemma_moved_down(heap, pos, child, child + 1);
    } else {
    }
}

/// A push into a heap gives a heap that holds the pushed entry besides
/// the entries it held.
pub proof fn lemma_pushed(heap: Seq<Visit>, item: Visit)
    requires
        is_heap(heap),
    ensures
        is_heap(pushed(heap, item)),
        pushed(heap, item).len() == heap.len() + 1,
        pushed(heap, item).to_multiset() == heap.to_multiset().insert(item),
{
    let longer = heap.push(item);
    let last = heap.len() as int;
    vstd::seq_lib::to_multiset_build(heap, item);
    assert forall|i: int|
        0 < i < longer.len() && i != last && parent(i) != last implies #[trigger] in_order(
        longer,
        i,
    ) by {
        assert(in_order(heap, i));
    }
    lemma_sifted_up(longer, last);
}

/// A pop from a heap takes out the root, which is as near as any entry,
/// and leaves a heap of the other entries.
pub proof fn lemma_popped(heap: Seq<Visit>)
    requires
        is_heap(heap),
        heap.len() > 0,
    ensures
        is_heap(popped(heap)),
        popped(heap).len() == heap.len() - 1,
        popped(heap).to_multiset() == heap.to_multiset().remove(heap[0]),
        forall|i: int| 0 <= i < heap.len() ==> heap[0].distance <= (#[trigger] heap[i]).distance,
{
    broadcast use vstd::multiset::group_multiset_axioms;

    assert forall|i: int| 0 <= i < heap.len() implies heap[0].distance <= (
    #[trigger] heap[i]).distance by {
        lemma_root_nearest(heap, i);
    }
    let shorter = heap.drop_last();
    assert(heap =~= shorter.push(heap.last()));
    vstd::seq_lib::to_multiset_build(shorter, heap.last());
    if heap.len() == 1 {
        assert(shorter.to_multiset() =~= heap.to_multiset().remove(heap[0]));
        assert(popped(heap) =~= shorter);
    } else {
        let moved = shorter.update(0, heap.last());
        vstd::seq_lib::to_multiset_update(shorter, 0, heap.last());
        assert(moved.to_multiset() =~= heap.to_multiset().remove(heap[0]));
        assert forall|i: int|
            0 < i < moved.len() && i != 0 && parent(i) != 0 implies #[trigger] in_order(
            moved,
            i,
        ) by {
            assert(in_order(heap, i));
        }
        lemma_sifted_down(moved, 0);
        let (lowered, pos) = sifted_down(moved, 0);
        lemma_sifted_up(lowered, pos);
    }
}

/// The entries after a push are the entries before it and the pushed one.
pub proof fn lemma_pushed_entries(heap: Seq<Visit>, item: Visit)
    requires
        is_heap(heap),
    ensures
        forall|entry: Visit| #[trigger]
            pushed(heap, item).contains(entry) <==> heap.contains(entry) || entry == item,
{
    broadcast use vstd::multiset::group_multiset_axioms;

    lemma_pushed(heap, item);
    assert forall|entry: Visit| #[trigger]
        pushed(heap, item).contains(entry) <==> heap.contains(entry) || entry == item by {
        vstd::seq_lib::to_multiset_contains(pushed(heap, item), entry);
        vstd::seq_lib::to_multiset_contains(heap, entry);
    }
}

/// The entries after a pop were entries before it, and every entry but
/// the root is still there.
pub proof fn lemma_popped_entries(heap: Seq<Visit>)
    requires
        is_heap(heap),
        heap.len() > 0,
    ensures
        forall|entry: Visit| #[trigger] popped(heap).contains(entry) ==> heap.contains(entry),
        forall|entry: Visit|
            heap.contains(entry) && entry != heap[0] ==> #[trigger] popped(heap).contains(entry),
{
    broadcast use vstd::multiset::group_multiset_axioms;

    lemma_popped(heap);
    assert forall|entry: Visit| #[trigger] popped(heap).contains(entry) implies heap.contains(
        entry,
    ) by {
        vstd::seq_lib::to_multiset_contains(popped(heap), entry);
        vstd::seq_lib::to_multiset_contains(heap, entry);
    }
    assert forall|entry: Visit| heap.contains(entry) && entry != heap[0] implies #[trigger] popped(
        heap,
    ).contains(entry) by {
        vstd::seq_lib::to_multiset_contains(popped(heap), entry);
        vstd::seq_lib::to_multiset_contains(heap, entry);
    }
}

/// The frontier of a search.
pub struct Frontier {
    data: Vec<Visit>,
}

impl View for Frontier {
    type V = Seq<Visit>;

    closed spec fn view(&self) -> Seq<Visit> {
        self.data@
    }
}

/// Exchanges the entries at `i` and `j`.
fn swap_entries(data: &mut Vec<Visit>, i: usize, j: usize)
    requires
        i < old(data).len(),
        j < old(data).len(),
    ensures
        final(data)@ == swapped(old(data)@, i as int, j as int),
{
    let first = data[i];
    let second = data[j];
    data.set(i, second);
    data.set(j, first);
}

/// Sifts the entry at `pos` up.
fn sift_up(data: &mut Vec<Visit>, start: usize)
    requires
        start < old(data).len(),
    ensures
        final(data)@ == sifted_up(old(data)@, start as int),
{
    let mut pos = start;
    while pos > 0
        invariant
            pos < data.len(),
            sifted_up(data@, pos as int) == sifted_up(old(data)@, start as int),
        ensures
            data@ == sifted_up(old(data)@, start as int),
        decreases pos,
    {
        let above = (pos - 1) / 2;
        if data[pos].distance >= data[above].distance {
            break ;
        }
        swap_entries(data, pos, above);
        pos = above;
    }
}

/// Sifts the entry at `pos` down to a leaf; gives the index where it ends.
fn sift_down(data: &mut Vec<Visit>, start: usize) -> (end: usize)
    requires
        start < old(data).len(),
    ensures
        (final(data)@, end as int) == sifted_down(old(data)@, start as int),
        end < final(data).len(),
        final(data).len() == old(data).len(),
{
    let len = data.len();
    let mut pos = start;
    while pos < (len - 1) / 2
        invariant
            len == data.len(),
            len == old(data).len(),
            pos < len,
            sifted_down(data@, pos as int) == sifted_down(old(data)@, start as int),
        decreases len - pos,
    {
        let left = 2 * pos + 1;
        let child = if data[left].distance >= data[left + 1].distance {
            left + 1
        } else {
            left
        };
        swap_entries(data, pos, child);
        pos = child;
    }
    if len % 2 == 0 && pos == (len - 2) / 2 {
        let child = 2 * pos + 1;
        swap_entries(data, pos, child);
        pos = child;
    }
    pos
}

impl Frontier {
    /// Makes an empty frontier.
    pub fn new() -> (frontier: Frontier)
        ensures
            frontier@ == Seq::<Visit>::empty(),
    {
        Frontier { data: Vec::new() }
    }

    /// Pushes `item`.
    pub fn push(&mut self, item: Visit)
        ensures
            final(self)@ == pushed(old(self)@, item),
    {
        let last = self.data.len();
        self.data.push(item);
        sift_up(&mut self.data, last);
    }

    /// Pops the root, an entry that is as near as any: `None` from an
    /// empty frontier.
    pub fn pop(&mut self) -> (item: Option<Visit>)
        ensures
            item == (if old(self)@.len() == 0 {
                None
            } else {
                Some(old(self)@[0])
            }),
            final(self)@ == popped(old(self)@),
    {
        match self.data.pop() {
            None => None,
            Some(last) => {
                if self.data.len() == 0 {
                    Some(last)
                } else {
                    let root = self.data[0];
                    self.data.set(0, last);
                    let pos = sift_down(&mut self.data, 0);
                    sift_up(&mut self.data, pos);
                    Some(root)
                }
            },
        }
    }
}

} // verus!
