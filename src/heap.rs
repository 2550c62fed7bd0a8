use vstd::prelude::*;
use vstd::multiset::Multiset;
use crate::order::{HeapOrder, MaxOrder, MinOrder, total_order};
use crate::multiset_facts::{
    lemma_drop_last_to_multiset, lemma_swap_to_multiset, lemma_update_to_multiset,
};

verus! {

broadcast use vstd::multiset::group_multiset_axioms, vstd::seq_lib::group_to_multiset_ensures;

/// Position of the parent of slot `i` in the array layout of a complete binary tree.
pub open spec fn parent(i: int) -> int {
    (i - 1) / 2
}

/// `x` is in `m` and no element of `m` should sit above it.
pub open spec fn is_top<T, O: HeapOrder<T>>(o: O, m: Multiset<T>, x: T) -> bool {
    &&& m.contains(x)
    &&& forall|y: T| m.contains(y) ==> !o.prefers(y, x)
}

/// One pop, as seen from the outside: from an empty heap it returns nothing and leaves the
/// heap as it was; otherwise it returns a top element and removes one copy of it.
pub open spec fn pops_to<T, O: HeapOrder<T>>(
    o: O,
    before: Multiset<T>,
    r: Option<T>,
    after: Multiset<T>,
) -> bool {
    match r {
        None => before.len() == 0 && after == before,
        Some(x) => is_top(o, before, x) && after == before.remove(x),
    }
}

/// No element of `s` should sit above one that comes before it.
pub open spec fn sorted_by<T, O: HeapOrder<T>>(o: O, s: Seq<T>) -> bool {
    forall|a: int, b: int| 0 <= a < b < s.len() ==> !o.prefers(#[trigger] s[b], #[trigger] s[a])
}

/// The child at slot `j` does not belong above its parent.
spec fn edge_ok<T, O: HeapOrder<T>>(o: O, s: Seq<T>, j: int) -> bool {
    !o.prefers(s[j], s[parent(j)])
}

/// The heap property over the whole array.
spec fn heap_ordered<T, O: HeapOrder<T>>(o: O, s: Seq<T>) -> bool {
    forall|j: int| 0 < j < s.len() ==> #[trigger] edge_ok(o, s, j)
}

/// The heap property while the element at slot `i` climbs: every edge holds but the one above
/// `i`, and the children of `i` do not belong above the parent of `i` either.
spec fn heap_but_up<T, O: HeapOrder<T>>(o: O, s: Seq<T>, i: int) -> bool {
    &&& forall|j: int| 0 < j < s.len() && j != i ==> #[trigger] edge_ok(o, s, j)
    &&& 0 < i ==> forall|c: int|
        0 < c < s.len() && parent(c) == i ==> !o.prefers(#[trigger] s[c], s[parent(i)])
}

/// The heap property while the element at slot `i` sinks: every edge holds but those below
/// `i`, and the children of `i` do not belong above the parent of `i` either.
spec fn heap_but_down<T, O: HeapOrder<T>>(o: O, s: Seq<T>, i: int) -> bool {
    &&& forall|j: int| 0 < j < s.len() && parent(j) != i ==> #[trigger] edge_ok(o, s, j)
    &&& 0 < i ==> forall|c: int|
        0 < c < s.len() && parent(c) == i ==> !o.prefers(#[trigger] s[c], s[parent(i)])
}

/// A binary heap stored level by level in a vector; `order` decides which elements sit above
/// which.
pub struct Heap<T, O> {
    items: Vec<T>,
    order: O,
}

impl<T, O> View for Heap<T, O> {
    type V = Multiset<T>;

    /// The elements the heap holds.
    closed spec fn view(&self) -> Multiset<T> {
        self.items@.to_multiset()
    }
}

/// Relies on `slice::swap`: it exchanges the elements at two in-bounds positions.
#[verifier::external_body]
fn swap_items<T>(v: &mut Vec<T>, i: usize, j: usize)
    requires
        i < old(v).len(),
        j < old(v).len(),
    ensures
        final(v)@ == old(v)@.update(i as int, old(v)@[j as int]).update(j as int, old(v)@[i as int]),
{
    v.swap(i, j)
}

impl<T, O: HeapOrder<T>> Heap<T, O> {
    /// The ordering strategy the heap was built with.
    pub closed spec fn ordering(&self) -> O {
        self.order
    }

    /// The element at the root, which the next pop returns; `None` when the heap is empty.
    pub closed spec fn peek(&self) -> Option<T> {
        if self.items@.len() > 0 {
            Some(self.items@[0])
        } else {
            None
        }
    }

    /// The ordering is lawful and the array satisfies the heap property.
    pub closed spec fn wf(&self) -> bool {
        &&& self.order.lawful()
        &&& heap_ordered(self.order, self.items@)
    }

    /// An empty heap ordered by `order`.
    pub fn new(order: O) -> (h: Self)
        requires
            order.lawful(),
        ensures
            h.wf(),
            h@ =~= Multiset::empty(),
            h.ordering() == order,
    {
        let h = Heap { items: Vec::new(), order };
        proof {
            assert(h.items@ =~= Seq::<T>::empty());
        }
        h
    }

    /// The number of elements held.
    pub fn len(&self) -> (r: usize)
        ensures
            r == self@.len(),
    {
        self.items.len()
    }

    /// Whether the heap holds no element.
    pub fn is_empty(&self) -> (r: bool)
        ensures
            r == (self@.len() == 0),
    {
        self.len() == 0
    }

    /// Slot of the parent of slot `idx`.
    fn parent_idx(&self, idx: usize) -> (r: usize)
        requires
            idx > 0,
        ensures
            r == parent(idx as int),
    {
        (idx - 1) / 2
    }

    /// Whether slot `idx` has at least one child.
    fn children_present(&self, idx: usize) -> (r: bool)
        ensures
            r == (2 * idx + 1 < self.items@.len()),
    {
        idx < self.items.len() / 2
    }

    /// Slot of the left child of slot `idx`.
    fn left_child_idx(&self, idx: usize) -> (r: usize)
        requires
            2 * idx + 1 < self.items@.len(),
        ensures
            r == 2 * idx + 1,
    {
        let n = self.items.len();
        assert(2 * idx + 1 < n);
        idx * 2 + 1
    }

    /// Slot of the right child of slot `idx`.
    fn right_child_idx(&self, idx: usize) -> (r: usize)
        requires
            2 * idx + 1 < self.items@.len(),
        ensures
            r == 2 * idx + 2,
    {
        let n = self.items.len();
        assert(2 * idx + 1 < n);
        self.left_child_idx(idx) + 1
    }

    /// The child of `idx` that belongs highest: no child of `idx` should sit above it.
    fn smallest_child_idx(&self, idx: usize) -> (r: usize)
        requires
            self.order.lawful(),
            2 * idx + 1 < self.items@.len(),
        ensures
            r < self.items@.len(),
            r > 0,
            parent(r as int) == idx,
            2 * idx + 2 >= self.items@.len() ==> r == 2 * idx + 1,
            2 * idx + 2 < self.items@.len() ==> r == (if self.order.prefers(
                self.items@[2 * idx + 1],
                self.items@[2 * idx + 2],
            ) {
                2 * idx + 1
            } else {
                2 * idx + 2
            }),
            forall|c: int|
                0 < c < self.items@.len() && parent(c) == idx ==> !self.order.prefers(
                    #[trigger] self.items@[c],
                    self.items@[r as int],
                ),
    {
        let left = self.left_child_idx(idx);
        let right = self.right_child_idx(idx);
        proof {
            self.order.lemma_strict_weak_order();
        }
        if right >= self.items.len() {
            return left;
        }
        if self.order.less(&self.items[left], &self.items[right]) {
            left
        } else {
            right
        }
    }

    /// Inserts `value`.
    pub fn add(&mut self, value: T)
        requires
            old(self).wf(),
        ensures
            final(self).wf(),
            final(self)@ =~= old(self)@.insert(value),
            final(self).ordering() == old(self).ordering(),
    {
        let ghost s0 = self.items@;
        self.items.push(value);
        let idx = self.items.len() - 1;
        proof {
            let s = self.items@;
            assert forall|j: int| 0 < j < s.len() && j != idx implies #[trigger] edge_ok(
                self.order,
                s,
                j,
            ) by {
                assert(edge_ok(self.order, s0, j));
            }
        }
        self.bubble_up(idx);
    }

    /// Moves the element at `idx` up until its parent no longer yields to it.
    fn bubble_up(&mut self, idx: usize)
        requires
            old(self).order.lawful(),
            idx < old(self).items@.len(),
            heap_but_up(old(self).order, old(self).items@, idx as int),
        ensures
            final(self).wf(),
            final(self)@ =~= old(self)@,
            final(self).order == old(self).order,
    {
        let mut idx = idx;
        while idx > 0
            invariant
                self.order == old(self).order,
                self.order.lawful(),
                idx < self.items@.len(),
                self.items@.to_multiset() =~= old(self).items@.to_multiset(),
                heap_but_up(self.order, self.items@, idx as int),
            ensures
                self.order == old(self).order,
                self.items@.to_multiset() =~= old(self).items@.to_multiset(),
                heap_ordered(self.order, self.items@),
            decreases idx,
        {
            let p = self.parent_idx(idx);
            if self.order.less(&self.items[idx], &self.items[p]) {
                let ghost s = self.items@;
                let ghost o = self.order;
                swap_items(&mut self.items, idx, p);
                proof {
                    let t = self.items@;
                    o.lemma_strict_weak_order();
                    lemma_swap_to_multiset(s, idx as int, p as int);
                    assert(t =~= s.update(idx as int, s[p as int]).update(p as int, s[idx as int]));
                    assert forall|j: int| 0 < j < t.len() && j != p implies #[trigger] edge_ok(
                        o,
                        t,
                        j,
                    ) by {
                        if j == idx {
                            assert(o.prefers(s[idx as int], s[p as int]));
                            assert(!o.prefers(s[p as int], s[idx as int]));
                        } else if parent(j) == idx {
                            assert(t[j] == s[j]);
                            assert(!o.prefers(s[j], s[p as int]));
                        } else if parent(j) == p {
                            assert(edge_ok(o, s, j));
                            assert(t[j] == s[j]);
                            if o.prefers(s[j], s[idx as int]) {
                                assert(o.prefers(s[idx as int], s[p as int]));
                            }
                        } else {
                            assert(edge_ok(o, s, j));
                            assert(t[j] == s[j]);
                            assert(t[parent(j)] == s[parent(j)]);
                        }
                    }
                    if 0 < p {
                        assert forall|c: int|
                            0 < c < t.len() && parent(c) == p implies !o.prefers(
                            #[trigger] t[c],
                            t[parent(p as int)],
                        ) by {
                            assert(edge_ok(o, s, p as int));
                            assert(t[parent(p as int)] == s[parent(p as int)]);
                            if c != idx {
                                assert(edge_ok(o, s, c));
                                assert(t[c] == s[c]);
                            } else {
                                assert(t[c] == s[p as int]);
                            }
                        }
                    }
                }
                idx = p;
            } else {
                proof {
                    let s = self.items@;
                    assert(edge_ok(self.order, s, idx as int));
                    assert forall|j: int| 0 < j < s.len() implies #[trigger] edge_ok(
                        self.order,
                        s,
                        j,
                    ) by {
                        if j != idx {
                        }
                    }
                }
                break;
            }
        }
    }

    /// Removes and returns the element at the root, which no other element should sit above;
    /// `None` when the heap is empty, which is then left as it was.
    pub fn pop(&mut self) -> (r: Option<T>)
        requires
            old(self).wf(),
        ensures
            final(self).wf(),
            final(self).ordering() == old(self).ordering(),
            pops_to(old(self).ordering(), old(self)@, r, final(self)@),
            r == old(self).peek(),
    {
        if self.is_empty() {
            return None;
        }
        let ghost s = self.items@;
        proof {
            lemma_root_is_top(self.order, s);
        }
        let ret = self.items.swap_remove(0);
        proof {
            let u = s.update(0, s.last());
            lemma_update_to_multiset(s, 0, s.last());
            lemma_drop_last_to_multiset(u);
            assert(self.items@ =~= u.drop_last());
            let t = self.items@;
            assert forall|j: int| 0 < j < t.len() && parent(j) != 0 implies #[trigger] edge_ok(
                self.order,
                t,
                j,
            ) by {
                assert(edge_ok(self.order, s, j));
            }
        }
        if self.items.len() > 0 {
            self.bubble_down(0);
        } else {
            proof {
                assert(heap_ordered(self.order, self.items@));
            }
        }
        proof {
            assert(self@ =~= old(self)@.remove(ret));
        }
        Some(ret)
    }

    /// One step of draining the heap: the same as `pop`.
    pub fn next(&mut self) -> (r: Option<T>)
        requires
            old(self).wf(),
        ensures
            final(self).wf(),
            final(self).ordering() == old(self).ordering(),
            pops_to(old(self).ordering(), old(self)@, r, final(self)@),
            r == old(self).peek(),
    {
        self.pop()
    }

    /// Pops until the heap is empty and returns the elements in the order they came out.
    pub fn drain(&mut self) -> (r: Vec<T>)
        requires
            old(self).wf(),
        ensures
            final(self).wf(),
            final(self).ordering() == old(self).ordering(),
            final(self)@.len() == 0,
            r@.to_multiset() =~= old(self)@,
            sorted_by(old(self).ordering(), r@),
    {
        let ghost o = self.order;
        let mut out: Vec<T> = Vec::new();
        loop
            invariant
                self.wf(),
                self.order == o,
                o == old(self).order,
                out@.to_multiset().add(self@) =~= old(self)@,
                sorted_by(o, out@),
                forall|k: int, y: T|
                    0 <= k < out@.len() && self@.contains(y) ==> !#[trigger] o.prefers(y, out@[k]),
            ensures
                self.wf(),
                self.order == o,
                self@.len() == 0,
                out@.to_multiset() =~= old(self)@,
                sorted_by(o, out@),
            decreases self@.len(),
        {
            let ghost before = self@;
            match self.pop() {
                Some(x) => {
                    let ghost prev = out@;
                    out.push(x);
                    proof {
                        assert(out@ =~= prev.push(x));
                        assert forall|a: int, b: int| 0 <= a < b < out@.len() implies !o.prefers(
                            #[trigger] out@[b],
                            #[trigger] out@[a],
                        ) by {
                            if b == prev.len() {
                                assert(before.contains(x));
                                assert(out@[a] == prev[a]);
                                assert(!o.prefers(x, prev[a]));
                            } else {
                                assert(out@[a] == prev[a]);
                                assert(out@[b] == prev[b]);
                            }
                        }
                        assert forall|k: int, y: T|
                            0 <= k < out@.len() && self@.contains(y) implies !#[trigger] o.prefers(
                            y,
                            out@[k],
                        ) by {
                            assert(before.contains(y));
                            if k < prev.len() {
                                assert(out@[k] == prev[k]);
                            }
                        }
                    }
                },
                None => {
                    proof {
                        assert(out@.to_multiset().add(self@) =~= out@.to_multiset());
                    }
                    break;
                },
            }
        }
        out
    }

    /// Moves the element at `idx` down until no child belongs above it.
    fn bubble_down(&mut self, idx: usize)
        requires
            old(self).order.lawful(),
            idx < old(self).items@.len(),
            heap_but_down(old(self).order, old(self).items@, idx as int),
        ensures
            final(self).wf(),
            final(self)@ =~= old(self)@,
            final(self).order == old(self).order,
    {
        let mut idx = idx;
        while self.children_present(idx)
            invariant
                self.order == old(self).order,
                self.order.lawful(),
                idx < self.items@.len(),
                self.items@.to_multiset() =~= old(self).items@.to_multiset(),
                heap_but_down(self.order, self.items@, idx as int),
            ensures
                self.order == old(self).order,
                self.items@.to_multiset() =~= old(self).items@.to_multiset(),
                heap_ordered(self.order, self.items@),
            decreases self.items@.len() - idx,
        {
            let child = self.smallest_child_idx(idx);
            if self.order.less(&self.items[child], &self.items[idx]) {
                let ghost s = self.items@;
                let ghost o = self.order;
                swap_items(&mut self.items, idx, child);
                proof {
                    let t = self.items@;
                    let m = child as int;
                    let i = idx as int;
                    o.lemma_strict_weak_order();
                    lemma_swap_to_multiset(s, i, m);
                    assert(t =~= s.update(i, s[m]).update(m, s[i]));
                    assert forall|j: int| 0 < j < t.len() && parent(j) != m implies #[trigger] edge_ok(
                        o,
                        t,
                        j,
                    ) by {
                        if j == m {
                            assert(!o.prefers(s[i], s[m]));
                        } else if parent(j) == i {
                            assert(t[j] == s[j]);
                            assert(!o.prefers(s[j], s[m]));
                        } else if j == i {
                            assert(t[parent(i)] == s[parent(i)]);
                            assert(!o.prefers(s[m], s[parent(i)]));
                        } else {
                            assert(edge_ok(o, s, j));
                            assert(t[j] == s[j]);
                            assert(t[parent(j)] == s[parent(j)]);
                        }
                    }
                    assert forall|c: int|
                        0 < c < t.len() && parent(c) == m implies !o.prefers(
                        #[trigger] t[c],
                        t[parent(m)],
                    ) by {
                        assert(edge_ok(o, s, c));
                        assert(t[c] == s[c]);
                    }
                }
                idx = child;
            } else {
                proof {
                    let s = self.items@;
                    let o = self.order;
                    o.lemma_strict_weak_order();
                    assert forall|j: int| 0 < j < s.len() implies #[trigger] edge_ok(o, s, j) by {
                        if parent(j) == idx {
                            assert(!o.prefers(s[j], s[child as int]));
                        }
                    }
                }
                break;
            }
        }
        proof {
            let s = self.items@;
            assert forall|j: int| 0 < j < s.len() implies #[trigger] edge_ok(self.order, s, j) by {
                if parent(j) == idx {
                    assert(j >= 2 * idx + 1);
                }
            }
        }
    }
}

/// Under the heap property no element should sit above the one at the root.
proof fn lemma_root_is_top<T, O: HeapOrder<T>>(o: O, s: Seq<T>)
    requires
        o.lawful(),
        heap_ordered(o, s),
        s.len() > 0,
    ensures
        is_top(o, s.to_multiset(), s[0]),
{
    assert forall|y: T| s.to_multiset().contains(y) implies !o.prefers(y, s[0]) by {
        assert(s.contains(y));
        let j = choose|j: int| 0 <= j < s.len() && s[j] == y;
        lemma_below_root(o, s, j);
    }
    assert(s.contains(s[0]));
}

proof fn lemma_below_root<T, O: HeapOrder<T>>(o: O, s: Seq<T>, j: int)
    requires
        o.lawful(),
        heap_ordered(o, s),
        0 <= j < s.len(),
    ensures
        !o.prefers(s[j], s[0]),
    decreases j,
{
    o.lemma_strict_weak_order();
    if j > 0 {
        lemma_below_root(o, s, parent(j));
        assert(edge_ok(o, s, j));
    }
}

impl<T: Ord> Heap<T, MinOrder> {
    /// An empty heap that hands out its smallest element first.
    pub fn new_min() -> (h: Self)
        requires
            total_order::<T>(),
        ensures
            h.wf(),
            h@ =~= Multiset::empty(),
            h.ordering() == MinOrder,
    {
        Self::new(MinOrder)
    }
}

impl<T: Ord> Heap<T, MaxOrder> {
    /// An empty heap that hands out its largest element first.
    pub fn new_max() -> (h: Self)
        requires
            total_order::<T>(),
        ensures
            h.wf(),
            h@ =~= Multiset::empty(),
            h.ordering() == MaxOrder,
    {
        Self::new(MaxOrder)
    }
}

/// Builds min-heaps.
pub struct MinHeap;

impl MinHeap {
    /// An empty heap that hands out its smallest element first.
    pub fn new<T: Ord>() -> (h: Heap<T, MinOrder>)
        requires
            total_order::<T>(),
        ensures
            h.wf(),
            h@ =~= Multiset::empty(),
            h.ordering() == MinOrder,
    {
        Heap::new_min()
    }
}

/// Builds max-heaps.
pub struct MaxHeap;

impl MaxHeap {
    /// An empty heap that hands out its largest element first.
    pub fn new<T: Ord>() -> (h: Heap<T, MaxOrder>)
        requires
            total_order::<T>(),
        ensures
            h.wf(),
            h@ =~= Multiset::empty(),
            h.ordering() == MaxOrder,
    {
        Heap::new_max()
    }
}

} // verus!
