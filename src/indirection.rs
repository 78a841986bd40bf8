use vstd::prelude::*;

use crate::tree_array::{IndexError, TreeArray};

verus! {

/// The abstract state of an [`IndirectionLayer`].
pub struct SlotState {
    /// The physical slot behind each logical position.
    pub order: Seq<usize>,
    /// The pool of freed slots; the last one is reused first.
    pub free: Seq<usize>,
    /// The number of slots ever allocated: every slot id is below it.
    pub next: nat,
}

/// Every slot below `next` is used exactly once, either in the logical order or in the free
/// pool, and no other slot is used.
pub open spec fn slots_ok(s: SlotState) -> bool {
    let all = s.order + s.free;
    &&& all.no_duplicates()
    &&& all.len() == s.next
    &&& s.next <= usize::MAX
    &&& forall|k: int| 0 <= k < all.len() ==> #[trigger] all[k] < s.next
}

/// Maps a dense logical position space onto sparse physical slots, and recycles the slots that
/// deletions free.
///
/// A freshly inserted position takes the most recently freed slot if there is one, and a new
/// slot `next_physical` otherwise.
pub struct IndirectionLayer {
    logical_order: TreeArray<usize>,
    next_physical: usize,
    free_physical: Vec<usize>,
}

impl View for IndirectionLayer {
    type V = SlotState;

    closed spec fn view(&self) -> SlotState {
        SlotState {
            order: self.logical_order@,
            free: self.free_physical@,
            next: self.next_physical as nat,
        }
    }
}

impl IndirectionLayer {
    /// The tree behind the logical order is well-formed.
    pub closed spec fn shape_ok(&self) -> bool {
        self.logical_order.wf()
    }

    /// The layer is internally consistent and uses every slot exactly once.
    pub open spec fn wf(&self) -> bool {
        self.shape_ok() && slots_ok(self@)
    }

    /// Creates a layer with no positions and no slots.
    pub fn new() -> (r: Self)
        ensures
            r.wf(),
            r@.order == Seq::<usize>::empty(),
            r@.free == Seq::<usize>::empty(),
            r@.next == 0,
    {
        let r = Self { logical_order: TreeArray::new(), next_physical: 0, free_physical: Vec::new() };
        proof { assert(r@.order + r@.free =~= Seq::<usize>::empty()); }
        r
    }

    /// Creates a layer whose logical positions `0..n` map to the slots `0..n`.
    pub fn with_len(n: usize) -> (r: Self)
        ensures
            r.wf(),
            r@.order == Seq::new(n as nat, |k: int| k as usize),
            r@.free == Seq::<usize>::empty(),
            r@.next == n,
    {
        let mut order = TreeArray::new();
        let mut i: usize = 0;
        while i < n
            invariant
                i <= n,
                order.wf(),
                order@ == Seq::new(i as nat, |k: int| k as usize),
            decreases n - i,
        {
            order.append(i);
            i = i + 1;
            proof { assert(order@ =~= Seq::new(i as nat, |k: int| k as usize)); }
        }
        let r = Self { logical_order: order, next_physical: n, free_physical: Vec::new() };
        proof {
            let all = r@.order + r@.free;
            assert(all =~= r@.order);
            assert forall|a: int, b: int| 0 <= a < all.len() && 0 <= b < all.len() && a != b
                implies all[a] != all[b] by {}
        }
        r
    }

    /// Returns the number of logical positions.
    pub fn logical_len(&self) -> (n: usize)
        requires
            self.shape_ok(),
        ensures
            n == self@.order.len(),
    {
        self.logical_order.len()
    }

    /// Returns the number of slots allocated so far.
    pub fn next_physical(&self) -> (n: usize)
        ensures
            n == self@.next,
    {
        self.next_physical
    }

    /// Returns the slots that wait for reuse; the last one is reused first.
    pub fn free_slots(&self) -> (r: Vec<usize>)
        ensures
            r@ == self@.free,
    {
        let mut r: Vec<usize> = Vec::new();
        let mut i: usize = 0;
        while i < self.free_physical.len()
            invariant
                i <= self.free_physical@.len(),
                r@ == self.free_physical@.subrange(0, i as int),
            decreases self.free_physical@.len() - i,
        {
            r.push(self.free_physical[i]);
            i = i + 1;
            proof { assert(r@ =~= self.free_physical@.subrange(0, i as int)); }
        }
        proof { assert(r@ =~= self@.free); }
        r
    }

    /// Returns the physical slot behind logical position `index`.
    pub fn resolve(&self, index: usize) -> (r: Result<usize, IndexError>)
        requires
            self.shape_ok(),
        ensures
            index < self@.order.len() ==> r == Ok::<usize, IndexError>(self@.order[index as int]),
            index >= self@.order.len() ==> r == Err::<usize, IndexError>(
                IndexError { index, len: self@.order.len() as usize },
            ),
    {
        self.logical_order.get(index)
    }

    /// Returns the physical slots in logical order.
    pub fn physical_order(&self) -> (r: Vec<usize>)
        requires
            self.shape_ok(),
        ensures
            r@ == self@.order,
    {
        self.logical_order.in_order()
    }

    /// Takes a slot for a new position: the last freed one, or else a new one.
    fn allocate(&mut self) -> (p: usize)
        requires
            old(self).wf(),
            old(self)@.order.len() < usize::MAX,
        ensures
            final(self).shape_ok(),
            final(self)@.order == old(self)@.order,
            old(self)@.free.len() > 0 ==> p == old(self)@.free.last() && final(self)@.free
                == old(self)@.free.drop_last() && final(self)@.next == old(self)@.next,
            old(self)@.free.len() == 0 ==> p == old(self)@.next && final(self)@.free
                == old(self)@.free && final(self)@.next == old(self)@.next + 1,
    {
        match self.free_physical.pop() {
            Some(p) => p,
            None => {
                proof { assert(self@.order + self@.free =~= self@.order); }
                let p = self.next_physical;
                self.next_physical = p + 1;
                p
            },
        }
    }

    /// Inserts a new logical position at `index`, backed by a recycled or new slot, and
    /// returns that slot.
    pub fn insert(&mut self, index: usize) -> (r: Result<usize, IndexError>)
        requires
            old(self).wf(),
            old(self)@.order.len() < usize::MAX,
        ensures
            final(self).wf(),
            index > old(self)@.order.len() ==> r == Err::<usize, IndexError>(
                IndexError { index, len: old(self)@.order.len() as usize },
            ) && final(self)@ == old(self)@,
            index <= old(self)@.order.len() ==> r.is_ok() && final(self)@.order == old(
                self,
            )@.order.insert(index as int, r.unwrap()) && allocated(
                old(self)@,
                final(self)@,
                r.unwrap(),
            ),
    {
        let len = self.logical_order.len();
        if index > len {
            return Err(IndexError { index, len });
        }
        let ghost s0 = self@;
        let p = self.allocate();
        let _ = self.logical_order.insert(index, p);
        proof { lemma_allocate_insert(s0, self@, index as int, p); }
        Ok(p)
    }

    /// Appends a new logical position, backed by a recycled or new slot, and returns that slot.
    pub fn append(&mut self) -> (p: usize)
        requires
            old(self).wf(),
            old(self)@.order.len() < usize::MAX,
        ensures
            final(self).wf(),
            final(self)@.order == old(self)@.order.push(p),
            allocated(old(self)@, final(self)@, p),
    {
        let len = self.logical_order.len();
        let r = self.insert(len);
        proof { assert(old(self)@.order.insert(len as int, r.unwrap()) =~= old(self)@.order.push(r.unwrap())); }
        match r {
            Ok(p) => p,
            Err(_) => 0,
        }
    }

    /// Removes logical position `index` and puts its slot into the free pool; returns that slot.
    pub fn delete(&mut self, index: usize) -> (r: Result<usize, IndexError>)
        requires
            old(self).wf(),
        ensures
            final(self).wf(),
            index >= old(self)@.order.len() ==> r == Err::<usize, IndexError>(
                IndexError { index, len: old(self)@.order.len() as usize },
            ) && final(self)@ == old(self)@,
            index < old(self)@.order.len() ==> r == Ok::<usize, IndexError>(
                old(self)@.order[index as int],
            ) && final(self)@ == (SlotState {
                order: old(self)@.order.remove(index as int),
                free: old(self)@.free.push(old(self)@.order[index as int]),
                next: old(self)@.next,
            }),
    {
        let r = self.logical_order.remove(index);
        match r {
            Ok(p) => {
                self.free_physical.push(p);
                proof { lemma_delete_keeps_slots(old(self)@, index as int); }
                Ok(p)
            },
            Err(e) => Err(e),
        }
    }

    /// Exchanges the slots behind logical positions `i` and `j`.
    pub fn swap(&mut self, i: usize, j: usize) -> (r: Result<(), IndexError>)
        requires
            old(self).wf(),
        ensures
            final(self).wf(),
            i >= old(self)@.order.len() ==> r == Err::<(), IndexError>(
                IndexError { index: i, len: old(self)@.order.len() as usize },
            ),
            i < old(self)@.order.len() && j >= old(self)@.order.len() ==> r == Err::<
                (),
                IndexError,
            >(IndexError { index: j, len: old(self)@.order.len() as usize }),
            r.is_err() ==> final(self)@ == old(self)@,
            i < old(self)@.order.len() && j < old(self)@.order.len() ==> r == Ok::<(), IndexError>(())
                && final(self)@ == (SlotState {
                order: old(self)@.order.update(i as int, old(self)@.order[j as int]).update(
                    j as int,
                    old(self)@.order[i as int],
                ),
                ..old(self)@
            }),
    {
        let pi = match self.logical_order.get(i) {
            Ok(p) => p,
            Err(e) => return Err(e),
        };
        let pj = match self.logical_order.get(j) {
            Ok(p) => p,
            Err(e) => return Err(e),
        };
        if i == j {
            proof {
                assert(old(self)@.order.update(i as int, pj).update(j as int, pi) =~= old(self)@.order);
            }
            return Ok(());
        }
        let _ = self.logical_order.set(i, pj);
        let _ = self.logical_order.set(j, pi);
        proof { lemma_swap_keeps_slots(old(self)@, i as int, j as int); }
        Ok(())
    }

    /// Inserts slot `p` at logical position `index`, leaving the free pool and counter alone.
    pub(crate) fn insert_slot(&mut self, index: usize, p: usize)
        requires
            old(self).shape_ok(),
            index <= old(self)@.order.len(),
            old(self)@.order.len() < usize::MAX,
        ensures
            final(self).shape_ok(),
            final(self)@ == (SlotState { order: old(self)@.order.insert(index as int, p), ..old(self)@ }),
    {
        let _ = self.logical_order.insert(index, p);
    }

    /// Removes logical position `index`, leaving the free pool and counter alone.
    pub(crate) fn remove_slot(&mut self, index: usize)
        requires
            old(self).shape_ok(),
            index < old(self)@.order.len(),
        ensures
            final(self).shape_ok(),
            final(self)@ == (SlotState { order: old(self)@.order.remove(index as int), ..old(self)@ }),
    {
        let _ = self.logical_order.remove(index);
    }

    /// Puts slot `p` on top of the free pool.
    pub(crate) fn push_free(&mut self, p: usize)
        ensures
            final(self).shape_ok() == old(self).shape_ok(),
            final(self)@ == (SlotState { free: old(self)@.free.push(p), ..old(self)@ }),
    {
        self.free_physical.push(p);
    }

    /// Takes the top slot off the free pool.
    pub(crate) fn pop_free(&mut self)
        requires
            old(self)@.free.len() > 0,
        ensures
            final(self).shape_ok() == old(self).shape_ok(),
            final(self)@ == (SlotState { free: old(self)@.free.drop_last(), ..old(self)@ }),
    {
        let _ = self.free_physical.pop();
    }

    /// Counts one more allocated slot.
    pub(crate) fn grow(&mut self)
        requires
            old(self)@.next < usize::MAX,
        ensures
            final(self).shape_ok() == old(self).shape_ok(),
            final(self)@ == (SlotState { next: old(self)@.next + 1, ..old(self)@ }),
    {
        self.next_physical = self.next_physical + 1;
    }

    /// Counts one allocated slot less.
    pub(crate) fn shrink(&mut self)
        requires
            old(self)@.next > 0,
        ensures
            final(self).shape_ok() == old(self).shape_ok(),
            final(self)@ == (SlotState { next: (old(self)@.next - 1) as nat, ..old(self)@ }),
    {
        self.next_physical = self.next_physical - 1;
    }
}

/// `after` is `before` with `p` taken from the top of the free pool, or with `p` newly
/// allocated when the pool was empty; `p` then appears once in the logical order.
pub open spec fn allocated(before: SlotState, after: SlotState, p: usize) -> bool {
    if before.free.len() > 0 {
        &&& p == before.free.last()
        &&& after.free == before.free.drop_last()
        &&& after.next == before.next
    } else {
        &&& p == before.next
        &&& after.free == before.free
        &&& after.next == before.next + 1
    }
}

proof fn lemma_allocate_insert(s0: SlotState, s1: SlotState, index: int, p: usize)
    requires
        slots_ok(s0),
        0 <= index <= s0.order.len(),
        s1.order == s0.order.insert(index, p),
        allocated(s0, s1, p),
        s1.next <= usize::MAX,
    ensures
        slots_ok(s1),
{
    let a0 = s0.order + s0.free;
    let a1 = s1.order + s1.free;
    if s0.free.len() > 0 {
        // a1 is a0 with its last element moved to position `index`
        assert forall|k: int| 0 <= k < a1.len() implies exists|m: int|
            0 <= m < a0.len() && #[trigger] a1[k] == a0[m] && (k < index ==> m == k) && (k
                == index ==> m == a0.len() - 1) && (index < k ==> m == k - 1) by {
            if k < index {
                assert(a1[k] == a0[k]);
            } else if k == index {
                assert(a1[k] == a0[a0.len() - 1]);
            } else {
                assert(a1[k] == a0[k - 1]);
            }
        }
        assert forall|x: int, y: int| 0 <= x < a1.len() && 0 <= y < a1.len() && x != y
            implies a1[x] != a1[y] by {
            let mx = choose|m: int| 0 <= m < a0.len() && a1[x] == a0[m] && (x < index ==> m == x)
                && (x == index ==> m == a0.len() - 1) && (index < x ==> m == x - 1);
            let my = choose|m: int| 0 <= m < a0.len() && a1[y] == a0[m] && (y < index ==> m == y)
                && (y == index ==> m == a0.len() - 1) && (index < y ==> m == y - 1);
            assert(mx != my);
        }
    } else {
        assert(s0.free.len() == 0);
        assert(a0 =~= s0.order);
        assert(a1 =~= s1.order);
        assert forall|k: int| 0 <= k < a1.len() implies #[trigger] a1[k] < s1.next by {
            if k < index {
                assert(a1[k] == a0[k]);
            } else if k > index {
                assert(a1[k] == a0[k - 1]);
            }
        }
        assert forall|x: int, y: int| 0 <= x < a1.len() && 0 <= y < a1.len() && x != y
            implies a1[x] != a1[y] by {
            if x != index && y != index {
                let mx = if x < index { x } else { x - 1 };
                let my = if y < index { y } else { y - 1 };
                assert(a1[x] == a0[mx]);
                assert(a1[y] == a0[my]);
            } else if x == index {
                let my = if y < index { y } else { y - 1 };
                assert(a1[y] == a0[my]);
            } else {
                let mx = if x < index { x } else { x - 1 };
                assert(a1[x] == a0[mx]);
            }
        }
    }
}

proof fn lemma_delete_keeps_slots(s0: SlotState, index: int)
    requires
        slots_ok(s0),
        0 <= index < s0.order.len(),
    ensures
        slots_ok(
            SlotState {
                order: s0.order.remove(index),
                free: s0.free.push(s0.order[index]),
                next: s0.next,
            },
        ),
{
    let s1 = SlotState {
        order: s0.order.remove(index),
        free: s0.free.push(s0.order[index]),
        next: s0.next,
    };
    let a0 = s0.order + s0.free;
    let a1 = s1.order + s1.free;
    let n = a0.len();
    // a1 is a0 with the element at `index` moved to the end
    assert forall|k: int| 0 <= k < n implies #[trigger] a1[k] == a0[if k < index {
        k
    } else if k < n - 1 {
        k + 1
    } else {
        index
    }] by {}
    assert forall|x: int, y: int| 0 <= x < n && 0 <= y < n && x != y implies a1[x] != a1[y] by {
        let mx = if x < index { x } else if x < n - 1 { x + 1 } else { index };
        let my = if y < index { y } else if y < n - 1 { y + 1 } else { index };
        assert(a1[x] == a0[mx]);
        assert(a1[y] == a0[my]);
    }
    assert forall|k: int| 0 <= k < n implies #[trigger] a1[k] < s1.next by {
        let m = if k < index { k } else if k < n - 1 { k + 1 } else { index };
        assert(a1[k] == a0[m]);
    }
}

proof fn lemma_swap_keeps_slots(s0: SlotState, i: int, j: int)
    requires
        slots_ok(s0),
        0 <= i < s0.order.len(),
        0 <= j < s0.order.len(),
        i != j,
    ensures
        slots_ok(
            SlotState {
                order: s0.order.update(i, s0.order[j]).update(j, s0.order[i]),
                ..s0
            },
        ),
{
    let s1 = SlotState { order: s0.order.update(i, s0.order[j]).update(j, s0.order[i]), ..s0 };
    let a0 = s0.order + s0.free;
    let a1 = s1.order + s1.free;
    let n = a0.len();
    assert forall|k: int| 0 <= k < n implies #[trigger] a1[k] == a0[if k == i {
        j
    } else if k == j {
        i
    } else {
        k
    }] by {}
    assert forall|x: int, y: int| 0 <= x < n && 0 <= y < n && x != y implies a1[x] != a1[y] by {
        let mx = if x == i { j } else if x == j { i } else { x };
        let my = if y == i { j } else if y == j { i } else { y };
        assert(a1[x] == a0[mx]);
        assert(a1[y] == a0[my]);
    }
    assert forall|k: int| 0 <= k < n implies #[trigger] a1[k] < s1.next by {
        let m = if k == i { j } else if k == j { i } else { k };
        assert(a1[k] == a0[m]);
    }
}

} // verus!

verus! {

/// A new position takes a slot from the free pool whenever the pool holds one, and the pool
/// then shrinks by one; the slot counter grows, by one, only when the pool was empty.
pub proof fn lemma_reuse_before_growth(before: SlotState, after: SlotState, p: usize)
    requires
        slots_ok(before),
        allocated(before, after, p),
    ensures
        after.next > before.next <==> before.free.len() == 0,
        after.next <= before.next + 1,
        before.free.len() > 0 ==> before.free.contains(p) && after.free.len() + 1
            == before.free.len(),
{
    if before.free.len() > 0 {
        assert(before.free[before.free.len() - 1] == p);
    }
}

/// The slot that deleting logical position `i` frees goes to the free pool, and the next
/// insertion takes that very slot back, leaving the pool and the counter as they were.
pub proof fn lemma_freed_slot_reused(before: SlotState, i: int, after: SlotState, p: usize)
    requires
        slots_ok(before),
        0 <= i < before.order.len(),
        allocated(
            SlotState {
                order: before.order.remove(i),
                free: before.free.push(before.order[i]),
                next: before.next,
            },
            after,
            p,
        ),
    ensures
        before.free.push(before.order[i]).contains(before.order[i]),
        p == before.order[i],
        after.free == before.free,
        after.next == before.next,
{
    let freed = before.free.push(before.order[i]);
    assert(freed[freed.len() - 1] == before.order[i]);
    assert(freed.drop_last() =~= before.free);
}

} // verus!
