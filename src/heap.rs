use vstd::prelude::*;

verus! {

/// One slot of the heap: a key and its current priority.
#[derive(Clone, Copy, Debug)]
pub struct HeapElem {
    pub key: usize,
    pub prio: i64,
}

impl HeapElem {
    pub fn key(&self) -> (r: usize)
        ensures
            r == self.key,
    {
        self.key
    }
}

/// A binary min-heap over integer keys whose priorities can be changed in
/// place: `positions[k]` is the slot of key `k` while it is in the heap.
pub struct MinHeap {
    pub heap: Vec<HeapElem>,
    positions: Vec<Option<usize>>,
}

pub open spec fn parent_of(j: int) -> int {
    (j - 1) / 2
}

/// The index of the parent of slot `i`.
fn parent(i: usize) -> (r: usize)
    requires
        i > 0,
    ensures
        r == parent_of(i as int),
        r < i,
{
    (i - 1) / 2
}

/// The index of the left child of slot `i`.
fn l_child(i: usize) -> (r: usize)
    requires
        i < usize::MAX / 2,
    ensures
        r == 2 * i + 1,
{
    2 * i + 1
}

/// The index of the right child of slot `i`.
fn r_child(i: usize) -> (r: usize)
    requires
        i < usize::MAX / 2,
    ensures
        r == 2 * i + 2,
{
    l_child(i) + 1
}

/// Every key that is in `m` has a priority no smaller than that of `k`, which is in `m`.
pub open spec fn is_min_key(m: Map<usize, i64>, k: usize) -> bool {
    &&& m.contains_key(k)
    &&& forall|j: usize| #[trigger] m.contains_key(j) ==> m[k] <= m[j]
}

/// `ks` is a sequence that repeated extraction of a smallest key can give,
/// starting from the contents `m`.
pub open spec fn extraction_order(m: Map<usize, i64>, ks: Seq<usize>) -> bool
    decreases ks.len(),
{
    if ks.len() == 0 {
        true
    } else {
        is_min_key(m, ks[0]) && extraction_order(m.remove(ks[0]), ks.drop_first())
    }
}

/// Keys taken out one at a time, each time one of smallest priority, come out
/// in non-decreasing order of their priorities.
pub proof fn lemma_extraction_sorted(m: Map<usize, i64>, ks: Seq<usize>)
    requires
        extraction_order(m, ks),
    ensures
        forall|t: int| 0 <= t < ks.len() ==> m.contains_key(#[trigger] ks[t]),
        forall|i: int, j: int| 0 <= i < j < ks.len() ==> m[#[trigger] ks[i]] <= m[#[trigger] ks[j]],
    decreases ks.len(),
{
    if ks.len() > 0 {
        let m2 = m.remove(ks[0]);
        let ks2 = ks.drop_first();
        lemma_extraction_sorted(m2, ks2);
        assert forall|t: int| 0 <= t < ks.len() implies m.contains_key(#[trigger] ks[t]) by {
            if t > 0 {
                assert(ks[t] == ks2[t - 1]);
            }
        }
        assert forall|i: int, j: int| 0 <= i < j < ks.len() implies m[#[trigger] ks[i]] <= m[#[trigger] ks[j]] by {
            assert(ks[j] == ks2[j - 1]);
            assert(m2.contains_key(ks2[j - 1]));
            if i > 0 {
                assert(ks[i] == ks2[i - 1]);
                assert(m2.contains_key(ks2[i - 1]));
                assert(m2[ks2[i - 1]] <= m2[ks2[j - 1]]);
            }
        }
    }
}

impl MinHeap {
    /// The live keys and their priorities.
    pub closed spec fn view(&self) -> Map<usize, i64> {
        Map::new(
            |k: usize| k < self.positions@.len() && self.positions@[k as int] is Some,
            |k: usize| self.heap@[self.positions@[k as int].unwrap() as int].prio,
        )
    }

    /// The number of keys in the heap.
    pub closed spec fn len(&self) -> nat {
        self.heap@.len()
    }

    /// Slot `j`'s parent holds no larger priority, except possibly where the
    /// parent is slot `hole` (sifting down) or the child is (sifting up).
    closed spec fn ordered_except_parent(&self, hole: int) -> bool {
        forall|j: int|
            0 < j < self.heap@.len() && parent_of(j) != hole ==> self.heap@[parent_of(j)].prio
                <= #[trigger] self.heap@[j].prio
    }

    closed spec fn ordered_except_child(&self, hole: int) -> bool {
        forall|j: int|
            0 < j < self.heap@.len() && j != hole ==> self.heap@[parent_of(j)].prio
                <= #[trigger] self.heap@[j].prio
    }

    closed spec fn positions_wf(&self) -> bool {
        &&& self.heap@.len() < usize::MAX / 4
        &&& forall|i: int|
            0 <= i < self.heap@.len() ==> {
                let k = (#[trigger] self.heap@[i]).key;
                &&& k < self.positions@.len()
                &&& self.positions@[k as int] == Some(i as usize)
            }
        &&& forall|k: int|
            0 <= k < self.positions@.len() && (#[trigger] self.positions@[k]) is Some ==> {
                let i = self.positions@[k].unwrap() as int;
                &&& i < self.heap@.len()
                &&& self.heap@[i].key == k
            }
    }

    /// Heap order holds and `positions` indexes the slots exactly.
    pub closed spec fn wf(&self) -> bool {
        &&& self.positions_wf()
        &&& self.ordered_except_child(0)
    }

    pub fn new() -> (r: MinHeap)
        ensures
            r.wf(),
            r.view() == Map::<usize, i64>::empty(),
            r.len() == 0,
    {
        let r = MinHeap { heap: Vec::new(), positions: Vec::new() };
        assert(r.view() =~= Map::<usize, i64>::empty());
        r
    }

    fn count(&self) -> (r: usize)
        ensures
            r == self.heap@.len(),
    {
        self.heap.len()
    }

    pub fn is_empty(&self) -> (r: bool)
        requires
            self.wf(),
        ensures
            r <==> self.view() == Map::<usize, i64>::empty(),
    {
        proof {
            if self.heap@.len() > 0 {
                assert(self.view().contains_key(self.heap@[0].key));
            } else {
                assert(self.view() =~= Map::<usize, i64>::empty());
            }
        }
        self.heap.len() == 0
    }

    /// Exchanges slots `i` and `j`, keeping `positions` in step.
    fn swap(&mut self, i: usize, j: usize)
        requires
            old(self).positions_wf(),
            i < old(self).heap@.len(),
            j < old(self).heap@.len(),
            i != j,
        ensures
            final(self).positions_wf(),
            final(self).heap@ == old(self).heap@.update(i as int, old(self).heap@[j as int]).update(
                j as int,
                old(self).heap@[i as int],
            ),
            final(self).view() == old(self).view(),
    {
        let a = self.heap[i];
        let b = self.heap[j];
        self.heap.set(i, b);
        self.heap.set(j, a);
        self.positions.set(b.key, Some(i));
        self.positions.set(a.key, Some(j));
        proof {
            assert(self.view() =~= old(self).view());
        }
    }

    /// The smaller child of slot `i`, the left one on a tie; slot `i` must have a left child.
    fn min_child_of(&self, i: usize) -> (r: usize)
        requires
            2 * i + 1 < self.heap@.len(),
            self.heap@.len() < usize::MAX / 4,
        ensures
            r == 2 * i + 1 || r == 2 * i + 2,
            r < self.heap@.len(),
            forall|c: int|
                (c == 2 * i + 1 || c == 2 * i + 2) && c < self.heap@.len() ==> self.heap@[r as int].prio
                    <= self.heap@[c].prio,
    {
        let l = l_child(i);
        let r = r_child(i);
        let mut result = l;
        if r < self.count() && self.heap[r].prio < self.heap[l].prio {
            result = r;
        }
        result
    }

    fn move_up(&mut self, i: usize)
        requires
            old(self).positions_wf(),
            i < old(self).heap@.len(),
            old(self).ordered_except_child(i as int),
            forall|c: int|
                0 < i && 0 < c < old(self).heap@.len() && parent_of(c) == i ==> old(self).heap@[parent_of(
                    i as int,
                )].prio <= #[trigger] old(self).heap@[c].prio,
        ensures
            final(self).wf(),
            final(self).view() == old(self).view(),
            final(self).heap@.len() == old(self).heap@.len(),
    {
        let mut i = i;
        while i > 0 && self.heap[i].prio < self.heap[parent(i)].prio
            invariant
                self.positions_wf(),
                i < self.heap@.len(),
                self.heap@.len() == old(self).heap@.len(),
                self.view() == old(self).view(),
                self.ordered_except_child(i as int),
                forall|c: int|
                    0 < i && 0 < c < self.heap@.len() && parent_of(c) == i ==> self.heap@[parent_of(
                        i as int,
                    )].prio <= #[trigger] self.heap@[c].prio,
            decreases i,
        {
            let p = parent(i);
            let ghost h = self.heap@;
            self.swap(i, p);
            proof {
                assert forall|j: int|
                    0 < j < self.heap@.len() && j != p as int implies self.heap@[parent_of(j)].prio
                    <= #[trigger] self.heap@[j].prio by {
                    if parent_of(j) == i as int {
                        assert(h[parent_of(i as int)].prio <= h[j].prio);
                    } else if parent_of(j) == p as int && j != i as int {
                        assert(h[p as int].prio <= h[j].prio);
                    }
                }
                assert forall|c: int|
                    0 < p && 0 < c < self.heap@.len() && parent_of(c) == p implies self.heap@[parent_of(
                        p as int,
                    )].prio <= #[trigger] self.heap@[c].prio by {
                    assert(h[parent_of(p as int)].prio <= h[p as int].prio);
                    if c != i as int {
                        assert(h[p as int].prio <= h[c].prio);
                    }
                }
            }
            i = p;
        }
    }

    #[verifier::rlimit(40)]
    fn move_down(&mut self, i: usize)
        requires
            old(self).positions_wf(),
            i < old(self).heap@.len(),
            old(self).ordered_except_parent(i as int),
            forall|c: int|
                0 < i && 0 < c < old(self).heap@.len() && parent_of(c) == i ==> old(self).heap@[parent_of(
                    i as int,
                )].prio <= #[trigger] old(self).heap@[c].prio,
        ensures
            final(self).wf(),
            final(self).view() == old(self).view(),
            final(self).heap@.len() == old(self).heap@.len(),
    {
        let mut i = i;
        loop
            invariant
                self.positions_wf(),
                i < self.heap@.len(),
                self.heap@.len() == old(self).heap@.len(),
                self.view() == old(self).view(),
                self.ordered_except_parent(i as int),
                forall|c: int|
                    0 < i && 0 < c < self.heap@.len() && parent_of(c) == i ==> self.heap@[parent_of(
                        i as int,
                    )].prio <= #[trigger] self.heap@[c].prio,
            ensures
                self.wf(),
                self.view() == old(self).view(),
                self.heap@.len() == old(self).heap@.len(),
            decreases self.heap@.len() - i,
        {
            if l_child(i) >= self.count() {
                proof {
                    assert forall|j: int| 0 < j < self.heap@.len() implies self.heap@[parent_of(j)].prio
                        <= #[trigger] self.heap@[j].prio by {
                        assert(parent_of(j) != i);
                    }
                }
                break;
            }
            let dst = self.min_child_of(i);
            if self.heap[dst].prio < self.heap[i].prio {
                let ghost h = self.heap@;
                self.swap(i, dst);
                proof {
                    assert forall|j: int|
                        0 < j < self.heap@.len() && parent_of(j) != dst as int implies self.heap@[parent_of(
                        j)].prio <= #[trigger] self.heap@[j].prio by {
                        if j == dst as int {
                        } else if parent_of(j) == i as int {
                            assert(h[dst as int].prio <= h[j].prio);
                        } else if j == i as int {
                            assert(h[parent_of(i as int)].prio <= h[dst as int].prio);
                        }
                    }
                }
                i = dst;
            } else {
                proof {
                    assert forall|j: int| 0 < j < self.heap@.len() implies self.heap@[parent_of(j)].prio
                        <= #[trigger] self.heap@[j].prio by {
                        if parent_of(j) == i as int {
                            assert(self.heap@[dst as int].prio <= self.heap@[j].prio);
                        }
                    }
                }
                break;
            }
        }
    }

    proof fn lemma_root_min(&self, j: int)
        requires
            self.ordered_except_child(0),
            0 <= j < self.heap@.len(),
        ensures
            self.heap@[0].prio <= self.heap@[j].prio,
        decreases j,
    {
        if j > 0 {
            self.lemma_root_min(parent_of(j));
        }
    }

    /// Grows `positions` until it has a slot for `key`.
    fn reserve_key(&mut self, key: usize)
        requires
            old(self).wf(),
            key < usize::MAX,
        ensures
            final(self).wf(),
            final(self).heap@ == old(self).heap@,
            final(self).view() == old(self).view(),
            key < final(self).positions@.len(),
            final(self).positions@[key as int] == if key < old(self).positions@.len() { old(self).positions@[key as int] } else { None },
    {
        while self.positions.len() <= key
            invariant
                key < usize::MAX,
                self.positions_wf(),
                self.ordered_except_child(0),
                self.heap@ == old(self).heap@,
                self.view() == old(self).view(),
                key < old(self).positions@.len() ==> self.positions@.len() == old(self).positions@.len() && self.positions@ == old(self).positions@,
                key >= old(self).positions@.len() ==> forall|k: int| old(self).positions@.len() <= k < self.positions@.len() ==> #[trigger] self.positions@[k] is None,
            decreases key + 1 - self.positions@.len(),
        {
            let ghost pos = self.positions@;
            self.positions.push(None);
            proof {
                assert forall|k: int| 0 <= k < pos.len() implies #[trigger] self.positions@[k] == pos[k] by {}
                assert(self.positions@[pos.len() as int] is None);
                assert(self.positions_wf());
                assert(self.view() =~= old(self).view());
            }
        }
    }

    /// Adds `key` with priority `prio`.
    #[verifier::rlimit(80)]
    pub fn insert(&mut self, key: usize, prio: i64)
        requires
            old(self).wf(),
            !old(self).view().contains_key(key),
            old(self).len() + 1 < usize::MAX / 4,
            key < usize::MAX,
        ensures
            final(self).wf(),
            final(self).view() == old(self).view().insert(key, prio),
            final(self).len() == old(self).len() + 1,
    {
        self.reserve_key(key);
        let n = self.count();
        let ghost h = self.heap@;
        let ghost pos = self.positions@;
        self.heap.push(HeapElem { key, prio });
        self.positions.set(key, Some(n));
        proof {
            assert(pos[key as int] is None);
            assert forall|i: int| 0 <= i < self.heap@.len() implies {
                let k = (#[trigger] self.heap@[i]).key;
                &&& k < self.positions@.len()
                &&& self.positions@[k as int] == Some(i as usize)
            } by {
                if i < n {
                    assert(self.heap@[i] == h[i]);
                    assert(pos[h[i].key as int] == Some(i as usize));
                }
            }
            assert forall|k: int|
                0 <= k < self.positions@.len() && (#[trigger] self.positions@[k]) is Some implies {
                let i = self.positions@[k].unwrap() as int;
                &&& i < self.heap@.len()
                &&& self.heap@[i].key == k
            } by {
                if k != key as int {
                    assert(pos[k] is Some);
                    assert(self.heap@[pos[k].unwrap() as int] == h[pos[k].unwrap() as int]);
                }
            }
            assert(self.positions_wf());
            assert forall|j: int| 0 < j < self.heap@.len() && j != n as int implies self.heap@[parent_of(j)].prio
                <= #[trigger] self.heap@[j].prio by {
                assert(h[parent_of(j)].prio <= h[j].prio);
            }
            assert(self.view() =~= old(self).view().insert(key, prio));
        }
        self.move_up(n);
    }

    /// The key of smallest priority; the heap must not be empty.
    fn min(&self) -> (r: usize)
        requires
            self.wf(),
            self.heap@.len() > 0,
        ensures
            is_min_key(self.view(), r),
            r == self.heap@[0].key,
    {
        let r = self.heap[0].key;
        proof {
            assert forall|j: usize| #[trigger] self.view().contains_key(j) implies self.view()[r]
                <= self.view()[j] by {
                self.lemma_root_min(self.positions@[j as int].unwrap() as int);
            }
        }
        r
    }

    /// Removes and returns a key of smallest priority (any one of them on a tie).
    pub fn delete_min(&mut self) -> (r: usize)
        requires
            old(self).wf(),
            old(self).view() != Map::<usize, i64>::empty(),
        ensures
            final(self).wf(),
            is_min_key(old(self).view(), r),
            final(self).view() == old(self).view().remove(r),
            final(self).len() + 1 == old(self).len(),
    {
        proof {
            if self.heap@.len() == 0 {
                assert(self.view() =~= Map::<usize, i64>::empty());
            }
        }
        let result = self.min();
        let ghost h = self.heap@;
        let ghost pos = self.positions@;
        self.heap.swap_remove(0);
        self.positions.set(result, None);
        if self.heap.len() > 0 {
            let moved = self.heap[0].key;
            self.positions.set(moved, Some(0));
            proof {
                let n = h.len() as int;
                assert(pos[h[n - 1].key as int] == Some((n - 1) as usize));
                assert(pos[h[0].key as int] == Some(0usize));
                assert(moved == h[n - 1].key);
                assert(self.positions@ == pos.update(result as int, None).update(moved as int, Some(0usize)));
                assert forall|i: int| 0 <= i < self.heap@.len() implies {
                    let k = (#[trigger] self.heap@[i]).key;
                    &&& k < self.positions@.len()
                    &&& self.positions@[k as int] == Some(i as usize)
                } by {
                    if i > 0 {
                        assert(pos[h[i].key as int] == Some(i as usize));
                        assert(h[i] == self.heap@[i]);
                        assert(h[i].key != result);
                        assert(h[i].key != moved);
                    }
                }
                assert forall|k: int|
                    0 <= k < self.positions@.len() && (#[trigger] self.positions@[k]) is Some implies {
                    let i = self.positions@[k].unwrap() as int;
                    &&& i < self.heap@.len()
                    &&& self.heap@[i].key == k
                } by {
                    if k != moved as int {
                        assert(k != result as int);
                        assert(pos[k] is Some);
                        let i = pos[k].unwrap() as int;
                        assert(h[i].key == k);
                        assert(i != 0);
                        assert(i != n - 1);
                        assert(self.heap@[i] == h[i]);
                    }
                }
                assert(self.positions_wf());
                assert(self.view() =~= old(self).view().remove(result));
                assert forall|j: int|
                    0 < j < self.heap@.len() && parent_of(j) != 0 implies self.heap@[parent_of(j)].prio
                    <= #[trigger] self.heap@[j].prio by {
                    assert(h[parent_of(j)].prio <= h[j].prio);
                }
            }
            self.move_down(0);
        } else {
            proof {
                assert(self.view() =~= old(self).view().remove(result));
            }
        }
        result
    }

    /// Gives `key`, which must be in the heap, the priority `new_prio`.
    pub fn change_prio(&mut self, key: usize, new_prio: i64)
        requires
            old(self).wf(),
            old(self).view().contains_key(key),
        ensures
            final(self).wf(),
            final(self).view() == old(self).view().insert(key, new_prio),
            final(self).len() == old(self).len(),
    {
        let j = self.positions[key].unwrap();
        let old_prio = self.heap[j].prio;
        self.heap.set(j, HeapElem { key, prio: new_prio });
        proof {
            assert(self.view() =~= old(self).view().insert(key, new_prio));
        }
        if new_prio > old_prio {
            self.move_down(j);
        } else {
            self.move_up(j);
        }
    }

    /// Removes every key.
    pub fn clear(&mut self)
        ensures
            final(self).wf(),
            final(self).view() == Map::<usize, i64>::empty(),
    {
        self.heap.clear();
        self.positions.clear();
        proof {
            assert(self.view() =~= Map::<usize, i64>::empty());
        }
    }
}

} // verus!
