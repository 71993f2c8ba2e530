use vstd::prelude::*;
use rand::Rng;

verus! {

broadcast use vstd::seq_lib::group_to_multiset_ensures;

/// `s[lo..=hi]` is in non-decreasing order.
pub open spec fn sorted_between(s: Seq<i32>, lo: int, hi: int) -> bool {
    forall|i: int, j: int| lo <= i < j <= hi ==> s[i] <= s[j]
}

/// `t` is `s` with the entries of `s[lo..=hi]` rearranged among themselves.
pub open spec fn perm_on(s: Seq<i32>, t: Seq<i32>, lo: int, hi: int) -> bool {
    &&& t.len() == s.len()
    &&& forall|x: int| 0 <= x < s.len() && !(lo <= x <= hi) ==> #[trigger] t[x] == s[x]
    &&& t.subrange(lo, hi + 1).to_multiset() == s.subrange(lo, hi + 1).to_multiset()
}

/// `s` with the entries at `i` and `j` exchanged.
pub open spec fn swapped(s: Seq<i32>, i: int, j: int) -> Seq<i32> {
    s.update(i, s[j]).update(j, s[i])
}

proof fn lemma_swap_multiset(s: Seq<i32>, i: int, j: int)
    requires
        0 <= i < s.len(),
        0 <= j < s.len(),
    ensures
        swapped(s, i, j).to_multiset() == s.to_multiset(),
{
    broadcast use vstd::seq_lib::to_multiset_update;
    broadcast use vstd::multiset::group_multiset_axioms;

    let t = s.update(i, s[j]);
    assert(t[j] == s[j] || i == j);
    assert(swapped(s, i, j).to_multiset() =~= s.to_multiset());
}

proof fn lemma_swap_perm(s: Seq<i32>, i: int, j: int, lo: int, hi: int)
    requires
        0 <= lo <= i <= hi < s.len(),
        lo <= j <= hi,
    ensures
        perm_on(s, swapped(s, i, j), lo, hi),
{
    let sub = s.subrange(lo, hi + 1);
    lemma_swap_multiset(sub, i - lo, j - lo);
    assert(swapped(s, i, j).subrange(lo, hi + 1) =~= swapped(sub, i - lo, j - lo));
}

proof fn lemma_perm_refl(s: Seq<i32>, lo: int, hi: int)
    ensures
        perm_on(s, s, lo, hi),
{
}

proof fn lemma_perm_trans(a: Seq<i32>, b: Seq<i32>, c: Seq<i32>, lo: int, hi: int)
    requires
        perm_on(a, b, lo, hi),
        perm_on(b, c, lo, hi),
    ensures
        perm_on(a, c, lo, hi),
{
}

/// A rearrangement of a part of a range is a rearrangement of the range.
proof fn lemma_perm_widen(a: Seq<i32>, b: Seq<i32>, lo: int, hi: int, lo2: int, hi2: int)
    requires
        perm_on(a, b, lo2, hi2),
        0 <= lo <= lo2,
        lo2 <= hi2 + 1,
        hi2 <= hi < a.len(),
    ensures
        perm_on(a, b, lo, hi),
{
    broadcast use vstd::seq_lib::lemma_multiset_commutative;

    let pa = a.subrange(lo, lo2);
    let ma = a.subrange(lo2, hi2 + 1);
    let qa = a.subrange(hi2 + 1, hi + 1);
    let pb = b.subrange(lo, lo2);
    let mb = b.subrange(lo2, hi2 + 1);
    let qb = b.subrange(hi2 + 1, hi + 1);
    assert(pa =~= pb);
    assert(qa =~= qb);
    assert(a.subrange(lo, hi + 1) =~= pa + ma + qa);
    assert(b.subrange(lo, hi + 1) =~= pb + mb + qb);
    assert((pa + ma + qa).to_multiset() =~= (pa + ma).to_multiset().add(qa.to_multiset()));
    assert((pb + mb + qb).to_multiset() =~= (pb + mb).to_multiset().add(qb.to_multiset()));
}

/// A rearrangement of a range keeps every bound that held of each entry.
proof fn lemma_perm_bounds(a: Seq<i32>, b: Seq<i32>, lo: int, hi: int, p: i32, below: bool, strict: bool)
    requires
        perm_on(a, b, lo, hi),
        0 <= lo,
        hi < a.len(),
        forall|x: int| lo <= x <= hi ==> #[trigger] bound_holds(a[x], p, below, strict),
    ensures
        forall|x: int| lo <= x <= hi ==> #[trigger] bound_holds(b[x], p, below, strict),
{
    assert forall|x: int| lo <= x <= hi implies #[trigger] bound_holds(b[x], p, below, strict) by {
        let sa = a.subrange(lo, hi + 1);
        let sb = b.subrange(lo, hi + 1);
        assert(sb[x - lo] == b[x]);
        assert(sb.contains(b[x]));
        assert(sa.to_multiset().count(b[x]) > 0);
        assert(sa.contains(b[x]));
        let y = choose|y: int| 0 <= y < sa.len() && sa[y] == b[x];
        assert(a[lo + y] == b[x]);
    }
}

/// `v <= p` (or `<`) when `below`, else `v >= p` (or `>`).
pub open spec fn bound_holds(v: i32, p: i32, below: bool, strict: bool) -> bool {
    if below {
        if strict { v < p } else { v <= p }
    } else {
        if strict { v > p } else { v >= p }
    }
}

fn swap(v: &mut Vec<i32>, i: usize, j: usize)
    requires
        i < old(v)@.len(),
        j < old(v)@.len(),
    ensures
        final(v)@ == swapped(old(v)@, i as int, j as int),
{
    let a = v[i];
    let b = v[j];
    v.set(i, b);
    v.set(j, a);
}

/// Sorts `array` in place by insertion.
pub fn insertion_sort(array: &mut Vec<i32>)
    ensures
        sorted_between(final(array)@, 0, final(array)@.len() - 1),
        final(array)@.to_multiset() == old(array)@.to_multiset(),
{
    let len = array.len();
    if len == 0 {
        return;
    }
    let mut i: usize = 1;
    while i < len
        invariant
            1 <= i <= len,
            array@.len() == len,
            sorted_between(array@, 0, i - 1),
            array@.to_multiset() == old(array)@.to_multiset(),
        decreases len - i,
    {
        let key = array[i];
        let mut j: usize = i - 1;
        loop
            invariant_except_break
                j < i,
                array@[j + 1] == key,
                sorted_between(array@, 0, j as int),
                sorted_between(array@, j + 2, i as int),
                forall|y: int| j + 2 <= y <= i ==> key < #[trigger] array@[y],
                forall|x: int, y: int| 0 <= x <= j && j + 2 <= y <= i ==> #[trigger] array@[x] <= #[trigger] array@[y],
            invariant
                i < len,
                array@.len() == len,
                array@.to_multiset() == old(array)@.to_multiset(),
            ensures
                sorted_between(array@, 0, i as int),
                array@.len() == len,
                array@.to_multiset() == old(array)@.to_multiset(),
            decreases j,
        {
            if array[j] > key {
                let ghost a0 = array@;
                swap(array, j, j + 1);
                proof {
                    lemma_swap_multiset(a0, j as int, j + 1);
                }
                if j == 0 {
                    break;
                }
                j = j - 1;
            } else {
                break;
            }
        }
        i = i + 1;
    }
}

/// Relies on `rand::Rng::gen_range` with `rand::thread_rng`: a value of
/// `lo..=hi`, which must not be empty.
#[verifier::external_body]
fn random_between(lo: usize, hi: usize) -> (r: usize)
    requires
        lo <= hi,
    ensures
        lo <= r <= hi,
{
    rand::thread_rng().gen_range(lo..=hi)
}


/// Lomuto partition of `vec[head..=tail]` around its last entry: returns the
/// pivot's final index, with no larger entry before it and only larger ones
/// after it.
pub fn partition(vec: &mut Vec<i32>, head: usize, tail: usize) -> (r: usize)
    requires
        head <= tail < old(vec)@.len(),
    ensures
        head <= r <= tail,
        perm_on(old(vec)@, final(vec)@, head as int, tail as int),
        final(vec)@[r as int] == old(vec)@[tail as int],
        forall|x: int| head <= x < r ==> #[trigger] final(vec)@[x] <= final(vec)@[r as int],
        forall|x: int| r < x <= tail ==> #[trigger] final(vec)@[x] > final(vec)@[r as int],
{
    let last = vec[tail];
    let mut i: usize = head;
    let mut j: usize = head;
    proof {
        lemma_perm_refl(vec@, head as int, tail as int);
    }
    while j < tail
        invariant
            head <= i <= j <= tail,
            tail < vec@.len(),
            vec@[tail as int] == last,
            last == old(vec)@[tail as int],
            forall|x: int| head <= x < i ==> #[trigger] vec@[x] <= last,
            forall|x: int| i <= x < j ==> #[trigger] vec@[x] > last,
            perm_on(old(vec)@, vec@, head as int, tail as int),
        decreases tail - j,
    {
        if vec[j] <= last {
            let ghost v0 = vec@;
            swap(vec, i, j);
            proof {
                lemma_swap_perm(v0, i as int, j as int, head as int, tail as int);
                lemma_perm_trans(old(vec)@, v0, vec@, head as int, tail as int);
            }
            i = i + 1;
        }
        j = j + 1;
    }
    let ghost v0 = vec@;
    swap(vec, i, tail);
    proof {
        lemma_swap_perm(v0, i as int, tail as int, head as int, tail as int);
        lemma_perm_trans(old(vec)@, v0, vec@, head as int, tail as int);
    }
    i
}

/// [`partition`] around an entry of `vec[head..=tail]` drawn at random.
pub fn rand_partition(vec: &mut Vec<i32>, head: usize, tail: usize) -> (r: usize)
    requires
        head <= tail < old(vec)@.len(),
    ensures
        head <= r <= tail,
        perm_on(old(vec)@, final(vec)@, head as int, tail as int),
        forall|x: int| head <= x < r ==> #[trigger] final(vec)@[x] <= final(vec)@[r as int],
        forall|x: int| r < x <= tail ==> #[trigger] final(vec)@[x] > final(vec)@[r as int],
{
    let i = random_between(head, tail);
    let ghost v0 = vec@;
    swap(vec, i, tail);
    proof {
        lemma_swap_perm(v0, i as int, tail as int, head as int, tail as int);
    }
    let ghost v1 = vec@;
    let r = partition(vec, head, tail);
    proof {
        lemma_perm_trans(old(vec)@, v1, vec@, head as int, tail as int);
    }
    r
}

/// Sorts `vec[head..=tail]` by randomized quicksort; an empty or single
/// range is left as it is.
pub fn quicksort(vec: &mut Vec<i32>, head: usize, tail: usize)
    requires
        head < tail ==> tail < old(vec)@.len(),
    ensures
        head <= tail ==> perm_on(old(vec)@, final(vec)@, head as int, tail as int) && sorted_between(
            final(vec)@,
            head as int,
            tail as int,
        ),
        head >= tail ==> final(vec)@ == old(vec)@,
    decreases (if head < tail { tail - head } else { 0 }),
{
    if head < tail {
        let len = vec.len();
        let split = rand_partition(vec, head, tail);
        let ghost v1 = vec@;
        let p = vec[split];
        if split > 0 {
            quicksort(vec, head, split - 1);
        }
        let ghost v2 = vec@;
        proof {
            if split > head {
                lemma_perm_widen(v1, v2, head as int, tail as int, head as int, split - 1);
                lemma_perm_bounds(v1, v2, head as int, split - 1, p, true, false);
            } else {
                lemma_perm_refl(v1, head as int, tail as int);
            }
            lemma_perm_trans(old(vec)@, v1, v2, head as int, tail as int);
        }
        quicksort(vec, split + 1, tail);
        proof {
            let v3 = vec@;
            if split < tail {
                lemma_perm_widen(v2, v3, head as int, tail as int, split + 1, tail as int);
                lemma_perm_bounds(v2, v3, split + 1, tail as int, p, false, true);
                assert forall|x: int| split + 1 <= x <= tail implies #[trigger] v2[x] > p by {
                    assert(v2[x] == v1[x]);
                }
            } else {
                lemma_perm_refl(v2, head as int, tail as int);
            }
            lemma_perm_trans(old(vec)@, v2, v3, head as int, tail as int);
            assert forall|x: int| head <= x < split implies #[trigger] bound_holds(v2[x], p, true, false) by {
                if split <= head {
                }
            }
            assert forall|a: int, b: int| head <= a < b <= tail implies v3[a] <= v3[b] by {
                if b < split {
                    assert(v3[a] == v2[a] && v3[b] == v2[b]);
                } else if a > split {
                } else {
                    if a < split {
                        assert(v3[a] == v2[a]);
                        assert(bound_holds(v2[a], p, true, false));
                    }
                    if b > split {
                        assert(bound_holds(v3[b], p, false, true));
                    }
                    assert(v3[split as int] == p);
                }
            }
        }
    }
}

/// The `i`-th smallest entry (counting from 1) of `vec[head..=tail]`, found
/// by randomized selection; `vec` is rearranged so that it stands at index
/// `head + i - 1` with no larger entry before it and no smaller one after it.
pub fn rand_select(vec: &mut Vec<i32>, head: usize, tail: usize, i: usize) -> (r: i32)
    requires
        head <= tail < old(vec)@.len(),
        1 <= i <= tail - head + 1,
    ensures
        perm_on(old(vec)@, final(vec)@, head as int, tail as int),
        final(vec)@[head + i - 1] == r,
        forall|x: int| head <= x < head + i - 1 ==> #[trigger] final(vec)@[x] <= r,
        forall|x: int| head + i - 1 < x <= tail ==> #[trigger] final(vec)@[x] >= r,
    decreases tail - head,
{
    if head == tail {
        proof {
            lemma_perm_refl(vec@, head as int, tail as int);
        }
        return vec[head];
    }
    let len = vec.len();
    let split = rand_partition(vec, head, tail);
    let ghost v1 = vec@;
    let p = vec[split];
    let k = split - head + 1;
    if k == i {
        p
    } else if i < k {
        let r = rand_select(vec, head, split - 1, i);
        proof {
            let v2 = vec@;
            lemma_perm_widen(v1, v2, head as int, tail as int, head as int, split - 1);
            lemma_perm_trans(old(vec)@, v1, v2, head as int, tail as int);
            lemma_perm_bounds(v1, v2, head as int, split - 1, p, true, false);
            assert(bound_holds(v2[head + i - 1], p, true, false));
            assert forall|x: int| head + i - 1 < x <= tail implies #[trigger] v2[x] >= r by {
                if x >= split {
                    assert(v2[x] == v1[x]);
                }
            }
        }
        r
    } else {
        let r = rand_select(vec, split + 1, tail, i - k);
        proof {
            let v2 = vec@;
            lemma_perm_widen(v1, v2, head as int, tail as int, split + 1, tail as int);
            lemma_perm_trans(old(vec)@, v1, v2, head as int, tail as int);
            lemma_perm_bounds(v1, v2, split + 1, tail as int, p, false, true);
            assert(bound_holds(v2[head + i - 1], p, false, true));
            assert forall|x: int| head <= x < head + i - 1 implies #[trigger] v2[x] <= r by {
                if x <= split {
                    assert(v2[x] == v1[x]);
                }
            }
        }
        r
    }
}

} // verus!
