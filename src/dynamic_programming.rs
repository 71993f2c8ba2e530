use vstd::prelude::*;

verus! {

/// The best revenue for a rod of length `j` cut into pieces priced by `p`
/// (`p[i]` for a piece of length `i`); each maximum starts from `-1`.
pub open spec fn best(p: Seq<i32>, j: int) -> int
    decreases j, j + 1,
{
    if j <= 0 {
        0
    } else {
        best_upto(p, j, j)
    }
}

/// The revenue of a first piece of length `i` and a best cut of the rest.
pub open spec fn cut_value(p: Seq<i32>, j: int, i: int) -> int
    decreases j, 0int,
{
    p[i] + best(p, j - i)
}

/// The best of the first cuts `1..=m` for a rod of length `j` (or `-1`).
pub open spec fn best_upto(p: Seq<i32>, j: int, m: int) -> int
    decreases j, m,
{
    if m <= 0 || j <= 0 || m > j {
        -1
    } else {
        let prev = best_upto(p, j, m - 1);
        let cand = p[m] + best(p, j - m);
        if prev < cand { cand } else { prev }
    }
}

/// The first cut (smallest, on a tie) that reaches [`best_upto`], `0` if none beats `-1`.
pub open spec fn first_cut_upto(p: Seq<i32>, j: int, m: int) -> int
    decreases m,
{
    if m <= 0 || j <= 0 || m > j {
        0
    } else if best_upto(p, j, m - 1) < p[m] + best(p, j - m) {
        m
    } else {
        first_cut_upto(p, j, m - 1)
    }
}

/// Every sum the recurrence forms for lengths up to `length` fits in `i32`.
pub open spec fn sums_fit(p: Seq<i32>, length: int) -> bool {
    forall|j: int, i: int|
        1 <= i <= j <= length ==> i32::MIN <= #[trigger] cut_value(p, j, i) <= i32::MAX
}

/// Bottom-up rod cutting: `results[j]` is the best revenue for length `j` and
/// `s[j]` the first piece of a best cut.
pub fn bottom_up_cut_rod(prices: &Vec<i32>, length: usize) -> (r: (Vec<i32>, Vec<i32>))
    requires
        length < prices@.len(),
        length <= i32::MAX,
        sums_fit(prices@, length as int),
    ensures
        r.0@.len() == length + 1,
        r.1@.len() == length + 1,
        forall|j: int| 0 <= j <= length ==> #[trigger] r.0@[j] == best(prices@, j),
        forall|j: int| 0 <= j <= length ==> #[trigger] r.1@[j] == first_cut_upto(prices@, j, j),
{
    let n = prices.len();
    let mut results: Vec<i32> = Vec::new();
    let mut s: Vec<i32> = Vec::new();
    let mut t: usize = 0;
    while t <= length
        invariant
            t <= length + 1,
            length < n,
            n == prices@.len(),
            results@.len() == t,
            s@.len() == t,
            forall|x: int| 0 <= x < t ==> #[trigger] results@[x] == 0,
            forall|x: int| 0 <= x < t ==> #[trigger] s@[x] == 0,
        decreases length + 1 - t,
    {
        results.push(0);
        s.push(0);
        t = t + 1;
    }
    let mut j: usize = 1;
    while j <= length
        invariant
            1 <= j <= length + 1,
            length < n,
            n == prices@.len(),
            length <= i32::MAX,
            sums_fit(prices@, length as int),
            results@.len() == length + 1,
            s@.len() == length + 1,
            results@[0] == 0,
            s@[0] == 0,
            forall|x: int| 0 <= x < j ==> #[trigger] results@[x] == best(prices@, x),
            forall|x: int| 0 <= x < j ==> #[trigger] s@[x] == first_cut_upto(prices@, x, x),
        decreases length + 1 - j,
    {
        let mut max: i32 = -1;
        let mut first: i32 = 0;
        let mut i: usize = 1;
        while i <= j
            invariant
                1 <= i <= j + 1,
                j <= length,
                length < n,
                n == prices@.len(),
                length <= i32::MAX,
                sums_fit(prices@, length as int),
                results@.len() == length + 1,
                forall|x: int| 0 <= x < j ==> #[trigger] results@[x] == best(prices@, x),
                max == best_upto(prices@, j as int, i - 1),
                first == first_cut_upto(prices@, j as int, i - 1),
            decreases j + 1 - i,
        {
            proof {
                assert(i32::MIN <= cut_value(prices@, j as int, i as int) <= i32::MAX);
            }
            let cand = prices[i] + results[j - i];
            if max < cand {
                max = cand;
                first = i as i32;
            }
            i = i + 1;
        }
        results.set(j, max);
        s.set(j, first);
        j = j + 1;
    }
    (results, s)
}

} // verus!
