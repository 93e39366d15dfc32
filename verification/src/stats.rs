use vstd::prelude::*;

verus! {

/// The number of lags that a cross-correlation of series of lengths `x_len` and
/// `y_len` examines, for lags from 0 up to `max_lag`: a lag is examined while it is
/// shorter than both series.
pub open spec fn lag_count(x_len: nat, y_len: nat, max_lag: nat) -> nat {
    if x_len == 0 || y_len == 0 {
        0
    } else {
        vstd::math::min(
            (max_lag + 1) as int,
            vstd::math::min(x_len as int, y_len as int),
        ) as nat
    }
}

/// The number of aligned pairs `(x[t], y[t + k])` at lag `k`.
pub open spec fn overlap(x_len: nat, y_len: nat, k: nat) -> nat {
    vstd::math::min(x_len as int, y_len - k) as nat
}

/// A cross-correlation examines exactly the lags `k <= max_lag` that are shorter than
/// both series, and at each of them compares the longest run of aligned pairs
/// `(x[t], y[t + k])` that both series hold: `m` pairs with `m <= x_len`,
/// `k + m <= y_len`, and one of the two series used up.
pub proof fn law_lag_windows_cover_every_lag(x_len: nat, y_len: nat, max_lag: nat, k: nat)
    ensures
        k < lag_count(x_len, y_len, max_lag) <==> (k <= max_lag && k < x_len && k < y_len),
        k < lag_count(x_len, y_len, max_lag) ==> {
            let m = overlap(x_len, y_len, k);
            &&& 1 <= m <= x_len
            &&& k + m <= y_len
            &&& m == x_len || k + m == y_len
        },
{
}

/// The windows that a cross-correlation compares, lag by lag: at lag `k` the value
/// `x[t]` is paired with `y[t + k]`, over the `m = min(x_len, y_len - k)` pairs that both
/// series hold; that is, `x[..m]` against `y[k..k + m]`. Each window is given as
/// `(lag, end of the window of x, start of the window of y, end of the window of y)`.
pub fn lag_windows(x_len: usize, y_len: usize, max_lag: usize) -> (w: Vec<(usize, usize, usize, usize)>)
    ensures
        w.len() == lag_count(x_len as nat, y_len as nat, max_lag as nat),
        forall|k: int|
            0 <= k < w.len() ==> #[trigger] w@[k] == (
                k as usize,
                overlap(x_len as nat, y_len as nat, k as nat) as usize,
                k as usize,
                (k + overlap(x_len as nat, y_len as nat, k as nat)) as usize,
            ),
        forall|k: int|
            0 <= k <= max_lag && k < x_len && k < y_len ==> k < w.len() && (#[trigger] w@[k]).0
                == k,
        forall|k: int|
            0 <= k < w.len() ==> {
                let win = #[trigger] w@[k];
                &&& win.0 == k && win.2 == k
                &&& k <= max_lag && k < x_len && k < y_len
                &&& 1 <= win.1 <= x_len
                &&& win.3 == win.2 + win.1
                &&& win.3 <= y_len
                &&& win.1 == x_len || win.3 == y_len
            },
{
    let mut w: Vec<(usize, usize, usize, usize)> = Vec::new();
    if x_len == 0 || y_len == 0 {
        return w;
    }
    let bound = if x_len < y_len { x_len } else { y_len };
    let mut lag: usize = 0;
    while lag < bound && lag <= max_lag
        invariant
            bound == vstd::math::min(x_len as int, y_len as int),
            lag <= bound,
            lag <= max_lag + 1,
            w.len() == lag,
            forall|k: int|
                0 <= k < w.len() ==> #[trigger] w@[k] == (
                    k as usize,
                    overlap(x_len as nat, y_len as nat, k as nat) as usize,
                    k as usize,
                    (k + overlap(x_len as nat, y_len as nat, k as nat)) as usize,
                ),
        decreases bound - lag,
    {
        let rest = y_len - lag;
        let m = if x_len < rest { x_len } else { rest };
        w.push((lag, m, lag, lag + m));
        lag = lag + 1;
    }
    assert forall|k: int| 0 <= k < w.len() implies {
        let win = #[trigger] w@[k];
        &&& win.0 == k && win.2 == k
        &&& k <= max_lag && k < x_len && k < y_len
        &&& 1 <= win.1 <= x_len
        &&& win.3 == win.2 + win.1
        &&& win.3 <= y_len
        &&& win.1 == x_len || win.3 == y_len
    } by {
        law_lag_windows_cover_every_lag(x_len as nat, y_len as nat, max_lag as nat, k as nat);
    }
    assert forall|k: int| 0 <= k <= max_lag && k < x_len && k < y_len implies k < w.len() && (
    #[trigger] w@[k]).0 == k by {
        law_lag_windows_cover_every_lag(x_len as nat, y_len as nat, max_lag as nat, k as nat);
    }
    w
}

/// The first position of the run of tied values that holds sorted position `k`:
/// `same_as_next[q]` tells whether the value at sorted position `q + 1` equals the one at `q`.
pub open spec fn run_start(same_as_next: Seq<bool>, k: int) -> int
    decreases k,
{
    if k <= 0 || !same_as_next[k - 1] {
        k
    } else {
        run_start(same_as_next, k - 1)
    }
}

/// The last position of the run of tied values that holds sorted position `k`, among
/// `n` sorted positions.
pub open spec fn run_end(same_as_next: Seq<bool>, n: int, k: int) -> int
    decreases n - k,
{
    if k >= n - 1 || !same_as_next[k] {
        k
    } else {
        run_end(same_as_next, n, k + 1)
    }
}

/// `order` lists each position below its length exactly once.
pub open spec fn is_permutation(order: Seq<usize>) -> bool {
    &&& forall|k: int| 0 <= k < order.len() ==> #[trigger] order[k] < order.len()
    &&& forall|a: int, b: int| 0 <= a < b < order.len() ==> order[a] != order[b]
}

proof fn lemma_run_start(same_as_next: Seq<bool>, i: int, k: int)
    requires
        0 <= i <= k,
        k <= same_as_next.len(),
        i == 0 || !same_as_next[i - 1],
        forall|q: int| i <= q < k ==> #[trigger] same_as_next[q],
    ensures
        run_start(same_as_next, k) == i,
    decreases k - i,
{
    if k > i {
        assert(same_as_next[k - 1]);
        lemma_run_start(same_as_next, i, k - 1);
    }
}

proof fn lemma_run_end(same_as_next: Seq<bool>, n: int, j: int, k: int)
    requires
        0 <= k <= j < n,
        n <= same_as_next.len() + 1,
        j == n - 1 || !same_as_next[j],
        forall|q: int| k <= q < j ==> #[trigger] same_as_next[q],
    ensures
        run_end(same_as_next, n, k) == j,
    decreases j - k,
{
    if k < j {
        assert(same_as_next[k]);
        lemma_run_end(same_as_next, n, j, k + 1);
    }
}

/// The run of tied values around sorted position `k` is the longest stretch of tied
/// neighbours that holds `k`: it starts at `k` or before, ends at `k` or after, every
/// position inside it is tied to the next, and it cannot be extended on either side.
pub proof fn law_runs_are_maximal_ties(same_as_next: Seq<bool>, n: int, k: int)
    requires
        0 <= k < n,
        n <= same_as_next.len() + 1,
    ensures
        0 <= run_start(same_as_next, k) <= k <= run_end(same_as_next, n, k) < n,
        forall|q: int|
            run_start(same_as_next, k) <= q < run_end(same_as_next, n, k) ==> #[trigger] same_as_next[q],
        run_start(same_as_next, k) == 0 || !same_as_next[run_start(same_as_next, k) - 1],
        run_end(same_as_next, n, k) == n - 1 || !same_as_next[run_end(same_as_next, n, k)],
    decreases n - k,
{
    lemma_run_start_facts(same_as_next, k);
    if k < n - 1 && same_as_next[k] {
        law_runs_are_maximal_ties(same_as_next, n, k + 1);
        assert forall|q: int|
            run_start(same_as_next, k) <= q < run_end(same_as_next, n, k) implies #[trigger] same_as_next[q] by {
            if q >= k + 1 {
                assert(run_start(same_as_next, k + 1) == run_start(same_as_next, k)) by {
                    assert(run_start(same_as_next, k + 1) == run_start(same_as_next, k));
                }
            }
        }
    }
}

proof fn lemma_run_start_facts(same_as_next: Seq<bool>, k: int)
    requires
        0 <= k <= same_as_next.len(),
    ensures
        0 <= run_start(same_as_next, k) <= k,
        forall|q: int| run_start(same_as_next, k) <= q < k ==> #[trigger] same_as_next[q],
        run_start(same_as_next, k) == 0 || !same_as_next[run_start(same_as_next, k) - 1],
    decreases k,
{
    if k > 0 && same_as_next[k - 1] {
        lemma_run_start_facts(same_as_next, k - 1);
    }
}

/// Ranks with ties averaged, doubled to stay whole: `order[k]` is the index of the value
/// at sorted position `k`, and `same_as_next[k]` tells whether the value at sorted position
/// `k + 1` equals the one at `k`. Each value of a run of equal values at sorted positions
/// `i..=j` receives the average of the 1-based ranks `i + 1 ..= j + 1`, which doubled is
/// `i + j + 2`.
pub fn tied_ranks_doubled(order: &Vec<usize>, same_as_next: &Vec<bool>) -> (r: Vec<usize>)
    requires
        is_permutation(order@),
        order.len() < usize::MAX / 2,
        if order.len() == 0 {
            same_as_next.len() == 0
        } else {
            same_as_next.len() + 1 == order.len()
        },
    ensures
        r.len() == order.len(),
        forall|k: int|
            0 <= k < order.len() ==> r@[order@[k] as int] == run_start(same_as_next@, k) + run_end(
                same_as_next@,
                order.len() as int,
                k,
            ) + 2,
{
    let n = order.len();
    let mut r: Vec<usize> = Vec::new();
    for t in 0..n
        invariant
            r.len() == t,
    {
        r.push(0);
    }
    let ghost ties = same_as_next@;
    let mut i: usize = 0;
    while i < n
        invariant
            n == order.len(),
            n < usize::MAX / 2,
            ties == same_as_next@,
            is_permutation(order@),
            n > 0 ==> same_as_next.len() + 1 == n,
            i <= n,
            r.len() == n,
            i == 0 || i == n || !ties[i - 1],
            forall|k: int|
                0 <= k < i ==> r@[order@[k] as int] == run_start(ties, k) + run_end(
                    ties,
                    n as int,
                    k,
                ) + 2,
        decreases n - i,
    {
        let mut j: usize = i;
        while j < n - 1 && same_as_next[j]
            invariant
                n == order.len(),
                ties == same_as_next@,
                n > 0 ==> same_as_next.len() + 1 == n,
                i <= j < n,
                forall|q: int| i <= q < j ==> #[trigger] ties[q],
            decreases n - j,
        {
            j = j + 1;
        }
        proof {
            if i > 0 && i < n {
                assert(!ties[i - 1]);
            }
        }
        let v = i + j + 2;
        let ghost before = r@;
        for k in i..j + 1
            invariant
                n == order.len(),
                is_permutation(order@),
                i <= j < n,
                v == i + j + 2,
                r.len() == n,
                forall|q: int| 0 <= q < i ==> r@[order@[q] as int] == before[order@[q] as int],
                forall|q: int| i <= q < k ==> r@[order@[q] as int] == v,
        {
            assert(order@[k as int] < n);
            r.set(order[k], v);
            assert forall|q: int| 0 <= q < i implies r@[order@[q] as int] == before[order@[q] as int] by {
                assert(order@[q] != order@[k as int]);
            }
            assert forall|q: int| i <= q < k + 1 implies r@[order@[q] as int] == v by {
                if q < k {
                    assert(order@[q] != order@[k as int]);
                }
            }
        }
        assert forall|k: int| 0 <= k < j + 1 implies r@[order@[k] as int] == run_start(ties, k) + run_end(
            ties,
            n as int,
            k,
        ) + 2 by {
            if k >= i {
                lemma_run_start(ties, i as int, k);
                lemma_run_end(ties, n as int, j as int, k);
            }
        }
        i = j + 1;
    }
    r
}

/// The number of the first `m` samples whose bin pair is `(a, b)`.
pub open spec fn joint_count(bx: Seq<usize>, by: Seq<usize>, a: int, b: int, m: int) -> nat
    decreases m,
{
    if m <= 0 {
        0
    } else {
        joint_count(bx, by, a, b, m - 1) + if bx[m - 1] == a && by[m - 1] == b {
            1nat
        } else {
            0nat
        }
    }
}

/// The number of the first `m` entries of `bins` that equal `a`.
pub open spec fn bin_count(bins: Seq<usize>, a: int, m: int) -> nat
    decreases m,
{
    if m <= 0 {
        0
    } else {
        bin_count(bins, a, m - 1) + if bins[m - 1] == a {
            1nat
        } else {
            0nat
        }
    }
}

proof fn lemma_counts_bounded(bx: Seq<usize>, by: Seq<usize>, a: int, b: int, m: int)
    requires
        m >= 0,
    ensures
        joint_count(bx, by, a, b, m) <= m,
        bin_count(bx, a, m) <= m,
        bin_count(by, b, m) <= m,
    decreases m,
{
    if m > 0 {
        lemma_counts_bounded(bx, by, a, b, m - 1);
    }
}


/// The paired samples `(bx[t], by[t])`.
pub open spec fn sample_pairs(bx: Seq<usize>, by: Seq<usize>) -> Seq<(usize, usize)> {
    Seq::new(bx.len(), |t: int| (bx[t], by[t]))
}

proof fn lemma_counts_as_multisets(bx: Seq<usize>, by: Seq<usize>, a: usize, b: usize, m: int)
    requires
        bx.len() == by.len(),
        0 <= m <= bx.len(),
    ensures
        joint_count(bx, by, a as int, b as int, m) == sample_pairs(bx, by).take(m).to_multiset().count(
            (a, b),
        ),
        bin_count(bx, a as int, m) == bx.take(m).to_multiset().count(a),
        bin_count(by, b as int, m) == by.take(m).to_multiset().count(b),
    decreases m,
{
    broadcast use vstd::seq_lib::to_multiset_build, vstd::seq_lib::group_to_multiset_ensures,
        vstd::multiset::group_multiset_axioms;

    let ps = sample_pairs(bx, by);
    if m == 0 {
        assert(ps.take(0) =~= Seq::<(usize, usize)>::empty());
        assert(bx.take(0) =~= Seq::<usize>::empty());
        assert(by.take(0) =~= Seq::<usize>::empty());
        assert(!ps.take(0).contains((a, b)));
        assert(!bx.take(0).contains(a));
        assert(!by.take(0).contains(b));
    } else {
        lemma_counts_as_multisets(bx, by, a, b, m - 1);
        assert(ps.take(m) =~= ps.take(m - 1).push(ps[m - 1]));
        assert(bx.take(m) =~= bx.take(m - 1).push(bx[m - 1]));
        assert(by.take(m) =~= by.take(m - 1).push(by[m - 1]));
        assert(ps[m - 1] == (bx[m - 1], by[m - 1]));
    }
}

/// The histogram counts what it says, stated over the samples themselves: `joint[a][b]`
/// (that is, `joint_count(bx, by, a, b, n)`) is the number of times the pair `(a, b)` occurs
/// among the paired samples `(bx[t], by[t])`, and the marginals count the occurrences of `a`
/// in `bx` and of `b` in `by`.
pub proof fn law_bin_counts_count_the_samples(bx: Seq<usize>, by: Seq<usize>, a: usize, b: usize)
    requires
        bx.len() == by.len(),
    ensures
        joint_count(bx, by, a as int, b as int, bx.len() as int) == sample_pairs(
            bx,
            by,
        ).to_multiset().count((a, b)),
        bin_count(bx, a as int, bx.len() as int) == bx.to_multiset().count(a),
        bin_count(by, b as int, by.len() as int) == by.to_multiset().count(b),
{
    lemma_counts_as_multisets(bx, by, a, b, bx.len() as int);
    assert(sample_pairs(bx, by).take(bx.len() as int) =~= sample_pairs(bx, by));
    assert(bx.take(bx.len() as int) =~= bx);
    assert(by.take(by.len() as int) =~= by);
}

/// The histogram of paired samples over `bins` bins: `joint[a][b]` counts the samples
/// whose first value falls in bin `a` and second value in bin `b`, `mx[a]` and `my[b]`
/// count the first and the second values by bin.
pub fn bin_counts(bx: &Vec<usize>, by: &Vec<usize>, bins: usize) -> (res: (
    Vec<Vec<usize>>,
    Vec<usize>,
    Vec<usize>,
))
    requires
        bx.len() == by.len(),
        forall|i: int| 0 <= i < bx.len() ==> #[trigger] bx@[i] < bins,
        forall|i: int| 0 <= i < by.len() ==> #[trigger] by@[i] < bins,
    ensures
        res.0.len() == bins,
        res.1.len() == bins,
        res.2.len() == bins,
        forall|a: int| 0 <= a < bins ==> (#[trigger] res.0@[a]).len() == bins,
        forall|a: int, b: int|
            0 <= a < bins && 0 <= b < bins ==> (#[trigger] res.0@[a]@[b]) == joint_count(
                bx@,
                by@,
                a,
                b,
                bx.len() as int,
            ),
        forall|a: int| 0 <= a < bins ==> #[trigger] res.1@[a] == bin_count(bx@, a, bx.len() as int),
        forall|b: int| 0 <= b < bins ==> #[trigger] res.2@[b] == bin_count(by@, b, by.len() as int),
        forall|a: int, b: int|
            0 <= a < bins && 0 <= b < bins ==> (#[trigger] res.0@[a]@[b]) == sample_pairs(
                bx@,
                by@,
            ).to_multiset().count((a as usize, b as usize)),
        forall|a: int| 0 <= a < bins ==> #[trigger] res.1@[a] == bx@.to_multiset().count(a as usize),
        forall|b: int| 0 <= b < bins ==> #[trigger] res.2@[b] == by@.to_multiset().count(b as usize),
{
    let n = bx.len();
    let mut joint: Vec<Vec<usize>> = Vec::new();
    let mut mx: Vec<usize> = Vec::new();
    let mut my: Vec<usize> = Vec::new();
    for a in 0..bins
        invariant
            joint.len() == a,
            mx.len() == a,
            my.len() == a,
            forall|p: int| 0 <= p < a ==> #[trigger] mx@[p] == 0,
            forall|p: int| 0 <= p < a ==> #[trigger] my@[p] == 0,
            forall|p: int| 0 <= p < a ==> (#[trigger] joint@[p]).len() == bins,
            forall|p: int, q: int| 0 <= p < a && 0 <= q < bins ==> (#[trigger] joint@[p]@[q]) == 0,
    {
        let mut row: Vec<usize> = Vec::new();
        for b in 0..bins
            invariant
                row.len() == b,
                forall|q: int| 0 <= q < b ==> #[trigger] row@[q] == 0,
        {
            row.push(0);
        }
        joint.push(row);
        mx.push(0);
        my.push(0);
    }
    for i in 0..n
        invariant
            n == bx.len(),
            n == by.len(),
            forall|t: int| 0 <= t < bx.len() ==> #[trigger] bx@[t] < bins,
            forall|t: int| 0 <= t < by.len() ==> #[trigger] by@[t] < bins,
            joint.len() == bins,
            mx.len() == bins,
            my.len() == bins,
            forall|p: int| 0 <= p < bins ==> (#[trigger] joint@[p]).len() == bins,
            forall|p: int, q: int|
                0 <= p < bins && 0 <= q < bins ==> (#[trigger] joint@[p]@[q]) == joint_count(
                    bx@,
                    by@,
                    p,
                    q,
                    i as int,
                ),
            forall|p: int| 0 <= p < bins ==> #[trigger] mx@[p] == bin_count(bx@, p, i as int),
            forall|q: int| 0 <= q < bins ==> #[trigger] my@[q] == bin_count(by@, q, i as int),
    {
        let a = bx[i];
        let b = by[i];
        proof {
            lemma_counts_bounded(bx@, by@, a as int, b as int, i as int);
        }
        let ghost old_joint = joint@;
        let ghost old_mx = mx@;
        let ghost old_my = my@;
        let mut row = joint[a].clone();
        assert(row@ == old_joint[a as int]@);
        let c = row[b];
        row.set(b, c + 1);
        joint.set(a, row);
        let ca = mx[a];
        mx.set(a, ca + 1);
        let cb = my[b];
        my.set(b, cb + 1);
        assert forall|p: int, q: int| 0 <= p < bins && 0 <= q < bins implies (#[trigger] joint@[p]@[q])
            == joint_count(bx@, by@, p, q, i + 1) by {
            if p != a {
                assert(joint@[p] == old_joint[p]);
            }
        }
        assert forall|p: int| 0 <= p < bins implies #[trigger] mx@[p] == bin_count(bx@, p, i + 1) by {
            if p != a {
                assert(mx@[p] == old_mx[p]);
            }
        }
        assert forall|q: int| 0 <= q < bins implies #[trigger] my@[q] == bin_count(by@, q, i + 1) by {
            if q != b {
                assert(my@[q] == old_my[q]);
            }
        }
    }
    assert forall|a: int, b: int| 0 <= a < bins && 0 <= b < bins implies joint_count(
        bx@,
        by@,
        a,
        b,
        n as int,
    ) == sample_pairs(bx@, by@).to_multiset().count((a as usize, b as usize)) && bin_count(
        bx@,
        a,
        n as int,
    ) == bx@.to_multiset().count(a as usize) && bin_count(by@, b, n as int)
        == by@.to_multiset().count(b as usize) by {
        law_bin_counts_count_the_samples(bx@, by@, a as usize, b as usize);
    }
    assert forall|a: int| 0 <= a < bins implies #[trigger] mx@[a] == bx@.to_multiset().count(a as usize) by {
        law_bin_counts_count_the_samples(bx@, by@, a as usize, 0);
    }
    assert forall|b: int| 0 <= b < bins implies #[trigger] my@[b] == by@.to_multiset().count(b as usize) by {
        law_bin_counts_count_the_samples(bx@, by@, 0, b as usize);
    }
    (joint, mx, my)
}

} // verus!
