use vstd::prelude::*;
use crate::graph::{DependencyEdge, DependencyGraph, names_of};
use crate::order::{names_sorted, sorted_names};

verus! {

/// An edge by its names and values: source, target, strength bits, lag.
pub open spec fn edge_view(e: DependencyEdge) -> (Seq<char>, Seq<char>, u64, usize) {
    (e.from@, e.to@, e.strength_bits, e.lag)
}

pub open spec fn edge_views(edges: Seq<DependencyEdge>) -> Seq<(Seq<char>, Seq<char>, u64, usize)> {
    edges.map_values(|e: DependencyEdge| edge_view(e))
}

/// The rows of a table of pair outcomes.
pub open spec fn rows_of(picks: Seq<Vec<Option<(usize, u64)>>>) -> Seq<Seq<Option<(usize, u64)>>> {
    picks.map_values(|r: Vec<Option<(usize, u64)>>| r@)
}

/// The edges that the first `m` pairs of row `i` yield: the pair `(i, j)` with `i != j`
/// whose outcome is `(lag, strength_bits)` yields the edge from `names[i]` to `names[j]`.
pub open spec fn row_edges(
    names: Seq<Seq<char>>,
    picks: Seq<Seq<Option<(usize, u64)>>>,
    i: int,
    m: nat,
) -> Seq<(Seq<char>, Seq<char>, u64, usize)>
    decreases m,
{
    if m == 0 {
        Seq::empty()
    } else {
        let rest = row_edges(names, picks, i, (m - 1) as nat);
        let j = m - 1;
        let slot = picks[i][j];
        if i != j && slot is Some {
            rest.push((names[i], names[j], slot.unwrap().1, slot.unwrap().0))
        } else {
            rest
        }
    }
}

/// The edges that the first `r` rows of pair outcomes yield, row after row.
pub open spec fn selected_edges(
    names: Seq<Seq<char>>,
    picks: Seq<Seq<Option<(usize, u64)>>>,
    r: nat,
) -> Seq<(Seq<char>, Seq<char>, u64, usize)>
    decreases r,
{
    if r == 0 {
        Seq::empty()
    } else {
        selected_edges(names, picks, (r - 1) as nat) + row_edges(
            names,
            picks,
            r - 1,
            names.len(),
        )
    }
}

/// No name occurs twice in `names`.
pub open spec fn distinct_names(names: Seq<Seq<char>>) -> bool {
    forall|a: int, b: int| 0 <= a < b < names.len() ==> names[a] != names[b]
}

proof fn lemma_row_edges(
    names: Seq<Seq<char>>,
    picks: Seq<Seq<Option<(usize, u64)>>>,
    i: int,
    m: nat,
)
    requires
        distinct_names(names),
        0 <= i < names.len(),
        m <= names.len(),
    ensures
        forall|t: int|
            0 <= t < row_edges(names, picks, i, m).len() ==> {
                let e = #[trigger] row_edges(names, picks, i, m)[t];
                e.0 != e.1 && names.contains(e.0) && names.contains(e.1)
            },
    decreases m,
{
    if m > 0 {
        lemma_row_edges(names, picks, i, (m - 1) as nat);
        let j = m - 1;
        assert(names.contains(names[i]));
        assert(names.contains(names[j]));
        let rest = row_edges(names, picks, i, (m - 1) as nat);
        let all = row_edges(names, picks, i, m);
        assert forall|t: int| 0 <= t < all.len() implies {
            let e = #[trigger] all[t];
            e.0 != e.1 && names.contains(e.0) && names.contains(e.1)
        } by {
            if t < rest.len() {
                assert(all[t] == rest[t]);
            } else {
                if i < j {
                    assert(names[i] != names[j]);
                } else {
                    assert(names[j] != names[i]);
                }
            }
        }
    }
}

proof fn lemma_selected_edges(
    names: Seq<Seq<char>>,
    picks: Seq<Seq<Option<(usize, u64)>>>,
    r: nat,
)
    requires
        distinct_names(names),
        r <= names.len(),
    ensures
        forall|t: int|
            0 <= t < selected_edges(names, picks, r).len() ==> {
                let e = #[trigger] selected_edges(names, picks, r)[t];
                e.0 != e.1 && names.contains(e.0) && names.contains(e.1)
            },
    decreases r,
{
    if r > 0 {
        lemma_selected_edges(names, picks, (r - 1) as nat);
        lemma_row_edges(names, picks, r - 1, names.len());
        let a = selected_edges(names, picks, (r - 1) as nat);
        let b = row_edges(names, picks, r - 1, names.len());
        assert forall|t: int| 0 <= t < (a + b).len() implies {
            let e = #[trigger] (a + b)[t];
            e.0 != e.1 && names.contains(e.0) && names.contains(e.1)
        } by {
            if t < a.len() {
                assert((a + b)[t] == a[t]);
            } else {
                assert((a + b)[t] == b[t - a.len()]);
            }
        }
    }
}

/// When the series names are distinct (as the keys of a map are), every edge built from
/// the pair outcomes joins two different series of the list.
pub proof fn law_selection_joins_distinct_series(
    names: Seq<Seq<char>>,
    picks: Seq<Seq<Option<(usize, u64)>>>,
)
    requires
        distinct_names(names),
    ensures
        forall|t: int|
            0 <= t < selected_edges(names, picks, names.len()).len() ==> {
                let e = #[trigger] selected_edges(names, picks, names.len())[t];
                e.0 != e.1 && names.contains(e.0) && names.contains(e.1)
            },
{
    lemma_selected_edges(names, picks, names.len());
}

/// The pair `(i, j)` has an outcome, and `e` is the edge it yields.
pub open spec fn is_pick_edge(
    names: Seq<Seq<char>>,
    picks: Seq<Seq<Option<(usize, u64)>>>,
    i: int,
    j: int,
    e: (Seq<char>, Seq<char>, u64, usize),
) -> bool {
    picks[i][j] is Some && e == pick_edge(names, picks, i, j)
}

/// The edge that the outcome of the pair `(i, j)` yields: from `names[i]` to `names[j]`,
/// with the outcome's strength bits and lag.
pub open spec fn pick_edge(
    names: Seq<Seq<char>>,
    picks: Seq<Seq<Option<(usize, u64)>>>,
    i: int,
    j: int,
) -> (Seq<char>, Seq<char>, u64, usize) {
    (names[i], names[j], picks[i][j].unwrap().1, picks[i][j].unwrap().0)
}

/// `e` is the edge of the outcome of a pair `(i, j)` with `i != j`, `lo <= i < hi`
/// and `0 <= j < cols`.
pub open spec fn from_some_pick(
    names: Seq<Seq<char>>,
    picks: Seq<Seq<Option<(usize, u64)>>>,
    lo: int,
    hi: int,
    cols: int,
    e: (Seq<char>, Seq<char>, u64, usize),
) -> bool {
    exists|i: int, j: int|
        lo <= i < hi && 0 <= j < cols && i != j && #[trigger] is_pick_edge(names, picks, i, j, e)
}

proof fn lemma_row_edges_are_picks(
    names: Seq<Seq<char>>,
    picks: Seq<Seq<Option<(usize, u64)>>>,
    i: int,
    m: nat,
)
    ensures
        forall|t: int|
            0 <= t < row_edges(names, picks, i, m).len() ==> from_some_pick(
                names,
                picks,
                i,
                i + 1,
                m as int,
                #[trigger] row_edges(names, picks, i, m)[t],
            ),
        forall|j: int|
            0 <= j < m && i != j && #[trigger] picks[i][j] is Some ==> row_edges(
                names,
                picks,
                i,
                m,
            ).contains(pick_edge(names, picks, i, j)),
    decreases m,
{
    if m > 0 {
        lemma_row_edges_are_picks(names, picks, i, (m - 1) as nat);
        let rest = row_edges(names, picks, i, (m - 1) as nat);
        let all = row_edges(names, picks, i, m);
        let j0 = m - 1;
        assert forall|t: int| 0 <= t < all.len() implies from_some_pick(
            names,
            picks,
            i,
            i + 1,
            m as int,
            #[trigger] all[t],
        ) by {
            if t < rest.len() {
                assert(all[t] == rest[t]);
                assert(from_some_pick(names, picks, i, i + 1, m - 1, rest[t]));
                let (i1, j) = choose|i1: int, j: int|
                    i <= i1 < i + 1 && 0 <= j < m - 1 && i1 != j && #[trigger] is_pick_edge(
                        names,
                        picks,
                        i1,
                        j,
                        rest[t],
                    );
                assert(is_pick_edge(names, picks, i, j, all[t]));
            } else {
                assert(all[t] == pick_edge(names, picks, i, j0));
                assert(is_pick_edge(names, picks, i, j0, all[t]));
            }
        }
        assert forall|j: int| 0 <= j < m && i != j && #[trigger] picks[i][j] is Some implies all.contains(
            pick_edge(names, picks, i, j),
        ) by {
            if j < j0 {
                let w = choose|w: int| 0 <= w < rest.len() && rest[w] == pick_edge(names, picks, i, j);
                assert(all[w] == rest[w]);
            } else {
                assert(all[all.len() - 1] == pick_edge(names, picks, i, j));
            }
        }
    }
}

proof fn lemma_selected_edges_are_picks(
    names: Seq<Seq<char>>,
    picks: Seq<Seq<Option<(usize, u64)>>>,
    r: nat,
)
    ensures
        forall|t: int|
            0 <= t < selected_edges(names, picks, r).len() ==> from_some_pick(
                names,
                picks,
                0,
                r as int,
                names.len() as int,
                #[trigger] selected_edges(names, picks, r)[t],
            ),
        forall|i: int, j: int|
            0 <= i < r && 0 <= j < names.len() && i != j && #[trigger] picks[i][j] is Some
                ==> selected_edges(names, picks, r).contains(pick_edge(names, picks, i, j)),
    decreases r,
{
    if r > 0 {
        let i0 = r - 1;
        let n = names.len() as int;
        lemma_selected_edges_are_picks(names, picks, (r - 1) as nat);
        lemma_row_edges_are_picks(names, picks, i0, names.len());
        let a = selected_edges(names, picks, (r - 1) as nat);
        let b = row_edges(names, picks, i0, names.len());
        let all = selected_edges(names, picks, r);
        assert(all == a + b);
        assert forall|t: int| 0 <= t < all.len() implies from_some_pick(
            names,
            picks,
            0,
            r as int,
            n,
            #[trigger] all[t],
        ) by {
            if t < a.len() {
                assert(all[t] == a[t]);
                assert(from_some_pick(names, picks, 0, r - 1, n, a[t]));
                let (i, j) = choose|i: int, j: int|
                    0 <= i < r - 1 && 0 <= j < n && i != j && #[trigger] is_pick_edge(
                        names,
                        picks,
                        i,
                        j,
                        a[t],
                    );
                assert(is_pick_edge(names, picks, i, j, all[t]));
            } else {
                let u = t - a.len();
                assert(all[t] == b[u]);
                assert(from_some_pick(names, picks, i0, i0 + 1, n, b[u]));
                let (i, j) = choose|i: int, j: int|
                    i0 <= i < i0 + 1 && 0 <= j < n && i != j && #[trigger] is_pick_edge(
                        names,
                        picks,
                        i,
                        j,
                        b[u],
                    );
                assert(is_pick_edge(names, picks, i, j, all[t]));
            }
        }
        assert forall|i: int, j: int|
            0 <= i < r && 0 <= j < names.len() && i != j && #[trigger] picks[i][j] is Some implies all.contains(
            pick_edge(names, picks, i, j),
        ) by {
            let x = pick_edge(names, picks, i, j);
            if i < i0 {
                let w = choose|w: int| 0 <= w < a.len() && a[w] == x;
                assert(all[w] == x);
            } else {
                let w = choose|w: int| 0 <= w < b.len() && b[w] == x;
                assert(all[a.len() + w] == x);
            }
        }
    }
}

/// The graph's edges are the pair outcomes, with their values unchanged: every edge is
/// the edge from `names[i]` to `names[j]` carrying the strength bits and the lag of the
/// outcome of a pair `(i, j)` with `i != j`, and every such outcome gives an edge.
pub proof fn law_selection_edges_are_the_picks(
    names: Seq<Seq<char>>,
    picks: Seq<Seq<Option<(usize, u64)>>>,
)
    ensures
        forall|t: int|
            0 <= t < selected_edges(names, picks, names.len()).len() ==> from_some_pick(
                names,
                picks,
                0,
                names.len() as int,
                names.len() as int,
                #[trigger] selected_edges(names, picks, names.len())[t],
            ),
        forall|i: int, j: int|
            0 <= i < names.len() && 0 <= j < names.len() && i != j && #[trigger] picks[i][j] is Some
                ==> selected_edges(names, picks, names.len()).contains(pick_edge(names, picks, i, j)),
{
    lemma_selected_edges_are_picks(names, picks, names.len());
}

/// Pair `p` comes before pair `q` in row-major order.
pub open spec fn pair_before(p: (int, int), q: (int, int)) -> bool {
    p.0 < q.0 || (p.0 == q.0 && p.1 < q.1)
}

/// `ps` lists, entry by entry, the pair behind each edge of `sel`: each is a pair
/// `(i, j)` with `i != j`, both below `n`, that has an outcome, and the edge is the one
/// that outcome yields; the pairs come in row-major order (so none twice), and every
/// such pair is listed.
pub open spec fn lists_picks_in_order(
    names: Seq<Seq<char>>,
    picks: Seq<Seq<Option<(usize, u64)>>>,
    n: int,
    sel: Seq<(Seq<char>, Seq<char>, u64, usize)>,
    ps: Seq<(int, int)>,
) -> bool {
    &&& ps.len() == sel.len()
    &&& forall|t: int|
        0 <= t < ps.len() ==> 0 <= (#[trigger] ps[t]).0 < n && 0 <= ps[t].1 < n && ps[t].0
            != ps[t].1 && is_pick_edge(names, picks, ps[t].0, ps[t].1, sel[t])
    &&& forall|t1: int, t2: int|
        #![trigger ps[t1], ps[t2]]
        0 <= t1 < t2 < ps.len() ==> pair_before(ps[t1], ps[t2])
    &&& forall|i: int, j: int|
        0 <= i < n && 0 <= j < n && i != j && #[trigger] picks[i][j] is Some ==> ps.contains(
            (i, j),
        )
}

spec fn row_pairs(picks: Seq<Seq<Option<(usize, u64)>>>, i: int, m: nat) -> Seq<(int, int)>
    decreases m,
{
    if m == 0 {
        Seq::empty()
    } else {
        let rest = row_pairs(picks, i, (m - 1) as nat);
        let j = m - 1;
        if i != j && picks[i][j] is Some {
            rest.push((i, j))
        } else {
            rest
        }
    }
}

spec fn selected_pairs(picks: Seq<Seq<Option<(usize, u64)>>>, n: nat, r: nat) -> Seq<(int, int)>
    decreases r,
{
    if r == 0 {
        Seq::empty()
    } else {
        selected_pairs(picks, n, (r - 1) as nat) + row_pairs(picks, r - 1, n)
    }
}

proof fn lemma_row_pairs(
    names: Seq<Seq<char>>,
    picks: Seq<Seq<Option<(usize, u64)>>>,
    i: int,
    m: nat,
)
    ensures
        row_pairs(picks, i, m).len() == row_edges(names, picks, i, m).len(),
        forall|t: int|
            0 <= t < row_pairs(picks, i, m).len() ==> (#[trigger] row_pairs(picks, i, m)[t]).0 == i
                && 0 <= row_pairs(picks, i, m)[t].1 < m && i != row_pairs(picks, i, m)[t].1
                && is_pick_edge(
                names,
                picks,
                i,
                row_pairs(picks, i, m)[t].1,
                row_edges(names, picks, i, m)[t],
            ),
        forall|t1: int, t2: int|
            #![trigger row_pairs(picks, i, m)[t1], row_pairs(picks, i, m)[t2]]
            0 <= t1 < t2 < row_pairs(picks, i, m).len() ==> row_pairs(picks, i, m)[t1].1
                < row_pairs(picks, i, m)[t2].1,
        forall|j: int|
            0 <= j < m && i != j && #[trigger] picks[i][j] is Some ==> row_pairs(
                picks,
                i,
                m,
            ).contains((i, j)),
    decreases m,
{
    if m > 0 {
        lemma_row_pairs(names, picks, i, (m - 1) as nat);
        let rp = row_pairs(picks, i, (m - 1) as nat);
        let all = row_pairs(picks, i, m);
        let re = row_edges(names, picks, i, (m - 1) as nat);
        let alle = row_edges(names, picks, i, m);
        let j0 = m - 1;
        assert forall|t: int| 0 <= t < all.len() implies (#[trigger] all[t]).0 == i && 0 <= all[t].1
            < m && i != all[t].1 && is_pick_edge(names, picks, i, all[t].1, alle[t]) by {
            if t < rp.len() {
                assert(all[t] == rp[t] && alle[t] == re[t]);
            } else {
                assert(all[t] == (i, j0));
                assert(alle[t] == pick_edge(names, picks, i, j0));
            }
        }
        assert forall|t1: int, t2: int|
            #![trigger all[t1], all[t2]]
            0 <= t1 < t2 < all.len() implies all[t1].1 < all[t2].1 by {
            if t2 < rp.len() {
                assert(all[t1] == rp[t1] && all[t2] == rp[t2]);
            } else {
                assert(all[t1] == rp[t1]);
            }
        }
        assert forall|j: int| 0 <= j < m && i != j && #[trigger] picks[i][j] is Some implies all.contains(
            (i, j),
        ) by {
            if j < j0 {
                let w = choose|w: int| 0 <= w < rp.len() && rp[w] == (i, j);
                assert(all[w] == rp[w]);
            } else {
                assert(all[all.len() - 1] == (i, j));
            }
        }
    }
}

proof fn lemma_selected_pairs(
    names: Seq<Seq<char>>,
    picks: Seq<Seq<Option<(usize, u64)>>>,
    r: nat,
)
    requires
        r <= names.len(),
    ensures
        ({
            let n = names.len();
            let ps = selected_pairs(picks, n, r);
            let sel = selected_edges(names, picks, r);
            &&& ps.len() == sel.len()
            &&& forall|t: int|
                0 <= t < ps.len() ==> 0 <= (#[trigger] ps[t]).0 < r && 0 <= ps[t].1 < n
                    && ps[t].0 != ps[t].1 && is_pick_edge(names, picks, ps[t].0, ps[t].1, sel[t])
            &&& forall|t1: int, t2: int|
                #![trigger ps[t1], ps[t2]]
                0 <= t1 < t2 < ps.len() ==> pair_before(ps[t1], ps[t2])
            &&& forall|i: int, j: int|
                0 <= i < r && 0 <= j < n && i != j && #[trigger] picks[i][j] is Some
                    ==> ps.contains((i, j))
        }),
    decreases r,
{
    if r > 0 {
        let n = names.len();
        let i0 = r - 1;
        lemma_selected_pairs(names, picks, (r - 1) as nat);
        lemma_row_pairs(names, picks, i0, n);
        let pa = selected_pairs(picks, n, (r - 1) as nat);
        let pb = row_pairs(picks, i0, n);
        let ea = selected_edges(names, picks, (r - 1) as nat);
        let eb = row_edges(names, picks, i0, n);
        let ps = selected_pairs(picks, n, r);
        let sel = selected_edges(names, picks, r);
        assert(ps == pa + pb);
        assert(sel == ea + eb);
        assert forall|t: int| 0 <= t < ps.len() implies 0 <= (#[trigger] ps[t]).0 < r && 0 <= ps[t].1
            < n && ps[t].0 != ps[t].1 && is_pick_edge(names, picks, ps[t].0, ps[t].1, sel[t]) by {
            if t < pa.len() {
                assert(ps[t] == pa[t] && sel[t] == ea[t]);
            } else {
                assert(ps[t] == pb[t - pa.len()] && sel[t] == eb[t - pa.len()]);
            }
        }
        assert forall|t1: int, t2: int|
            #![trigger ps[t1], ps[t2]]
            0 <= t1 < t2 < ps.len() implies pair_before(ps[t1], ps[t2]) by {
            if t2 < pa.len() {
                assert(ps[t1] == pa[t1] && ps[t2] == pa[t2]);
            } else if t1 >= pa.len() {
                assert(ps[t1] == pb[t1 - pa.len()] && ps[t2] == pb[t2 - pa.len()]);
            } else {
                assert(ps[t1] == pa[t1] && ps[t2] == pb[t2 - pa.len()]);
            }
        }
        assert forall|i: int, j: int|
            0 <= i < r && 0 <= j < n && i != j && #[trigger] picks[i][j] is Some implies ps.contains(
            (i, j),
        ) by {
            if i < i0 {
                let w = choose|w: int| 0 <= w < pa.len() && pa[w] == (i, j);
                assert(ps[w] == pa[w]);
            } else {
                let w = choose|w: int| 0 <= w < pb.len() && pb[w] == (i, j);
                assert(ps[pa.len() + w] == pb[w]);
            }
        }
    }
}

/// The graph's edges are exactly the pair outcomes, in row-major order of their pairs:
/// a list of pairs lines up with the edges entry by entry, each pair `(i, j)` with
/// `i != j` having an outcome whose strength bits and lag its edge from `names[i]` to
/// `names[j]` carries; the pairs are in row-major order, so no pair gives two edges; and
/// every pair with an outcome is listed.
pub proof fn law_selection_lists_the_picks_in_order(
    names: Seq<Seq<char>>,
    picks: Seq<Seq<Option<(usize, u64)>>>,
)
    ensures
        exists|ps: Seq<(int, int)>|
            #[trigger] lists_picks_in_order(
                names,
                picks,
                names.len() as int,
                selected_edges(names, picks, names.len()),
                ps,
            ),
{
    lemma_selected_pairs(names, picks, names.len());
    let ps = selected_pairs(picks, names.len(), names.len());
    assert(lists_picks_in_order(
        names,
        picks,
        names.len() as int,
        selected_edges(names, picks, names.len()),
        ps,
    ));
}

impl DependencyGraph {
    /// Build the dependency graph of the series `names` from the outcome of their pairwise
    /// comparison: `picks[i][j]` holds the lag and the strength bits of the edge from
    /// `names[i]` to `names[j]` where that pair correlates strongly enough, and `None` where
    /// it does not. A series is not compared with itself. The nodes are the names in the
    /// order of Rust strings.
    pub fn from_selection(names: &Vec<String>, picks: &Vec<Vec<Option<(usize, u64)>>>) -> (g:
        Self)
        requires
            picks.len() == names.len(),
            forall|i: int| 0 <= i < picks.len() ==> (#[trigger] picks@[i]).len() == names.len(),
        ensures
            edge_views(g.edges@) == selected_edges(
                names_of(names@),
                rows_of(picks@),
                names.len() as nat,
            ),
            names_of(g.nodes@).to_multiset() == names_of(names@).to_multiset(),
            names_sorted(names_of(g.nodes@)),
            exists|ps: Seq<(int, int)>|
                #[trigger] lists_picks_in_order(
                    names_of(names@),
                    rows_of(picks@),
                    names.len() as int,
                    edge_views(g.edges@),
                    ps,
                ),
            forall|t: int|
                0 <= t < g.edges.len() ==> from_some_pick(
                    names_of(names@),
                    rows_of(picks@),
                    0,
                    names.len() as int,
                    names.len() as int,
                    #[trigger] edge_views(g.edges@)[t],
                ),
            forall|i: int, j: int|
                0 <= i < names.len() && 0 <= j < names.len() && i != j
                    && #[trigger] rows_of(picks@)[i][j] is Some ==> edge_views(g.edges@).contains(
                    pick_edge(names_of(names@), rows_of(picks@), i, j),
                ),
    {
        let n = names.len();
        let ghost nm = names_of(names@);
        let ghost pk = rows_of(picks@);
        let mut edges: Vec<DependencyEdge> = Vec::new();
        assert(edge_views(edges@) =~= selected_edges(nm, pk, 0));
        for i in 0..n
            invariant
                n == names.len(),
                nm == names_of(names@),
                pk == rows_of(picks@),
                picks.len() == n,
                forall|r: int| 0 <= r < picks.len() ==> (#[trigger] picks@[r]).len() == n,
                edge_views(edges@) == selected_edges(nm, pk, i as nat),
        {
            assert(edge_views(edges@) =~= selected_edges(nm, pk, i as nat) + row_edges(
                nm,
                pk,
                i as int,
                0,
            ));
            for j in 0..n
                invariant
                    n == names.len(),
                    nm == names_of(names@),
                    pk == rows_of(picks@),
                    picks.len() == n,
                    i < n,
                    forall|r: int| 0 <= r < picks.len() ==> (#[trigger] picks@[r]).len() == n,
                    edge_views(edges@) == selected_edges(nm, pk, i as nat) + row_edges(
                        nm,
                        pk,
                        i as int,
                        j as nat,
                    ),
            {
                let ghost before = edges@;
                let row = &picks[i];
                assert(pk[i as int] == row@);
                if i != j {
                    match row[j] {
                        Some((lag, bits)) => {
                            let e = DependencyEdge {
                                from: names[i].clone(),
                                to: names[j].clone(),
                                strength_bits: bits,
                                lag,
                            };
                            edges.push(e);
                            assert(edge_views(edges@) =~= edge_views(before).push(edge_view(e)));
                        },
                        None => {},
                    }
                }
            }
        }
        let nodes = sorted_names(names);
        proof {
            law_selection_edges_are_the_picks(nm, pk);
            law_selection_lists_the_picks_in_order(nm, pk);
        }
        DependencyGraph { edges, nodes }
    }
}

} // verus!
