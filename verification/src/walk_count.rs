use vstd::prelude::*;
use crate::graph::{DependencyEdge, DependencyGraph, outgoing, is_sink, lemma_outgoing};
use crate::paths::{walks, walks_along};

verus! {

/// The indices of the edges that leave `node`, in increasing order.
pub open spec fn out_idx(edges: Seq<DependencyEdge>, node: Seq<char>) -> Seq<int>
    decreases edges.len(),
{
    if edges.len() == 0 {
        Seq::empty()
    } else {
        let rest = out_idx(edges.drop_last(), node);
        if edges.last().from@ == node {
            rest.push(edges.len() - 1)
        } else {
            rest
        }
    }
}

pub proof fn lemma_out_idx(edges: Seq<DependencyEdge>, node: Seq<char>)
    ensures
        out_idx(edges, node).map_values(|k: int| edges[k]) =~= outgoing(edges, node),
        out_idx(edges, node).len() <= edges.len(),
        forall|i: int|
            0 <= i < out_idx(edges, node).len() ==> 0 <= #[trigger] out_idx(edges, node)[i]
                < edges.len() && edges[out_idx(edges, node)[i]].from@ == node,
        forall|i: int, j: int|
            0 <= i < j < out_idx(edges, node).len() ==> out_idx(edges, node)[i] < out_idx(
                edges,
                node,
            )[j],
        forall|k: int|
            0 <= k < edges.len() && #[trigger] edges[k].from@ == node ==> out_idx(
                edges,
                node,
            ).contains(k),
    decreases edges.len(),
{
    if edges.len() > 0 {
        let init = edges.drop_last();
        lemma_out_idx(init, node);
        let o = out_idx(edges, node);
        let r = out_idx(init, node);
        assert forall|i: int| 0 <= i < r.len() implies edges[r[i]] == init[r[i]] by {}
        assert forall|k: int| 0 <= k < edges.len() && #[trigger] edges[k].from@ == node implies o.contains(k) by {
            if k < edges.len() - 1 {
                assert(init[k] == edges[k]);
                let w = choose|w: int| 0 <= w < r.len() && r[w] == k;
                assert(o[w] == k);
            } else {
                assert(o[o.len() - 1] == k);
            }
        }
    }
}

/// The name that a walk of edges `ks` from `s` ends at.
pub open spec fn walk_end(edges: Seq<DependencyEdge>, s: Seq<char>, ks: Seq<int>) -> Seq<char> {
    if ks.len() == 0 {
        s
    } else {
        edges[ks.last()].to@
    }
}

/// The `i + 1`-th edge of `ks` leaves the name that the `i`-th enters.
pub open spec fn follows(edges: Seq<DependencyEdge>, ks: Seq<int>, i: int) -> bool {
    edges[ks[i + 1]].from@ == edges[ks[i]].to@
}

/// `ks` lists, by index, the edges of a walk from `s` of at most `rem` hops that stops
/// early only at a name that no edge leaves.
pub open spec fn is_edge_walk(edges: Seq<DependencyEdge>, s: Seq<char>, rem: nat, ks: Seq<int>) -> bool {
    &&& ks.len() <= rem
    &&& forall|i: int| 0 <= i < ks.len() ==> 0 <= #[trigger] ks[i] < edges.len()
    &&& ks.len() > 0 ==> edges[ks[0]].from@ == s
    &&& forall|i: int| 0 <= i < ks.len() - 1 ==> #[trigger] follows(edges, ks, i)
    &&& ks.len() == rem || is_sink(edges, walk_end(edges, s, ks))
}

/// `a` comes before `b` in the order in which a search that follows the edges in graph
/// order meets walks: at the first edge where the two differ, `a` takes the edge of
/// smaller index.
pub open spec fn edge_seq_before(a: Seq<int>, b: Seq<int>) -> bool {
    exists|i: int|
        #![trigger a[i], b[i]]
        0 <= i < a.len() && i < b.len() && a.take(i) =~= b.take(i) && a[i] < b[i]
}

/// The names that the edges of `ks` enter, one after the other.
pub open spec fn names_along(edges: Seq<DependencyEdge>, ks: Seq<int>) -> Seq<Seq<char>> {
    ks.map_values(|k: int| edges[k].to@)
}

/// `E` names, entry by entry, the edges of the walks in `w`: each walk of `w` is
/// `node` followed by the names its edges enter, each entry of `E` is a maximal walk of
/// at least one and at most `depth` edges from `node`, the entries come in the order in
/// which a search that follows the edges in graph order meets them (so no two are the
/// same walk), and every such walk is an entry of `E`.
pub open spec fn reports_each_walk_once(
    edges: Seq<DependencyEdge>,
    node: Seq<char>,
    depth: nat,
    w: Seq<Seq<Seq<char>>>,
    e: Seq<Seq<int>>,
) -> bool {
    &&& e.len() == w.len()
    &&& forall|t: int|
        0 <= t < w.len() ==> w[t] == seq![node] + names_along(edges, #[trigger] e[t])
            && is_edge_walk(edges, node, depth, e[t]) && e[t].len() > 0
    &&& forall|t1: int, t2: int|
        #![trigger e[t1], e[t2]]
        0 <= t1 < t2 < e.len() ==> e[t1] != e[t2] && edge_seq_before(e[t1], e[t2])
    &&& forall|ks: Seq<int>|
        #[trigger] is_edge_walk(edges, node, depth, ks) && ks.len() > 0 ==> e.contains(ks)
}

/// The edge walks behind `walks(edges, path, rem)`, entry by entry.
pub open spec fn walk_edges(edges: Seq<DependencyEdge>, path: Seq<Seq<char>>, rem: nat) -> Seq<
    Seq<int>,
>
    decreases rem, edges.len() + 1,
{
    let out = out_idx(edges, path.last());
    if rem == 0 || out.len() == 0 {
        if path.len() > 1 {
            seq![Seq::empty()]
        } else {
            Seq::empty()
        }
    } else {
        proof {
            lemma_out_idx(edges, path.last());
        }
        walk_edges_along(edges, path, rem, out)
    }
}

pub open spec fn walk_edges_along(
    edges: Seq<DependencyEdge>,
    path: Seq<Seq<char>>,
    rem: nat,
    out: Seq<int>,
) -> Seq<Seq<int>>
    decreases rem, out.len(),
{
    if rem == 0 || out.len() == 0 {
        Seq::empty()
    } else {
        let k = out.last();
        walk_edges_along(edges, path, rem, out.drop_last()) + walk_edges(
            edges,
            path.push(edges[k].to@),
            (rem - 1) as nat,
        ).map_values(|ks: Seq<int>| seq![k] + ks)
    }
}

/// What the walk lemmas establish of `w` and `e` for walks that extend `path` from
/// its last name `s`.
pub open spec fn walks_match(
    edges: Seq<DependencyEdge>,
    path: Seq<Seq<char>>,
    rem: nat,
    w: Seq<Seq<Seq<char>>>,
    e: Seq<Seq<int>>,
) -> bool {
    &&& e.len() == w.len()
    &&& forall|t: int|
        0 <= t < w.len() ==> w[t] == path + names_along(edges, #[trigger] e[t])
            && is_edge_walk(edges, path.last(), rem, e[t]) && (e[t].len() > 0 || path.len() > 1)
    &&& forall|t1: int, t2: int|
        #![trigger e[t1], e[t2]]
        0 <= t1 < t2 < e.len() ==> e[t1] != e[t2] && edge_seq_before(e[t1], e[t2])
}

proof fn lemma_walk_edges(edges: Seq<DependencyEdge>, path: Seq<Seq<char>>, rem: nat)
    requires
        path.len() >= 1,
    ensures
        walks_match(edges, path, rem, walks(edges, path, rem), walk_edges(edges, path, rem)),
        forall|ks: Seq<int>|
            #[trigger] is_edge_walk(edges, path.last(), rem, ks) && (ks.len() > 0 || path.len() > 1)
                ==> walk_edges(edges, path, rem).contains(ks),
    decreases rem, edges.len() + 1,
{
    let s = path.last();
    let out = out_idx(edges, s);
    lemma_out_idx(edges, s);
    lemma_outgoing(edges, s);
    let w = walks(edges, path, rem);
    let e = walk_edges(edges, path, rem);
    if rem == 0 || out.len() == 0 {
        assert(outgoing(edges, s).len() == out.len());
        if path.len() > 1 {
            let z = Seq::<int>::empty();
            assert(e[0] == z);
            assert(path + names_along(edges, z) =~= path);
            assert(is_edge_walk(edges, s, rem, z));
        }
        assert forall|ks: Seq<int>|
            #[trigger] is_edge_walk(edges, s, rem, ks) && (ks.len() > 0 || path.len() > 1)
                implies e.contains(ks) by {
            if ks.len() > 0 {
                assert(0 <= ks[0] < edges.len());
                if rem > 0 {
                    assert(edges[ks[0]].from@ == s);
                    assert(out.contains(ks[0]));
                }
            }
            assert(ks =~= Seq::<int>::empty());
            assert(e[0] == ks);
        }
    } else {
        lemma_walk_edges_along(edges, path, rem, out);
        assert forall|ks: Seq<int>|
            #[trigger] is_edge_walk(edges, s, rem, ks) && (ks.len() > 0 || path.len() > 1)
                implies e.contains(ks) by {
            if ks.len() == 0 {
                assert(is_sink(edges, s));
                assert(edges[out[0]].from@ == s);
            }
            assert(0 <= ks[0] < edges.len());
            assert(out.contains(ks[0]));
        }
    }
}

proof fn lemma_walk_edges_along(
    edges: Seq<DependencyEdge>,
    path: Seq<Seq<char>>,
    rem: nat,
    out: Seq<int>,
)
    requires
        path.len() >= 1,
        rem > 0,
        forall|i: int|
            0 <= i < out.len() ==> 0 <= #[trigger] out[i] < edges.len() && edges[out[i]].from@
                == path.last(),
        forall|i: int, j: int| 0 <= i < j < out.len() ==> out[i] < out[j],
    ensures
        walks_match(
            edges,
            path,
            rem,
            walks_along(edges, path, rem, out.map_values(|k: int| edges[k])),
            walk_edges_along(edges, path, rem, out),
        ),
        forall|t: int|
            0 <= t < walk_edges_along(edges, path, rem, out).len() ==> {
                let ks = #[trigger] walk_edges_along(edges, path, rem, out)[t];
                ks.len() > 0 && out.contains(ks[0])
            },
        forall|ks: Seq<int>|
            #[trigger] is_edge_walk(edges, path.last(), rem, ks) && ks.len() > 0 && out.contains(
                ks[0],
            ) ==> walk_edges_along(edges, path, rem, out).contains(ks),
    decreases rem, out.len(),
{
    let s = path.last();
    let outv = out.map_values(|k: int| edges[k]);
    if out.len() > 0 {
        let k = out.last();
        let x = edges[k].to@;
        let init = out.drop_last();
        assert(outv.drop_last() =~= init.map_values(|k: int| edges[k]));
        assert(outv.last() == edges[k]);
        lemma_walk_edges_along(edges, path, rem, init);
        let next = path.push(x);
        assert(next.last() == x);
        lemma_walk_edges(edges, next, (rem - 1) as nat);
        let wl = walks_along(edges, path, rem, init.map_values(|k: int| edges[k]));
        let el = walk_edges_along(edges, path, rem, init);
        let wr = walks(edges, next, (rem - 1) as nat);
        let er = walk_edges(edges, next, (rem - 1) as nat);
        let erp = er.map_values(|ks: Seq<int>| seq![k] + ks);
        let w = walks_along(edges, path, rem, outv);
        let e = walk_edges_along(edges, path, rem, out);
        assert(w == wl + wr);
        assert(e == el + erp);
        // every entry of the right part starts with `k` and is a walk
        assert forall|u: int| 0 <= u < erp.len() implies {
            let ks = #[trigger] erp[u];
            &&& ks.len() > 0
            &&& ks[0] == k
            &&& ks.drop_first() == er[u]
            &&& is_edge_walk(edges, s, rem, ks)
            &&& wr[u] == path + names_along(edges, ks)
        } by {
            let r = er[u];
            let ks = erp[u];
            assert(ks == seq![k] + r);
            assert(ks.drop_first() =~= r);
            assert(is_edge_walk(edges, x, (rem - 1) as nat, r));
            assert forall|i: int| 0 <= i < ks.len() implies 0 <= #[trigger] ks[i] < edges.len() by {
                if i > 0 {
                    assert(ks[i] == r[i - 1]);
                }
            }
            assert forall|i: int| 0 <= i < ks.len() - 1 implies #[trigger] follows(edges, ks, i) by {
                if i == 0 {
                    assert(ks[1] == r[0]);
                } else {
                    assert(follows(edges, r, i - 1));
                    assert(ks[i] == r[i - 1] && ks[i + 1] == r[i]);
                }
            }
            if r.len() > 0 {
                assert(ks.last() == r.last());
            }
            assert(walk_end(edges, s, ks) == walk_end(edges, x, r));
            assert(names_along(edges, ks) =~= seq![x] + names_along(edges, r));
            assert(path + names_along(edges, ks) =~= next + names_along(edges, r));
        }
        assert forall|t: int| 0 <= t < w.len() implies w[t] == path + names_along(
            edges,
            #[trigger] e[t],
        ) && is_edge_walk(edges, s, rem, e[t]) && (e[t].len() > 0 || path.len() > 1) by {
            if t < wl.len() {
                assert(w[t] == wl[t] && e[t] == el[t]);
            } else {
                assert(w[t] == wr[t - wl.len()] && e[t] == erp[t - wl.len()]);
            }
        }
        assert forall|t: int| 0 <= t < e.len() implies {
            let ks = #[trigger] e[t];
            ks.len() > 0 && out.contains(ks[0])
        } by {
            if t < el.len() {
                assert(e[t] == el[t]);
                let ks = el[t];
                let w0 = choose|w0: int| 0 <= w0 < init.len() && init[w0] == ks[0];
                assert(out[w0] == ks[0]);
            } else {
                assert(e[t] == erp[t - el.len()]);
                assert(out[out.len() - 1] == k);
            }
        }
        assert forall|t1: int, t2: int|
            #![trigger e[t1], e[t2]]
            0 <= t1 < t2 < e.len() implies e[t1] != e[t2] && edge_seq_before(e[t1], e[t2]) by {
            if t2 < el.len() {
                assert(e[t1] == el[t1] && e[t2] == el[t2]);
            } else if t1 >= el.len() {
                let u1 = t1 - el.len();
                let u2 = t2 - el.len();
                assert(e[t1] == erp[u1] && e[t2] == erp[u2]);
                assert(edge_seq_before(er[u1], er[u2]));
                let a = er[u1];
                let b = er[u2];
                let i = choose|i: int|
                    #![trigger a[i], b[i]]
                    0 <= i < a.len() && i < b.len() && a.take(i) =~= b.take(i) && a[i] < b[i];
                let pa = seq![k] + a;
                let pb = seq![k] + b;
                assert(pa == e[t1] && pb == e[t2]);
                assert(pa.take(i + 1) =~= pb.take(i + 1)) by {
                    assert forall|q: int| 0 <= q < i + 1 implies pa[q] == pb[q] by {
                        if q > 0 {
                            assert(a.take(i)[q - 1] == b.take(i)[q - 1]);
                        }
                    }
                }
                assert(pa[i + 1] == a[i] && pb[i + 1] == b[i]);
                assert(edge_seq_before(pa, pb));
            } else {
                assert(e[t1] == el[t1] && e[t2] == erp[t2 - el.len()]);
                let ks = el[t1];
                let w0 = choose|w0: int| 0 <= w0 < init.len() && init[w0] == ks[0];
                assert(out[w0] < out[out.len() - 1]);
                let kb = e[t2];
                assert(kb[0] == k);
                assert(ks.take(0) =~= kb.take(0));
                assert(ks[0] < kb[0]);
                assert(edge_seq_before(ks, kb));
            }
            let a = e[t1];
            let b = e[t2];
            assert(edge_seq_before(a, b));
            let i = choose|i: int|
                #![trigger a[i], b[i]]
                0 <= i < a.len() && i < b.len() && a.take(i) =~= b.take(i) && a[i] < b[i];
            if a == b {
                assert(a[i] == b[i]);
            }
        }
        assert forall|ks: Seq<int>|
            #[trigger] is_edge_walk(edges, s, rem, ks) && ks.len() > 0 && out.contains(ks[0])
                implies e.contains(ks) by {
            if ks[0] == k {
                let r = ks.drop_first();
                assert forall|i: int| 0 <= i < r.len() implies 0 <= #[trigger] r[i] < edges.len() by {
                    assert(r[i] == ks[i + 1]);
                }
                assert forall|i: int| 0 <= i < r.len() - 1 implies #[trigger] follows(edges, r, i) by {
                    assert(follows(edges, ks, i + 1));
                    assert(r[i] == ks[i + 1] && r[i + 1] == ks[i + 2]);
                }
                if r.len() > 0 {
                    assert(follows(edges, ks, 0));
                    assert(r[0] == ks[1]);
                    assert(r.last() == ks.last());
                }
                assert(walk_end(edges, x, r) == walk_end(edges, s, ks));
                assert(is_edge_walk(edges, x, (rem - 1) as nat, r));
                assert(er.contains(r));
                let u = choose|u: int| 0 <= u < er.len() && er[u] == r;
                assert(erp[u] == seq![k] + r);
                assert(seq![k] + r =~= ks);
                assert(e[el.len() + u] == ks);
            } else {
                let w0 = choose|w0: int| 0 <= w0 < out.len() && out[w0] == ks[0];
                assert(w0 < out.len() - 1);
                assert(init[w0] == ks[0]);
                assert(init.contains(ks[0]));
                assert(el.contains(ks));
                let u = choose|u: int| 0 <= u < el.len() && el[u] == ks;
                assert(e[u] == ks);
            }
        }
    }
}

/// `strongest_paths(node, depth)` reports each maximal walk of edges from `node` exactly
/// once: for `depth > 0` its result lines up, entry by entry, with a list of distinct edge
/// walks of at least one and at most `depth` edges from `node` that stop early only at a
/// name that no edge leaves, and that list holds every such walk. Parallel edges thus give
/// one path each, and no walk is reported twice.
pub proof fn law_strongest_paths_report_each_edge_walk_once(
    g: DependencyGraph,
    node: Seq<char>,
    depth: nat,
)
    requires
        depth > 0,
    ensures
        exists|e: Seq<Seq<int>>|
            #[trigger] reports_each_walk_once(
                g.edges@,
                node,
                depth,
                walks(g.edges@, seq![node], depth),
                e,
            ),
{
    let path = seq![node];
    lemma_walk_edges(g.edges@, path, depth);
    let e = walk_edges(g.edges@, path, depth);
    assert(path.last() == node);
    assert(reports_each_walk_once(g.edges@, node, depth, walks(g.edges@, path, depth), e));
}

} // verus!
