use vstd::prelude::*;
use crate::walk_count::{reports_each_walk_once, law_strongest_paths_report_each_edge_walk_once};
use crate::graph::{
    DependencyEdge, DependencyGraph, names_of, outgoing, linked, is_sink, lemma_outgoing,
    copy_names, outgoing_indices,
};

verus! {

/// The paths of `paths` by their names.
pub open spec fn paths_of(paths: Seq<Vec<String>>) -> Seq<Seq<Seq<char>>> {
    paths.map_values(|p: Vec<String>| names_of(p@))
}

/// The walks that extend `path` by at most `remaining` hops, in the order of a
/// depth-first search that follows the edges in graph order. A walk stops when
/// it has used up its hops or reaches a node without outgoing edges; the walk
/// that consists of a single node is not reported.
pub open spec fn walks(edges: Seq<DependencyEdge>, path: Seq<Seq<char>>, remaining: nat) -> Seq<
    Seq<Seq<char>>,
>
    decreases remaining, edges.len() + 1,
{
    let out = outgoing(edges, path.last());
    if remaining == 0 || out.len() == 0 {
        if path.len() > 1 {
            seq![path]
        } else {
            Seq::empty()
        }
    } else {
        proof {
            lemma_outgoing(edges, path.last());
        }
        walks_along(edges, path, remaining, out)
    }
}

/// The walks that leave `path` through the edges `out`, one edge after the other.
pub open spec fn walks_along(
    edges: Seq<DependencyEdge>,
    path: Seq<Seq<char>>,
    remaining: nat,
    out: Seq<DependencyEdge>,
) -> Seq<Seq<Seq<char>>>
    decreases remaining, out.len(),
{
    if remaining == 0 || out.len() == 0 {
        Seq::empty()
    } else {
        walks_along(edges, path, remaining, out.drop_last()) + walks(
            edges,
            path.push(out.last().to@),
            (remaining - 1) as nat,
        )
    }
}


/// An edge of the graph joins the `i`-th name of `p` to the next one.
pub open spec fn step_linked(edges: Seq<DependencyEdge>, p: Seq<Seq<char>>, i: int) -> bool {
    linked(edges, p[i], p[i + 1])
}

/// `p` extends `path` by at least one and at most `remaining` hops along edges of
/// the graph, and stops only when its hops are used up or at a node that no edge leaves.
pub open spec fn extends_maximally(
    edges: Seq<DependencyEdge>,
    path: Seq<Seq<char>>,
    remaining: nat,
    p: Seq<Seq<char>>,
) -> bool {
    &&& p.len() > 1
    &&& path.len() <= p.len() <= path.len() + remaining
    &&& p.subrange(0, path.len() as int) == path
    &&& forall|i: int| path.len() - 1 <= i < p.len() - 1 ==> #[trigger] step_linked(edges, p, i)
    &&& p.len() == path.len() + remaining || is_sink(edges, p.last())
}

proof fn lemma_walks_sound(
    edges: Seq<DependencyEdge>,
    path: Seq<Seq<char>>,
    remaining: nat,
    p: Seq<Seq<char>>,
)
    requires
        path.len() >= 1,
        walks(edges, path, remaining).contains(p),
    ensures
        extends_maximally(edges, path, remaining, p),
    decreases remaining, edges.len() + 1,
{
    let out = outgoing(edges, path.last());
    lemma_outgoing(edges, path.last());
    if remaining == 0 || out.len() == 0 {
        assert(p == path);
        assert(p.subrange(0, path.len() as int) =~= path);
    } else {
        lemma_walks_along_sound(edges, path, remaining, out, p);
    }
}

proof fn lemma_walks_along_sound(
    edges: Seq<DependencyEdge>,
    path: Seq<Seq<char>>,
    remaining: nat,
    out: Seq<DependencyEdge>,
    p: Seq<Seq<char>>,
)
    requires
        path.len() >= 1,
        out.len() <= edges.len(),
        forall|j: int|
            0 <= j < out.len() ==> edges.contains(#[trigger] out[j]) && out[j].from@ == path.last(),
        walks_along(edges, path, remaining, out).contains(p),
    ensures
        extends_maximally(edges, path, remaining, p),
    decreases remaining, out.len(),
{
    if remaining > 0 && out.len() > 0 {
        let init = out.drop_last();
        let e = out.last();
        let left = walks_along(edges, path, remaining, init);
        let next = path.push(e.to@);
        let right = walks(edges, next, (remaining - 1) as nat);
        let w = choose|w: int| 0 <= w < (left + right).len() && (left + right)[w] == p;
        if w < left.len() {
            assert(left[w] == p);
            assert forall|j: int| 0 <= j < init.len() implies edges.contains(#[trigger] init[j])
                && init[j].from@ == path.last() by {
                assert(init[j] == out[j]);
            }
            lemma_walks_along_sound(edges, path, remaining, init, p);
        } else {
            assert(right[w - left.len()] == p);
            lemma_walks_sound(edges, next, (remaining - 1) as nat, p);
            assert(out[out.len() - 1] == e);
            let k = choose|k: int| 0 <= k < edges.len() && edges[k] == e;
            let i0 = path.len() - 1;
            assert(p.subrange(0, path.len() as int) =~= p.subrange(0, next.len() as int).subrange(
                0,
                path.len() as int,
            ));
            assert(next.subrange(0, path.len() as int) =~= path);
            assert(p[i0] == next[i0]);
            assert(p[i0 + 1] == next[i0 + 1]);
            assert(step_linked(edges, p, i0)) by {
                assert(edges[k].from@ == p[i0] && edges[k].to@ == p[i0 + 1]);
            }
            assert forall|i: int| path.len() - 1 <= i < p.len() - 1 implies #[trigger] step_linked(
                edges,
                p,
                i,
            ) by {
                if i != i0 {
                    assert(next.len() - 1 <= i);
                }
            }
        }
    }
}

proof fn lemma_walks_along_has(
    edges: Seq<DependencyEdge>,
    path: Seq<Seq<char>>,
    remaining: nat,
    out: Seq<DependencyEdge>,
    j: int,
    p: Seq<Seq<char>>,
)
    requires
        remaining > 0,
        0 <= j < out.len(),
        walks(edges, path.push(out[j].to@), (remaining - 1) as nat).contains(p),
    ensures
        walks_along(edges, path, remaining, out).contains(p),
    decreases out.len(),
{
    let init = out.drop_last();
    let left = walks_along(edges, path, remaining, init);
    let right = walks(edges, path.push(out.last().to@), (remaining - 1) as nat);
    if j == out.len() - 1 {
        let w = choose|w: int| 0 <= w < right.len() && right[w] == p;
        assert((left + right)[left.len() + w] == p);
    } else {
        assert(init[j] == out[j]);
        lemma_walks_along_has(edges, path, remaining, init, j, p);
        let w = choose|w: int| 0 <= w < left.len() && left[w] == p;
        assert((left + right)[w] == p);
    }
}

proof fn lemma_walks_complete(
    edges: Seq<DependencyEdge>,
    path: Seq<Seq<char>>,
    remaining: nat,
    p: Seq<Seq<char>>,
)
    requires
        path.len() >= 1,
        extends_maximally(edges, path, remaining, p),
    ensures
        walks(edges, path, remaining).contains(p),
    decreases remaining,
{
    let out = outgoing(edges, path.last());
    lemma_outgoing(edges, path.last());
    if p.len() == path.len() {
        assert(p =~= path);
        if remaining > 0 {
            assert(is_sink(edges, path.last()));
        }
        assert(walks(edges, path, remaining) == seq![path]);
        assert(seq![path][0] == p);
    } else {
        let i0 = path.len() - 1;
        assert(step_linked(edges, p, i0));
        let k = choose|k: int|
            0 <= k < edges.len() && #[trigger] edges[k].from@ == p[i0] && edges[k].to@ == p[i0 + 1];
        assert(p[i0] == path.last()) by {
            assert(p.subrange(0, path.len() as int)[i0] == p[i0]);
        }
        assert(out.contains(edges[k]));
        let j = choose|j: int| 0 <= j < out.len() && out[j] == edges[k];
        let next = path.push(edges[k].to@);
        assert(p.subrange(0, next.len() as int) =~= next) by {
            assert forall|i: int| 0 <= i < next.len() implies p.subrange(0, next.len() as int)[i]
                == next[i] by {
                if i < path.len() {
                    assert(p.subrange(0, path.len() as int)[i] == p[i]);
                }
            }
        }
        assert forall|i: int| next.len() - 1 <= i < p.len() - 1 implies #[trigger] step_linked(
            edges,
            p,
            i,
        ) by {
            assert(path.len() - 1 <= i);
        }
        lemma_walks_complete(edges, next, (remaining - 1) as nat, p);
        lemma_walks_along_has(edges, path, remaining, out, j, p);
    }
}

/// Every path that `strongest_paths(node, depth)` reports (for `depth > 0`) starts at
/// `node`, takes between one and `depth` hops along edges of the graph, and stops before
/// `depth` hops only at a node that no edge leaves.
pub proof fn law_strongest_paths_are_maximal_walks(
    g: DependencyGraph,
    node: Seq<char>,
    depth: nat,
    p: Seq<Seq<char>>,
)
    requires
        depth > 0,
        walks(g.edges@, seq![node], depth).contains(p),
    ensures
        p[0] == node,
        2 <= p.len() <= depth + 1,
        forall|i: int| 0 <= i < p.len() - 1 ==> #[trigger] step_linked(g.edges@, p, i),
        p.len() == depth + 1 || is_sink(g.edges@, p.last()),
{
    lemma_walks_sound(g.edges@, seq![node], depth, p);
    assert(p.subrange(0, 1)[0] == p[0]);
}

/// Conversely, `strongest_paths(node, depth)` reports every walk from `node` of between one
/// and `depth` hops that has used up its hops or has reached a node that no edge leaves.
pub proof fn law_strongest_paths_complete(
    g: DependencyGraph,
    node: Seq<char>,
    depth: nat,
    p: Seq<Seq<char>>,
)
    requires
        2 <= p.len() <= depth + 1,
        p[0] == node,
        forall|i: int| 0 <= i < p.len() - 1 ==> #[trigger] step_linked(g.edges@, p, i),
        p.len() == depth + 1 || is_sink(g.edges@, p.last()),
    ensures
        walks(g.edges@, seq![node], depth).contains(p),
{
    assert(p.subrange(0, 1) =~= seq![node]);
    lemma_walks_complete(g.edges@, seq![node], depth, p);
}

/// `p` is a walk from `node` of between one and `depth` hops along edges of the graph
/// that stops before `depth` hops only at a node that no edge leaves.
pub open spec fn maximal_walk_from(
    edges: Seq<DependencyEdge>,
    node: Seq<char>,
    depth: nat,
    p: Seq<Seq<char>>,
) -> bool {
    &&& 2 <= p.len() <= depth + 1
    &&& p[0] == node
    &&& forall|i: int| 0 <= i < p.len() - 1 ==> #[trigger] step_linked(edges, p, i)
    &&& p.len() == depth + 1 || is_sink(edges, p.last())
}

impl DependencyGraph {
    /// Every maximal walk from `node` of at most `depth` hops, in depth-first order that
    /// follows the edges in graph order: a walk ends when it has taken `depth` hops or
    /// reaches a node that no edge leaves. The strength of the edges plays no part.
    pub fn strongest_paths(&self, node: &str, depth: usize) -> (paths: Vec<Vec<String>>)
        ensures
            paths_of(paths@) == if depth == 0 {
                Seq::empty()
            } else {
                walks(self.edges@, seq![node@], depth as nat)
            },
            depth > 0 ==> exists|e: Seq<Seq<int>>|
                #[trigger] reports_each_walk_once(
                    self.edges@,
                    node@,
                    depth as nat,
                    paths_of(paths@),
                    e,
                ),
            forall|p: Seq<Seq<char>>|
                paths_of(paths@).contains(p) <==> depth > 0 && #[trigger] maximal_walk_from(
                    self.edges@,
                    node@,
                    depth as nat,
                    p,
                ),
    {
        if depth == 0 {
            let none: Vec<Vec<String>> = Vec::new();
            assert(paths_of(none@) =~= Seq::<Seq<Seq<char>>>::empty());
            return none;
        }
        let mut paths: Vec<Vec<String>> = Vec::new();
        let mut path: Vec<String> = Vec::new();
        path.push(node.to_owned());
        assert(names_of(path@) == seq![node@]);
        assert(paths_of(paths@) == Seq::<Seq<Seq<char>>>::empty());
        self.dfs_paths(depth, &mut path, &mut paths);
        assert(paths_of(paths@) == Seq::<Seq<Seq<char>>>::empty() + walks(
            self.edges@,
            seq![node@],
            depth as nat,
        ));
        proof {
            law_strongest_paths_report_each_edge_walk_once(*self, node@, depth as nat);
        }
        assert forall|p: Seq<Seq<char>>|
            paths_of(paths@).contains(p) <==> depth > 0 && #[trigger] maximal_walk_from(
                self.edges@,
                node@,
                depth as nat,
                p,
            ) by {
            if paths_of(paths@).contains(p) {
                law_strongest_paths_are_maximal_walks(*self, node@, depth as nat, p);
            }
            if maximal_walk_from(self.edges@, node@, depth as nat, p) {
                law_strongest_paths_complete(*self, node@, depth as nat, p);
            }
        }
        paths
    }

    fn push_if_walk(path: &Vec<String>, paths: &mut Vec<Vec<String>>)
        ensures
            paths_of(final(paths)@) == paths_of(old(paths)@) + if path.len() > 1 {
                seq![names_of(path@)]
            } else {
                Seq::empty()
            },
    {
        let ghost before = paths@;
        if path.len() > 1 {
            let copy = copy_names(path);
            paths.push(copy);
            assert(paths_of(paths@) == paths_of(before).push(names_of(path@)));
        } else {
            assert(paths_of(paths@) == paths_of(before) + Seq::<Seq<Seq<char>>>::empty());
        }
    }

    fn dfs_paths(&self, remaining: usize, path: &mut Vec<String>, paths: &mut Vec<Vec<String>>)
        requires
            old(path).len() >= 1,
        ensures
            names_of(final(path)@) == names_of(old(path)@),
            paths_of(final(paths)@) == paths_of(old(paths)@) + walks(
                self.edges@,
                names_of(old(path)@),
                remaining as nat,
            ),
        decreases remaining,
    {
        let ghost p0 = names_of(path@);
        let ghost ps0 = paths_of(paths@);
        let current = path[path.len() - 1].clone();
        assert(current@ == p0.last());
        let out = outgoing_indices(&self.edges, &current);
        let ghost out_edges = out@.map_values(|k: usize| self.edges@[k as int]);
        if remaining == 0 || out.len() == 0 {
            Self::push_if_walk(path, paths);
            return;
        }
        let n = out.len();
        for j in 0..n
            invariant
                n == out.len(),
                remaining > 0,
                path@.len() >= 1,
                forall|i: int| 0 <= i < out.len() ==> out@[i] < self.edges.len(),
                out_edges == out@.map_values(|k: usize| self.edges@[k as int]),
                out_edges == outgoing(self.edges@, p0.last()),
                names_of(path@) == p0,
                paths_of(paths@) == ps0 + walks_along(
                    self.edges@,
                    p0,
                    remaining as nat,
                    out_edges.take(j as int),
                ),
        {
            let e = &self.edges[out[j]];
            assert(*e == out_edges[j as int]);
            assert(out_edges.take(j + 1).drop_last() == out_edges.take(j as int));
            assert(out_edges.take(j + 1).last() == out_edges[j as int]);
            let ghost before = paths_of(paths@);
            path.push(e.to.clone());
            assert(names_of(path@) == p0.push(e.to@));
            self.dfs_paths(remaining - 1, path, paths);
            let ghost mid = path@;
            path.pop();
            assert(path@ == mid.subrange(0, mid.len() - 1));
            assert(names_of(path@) =~= names_of(mid).subrange(0, mid.len() - 1));
            assert(p0.push(e.to@).subrange(0, p0.len() as int) =~= p0);
            assert(paths_of(paths@) == ps0 + walks_along(
                self.edges@,
                p0,
                remaining as nat,
                out_edges.take(j as int),
            ) + walks(self.edges@, p0.push(e.to@), (remaining - 1) as nat));
        }
        assert(out_edges.take(n as int) == out_edges);
    }
}

} // verus!
