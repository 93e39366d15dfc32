use vstd::prelude::*;

verus! {

/// A directed edge of the dependency graph: the series `from` predicts the
/// series `to`, `lag` steps ahead.
pub struct DependencyEdge {
    pub from: String,
    pub to: String,
    /// The IEEE-754 bit pattern of the signed correlation coefficient.
    pub strength_bits: u64,
    pub lag: usize,
}

/// Graph of the dependencies detected between named streams.
pub struct DependencyGraph {
    pub edges: Vec<DependencyEdge>,
    pub nodes: Vec<String>,
}

/// The names held by a sequence of strings.
pub open spec fn names_of(v: Seq<String>) -> Seq<Seq<char>> {
    v.map_values(|s: String| s@)
}

/// The edges that leave `node`, in the order in which the graph holds them.
pub open spec fn outgoing(edges: Seq<DependencyEdge>, node: Seq<char>) -> Seq<DependencyEdge>
    decreases edges.len(),
{
    if edges.len() == 0 {
        Seq::empty()
    } else {
        let rest = outgoing(edges.drop_last(), node);
        if edges.last().from@ == node {
            rest.push(edges.last())
        } else {
            rest
        }
    }
}

/// Some edge of the graph goes from `a` to `b`.
pub open spec fn linked(edges: Seq<DependencyEdge>, a: Seq<char>, b: Seq<char>) -> bool {
    exists|k: int| 0 <= k < edges.len() && #[trigger] edges[k].from@ == a && edges[k].to@ == b
}

/// No edge of the graph leaves `node`.
pub open spec fn is_sink(edges: Seq<DependencyEdge>, node: Seq<char>) -> bool {
    forall|k: int| 0 <= k < edges.len() ==> #[trigger] edges[k].from@ != node
}

/// Every edge of `outgoing` is an edge of the graph that leaves `node`, and
/// every such edge is in it.
pub proof fn lemma_outgoing(edges: Seq<DependencyEdge>, node: Seq<char>)
    ensures
        outgoing(edges, node).len() <= edges.len(),
        forall|j: int|
            0 <= j < outgoing(edges, node).len() ==> edges.contains(
                #[trigger] outgoing(edges, node)[j],
            ) && outgoing(edges, node)[j].from@ == node,
        forall|k: int|
            0 <= k < edges.len() && #[trigger] edges[k].from@ == node ==> outgoing(
                edges,
                node,
            ).contains(edges[k]),
        outgoing(edges, node).len() == 0 <==> is_sink(edges, node),
    decreases edges.len(),
{
    if edges.len() > 0 {
        let init = edges.drop_last();
        lemma_outgoing(init, node);
        let out = outgoing(edges, node);
        let rest = outgoing(init, node);
        assert forall|j: int| 0 <= j < out.len() implies edges.contains(#[trigger] out[j])
            && out[j].from@ == node by {
            if j < rest.len() {
                assert(out[j] == rest[j]);
                let w = choose|i: int| 0 <= i < init.len() && init[i] == rest[j];
                assert(edges[w] == init[w]);
            } else {
                assert(edges[edges.len() - 1] == edges.last());
            }
        }
        assert forall|k: int| 0 <= k < edges.len() && #[trigger] edges[k].from@ == node implies out.contains(
            edges[k],
        ) by {
            if k < edges.len() - 1 {
                assert(init[k] == edges[k]);
                assert(rest.contains(edges[k]));
                let w = choose|i: int| 0 <= i < rest.len() && rest[i] == edges[k];
                assert(out[w] == rest[w]);
            } else {
                assert(out[out.len() - 1] == edges[k]);
            }
        }
        if is_sink(edges, node) {
            assert forall|k: int| 0 <= k < init.len() implies #[trigger] init[k].from@ != node by {
                assert(init[k] == edges[k]);
            }
            assert(edges.last().from@ != node);
        }
        if out.len() == 0 {
            assert forall|k: int| 0 <= k < edges.len() implies #[trigger] edges[k].from@ != node by {
                if edges[k].from@ == node {
                    assert(out.contains(edges[k]));
                }
            }
        }
    }
}

/// Returns the indices of the edges that leave `node`, in graph order.
pub fn outgoing_indices(edges: &Vec<DependencyEdge>, node: &String) -> (idx: Vec<usize>)
    ensures
        forall|j: int| 0 <= j < idx.len() ==> idx@[j] < edges.len(),
        idx@.map_values(|k: usize| edges@[k as int]) == outgoing(edges@, node@),
{
    let mut idx: Vec<usize> = Vec::new();
    let n = edges.len();
    for i in 0..n
        invariant
            n == edges.len(),
            forall|j: int| 0 <= j < idx.len() ==> idx@[j] < i,
            idx@.map_values(|k: usize| edges@[k as int]) == outgoing(edges@.take(i as int), node@),
    {
        assert(edges@.take(i + 1).drop_last() == edges@.take(i as int));
        assert(edges@.take(i + 1).last() == edges@[i as int]);
        let ghost before = idx@;
        if edges[i].from == *node {
            idx.push(i);
            assert(idx@.map_values(|k: usize| edges@[k as int]) == before.map_values(
                |k: usize| edges@[k as int],
            ).push(edges@[i as int]));
        }
    }
    assert(edges@.take(n as int) == edges@);
    idx
}

/// Returns a copy of a list of names.
pub fn copy_names(v: &Vec<String>) -> (r: Vec<String>)
    ensures
        names_of(r@) == names_of(v@),
{
    let mut r: Vec<String> = Vec::new();
    for i in 0..v.len()
        invariant
            names_of(r@) == names_of(v@.take(i as int)),
    {
        let ghost before = r@;
        r.push(v[i].clone());
        assert(names_of(r@) == names_of(before).push(v@[i as int]@));
        assert(v@.take(i + 1) == v@.take(i as int).push(v@[i as int]));
    }
    assert(v@.take(v.len() as int) == v@);
    r
}

} // verus!
