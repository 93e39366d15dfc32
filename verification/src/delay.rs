use vstd::prelude::*;
use crate::graph::{DependencyEdge, DependencyGraph, names_of};

verus! {

/// The number of edges whose target is not among `seen`.
pub open spec fn fresh_count(edges: Seq<DependencyEdge>, seen: Seq<Seq<char>>) -> nat
    decreases edges.len(),
{
    if edges.len() == 0 {
        0
    } else {
        fresh_count(edges.drop_last(), seen) + if seen.contains(edges.last().to@) {
            0nat
        } else {
            1nat
        }
    }
}

/// The edges that leave `node` towards a name not among `seen`, in graph order.
pub open spec fn candidates(
    edges: Seq<DependencyEdge>,
    node: Seq<char>,
    seen: Seq<Seq<char>>,
) -> Seq<DependencyEdge>
    decreases edges.len(),
{
    if edges.len() == 0 {
        Seq::empty()
    } else {
        let rest = candidates(edges.drop_last(), node, seen);
        let e = edges.last();
        if e.from@ == node && !seen.contains(e.to@) {
            rest.push(e)
        } else {
            rest
        }
    }
}

/// The best delay so far after an edge of lag `lag` into the target was found:
/// the smaller of the two.
/// A total lag as a `usize`: the largest `usize` where the total exceeds it.
pub open spec fn capped(total: nat) -> usize {
    if total > usize::MAX {
        usize::MAX
    } else {
        total as usize
    }
}

/// The best delay so far after a chain of total lag `total` into the target was found:
/// the smaller of the two.
pub open spec fn improve(best: Option<usize>, total: usize) -> Option<usize> {
    match best {
        Some(b) => if total < b {
            Some(total)
        } else {
            best
        },
        None => Some(total),
    }
}

/// The best delay after a depth-first search from `current` towards `target` that never
/// enters a name of `visited`, having come to `current` with total lag `acc`: each chain
/// that reaches `target` improves `best` by its total lag.
pub open spec fn delay_search(
    edges: Seq<DependencyEdge>,
    current: Seq<char>,
    target: Seq<char>,
    visited: Seq<Seq<char>>,
    acc: nat,
    best: Option<usize>,
) -> Option<usize>
    decreases fresh_count(edges, visited.push(current)), edges.len() + 1,
{
    if current == target {
        best
    } else {
        let seen = visited.push(current);
        proof {
            lemma_candidates(edges, current, seen);
        }
        delay_over(edges, current, target, seen, acc, candidates(edges, current, seen).len(), best)
    }
}

/// The best delay after the search has followed the first `n` candidate edges that
/// leave `current`.
pub open spec fn delay_over(
    edges: Seq<DependencyEdge>,
    current: Seq<char>,
    target: Seq<char>,
    seen: Seq<Seq<char>>,
    acc: nat,
    n: nat,
    best: Option<usize>,
) -> Option<usize>
    decreases fresh_count(edges, seen), n,
{
    let out = candidates(edges, current, seen);
    if n == 0 || n > out.len() {
        best
    } else {
        let b = delay_over(edges, current, target, seen, acc, (n - 1) as nat, best);
        let e = out[n - 1];
        if e.to@ == target {
            improve(b, capped((acc + e.lag) as nat))
        } else {
            proof {
                lemma_candidates(edges, current, seen);
                let k = choose|k: int| 0 <= k < edges.len() && edges[k] == e;
                lemma_fresh_count(edges, seen, e.to@);
                assert(edges[k].to@ == e.to@);
            }
            delay_search(edges, e.to@, target, seen, (acc + e.lag) as nat, b)
        }
    }
}

pub proof fn lemma_fresh_count(edges: Seq<DependencyEdge>, seen: Seq<Seq<char>>, x: Seq<char>)
    ensures
        fresh_count(edges, seen.push(x)) <= fresh_count(edges, seen),
        !seen.contains(x) && (exists|k: int| 0 <= k < edges.len() && #[trigger] edges[k].to@ == x)
            ==> fresh_count(edges, seen.push(x)) < fresh_count(edges, seen),
    decreases edges.len(),
{
    if edges.len() > 0 {
        let init = edges.drop_last();
        lemma_fresh_count(init, seen, x);
        lemma_push_contains(seen, x, edges.last().to@);
        if !seen.contains(x) && (exists|k: int| 0 <= k < edges.len() && #[trigger] edges[k].to@ == x) {
            let k = choose|k: int| 0 <= k < edges.len() && #[trigger] edges[k].to@ == x;
            if k < edges.len() - 1 {
                assert(init[k].to@ == x);
            }
        }
    }
}

pub proof fn lemma_candidates(edges: Seq<DependencyEdge>, node: Seq<char>, seen: Seq<Seq<char>>)
    ensures
        candidates(edges, node, seen).len() <= edges.len(),
        forall|j: int|
            0 <= j < candidates(edges, node, seen).len() ==> {
                let c = #[trigger] candidates(edges, node, seen)[j];
                edges.contains(c) && c.from@ == node && !seen.contains(c.to@)
            },
        forall|k: int|
            0 <= k < edges.len() && #[trigger] edges[k].from@ == node && !seen.contains(edges[k].to@)
                ==> candidates(edges, node, seen).contains(edges[k]),
    decreases edges.len(),
{
    if edges.len() > 0 {
        let init = edges.drop_last();
        lemma_candidates(init, node, seen);
        let out = candidates(edges, node, seen);
        let rest = candidates(init, node, seen);
        assert forall|j: int| 0 <= j < out.len() implies {
            let c = #[trigger] out[j];
            edges.contains(c) && c.from@ == node && !seen.contains(c.to@)
        } by {
            if j < rest.len() {
                assert(out[j] == rest[j]);
                let w = choose|i: int| 0 <= i < init.len() && init[i] == rest[j];
                assert(edges[w] == init[w]);
            } else {
                assert(edges[edges.len() - 1] == edges.last());
            }
        }
        assert forall|k: int|
            0 <= k < edges.len() && #[trigger] edges[k].from@ == node && !seen.contains(
                edges[k].to@,
            ) implies out.contains(edges[k]) by {
            if k < edges.len() - 1 {
                assert(init[k] == edges[k]);
                assert(rest.contains(edges[k]));
                let w = choose|i: int| 0 <= i < rest.len() && rest[i] == edges[k];
                assert(out[w] == rest[w]);
            } else {
                assert(out[out.len() - 1] == edges[k]);
            }
        }
    }
}

/// Whether the list `v` holds the name `s`.
pub fn contains_name(v: &Vec<String>, s: &String) -> (r: bool)
    ensures
        r == names_of(v@).contains(s@),
{
    let n = v.len();
    for i in 0..n
        invariant
            n == v.len(),
            forall|j: int| 0 <= j < i ==> names_of(v@)[j] != s@,
    {
        if v[i] == *s {
            assert(names_of(v@)[i as int] == s@);
            return true;
        }
    }
    false
}

/// Returns the indices of the edges that leave `node` towards a name not in
/// `visited`, in graph order.
fn candidate_indices(edges: &Vec<DependencyEdge>, node: &String, visited: &Vec<String>) -> (idx:
    Vec<usize>)
    ensures
        forall|j: int| 0 <= j < idx.len() ==> idx@[j] < edges.len(),
        idx@.map_values(|k: usize| edges@[k as int]) == candidates(
            edges@,
            node@,
            names_of(visited@),
        ),
{
    let mut idx: Vec<usize> = Vec::new();
    let n = edges.len();
    for i in 0..n
        invariant
            n == edges.len(),
            forall|j: int| 0 <= j < idx.len() ==> idx@[j] < i,
            idx@.map_values(|k: usize| edges@[k as int]) == candidates(
                edges@.take(i as int),
                node@,
                names_of(visited@),
            ),
    {
        assert(edges@.take(i + 1).drop_last() == edges@.take(i as int));
        assert(edges@.take(i + 1).last() == edges@[i as int]);
        let ghost before = idx@;
        if edges[i].from == *node && !contains_name(visited, &edges[i].to) {
            idx.push(i);
            assert(idx@.map_values(|k: usize| edges@[k as int]) == before.map_values(
                |k: usize| edges@[k as int],
            ).push(edges@[i as int]));
        }
    }
    assert(edges@.take(n as int) == edges@);
    idx
}


/// `s` with `x` appended holds exactly what `s` holds, and `x`.
pub proof fn lemma_push_contains(s: Seq<Seq<char>>, x: Seq<char>, y: Seq<char>)
    ensures
        s.push(x).contains(y) <==> s.contains(y) || y == x,
{
    if s.push(x).contains(y) {
        let i = choose|i: int| 0 <= i < s.push(x).len() && s.push(x)[i] == y;
        if i < s.len() {
            assert(s[i] == y);
        }
    }
    if s.contains(y) {
        let i = choose|i: int| 0 <= i < s.len() && s[i] == y;
        assert(s.push(x)[i] == y);
    }
    if y == x {
        assert(s.push(x)[s.len() as int] == y);
    }
}

/// No name occurs twice in `w`.
pub open spec fn distinct(w: Seq<Seq<char>>) -> bool {
    forall|i: int, j: int| 0 <= i < j < w.len() ==> w[i] != w[j]
}

/// The names that the chain of edges `ks` passes through, starting at `from`.
pub open spec fn chain_nodes(edges: Seq<DependencyEdge>, from: Seq<char>, ks: Seq<int>) -> Seq<
    Seq<char>,
> {
    seq![from] + ks.map_values(|k: int| edges[k].to@)
}

/// The total lag of the chain of edges `ks`.
pub open spec fn chain_lag(edges: Seq<DependencyEdge>, ks: Seq<int>) -> nat
    decreases ks.len(),
{
    if ks.len() == 0 {
        0
    } else {
        (edges[ks[0]].lag + chain_lag(edges, ks.drop_first())) as nat
    }
}

/// `ks` lists, by index, the edges of a simple chain from `from` to `to`: each edge
/// leaves the name that the one before entered, the last one enters `to`, and no name
/// is passed twice.
pub open spec fn is_chain(
    edges: Seq<DependencyEdge>,
    from: Seq<char>,
    to: Seq<char>,
    ks: Seq<int>,
) -> bool {
    &&& ks.len() >= 1
    &&& forall|i: int| 0 <= i < ks.len() ==> 0 <= #[trigger] ks[i] < edges.len()
    &&& forall|i: int|
        0 <= i < ks.len() ==> edges[#[trigger] ks[i]].from@ == chain_nodes(edges, from, ks)[i]
    &&& chain_nodes(edges, from, ks).last() == to
    &&& distinct(chain_nodes(edges, from, ks))
}

/// No name of the chain is among `vis`.
pub open spec fn chain_avoids(
    edges: Seq<DependencyEdge>,
    from: Seq<char>,
    ks: Seq<int>,
    vis: Seq<Seq<char>>,
) -> bool {
    forall|i: int|
        0 <= i < chain_nodes(edges, from, ks).len() ==> !vis.contains(
            #[trigger] chain_nodes(edges, from, ks)[i],
        )
}

/// `r` is `best`, or the total lag, on top of `acc`, of a chain from `from` to `to`
/// that avoids `vis`.
pub open spec fn found_by(
    edges: Seq<DependencyEdge>,
    from: Seq<char>,
    to: Seq<char>,
    vis: Seq<Seq<char>>,
    acc: nat,
    best: Option<usize>,
    r: Option<usize>,
) -> bool {
    r == best || exists|ks: Seq<int>|
        #[trigger] is_chain(edges, from, to, ks) && chain_avoids(edges, from, ks, vis) && r == Some(
            capped(acc + chain_lag(edges, ks)),
        )
}

/// `r` is at least as good a delay as `best`.
pub open spec fn no_worse(r: Option<usize>, best: Option<usize>) -> bool {
    best is Some ==> r is Some && r.unwrap() <= best.unwrap()
}

proof fn lemma_no_worse_trans(a: Option<usize>, b: Option<usize>, c: Option<usize>)
    requires
        no_worse(a, b),
        no_worse(b, c),
    ensures
        no_worse(a, c),
{
}

/// The chain without its first edge starts where that edge ends.
proof fn lemma_chain_rest(edges: Seq<DependencyEdge>, from: Seq<char>, ks: Seq<int>)
    requires
        ks.len() >= 1,
    ensures
        chain_nodes(edges, edges[ks[0]].to@, ks.drop_first()) =~= chain_nodes(
            edges,
            from,
            ks,
        ).drop_first(),
        chain_lag(edges, ks) == edges[ks[0]].lag + chain_lag(edges, ks.drop_first()),
{
}

/// A chain from `cur` made of the edge `k` followed by the chain `ks` from where `k` ends.
proof fn lemma_chain_prepend(
    edges: Seq<DependencyEdge>,
    cur: Seq<char>,
    tgt: Seq<char>,
    k: int,
    ks: Seq<int>,
    vis: Seq<Seq<char>>,
)
    requires
        0 <= k < edges.len(),
        edges[k].from@ == cur,
        !vis.contains(cur),
        is_chain(edges, edges[k].to@, tgt, ks),
        chain_avoids(edges, edges[k].to@, ks, vis.push(cur)),
    ensures
        is_chain(edges, cur, tgt, seq![k] + ks),
        chain_avoids(edges, cur, seq![k] + ks, vis),
        chain_lag(edges, seq![k] + ks) == edges[k].lag + chain_lag(edges, ks),
{
    let x = edges[k].to@;
    let full = seq![k] + ks;
    let inner = chain_nodes(edges, x, ks);
    let nodes = chain_nodes(edges, cur, full);
    assert(full.drop_first() =~= ks);
    assert(nodes =~= seq![cur] + inner);
    assert forall|i: int| 0 <= i < inner.len() implies #[trigger] inner[i] != cur by {
        lemma_push_contains(vis, cur, inner[i]);
    }
    assert forall|i: int| 0 <= i < full.len() implies 0 <= #[trigger] full[i] < edges.len() by {
        if i > 0 {
            assert(full[i] == ks[i - 1]);
        }
    }
    assert forall|i: int| 0 <= i < full.len() implies edges[#[trigger] full[i]].from@ == nodes[i] by {
        if i > 0 {
            assert(full[i] == ks[i - 1]);
            assert(edges[ks[i - 1]].from@ == inner[i - 1]);
        }
    }
    assert forall|a: int, b: int| 0 <= a < b < nodes.len() implies nodes[a] != nodes[b] by {
        if a > 0 {
            assert(inner[a - 1] != inner[b - 1]);
        } else {
            assert(inner[b - 1] != cur);
        }
    }
    assert forall|i: int| 0 <= i < nodes.len() implies !vis.contains(#[trigger] nodes[i]) by {
        if i > 0 {
            assert(!vis.push(cur).contains(inner[i - 1]));
            lemma_push_contains(vis, cur, inner[i - 1]);
        }
    }
}

proof fn lemma_search_sound(
    edges: Seq<DependencyEdge>,
    cur: Seq<char>,
    tgt: Seq<char>,
    vis: Seq<Seq<char>>,
    acc: nat,
    best: Option<usize>,
)
    requires
        !vis.contains(cur),
    ensures
        found_by(edges, cur, tgt, vis, acc, best, delay_search(edges, cur, tgt, vis, acc, best)),
    decreases fresh_count(edges, vis.push(cur)), edges.len() + 1,
{
    if cur != tgt {
        let seen = vis.push(cur);
        lemma_candidates(edges, cur, seen);
        lemma_over_sound(edges, cur, tgt, vis, acc, candidates(edges, cur, seen).len(), best);
    }
}

proof fn lemma_over_sound(
    edges: Seq<DependencyEdge>,
    cur: Seq<char>,
    tgt: Seq<char>,
    vis: Seq<Seq<char>>,
    acc: nat,
    n: nat,
    best: Option<usize>,
)
    requires
        cur != tgt,
        !vis.contains(cur),
    ensures
        found_by(
            edges,
            cur,
            tgt,
            vis,
            acc,
            best,
            delay_over(edges, cur, tgt, vis.push(cur), acc, n, best),
        ),
    decreases fresh_count(edges, vis.push(cur)), n,
{
    let seen = vis.push(cur);
    let out = candidates(edges, cur, seen);
    if n > 0 && n <= out.len() {
        lemma_over_sound(edges, cur, tgt, vis, acc, (n - 1) as nat, best);
        let b = delay_over(edges, cur, tgt, seen, acc, (n - 1) as nat, best);
        let e = out[n - 1];
        lemma_candidates(edges, cur, seen);
        let k = choose|k: int| 0 <= k < edges.len() && edges[k] == e;
        lemma_push_contains(vis, cur, e.to@);
        if e.to@ == tgt {
            let r = improve(b, capped((acc + e.lag) as nat));
            if r != b {
                let ks = seq![k];
                let nodes = chain_nodes(edges, cur, ks);
                assert(nodes =~= seq![cur, tgt]);
                assert(ks.drop_first() =~= Seq::<int>::empty());
                assert(chain_lag(edges, Seq::<int>::empty()) == 0);
                assert(ks[0] == k);
                assert(chain_lag(edges, ks) == e.lag);
                assert forall|i: int| 0 <= i < nodes.len() implies !vis.contains(
                    #[trigger] nodes[i],
                ) by {}
                assert(is_chain(edges, cur, tgt, ks));
            }
        } else {
            assert(edges[k].to@ == e.to@);
            lemma_fresh_count(edges, seen, e.to@);
            lemma_search_sound(edges, e.to@, tgt, seen, (acc + e.lag) as nat, b);
            let r = delay_search(edges, e.to@, tgt, seen, (acc + e.lag) as nat, b);
            if r != b {
                let ks = choose|ks: Seq<int>|
                    #[trigger] is_chain(edges, e.to@, tgt, ks) && chain_avoids(edges, e.to@, ks, seen)
                        && r == Some(capped(((acc + e.lag) as nat + chain_lag(edges, ks)) as nat));
                lemma_chain_prepend(edges, cur, tgt, k, ks, vis);
                assert(is_chain(edges, cur, tgt, seq![k] + ks));
            }
        }
    }
}

proof fn lemma_search_monotone(
    edges: Seq<DependencyEdge>,
    cur: Seq<char>,
    tgt: Seq<char>,
    vis: Seq<Seq<char>>,
    acc: nat,
    best: Option<usize>,
)
    ensures
        no_worse(delay_search(edges, cur, tgt, vis, acc, best), best),
    decreases fresh_count(edges, vis.push(cur)), edges.len() + 1,
{
    if cur != tgt {
        let seen = vis.push(cur);
        lemma_candidates(edges, cur, seen);
        lemma_over_monotone(edges, cur, tgt, seen, acc, candidates(edges, cur, seen).len(), 0, best);
    }
}

proof fn lemma_over_monotone(
    edges: Seq<DependencyEdge>,
    cur: Seq<char>,
    tgt: Seq<char>,
    seen: Seq<Seq<char>>,
    acc: nat,
    n: nat,
    m: nat,
    best: Option<usize>,
)
    requires
        m <= n <= candidates(edges, cur, seen).len(),
    ensures
        no_worse(
            delay_over(edges, cur, tgt, seen, acc, n, best),
            delay_over(edges, cur, tgt, seen, acc, m, best),
        ),
    decreases fresh_count(edges, seen), n,
{
    if m < n {
        let out = candidates(edges, cur, seen);
        lemma_over_monotone(edges, cur, tgt, seen, acc, (n - 1) as nat, m, best);
        let b = delay_over(edges, cur, tgt, seen, acc, (n - 1) as nat, best);
        let e = out[n - 1];
        if e.to@ != tgt {
            lemma_candidates(edges, cur, seen);
            let k = choose|k: int| 0 <= k < edges.len() && edges[k] == e;
            assert(edges[k].to@ == e.to@);
            lemma_fresh_count(edges, seen, e.to@);
            lemma_search_monotone(edges, e.to@, tgt, seen, (acc + e.lag) as nat, b);
        }
        lemma_no_worse_trans(
            delay_over(edges, cur, tgt, seen, acc, n, best),
            b,
            delay_over(edges, cur, tgt, seen, acc, m, best),
        );
    }
}

proof fn lemma_search_complete(
    edges: Seq<DependencyEdge>,
    cur: Seq<char>,
    tgt: Seq<char>,
    vis: Seq<Seq<char>>,
    acc: nat,
    best: Option<usize>,
    ks: Seq<int>,
)
    requires
        cur != tgt,
        !vis.contains(tgt),
        is_chain(edges, cur, tgt, ks),
        chain_avoids(edges, cur, ks, vis),
    ensures
        no_worse(
            delay_search(edges, cur, tgt, vis, acc, best),
            Some(capped(acc + chain_lag(edges, ks))),
        ),
    decreases ks.len(),
{
    let seen = vis.push(cur);
    lemma_candidates(edges, cur, seen);
    let out = candidates(edges, cur, seen);
    let nodes = chain_nodes(edges, cur, ks);
    let k0 = ks[0];
    let x = edges[k0].to@;
    let lag = edges[k0].lag;
    assert(nodes[0] == cur);
    assert(edges[k0].from@ == cur);
    assert(nodes[1] == x);
    assert(!vis.contains(nodes[1]));
    assert(nodes[0] != nodes[1]);
    lemma_push_contains(vis, cur, x);
    lemma_push_contains(vis, cur, tgt);
    assert(out.contains(edges[k0]));
    let j = choose|j: int| 0 <= j < out.len() && out[j] == edges[k0];
    let bj = delay_over(edges, cur, tgt, seen, acc, j as nat, best);
    lemma_chain_rest(edges, cur, ks);
    let rest = ks.drop_first();
    if ks.len() == 1 {
        assert(x == tgt);
        assert(rest =~= Seq::<int>::empty());
        assert(delay_over(edges, cur, tgt, seen, acc, (j + 1) as nat, best) == improve(
            bj,
            capped((acc + lag) as nat),
        ));
    } else {
        assert(nodes[1] != nodes.last());
        assert(x != tgt);
        let inner = chain_nodes(edges, x, rest);
        assert forall|i: int| 0 <= i < rest.len() implies 0 <= #[trigger] rest[i] < edges.len() by {
            assert(rest[i] == ks[i + 1]);
        }
        assert forall|i: int| 0 <= i < rest.len() implies edges[#[trigger] rest[i]].from@
            == inner[i] by {
            assert(rest[i] == ks[i + 1]);
            assert(edges[ks[i + 1]].from@ == nodes[i + 1]);
        }
        assert forall|a: int, b: int| 0 <= a < b < inner.len() implies inner[a] != inner[b] by {
            assert(nodes[a + 1] != nodes[b + 1]);
        }
        assert forall|i: int| 0 <= i < inner.len() implies !seen.contains(#[trigger] inner[i]) by {
            assert(inner[i] == nodes[i + 1]);
            assert(!vis.contains(nodes[i + 1]));
            assert(nodes[0] != nodes[i + 1]);
            lemma_push_contains(vis, cur, inner[i]);
        }
        assert(is_chain(edges, x, tgt, rest));
        lemma_search_complete(edges, x, tgt, seen, (acc + lag) as nat, bj, rest);
        assert(delay_over(edges, cur, tgt, seen, acc, (j + 1) as nat, best) == delay_search(
            edges,
            x,
            tgt,
            seen,
            (acc + lag) as nat,
            bj,
        ));
        assert((acc + lag) as nat + chain_lag(edges, rest) == acc + chain_lag(edges, ks));
    }
    lemma_over_monotone(edges, cur, tgt, seen, acc, out.len(), (j + 1) as nat, best);
    lemma_no_worse_trans(
        delay_over(edges, cur, tgt, seen, acc, out.len(), best),
        delay_over(edges, cur, tgt, seen, acc, (j + 1) as nat, best),
        Some(capped(acc + chain_lag(edges, ks))),
    );
}

/// The delay from a series to itself is not defined: `propagation_delay(a, a)` is `None`.
pub proof fn law_delay_to_itself(g: DependencyGraph, a: Seq<char>)
    ensures
        delay_search(g.edges@, a, a, Seq::empty(), 0, None) is None,
{
}

/// Whatever `propagation_delay(from, to)` reports is the total lag (saturated at the
/// largest `usize`) of a simple chain of edges from `from` to `to`.
pub proof fn law_delay_is_a_chain_lag(g: DependencyGraph, from: Seq<char>, to: Seq<char>)
    ensures
        ({
            let r = delay_search(g.edges@, from, to, Seq::empty(), 0, None);
            r is None || exists|ks: Seq<int>|
                #[trigger] is_chain(g.edges@, from, to, ks) && r == Some(
                    capped(chain_lag(g.edges@, ks)),
                )
        }),
{
    lemma_search_sound(g.edges@, from, to, Seq::empty(), 0, None);
}

/// For `from != to`, every simple chain of edges from `from` to `to` bounds the delay:
/// `propagation_delay(from, to)` is some value no larger than its total lag.
pub proof fn law_delay_is_smallest(
    g: DependencyGraph,
    from: Seq<char>,
    to: Seq<char>,
    ks: Seq<int>,
)
    requires
        from != to,
        is_chain(g.edges@, from, to, ks),
    ensures
        ({
            let r = delay_search(g.edges@, from, to, Seq::empty(), 0, None);
            r is Some && r.unwrap() <= capped(chain_lag(g.edges@, ks))
        }),
{
    lemma_search_complete(g.edges@, from, to, Seq::empty(), 0, None, ks);
}

/// `propagation_delay(from, to)` is `None` exactly when `from == to` or no chain of edges
/// leads from `from` to `to`.
pub proof fn law_delay_none_iff_no_chain(g: DependencyGraph, from: Seq<char>, to: Seq<char>)
    ensures
        delay_search(g.edges@, from, to, Seq::empty(), 0, None) is None <==> (from == to
            || !exists|ks: Seq<int>| #[trigger] is_chain(g.edges@, from, to, ks)),
{
    law_delay_is_a_chain_lag(g, from, to);
    if from != to && exists|ks: Seq<int>| #[trigger] is_chain(g.edges@, from, to, ks) {
        let ks = choose|ks: Seq<int>| #[trigger] is_chain(g.edges@, from, to, ks);
        law_delay_is_smallest(g, from, to, ks);
    }
}

impl DependencyGraph {
    /// The propagation delay from `from` to `to`: the smallest total lag over the simple
    /// chains of edges from `from` to `to`, saturated at the largest `usize`.
    /// Returns None if `from == to` or no chain exists.
    pub fn propagation_delay(&self, from: &str, to: &str) -> (r: Option<usize>)
        ensures
            r == delay_search(self.edges@, from@, to@, Seq::empty(), 0, None),
            r is None <==> (from@ == to@ || !exists|ks: Seq<int>|
                #[trigger] is_chain(self.edges@, from@, to@, ks)),
            r is Some ==> exists|ks: Seq<int>|
                #[trigger] is_chain(self.edges@, from@, to@, ks) && r == Some(
                    capped(chain_lag(self.edges@, ks)),
                ),
            forall|ks: Seq<int>|
                from@ != to@ && #[trigger] is_chain(self.edges@, from@, to@, ks) ==> r is Some
                    && r.unwrap() <= capped(chain_lag(self.edges@, ks)),
    {
        let mut best: Option<usize> = None;
        let mut visited: Vec<String> = Vec::new();
        let start = from.to_owned();
        let target = to.to_owned();
        assert(names_of(visited@) == Seq::<Seq<char>>::empty());
        self.find_delay(&start, &target, &mut visited, 0, Ghost(0), &mut best);
        proof {
            law_delay_is_a_chain_lag(*self, from@, to@);
            law_delay_none_iff_no_chain(*self, from@, to@);
            assert forall|ks: Seq<int>|
                from@ != to@ && #[trigger] is_chain(self.edges@, from@, to@, ks) implies best is Some
                && best.unwrap() <= capped(chain_lag(self.edges@, ks)) by {
                law_delay_is_smallest(*self, from@, to@, ks);
            }
        }
        best
    }

    fn find_delay(
        &self,
        current: &String,
        target: &String,
        visited: &mut Vec<String>,
        acc: usize,
        Ghost(total): Ghost<nat>,
        best: &mut Option<usize>,
    )
        requires
            acc == capped(total),
        ensures
            names_of(final(visited)@) == names_of(old(visited)@),
            *final(best) == delay_search(
                self.edges@,
                current@,
                target@,
                names_of(old(visited)@),
                total,
                *old(best),
            ),
        decreases fresh_count(self.edges@, names_of(old(visited)@).push(current@)),
    {
        if *current == *target {
            return;
        }
        let ghost vis0 = names_of(visited@);
        let ghost b0 = *best;
        visited.push(current.clone());
        let ghost seen = vis0.push(current@);
        assert(names_of(visited@) == seen);
        let out = candidate_indices(&self.edges, current, visited);
        let ghost out_edges = out@.map_values(|k: usize| self.edges@[k as int]);
        proof {
            lemma_candidates(self.edges@, current@, seen);
        }
        let n = out.len();
        for j in 0..n
            invariant
                n == out.len(),
                forall|i: int| 0 <= i < out.len() ==> out@[i] < self.edges.len(),
                out_edges == out@.map_values(|k: usize| self.edges@[k as int]),
                out_edges == candidates(self.edges@, current@, seen),
                current@ != target@,
                acc == capped(total),
                names_of(visited@) == seen,
                seen == vis0.push(current@),
                vis0 == names_of(old(visited)@),
                *best == delay_over(self.edges@, current@, target@, seen, total, j as nat, b0),
                forall|i: int|
                    0 <= i < out_edges.len() ==> {
                        let c = #[trigger] out_edges[i];
                        self.edges@.contains(c) && c.from@ == current@ && !seen.contains(c.to@)
                    },
        {
            let e = &self.edges[out[j]];
            assert(*e == out_edges[j as int]);
            let next = if acc > usize::MAX - e.lag {
                usize::MAX
            } else {
                acc + e.lag
            };
            assert(next == capped((total + e.lag) as nat));
            if e.to == *target {
                match *best {
                    Some(b) if next >= b => {},
                    _ => {
                        *best = Some(next);
                    },
                }
            } else {
                proof {
                    let k = out@[j as int] as int;
                    assert(self.edges@[k].to@ == e.to@);
                    assert(!seen.contains(e.to@));
                    lemma_fresh_count(self.edges@, seen, e.to@);
                }
                self.find_delay(&e.to, target, visited, next, Ghost((total + e.lag) as nat), best);
            }
        }
        let ghost before_pop = visited@;
        visited.pop();
        assert(names_of(visited@) =~= names_of(before_pop).subrange(0, before_pop.len() - 1));
        assert(seen.subrange(0, vis0.len() as int) =~= vis0);
    }
}

} // verus!
