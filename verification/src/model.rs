//! The mathematical model of a dependency graph: node names, edge lists,
//! neighbour sequences, paths, cycles and topological orders.
use vstd::prelude::*;
use crate::manifest::CrateNode;

verus! {

/// The names of the crates, by node index.
pub open spec fn names_of(nodes: Seq<CrateNode>) -> Seq<Seq<char>> {
    nodes.map_values(|c: CrateNode| c.name@)
}

/// The index of the last name equal to `name`, if any: this is the node that a
/// name refers to (a later crate of the same name shadows an earlier one).
pub open spec fn last_index(names: Seq<Seq<char>>, name: Seq<char>) -> Option<int>
    decreases names.len(),
{
    if names.len() == 0 {
        None
    } else if names.last() == name {
        Some(names.len() - 1)
    } else {
        last_index(names.drop_last(), name)
    }
}

/// Node `i` is the one its own name refers to.
pub open spec fn canonical(names: Seq<Seq<char>>, i: int) -> bool {
    0 <= i < names.len() && last_index(names, names[i]) == Some(i)
}

/// There is an edge from `u` to `v`.
pub open spec fn has_edge(edges: Seq<(int, int)>, u: int, v: int) -> bool {
    exists|k: int| 0 <= k < edges.len() && edges[k] == (u, v)
}

/// The targets of the edges leaving `a`, most recently added first.
pub open spec fn out_nbrs(edges: Seq<(int, int)>, a: int) -> Seq<int>
    decreases edges.len(),
{
    if edges.len() == 0 {
        Seq::empty()
    } else {
        let rest = out_nbrs(edges.drop_last(), a);
        if edges.last().0 == a {
            seq![edges.last().1] + rest
        } else {
            rest
        }
    }
}

/// The sources of the edges entering `a`, most recently added first.
pub open spec fn in_nbrs(edges: Seq<(int, int)>, a: int) -> Seq<int>
    decreases edges.len(),
{
    if edges.len() == 0 {
        Seq::empty()
    } else {
        let rest = in_nbrs(edges.drop_last(), a);
        if edges.last().1 == a {
            seq![edges.last().0] + rest
        } else {
            rest
        }
    }
}

/// Every edge joins two nodes that their names refer to.
pub open spec fn edges_canonical(names: Seq<Seq<char>>, edges: Seq<(int, int)>) -> bool {
    forall|k: int|
        0 <= k < edges.len() ==> canonical(names, #[trigger] edges[k].0) && canonical(
            names,
            edges[k].1,
        )
}

/// Step `i` of `p` follows an edge.
pub open spec fn path_step(edges: Seq<(int, int)>, p: Seq<int>, i: int) -> bool {
    has_edge(edges, p[i], p[i + 1])
}

/// `p` is a walk along edges (a single node is a walk of length 0).
pub open spec fn is_path(edges: Seq<(int, int)>, p: Seq<int>) -> bool {
    &&& p.len() >= 1
    &&& forall|i: int| 0 <= i < p.len() - 1 ==> #[trigger] path_step(edges, p, i)
}

/// `v` lies on a cycle: a walk of at least one edge leads from `v` back to `v`.
pub open spec fn on_cycle(edges: Seq<(int, int)>, v: int) -> bool {
    exists|p: Seq<int>| #[trigger]
        is_path(edges, p) && p.len() >= 2 && p[0] == v && p.last() == v
}

/// A walk (possibly of no edge) leads from `a` to `b`.
pub open spec fn walk_between(edges: Seq<(int, int)>, a: int, b: int) -> bool {
    exists|p: Seq<int>| #[trigger] is_path(edges, p) && p[0] == a && p.last() == b
}

/// No step of `p` closes a cycle: from the end of no step is there a walk
/// back to its start.
pub open spec fn no_step_on_cycle(edges: Seq<(int, int)>, p: Seq<int>) -> bool {
    forall|t: int| 0 <= t < p.len() - 1 ==> !#[trigger] walk_between(edges, p[t + 1], p[t])
}

/// Every edge `u -> v` that closes no cycle (no walk leads from `v` back to
/// `u`) has `u` before `v` in `order`.
pub open spec fn orders_acyclic_edges(edges: Seq<(int, int)>, order: Seq<int>) -> bool {
    forall|u: int, v: int|
        #[trigger] has_edge(edges, u, v) && !walk_between(edges, v, u) ==> order.contains(u) && order.contains(v)
            && order.index_of(u) < order.index_of(v)
}

/// `order` lists every node exactly once, each node before its successors.
pub open spec fn is_topo_order(n: int, edges: Seq<(int, int)>, order: Seq<int>) -> bool {
    &&& order.len() == n
    &&& order.no_duplicates()
    &&& forall|i: int| 0 <= i < n ==> 0 <= #[trigger] order[i] < n
    &&& forall|v: int| 0 <= v < n ==> #[trigger] order.contains(v)
    &&& forall|i: int, j: int|
        #![trigger order[i], order[j]]
        0 <= i < n && 0 <= j < n && has_edge(edges, order[i], order[j]) ==> i < j
}

/// The graph has no cycle: some order puts every node before its successors.
pub open spec fn is_dag(n: int, edges: Seq<(int, int)>) -> bool {
    exists|order: Seq<int>| is_topo_order(n, edges, order)
}

// ---------------------------------------------------------------------------
// Lemmas
// ---------------------------------------------------------------------------
pub proof fn lemma_last_index(names: Seq<Seq<char>>, name: Seq<char>)
    ensures
        match last_index(names, name) {
            Some(i) => 0 <= i < names.len() && names[i] == name && forall|j: int|
                i < j < names.len() ==> names[j] != name,
            None => forall|j: int| 0 <= j < names.len() ==> names[j] != name,
        },
    decreases names.len(),
{
    if names.len() > 0 {
        let rest = names.drop_last();
        lemma_last_index(rest, name);
        assert forall|j: int| 0 <= j < rest.len() implies rest[j] == names[j] by {}
    }
}

/// The node a name refers to is canonical.
pub proof fn lemma_last_index_canonical(names: Seq<Seq<char>>, name: Seq<char>)
    requires
        last_index(names, name) is Some,
    ensures
        canonical(names, last_index(names, name).unwrap()),
        names[last_index(names, name).unwrap()] == name,
{
    lemma_last_index(names, name);
}

/// Two canonical nodes with the same name are the same node.
pub proof fn lemma_canonical_unique(names: Seq<Seq<char>>, u: int, w: int)
    requires
        canonical(names, u),
        canonical(names, w),
        names[u] == names[w],
    ensures
        u == w,
{
}

pub proof fn lemma_out_nbrs(edges: Seq<(int, int)>, a: int)
    ensures
        forall|x: int| #[trigger] out_nbrs(edges, a).contains(x) <==> has_edge(edges, a, x),
        forall|i: int|
            0 <= i < out_nbrs(edges, a).len() ==> has_edge(edges, a, #[trigger] out_nbrs(edges, a)[i]),
    decreases edges.len(),
{
    if edges.len() > 0 {
        let rest = edges.drop_last();
        lemma_out_nbrs(rest, a);
        assert forall|x: int| has_edge(edges, a, x) implies #[trigger] out_nbrs(edges, a).contains(x) by {
            let k = choose|k: int| 0 <= k < edges.len() && edges[k] == (a, x);
            if k < edges.len() - 1 {
                assert(rest[k] == (a, x));
                assert(has_edge(rest, a, x));
                assert(out_nbrs(rest, a).contains(x));
                let i = choose|i: int| 0 <= i < out_nbrs(rest, a).len() && out_nbrs(rest, a)[i] == x;
                assert(out_nbrs(edges, a) == if edges.last().0 == a { seq![edges.last().1] + out_nbrs(rest, a) } else { out_nbrs(rest, a) });
                if edges.last().0 == a {
                    assert(out_nbrs(edges, a)[i + 1] == x);
                } else {
                    assert(out_nbrs(edges, a)[i] == x);
                }
            } else {
                assert(out_nbrs(edges, a)[0] == x);
            }
        }
        assert forall|x: int| #[trigger] out_nbrs(edges, a).contains(x) implies has_edge(edges, a, x) by {
            let i = choose|i: int| 0 <= i < out_nbrs(edges, a).len() && out_nbrs(edges, a)[i] == x;
            if edges.last().0 == a {
                if i == 0 {
                    assert(edges[edges.len() - 1] == (a, x));
                } else {
                    assert(out_nbrs(rest, a)[i - 1] == x);
                    assert(out_nbrs(rest, a).contains(x));
                    let k = choose|k: int| 0 <= k < rest.len() && rest[k] == (a, x);
                    assert(edges[k] == (a, x));
                }
            } else {
                assert(out_nbrs(rest, a).contains(x));
                let k = choose|k: int| 0 <= k < rest.len() && rest[k] == (a, x);
                assert(edges[k] == (a, x));
            }
        }
        assert forall|i: int| 0 <= i < out_nbrs(edges, a).len() implies has_edge(
            edges,
            a,
            #[trigger] out_nbrs(edges, a)[i],
        ) by {
            assert(out_nbrs(edges, a).contains(out_nbrs(edges, a)[i]));
        }
    }
}

pub proof fn lemma_in_nbrs(edges: Seq<(int, int)>, a: int)
    ensures
        forall|x: int| #[trigger] in_nbrs(edges, a).contains(x) <==> has_edge(edges, x, a),
        forall|i: int|
            0 <= i < in_nbrs(edges, a).len() ==> has_edge(edges, #[trigger] in_nbrs(edges, a)[i], a),
    decreases edges.len(),
{
    if edges.len() > 0 {
        let rest = edges.drop_last();
        lemma_in_nbrs(rest, a);
        assert forall|x: int| has_edge(edges, x, a) implies #[trigger] in_nbrs(edges, a).contains(x) by {
            let k = choose|k: int| 0 <= k < edges.len() && edges[k] == (x, a);
            if k < edges.len() - 1 {
                assert(rest[k] == (x, a));
                assert(has_edge(rest, x, a));
                assert(in_nbrs(rest, a).contains(x));
                let i = choose|i: int| 0 <= i < in_nbrs(rest, a).len() && in_nbrs(rest, a)[i] == x;
                assert(in_nbrs(edges, a) == if edges.last().1 == a { seq![edges.last().0] + in_nbrs(rest, a) } else { in_nbrs(rest, a) });
                if edges.last().1 == a {
                    assert(in_nbrs(edges, a)[i + 1] == x);
                } else {
                    assert(in_nbrs(edges, a)[i] == x);
                }
            } else {
                assert(in_nbrs(edges, a)[0] == x);
            }
        }
        assert forall|x: int| #[trigger] in_nbrs(edges, a).contains(x) implies has_edge(edges, x, a) by {
            let i = choose|i: int| 0 <= i < in_nbrs(edges, a).len() && in_nbrs(edges, a)[i] == x;
            if edges.last().1 == a {
                if i == 0 {
                    assert(edges[edges.len() - 1] == (x, a));
                } else {
                    assert(in_nbrs(rest, a)[i - 1] == x);
                    assert(in_nbrs(rest, a).contains(x));
                    let k = choose|k: int| 0 <= k < rest.len() && rest[k] == (x, a);
                    assert(edges[k] == (x, a));
                }
            } else {
                assert(in_nbrs(rest, a).contains(x));
                let k = choose|k: int| 0 <= k < rest.len() && rest[k] == (x, a);
                assert(edges[k] == (x, a));
            }
        }
        assert forall|i: int| 0 <= i < in_nbrs(edges, a).len() implies has_edge(
            edges,
            #[trigger] in_nbrs(edges, a)[i],
            a,
        ) by {
            assert(in_nbrs(edges, a).contains(in_nbrs(edges, a)[i]));
        }
    }
}

/// Both ends of an edge are canonical nodes.
pub proof fn lemma_edge_canonical(names: Seq<Seq<char>>, edges: Seq<(int, int)>, u: int, v: int)
    requires
        edges_canonical(names, edges),
        has_edge(edges, u, v),
    ensures
        canonical(names, u),
        canonical(names, v),
{
    let k = choose|k: int| 0 <= k < edges.len() && edges[k] == (u, v);
    assert(canonical(names, edges[k].0));
}

/// Along a walk, positions in a topological order increase.
pub proof fn lemma_path_order(n: int, edges: Seq<(int, int)>, order: Seq<int>, p: Seq<int>, i: int)
    requires
        is_topo_order(n, edges, order),
        is_path(edges, p),
        0 <= i < p.len(),
        forall|j: int| 0 <= j < p.len() ==> 0 <= #[trigger] p[j] < n,
    ensures
        order.index_of(p[i]) >= order.index_of(p[0]) + i,
        0 <= order.index_of(p[i]) < n,
        order[order.index_of(p[i])] == p[i],
    decreases i,
{
    assert(order.contains(p[i]));
    if i > 0 {
        lemma_path_order(n, edges, order, p, i - 1);
        assert(path_step(edges, p, i - 1));
        assert(order.contains(p[i - 1]));
        let a = order.index_of(p[i - 1]);
        let b = order.index_of(p[i]);
        assert(has_edge(edges, order[a], order[b]));
    } else {
        assert(order.contains(p[0]));
    }
}

/// A graph with a node on a cycle has no topological order.
pub proof fn lemma_cycle_not_dag(n: int, edges: Seq<(int, int)>, v: int)
    requires
        on_cycle(edges, v),
        forall|k: int| 0 <= k < edges.len() ==> 0 <= #[trigger] edges[k].0 < n && 0 <= edges[k].1 < n,
        0 <= v < n,
    ensures
        !is_dag(n, edges),
{
    if is_dag(n, edges) {
        let order = choose|order: Seq<int>| is_topo_order(n, edges, order);
        let p = choose|p: Seq<int>| #[trigger]
            is_path(edges, p) && p.len() >= 2 && p[0] == v && p.last() == v;
        assert forall|j: int| 0 <= j < p.len() implies 0 <= #[trigger] p[j] < n by {
            if j < p.len() - 1 {
                assert(path_step(edges, p, j));
                let k = choose|k: int| 0 <= k < edges.len() && edges[k] == (p[j], p[j + 1]);
                assert(edges[k].0 == p[j]);
            } else {
                assert(p[j] == v);
            }
        }
        lemma_path_order(n, edges, order, p, p.len() - 1);
    }
}

} // verus!

verus! {

/// A sequence of distinct integers in `[lo, hi)` has at most `hi - lo` elements.
pub proof fn lemma_distinct_bounded(s: Seq<int>, lo: int, hi: int)
    requires
        lo <= hi,
        s.no_duplicates(),
        forall|i: int| 0 <= i < s.len() ==> lo <= #[trigger] s[i] < hi,
    ensures
        s.len() <= hi - lo,
{
    s.unique_seq_to_set();
    vstd::set_lib::lemma_int_range(lo, hi);
    assert(s.to_set().subset_of(vstd::set_lib::set_int_range(lo, hi)));
    vstd::set_lib::lemma_len_subset(s.to_set(), vstd::set_lib::set_int_range(lo, hi));
}

} // verus!

verus! {

/// Membership in a sequence with one more element.
pub proof fn lemma_push_contains<A>(s: Seq<A>, x: A, w: A)
    ensures
        s.push(x).contains(w) <==> (s.contains(w) || w == x),
{
    if s.contains(w) {
        let j = choose|j: int| 0 <= j < s.len() && s[j] == w;
        assert(s.push(x)[j] == w);
    }
    if w == x {
        assert(s.push(x)[s.len() as int] == w);
    }
    if s.push(x).contains(w) {
        let j = choose|j: int| 0 <= j < s.push(x).len() && s.push(x)[j] == w;
        if j < s.len() {
            assert(s[j] == w);
        }
    }
}

} // verus!
