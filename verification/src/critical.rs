//! The longest dependency chains of a fleet (critical paths).
use vstd::prelude::*;
use crate::digraph::{Dir, graph_toposort, toposort_result};
use crate::graph::DependencyGraph;
use crate::layers::{in_layer, layer_nonempty, layered_before, lemma_dag_layered, lemma_layer_rule, lemma_layer_unique};
use crate::manifest::strings_view;
use crate::model::{
    canonical, edges_canonical, has_edge, in_nbrs, no_step_on_cycle, orders_acyclic_edges, walk_between, is_dag, is_path, is_topo_order, last_index, lemma_cycle_not_dag,
    lemma_in_nbrs, lemma_last_index, lemma_out_nbrs, out_nbrs,
};

verus! {

/// The neighbours that a longest-path pass looks back through: the
/// dependencies of `v` going forward, its dependents going backward.
pub open spec fn dp_nbrs(edges: Seq<(int, int)>, v: int, fwd: bool) -> Seq<int> {
    if fwd {
        in_nbrs(edges, v)
    } else {
        out_nbrs(edges, v)
    }
}

/// Over the neighbours `nb` of `order[k]`, those already passed (before
/// position `k`): the greatest distance plus one, and the first neighbour that
/// gives it; `(0, None)` when no neighbour has been passed.
pub open spec fn dp_scan(edges: Seq<(int, int)>, order: Seq<int>, fwd: bool, k: int, nb: Seq<int>) -> (
    nat,
    Option<int>,
)
    decreases k, nb.len(),
{
    if nb.len() == 0 || !(0 <= k <= order.len()) {
        (0, None)
    } else {
        let prev = dp_scan(edges, order, fwd, k, nb.drop_last());
        let u = nb.last();
        if order.take(k).contains(u) {
            let i = order.take(k).index_of(u);
            let du = dp_dist(edges, order, fwd, i) + 1;
            if du > prev.0 {
                (du, Some(u))
            } else {
                prev
            }
        } else {
            prev
        }
    }
}

/// The distance a pass over `order` gives the node at position `k`: the
/// length of the longest chain into it through nodes passed before it.
pub open spec fn dp_dist(edges: Seq<(int, int)>, order: Seq<int>, fwd: bool, k: int) -> nat
    decreases k + 1, 0nat,
{
    if 0 <= k < order.len() {
        dp_scan(edges, order, fwd, k, dp_nbrs(edges, order[k], fwd)).0
    } else {
        0
    }
}

/// The predecessor a pass gives the node at position `k`.
pub open spec fn dp_pred(edges: Seq<(int, int)>, order: Seq<int>, fwd: bool, k: int) -> Option<int> {
    if 0 <= k < order.len() {
        dp_scan(edges, order, fwd, k, dp_nbrs(edges, order[k], fwd)).1
    } else {
        None
    }
}

/// The chain of predecessors ending at the node at position `k`, first node first.
pub open spec fn dp_chain(edges: Seq<(int, int)>, order: Seq<int>, fwd: bool, k: int) -> Seq<int>
    decreases k,
{
    if !(0 <= k < order.len()) {
        Seq::empty()
    } else {
        match dp_pred(edges, order, fwd, k) {
            Some(u) => if order.take(k).contains(u) {
                dp_chain(edges, order, fwd, order.take(k).index_of(u)).push(order[k])
            } else {
                seq![order[k]]
            },
            None => seq![order[k]],
        }
    }
}

/// The greatest distance among the first `k` positions, and the first
/// position that has it (`None` when every distance is 0).
pub open spec fn best_upto(edges: Seq<(int, int)>, order: Seq<int>, k: int) -> (nat, Option<int>)
    decreases k,
{
    if k <= 0 {
        (0, None)
    } else {
        let prev = best_upto(edges, order, k - 1);
        let d = dp_dist(edges, order, true, k - 1);
        if d > prev.0 {
            (d, Some(k - 1))
        } else {
            prev
        }
    }
}

/// The longest chain found by a forward pass over `order`: its length in
/// edges, and the names along it (a single first node when no edge is used).
pub open spec fn longest_in_order(names: Seq<Seq<char>>, edges: Seq<(int, int)>, order: Seq<int>) -> (
    nat,
    Seq<Seq<char>>,
) {
    let best = best_upto(edges, order, order.len() as int);
    let path = match best.1 {
        Some(k) => dp_chain(edges, order, true, k).map_values(|v: int| names[v]),
        None => if order.len() > 0 {
            seq![names[order[0]]]
        } else {
            Seq::empty()
        },
    };
    (best.0, path)
}

/// `path` names, in order, the nodes of a walk of `len` edges through a
/// graph whose nodes are named `names`.
pub open spec fn names_walk(names: Seq<Seq<char>>, edges: Seq<(int, int)>, len: nat, path: Seq<Seq<char>>) -> bool {
    exists|c: Seq<int>|
        #[trigger] is_path(edges, c) && c.len() == len + 1 && (forall|i: int|
            0 <= i < c.len() ==> 0 <= #[trigger] c[i] < names.len()) && path == c.map_values(
            |v: int| names[v],
        )
}

/// No walk through the graph (of `n` nodes) has more than `len` edges.
pub open spec fn no_longer_walk(n: int, edges: Seq<(int, int)>, len: nat) -> bool {
    forall|p: Seq<int>| #[trigger] is_path(edges, p) && 0 <= p.last() < n ==> p.len() - 1 <= len
}

/// `path` names, in order, the nodes of a walk of `len` edges that passes
/// through node `s`.
pub open spec fn names_walk_through(
    names: Seq<Seq<char>>,
    edges: Seq<(int, int)>,
    len: nat,
    path: Seq<Seq<char>>,
    s: int,
) -> bool {
    exists|c: Seq<int>|
        #[trigger] is_path(edges, c) && c.len() == len + 1 && c.contains(s) && (forall|i: int|
            0 <= i < c.len() ==> 0 <= #[trigger] c[i] < names.len()) && path == c.map_values(
            |v: int| names[v],
        )
}

/// No walk through node `s` has more than `len` edges.
pub open spec fn no_longer_walk_through(edges: Seq<(int, int)>, len: nat, s: int) -> bool {
    forall|p: Seq<int>| #[trigger] is_path(edges, p) && p.contains(s) ==> p.len() - 1 <= len
}

/// `order` lists distinct nodes of a graph with `n` nodes.
pub open spec fn valid_order(order: Seq<int>, n: int) -> bool {
    &&& order.no_duplicates()
    &&& forall|k: int| 0 <= k < order.len() ==> 0 <= #[trigger] order[k] < n
}

/// The sequence as integers.
pub open spec fn ints(v: Seq<usize>) -> Seq<int> {
    v.map_values(|u: usize| u as int)
}

/// An optional index as an integer.
pub open spec fn opt_int(o: Option<usize>) -> Option<int> {
    match o {
        Some(u) => Some(u as int),
        None => None,
    }
}

// ---------------------------------------------------------------------------
// Lemmas
// ---------------------------------------------------------------------------
/// In a sequence without duplicates, the element at `i < k` is found at `i`
/// in the first `k` elements.
pub proof fn lemma_take_index(order: Seq<int>, k: int, i: int)
    requires
        order.no_duplicates(),
        0 <= i < k <= order.len(),
    ensures
        order.take(k).contains(order[i]),
        order.take(k).index_of(order[i]) == i,
{
    assert(order.take(k)[i] == order[i]);
    let j = order.take(k).index_of(order[i]);
    assert(order[j] == order[i]);
}

/// An element found in the first `k` elements is found there below `k`.
pub proof fn lemma_take_contains(order: Seq<int>, k: int, u: int)
    requires
        0 <= k <= order.len(),
        order.take(k).contains(u),
    ensures
        0 <= order.take(k).index_of(u) < k,
        order[order.take(k).index_of(u)] == u,
{
}

proof fn lemma_scan_bound(edges: Seq<(int, int)>, order: Seq<int>, fwd: bool, k: int, nb: Seq<int>)
    requires
        0 <= k <= order.len(),
        forall|i: int| 0 <= i < k ==> dp_dist(edges, order, fwd, i) <= i,
    ensures
        dp_scan(edges, order, fwd, k, nb).0 <= k,
        dp_scan(edges, order, fwd, k, nb).1 matches Some(u) ==> order.take(k).contains(u)
            && dp_scan(edges, order, fwd, k, nb).0 == dp_dist(
            edges,
            order,
            fwd,
            order.take(k).index_of(u),
        ) + 1,
        dp_scan(edges, order, fwd, k, nb).1 is None ==> dp_scan(edges, order, fwd, k, nb).0 == 0,
    decreases nb.len(),
{
    if nb.len() > 0 {
        lemma_scan_bound(edges, order, fwd, k, nb.drop_last());
        let u = nb.last();
        let prev = dp_scan(edges, order, fwd, k, nb.drop_last());
        if order.take(k).contains(u) {
            lemma_take_contains(order, k, u);
            let i = order.take(k).index_of(u);
            assert(dp_dist(edges, order, fwd, i) <= i);
            if dp_dist(edges, order, fwd, i) + 1 > prev.0 {
                assert(dp_scan(edges, order, fwd, k, nb) == (dp_dist(edges, order, fwd, i) + 1, Some(u)));
            } else {
                assert(dp_scan(edges, order, fwd, k, nb) == prev);
            }
        } else {
            assert(dp_scan(edges, order, fwd, k, nb) == prev);
        }
    }
}

/// A node's distance is at most its position.
pub proof fn lemma_dist_bound(edges: Seq<(int, int)>, order: Seq<int>, fwd: bool, k: int)
    requires
        0 <= k < order.len(),
    ensures
        forall|i: int| 0 <= i <= k ==> dp_dist(edges, order, fwd, i) <= i,
    decreases k,
{
    if k > 0 {
        lemma_dist_bound(edges, order, fwd, k - 1);
    }
    lemma_scan_bound(edges, order, fwd, k, dp_nbrs(edges, order[k], fwd));
    assert forall|i: int| 0 <= i <= k implies dp_dist(edges, order, fwd, i) <= i by {
        if i == k {
        }
    }
}

/// What a node's predecessor is: a neighbour passed before it, one closer.
pub proof fn lemma_pred(edges: Seq<(int, int)>, order: Seq<int>, fwd: bool, k: int)
    requires
        0 <= k < order.len(),
    ensures
        dp_pred(edges, order, fwd, k) matches Some(u) ==> {
            &&& order.take(k).contains(u)
            &&& dp_nbrs(edges, order[k], fwd).contains(u)
            &&& dp_dist(edges, order, fwd, k) == dp_dist(
                edges,
                order,
                fwd,
                order.take(k).index_of(u),
            ) + 1
        },
        dp_pred(edges, order, fwd, k) is None ==> dp_dist(edges, order, fwd, k) == 0,
        dp_dist(edges, order, fwd, k) <= k,
{
    lemma_dist_bound(edges, order, fwd, k);
    if k > 0 {
        lemma_dist_bound(edges, order, fwd, k - 1);
    }
    lemma_scan_bound(edges, order, fwd, k, dp_nbrs(edges, order[k], fwd));
    lemma_scan_member(edges, order, fwd, k, dp_nbrs(edges, order[k], fwd));
}

proof fn lemma_scan_member(edges: Seq<(int, int)>, order: Seq<int>, fwd: bool, k: int, nb: Seq<int>)
    ensures
        dp_scan(edges, order, fwd, k, nb).1 matches Some(u) ==> nb.contains(u),
    decreases nb.len(),
{
    if nb.len() > 0 && 0 <= k <= order.len() {
        lemma_scan_member(edges, order, fwd, k, nb.drop_last());
        if let Some(u) = dp_scan(edges, order, fwd, k, nb.drop_last()).1 {
            let i = choose|i: int| 0 <= i < nb.drop_last().len() && nb.drop_last()[i] == u;
            assert(nb[i] == u);
        }
        assert(nb[nb.len() - 1] == nb.last());
    }
}

// ---------------------------------------------------------------------------
// Executable passes
// ---------------------------------------------------------------------------
/// The distance and predecessor that a pass over `order` gives the node at
/// position `k`, from the distances of the nodes before it.
fn scan_node(graph: &DependencyGraph, order: &Vec<usize>, fwd: bool, k: usize, dist: &Vec<Option<usize>>) -> (r: (usize, Option<usize>))
    requires
        valid_order(ints(order@), graph.nodes().len() as int),
        k < order@.len(),
        dist@.len() == graph.nodes().len(),
        forall|j: int|
            0 <= j < k ==> #[trigger] dist@[order@[j] as int] == Some(
                dp_dist(graph.edges(), ints(order@), fwd, j) as usize,
            ),
        forall|x: int|
            0 <= x < graph.nodes().len() && !ints(order@).take(k as int).contains(x)
                ==> #[trigger] dist@[x] is None,
    ensures
        r.0 as nat == dp_dist(graph.edges(), ints(order@), fwd, k as int),
        opt_int(r.1) == dp_pred(graph.edges(), ints(order@), fwd, k as int),
{
    let ghost edges = graph.edges();
    let ghost ord = ints(order@);
    let n = graph.node_count();
    let v = order[k];
    assert(ord[k as int] == v as int);
    let nb = if fwd {
        graph.neighbors(v, Dir::Incoming)
    } else {
        graph.neighbors(v, Dir::Outgoing)
    };
    let ghost nbv = ints(nb@);
    assert(nbv == dp_nbrs(edges, ord[k as int], fwd));
    proof {
        lemma_dist_bound(edges, ord, fwd, k as int);
    }
    let mut best: usize = 0;
    let mut bp: Option<usize> = None;
    let mut t: usize = 0;
    while t < nb.len()
        invariant
            n == graph.nodes().len(),
            edges == graph.edges(),
            ord == ints(order@),
            valid_order(ord, n as int),
            k < order@.len(),
            dist@.len() == n,
            nbv == ints(nb@),
            forall|i: int| 0 <= i < nb@.len() ==> canonical(graph.names(), #[trigger] nb@[i] as int),
            t <= nb@.len(),
            forall|j: int|
                0 <= j < k ==> #[trigger] dist@[order@[j] as int] == Some(
                    dp_dist(edges, ord, fwd, j) as usize,
                ),
            forall|x: int|
                0 <= x < n && !ord.take(k as int).contains(x) ==> #[trigger] dist@[x] is None,
            forall|i: int| 0 <= i <= k ==> dp_dist(edges, ord, fwd, i) <= i,
            (best as nat, opt_int(bp)) == dp_scan(edges, ord, fwd, k as int, nbv.take(t as int)),
        decreases nb@.len() - t,
    {
        let u = nb[t];
        assert(canonical(graph.names(), u as int));
        assert(nbv.take(t + 1).drop_last() =~= nbv.take(t as int));
        assert(nbv.take(t + 1).last() == u as int);
        match dist[u] {
            Some(d) => {
                assert(ord.take(k as int).contains(u as int));
                let ghost i = ord.take(k as int).index_of(u as int);
                proof {
                    lemma_take_contains(ord, k as int, u as int);
                    lemma_take_index(ord, k as int, i);
                    assert(ord[i] == order@[i] as int);
                    assert(dist@[order@[i] as int] == Some(dp_dist(edges, ord, fwd, i) as usize));
                }
                if d + 1 > best {
                    best = d + 1;
                    bp = Some(u);
                }
            },
            None => {},
        }
        t = t + 1;
    }
    assert(nbv.take(nb@.len() as int) =~= nbv);
    (best, bp)
}

/// A longest-path pass over `order`: for each node passed, its distance and
/// predecessor; `None` for nodes not in `order`.
fn dp_pass(graph: &DependencyGraph, order: &Vec<usize>, fwd: bool) -> (r: (
    Vec<Option<usize>>,
    Vec<Option<usize>>,
))
    requires
        valid_order(ints(order@), graph.nodes().len() as int),
    ensures
        r.0@.len() == graph.nodes().len(),
        r.1@.len() == graph.nodes().len(),
        forall|k: int|
            0 <= k < order@.len() ==> #[trigger] r.0@[order@[k] as int] == Some(
                dp_dist(graph.edges(), ints(order@), fwd, k) as usize,
            ),
        forall|k: int|
            0 <= k < order@.len() ==> opt_int(#[trigger] r.1@[order@[k] as int]) == dp_pred(
                graph.edges(),
                ints(order@),
                fwd,
                k,
            ),
        forall|w: int|
            0 <= w < graph.nodes().len() && !ints(order@).contains(w) ==> #[trigger] r.0@[w] is None
                && r.1@[w] is None,
{
    let ghost edges = graph.edges();
    let ghost ord = ints(order@);
    let n = graph.node_count();
    let mut dist: Vec<Option<usize>> = Vec::new();
    let mut pred: Vec<Option<usize>> = Vec::new();
    let mut w: usize = 0;
    while w < n
        invariant
            w <= n,
            dist@.len() == w,
            pred@.len() == w,
            forall|i: int| 0 <= i < w ==> #[trigger] dist@[i] is None,
            forall|i: int| 0 <= i < w ==> #[trigger] pred@[i] is None,
        decreases n - w,
    {
        dist.push(None);
        pred.push(None);
        w = w + 1;
    }
    let mut k: usize = 0;
    while k < order.len()
        invariant
            n == graph.nodes().len(),
            edges == graph.edges(),
            ord == ints(order@),
            valid_order(ord, n as int),
            k <= order@.len(),
            dist@.len() == n,
            pred@.len() == n,
            forall|j: int|
                0 <= j < k ==> #[trigger] dist@[order@[j] as int] == Some(
                    dp_dist(edges, ord, fwd, j) as usize,
                ),
            forall|j: int|
                0 <= j < k ==> opt_int(#[trigger] pred@[order@[j] as int]) == dp_pred(
                    edges,
                    ord,
                    fwd,
                    j,
                ),
            forall|x: int|
                0 <= x < n && !ord.take(k as int).contains(x) ==> #[trigger] dist@[x] is None,
            forall|x: int|
                0 <= x < n && !ord.take(k as int).contains(x) ==> #[trigger] pred@[x] is None,
        decreases order@.len() - k,
    {
        let v = order[k];
        assert(ord[k as int] == v as int);
        let (best, bp) = scan_node(graph, order, fwd, k, &dist);
        let ghost old_dist = dist@;
        let ghost old_pred = pred@;
        let ghost kk = k as int;
        dist.set(v, Some(best));
        pred.set(v, bp);
        k = k + 1;
        proof {
            assert forall|j: int| 0 <= j < k implies #[trigger] dist@[order@[j] as int] == Some(
                dp_dist(edges, ord, fwd, j) as usize,
            ) by {
                if j < kk {
                    assert(ord[j] != ord[kk]);
                    assert(old_dist[order@[j] as int] == Some(dp_dist(edges, ord, fwd, j) as usize));
                }
            }
            assert forall|j: int| 0 <= j < k implies opt_int(#[trigger] pred@[order@[j] as int])
                == dp_pred(edges, ord, fwd, j) by {
                if j < kk {
                    assert(ord[j] != ord[kk]);
                    assert(opt_int(old_pred[order@[j] as int]) == dp_pred(edges, ord, fwd, j));
                }
            }
            assert forall|x: int|
                0 <= x < n && !ord.take(k as int).contains(x) implies #[trigger] dist@[x] is None by {
                assert(ord.take(k as int)[kk] == v as int);
                assert(x != v);
                if ord.take(kk).contains(x) {
                    let i = choose|i: int| 0 <= i < kk && ord.take(kk)[i] == x;
                    assert(ord.take(k as int)[i] == x);
                }
                assert(old_dist[x] is None);
            }
            assert forall|x: int|
                0 <= x < n && !ord.take(k as int).contains(x) implies #[trigger] pred@[x] is None by {
                assert(ord.take(k as int)[kk] == v as int);
                assert(x != v);
                if ord.take(kk).contains(x) {
                    let i = choose|i: int| 0 <= i < kk && ord.take(kk)[i] == x;
                    assert(ord.take(k as int)[i] == x);
                }
                assert(old_pred[x] is None);
            }
        }
    }
    assert(ord.take(order@.len() as int) =~= ord);
    (dist, pred)
}

/// The nodes met following predecessors from `v`: `v` first.
fn follow(pred: &Vec<Option<usize>>, v: usize, ord: Ghost<Seq<int>>, edges: Ghost<Seq<(int, int)>>, fwd: Ghost<bool>, k: Ghost<int>) -> (r: Vec<usize>)
    requires
        0 <= k@ < ord@.len(),
        ord@[k@] == v as int,
        ord@.no_duplicates(),
        forall|j: int| 0 <= j < ord@.len() ==> 0 <= #[trigger] ord@[j] < pred@.len(),
        forall|j: int|
            0 <= j < ord@.len() ==> opt_int(#[trigger] pred@[ord@[j]]) == dp_pred(
                edges@,
                ord@,
                fwd@,
                j,
            ),
    ensures
        ints(r@) == dp_chain(edges@, ord@, fwd@, k@).reverse(),
{
    let mut r: Vec<usize> = Vec::new();
    let mut cur = v;
    let ghost mut p: int = k@;
    loop
        invariant
            0 <= p < ord@.len(),
            ord@[p] == cur as int,
            0 <= k@ < ord@.len(),
            ord@.no_duplicates(),
            forall|j: int| 0 <= j < ord@.len() ==> 0 <= #[trigger] ord@[j] < pred@.len(),
            forall|j: int|
                0 <= j < ord@.len() ==> opt_int(#[trigger] pred@[ord@[j]]) == dp_pred(
                    edges@,
                    ord@,
                    fwd@,
                    j,
                ),
            ints(r@) + dp_chain(edges@, ord@, fwd@, p).reverse() == dp_chain(
                edges@,
                ord@,
                fwd@,
                k@,
            ).reverse(),
        decreases p,
    {
        let ghost before = r@;
        r.push(cur);
        proof {
            lemma_pred(edges@, ord@, fwd@, p);
            assert(ord@[p] == cur as int);
            assert(opt_int(pred@[ord@[p]]) == dp_pred(edges@, ord@, fwd@, p));
        }
        match pred[cur] {
            Some(u) => {
                let ghost q = ord@.take(p).index_of(u as int);
                proof {
                    lemma_take_contains(ord@, p, u as int);
                    let c = dp_chain(edges@, ord@, fwd@, q);
                    assert(dp_chain(edges@, ord@, fwd@, p) == c.push(cur as int));
                    assert(c.push(cur as int).reverse() =~= seq![cur as int] + c.reverse());
                    assert(ints(r@) =~= ints(before).push(cur as int));
                    assert(ints(r@) + c.reverse() =~= ints(before) + (seq![cur as int]
                        + c.reverse()));
                    p = q;
                }
                cur = u;
            },
            None => {
                proof {
                    assert(dp_chain(edges@, ord@, fwd@, p) == seq![cur as int]);
                    assert(seq![cur as int].reverse() =~= seq![cur as int]);
                    assert(ints(r@) =~= ints(before).push(cur as int));
                }
                return r;
            },
        }
    }
}


/// The names of the nodes `v`, last node first.
fn names_reversed(graph: &DependencyGraph, v: &Vec<usize>) -> (r: Vec<String>)
    requires
        forall|i: int| 0 <= i < v@.len() ==> #[trigger] v@[i] < graph.nodes().len(),
    ensures
        strings_view(r@) == ints(v@).reverse().map_values(|x: int| graph.names()[x]),
{
    let mut r: Vec<String> = Vec::new();
    let mut i: usize = v.len();
    while i > 0
        invariant
            i <= v@.len(),
            forall|i: int| 0 <= i < v@.len() ==> #[trigger] v@[i] < graph.nodes().len(),
            r@.len() == v@.len() - i,
            forall|j: int|
                0 <= j < r@.len() ==> #[trigger] r@[j]@ == graph.names()[v@[v@.len() - 1 - j] as int],
        decreases i,
    {
        let c = graph.node_at(v[i - 1]);
        assert(graph.names()[v@[i - 1] as int] == c.name@);
        r.push(c.name.clone());
        i = i - 1;
    }
    assert(strings_view(r@) =~= ints(v@).reverse().map_values(|x: int| graph.names()[x]));
    r
}

/// The names of the nodes `v` from position `from` on, in order.
fn names_from(graph: &DependencyGraph, v: &Vec<usize>, from: usize) -> (r: Vec<String>)
    requires
        from <= v@.len(),
        forall|i: int| 0 <= i < v@.len() ==> #[trigger] v@[i] < graph.nodes().len(),
    ensures
        strings_view(r@) == ints(v@).skip(from as int).map_values(|x: int| graph.names()[x]),
{
    let mut r: Vec<String> = Vec::new();
    let mut i: usize = from;
    while i < v.len()
        invariant
            from <= i <= v@.len(),
            forall|i: int| 0 <= i < v@.len() ==> #[trigger] v@[i] < graph.nodes().len(),
            r@.len() == i - from,
            forall|j: int|
                0 <= j < r@.len() ==> #[trigger] r@[j]@ == graph.names()[v@[from + j] as int],
        decreases v@.len() - i,
    {
        let c = graph.node_at(v[i]);
        assert(graph.names()[v@[i as int] as int] == c.name@);
        r.push(c.name.clone());
        i = i + 1;
    }
    assert(strings_view(r@) =~= ints(v@).skip(from as int).map_values(|x: int| graph.names()[x]));
    r
}

/// The elements of `v` in reverse order.
fn reversed(v: &Vec<usize>) -> (r: Vec<usize>)
    ensures
        r@ == v@.reverse(),
{
    let mut r: Vec<usize> = Vec::new();
    let mut i: usize = v.len();
    while i > 0
        invariant
            i <= v@.len(),
            r@.len() == v@.len() - i,
            forall|j: int| 0 <= j < r@.len() ==> #[trigger] r@[j] == v@[v@.len() - 1 - j],
        decreases i,
    {
        r.push(v[i - 1]);
        i = i - 1;
    }
    assert(r@ =~= v@.reverse());
    r
}

/// The order used by the longest-chain search through a named crate: the
/// topological order, or no node at all when the graph has a cycle.
pub open spec fn through_order(n: nat, edges: Seq<(int, int)>) -> Seq<int> {
    match toposort_result(n, edges) {
        Ok(o) => ints(o),
        Err(_) => Seq::empty(),
    }
}

/// The longest chain through node `start` from a forward pass over `order`
/// and a backward pass over its reverse: the sum of the two distances, and
/// the names from the start of the chain into `start` to the end of the
/// chain out of it. A node not in `order` gets length 0 and itself alone.
pub open spec fn through_in_order(
    names: Seq<Seq<char>>,
    edges: Seq<(int, int)>,
    order: Seq<int>,
    start: int,
) -> (nat, Seq<Seq<char>>) {
    let rorder = order.reverse();
    let to = if order.contains(start) {
        dp_dist(edges, order, true, order.index_of(start))
    } else {
        0
    };
    let from = if rorder.contains(start) {
        dp_dist(edges, rorder, false, rorder.index_of(start))
    } else {
        0
    };
    let chain_to = if order.contains(start) {
        dp_chain(edges, order, true, order.index_of(start))
    } else {
        seq![start]
    };
    let chain_from = if rorder.contains(start) {
        dp_chain(edges, rorder, false, rorder.index_of(start)).reverse().drop_first()
    } else {
        Seq::empty()
    };
    (to + from, (chain_to + chain_from).map_values(|v: int| names[v]))
}

/// The orders that toposort returns are valid orders.
proof fn lemma_toposort_valid(n: nat, edges: Seq<(int, int)>, o: Seq<usize>)
    requires
        crate::model::is_topo_order(n as int, edges, ints(o)),
    ensures
        valid_order(ints(o), n as int),
        o.len() == n,
{
}

/// The distance a pass over `order` gives `start`, and the nodes met
/// following predecessors from `start` (`start` first); `(0, [])` when
/// `start` is not in `order`.
fn chain_part(
    graph: &DependencyGraph,
    order: &Vec<usize>,
    fwd: bool,
    dist: &Vec<Option<usize>>,
    pred: &Vec<Option<usize>>,
    start: usize,
) -> (r: (usize, Vec<usize>))
    requires
        valid_order(ints(order@), graph.nodes().len() as int),
        start < graph.nodes().len(),
        dist@.len() == graph.nodes().len(),
        pred@.len() == graph.nodes().len(),
        forall|k: int|
            0 <= k < order@.len() ==> #[trigger] dist@[order@[k] as int] == Some(
                dp_dist(graph.edges(), ints(order@), fwd, k) as usize,
            ),
        forall|k: int|
            0 <= k < order@.len() ==> opt_int(#[trigger] pred@[order@[k] as int]) == dp_pred(
                graph.edges(),
                ints(order@),
                fwd,
                k,
            ),
        forall|w: int|
            0 <= w < graph.nodes().len() && !ints(order@).contains(w) ==> #[trigger] dist@[w] is None
                && pred@[w] is None,
    ensures
        dist@[start as int] is Some <==> ints(order@).contains(start as int),
        ints(order@).contains(start as int) ==> {
            let k = ints(order@).index_of(start as int);
            &&& r.0 as nat == dp_dist(graph.edges(), ints(order@), fwd, k)
            &&& ints(r.1@) == dp_chain(graph.edges(), ints(order@), fwd, k).reverse()
            &&& r.1@.len() >= 1
            &&& forall|i: int| 0 <= i < r.1@.len() ==> #[trigger] r.1@[i] < graph.nodes().len()
        },
        !ints(order@).contains(start as int) ==> r.0 == 0 && r.1@.len() == 0,
{
    let ghost edges = graph.edges();
    let ghost ord = ints(order@);
    let ghost s = start as int;
    let ghost n = graph.nodes().len() as int;
    let len = order.len();
    match dist[start] {
        Some(d) => {
            assert(ord.contains(s));
            let ghost k = ord.index_of(s);
            assert(ord[k] == order@[k] as int);
            assert(dist@[order@[k] as int] == Some(dp_dist(edges, ord, fwd, k) as usize));
            proof {
                lemma_dist_bound(edges, ord, fwd, k);
            }
            assert forall|j: int| 0 <= j < ord.len() implies 0 <= #[trigger] ord[j] < pred@.len() by {
                assert(ord[j] == order@[j] as int);
            }
            assert forall|j: int| 0 <= j < ord.len() implies opt_int(#[trigger] pred@[ord[j]])
                == dp_pred(edges, ord, fwd, j) by {
                assert(ord[j] == order@[j] as int);
            }
            let chain = follow(pred, start, Ghost(ord), Ghost(edges), Ghost(fwd), Ghost(k));
            proof {
                lemma_chain_nodes(edges, ord, fwd, k, n);
                let c = dp_chain(edges, ord, fwd, k);
                assert(ints(chain@).len() == chain@.len());
                assert forall|i: int| 0 <= i < chain@.len() implies #[trigger] chain@[i] < n by {
                    assert(c.reverse().len() == c.len());
                    assert(ints(chain@)[i] == chain@[i] as int);
                    assert(ints(chain@)[i] == c.reverse()[i]);
                    assert(c.reverse()[i] == c[c.len() - 1 - i]);
                    assert(0 <= c[c.len() - 1 - i] < n);
                }
                assert(c.reverse().len() == c.len());
                assert(chain@.len() >= 1);
                assert(dp_dist(edges, ord, fwd, k) <= k);
                assert(k < ord.len() == order@.len());
                assert(d as nat == dp_dist(edges, ord, fwd, k));
            }
            (d, chain)
        },
        None => {
            proof {
                if ord.contains(s) {
                    let k = ord.index_of(s);
                    assert(ord[k] == order@[k] as int);
                    assert(dist@[order@[k] as int] is Some);
                }
            }
            (0, Vec::new())
        },
    }
}

/// A depth-first visit of `v` through dependency edges that skips nodes
/// already visited and nodes on the current `stack` (so cycles are cut): the
/// node is appended to `result` after all its dependencies.
pub open spec fn dfs_visit(
    edges: Seq<(int, int)>,
    n: int,
    v: int,
    stack: Seq<int>,
    visited: Seq<bool>,
    result: Seq<int>,
) -> (Seq<bool>, Seq<int>)
    decreases n - stack.len(), 1nat, 0nat,
{
    if !(0 <= v < visited.len()) || visited[v] || stack.contains(v) || stack.len() >= n {
        (visited, result)
    } else {
        let after = dfs_visit_all(edges, n, in_nbrs(edges, v), stack.push(v), visited, result);
        (after.0.update(v, true), after.1.push(v))
    }
}

/// Depth-first visits of the nodes `nbs`, in order.
pub open spec fn dfs_visit_all(
    edges: Seq<(int, int)>,
    n: int,
    nbs: Seq<int>,
    stack: Seq<int>,
    visited: Seq<bool>,
    result: Seq<int>,
) -> (Seq<bool>, Seq<int>)
    decreases n - stack.len(), 2nat, nbs.len(),
{
    if nbs.len() == 0 || stack.len() > n {
        (visited, result)
    } else {
        let first = dfs_visit(edges, n, nbs[0], stack, visited, result);
        dfs_visit_all(edges, n, nbs.drop_first(), stack, first.0, first.1)
    }
}

/// Depth-first visits of the nodes `0 .. k`, from nothing visited.
pub open spec fn dfs_upto(edges: Seq<(int, int)>, n: int, k: int) -> (Seq<bool>, Seq<int>)
    decreases k,
{
    if k <= 0 {
        (Seq::new(n as nat, |i: int| false), Seq::empty())
    } else {
        let prev = dfs_upto(edges, n, k - 1);
        dfs_visit(edges, n, k - 1, Seq::empty(), prev.0, prev.1)
    }
}

/// The order in which depth-first visits of all nodes finish: each node
/// after the dependencies reached from it, with cycles cut.
pub open spec fn dfs_order(n: nat, edges: Seq<(int, int)>) -> Seq<int> {
    dfs_upto(edges, n as int, n as int).1
}

/// The visited flags agree with the nodes listed, which are distinct nodes.
pub open spec fn dfs_state(n: int, visited: Seq<bool>, result: Seq<int>) -> bool {
    &&& visited.len() == n
    &&& result.no_duplicates()
    &&& forall|k: int| 0 <= k < result.len() ==> 0 <= #[trigger] result[k] < n
    &&& forall|w: int| 0 <= w < n ==> (#[trigger] visited[w] <==> result.contains(w))
}

/// Each node listed comes after those of its dependencies that are not
/// reached back from it: a dependency is listed earlier, or a walk leads
/// from the node back to it.
pub open spec fn deps_first(edges: Seq<(int, int)>, r: Seq<int>) -> bool {
    forall|i: int, u: int|
        0 <= i < r.len() && #[trigger] has_edge(edges, u, r[i]) ==> r.take(i).contains(u) || walk_between(
            edges,
            r[i],
            u,
        )
}

/// Each node of the stack is a dependency of the one below it.
pub open spec fn stack_chain(edges: Seq<(int, int)>, st: Seq<int>) -> bool {
    forall|k: int| 0 <= k < st.len() - 1 ==> #[trigger] has_edge(edges, st[k + 1], st[k])
}

/// From the top of a chain, a walk leads to each node of it.
proof fn lemma_chain_reaches(edges: Seq<(int, int)>, st: Seq<int>, i: int)
    requires
        stack_chain(edges, st),
        0 <= i < st.len(),
    ensures
        walk_between(edges, st.last(), st[i]),
{
    let p = st.subrange(i, st.len() as int).reverse();
    assert forall|t: int| 0 <= t < p.len() - 1 implies #[trigger] crate::model::path_step(edges, p, t) by {
        let k = st.len() - 2 - t;
        assert(p[t] == st[k + 1]);
        assert(p[t + 1] == st[k]);
        assert(has_edge(edges, st[k + 1], st[k]));
    }
    assert(is_path(edges, p));
    assert(p[0] == st.last());
    assert(p.last() == st[i]);
}

/// Visit `node` depth-first, as [`dfs_visit`] says.
fn dfs_topo(
    graph: &DependencyGraph,
    node: usize,
    visited: &mut Vec<bool>,
    on_stack: &mut Vec<bool>,
    result: &mut Vec<usize>,
    stack: Ghost<Seq<int>>,
)
    requires
        node < graph.nodes().len(),
        old(on_stack)@.len() == graph.nodes().len(),
        dfs_state(graph.nodes().len() as int, old(visited)@, ints(old(result)@)),
        stack@.no_duplicates(),
        forall|k: int| 0 <= k < stack@.len() ==> 0 <= #[trigger] stack@[k] < graph.nodes().len(),
        forall|w: int|
            0 <= w < graph.nodes().len() ==> (#[trigger] old(on_stack)@[w] <==> stack@.contains(w)),
        stack_chain(graph.edges(), stack@),
        stack@.len() > 0 ==> has_edge(graph.edges(), node as int, stack@.last()),
        deps_first(graph.edges(), ints(old(result)@)),
    ensures
        deps_first(graph.edges(), ints(final(result)@)),
        (final(visited)@, ints(final(result)@)) == dfs_visit(
            graph.edges(),
            graph.nodes().len() as int,
            node as int,
            stack@,
            old(visited)@,
            ints(old(result)@),
        ),
        final(on_stack)@ == old(on_stack)@,
        dfs_state(graph.nodes().len() as int, final(visited)@, ints(final(result)@)),
        forall|w: int|
            0 <= w < graph.nodes().len() && stack@.contains(w) ==> #[trigger] final(visited)@[w]
                == old(visited)@[w],
        forall|w: int|
            0 <= w < graph.nodes().len() && old(visited)@[w] ==> #[trigger] final(visited)@[w],
        !stack@.contains(node as int) ==> final(visited)@[node as int],
    decreases graph.nodes().len() - stack@.len(),
{
    let ghost n = graph.nodes().len() as int;
    let ghost edges = graph.edges();
    if visited[node] {
        return;
    }
    if on_stack[node] {
        return;
    }
    proof {
        let st = stack@.push(node as int);
        assert forall|k: int| 0 <= k < st.len() implies 0 <= #[trigger] st[k] < n by {
            if k < stack@.len() {
                assert(st[k] == stack@[k]);
            }
        }
        crate::model::lemma_distinct_bounded(st, 0, n);
    }
    let ghost st = stack@.push(node as int);
    let ghost vis0 = visited@;
    let ghost res0 = ints(result@);
    on_stack.set(node, true);
    assert(st[st.len() - 1] == node as int);
    assert forall|w: int| 0 <= w < n implies (#[trigger] on_stack@[w] <==> st.contains(w)) by {
        if w != node as int {
            if stack@.contains(w) {
                let j = choose|j: int| 0 <= j < stack@.len() && stack@[j] == w;
                assert(st[j] == w);
            }
            if st.contains(w) {
                let j = choose|j: int| 0 <= j < st.len() && st[j] == w;
                assert(j < stack@.len());
                assert(stack@[j] == w);
            }
        }
    }
    let nbs = graph.neighbors(node, Dir::Incoming);
    let ghost nbv = ints(nbs@);
    assert(nbv =~= nbs@.map_values(|x: usize| x as int));
    assert(stack_chain(edges, st)) by {
        assert forall|k: int| 0 <= k < st.len() - 1 implies #[trigger] has_edge(edges, st[k + 1], st[k]) by {
            if k < stack@.len() - 1 {
                assert(st[k] == stack@[k] && st[k + 1] == stack@[k + 1]);
            } else {
                assert(st[k + 1] == node as int);
                assert(st[k] == stack@.last());
            }
        }
    }
    let mut i: usize = 0;
    assert(nbv.skip(0) =~= nbv);
    while i < nbs.len()
        invariant
            n == graph.nodes().len(),
            edges == graph.edges(),
            node < n,
            st == stack@.push(node as int),
            st.no_duplicates(),
            st.len() <= n,
            forall|k: int| 0 <= k < st.len() ==> 0 <= #[trigger] st[k] < n,
            nbv == ints(nbs@),
            forall|k: int| 0 <= k < nbs@.len() ==> canonical(graph.names(), #[trigger] nbs@[k] as int),
            i <= nbs@.len(),
            on_stack@.len() == n,
            forall|w: int| 0 <= w < n ==> (#[trigger] on_stack@[w] <==> st.contains(w)),
            dfs_state(n, visited@, ints(result@)),
            dfs_visit_all(edges, n, nbv, st, vis0, res0) == dfs_visit_all(
                edges,
                n,
                nbv.skip(i as int),
                st,
                visited@,
                ints(result@),
            ),
            forall|w: int| 0 <= w < n && st.contains(w) ==> #[trigger] visited@[w] == vis0[w],
            forall|w: int| 0 <= w < n && vis0[w] ==> #[trigger] visited@[w],
            stack_chain(edges, st),
            deps_first(edges, ints(result@)),
            nbv == in_nbrs(edges, node as int),
            forall|j: int| 0 <= j < i ==> #[trigger] visited@[nbv[j]] || st.contains(nbv[j]),
        decreases nbs@.len() - i,
    {
        let u = nbs[i];
        proof {
            lemma_in_nbrs(edges, node as int);
            assert(nbv[i as int] == u as int);
            assert(in_nbrs(edges, node as int)[i as int] == u as int);
            assert(st.last() == node as int);
        }
        assert(canonical(graph.names(), u as int));
        let ghost v_before = visited@;
        let ghost r_before = ints(result@);
        assert(nbv.skip(i as int)[0] == u as int);
        assert(nbv.skip(i as int).drop_first() =~= nbv.skip(i + 1));
        dfs_topo(graph, u, visited, on_stack, result, Ghost(st));
        i = i + 1;
        proof {
            assert forall|w: int| 0 <= w < n && st.contains(w) implies #[trigger] visited@[w] == vis0[w] by {
                assert(v_before[w] == vis0[w]);
            }
            assert forall|w: int| 0 <= w < n && vis0[w] implies #[trigger] visited@[w] by {
                assert(v_before[w]);
            }
            assert forall|j: int| 0 <= j < i implies #[trigger] visited@[nbv[j]] || st.contains(nbv[j]) by {
                if j < i - 1 {
                    assert(v_before[nbv[j]] || st.contains(nbv[j]));
                    assert(0 <= nbv[j] < n) by {
                        assert(nbv[j] == nbs@[j] as int);
                    }
                } else {
                    assert(nbv[j] == u as int);
                }
            }
        }
    }
    assert(nbv.skip(nbs@.len() as int) =~= Seq::<int>::empty());
    on_stack.set(node, false);
    proof {
        assert(st[st.len() - 1] == node as int);
        assert(st.contains(node as int));
        assert(!vis0[node as int]);
        assert(!visited@[node as int]);
    }
    let ghost r_before = ints(result@);
    let ghost v_before = visited@;
    visited.set(node, true);
    result.push(node);
    proof {
        assert(ints(result@) =~= r_before.push(node as int));
        assert(on_stack@ =~= old(on_stack)@) by {
            assert forall|w: int| 0 <= w < n implies on_stack@[w] == old(on_stack)@[w] by {
                if w != node as int {
                    crate::model::lemma_push_contains(stack@, node as int, w);
                }
            }
        }
        assert(!r_before.contains(node as int));
        assert forall|w: int| 0 <= w < n implies (#[trigger] visited@[w] <==> ints(result@).contains(w)) by {
            if w != node as int {
                assert(visited@[w] == v_before[w]);
                if r_before.contains(w) {
                    let k = choose|k: int| 0 <= k < r_before.len() && r_before[k] == w;
                    assert(ints(result@)[k] == w);
                }
                if ints(result@).contains(w) {
                    let k = choose|k: int| 0 <= k < ints(result@).len() && ints(result@)[k] == w;
                    assert(k < r_before.len());
                    assert(r_before[k] == w);
                }
            } else {
                assert(ints(result@)[r_before.len() as int] == w);
            }
        }
        assert forall|w: int| 0 <= w < n && stack@.contains(w) implies #[trigger] visited@[w]
            == old(visited)@[w] by {
            crate::model::lemma_push_contains(stack@, node as int, w);
            assert(st.contains(w));
            assert(w != node as int);
        }
        let r = ints(result@);
        assert forall|j: int, u: int|
            0 <= j < r.len() && #[trigger] has_edge(edges, u, r[j]) implies r.take(j).contains(u) || walk_between(
            edges,
            r[j],
            u,
        ) by {
            if j < r_before.len() {
                assert(r.take(j) =~= r_before.take(j));
                assert(r[j] == r_before[j]);
                assert(has_edge(edges, u, r_before[j]));
            } else {
                assert(r[j] == node as int);
                lemma_in_nbrs(edges, node as int);
                assert(nbv.contains(u));
                let t = choose|t: int| 0 <= t < nbv.len() && nbv[t] == u;
                assert(v_before[nbv[t]] || st.contains(nbv[t]));
                if v_before[u] {
                    assert(0 <= u < n) by {
                        assert(nbv[t] == nbs@[t] as int);
                    }
                    assert(r_before.contains(u));
                    assert(r.take(j) =~= r_before);
                } else {
                    let q = choose|q: int| 0 <= q < st.len() && st[q] == u;
                    lemma_chain_reaches(edges, st, q);
                }
            }
        }
    }
}

/// The order of [`dfs_order`]: every node once.
fn dfs_order_exec(graph: &DependencyGraph) -> (r: Vec<usize>)
    ensures
        ints(r@) == dfs_order(graph.nodes().len(), graph.edges()),
        valid_order(ints(r@), graph.nodes().len() as int),
        r@.len() == graph.nodes().len(),
        forall|v: int| 0 <= v < graph.nodes().len() ==> #[trigger] ints(r@).contains(v),
        orders_acyclic_edges(graph.edges(), ints(r@)),
{
    proof {
        use_type_invariant(graph);
        graph.lemma_inv();
    }
    let ghost edges = graph.edges();
    let n = graph.node_count();
    let mut visited: Vec<bool> = Vec::new();
    let mut on_stack: Vec<bool> = Vec::new();
    let mut i: usize = 0;
    while i < n
        invariant
            i <= n,
            visited@.len() == i,
            on_stack@.len() == i,
            forall|w: int| 0 <= w < i ==> !(#[trigger] visited@[w]),
            forall|w: int| 0 <= w < i ==> !(#[trigger] on_stack@[w]),
        decreases n - i,
    {
        visited.push(false);
        on_stack.push(false);
        i = i + 1;
    }
    assert(visited@ =~= Seq::new(n as nat, |i: int| false));
    let mut result: Vec<usize> = Vec::new();
    assert(ints(result@) =~= Seq::<int>::empty());
    let mut k: usize = 0;
    while k < n
        invariant
            n == graph.nodes().len(),
            edges == graph.edges(),
            k <= n,
            on_stack@.len() == n,
            forall|w: int| 0 <= w < n ==> !(#[trigger] on_stack@[w]),
            dfs_state(n as int, visited@, ints(result@)),
            (visited@, ints(result@)) == dfs_upto(edges, n as int, k as int),
            forall|w: int| 0 <= w < k ==> #[trigger] visited@[w],
            deps_first(edges, ints(result@)),
        decreases n - k,
    {
        let ghost v_before = visited@;
        dfs_topo(graph, k, &mut visited, &mut on_stack, &mut result, Ghost(Seq::empty()));
        assert forall|w: int| 0 <= w < k + 1 implies #[trigger] visited@[w] by {
            if w < k {
                assert(v_before[w]);
            }
        }
        k = k + 1;
    }
    proof {
        let r = ints(result@);
        assert forall|w: int| 0 <= w < n implies r.contains(w) by {
            assert(visited@[w]);
        }
        r.unique_seq_to_set();
        assert(r.to_set() =~= vstd::set_lib::set_int_range(0, n as int)) by {
            assert forall|w: int| r.to_set().contains(w) implies 0 <= w < n by {
                let j = choose|j: int| 0 <= j < r.len() && r[j] == w;
            }
        }
        vstd::set_lib::lemma_int_range(0, n as int);
        assert forall|u: int, v: int|
            #[trigger] has_edge(edges, u, v) && !walk_between(edges, v, u) implies r.contains(u) && r.contains(v)
                && r.index_of(u) < r.index_of(v) by {
            let e = choose|e: int| 0 <= e < edges.len() && edges[e] == (u, v);
            assert(0 <= edges[e].0 < n && 0 <= edges[e].1 < n);
            assert(r.contains(u) && r.contains(v));
            let i = r.index_of(v);
            assert(r[i] == v);
            assert(r.take(i).contains(u));
            let j = choose|j: int| 0 <= j < i && r.take(i)[j] == u;
            assert(r[j] == u);
            assert(r.index_of(u) == j);
        }
    }
    result
}

/// `order` puts every neighbour a pass looks back through before the node.
pub open spec fn respects(edges: Seq<(int, int)>, order: Seq<int>, fwd: bool) -> bool {
    forall|k: int, u: int|
        0 <= k < order.len() && #[trigger] dp_nbrs(edges, order[k], fwd).contains(u) ==> order.take(
            k,
        ).contains(u)
}

/// Step `i` of `w` goes from a neighbour a pass looks back through.
pub open spec fn back_step(edges: Seq<(int, int)>, fwd: bool, w: Seq<int>, i: int) -> bool {
    dp_nbrs(edges, w[i + 1], fwd).contains(w[i])
}

/// `w` is a chain of such steps: a walk along edges going forward, against
/// them going backward.
pub open spec fn back_walk(edges: Seq<(int, int)>, fwd: bool, w: Seq<int>) -> bool {
    &&& w.len() >= 1
    &&& forall|i: int| 0 <= i < w.len() - 1 ==> #[trigger] back_step(edges, fwd, w, i)
}

proof fn lemma_scan_ge(edges: Seq<(int, int)>, order: Seq<int>, fwd: bool, k: int, nb: Seq<int>, u: int)
    requires
        0 <= k <= order.len(),
        nb.contains(u),
        order.take(k).contains(u),
    ensures
        dp_scan(edges, order, fwd, k, nb).0 >= dp_dist(edges, order, fwd, order.take(k).index_of(u)) + 1,
    decreases nb.len(),
{
    let rest = nb.drop_last();
    if nb.last() == u {
    } else {
        let i = choose|i: int| 0 <= i < nb.len() && nb[i] == u;
        assert(rest[i] == u);
        lemma_scan_ge(edges, order, fwd, k, rest, u);
    }
}

/// A pass gives each node at least the length of any chain of steps into it.
pub proof fn lemma_dist_longest(edges: Seq<(int, int)>, order: Seq<int>, fwd: bool, k: int, w: Seq<int>)
    requires
        respects(edges, order, fwd),
        back_walk(edges, fwd, w),
        0 <= k < order.len(),
        w.last() == order[k],
    ensures
        w.len() - 1 <= dp_dist(edges, order, fwd, k),
    decreases w.len(),
{
    if w.len() > 1 {
        let u = w[w.len() - 2];
        assert(back_step(edges, fwd, w, w.len() - 2));
        assert(dp_nbrs(edges, order[k], fwd).contains(u));
        assert(order.take(k).contains(u));
        let j = order.take(k).index_of(u);
        lemma_take_contains(order, k, u);
        let w2 = w.drop_last();
        assert forall|i: int| 0 <= i < w2.len() - 1 implies #[trigger] back_step(edges, fwd, w2, i) by {
            assert(back_step(edges, fwd, w, i));
        }
        lemma_dist_longest(edges, order, fwd, j, w2);
        lemma_scan_ge(edges, order, fwd, k, dp_nbrs(edges, order[k], fwd), u);
    }
}

/// The chain a pass gives a node is a chain of steps ending there, with one
/// node more than the node's distance.
pub proof fn lemma_chain_walk(edges: Seq<(int, int)>, order: Seq<int>, fwd: bool, k: int)
    requires
        0 <= k < order.len(),
    ensures
        back_walk(edges, fwd, dp_chain(edges, order, fwd, k)),
        dp_chain(edges, order, fwd, k).len() == dp_dist(edges, order, fwd, k) + 1,
        dp_chain(edges, order, fwd, k).last() == order[k],
    decreases k,
{
    lemma_pred(edges, order, fwd, k);
    match dp_pred(edges, order, fwd, k) {
        Some(u) => {
            let j = order.take(k).index_of(u);
            lemma_take_contains(order, k, u);
            lemma_chain_walk(edges, order, fwd, j);
            let c = dp_chain(edges, order, fwd, j);
            let c2 = c.push(order[k]);
            assert(dp_chain(edges, order, fwd, k) == c2);
            assert forall|i: int| 0 <= i < c2.len() - 1 implies #[trigger] back_step(edges, fwd, c2, i) by {
                if i < c.len() - 1 {
                    assert(back_step(edges, fwd, c, i));
                } else {
                    assert(c2[i] == u);
                    assert(c2[i + 1] == order[k]);
                }
            }
        },
        None => {
            assert(dp_chain(edges, order, fwd, k) == seq![order[k]]);
        },
    }
}

/// Going forward, a chain of steps is a walk along edges.
pub proof fn lemma_forward_walk_is_path(edges: Seq<(int, int)>, w: Seq<int>)
    requires
        back_walk(edges, true, w),
    ensures
        is_path(edges, w),
{
    assert forall|i: int| 0 <= i < w.len() - 1 implies #[trigger] crate::model::path_step(edges, w, i) by {
        assert(back_step(edges, true, w, i));
        lemma_in_nbrs(edges, w[i + 1]);
    }
}

/// Going backward, a chain of steps is a walk against the edges.
pub proof fn lemma_backward_walk_is_reverse_path(edges: Seq<(int, int)>, w: Seq<int>)
    requires
        back_walk(edges, false, w),
    ensures
        is_path(edges, w.reverse()),
{
    let r = w.reverse();
    assert forall|i: int| 0 <= i < r.len() - 1 implies #[trigger] crate::model::path_step(edges, r, i) by {
        let j = w.len() - 2 - i;
        assert(back_step(edges, false, w, j));
        lemma_out_nbrs(edges, w[j + 1]);
        assert(r[i] == w[j + 1]);
        assert(r[i + 1] == w[j]);
    }
}

/// A walk along edges is a chain of forward steps.
pub proof fn lemma_path_is_forward_walk(edges: Seq<(int, int)>, p: Seq<int>)
    requires
        is_path(edges, p),
    ensures
        back_walk(edges, true, p),
{
    assert forall|i: int| 0 <= i < p.len() - 1 implies #[trigger] back_step(edges, true, p, i) by {
        assert(crate::model::path_step(edges, p, i));
        lemma_in_nbrs(edges, p[i + 1]);
    }
}

/// The reverse of a walk along edges is a chain of backward steps.
pub proof fn lemma_reverse_path_is_backward_walk(edges: Seq<(int, int)>, p: Seq<int>)
    requires
        is_path(edges, p),
    ensures
        back_walk(edges, false, p.reverse()),
{
    let w = p.reverse();
    assert forall|i: int| 0 <= i < w.len() - 1 implies #[trigger] back_step(edges, false, w, i) by {
        let j = p.len() - 2 - i;
        assert(crate::model::path_step(edges, p, j));
        lemma_out_nbrs(edges, p[j]);
        assert(w[i] == p[j + 1]);
        assert(w[i + 1] == p[j]);
    }
}

/// A topological order puts each node's dependencies before it.
pub proof fn lemma_topo_respects(n: int, edges: Seq<(int, int)>, order: Seq<int>)
    requires
        is_topo_order(n, edges, order),
        forall|k: int| 0 <= k < edges.len() ==> 0 <= #[trigger] edges[k].0 < n && 0 <= edges[k].1 < n,
    ensures
        respects(edges, order, true),
        respects(edges, order.reverse(), false),
{
    assert forall|k: int, u: int|
        0 <= k < order.len() && #[trigger] dp_nbrs(edges, order[k], true).contains(u) implies order.take(
        k,
    ).contains(u) by {
        lemma_in_nbrs(edges, order[k]);
        let e = choose|e: int| 0 <= e < edges.len() && edges[e] == (u, order[k]);
        assert(edges[e].0 == u);
        assert(order.contains(u));
        let i = choose|i: int| 0 <= i < order.len() && order[i] == u;
        assert(has_edge(edges, order[i], order[k]));
        assert(order.take(k)[i] == u);
    }
    let r = order.reverse();
    assert forall|k: int, u: int|
        0 <= k < r.len() && #[trigger] dp_nbrs(edges, r[k], false).contains(u) implies r.take(k).contains(u) by {
        lemma_out_nbrs(edges, r[k]);
        let e = choose|e: int| 0 <= e < edges.len() && edges[e] == (r[k], u);
        assert(0 <= edges[e].0 < n && edges[e].1 == u);
        assert(order.contains(u));
        let i = choose|i: int| 0 <= i < order.len() && order[i] == u;
        let kk = order.len() - 1 - k;
        assert(r[k] == order[kk]);
        assert(has_edge(edges, order[kk], order[i]));
        assert(kk < i);
        let ri = order.len() - 1 - i;
        assert(r[ri] == u);
        assert(r.take(k)[ri] == u);
    }
}

/// The best distance among the first `k` positions is at least each one's,
/// and is the distance of the position it names.
proof fn lemma_best_upto(edges: Seq<(int, int)>, order: Seq<int>, k: int)
    requires
        0 <= k <= order.len(),
    ensures
        forall|j: int| 0 <= j < k ==> dp_dist(edges, order, true, j) <= best_upto(edges, order, k).0,
        best_upto(edges, order, k).1 matches Some(b) ==> 0 <= b < k && dp_dist(edges, order, true, b)
            == best_upto(edges, order, k).0,
        best_upto(edges, order, k).1 is None ==> best_upto(edges, order, k).0 == 0,
    decreases k,
{
    if k > 0 {
        lemma_best_upto(edges, order, k - 1);
    }
}

/// What the longest chain found by a forward pass is: a walk along edges
/// with as many edges as its length, through the names returned; over a
/// topological order, no walk is longer.
pub proof fn lemma_longest_in_order(names: Seq<Seq<char>>, edges: Seq<(int, int)>, order: Seq<int>)
    requires
        order.no_duplicates(),
    ensures
        ({
            let r = longest_in_order(names, edges, order);
            &&& order.len() == 0 ==> r.0 == 0 && r.1.len() == 0
            &&& order.len() > 0 ==> exists|c: Seq<int>| #[trigger]
                is_path(edges, c) && c.len() == r.0 + 1 && r.1 == c.map_values(|v: int| names[v])
                    && order.to_set().contains(c.last())
            &&& respects(edges, order, true) ==> forall|p: Seq<int>|
                #[trigger] is_path(edges, p) && order.contains(p.last()) ==> p.len() - 1 <= r.0
        }),
{
    let r = longest_in_order(names, edges, order);
    lemma_best_upto(edges, order, order.len() as int);
    if order.len() > 0 {
        match best_upto(edges, order, order.len() as int).1 {
            Some(b) => {
                lemma_chain_walk(edges, order, true, b);
                let c = dp_chain(edges, order, true, b);
                lemma_forward_walk_is_path(edges, c);
                assert(order.to_set().contains(c.last()));
            },
            None => {
                let c = seq![order[0]];
                assert(is_path(edges, c));
                assert(r.1 =~= c.map_values(|v: int| names[v]));
                assert(order.to_set().contains(c.last()));
            },
        }
    }
    if respects(edges, order, true) {
        assert forall|p: Seq<int>| #[trigger] is_path(edges, p) && order.contains(p.last()) implies p.len() - 1 <= r.0 by {
            let k = choose|k: int| 0 <= k < order.len() && order[k] == p.last();
            lemma_path_is_forward_walk(edges, p);
            lemma_dist_longest(edges, order, true, k, p);
        }
    }
}

/// The chain a forward pass over a valid order finds names a walk of its
/// length (nothing when the order is empty); over a topological order, no
/// walk is longer.
pub proof fn lemma_longest_walk(names: Seq<Seq<char>>, edges: Seq<(int, int)>, order: Seq<int>, n: int)
    requires
        valid_order(order, n),
        names.len() == n,
        forall|k: int| 0 <= k < edges.len() ==> 0 <= #[trigger] edges[k].0 < n && 0 <= edges[k].1 < n,
    ensures
        ({
            let r = longest_in_order(names, edges, order);
            &&& order.len() == 0 ==> r.0 == 0 && r.1.len() == 0
            &&& order.len() > 0 ==> names_walk(names, edges, r.0, r.1)
            &&& is_topo_order(n, edges, order) ==> no_longer_walk(n, edges, r.0)
        }),
{
    let r = longest_in_order(names, edges, order);
    lemma_longest_in_order(names, edges, order);
    if order.len() > 0 {
        let c = choose|c: Seq<int>| #[trigger]
            is_path(edges, c) && c.len() == r.0 + 1 && r.1 == c.map_values(|v: int| names[v])
                && order.to_set().contains(c.last());
        assert forall|i: int| 0 <= i < c.len() implies 0 <= #[trigger] c[i] < names.len() by {
            if i < c.len() - 1 {
                assert(crate::model::path_step(edges, c, i));
                let k = choose|k: int| 0 <= k < edges.len() && edges[k] == (c[i], c[i + 1]);
                assert(0 <= edges[k].0 < n);
            } else {
                assert(order.contains(c.last()));
                let j = choose|j: int| 0 <= j < order.len() && order[j] == c.last();
                assert(0 <= order[j] < n);
            }
        }
        assert(is_path(edges, c));
    }
    if is_topo_order(n, edges, order) {
        lemma_topo_respects(n, edges, order);
        assert forall|p: Seq<int>| #[trigger] is_path(edges, p) && 0 <= p.last() < n implies p.len() - 1
            <= r.0 by {
            assert(order.contains(p.last()));
        }
    }
}

/// A part of a walk is a walk.
pub proof fn lemma_subpath(edges: Seq<(int, int)>, p: Seq<int>, a: int, b: int)
    requires
        is_path(edges, p),
        0 <= a < b <= p.len(),
    ensures
        is_path(edges, p.subrange(a, b)),
{
    let q = p.subrange(a, b);
    assert forall|i: int| 0 <= i < q.len() - 1 implies #[trigger] crate::model::path_step(edges, q, i) by {
        assert(crate::model::path_step(edges, p, a + i));
    }
}

/// Two walks where the second starts at the end of the first make one walk.
pub proof fn lemma_path_join(edges: Seq<(int, int)>, a: Seq<int>, b: Seq<int>)
    requires
        is_path(edges, a),
        is_path(edges, b),
        a.last() == b[0],
    ensures
        is_path(edges, a + b.drop_first()),
        (a + b.drop_first()).len() == a.len() + b.len() - 1,
{
    let c = a + b.drop_first();
    assert forall|i: int| 0 <= i < c.len() - 1 implies #[trigger] crate::model::path_step(edges, c, i) by {
        if i < a.len() - 1 {
            assert(crate::model::path_step(edges, a, i));
        } else {
            let j = i - (a.len() - 1);
            assert(crate::model::path_step(edges, b, j));
            assert(c[i] == b[j]);
            assert(c[i + 1] == b[j + 1]);
        }
    }
}

/// The nodes of a walk through a node of the graph are nodes of the graph.
pub proof fn lemma_walk_in_range(edges: Seq<(int, int)>, c: Seq<int>, s: int, n: int)
    requires
        is_path(edges, c),
        c.contains(s),
        0 <= s < n,
        forall|k: int| 0 <= k < edges.len() ==> 0 <= #[trigger] edges[k].0 < n && 0 <= edges[k].1 < n,
    ensures
        forall|i: int| 0 <= i < c.len() ==> 0 <= #[trigger] c[i] < n,
{
    assert forall|i: int| 0 <= i < c.len() implies 0 <= #[trigger] c[i] < n by {
        if i < c.len() - 1 {
            assert(crate::model::path_step(edges, c, i));
            let k = choose|k: int| 0 <= k < edges.len() && edges[k] == (c[i], c[i + 1]);
            assert(0 <= edges[k].0 < n);
        } else if i > 0 {
            assert(crate::model::path_step(edges, c, i - 1));
            let k = choose|k: int| 0 <= k < edges.len() && edges[k] == (c[i - 1], c[i]);
            assert(0 <= edges[k].0 < n);
        } else {
            let j = choose|j: int| 0 <= j < c.len() && c[j] == s;
        }
    }
}

/// The chain through `s` that the two passes find names a walk through `s`
/// with as many edges as its length; over a topological order no walk
/// through `s` is longer.
pub proof fn lemma_through_walk(names: Seq<Seq<char>>, edges: Seq<(int, int)>, order: Seq<int>, n: int, s: int)
    requires
        valid_order(order, n),
        valid_order(order.reverse(), n),
        names.len() == n,
        0 <= s < n,
        forall|k: int| 0 <= k < edges.len() ==> 0 <= #[trigger] edges[k].0 < n && 0 <= edges[k].1 < n,
    ensures
        ({
            let r = through_in_order(names, edges, order, s);
            &&& names_walk_through(names, edges, r.0, r.1, s)
            &&& is_topo_order(n, edges, order) ==> no_longer_walk_through(edges, r.0, s)
        }),
{
    let r = through_in_order(names, edges, order, s);
    let rord = order.reverse();
    lemma_through_bound(edges, order, s);
    if order.contains(s) {
        let k0 = order.index_of(s);
        assert(rord.contains(s)) by {
            let j = order.len() - 1 - k0;
            assert(rord[j] == order[k0]);
        }
        let k1 = rord.index_of(s);
        lemma_chain_walk(edges, order, true, k0);
        let a = dp_chain(edges, order, true, k0);
        lemma_forward_walk_is_path(edges, a);
        lemma_chain_walk(edges, rord, false, k1);
        let w = dp_chain(edges, rord, false, k1);
        lemma_backward_walk_is_reverse_path(edges, w);
        let b = w.reverse();
        assert(b[0] == w.last());
        lemma_path_join(edges, a, b);
        let c = a + b.drop_first();
        assert(c[a.len() - 1] == s);
        lemma_walk_in_range(edges, c, s, n);
        assert(r.1 =~= c.map_values(|v: int| names[v]));
        assert(is_path(edges, c));
        if is_topo_order(n, edges, order) {
            lemma_topo_respects(n, edges, order);
            assert forall|p: Seq<int>| #[trigger] is_path(edges, p) && p.contains(s) implies p.len() - 1
                <= r.0 by {
                let j = choose|j: int| 0 <= j < p.len() && p[j] == s;
                let pre = p.subrange(0, j + 1);
                lemma_subpath(edges, p, 0, j + 1);
                lemma_path_is_forward_walk(edges, pre);
                lemma_dist_longest(edges, order, true, k0, pre);
                let post = p.subrange(j, p.len() as int);
                lemma_subpath(edges, p, j, p.len() as int);
                lemma_reverse_path_is_backward_walk(edges, post);
                assert(post.reverse().last() == post[0]);
                lemma_dist_longest(edges, rord, false, k1, post.reverse());
            }
        }
    } else {
        let c = seq![s];
        assert(c[0] == s);
        assert(is_path(edges, c));
        assert(r.1 =~= c.map_values(|v: int| names[v]));
        if is_topo_order(n, edges, order) {
            assert(order.contains(s));
        }
    }
}

/// Finds the longest dependency chain in the fleet (critical path).
pub struct CriticalPath;

/// The order [`CriticalPath::find`] passes over: the topological order, or,
/// on a graph with a cycle, the depth-first order that cuts the cycles.
pub open spec fn critical_order(n: nat, edges: Seq<(int, int)>) -> Seq<int> {
    match toposort_result(n, edges) {
        Ok(o) => ints(o),
        Err(_) => dfs_order(n, edges),
    }
}

impl CriticalPath {
    /// Find the longest path in the DAG: its length in edges and the crate
    /// names along it. A graph with cycles is searched in the order of a
    /// depth-first walk that skips the edges closing a cycle.
    pub fn find(graph: &DependencyGraph) -> (r: (usize, Vec<String>))
        ensures
            (r.0 as nat, strings_view(r.1@)) == longest_in_order(
                graph.names(),
                graph.edges(),
                critical_order(graph.nodes().len(), graph.edges()),
            ),
            graph.nodes().len() == 0 ==> r.0 == 0 && r.1@.len() == 0,
            graph.nodes().len() > 0 ==> names_walk(graph.names(), graph.edges(), r.0 as nat, strings_view(r.1@)),
            is_dag(graph.nodes().len() as int, graph.edges()) ==> no_longer_walk(
                graph.nodes().len() as int,
                graph.edges(),
                r.0 as nat,
            ),
            forall|p: Seq<int>|
                #[trigger] is_path(graph.edges(), p) && no_step_on_cycle(graph.edges(), p) && 0 <= p.last()
                    < graph.nodes().len() ==> p.len() - 1 <= r.0,
    {
        proof {
            use_type_invariant(graph);
            graph.lemma_inv();
        }
        let ghost edges = graph.edges();
        let ghost n = graph.nodes().len() as int;
        let sorted = match graph_toposort(graph.graph()) {
            Ok(o) => {
                proof {
                    lemma_toposort_valid(graph.nodes().len(), graph.edges(), o@);
                    let ord = ints(o@);
                    assert forall|u: int, v: int|
                        #[trigger] has_edge(edges, u, v) && !walk_between(edges, v, u) implies ord.contains(u)
                            && ord.contains(v) && ord.index_of(u) < ord.index_of(v) by {
                        let e = choose|e: int| 0 <= e < edges.len() && edges[e] == (u, v);
                        assert(0 <= edges[e].0 < n && 0 <= edges[e].1 < n);
                        assert(ord.contains(u) && ord.contains(v));
                        let i = ord.index_of(u);
                        let j = ord.index_of(v);
                        assert(has_edge(edges, ord[i], ord[j]));
                    }
                }
                o
            },
            Err(c) => {
                proof {
                    lemma_cycle_not_dag(graph.nodes().len() as int, graph.edges(), c as int);
                }
                dfs_order_exec(graph)
            },
        };
        proof {
            lemma_order_bounds_walks(graph.names(), edges, ints(sorted@), n);
        }
        Self::find_in_order(graph, &sorted)
    }

    /// The longest chain found by a forward pass over `order` (which lists
    /// distinct nodes): its length in edges and the crate names along it.
    pub fn find_in_order(graph: &DependencyGraph, order: &Vec<usize>) -> (r: (usize, Vec<String>))
        requires
            valid_order(ints(order@), graph.nodes().len() as int),
        ensures
            (r.0 as nat, strings_view(r.1@)) == longest_in_order(
                graph.names(),
                graph.edges(),
                ints(order@),
            ),
            order@.len() == 0 ==> r.0 == 0 && r.1@.len() == 0,
            order@.len() > 0 ==> names_walk(graph.names(), graph.edges(), r.0 as nat, strings_view(r.1@)),
            is_topo_order(graph.nodes().len() as int, graph.edges(), ints(order@)) ==> no_longer_walk(
                graph.nodes().len() as int,
                graph.edges(),
                r.0 as nat,
            ),
    {
        proof {
            use_type_invariant(graph);
            graph.lemma_inv();
            lemma_longest_walk(graph.names(), graph.edges(), ints(order@), graph.nodes().len() as int);
        }
        let ghost edges = graph.edges();
        let ghost ord = ints(order@);
        let (dist, pred) = dp_pass(graph, order, true);
        let mut best_len: usize = 0;
        let mut best_k: Option<usize> = None;
        let mut k: usize = 0;
        while k < order.len()
            invariant
                edges == graph.edges(),
                ord == ints(order@),
                valid_order(ord, graph.nodes().len() as int),
                k <= order@.len(),
                dist@.len() == graph.nodes().len(),
                forall|k: int|
                    0 <= k < order@.len() ==> #[trigger] dist@[order@[k] as int] == Some(
                        dp_dist(edges, ord, true, k) as usize,
                    ),
                (best_len as nat, opt_int(best_k)) == best_upto(edges, ord, k as int),
                best_k matches Some(b) ==> b < k,
            decreases order@.len() - k,
        {
            assert(ord[k as int] == order@[k as int] as int);
            proof {
                lemma_dist_bound(edges, ord, true, k as int);
            }
            let d = dist[order[k]].unwrap();
            if d > best_len {
                best_len = d;
                best_k = Some(k);
            }
            k = k + 1;
        }
        let path = match best_k {
            Some(b) => {
                assert(ord[b as int] == order@[b as int] as int);
                assert forall|j: int| 0 <= j < ord.len() implies 0 <= #[trigger] ord[j] < pred@.len() by {}
                let chain = follow(&pred, order[b], Ghost(ord), Ghost(edges), Ghost(true), Ghost(b as int));
                proof {
                    lemma_chain_nodes(edges, ord, true, b as int, graph.nodes().len() as int);
                    assert forall|i: int| 0 <= i < chain@.len() implies #[trigger] chain@[i] < graph.nodes().len() by {
                        assert(ints(chain@)[i] == chain@[i] as int);
                        let c = dp_chain(edges, ord, true, b as int);
                        assert(ints(chain@).len() == chain@.len());
                        assert(c.reverse().len() == c.len());
                        assert(ints(chain@)[i] == c.reverse()[i]);
                        assert(c.reverse()[i] == c[c.len() - 1 - i]);
                        assert(0 <= c[c.len() - 1 - i] < graph.nodes().len());
                    }
                }
                let names = names_reversed(graph, &chain);
                assert(ints(chain@).reverse() =~= dp_chain(edges, ord, true, b as int));
                names
            },
            None => {
                if order.len() > 0 {
                    assert(ord[0] == order@[0] as int);
                    let c = graph.node_at(order[0]);
                    let mut v: Vec<String> = Vec::new();
                    v.push(c.name.clone());
                    assert(strings_view(v@) =~= seq![graph.names()[ord[0]]]);
                    v
                } else {
                    let v: Vec<String> = Vec::new();
                    assert(strings_view(v@) =~= Seq::<Seq<char>>::empty());
                    v
                }
            },
        };
        (best_len, path)
    }

    /// The longest chain that includes a specific crate: the longest chain
    /// into it plus the longest chain out of it, over the topological order.
    /// A crate not in the graph gives `(0, [])`; on a graph with a cycle the
    /// crate alone is returned, with length 0.
    pub fn find_through(graph: &DependencyGraph, name: &str) -> (r: (usize, Vec<String>))
        ensures
            match graph.node_of(name@) {
                None => r.0 == 0 && r.1@.len() == 0,
                Some(s) => {
                    &&& (r.0 as nat, strings_view(r.1@)) == through_in_order(
                        graph.names(),
                        graph.edges(),
                        through_order(graph.nodes().len(), graph.edges()),
                        s,
                    )
                    &&& names_walk_through(graph.names(), graph.edges(), r.0 as nat, strings_view(r.1@), s)
                    &&& is_dag(graph.nodes().len() as int, graph.edges()) ==> no_longer_walk_through(
                        graph.edges(),
                        r.0 as nat,
                        s,
                    )
                },
            },
    {
        proof {
            use_type_invariant(graph);
            graph.lemma_inv();
            lemma_last_index(graph.names(), name@);
        }
        let ghost edges = graph.edges();
        let ghost names = graph.names();
        let n = graph.node_count();
        let start = match graph.index_of(name) {
            Some(i) => i,
            None => return (0, Vec::new()),
        };
        let sorted = match graph_toposort(graph.graph()) {
            Ok(o) => o,
            Err(c) => {
                proof {
                    lemma_cycle_not_dag(n as int, edges, c as int);
                }
                Vec::new()
            },
        };
        let ghost ord = ints(sorted@);
        assert(ord == through_order(n as nat, edges));
        proof {
            if ord.len() > 0 {
                lemma_toposort_valid(n as nat, edges, sorted@);
            }
        }
        assert(valid_order(ord, n as int));
        let rsorted = reversed(&sorted);
        let ghost rord = ints(rsorted@);
        assert(rord =~= ord.reverse());
        assert(valid_order(rord, n as int)) by {
            assert forall|i: int, j: int| 0 <= i < rord.len() && 0 <= j < rord.len() && i != j
                implies rord[i] != rord[j] by {
                assert(rord[i] == ord[ord.len() - 1 - i]);
                assert(rord[j] == ord[ord.len() - 1 - j]);
            }
            assert forall|k: int| 0 <= k < rord.len() implies 0 <= #[trigger] rord[k] < n by {
                assert(rord[k] == ord[ord.len() - 1 - k]);
            }
        }
        let (dist_to, pred_to) = dp_pass(graph, &sorted, true);
        let (dist_from, succ_from) = dp_pass(graph, &rsorted, false);
        let ghost s = start as int;
        assert(start < n);
        let (to, chain_in) = chain_part(graph, &sorted, true, &dist_to, &pred_to, start);
        let (from, chain_out) = chain_part(graph, &rsorted, false, &dist_from, &succ_from, start);
        let chain_to = match dist_to[start] {
            Some(_) => {
                assert(ord.contains(s));
                let names_to = names_reversed(graph, &chain_in);
                assert(ints(chain_in@).reverse() =~= dp_chain(edges, ord, true, ord.index_of(s)));
                names_to
            },
            None => {
                let c = graph.node_at(start);
                let mut v: Vec<String> = Vec::new();
                v.push(c.name.clone());
                assert(strings_view(v@) =~= seq![s].map_values(|v: int| names[v]));
                v
            },
        };
        let chain_from = match dist_from[start] {
            Some(_) => {
                assert(rord.contains(s));
                let names_out = names_from(graph, &chain_out, 1);
                assert(ints(chain_out@).skip(1) =~= dp_chain(edges, rord, false, rord.index_of(s)).reverse().drop_first());
                names_out
            },
            None => {
                let v: Vec<String> = Vec::new();
                assert(strings_view(v@) =~= Seq::<int>::empty().map_values(|v: int| names[v]));
                v
            },
        };
        proof {
            lemma_through_bound(edges, ord, s);
        }
        let total = to + from;
        let mut path = chain_to;
        let mut tail = chain_from;
        let ghost p1 = strings_view(path@);
        let ghost p2 = strings_view(tail@);
        path.append(&mut tail);
        assert(strings_view(path@) =~= p1 + p2);
        let ghost rs = through_in_order(names, edges, ord, s);
        assert(rs.1 =~= p1 + p2);
        proof {
            lemma_through_walk(names, edges, ord, n as int, s);
        }
        (total, path)
    }
}

/// The nodes of a chain are nodes of the order.
proof fn lemma_chain_nodes(edges: Seq<(int, int)>, order: Seq<int>, fwd: bool, k: int, n: int)
    requires
        valid_order(order, n),
        0 <= k < order.len(),
    ensures
        forall|i: int|
            0 <= i < dp_chain(edges, order, fwd, k).len() ==> 0 <= #[trigger] dp_chain(
                edges,
                order,
                fwd,
                k,
            )[i] < n,
        dp_chain(edges, order, fwd, k).len() >= 1,
        dp_chain(edges, order, fwd, k).last() == order[k],
    decreases k,
{
    match dp_pred(edges, order, fwd, k) {
        Some(u) => {
            if order.take(k).contains(u) {
                let j = order.take(k).index_of(u);
                lemma_take_contains(order, k, u);
                lemma_chain_nodes(edges, order, fwd, j, n);
                let c = dp_chain(edges, order, fwd, j);
                assert forall|i: int| 0 <= i < c.push(order[k]).len() implies 0 <= #[trigger] c.push(
                    order[k],
                )[i] < n by {
                    if i < c.len() {
                        assert(c.push(order[k])[i] == c[i]);
                    }
                }
            }
        },
        None => {},
    }
}

/// The two distances through a node of the order add up to less than the order's length.
proof fn lemma_through_bound(edges: Seq<(int, int)>, order: Seq<int>, s: int)
    ensures
        order.contains(s) ==> dp_dist(edges, order, true, order.index_of(s)) <= order.index_of(s),
        order.reverse().contains(s) ==> dp_dist(
            edges,
            order.reverse(),
            false,
            order.reverse().index_of(s),
        ) <= order.reverse().index_of(s),
        order.contains(s) && order.reverse().contains(s) && order.no_duplicates() ==> dp_dist(
            edges,
            order,
            true,
            order.index_of(s),
        ) + dp_dist(edges, order.reverse(), false, order.reverse().index_of(s)) < order.len(),
        !order.contains(s) ==> !order.reverse().contains(s),
{
    let r = order.reverse();
    if order.contains(s) {
        let k0 = order.index_of(s);
        lemma_dist_bound(edges, order, true, k0);
    }
    if r.contains(s) {
        let k1 = r.index_of(s);
        lemma_dist_bound(edges, r, false, k1);
        assert(r[k1] == order[order.len() - 1 - k1]);
        assert(order.contains(s));
        if order.no_duplicates() {
            let k0 = order.index_of(s);
            assert(order[k0] == s);
            assert(k0 == order.len() - 1 - k1);
        }
    }
}


/// Along a walk through nodes that all have layers below `m`, the node `i`
/// steps in lies in a layer of at least `i`.
proof fn lemma_walk_climbs_layers(n: nat, edges: Seq<(int, int)>, m: nat, c: Seq<int>, i: int)
    requires
        is_path(edges, c),
        0 <= i < c.len(),
        forall|j: int| 0 <= j < c.len() ==> #[trigger] layered_before(n, edges, m, c[j]),
        forall|k: int| 0 <= k < edges.len() ==> 0 <= #[trigger] edges[k].0 < n && 0 <= edges[k].1 < n,
    ensures
        exists|k: nat| i <= k < m && #[trigger] in_layer(n, edges, k, c[i]),
    decreases i,
{
    assert(layered_before(n, edges, m, c[i]));
    let k = choose|k: nat| k < m && #[trigger] in_layer(n, edges, k, c[i]);
    if i > 0 {
        lemma_walk_climbs_layers(n, edges, m, c, i - 1);
        let k0 = choose|k0: nat| i - 1 <= k0 < m && #[trigger] in_layer(n, edges, k0, c[i - 1]);
        assert(crate::model::path_step(edges, c, i - 1));
        lemma_layer_rule(n, edges, k, c[i]);
        let j = choose|j: nat| j < k && #[trigger] in_layer(n, edges, j, c[i - 1]);
        lemma_layer_unique(n, edges, j, k0, c[i - 1]);
    }
    assert(in_layer(n, edges, k, c[i]));
}

/// A node of layer `k` ends a walk of `k` edges.
proof fn lemma_layer_walk(n: nat, edges: Seq<(int, int)>, k: nat, v: int) -> (p: Seq<int>)
    requires
        in_layer(n, edges, k, v),
        forall|e: int| 0 <= e < edges.len() ==> 0 <= #[trigger] edges[e].0 < n && 0 <= edges[e].1 < n,
    ensures
        is_path(edges, p),
        p.len() == k + 1,
        p.last() == v,
    decreases k,
{
    if k == 0 {
        let p = seq![v];
        assert(is_path(edges, p));
        p
    } else {
        lemma_layer_rule(n, edges, k, v);
        let u = choose|u: int| #[trigger] has_edge(edges, u, v) && in_layer(n, edges, (k - 1) as nat, u);
        let q = lemma_layer_walk(n, edges, (k - 1) as nat, u);
        let p = q.push(v);
        assert forall|i: int| 0 <= i < p.len() - 1 implies #[trigger] crate::model::path_step(edges, p, i) by {
            if i < q.len() - 1 {
                assert(crate::model::path_step(edges, q, i));
            }
        }
        p
    }
}

/// On a graph without cycles, the longest dependency chain climbs one layer
/// per edge: when the layering has `m` layers (each non-empty, the next one
/// empty) and the longest walk has `len` edges, then `m == len + 1`.
pub proof fn lemma_layers_and_longest_chain(
    names: Seq<Seq<char>>,
    edges: Seq<(int, int)>,
    m: nat,
    len: nat,
    path: Seq<Seq<char>>,
)
    requires
        names.len() > 0,
        is_dag(names.len() as int, edges),
        forall|k: int| 0 <= k < edges.len() ==> 0 <= #[trigger] edges[k].0 < names.len() && 0 <= edges[k].1 < names.len(),
        forall|k: int| 0 <= k < m ==> #[trigger] layer_nonempty(names.len(), edges, k as nat),
        !layer_nonempty(names.len(), edges, m),
        names_walk(names, edges, len, path),
        no_longer_walk(names.len() as int, edges, len),
    ensures
        m == len + 1,
{
    let n = names.len();
    lemma_dag_layered(n, edges, m);
    let c = choose|c: Seq<int>|
        #[trigger] is_path(edges, c) && c.len() == len + 1 && (forall|i: int|
            0 <= i < c.len() ==> 0 <= #[trigger] c[i] < names.len()) && path == c.map_values(
            |v: int| names[v],
        );
    assert forall|j: int| 0 <= j < c.len() implies #[trigger] layered_before(n, edges, m, c[j]) by {
        assert(0 <= c[j] < n);
    }
    lemma_walk_climbs_layers(n, edges, m, c, len as int);
    assert(layered_before(n, edges, m, 0));
    assert(m > 0);
    assert(layer_nonempty(n, edges, (m - 1) as nat));
    let v = choose|v: int| #[trigger] in_layer(n, edges, (m - 1) as nat, v);
    let p = lemma_layer_walk(n, edges, (m - 1) as nat, v);
    assert(is_path(edges, p) && 0 <= p.last() < n);
}


/// The longest chain through a crate is no longer than the longest chain,
/// and as long when the crate lies on the longest chain found. Stated over
/// what [`CriticalPath::find`] and [`CriticalPath::find_through`] promise on
/// a graph without cycles: a walk of `len` edges named `path` that no walk
/// beats, and a walk of `len_t` edges through node `s` that no walk through
/// `s` beats.
pub proof fn lemma_through_within_longest(
    names: Seq<Seq<char>>,
    edges: Seq<(int, int)>,
    len: nat,
    path: Seq<Seq<char>>,
    s: int,
    len_t: nat,
    path_t: Seq<Seq<char>>,
)
    requires
        edges_canonical(names, edges),
        names_walk(names, edges, len, path),
        no_longer_walk(names.len() as int, edges, len),
        names_walk_through(names, edges, len_t, path_t, s),
        no_longer_walk_through(edges, len_t, s),
    ensures
        len_t <= len,
        canonical(names, s) && path.contains(names[s]) ==> len_t == len,
{
    let ct = choose|c: Seq<int>|
        #[trigger] is_path(edges, c) && c.len() == len_t + 1 && c.contains(s) && (forall|i: int|
            0 <= i < c.len() ==> 0 <= #[trigger] c[i] < names.len()) && path_t == c.map_values(
            |v: int| names[v],
        );
    assert(0 <= ct.last() < names.len());
    if canonical(names, s) && path.contains(names[s]) && len > 0 {
        let c = choose|c: Seq<int>|
            #[trigger] is_path(edges, c) && c.len() == len + 1 && (forall|i: int|
                0 <= i < c.len() ==> 0 <= #[trigger] c[i] < names.len()) && path == c.map_values(
                |v: int| names[v],
            );
        let i = choose|i: int| 0 <= i < path.len() && path[i] == names[s];
        assert(path[i] == names[c[i]]);
        if i < len {
            assert(crate::model::path_step(edges, c, i));
            let k = choose|k: int| 0 <= k < edges.len() && edges[k] == (c[i], c[i + 1]);
            assert(canonical(names, edges[k].0));
        } else {
            assert(crate::model::path_step(edges, c, i - 1));
            let k = choose|k: int| 0 <= k < edges.len() && edges[k] == (c[i - 1], c[i]);
            assert(canonical(names, edges[k].0));
        }
        crate::model::lemma_canonical_unique(names, c[i], s);
        assert(c.contains(s));
    }
}


/// A forward walk whose nodes come in increasing positions of `order` has at
/// most as many edges as the distance a pass over `order` gives its end.
proof fn lemma_walk_bounded(edges: Seq<(int, int)>, order: Seq<int>, w: Seq<int>)
    requires
        order.no_duplicates(),
        back_walk(edges, true, w),
        forall|t: int| 0 <= t < w.len() ==> order.contains(#[trigger] w[t]),
        forall|t: int| 0 <= t < w.len() - 1 ==> order.index_of(#[trigger] w[t]) < order.index_of(w[t + 1]),
    ensures
        w.len() - 1 <= dp_dist(edges, order, true, order.index_of(w.last())),
    decreases w.len(),
{
    if w.len() > 1 {
        let k = order.index_of(w.last());
        assert(order.contains(w[w.len() - 1]));
        let u = w[w.len() - 2];
        assert(order.contains(w[w.len() - 2]));
        assert(back_step(edges, true, w, w.len() - 2));
        let j = order.index_of(u);
        assert(order.index_of(w[w.len() - 2]) < order.index_of(w[w.len() - 1]));
        lemma_take_index(order, k, j);
        let w2 = w.drop_last();
        assert forall|i: int| 0 <= i < w2.len() - 1 implies #[trigger] back_step(edges, true, w2, i) by {
            assert(back_step(edges, true, w, i));
        }
        assert forall|t: int| 0 <= t < w2.len() implies order.contains(#[trigger] w2[t]) by {
            assert(w2[t] == w[t]);
        }
        assert forall|t: int| 0 <= t < w2.len() - 1 implies order.index_of(#[trigger] w2[t]) < order.index_of(w2[t + 1]) by {
            assert(w2[t] == w[t] && w2[t + 1] == w[t + 1]);
        }
        lemma_walk_bounded(edges, order, w2);
        assert(w2.last() == u);
        lemma_scan_ge(edges, order, true, k, dp_nbrs(edges, order[k], true), u);
    }
}

/// Over an order that puts every edge closing no cycle forward, the longest
/// chain found is at least as long as every walk none of whose steps closes
/// a cycle.
pub proof fn lemma_order_bounds_walks(names: Seq<Seq<char>>, edges: Seq<(int, int)>, order: Seq<int>, n: int)
    requires
        order.no_duplicates(),
        forall|v: int| 0 <= v < n ==> #[trigger] order.contains(v),
        orders_acyclic_edges(edges, order),
        forall|k: int| 0 <= k < edges.len() ==> 0 <= #[trigger] edges[k].0 < n && 0 <= edges[k].1 < n,
    ensures
        forall|p: Seq<int>|
            #[trigger] is_path(edges, p) && no_step_on_cycle(edges, p) && 0 <= p.last() < n ==> p.len() - 1
                <= longest_in_order(names, edges, order).0,
{
    assert forall|p: Seq<int>|
        #[trigger] is_path(edges, p) && no_step_on_cycle(edges, p) && 0 <= p.last() < n implies p.len() - 1
            <= longest_in_order(names, edges, order).0 by {
        assert forall|t: int| 0 <= t < p.len() - 1 implies order.index_of(#[trigger] p[t]) < order.index_of(p[t + 1]) by {
            assert(crate::model::path_step(edges, p, t));
            assert(!walk_between(edges, p[t + 1], p[t]));
        }
        assert forall|t: int| 0 <= t < p.len() implies order.contains(#[trigger] p[t]) by {
            if t < p.len() - 1 {
                assert(crate::model::path_step(edges, p, t));
                assert(!walk_between(edges, p[t + 1], p[t]));
            } else {
                assert(order.contains(p.last()));
            }
        }
        lemma_path_is_forward_walk(edges, p);
        lemma_walk_bounded(edges, order, p);
        assert(order.contains(p[p.len() - 1]));
        lemma_best_upto(edges, order, order.len() as int);
    }
}

} // verus!
