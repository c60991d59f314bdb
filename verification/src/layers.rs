//! Dependency layers (Kahn-style topological layering).
use vstd::prelude::*;
use crate::digraph::Dir;
use crate::graph::DependencyGraph;
use crate::manifest::strings_view;
use crate::order::{names_sorted, sort_names};
use crate::model::{canonical, has_edge, in_nbrs, is_dag, is_topo_order, lemma_in_nbrs, lemma_last_index};

verus! {

/// Node `v` is not yet assigned and all its dependencies are.
pub open spec fn is_ready(edges: Seq<(int, int)>, assigned: Seq<bool>, v: int) -> bool {
    &&& !assigned[v]
    &&& forall|i: int|
        0 <= i < in_nbrs(edges, v).len() ==> assigned[#[trigger] in_nbrs(edges, v)[i]]
}

/// One round: every ready node becomes assigned.
pub open spec fn assign_round(edges: Seq<(int, int)>, assigned: Seq<bool>) -> Seq<bool> {
    Seq::new(assigned.len(), |v: int| assigned[v] || is_ready(edges, assigned, v))
}

/// The nodes assigned after `k` rounds, starting from none.
pub open spec fn assigned_after(n: nat, edges: Seq<(int, int)>, k: nat) -> Seq<bool>
    decreases k,
{
    if k == 0 {
        Seq::new(n, |v: int| false)
    } else {
        assign_round(edges, assigned_after(n, edges, (k - 1) as nat))
    }
}

/// Node `v` is in layer `k`: it becomes ready in round `k`.
pub open spec fn in_layer(n: nat, edges: Seq<(int, int)>, k: nat, v: int) -> bool {
    0 <= v < n && is_ready(edges, assigned_after(n, edges, k), v)
}

/// Layer `k` has a crate named `x`.
pub open spec fn layer_has_name(names: Seq<Seq<char>>, edges: Seq<(int, int)>, k: nat, x: Seq<char>) -> bool {
    exists|v: int| #[trigger] in_layer(names.len(), edges, k, v) && names[v] == x
}

/// Node `v` lies in one of the first `m` layers.
pub open spec fn layered_before(n: nat, edges: Seq<(int, int)>, m: nat, v: int) -> bool {
    exists|j: nat| j < m && #[trigger] in_layer(n, edges, j, v)
}

/// One of the computed `layers` holds the name `x`.
pub open spec fn in_some_layer(layers: Seq<Vec<String>>, x: Seq<char>) -> bool {
    exists|k: int| 0 <= k < layers.len() && #[trigger] strings_view(layers[k]@).contains(x)
}

/// Layer `k` is not empty.
pub open spec fn layer_nonempty(n: nat, edges: Seq<(int, int)>, k: nat) -> bool {
    exists|v: int| #[trigger] in_layer(n, edges, k, v)
}

/// The number of `true` entries.
pub open spec fn num_true(s: Seq<bool>) -> nat
    decreases s.len(),
{
    if s.len() == 0 {
        0
    } else {
        num_true(s.drop_last()) + if s.last() {
            1nat
        } else {
            0nat
        }
    }
}

/// `layer` holds, once each, the names of the crates in layer `k`.
pub open spec fn is_layer(names: Seq<Seq<char>>, edges: Seq<(int, int)>, k: nat, layer: Seq<Seq<char>>) -> bool {
    &&& layer.no_duplicates()
    &&& forall|x: Seq<char>| #[trigger] layer.contains(x) <==> layer_has_name(names, edges, k, x)
}

// ---------------------------------------------------------------------------
// Lemmas
// ---------------------------------------------------------------------------
pub proof fn lemma_num_true_update(s: Seq<bool>, i: int)
    requires
        0 <= i < s.len(),
        !s[i],
    ensures
        num_true(s.update(i, true)) == num_true(s) + 1,
    decreases s.len(),
{
    if i < s.len() - 1 {
        assert(s.update(i, true).drop_last() =~= s.drop_last().update(i, true));
        lemma_num_true_update(s.drop_last(), i);
    } else {
        assert(s.update(i, true).drop_last() =~= s.drop_last());
    }
}

pub proof fn lemma_num_true_bound(s: Seq<bool>)
    ensures
        num_true(s) <= s.len(),
        num_true(s) == s.len() ==> forall|i: int| 0 <= i < s.len() ==> #[trigger] s[i],
    decreases s.len(),
{
    if s.len() > 0 {
        lemma_num_true_bound(s.drop_last());
        if num_true(s) == s.len() {
            assert forall|i: int| 0 <= i < s.len() implies #[trigger] s[i] by {
                if i < s.len() - 1 {
                    assert(s.drop_last()[i] == s[i]);
                }
            }
        }
    }
}

proof fn lemma_assigned_len(n: nat, edges: Seq<(int, int)>, k: nat)
    ensures
        assigned_after(n, edges, k).len() == n,
    decreases k,
{
    if k > 0 {
        lemma_assigned_len(n, edges, (k - 1) as nat);
    }
}

/// Once a round assigns nothing, no later round does.
proof fn lemma_empty_stays(n: nat, edges: Seq<(int, int)>, k: nat, m: nat)
    requires
        k <= m,
        !layer_nonempty(n, edges, k),
    ensures
        assigned_after(n, edges, m) == assigned_after(n, edges, k),
        !layer_nonempty(n, edges, m),
    decreases m - k,
{
    if k < m {
        lemma_empty_stays(n, edges, k, (m - 1) as nat);
        let a = assigned_after(n, edges, (m - 1) as nat);
        lemma_assigned_len(n, edges, (m - 1) as nat);
        assert(assign_round(edges, a) =~= a) by {
            assert forall|v: int| 0 <= v < a.len() implies assign_round(edges, a)[v] == a[v] by {
                if is_ready(edges, a, v) {
                    assert(in_layer(n, edges, (m - 1) as nat, v));
                }
            }
        }
    }
}

/// What is assigned stays assigned.
proof fn lemma_assigned_mono(n: nat, edges: Seq<(int, int)>, k: nat, m: nat, v: int)
    requires
        k <= m,
        0 <= v < n,
        assigned_after(n, edges, k)[v],
    ensures
        assigned_after(n, edges, m)[v],
    decreases m - k,
{
    if k < m {
        lemma_assigned_mono(n, edges, k, (m - 1) as nat, v);
        lemma_assigned_len(n, edges, (m - 1) as nat);
    }
}

/// A node assigned after `k` rounds lies in a layer before `k`.
proof fn lemma_assigned_layer(n: nat, edges: Seq<(int, int)>, k: nat, v: int)
    requires
        0 <= v < n,
        assigned_after(n, edges, k)[v],
    ensures
        exists|j: nat| j < k && #[trigger] in_layer(n, edges, j, v),
    decreases k,
{
    if k > 0 {
        let b = assigned_after(n, edges, (k - 1) as nat);
        lemma_assigned_len(n, edges, (k - 1) as nat);
        if b[v] {
            lemma_assigned_layer(n, edges, (k - 1) as nat, v);
            let j = choose|j: nat| j < k - 1 && #[trigger] in_layer(n, edges, j, v);
            assert(in_layer(n, edges, j, v));
        } else {
            assert(is_ready(edges, b, v));
            assert(in_layer(n, edges, (k - 1) as nat, v));
        }
    }
}

/// The layering rule: a crate is in layer 0 exactly when it depends on no
/// crate of the fleet; each crate it depends on lies in an earlier layer; and
/// in a layer `k > 0` it depends on some crate of layer `k - 1`. So its layer
/// is one more than the greatest layer of its dependencies.
pub proof fn lemma_layer_rule(n: nat, edges: Seq<(int, int)>, k: nat, v: int)
    requires
        in_layer(n, edges, k, v),
        forall|e: int| 0 <= e < edges.len() ==> 0 <= #[trigger] edges[e].0 < n && 0 <= edges[e].1 < n,
    ensures
        k == 0 <==> !exists|u: int| #[trigger] has_edge(edges, u, v),
        forall|u: int| #[trigger] has_edge(edges, u, v) ==> exists|j: nat| j < k && #[trigger] in_layer(n, edges, j, u),
        k > 0 ==> exists|u: int| #[trigger] has_edge(edges, u, v) && in_layer(n, edges, (k - 1) as nat, u),
{
    let a = assigned_after(n, edges, k);
    lemma_assigned_len(n, edges, k);
    lemma_in_nbrs(edges, v);
    assert forall|u: int| #[trigger] has_edge(edges, u, v) implies exists|j: nat| j < k && #[trigger] in_layer(
        n,
        edges,
        j,
        u,
    ) by {
        assert(in_nbrs(edges, v).contains(u));
        let i = choose|i: int| 0 <= i < in_nbrs(edges, v).len() && in_nbrs(edges, v)[i] == u;
        assert(a[in_nbrs(edges, v)[i]]);
        let e = choose|e: int| 0 <= e < edges.len() && edges[e] == (u, v);
        assert(0 <= edges[e].0 < n);
        lemma_assigned_layer(n, edges, k, u);
    }
    if k > 0 {
        let b = assigned_after(n, edges, (k - 1) as nat);
        lemma_assigned_len(n, edges, (k - 1) as nat);
        assert(!b[v] && !is_ready(edges, b, v));
        let i = choose|i: int| 0 <= i < in_nbrs(edges, v).len() && !b[#[trigger] in_nbrs(edges, v)[i]];
        let u = in_nbrs(edges, v)[i];
        assert(has_edge(edges, u, v));
        let e = choose|e: int| 0 <= e < edges.len() && edges[e] == (u, v);
        assert(0 <= edges[e].0 < n);
        assert(a[u]);
        assert(is_ready(edges, b, u));
        assert(in_layer(n, edges, (k - 1) as nat, u));
    } else {
        assert forall|u: int| !#[trigger] has_edge(edges, u, v) by {
            if has_edge(edges, u, v) {
                let j = choose|j: nat| j < k && #[trigger] in_layer(n, edges, j, u);
            }
        }
    }
}

/// A crate is in at most one layer.
pub proof fn lemma_layer_unique(n: nat, edges: Seq<(int, int)>, j: nat, k: nat, v: int)
    requires
        in_layer(n, edges, j, v),
        in_layer(n, edges, k, v),
    ensures
        j == k,
{
    if j < k {
        lemma_assigned_len(n, edges, j);
        lemma_assigned_mono(n, edges, j + 1, k, v);
    } else if k < j {
        lemma_assigned_len(n, edges, k);
        lemma_assigned_mono(n, edges, k + 1, j, v);
    }
}

/// Along a topological order, the node at position `i` is assigned after
/// `i + 1` rounds.
proof fn lemma_topo_assigned(n: nat, edges: Seq<(int, int)>, order: Seq<int>, i: int)
    requires
        is_topo_order(n as int, edges, order),
        0 <= i < n,
        forall|e: int| 0 <= e < edges.len() ==> 0 <= #[trigger] edges[e].0 < n && 0 <= edges[e].1 < n,
    ensures
        assigned_after(n, edges, (i + 1) as nat)[order[i]],
    decreases i,
{
    let v = order[i];
    let a = assigned_after(n, edges, i as nat);
    lemma_assigned_len(n, edges, i as nat);
    lemma_in_nbrs(edges, v);
    if !a[v] {
        assert forall|t: int| 0 <= t < in_nbrs(edges, v).len() implies a[#[trigger] in_nbrs(edges, v)[t]] by {
            let u = in_nbrs(edges, v)[t];
            let e = choose|e: int| 0 <= e < edges.len() && edges[e] == (u, v);
            assert(0 <= edges[e].0 < n);
            assert(order.contains(u));
            let j = choose|j: int| 0 <= j < order.len() && order[j] == u;
            assert(has_edge(edges, order[j], order[i]));
            lemma_topo_assigned(n, edges, order, j);
            lemma_assigned_mono(n, edges, (j + 1) as nat, i as nat, u);
        }
        assert(is_ready(edges, a, v));
    }
}

/// On a graph without cycles, once a layer is empty every crate lies in an
/// earlier layer.
pub proof fn lemma_dag_layered(n: nat, edges: Seq<(int, int)>, m: nat)
    requires
        is_dag(n as int, edges),
        !layer_nonempty(n, edges, m),
        forall|e: int| 0 <= e < edges.len() ==> 0 <= #[trigger] edges[e].0 < n && 0 <= edges[e].1 < n,
    ensures
        forall|v: int| 0 <= v < n ==> #[trigger] layered_before(n, edges, m, v),
{
    let order = choose|o: Seq<int>| is_topo_order(n as int, edges, o);
    assert forall|v: int| 0 <= v < n implies #[trigger] layered_before(n, edges, m, v) by {
        assert(order.contains(v));
        let i = choose|i: int| 0 <= i < order.len() && order[i] == v;
        lemma_topo_assigned(n, edges, order, i);
        let big: nat = if i + 1 > m {
            (i + 1) as nat
        } else {
            m
        };
        lemma_assigned_mono(n, edges, (i + 1) as nat, big, v);
        lemma_empty_stays(n, edges, m, big);
        lemma_assigned_layer(n, edges, m, v);
    }
}

// ---------------------------------------------------------------------------
// Executable
// ---------------------------------------------------------------------------
/// Whether `v` holds a string equal to `x`.
pub fn contains_name(v: &Vec<String>, x: &String) -> (r: bool)
    ensures
        r == strings_view(v@).contains(x@),
{
    let mut i: usize = 0;
    while i < v.len()
        invariant
            i <= v@.len(),
            forall|j: int| 0 <= j < i ==> strings_view(v@)[j] != x@,
        decreases v@.len() - i,
    {
        if v[i] == *x {
            assert(strings_view(v@)[i as int] == x@);
            return true;
        }
        i = i + 1;
    }
    false
}

/// Whether all dependencies of `v` are assigned.
fn deps_assigned(graph: &DependencyGraph, assigned: &Vec<bool>, v: usize) -> (r: bool)
    requires
        v < graph.nodes().len(),
        assigned@.len() == graph.nodes().len(),
    ensures
        r == forall|i: int|
            0 <= i < in_nbrs(graph.edges(), v as int).len() ==> assigned@[#[trigger] in_nbrs(
                graph.edges(),
                v as int,
            )[i]],
{
    let nb = graph.neighbors(v, Dir::Incoming);
    let ghost nbv = nb@.map_values(|x: usize| x as int);
    let mut i: usize = 0;
    while i < nb.len()
        invariant
            i <= nb@.len(),
            nbv == nb@.map_values(|x: usize| x as int),
            nbv == in_nbrs(graph.edges(), v as int),
            assigned@.len() == graph.nodes().len(),
            forall|k: int| 0 <= k < nb@.len() ==> canonical(graph.names(), #[trigger] nb@[k] as int),
            forall|j: int| 0 <= j < i ==> assigned@[#[trigger] nbv[j]],
        decreases nb@.len() - i,
    {
        assert(nbv[i as int] == nb@[i as int] as int);
        assert(canonical(graph.names(), nb@[i as int] as int));
        if !assigned[nb[i]] {
            return false;
        }
        i = i + 1;
    }
    true
}

/// One round of layering over `assigned`: the names of the ready crates
/// (once each) and the ready nodes (in index order).
fn ready_layer(graph: &DependencyGraph, assigned: &Vec<bool>) -> (r: (Vec<String>, Vec<usize>))
    requires
        assigned@.len() == graph.nodes().len(),
    ensures
        strings_view(r.0@).no_duplicates(),
        forall|x: Seq<char>|
            #[trigger] strings_view(r.0@).contains(x) <==> exists|v: int|
                0 <= v < graph.nodes().len() && #[trigger] is_ready(graph.edges(), assigned@, v)
                    && graph.names()[v] == x,
        r.1@.no_duplicates(),
        forall|v: int|
            #![trigger r.1@.contains(v as usize)]
            #![trigger is_ready(graph.edges(), assigned@, v)]
            0 <= v < graph.nodes().len() ==> (r.1@.contains(v as usize) <==> is_ready(
                graph.edges(),
                assigned@,
                v,
            )),
        forall|k: int| 0 <= k < r.1@.len() ==> #[trigger] r.1@[k] < graph.nodes().len(),
{
    let n = graph.node_count();
    let ghost edges = graph.edges();
    let ghost names = graph.names();
    let mut current: Vec<String> = Vec::new();
    let mut newly: Vec<usize> = Vec::new();
    let mut idx: usize = 0;
    while idx < n
        invariant
            n == graph.nodes().len(),
            edges == graph.edges(),
            names == graph.names(),
            assigned@.len() == n,
            idx <= n,
            strings_view(current@).no_duplicates(),
            forall|x: Seq<char>|
                #[trigger] strings_view(current@).contains(x) <==> exists|v: int|
                    0 <= v < idx && #[trigger] is_ready(edges, assigned@, v) && names[v] == x,
            newly@.no_duplicates(),
            forall|v: int|
                0 <= v < n ==> (newly@.contains(v as usize) <==> (v < idx && #[trigger] is_ready(
                    edges,
                    assigned@,
                    v,
                ))),
            forall|k: int| 0 <= k < newly@.len() ==> #[trigger] newly@[k] < idx,
        decreases n - idx,
    {
        if !assigned[idx] && deps_assigned(graph, assigned, idx) {
            assert(is_ready(edges, assigned@, idx as int));
            let name = &graph.node_at(idx).name;
            assert(names[idx as int] == name@);
            let ghost cur = strings_view(current@);
            if !contains_name(&current, name) {
                current.push(name.clone());
                assert(strings_view(current@) =~= cur.push(name@));
                proof {
                    assert forall|x: Seq<char>|
                        #[trigger] strings_view(current@).contains(x) <==> exists|v: int|
                            0 <= v < idx + 1 && #[trigger] is_ready(edges, assigned@, v) && names[v]
                                == x by {
                        crate::model::lemma_push_contains(cur, name@, x);
                    }
                }
            } else {
                proof {
                    assert forall|x: Seq<char>|
                        #[trigger] strings_view(current@).contains(x) <==> exists|v: int|
                            0 <= v < idx + 1 && #[trigger] is_ready(edges, assigned@, v) && names[v]
                                == x by {
                        if x == name@ {
                            assert(is_ready(edges, assigned@, idx as int) && names[idx as int] == x);
                        }
                    }
                }
            }
            let ghost nw = newly@;
            newly.push(idx);
            proof {
                assert forall|v: int| 0 <= v < n implies (newly@.contains(v as usize) <==> (v < idx
                    + 1 && #[trigger] is_ready(edges, assigned@, v))) by {
                    crate::model::lemma_push_contains(nw, idx, v as usize);
                }
                assert forall|k: int| 0 <= k < newly@.len() implies #[trigger] newly@[k] < idx + 1 by {
                    if k < nw.len() {
                        assert(newly@[k] == nw[k]);
                    }
                }
                assert(!nw.contains(idx)) by {
                    if nw.contains(idx) {
                        let k = choose|k: int| 0 <= k < nw.len() && nw[k] == idx;
                    }
                }
            }
        } else {
            proof {
                assert(!is_ready(edges, assigned@, idx as int));
                assert forall|x: Seq<char>|
                    #[trigger] strings_view(current@).contains(x) <==> exists|v: int|
                        0 <= v < idx + 1 && #[trigger] is_ready(edges, assigned@, v) && names[v]
                            == x by {
                    if exists|v: int|
                        0 <= v < idx + 1 && #[trigger] is_ready(edges, assigned@, v) && names[v]
                            == x {
                        let v = choose|v: int|
                            0 <= v < idx + 1 && #[trigger] is_ready(edges, assigned@, v) && names[v]
                                == x;
                        assert(v < idx);
                    }
                }
            }
        }
        idx = idx + 1;
    }
    (current, newly)
}

/// Computes dependency layers.
/// Layer 0 = crates with no in-fleet dependencies.
/// Layer N = depends only on crates in layers 0..N.
pub struct LayerCalculator;

impl LayerCalculator {
    /// Compute layers for all crates in the graph: layer `k` holds the names
    /// of the crates whose dependencies all lie in layers before `k` (and
    /// that are in no earlier layer), in increasing order of name. Layering
    /// stops at the first empty layer, so crates on or after a cycle get no
    /// layer.
    pub fn compute(graph: &DependencyGraph) -> (r: Vec<Vec<String>>)
        ensures
            forall|k: int|
                0 <= k < r@.len() ==> is_layer(
                    graph.names(),
                    graph.edges(),
                    k as nat,
                    strings_view(#[trigger] r@[k]@),
                ),
            forall|k: int|
                0 <= k < r@.len() ==> #[trigger] layer_nonempty(
                    graph.nodes().len(),
                    graph.edges(),
                    k as nat,
                ),
            !layer_nonempty(graph.nodes().len(), graph.edges(), r@.len() as nat),
            forall|k: int| 0 <= k < r@.len() ==> names_sorted(strings_view(#[trigger] r@[k]@)),
            is_dag(graph.nodes().len() as int, graph.edges()) ==> forall|v: int|
                0 <= v < graph.nodes().len() ==> #[trigger] in_some_layer(r@, graph.names()[v]),
    {
        proof {
            use_type_invariant(graph);
            graph.lemma_inv();
        }
        let ghost edges = graph.edges();
        let ghost names = graph.names();
        let n = graph.node_count();
        assert(names.len() == n);
        let mut assigned: Vec<bool> = Vec::new();
        let mut w: usize = 0;
        while w < n
            invariant
                w <= n,
                assigned@.len() == w,
                forall|i: int| 0 <= i < w ==> !(#[trigger] assigned@[i]),
            decreases n - w,
        {
            assigned.push(false);
            w = w + 1;
        }
        assert(assigned@ =~= assigned_after(n as nat, edges, 0));
        assert(num_true(assigned@) == 0) by {
            assert forall|m: nat| m <= n implies num_true(#[trigger] assigned@.take(m as int)) == 0 by {
                lemma_num_true_take_false(assigned@, m);
            }
            assert(assigned@.take(n as int) =~= assigned@);
        }
        let mut layers: Vec<Vec<String>> = Vec::new();
        let mut count: usize = 0;
        let mut done = false;
        while count < n && !done
            invariant
                n == graph.nodes().len(),
                edges == graph.edges(),
                names == graph.names(),
                names.len() == n,
                assigned@ == assigned_after(n as nat, edges, layers@.len() as nat),
                count == num_true(assigned@),
                count <= n,
                assigned@.len() == n,
                forall|k: int|
                    0 <= k < layers@.len() ==> is_layer(
                        names,
                        edges,
                        k as nat,
                        strings_view(#[trigger] layers@[k]@),
                    ),
                forall|k: int|
                    0 <= k < layers@.len() ==> #[trigger] layer_nonempty(n as nat, edges, k as nat),
                forall|k: int| 0 <= k < layers@.len() ==> names_sorted(strings_view(#[trigger] layers@[k]@)),
                done ==> !layer_nonempty(n as nat, edges, layers@.len() as nat),
            decreases n - count, if done { 0int } else { 1int },
        {
            let ghost k = layers@.len() as nat;
            let (current, newly) = ready_layer(graph, &assigned);
            if current.len() == 0 {
                proof {
                    assert forall|v: int| !#[trigger] in_layer(n as nat, edges, k, v) by {
                        if in_layer(n as nat, edges, k, v) {
                            assert(strings_view(current@).contains(names[v]));
                        }
                    }
                }
                done = true;
            } else {
                let ghost a0 = assigned@;
                proof {
                    let x = strings_view(current@)[0];
                    assert(strings_view(current@).contains(x));
                    let v = choose|v: int|
                        0 <= v < n && #[trigger] is_ready(edges, a0, v) && names[v] == x;
                    assert(in_layer(n as nat, edges, k, v));
                    assert(newly@.contains(v as usize));
                    assert(newly@.len() >= 1);
                    assert(is_layer(names, edges, k, strings_view(current@))) by {
                        assert forall|x: Seq<char>| #[trigger]
                            strings_view(current@).contains(x) <==> layer_has_name(names, edges, k, x) by {
                            if layer_has_name(names, edges, k, x) {
                                let v = choose|v: int| #[trigger] in_layer(n as nat, edges, k, v) && names[v] == x;
                                assert(is_ready(edges, a0, v));
                            }
                            if strings_view(current@).contains(x) {
                                let v = choose|v: int|
                                    0 <= v < n && #[trigger] is_ready(edges, a0, v) && names[v] == x;
                                assert(in_layer(n as nat, edges, k, v));
                            }
                        }
                    }
                }
                let ghost count0 = count;
                let mut t: usize = 0;
                while t < newly.len()
                    invariant
                        count == count0 + t,
                        n == graph.nodes().len(),
                        assigned@.len() == n,
                        a0.len() == n,
                        t <= newly@.len(),
                        newly@.no_duplicates(),
                        forall|j: int| 0 <= j < newly@.len() ==> #[trigger] newly@[j] < n,
                        forall|v: int| 0 <= v < n && newly@.contains(v as usize) ==> !a0[v],
                        forall|v: int|
                            0 <= v < n ==> #[trigger] assigned@[v] == (a0[v] || newly@.take(
                                t as int,
                            ).contains(v as usize)),
                        count == num_true(assigned@),
                        count <= n,
                    decreases newly@.len() - t,
                {
                    let v = newly[t];
                    proof {
                        assert(newly@.contains(v));
                        assert(!newly@.take(t as int).contains(v)) by {
                            if newly@.take(t as int).contains(v) {
                                let j = choose|j: int| 0 <= j < t && newly@.take(t as int)[j] == v;
                                assert(newly@[j] == newly@[t as int]);
                            }
                        }
                        assert(!assigned@[v as int]);
                        lemma_num_true_update(assigned@, v as int);
                        lemma_num_true_bound(assigned@.update(v as int, true));
                    }
                    let ghost before = assigned@;
                    assigned.set(v, true);
                    count = count + 1;
                    proof {
                        assert(newly@.take(t + 1) =~= newly@.take(t as int).push(v));
                        assert forall|w: int| 0 <= w < n implies #[trigger] assigned@[w] == (a0[w]
                            || newly@.take(t + 1).contains(w as usize)) by {
                            crate::model::lemma_push_contains(newly@.take(t as int), v, w as usize);
                        }
                    }
                    t = t + 1;
                }
                proof {
                    assert(newly@.take(newly@.len() as int) =~= newly@);
                    assert(assigned@ =~= assign_round(edges, a0));
                }
                let ghost cur = strings_view(current@);
                let current = sort_names(current);
                assert(is_layer(names, edges, k, strings_view(current@))) by {
                    assert forall|x: Seq<char>| #[trigger] strings_view(current@).contains(x) <==> layer_has_name(names, edges, k, x) by {
                        assert(cur.contains(x) <==> layer_has_name(names, edges, k, x));
                    }
                }
                layers.push(current);
                proof {
                    assert forall|j: int| 0 <= j < layers@.len() implies names_sorted(strings_view(#[trigger] layers@[j]@)) by {
                        if j < k {
                        }
                    }
                    assert forall|j: int| 0 <= j < layers@.len() implies is_layer(
                        names,
                        edges,
                        j as nat,
                        strings_view(#[trigger] layers@[j]@),
                    ) by {
                        if j < k {
                        }
                    }
                }
            }
        }
        proof {
            if !done {
                lemma_num_true_bound(assigned@);
                let k = layers@.len() as nat;
                assert forall|v: int| !#[trigger] in_layer(n as nat, edges, k, v) by {
                    if 0 <= v < n {
                        assert(assigned@[v]);
                    }
                }
            }
            if is_dag(n as int, edges) {
                lemma_dag_layered(n as nat, edges, layers@.len() as nat);
                assert forall|v: int| 0 <= v < n implies #[trigger] in_some_layer(layers@, names[v]) by {
                    assert(layered_before(n as nat, edges, layers@.len() as nat, v));
                    let j = choose|j: nat| j < layers@.len() && #[trigger] in_layer(n as nat, edges, j, v);
                    assert(layer_has_name(names, edges, j, names[v]));
                    assert(is_layer(names, edges, j, strings_view(layers@[j as int]@)));
                    assert(strings_view(layers@[j as int]@).contains(names[v]));
                }
            }
        }
        layers
    }

    /// Get the layer number for a specific crate: the first layer that
    /// holds its name.
    pub fn layer_of(graph: &DependencyGraph, name: &str) -> (r: Option<usize>)
        ensures
            match r {
                Some(k) => layer_has_name(graph.names(), graph.edges(), k as nat, name@)
                    && forall|j: nat| j < k ==> !layer_has_name(graph.names(), graph.edges(), j, name@),
                None => forall|j: nat| !layer_has_name(graph.names(), graph.edges(), j, name@),
            },
            is_dag(graph.nodes().len() as int, graph.edges()) && graph.names().contains(name@) ==> r is Some,
    {
        let ghost edges = graph.edges();
        let ghost names = graph.names();
        let layers = Self::compute(graph);
        let key = name.to_string();
        let mut i: usize = 0;
        while i < layers.len()
            invariant
                edges == graph.edges(),
                names == graph.names(),
                key@ == name@,
                i <= layers@.len(),
                forall|k: int|
                    0 <= k < layers@.len() ==> is_layer(
                        names,
                        edges,
                        k as nat,
                        strings_view(#[trigger] layers@[k]@),
                    ),
                forall|j: nat| j < i ==> !layer_has_name(names, edges, j, name@),
            decreases layers@.len() - i,
        {
            assert(is_layer(names, edges, i as nat, strings_view(layers@[i as int]@)));
            if contains_name(&layers[i], &key) {
                return Some(i);
            }
            i = i + 1;
        }
        proof {
            if is_dag(names.len() as int, edges) && names.contains(name@) {
                let v = choose|v: int| 0 <= v < names.len() && names[v] == name@;
                assert(in_some_layer(layers@, names[v]));
                let k = choose|k: int| 0 <= k < layers@.len() && #[trigger] strings_view(layers@[k]@).contains(names[v]);
                assert(is_layer(names, edges, k as nat, strings_view(layers@[k]@)));
                assert(layer_has_name(names, edges, k as nat, name@));
            }
            assert forall|j: nat| !layer_has_name(names, edges, j, name@) by {
                if j >= layers@.len() {
                    lemma_empty_stays(names.len(), edges, layers@.len() as nat, j);
                    if layer_has_name(names, edges, j, name@) {
                        let v = choose|v: int| #[trigger] in_layer(names.len(), edges, j, v) && names[v] == name@;
                    }
                }
            }
        }
        None
    }
}

pub proof fn lemma_num_true_take_false(s: Seq<bool>, m: nat)
    requires
        m <= s.len(),
        forall|i: int| 0 <= i < s.len() ==> !(#[trigger] s[i]),
    ensures
        num_true(s.take(m as int)) == 0,
    decreases m,
{
    if m > 0 {
        assert(s.take(m as int).drop_last() =~= s.take(m - 1));
        lemma_num_true_take_false(s, (m - 1) as nat);
    }
}

} // verus!
