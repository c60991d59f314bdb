//! Downstream impact of a change to a crate.
use vstd::prelude::*;
use crate::digraph::Dir;
use crate::graph::DependencyGraph;
use crate::critical::ints;
use crate::layers::{contains_name, in_some_layer};
use crate::manifest::strings_view;
use crate::order::{names_sorted, sort_names};
use crate::model::{
    canonical, edges_canonical, has_edge, is_path, last_index, lemma_canonical_unique, lemma_distinct_bounded,
    lemma_last_index, lemma_out_nbrs, lemma_push_contains, out_nbrs, path_step,
};

verus! {

/// A walk of at least one edge leads from `s` to `v`.
pub open spec fn reaches(edges: Seq<(int, int)>, s: int, v: int) -> bool {
    exists|p: Seq<int>| #[trigger] is_path(edges, p) && p.len() >= 2 && p[0] == s && p.last() == v
}

/// `x` names a crate downstream of the crate `name` refers to: another
/// crate that depends on it directly or transitively.
pub open spec fn is_downstream(names: Seq<Seq<char>>, edges: Seq<(int, int)>, name: Seq<char>, x: Seq<char>) -> bool {
    match last_index(names, name) {
        Some(s) => exists|v: int| 0 <= v < names.len() && #[trigger] reaches(edges, s, v) && v != s && names[v] == x,
        None => false,
    }
}

/// Some node reached from `s` by a walk of at least one edge is named `x`.
pub open spec fn reached_name(names: Seq<Seq<char>>, edges: Seq<(int, int)>, s: int, x: Seq<char>) -> bool {
    exists|v: int| 0 <= v < names.len() && #[trigger] reaches(edges, s, v) && names[v] == x
}

/// A node reached by a walk of at least one edge is the node its name refers to.
proof fn lemma_reached_canonical(names: Seq<Seq<char>>, edges: Seq<(int, int)>, s: int, v: int)
    requires
        reaches(edges, s, v),
        edges_canonical(names, edges),
    ensures
        canonical(names, v),
{
    let p = choose|p: Seq<int>| #[trigger] is_path(edges, p) && p.len() >= 2 && p[0] == s && p.last() == v;
    assert(path_step(edges, p, p.len() - 2));
    let k = choose|k: int| 0 <= k < edges.len() && edges[k] == (p[p.len() - 2], p[p.len() - 1]);
    assert(canonical(names, edges[k].0));
}

/// The strings of `v` other than `x`, in order.
fn without_name(v: Vec<String>, x: &String) -> (r: Vec<String>)
    requires
        strings_view(v@).no_duplicates(),
    ensures
        r@.len() <= v@.len(),
        strings_view(r@).no_duplicates(),
        forall|y: Seq<char>| #[trigger] strings_view(r@).contains(y) <==> (strings_view(v@).contains(y) && y != x@),
{
    let mut r: Vec<String> = Vec::new();
    let mut i: usize = 0;
    while i < v.len()
        invariant
            i <= v@.len(),
            r@.len() <= i,
            strings_view(v@).no_duplicates(),
            strings_view(r@).no_duplicates(),
            forall|y: Seq<char>| #[trigger] strings_view(r@).contains(y) <==> (strings_view(v@).take(i as int).contains(y) && y != x@),
        decreases v@.len() - i,
    {
        let ghost rv = strings_view(r@);
        let ghost y0 = v@[i as int]@;
        assert(strings_view(v@).take(i + 1) =~= strings_view(v@).take(i as int).push(y0));
        assert(!strings_view(v@).take(i as int).contains(y0)) by {
            if strings_view(v@).take(i as int).contains(y0) {
                let j = choose|j: int| 0 <= j < i && strings_view(v@).take(i as int)[j] == y0;
                assert(strings_view(v@)[j] == strings_view(v@)[i as int]);
            }
        }
        if v[i] != *x {
            r.push(v[i].clone());
            assert(strings_view(r@) =~= rv.push(y0));
            assert(strings_view(r@).no_duplicates()) by {
                let f = strings_view(r@);
                assert forall|a: int, b: int| 0 <= a < f.len() && 0 <= b < f.len() && a != b implies f[a] != f[b] by {
                    if a == f.len() - 1 {
                        assert(rv.contains(f[b]));
                    } else if b == f.len() - 1 {
                        assert(rv.contains(f[a]));
                    } else {
                        assert(f[a] == rv[a] && f[b] == rv[b]);
                    }
                }
            }
        }
        proof {
            assert forall|y: Seq<char>| #[trigger] strings_view(r@).contains(y) <==> (strings_view(v@).take(i + 1).contains(y) && y != x@) by {
                crate::model::lemma_push_contains(strings_view(v@).take(i as int), y0, y);
                crate::model::lemma_push_contains(rv, y0, y);
            }
        }
        i = i + 1;
    }
    assert(strings_view(v@).take(v@.len() as int) =~= strings_view(v@));
    r
}

/// The names of the crates downstream of `name`.
pub open spec fn downstream_name_set(names: Seq<Seq<char>>, edges: Seq<(int, int)>, name: Seq<char>) -> Set<Seq<char>> {
    Set::new(|x: Seq<char>| is_downstream(names, edges, name, x))
}

/// A walk from `s` extended by an edge reaches the edge's end.
proof fn lemma_reaches_step(edges: Seq<(int, int)>, s: int, u: int, w: int)
    requires
        u == s || reaches(edges, s, u),
        has_edge(edges, u, w),
    ensures
        reaches(edges, s, w),
{
    if u == s {
        let p = seq![s, w];
        assert(path_step(edges, p, 0));
        assert(is_path(edges, p));
    } else {
        let p = choose|p: Seq<int>| #[trigger] is_path(edges, p) && p.len() >= 2 && p[0] == s && p.last() == u;
        let q = p.push(w);
        assert forall|i: int| 0 <= i < q.len() - 1 implies #[trigger] path_step(edges, q, i) by {
            if i < p.len() - 1 {
                assert(path_step(edges, p, i));
            }
        }
        assert(is_path(edges, q));
    }
}

/// A set of nodes containing the successors of `s` and of its own members
/// contains every node reached from `s`.
proof fn lemma_closed_reach(edges: Seq<(int, int)>, s: int, set: Seq<int>, v: int)
    requires
        reaches(edges, s, v),
        forall|u: int, w: int|
            (u == s || set.contains(u)) && #[trigger] has_edge(edges, u, w) ==> set.contains(w),
    ensures
        set.contains(v),
{
    let p = choose|p: Seq<int>| #[trigger] is_path(edges, p) && p.len() >= 2 && p[0] == s && p.last() == v;
    lemma_closed_path(edges, s, set, p, p.len() - 1);
}

proof fn lemma_closed_path(edges: Seq<(int, int)>, s: int, set: Seq<int>, p: Seq<int>, i: int)
    requires
        is_path(edges, p),
        p[0] == s,
        1 <= i < p.len(),
        forall|u: int, w: int|
            (u == s || set.contains(u)) && #[trigger] has_edge(edges, u, w) ==> set.contains(w),
    ensures
        set.contains(p[i]),
    decreases i,
{
    assert(path_step(edges, p, i - 1));
    if i > 1 {
        lemma_closed_path(edges, s, set, p, i - 1);
    }
}

/// Analyzes the blast radius of a change to a crate.
pub struct ImpactAnalyzer<'a> {
    graph: &'a DependencyGraph,
}

impl<'a> ImpactAnalyzer<'a> {
    /// The graph analyzed.
    pub closed spec fn target(&self) -> DependencyGraph {
        *self.graph
    }

    pub fn new(graph: &'a DependencyGraph) -> (r: Self)
        ensures
            r.target() == *graph,
    {
        ImpactAnalyzer { graph }
    }

    /// Count all downstream crates (direct + transitive dependents), the
    /// crate itself not included.
    pub fn downstream_count(&self, name: &str) -> (c: usize)
        ensures
            c == downstream_name_set(self.target().names(), self.target().edges(), name@).len(),
            c <= self.target().nodes().len(),
    {
        let set = self.downstream_set(name);
        proof {
            let sv = strings_view(set@);
            sv.unique_seq_to_set();
            assert(sv.to_set() =~= downstream_name_set(
                self.target().names(),
                self.target().edges(),
                name@,
            ));
        }
        set.len()
    }

    /// Get the names of all downstream crates, each once.
    pub fn downstream_set(&self, name: &str) -> (r: Vec<String>)
        ensures
            r@.len() <= self.target().nodes().len(),
            strings_view(r@).no_duplicates(),
            forall|x: Seq<char>| #[trigger]
                strings_view(r@).contains(x) <==> is_downstream(
                    self.target().names(),
                    self.target().edges(),
                    name@,
                    x,
                ),
    {
        let graph = self.graph;
        proof {
            use_type_invariant(graph);
            graph.lemma_inv();
            lemma_last_index(graph.names(), name@);
        }
        let ghost names = graph.names();
        let ghost edges = graph.edges();
        let n = graph.node_count();
        let mut visited: Vec<String> = Vec::new();
        let start = match graph.index_of(name) {
            Some(i) => i,
            None => return visited,
        };
        let ghost s = start as int;
        assert(canonical(names, s));
        let ghost mut vnodes: Seq<int> = Seq::empty();
        let mut stack: Vec<usize> = Vec::new();
        stack.push(start);
        assert(stack@[0] == start);
        while stack.len() > 0
            invariant
                n == graph.nodes().len(),
                names == graph.names(),
                edges == graph.edges(),
                names.len() == n,
                canonical(names, s),
                s == start as int,
                vnodes.len() == visited@.len(),
                vnodes.no_duplicates(),
                strings_view(visited@).no_duplicates(),
                forall|i: int|
                    0 <= i < vnodes.len() ==> canonical(names, #[trigger] vnodes[i]) && reaches(
                        edges,
                        s,
                        vnodes[i],
                    ) && names[vnodes[i]] == strings_view(visited@)[i],
                forall|i: int|
                    0 <= i < stack@.len() ==> #[trigger] stack@[i] as int == s || vnodes.contains(
                        stack@[i] as int,
                    ),
                forall|i: int| 0 <= i < stack@.len() ==> #[trigger] stack@[i] < n,
                forall|u: int, w: int|
                    (u == s || vnodes.contains(u)) && !stack@.contains(u as usize) && #[trigger] has_edge(
                        edges,
                        u,
                        w,
                    ) ==> vnodes.contains(w),
            decreases n - vnodes.len(), stack@.len(),
        {
            proof {
                assert forall|k: int| 0 <= k < vnodes.len() implies 0 <= #[trigger] vnodes[k] < n by {
                    assert(canonical(names, vnodes[k]));
                }
                lemma_distinct_bounded(vnodes, 0, n as int);
            }
            let ghost stack0 = stack@;
            let node = stack.pop().unwrap();
            assert(stack0[stack0.len() - 1] == node);
            let nbs = graph.neighbors(node, Dir::Outgoing);
            let ghost nbv = nbs@.map_values(|x: usize| x as int);
            let ghost vn0 = vnodes;
            proof {
                lemma_out_nbrs(edges, node as int);
            }
            let ghost stack1 = stack@;
            let mut t: usize = 0;
            while t < nbs.len()
                invariant
                    n == graph.nodes().len(),
                    names == graph.names(),
                    edges == graph.edges(),
                    names.len() == n,
                    canonical(names, s),
                    s == start as int,
                    node < n,
                    node as int == s || vn0.contains(node as int),
                    nbv == nbs@.map_values(|x: usize| x as int),
                    nbv == out_nbrs(edges, node as int),
                    forall|k: int| 0 <= k < nbs@.len() ==> canonical(names, #[trigger] nbs@[k] as int),
                    t <= nbs@.len(),
                    vnodes.len() == visited@.len(),
                    vnodes.no_duplicates(),
                    strings_view(visited@).no_duplicates(),
                    forall|i: int|
                        0 <= i < vnodes.len() ==> canonical(names, #[trigger] vnodes[i]) && reaches(
                            edges,
                            s,
                            vnodes[i],
                        ) && names[vnodes[i]] == strings_view(visited@)[i],
                    forall|x: int| vn0.contains(x) ==> #[trigger] vnodes.contains(x),
                    forall|j: int| 0 <= j < t ==> vnodes.contains(#[trigger] nbv[j]),
                    stack@.len() >= stack1.len(),
                    forall|i: int| 0 <= i < stack1.len() ==> #[trigger] stack@[i] == stack1[i],
                    forall|i: int|
                        stack1.len() <= i < stack@.len() ==> vnodes.contains(#[trigger] stack@[i] as int)
                            && !vn0.contains(stack@[i] as int),
                    forall|i: int| 0 <= i < stack@.len() ==> #[trigger] stack@[i] < n,
                    forall|x: int|
                        #[trigger] vnodes.contains(x) && !vn0.contains(x) ==> stack@.contains(
                            x as usize,
                        ),
                    vnodes.len() >= vn0.len(),
                    stack@.len() - stack1.len() == vnodes.len() - vn0.len(),
                decreases nbs@.len() - t,
            {
                let w = nbs[t];
                assert(nbv[t as int] == w as int);
                proof {
                    lemma_out_nbrs(edges, node as int);
                    assert(out_nbrs(edges, node as int)[t as int] == w as int);
                    if node as int != s {
                        let i = choose|i: int| 0 <= i < vn0.len() && vn0[i] == node as int;
                        assert(vn0.contains(node as int));
                        assert(vnodes.contains(node as int));
                        let j = choose|j: int| 0 <= j < vnodes.len() && vnodes[j] == node as int;
                        assert(reaches(edges, s, vnodes[j]));
                    }
                }
                assert(canonical(names, w as int));
                let wname = &graph.node_at(w).name;
                assert(names[w as int] == wname@);
                if !contains_name(&visited, wname) {
                    let ghost vis0 = strings_view(visited@);
                    let ghost st0 = stack@;
                    proof {
                        assert(has_edge(edges, node as int, w as int));
                        lemma_reaches_step(edges, s, node as int, w as int);
                        assert(!vnodes.contains(w as int)) by {
                            if vnodes.contains(w as int) {
                                let i = choose|i: int| 0 <= i < vnodes.len() && vnodes[i] == w as int;
                                assert(vis0[i] == wname@);
                            }
                        }
                        assert(!vn0.contains(w as int));
                    }
                    visited.push(wname.clone());
                    stack.push(w);
                    proof {
                        let old_v = vnodes;
                        vnodes = vnodes.push(w as int);
                        assert(strings_view(visited@) =~= vis0.push(wname@));
                        assert forall|i: int| 0 <= i < vnodes.len() implies canonical(
                            names,
                            #[trigger] vnodes[i],
                        ) && reaches(edges, s, vnodes[i]) && names[vnodes[i]] == strings_view(
                            visited@,
                        )[i] by {
                            if i < old_v.len() {
                                assert(vnodes[i] == old_v[i]);
                            }
                        }
                        assert forall|x: int| vn0.contains(x) implies #[trigger] vnodes.contains(x) by {
                            lemma_push_contains(old_v, w as int, x);
                        }
                        assert forall|j: int| 0 <= j < t + 1 implies vnodes.contains(#[trigger] nbv[j]) by {
                            lemma_push_contains(old_v, w as int, nbv[j]);
                        }
                        assert forall|i: int|
                            stack1.len() <= i < stack@.len() implies vnodes.contains(
                                #[trigger] stack@[i] as int,
                            ) && !vn0.contains(stack@[i] as int) by {
                            lemma_push_contains(old_v, w as int, stack@[i] as int);
                            if i < st0.len() {
                                assert(stack@[i] == st0[i]);
                            }
                        }
                        assert forall|i: int| 0 <= i < stack1.len() implies #[trigger] stack@[i] == stack1[i] by {
                            assert(stack@[i] == st0[i]);
                        }
                        assert forall|x: int|
                            #[trigger] vnodes.contains(x) && !vn0.contains(x) implies stack@.contains(
                            x as usize,
                        ) by {
                            lemma_push_contains(old_v, w as int, x);
                            lemma_push_contains(st0, w, x as usize);
                        }
                        assert forall|i: int| 0 <= i < stack@.len() implies #[trigger] stack@[i] < n by {
                            if i < st0.len() {
                                assert(stack@[i] == st0[i]);
                            }
                        }
                    }
                } else {
                    proof {
                        let i = choose|i: int| 0 <= i < visited@.len() && strings_view(visited@)[i] == wname@;
                        assert(names[vnodes[i]] == names[w as int]);
                        lemma_canonical_unique(names, vnodes[i], w as int);
                        assert(vnodes.contains(w as int));
                    }
                }
                t = t + 1;
            }
            proof {
                assert forall|k: int| 0 <= k < vnodes.len() implies 0 <= #[trigger] vnodes[k] < n by {
                    assert(canonical(names, vnodes[k]));
                }
                lemma_distinct_bounded(vnodes, 0, n as int);
                assert forall|i: int|
                    0 <= i < stack@.len() implies #[trigger] stack@[i] as int == s || vnodes.contains(
                    stack@[i] as int,
                ) by {
                    if i < stack1.len() {
                        assert(stack@[i] == stack0[i]);
                    }
                }
                assert forall|u: int, w: int|
                    (u == s || vnodes.contains(u)) && !stack@.contains(u as usize) && #[trigger] has_edge(
                        edges,
                        u,
                        w,
                    ) implies vnodes.contains(w) by {
                    if u == node as int {
                        assert(out_nbrs(edges, node as int).contains(w));
                        let j = choose|j: int| 0 <= j < nbv.len() && nbv[j] == w;
                    } else if vn0.contains(u) || u == s {
                        assert(!stack0.contains(u as usize)) by {
                            if stack0.contains(u as usize) {
                                let i = choose|i: int| 0 <= i < stack0.len() && stack0[i] == u as usize;
                                if i < stack1.len() {
                                    assert(stack@[i] == u as usize);
                                } else {
                                    assert(stack0[i] == node);
                                }
                            }
                        }
                    } else {
                        let i = choose|i: int| 0 <= i < vnodes.len() && vnodes[i] == u;
                        assert(canonical(names, u));
                        assert(vnodes.contains(u) && !vn0.contains(u));
                        assert(stack@.contains(u as usize));
                    }
                }
            }
        }
        proof {
            assert forall|u: int, w: int|
                (u == s || vnodes.contains(u)) && #[trigger] has_edge(edges, u, w) implies vnodes.contains(
                w,
            ) by {
                assert(!stack@.contains(u as usize));
            }
            assert forall|x: Seq<char>| #[trigger]
                strings_view(visited@).contains(x) <==> reached_name(names, edges, s, x) by {
                if strings_view(visited@).contains(x) {
                    let i = choose|i: int| 0 <= i < visited@.len() && strings_view(visited@)[i] == x;
                    assert(canonical(names, vnodes[i]));
                    assert(reaches(edges, s, vnodes[i]));
                }
                if reached_name(names, edges, s, x) {
                    let v = choose|v: int| 0 <= v < names.len() && #[trigger] reaches(edges, s, v) && names[v] == x;
                    lemma_closed_reach(edges, s, vnodes, v);
                    let i = choose|i: int| 0 <= i < vnodes.len() && vnodes[i] == v;
                    assert(strings_view(visited@)[i] == x);
                }
            }
            assert forall|k: int| 0 <= k < vnodes.len() implies 0 <= #[trigger] vnodes[k] < n by {
                assert(canonical(names, vnodes[k]));
            }
            lemma_distinct_bounded(vnodes, 0, n as int);
        }
        let own = &graph.node_at(start).name;
        assert(own@ == names[s]);
        let r = without_name(visited, own);
        proof {
            assert forall|x: Seq<char>| #[trigger]
                strings_view(r@).contains(x) <==> is_downstream(names, edges, name@, x) by {
                if reached_name(names, edges, s, x) && x != own@ {
                    let v = choose|v: int| 0 <= v < names.len() && #[trigger] reaches(edges, s, v) && names[v] == x;
                    assert(v != s);
                }
                if is_downstream(names, edges, name@, x) {
                    let v = choose|v: int| 0 <= v < names.len() && #[trigger] reaches(edges, s, v) && v != s && names[v] == x;
                    assert(reached_name(names, edges, s, x));
                    lemma_reached_canonical(names, edges, s, v);
                    if x == own@ {
                        lemma_canonical_unique(names, v, s);
                    }
                }
            }
        }
        r
    }
}


/// Breadth-first search from `s` after `d` rounds: the nodes seen (within
/// `d` steps) and the nodes of the last level (exactly `d` steps away).
pub open spec fn bfs_state(n: nat, edges: Seq<(int, int)>, s: int, d: nat) -> (Seq<bool>, Seq<bool>)
    decreases d,
{
    if d == 0 {
        (Seq::new(n, |w: int| w == s), Seq::new(n, |w: int| w == s))
    } else {
        let prev = bfs_state(n, edges, s, (d - 1) as nat);
        let next = Seq::new(
            n,
            |w: int|
                !prev.0[w] && exists|u: int| 0 <= u < n && #[trigger] prev.1[u] && has_edge(edges, u, w),
        );
        (Seq::new(n, |w: int| prev.0[w] || next[w]), next)
    }
}

/// `w` is reached from `s` in `d` steps and no fewer (breadth-first level `d`).
pub open spec fn in_level(n: nat, edges: Seq<(int, int)>, s: int, d: nat, w: int) -> bool {
    0 <= w < n && bfs_state(n, edges, s, d).1[w]
}

/// `w` is reached from `s` in at most `d` steps.
pub open spec fn bfs_seen(n: nat, edges: Seq<(int, int)>, s: int, d: nat, w: int) -> bool {
    0 <= w < n && bfs_state(n, edges, s, d).0[w]
}

/// Level `d` from `s` is not empty.
pub open spec fn level_nonempty(n: nat, edges: Seq<(int, int)>, s: int, d: nat) -> bool {
    exists|w: int| #[trigger] in_level(n, edges, s, d, w)
}

/// `layer` holds, once each, the names of the crates at level `d` from `s`.
pub open spec fn is_depth_layer(names: Seq<Seq<char>>, edges: Seq<(int, int)>, s: int, d: nat, layer: Seq<Seq<char>>) -> bool {
    &&& layer.no_duplicates()
    &&& forall|x: Seq<char>| #[trigger]
        layer.contains(x) <==> exists|w: int| #[trigger] in_level(names.len(), edges, s, d, w) && names[w] == x
}

/// `w` is not yet seen and some node of `cur` has an edge to it.
pub open spec fn round_found(edges: Seq<(int, int)>, cur: Seq<int>, vis: Seq<bool>, w: int) -> bool {
    &&& !vis[w]
    &&& exists|i: int| 0 <= i < cur.len() && #[trigger] has_edge(edges, cur[i], w)
}

/// One breadth-first round: marks and returns the unseen targets of the
/// edges leaving `current` (in order of discovery), with their names.
fn bfs_round(graph: &DependencyGraph, current: &Vec<usize>, visited: &mut Vec<bool>, count: &mut usize) -> (r: (Vec<usize>, Vec<String>))
    requires
        old(visited)@.len() == graph.nodes().len(),
        forall|i: int| 0 <= i < current@.len() ==> #[trigger] current@[i] < graph.nodes().len(),
        *old(count) == crate::layers::num_true(old(visited)@),
    ensures
        final(visited)@.len() == graph.nodes().len(),
        *final(count) == crate::layers::num_true(final(visited)@),
        *final(count) <= graph.nodes().len(),
        *final(count) == *old(count) + r.0@.len(),
        forall|w: int|
            0 <= w < graph.nodes().len() ==> (#[trigger] final(visited)@[w] <==> old(visited)@[w]
                || round_found(graph.edges(), ints(current@), old(visited)@, w)),
        forall|w: int|
            #![trigger r.0@.contains(w as usize)]
            #![trigger round_found(graph.edges(), ints(current@), old(visited)@, w)]
            0 <= w < graph.nodes().len() ==> (r.0@.contains(w as usize) <==> round_found(
                graph.edges(),
                ints(current@),
                old(visited)@,
                w,
            )),
        r.0@.no_duplicates(),
        forall|i: int| 0 <= i < r.0@.len() ==> canonical(graph.names(), #[trigger] r.0@[i] as int),
        r.1@.len() == r.0@.len(),
        forall|i: int| 0 <= i < r.1@.len() ==> #[trigger] r.1@[i]@ == graph.names()[r.0@[i] as int],
{
    let ghost edges = graph.edges();
    let ghost names = graph.names();
    let ghost vis0 = visited@;
    let ghost cur = ints(current@);
    let ghost n = graph.nodes().len();
    proof {
        use_type_invariant(graph);
        graph.lemma_inv();
        crate::layers::lemma_num_true_bound(visited@);
    }
    let mut next: Vec<usize> = Vec::new();
    let mut layer: Vec<String> = Vec::new();
    let mut c: usize = 0;
    while c < current.len()
        invariant
            n == graph.nodes().len(),
            n < u32::MAX,
            edges == graph.edges(),
            names == graph.names(),
            vis0.len() == n,
            cur == ints(current@),
            forall|i: int| 0 <= i < current@.len() ==> #[trigger] current@[i] < n,
            c <= current@.len(),
            visited@.len() == n,
            *count == crate::layers::num_true(visited@),
            *count == *old(count) + next@.len(),
            *count <= n,
            forall|w: int|
                0 <= w < n ==> (#[trigger] visited@[w] <==> vis0[w] || round_found(
                    edges,
                    cur.take(c as int),
                    vis0,
                    w,
                )),
            forall|w: int|
                #![trigger next@.contains(w as usize)]
                #![trigger round_found(edges, cur.take(c as int), vis0, w)]
                0 <= w < n ==> (next@.contains(w as usize) <==> round_found(
                    edges,
                    cur.take(c as int),
                    vis0,
                    w,
                )),
            next@.no_duplicates(),
            forall|i: int| 0 <= i < next@.len() ==> canonical(names, #[trigger] next@[i] as int),
            layer@.len() == next@.len(),
            forall|i: int| 0 <= i < layer@.len() ==> #[trigger] layer@[i]@ == names[next@[i] as int],
        decreases current@.len() - c,
    {
        let node = current[c];
        assert(cur[c as int] == node as int);
        let nbs = graph.neighbors(node, Dir::Outgoing);
        let ghost nbv = nbs@.map_values(|x: usize| x as int);
        let ghost vis_c = visited@;
        let ghost next_c = next@;
        assert(cur.take(c + 1) =~= cur.take(c as int).push(node as int));
        let mut t: usize = 0;
        while t < nbs.len()
            invariant
                n == graph.nodes().len(),
                n < u32::MAX,
                edges == graph.edges(),
                names == graph.names(),
                vis0.len() == n,
                node < n,
                nbv == nbs@.map_values(|x: usize| x as int),
                nbv == out_nbrs(edges, node as int),
                forall|k: int| 0 <= k < nbs@.len() ==> canonical(names, #[trigger] nbs@[k] as int),
                t <= nbs@.len(),
                visited@.len() == n,
                *count == crate::layers::num_true(visited@),
                *count == *old(count) + next@.len(),
                *count <= n,
                forall|w: int|
                    0 <= w < n ==> (#[trigger] visited@[w] <==> vis_c[w] || (!vis0[w] && nbv.take(
                        t as int,
                    ).contains(w))),
                forall|w: int| 0 <= w < n ==> (vis_c[w] <==> vis0[w] || round_found(edges, cur.take(c as int), vis0, w)),
                forall|w: int|
                    #![trigger next@.contains(w as usize)]
                    0 <= w < n ==> (next@.contains(w as usize) <==> next_c.contains(w as usize) || (
                    !vis0[w] && !vis_c[w] && nbv.take(t as int).contains(w))),
                forall|w: int| 0 <= w < n ==> (next_c.contains(w as usize) <==> round_found(edges, cur.take(c as int), vis0, w)),
                next@.no_duplicates(),
                forall|i: int| 0 <= i < next@.len() ==> canonical(names, #[trigger] next@[i] as int),
                layer@.len() == next@.len(),
                forall|i: int| 0 <= i < layer@.len() ==> #[trigger] layer@[i]@ == names[next@[i] as int],
            decreases nbs@.len() - t,
        {
            let w = nbs[t];
            assert(nbv[t as int] == w as int);
            assert(canonical(names, w as int));
            assert(nbv.take(t + 1) =~= nbv.take(t as int).push(w as int));
            if !visited[w] {
                proof {
                    crate::layers::lemma_num_true_update(visited@, w as int);
                    crate::layers::lemma_num_true_bound(visited@.update(w as int, true));
                }
                let ghost nx = next@;
                let ghost vb = visited@;
                visited.set(w, true);
                *count = *count + 1;
                let name = &graph.node_at(w).name;
                assert(names[w as int] == name@);
                layer.push(name.clone());
                next.push(w);
                proof {
                    assert(!vb[w as int]);
                    assert(!vis0[w as int]);
                    assert(!vis_c[w as int]);
                    assert(!nx.contains(w)) by {
                        if nx.contains(w) {
                            assert(next_c.contains(w as int as usize) || (!vis0[w as int]
                                && !vis_c[w as int] && nbv.take(t as int).contains(w as int)));
                            if next_c.contains(w as int as usize) {
                                assert(round_found(edges, cur.take(c as int), vis0, w as int));
                            }
                        }
                    }
                    assert forall|x: int| 0 <= x < n implies (#[trigger] visited@[x] <==> vis_c[x] || (!vis0[x] && nbv.take(t + 1).contains(x))) by {
                        lemma_push_contains(nbv.take(t as int), w as int, x);
                    }
                    assert forall|x: int| #![trigger next@.contains(x as usize)] 0 <= x < n implies (next@.contains(x as usize) <==> next_c.contains(x as usize) || (
                        !vis0[x] && !vis_c[x] && nbv.take(t + 1).contains(x))) by {
                        lemma_push_contains(nbv.take(t as int), w as int, x);
                        lemma_push_contains(nx, w, x as usize);
                        assert(nx.contains(x as usize) <==> next_c.contains(x as usize) || (
                            !vis0[x] && !vis_c[x] && nbv.take(t as int).contains(x)));
                        if x == w as int {
                            assert(x as usize == w);
                        } else {
                            assert(x as usize != w);
                        }
                    }
                    assert forall|i: int| 0 <= i < layer@.len() implies #[trigger] layer@[i]@ == names[next@[i] as int] by {
                        if i < nx.len() {
                            assert(next@[i] == nx[i]);
                        }
                    }
                    assert forall|i: int| 0 <= i < next@.len() implies canonical(names, #[trigger] next@[i] as int) by {
                        if i < nx.len() {
                            assert(next@[i] == nx[i]);
                        }
                    }
                }
            } else {
                proof {
                    assert forall|x: int| 0 <= x < n implies (#[trigger] visited@[x] <==> vis_c[x] || (!vis0[x] && nbv.take(t + 1).contains(x))) by {
                        lemma_push_contains(nbv.take(t as int), w as int, x);
                    }
                    assert forall|x: int| #![trigger next@.contains(x as usize)] 0 <= x < n implies (next@.contains(x as usize) <==> next_c.contains(x as usize) || (
                        !vis0[x] && !vis_c[x] && nbv.take(t + 1).contains(x))) by {
                        lemma_push_contains(nbv.take(t as int), w as int, x);
                        assert(next@.contains(x as usize) <==> next_c.contains(x as usize) || (
                            !vis0[x] && !vis_c[x] && nbv.take(t as int).contains(x)));
                        if x == w as int && !vis0[x] && !vis_c[x] {
                            assert(visited@[x]);
                            assert(nbv.take(t as int).contains(x));
                        }
                    }
                }
            }
            t = t + 1;
        }
        proof {
            lemma_out_nbrs(edges, node as int);
            assert(nbv.take(nbs@.len() as int) =~= nbv);
            assert forall|w: int| 0 <= w < n implies (round_found(edges, cur.take(c + 1), vis0, w) <==> (round_found(edges, cur.take(c as int), vis0, w) || (!vis0[w] && nbv.contains(w)))) by {
                if round_found(edges, cur.take(c + 1), vis0, w) {
                    let i = choose|i: int| 0 <= i < c + 1 && #[trigger] has_edge(edges, cur.take(c + 1)[i], w);
                    if i < c {
                        assert(cur.take(c as int)[i] == cur.take(c + 1)[i]);
                    } else {
                        assert(cur.take(c + 1)[i] == node as int);
                        assert(out_nbrs(edges, node as int).contains(w));
                    }
                }
                if round_found(edges, cur.take(c as int), vis0, w) {
                    let i = choose|i: int| 0 <= i < c && #[trigger] has_edge(edges, cur.take(c as int)[i], w);
                    assert(cur.take(c + 1)[i] == cur.take(c as int)[i]);
                }
                if !vis0[w] && nbv.contains(w) {
                    assert(has_edge(edges, node as int, w));
                    assert(cur.take(c + 1)[c as int] == node as int);
                }
            }
        }
        c = c + 1;
    }
    assert(cur.take(current@.len() as int) =~= cur);
    (next, layer)
}

impl<'a> ImpactAnalyzer<'a> {
    /// Get downstream crates organized by distance (how many hops away):
    /// entry `i` holds the names of the crates `i + 1` edges away and no
    /// closer, in increasing order; the list ends before the first empty
    /// distance. The entries are disjoint, and together they hold exactly
    /// the crates of [`ImpactAnalyzer::downstream_set`].
    pub fn downstream_by_depth(&self, name: &str) -> (r: Vec<Vec<String>>)
        ensures
            forall|i: int| 0 <= i < r@.len() ==> names_sorted(strings_view(#[trigger] r@[i]@)),
            match self.target().node_of(name@) {
                None => r@.len() == 0,
                Some(s) => {
                    &&& forall|i: int|
                        0 <= i < r@.len() ==> is_depth_layer(
                            self.target().names(),
                            self.target().edges(),
                            s,
                            (i + 1) as nat,
                            strings_view(#[trigger] r@[i]@),
                        )
                    &&& forall|i: int|
                        0 <= i < r@.len() ==> #[trigger] level_nonempty(
                            self.target().nodes().len(),
                            self.target().edges(),
                            s,
                            (i + 1) as nat,
                        )
                    &&& !level_nonempty(
                        self.target().nodes().len(),
                        self.target().edges(),
                        s,
                        (r@.len() + 1) as nat,
                    )
                    &&& forall|i: int, x: Seq<char>|
                        0 <= i < r@.len() ==> (#[trigger] strings_view(r@[i]@).contains(x) <==> names_at_distance(
                            self.target().names(),
                            self.target().edges(),
                            s,
                            (i + 1) as nat,
                            x,
                        ))
                    &&& forall|i: int, j: int, x: Seq<char>|
                        0 <= i < j < r@.len() && #[trigger] strings_view(r@[i]@).contains(x) ==> !#[trigger] strings_view(
                            r@[j]@,
                        ).contains(x)
                    &&& forall|x: Seq<char>| #[trigger]
                        in_some_layer(r@, x) <==> is_downstream(self.target().names(), self.target().edges(), name@, x)
                    &&& forall|w: int|
                        0 <= w < self.target().nodes().len() ==> (#[trigger] within_depths(
                            self.target().edges(),
                            s,
                            w,
                            r@.len() as nat,
                        ) <==> (reaches(self.target().edges(), s, w) && w != s))
                },
            },
    {
        let graph = self.graph;
        proof {
            use_type_invariant(graph);
            graph.lemma_inv();
            lemma_last_index(graph.names(), name@);
        }
        let ghost names = graph.names();
        let ghost edges = graph.edges();
        let n = graph.node_count();
        let mut layers: Vec<Vec<String>> = Vec::new();
        let start = match graph.index_of(name) {
            Some(i) => i,
            None => return layers,
        };
        let ghost s = start as int;
        assert(canonical(names, s));
        let mut visited: Vec<bool> = Vec::new();
        let mut w: usize = 0;
        while w < n
            invariant
                w <= n,
                visited@.len() == w,
                forall|i: int| 0 <= i < w ==> !(#[trigger] visited@[i]),
            decreases n - w,
        {
            visited.push(false);
            w = w + 1;
        }
        proof {
            crate::layers::lemma_num_true_take_false(visited@, n as nat);
            assert(visited@.take(n as int) =~= visited@);
            crate::layers::lemma_num_true_update(visited@, s);
        }
        visited.set(start, true);
        let mut count: usize = 1;
        let mut current: Vec<usize> = Vec::new();
        current.push(start);
        proof {
            assert forall|x: int| 0 <= x < n implies (#[trigger] current@.contains(x as usize) <==> in_level(n as nat, edges, s, 0, x)) by {
                lemma_push_contains(Seq::<usize>::empty(), start, x as usize);
            }
            crate::layers::lemma_num_true_bound(visited@);
        }
        while current.len() > 0
            invariant
                n == graph.nodes().len(),
                names == graph.names(),
                edges == graph.edges(),
                names.len() == n,
                canonical(names, s),
                s == start as int,
                visited@.len() == n,
                count == crate::layers::num_true(visited@),
                count <= n,
                current@.no_duplicates(),
                forall|i: int| 0 <= i < current@.len() ==> #[trigger] current@[i] < n,
                current@.len() > 0 ==> forall|x: int|
                    0 <= x < n ==> (#[trigger] current@.contains(x as usize) <==> in_level(
                        n as nat,
                        edges,
                        s,
                        layers@.len() as nat,
                        x,
                    )),
                current@.len() > 0 ==> forall|x: int|
                    0 <= x < n ==> (#[trigger] visited@[x] <==> bfs_seen(
                        n as nat,
                        edges,
                        s,
                        layers@.len() as nat,
                        x,
                    )),
                current@.len() == 0 ==> !level_nonempty(n as nat, edges, s, (layers@.len() + 1) as nat),
                forall|i: int|
                    0 <= i < layers@.len() ==> is_depth_layer(
                        names,
                        edges,
                        s,
                        (i + 1) as nat,
                        strings_view(#[trigger] layers@[i]@),
                    ),
                forall|i: int|
                    0 <= i < layers@.len() ==> #[trigger] level_nonempty(
                        n as nat,
                        edges,
                        s,
                        (i + 1) as nat,
                    ),
                forall|i: int| 0 <= i < layers@.len() ==> names_sorted(strings_view(#[trigger] layers@[i]@)),
            decreases n - count, current@.len(),
        {
            let ghost d = layers@.len() as nat;
            let ghost vis0 = visited@;
            let ghost cur = ints(current@);
            let ghost count0 = count;
            let (next, layer) = bfs_round(graph, &current, &mut visited, &mut count);
            proof {
                assert forall|x: int| 0 <= x < n implies (round_found(edges, cur, vis0, x) <==> #[trigger] in_level(n as nat, edges, s, (d + 1) as nat, x)) by {
                    lemma_level_succ(n as nat, edges, s, d, x);
                    assert(vis0[x] == bfs_seen(n as nat, edges, s, d, x));
                    if round_found(edges, cur, vis0, x) {
                        let i = choose|i: int| 0 <= i < cur.len() && #[trigger] has_edge(edges, cur[i], x);
                        let x0 = cur[i];
                        assert(x0 == current@[i] as int);
                        assert(x0 as usize == current@[i]);
                        assert(current@.contains(x0 as usize));
                        assert(0 <= x0 < n);
                        assert(in_level(n as nat, edges, s, d, x0));
                    }
                    if in_level(n as nat, edges, s, (d + 1) as nat, x) {
                        let u = choose|u: int| #[trigger] in_level(n as nat, edges, s, d, u) && has_edge(edges, u, x);
                        lemma_level_range(n as nat, edges, s, d, u);
                        assert(current@.contains(u as usize));
                        let i = choose|i: int| 0 <= i < current@.len() && current@[i] == u as usize;
                        assert(cur[i] == u);
                        assert(has_edge(edges, cur[i], x));
                    }
                }
            }
            if layer.len() > 0 {
                proof {
                    let w0 = next@[0] as int;
                    assert(next@.contains(next@[0]));
                    assert(canonical(names, w0));
                    assert(in_level(n as nat, edges, s, (d + 1) as nat, w0));
                    assert(is_depth_layer(names, edges, s, (d + 1) as nat, strings_view(layer@))) by {
                        lemma_layer_names(names, next@, layer@);
                        assert forall|x: Seq<char>| #[trigger] strings_view(layer@).contains(x) <==> exists|w: int| #[trigger] in_level(names.len(), edges, s, (d + 1) as nat, w) && names[w] == x by {
                            if strings_view(layer@).contains(x) {
                                let i = choose|i: int| 0 <= i < layer@.len() && strings_view(layer@)[i] == x;
                                assert(next@.contains(next@[i]));
                                assert(canonical(names, next@[i] as int));
                                assert(in_level(n as nat, edges, s, (d + 1) as nat, next@[i] as int));
                            }
                            if exists|w: int| #[trigger] in_level(names.len(), edges, s, (d + 1) as nat, w) && names[w] == x {
                                let w = choose|w: int| #[trigger] in_level(names.len(), edges, s, (d + 1) as nat, w) && names[w] == x;
                                assert(0 <= w < n);
                                assert(next@.contains(w as usize));
                                let i = choose|i: int| 0 <= i < next@.len() && next@[i] == w as usize;
                                assert(strings_view(layer@)[i] == x);
                            }
                        }
                    }
                }
                let ghost lv = strings_view(layer@);
                let layer = sort_names(layer);
                assert(is_depth_layer(names, edges, s, (d + 1) as nat, strings_view(layer@))) by {
                    assert forall|x: Seq<char>| #[trigger] strings_view(layer@).contains(x) <==> exists|w: int| #[trigger] in_level(names.len(), edges, s, (d + 1) as nat, w) && names[w] == x by {
                        assert(lv.contains(x) <==> exists|w: int| #[trigger] in_level(names.len(), edges, s, (d + 1) as nat, w) && names[w] == x);
                    }
                }
                layers.push(layer);
                proof {
                    assert forall|i: int| 0 <= i < layers@.len() implies names_sorted(strings_view(#[trigger] layers@[i]@)) by {}
                    assert forall|x: int| 0 <= x < n implies (#[trigger] visited@[x] <==> bfs_seen(n as nat, edges, s, layers@.len() as nat, x)) by {
                        lemma_level_succ(n as nat, edges, s, d, x);
                        assert(vis0[x] == bfs_seen(n as nat, edges, s, d, x));
                    }
                    assert forall|i: int| 0 <= i < layers@.len() implies is_depth_layer(names, edges, s, (i + 1) as nat, strings_view(#[trigger] layers@[i]@)) by {}
                }
            } else {
                proof {
                    assert forall|x: int| !#[trigger] in_level(n as nat, edges, s, (d + 1) as nat, x) by {
                        if in_level(n as nat, edges, s, (d + 1) as nat, x) {
                            assert(next@.contains(x as usize));
                            let i = choose|i: int| 0 <= i < next@.len() && next@[i] == x as usize;
                        }
                    }
                }
            }
            current = next;
        }
        proof {
            use_type_invariant(graph);
            graph.lemma_inv();
            let m = layers@.len() as nat;
            assert forall|i: int, x: Seq<char>| 0 <= i < layers@.len() implies (#[trigger] strings_view(
                layers@[i]@,
            ).contains(x) <==> names_at_distance(names, edges, s, (i + 1) as nat, x)) by {
                let d = (i + 1) as nat;
                assert(is_depth_layer(names, edges, s, d, strings_view(layers@[i]@)));
                if strings_view(layers@[i]@).contains(x) {
                    let w = choose|w: int| #[trigger] in_level(names.len(), edges, s, d, w) && names[w] == x;
                    lemma_level_is_distance(n as nat, edges, s, d, w);
                }
                if names_at_distance(names, edges, s, d, x) {
                    let w = choose|w: int| 0 <= w < names.len() && #[trigger] at_distance(edges, s, w, d) && names[w] == x;
                    lemma_level_is_distance(n as nat, edges, s, d, w);
                }
            }
            assert forall|w: int| 0 <= w < n implies (#[trigger] within_depths(edges, s, w, m) <==> (reaches(
                edges,
                s,
                w,
            ) && w != s)) by {
                if within_depths(edges, s, w, m) {
                    let d = choose|d: nat| 1 <= d <= m && #[trigger] at_distance(edges, s, w, d);
                    let p = choose|p: Seq<int>| #[trigger] is_path(edges, p) && p.len() == d + 1 && p[0] == s && p.last() == w;
                    assert(reaches(edges, s, w));
                    if w == s {
                        let p0 = seq![s];
                        assert(is_path(edges, p0));
                        assert(walk_of_len(edges, s, w, 0));
                    }
                }
                if reaches(edges, s, w) && w != s {
                    let p = choose|p: Seq<int>| #[trigger] is_path(edges, p) && p.len() >= 2 && p[0] == s && p.last() == w;
                    assert(walk_of_len(edges, s, w, (p.len() - 1) as nat));
                    let d = lemma_min_distance(edges, s, w, (p.len() - 1) as nat);
                    if d == 0 {
                        let q = choose|q: Seq<int>| #[trigger] is_path(edges, q) && q.len() == d + 1 && q[0] == s && q.last() == w;
                    }
                    if d > m {
                        let v = lemma_prefix_distance(n as nat, edges, s, w, d, m + 1);
                        lemma_level_is_distance(n as nat, edges, s, m + 1, v);
                        assert(in_level(n as nat, edges, s, m + 1, v));
                    }
                    assert(at_distance(edges, s, w, d));
                }
            }
            assert forall|i: int, j: int, x: Seq<char>|
                0 <= i < j < layers@.len() && #[trigger] strings_view(layers@[i]@).contains(x) implies !#[trigger] strings_view(
                layers@[j]@,
            ).contains(x) by {
                if strings_view(layers@[j]@).contains(x) {
                    assert(names_at_distance(names, edges, s, (i + 1) as nat, x));
                    assert(names_at_distance(names, edges, s, (j + 1) as nat, x));
                    let w1 = choose|w: int| 0 <= w < names.len() && #[trigger] at_distance(edges, s, w, (i + 1) as nat) && names[w] == x;
                    let w2 = choose|w: int| 0 <= w < names.len() && #[trigger] at_distance(edges, s, w, (j + 1) as nat) && names[w] == x;
                    lemma_distance_reaches(edges, s, w1, (i + 1) as nat);
                    lemma_distance_reaches(edges, s, w2, (j + 1) as nat);
                    lemma_reached_canonical(names, edges, s, w1);
                    lemma_reached_canonical(names, edges, s, w2);
                    lemma_canonical_unique(names, w1, w2);
                    assert(!walk_of_len(edges, s, w1, (i + 1) as nat));
                }
            }
            assert forall|x: Seq<char>| #[trigger] in_some_layer(layers@, x) <==> is_downstream(names, edges, name@, x) by {
                if in_some_layer(layers@, x) {
                    let i = choose|i: int| 0 <= i < layers@.len() && #[trigger] strings_view(layers@[i]@).contains(x);
                    assert(names_at_distance(names, edges, s, (i + 1) as nat, x));
                    let w = choose|w: int| 0 <= w < names.len() && #[trigger] at_distance(edges, s, w, (i + 1) as nat) && names[w] == x;
                    assert(within_depths(edges, s, w, m));
                }
                if is_downstream(names, edges, name@, x) {
                    let w = choose|w: int| 0 <= w < names.len() && #[trigger] reaches(edges, s, w) && w != s && names[w] == x;
                    assert(within_depths(edges, s, w, m));
                    let d = choose|d: nat| 1 <= d <= m && #[trigger] at_distance(edges, s, w, d);
                    assert(names_at_distance(names, edges, s, d, x));
                    let i = d - 1;
                    assert(strings_view(layers@[i]@).contains(x));
                }
            }
        }
        layers
    }
}

/// A node at distance `d > 0` is reached by a walk of at least one edge.
proof fn lemma_distance_reaches(edges: Seq<(int, int)>, s: int, w: int, d: nat)
    requires
        at_distance(edges, s, w, d),
        d > 0,
    ensures
        reaches(edges, s, w),
{
    let p = choose|p: Seq<int>| #[trigger] is_path(edges, p) && p.len() == d + 1 && p[0] == s && p.last() == w;
    assert(p.len() >= 2);
}

/// One level further: the unseen targets of edges from the level before.
proof fn lemma_level_succ(n: nat, edges: Seq<(int, int)>, s: int, d: nat, x: int)
    ensures
        in_level(n, edges, s, d + 1, x) == (0 <= x < n && !bfs_seen(n, edges, s, d, x) && exists|u: int|
            #[trigger] in_level(n, edges, s, d, u) && has_edge(edges, u, x)),
        bfs_seen(n, edges, s, d + 1, x) == (bfs_seen(n, edges, s, d, x) || in_level(n, edges, s, d + 1, x)),
{
    let d1 = (d + 1) as nat;
    assert((d1 - 1) as nat == d);
    let prev = bfs_state(n, edges, s, d);
    lemma_bfs_len(n, edges, s, d);
    if 0 <= x < n {
        if in_level(n, edges, s, d1, x) {
            let u = choose|u: int| 0 <= u < n && #[trigger] prev.1[u] && has_edge(edges, u, x);
            assert(in_level(n, edges, s, d, u));
        }
        if !bfs_seen(n, edges, s, d, x) && exists|u: int| #[trigger] in_level(n, edges, s, d, u) && has_edge(edges, u, x) {
            let u = choose|u: int| #[trigger] in_level(n, edges, s, d, u) && has_edge(edges, u, x);
            assert(prev.1[u]);
        }
    }
}

proof fn lemma_bfs_len(n: nat, edges: Seq<(int, int)>, s: int, d: nat)
    ensures
        bfs_state(n, edges, s, d).0.len() == n,
        bfs_state(n, edges, s, d).1.len() == n,
    decreases d,
{
    if d > 0 {
        lemma_bfs_len(n, edges, s, (d - 1) as nat);
    }
}

/// Nodes at a level are nodes of the graph.
proof fn lemma_level_range(n: nat, edges: Seq<(int, int)>, s: int, d: nat, u: int)
    requires
        in_level(n, edges, s, d, u),
    ensures
        0 <= u < n,
{
}

/// A walk of exactly `d` edges leads from `s` to `w`.
pub open spec fn walk_of_len(edges: Seq<(int, int)>, s: int, w: int, d: nat) -> bool {
    exists|p: Seq<int>| #[trigger] is_path(edges, p) && p.len() == d + 1 && p[0] == s && p.last() == w
}

/// A walk of at most `d` edges leads from `s` to `w`.
pub open spec fn walk_within(edges: Seq<(int, int)>, s: int, w: int, d: nat) -> bool {
    exists|e: nat| e <= d && #[trigger] walk_of_len(edges, s, w, e)
}

/// The shortest walk from `s` to `w` has `d` edges.
pub open spec fn at_distance(edges: Seq<(int, int)>, s: int, w: int, d: nat) -> bool {
    &&& walk_of_len(edges, s, w, d)
    &&& forall|e: nat| e < d ==> !#[trigger] walk_of_len(edges, s, w, e)
}

/// A walk extended by an edge is one edge longer.
proof fn lemma_walk_extend(edges: Seq<(int, int)>, s: int, u: int, w: int, e: nat)
    requires
        walk_of_len(edges, s, u, e),
        has_edge(edges, u, w),
    ensures
        walk_of_len(edges, s, w, e + 1),
{
    let p = choose|p: Seq<int>| #[trigger] is_path(edges, p) && p.len() == e + 1 && p[0] == s && p.last() == u;
    let q = p.push(w);
    assert forall|i: int| 0 <= i < q.len() - 1 implies #[trigger] path_step(edges, q, i) by {
        if i < p.len() - 1 {
            assert(path_step(edges, p, i));
        }
    }
    assert(is_path(edges, q));
}

/// The last edge of a walk of `d > 0` edges, and the walk before it.
proof fn lemma_walk_last_step(edges: Seq<(int, int)>, s: int, w: int, d: nat) -> (u: int)
    requires
        walk_of_len(edges, s, w, d),
        d > 0,
    ensures
        walk_of_len(edges, s, u, (d - 1) as nat),
        has_edge(edges, u, w),
{
    let p = choose|p: Seq<int>| #[trigger] is_path(edges, p) && p.len() == d + 1 && p[0] == s && p.last() == w;
    let q = p.take(d as int);
    assert forall|i: int| 0 <= i < q.len() - 1 implies #[trigger] path_step(edges, q, i) by {
        assert(path_step(edges, p, i));
    }
    assert(is_path(edges, q));
    assert(path_step(edges, p, d - 1));
    p[d - 1]
}

/// After `d` rounds, the nodes seen are those reached by a walk of at most
/// `d` edges.
proof fn lemma_seen_walk(n: nat, edges: Seq<(int, int)>, s: int, d: nat)
    requires
        0 <= s < n,
        forall|e: int| 0 <= e < edges.len() ==> 0 <= #[trigger] edges[e].0 < n && 0 <= edges[e].1 < n,
    ensures
        forall|w: int| 0 <= w < n ==> (#[trigger] bfs_seen(n, edges, s, d, w) <==> walk_within(edges, s, w, d)),
    decreases d,
{
    lemma_bfs_len(n, edges, s, d);
    if d == 0 {
        assert forall|w: int| 0 <= w < n implies (#[trigger] bfs_seen(n, edges, s, d, w) <==> walk_within(edges, s, w, d)) by {
            if w == s {
                let p = seq![s];
                assert(is_path(edges, p));
                assert(walk_of_len(edges, s, w, 0));
            }
            if walk_within(edges, s, w, d) {
                let e = choose|e: nat| e <= d && #[trigger] walk_of_len(edges, s, w, e);
                let p = choose|p: Seq<int>| #[trigger] is_path(edges, p) && p.len() == e + 1 && p[0] == s && p.last() == w;
            }
        }
    } else {
        let d1 = (d - 1) as nat;
        lemma_seen_walk(n, edges, s, d1);
        if d >= 2 {
            lemma_seen_walk(n, edges, s, (d - 2) as nat);
        }
        // Each node of level d - 1 is reached by a walk of exactly d - 1 edges.
        assert forall|u: int| #[trigger] in_level(n, edges, s, d1, u) implies walk_of_len(edges, s, u, d1) by {
            if d1 == 0 {
                let p = seq![s];
                assert(is_path(edges, p));
            } else {
                let d2 = (d - 2) as nat;
                assert(d1 == d2 + 1);
                lemma_level_succ(n, edges, s, d2, u);
                assert(bfs_seen(n, edges, s, d1, u) && !bfs_seen(n, edges, s, d2, u));
                let e = choose|e: nat| e <= d1 && #[trigger] walk_of_len(edges, s, u, e);
                if e < d1 {
                    assert(walk_within(edges, s, u, d2));
                }
            }
        }
        assert forall|w: int| 0 <= w < n implies (#[trigger] bfs_seen(n, edges, s, d, w) <==> walk_within(edges, s, w, d)) by {
            lemma_level_succ(n, edges, s, d1, w);
            assert((d1 + 1) as nat == d);
            if bfs_seen(n, edges, s, d, w) {
                if bfs_seen(n, edges, s, d1, w) {
                    let e = choose|e: nat| e <= d1 && #[trigger] walk_of_len(edges, s, w, e);
                    assert(e <= d);
                } else {
                    let u = choose|u: int| #[trigger] in_level(n, edges, s, d1, u) && has_edge(edges, u, w);
                    lemma_walk_extend(edges, s, u, w, d1);
                }
            }
            if walk_within(edges, s, w, d) && !bfs_seen(n, edges, s, d1, w) {
                let e = choose|e: nat| e <= d && #[trigger] walk_of_len(edges, s, w, e);
                if e < d {
                    assert(walk_within(edges, s, w, d1));
                } else {
                    let u = lemma_walk_last_step(edges, s, w, d);
                    let k = choose|k: int| 0 <= k < edges.len() && edges[k] == (u, w);
                    assert(0 <= edges[k].0 < n);
                    assert(walk_within(edges, s, u, d1));
                    assert(bfs_seen(n, edges, s, d1, u));
                    if d1 == 0 {
                        assert(in_level(n, edges, s, d1, u));
                    } else {
                        let d2 = (d - 2) as nat;
                        assert(d1 == d2 + 1);
                        lemma_level_succ(n, edges, s, d2, u);
                        if bfs_seen(n, edges, s, d2, u) {
                            let e2 = choose|e2: nat| e2 <= d2 && #[trigger] walk_of_len(edges, s, u, e2);
                            lemma_walk_extend(edges, s, u, w, e2);
                            assert(walk_within(edges, s, w, d1));
                        }
                        assert(in_level(n, edges, s, d1, u));
                    }
                    assert(in_level(n, edges, s, d, w));
                }
            }
        }
    }
}

/// Breadth-first levels are distances: a node is at level `d` from `s`
/// exactly when the shortest walk from `s` to it has `d` edges.
pub proof fn lemma_level_is_distance(n: nat, edges: Seq<(int, int)>, s: int, d: nat, w: int)
    requires
        0 <= s < n,
        0 <= w < n,
        forall|e: int| 0 <= e < edges.len() ==> 0 <= #[trigger] edges[e].0 < n && 0 <= edges[e].1 < n,
    ensures
        in_level(n, edges, s, d, w) <==> at_distance(edges, s, w, d),
{
    lemma_bfs_len(n, edges, s, d);
    lemma_seen_walk(n, edges, s, d);
    assert(bfs_seen(n, edges, s, d, w) <==> walk_within(edges, s, w, d));
    if d == 0 {
        assert(in_level(n, edges, s, d, w) <==> bfs_seen(n, edges, s, d, w));
        if walk_of_len(edges, s, w, 0) {
            assert(walk_within(edges, s, w, 0));
        }
        if walk_within(edges, s, w, 0) {
            let e = choose|e: nat| e <= d && #[trigger] walk_of_len(edges, s, w, e);
            assert(e == 0);
        }
    } else {
        let d1 = (d - 1) as nat;
        lemma_seen_walk(n, edges, s, d1);
        lemma_level_succ(n, edges, s, d1, w);
        assert((d1 + 1) as nat == d);
        assert(bfs_seen(n, edges, s, d1, w) <==> walk_within(edges, s, w, d1));
        if in_level(n, edges, s, d, w) {
            let e = choose|e: nat| e <= d && #[trigger] walk_of_len(edges, s, w, e);
            if e < d {
                assert(walk_within(edges, s, w, d1));
            }
            assert forall|e2: nat| e2 < d implies !#[trigger] walk_of_len(edges, s, w, e2) by {
                if walk_of_len(edges, s, w, e2) {
                    assert(walk_within(edges, s, w, d1));
                }
            }
        }
        if at_distance(edges, s, w, d) {
            assert(walk_within(edges, s, w, d));
            if walk_within(edges, s, w, d1) {
                let e = choose|e: nat| e <= d1 && #[trigger] walk_of_len(edges, s, w, e);
            }
        }
    }
}

/// A crate named `x` lies at distance `d` from `s`.
pub open spec fn names_at_distance(names: Seq<Seq<char>>, edges: Seq<(int, int)>, s: int, d: nat, x: Seq<char>) -> bool {
    exists|w: int| 0 <= w < names.len() && #[trigger] at_distance(edges, s, w, d) && names[w] == x
}

/// Node `w` lies at one of the distances `1..=m` from `s`.
pub open spec fn within_depths(edges: Seq<(int, int)>, s: int, w: int, m: nat) -> bool {
    exists|d: nat| 1 <= d <= m && #[trigger] at_distance(edges, s, w, d)
}

/// A node reached by a walk of `l` edges is at some distance of at most `l`.
proof fn lemma_min_distance(edges: Seq<(int, int)>, s: int, w: int, l: nat) -> (d: nat)
    requires
        walk_of_len(edges, s, w, l),
    ensures
        d <= l,
        at_distance(edges, s, w, d),
    decreases l,
{
    if exists|e: nat| e < l && #[trigger] walk_of_len(edges, s, w, e) {
        let e = choose|e: nat| e < l && #[trigger] walk_of_len(edges, s, w, e);
        lemma_min_distance(edges, s, w, e)
    } else {
        l
    }
}

/// On a shortest walk, the node `k` edges in is at distance `k`.
proof fn lemma_prefix_distance(n: nat, edges: Seq<(int, int)>, s: int, w: int, d: nat, k: nat) -> (v: int)
    requires
        at_distance(edges, s, w, d),
        k <= d,
        0 <= w < n,
        forall|e: int| 0 <= e < edges.len() ==> 0 <= #[trigger] edges[e].0 < n && 0 <= edges[e].1 < n,
    ensures
        0 <= v < n,
        at_distance(edges, s, v, k),
{
    let p = choose|p: Seq<int>| #[trigger] is_path(edges, p) && p.len() == d + 1 && p[0] == s && p.last() == w;
    let v = p[k as int];
    crate::critical::lemma_subpath(edges, p, 0, (k + 1) as int);
    assert(walk_of_len(edges, s, v, k)) by {
        assert(p.subrange(0, (k + 1) as int).last() == v);
    }
    let t = p.subrange(k as int, (d + 1) as int);
    crate::critical::lemma_subpath(edges, p, k as int, (d + 1) as int);
    assert forall|e: nat| e < k implies !#[trigger] walk_of_len(edges, s, v, e) by {
        if walk_of_len(edges, s, v, e) {
            let q = choose|q: Seq<int>| #[trigger] is_path(edges, q) && q.len() == e + 1 && q[0] == s && q.last() == v;
            crate::critical::lemma_path_join(edges, q, t);
            let j = q + t.drop_first();
            assert(j[0] == s);
            assert(j.last() == w);
            assert(walk_of_len(edges, s, w, (e + d - k) as nat));
        }
    }
    if k < d {
        assert(path_step(edges, p, k as int));
        let i = choose|i: int| 0 <= i < edges.len() && edges[i] == (p[k as int], p[(k + 1) as int]);
        assert(0 <= edges[i].0 < n);
    }
    v
}

/// Names of distinct canonical nodes are distinct.
proof fn lemma_layer_names(names: Seq<Seq<char>>, next: Seq<usize>, layer: Seq<String>)
    requires
        next.no_duplicates(),
        forall|i: int| 0 <= i < next.len() ==> canonical(names, #[trigger] next[i] as int),
        layer.len() == next.len(),
        forall|i: int| 0 <= i < layer.len() ==> #[trigger] layer[i]@ == names[next[i] as int],
    ensures
        strings_view(layer).no_duplicates(),
{
    assert forall|i: int, j: int| 0 <= i < layer.len() && 0 <= j < layer.len() && i != j implies strings_view(layer)[i] != strings_view(layer)[j] by {
        if strings_view(layer)[i] == strings_view(layer)[j] {
            lemma_canonical_unique(names, next[i] as int, next[j] as int);
        }
    }
}


/// The number of crates downstream of the crate at node `i` (by its name).
pub open spec fn impact_count(names: Seq<Seq<char>>, edges: Seq<(int, int)>, i: int) -> nat {
    downstream_name_set(names, edges, names[i]).len()
}

/// The greatest impact among the first `k` nodes and the first node with
/// it; `(0, None)` when all of them have no downstream crate.
pub open spec fn best_impact(names: Seq<Seq<char>>, edges: Seq<(int, int)>, k: int) -> (nat, Option<int>)
    decreases k,
{
    if k <= 0 {
        (0, None)
    } else {
        let prev = best_impact(names, edges, k - 1);
        let c = impact_count(names, edges, k - 1);
        if c > prev.0 {
            (c, Some(k - 1))
        } else {
            prev
        }
    }
}

/// Each crate's name with its impact, by node.
pub open spec fn impact_items(names: Seq<Seq<char>>, edges: Seq<(int, int)>) -> Seq<(Seq<char>, nat)> {
    Seq::new(names.len(), |i: int| (names[i], impact_count(names, edges, i)))
}

/// The items with count `c`, in order.
pub open spec fn with_count(items: Seq<(Seq<char>, nat)>, c: nat) -> Seq<(Seq<char>, nat)>
    decreases items.len(),
{
    if items.len() == 0 {
        Seq::empty()
    } else {
        let rest = with_count(items.drop_last(), c);
        if items.last().1 == c {
            rest.push(items.last())
        } else {
            rest
        }
    }
}

/// The items with counts from `hi` down to `lo`, each count's items in order.
pub open spec fn ranked_between(items: Seq<(Seq<char>, nat)>, hi: int, lo: int) -> Seq<(Seq<char>, nat)>
    decreases hi - lo + 1,
{
    if hi < lo || lo < 0 {
        Seq::empty()
    } else {
        with_count(items, hi as nat) + ranked_between(items, hi - 1, lo)
    }
}

/// The items sorted by count, greatest first, keeping the order of equal counts.
pub open spec fn ranked(items: Seq<(Seq<char>, nat)>, max: nat) -> Seq<(Seq<char>, nat)> {
    ranked_between(items, max as int, 0)
}

proof fn lemma_ranked_extend(items: Seq<(Seq<char>, nat)>, hi: int, lo: int)
    requires
        0 < lo <= hi + 1,
    ensures
        ranked_between(items, hi, lo - 1) == ranked_between(items, hi, lo) + with_count(items, (lo - 1) as nat),
    decreases hi - lo + 1,
{
    if hi < lo {
        assert(ranked_between(items, hi, lo - 1) == with_count(items, hi as nat) + ranked_between(items, hi - 1, lo - 1));
        assert(ranked_between(items, hi - 1, lo - 1) == Seq::<(Seq<char>, nat)>::empty());
        assert(with_count(items, hi as nat) + Seq::<(Seq<char>, nat)>::empty() =~= with_count(items, hi as nat));
        assert(Seq::<(Seq<char>, nat)>::empty() + with_count(items, (lo - 1) as nat) =~= with_count(items, (lo - 1) as nat));
    } else {
        lemma_ranked_extend(items, hi - 1, lo);
        assert(with_count(items, hi as nat) + (ranked_between(items, hi - 1, lo) + with_count(items, (lo - 1) as nat))
            =~= (with_count(items, hi as nat) + ranked_between(items, hi - 1, lo)) + with_count(items, (lo - 1) as nat));
    }
}

/// The best impact among the first `k` nodes is at least each one's, and is
/// the impact of the node it names.
proof fn lemma_best_impact(names: Seq<Seq<char>>, edges: Seq<(int, int)>, k: int)
    requires
        0 <= k,
    ensures
        forall|j: int| 0 <= j < k ==> #[trigger] impact_count(names, edges, j) <= best_impact(names, edges, k).0,
        best_impact(names, edges, k).1 matches Some(b) ==> 0 <= b < k && impact_count(names, edges, b)
            == best_impact(names, edges, k).0,
        best_impact(names, edges, k).1 is None ==> best_impact(names, edges, k).0 == 0,
    decreases k,
{
    if k > 0 {
        lemma_best_impact(names, edges, k - 1);
    }
}

/// Every item of `with_count(items, c)` has count `c`, and it holds each
/// item of count `c` as often as `items` does.
proof fn lemma_with_count(items: Seq<(Seq<char>, nat)>, c: nat)
    ensures
        forall|i: int| 0 <= i < with_count(items, c).len() ==> (#[trigger] with_count(items, c)[i]).1 == c,
        forall|x: (Seq<char>, nat)| #[trigger]
            with_count(items, c).to_multiset().count(x) == if x.1 == c {
                items.to_multiset().count(x)
            } else {
                0
            },
    decreases items.len(),
{
    broadcast use vstd::seq_lib::group_to_multiset_ensures;
    broadcast use vstd::multiset::group_multiset_axioms;

    if items.len() == 0 {
        assert(with_count(items, c) =~= Seq::<(Seq<char>, nat)>::empty());
    } else {
        let rest = items.drop_last();
        lemma_with_count(rest, c);
        assert(items =~= rest.push(items.last()));
        let w = with_count(rest, c);
        if items.last().1 == c {
            assert forall|i: int| 0 <= i < w.push(items.last()).len() implies (#[trigger] w.push(
                items.last(),
            )[i]).1 == c by {
                if i < w.len() {
                    assert(w.push(items.last())[i] == w[i]);
                }
            }
        }
    }
}

/// The items with counts from `lo` up to `hi`, greatest count first: their
/// counts lie in that range and never increase, and each item of such a
/// count occurs as often as in `items`.
proof fn lemma_ranked_between(items: Seq<(Seq<char>, nat)>, hi: int, lo: int)
    requires
        0 <= lo,
    ensures
        forall|i: int|
            0 <= i < ranked_between(items, hi, lo).len() ==> lo <= (#[trigger] ranked_between(
                items,
                hi,
                lo,
            )[i]).1 <= hi,
        forall|i: int, j: int|
            0 <= i < j < ranked_between(items, hi, lo).len() ==> (#[trigger] ranked_between(
                items,
                hi,
                lo,
            )[i]).1 >= (#[trigger] ranked_between(items, hi, lo)[j]).1,
        forall|x: (Seq<char>, nat)| #[trigger]
            ranked_between(items, hi, lo).to_multiset().count(x) == if lo <= x.1 <= hi {
                items.to_multiset().count(x)
            } else {
                0
            },
    decreases hi - lo + 1,
{
    broadcast use vstd::seq_lib::group_to_multiset_ensures;
    broadcast use vstd::multiset::group_multiset_axioms;

    if hi < lo {
        assert(ranked_between(items, hi, lo) =~= Seq::<(Seq<char>, nat)>::empty());
    } else {
        let a = with_count(items, hi as nat);
        let b = ranked_between(items, hi - 1, lo);
        lemma_with_count(items, hi as nat);
        lemma_ranked_between(items, hi - 1, lo);
        let r = ranked_between(items, hi, lo);
        assert(r == a + b);
        vstd::seq_lib::lemma_multiset_commutative(a, b);
        assert forall|i: int| 0 <= i < r.len() implies lo <= (#[trigger] r[i]).1 <= hi by {
            if i < a.len() {
                assert(r[i] == a[i]);
            } else {
                assert(r[i] == b[i - a.len()]);
            }
        }
        assert forall|i: int, j: int| 0 <= i < j < r.len() implies (#[trigger] r[i]).1 >= (#[trigger] r[j]).1 by {
            if j < a.len() {
                assert(r[i] == a[i]);
                assert(r[j] == a[j]);
            } else if i < a.len() {
                assert(r[i] == a[i]);
                assert(r[j] == b[j - a.len()]);
            } else {
                assert(r[i] == b[i - a.len()]);
                assert(r[j] == b[j - a.len()]);
            }
        }
    }
}

/// Name and count pairs as mathematical values.
pub open spec fn items_view(v: Seq<(String, usize)>) -> Seq<(Seq<char>, nat)> {
    v.map_values(|p: (String, usize)| (p.0@, p.1 as nat))
}

impl<'a> ImpactAnalyzer<'a> {
    /// Find the most-depended-on crate in the fleet: the first crate with the
    /// most downstream crates, or `("", 0)` when no crate has any.
    pub fn most_depended_on(&self) -> (r: (String, usize))
        ensures
            ({
                let b = best_impact(self.target().names(), self.target().edges(), self.target().nodes().len() as int);
                &&& r.1 as nat == b.0
                &&& match b.1 {
                    Some(i) => r.0@ == self.target().names()[i],
                    None => r.0@ == Seq::<char>::empty(),
                }
            }),
            forall|i: int|
                0 <= i < self.target().nodes().len() ==> #[trigger] impact_count(
                    self.target().names(),
                    self.target().edges(),
                    i,
                ) <= r.1,
            r.1 > 0 ==> exists|i: int|
                0 <= i < self.target().nodes().len() && self.target().names()[i] == r.0@
                    && #[trigger] impact_count(self.target().names(), self.target().edges(), i) == r.1,
    {
        let graph = self.graph;
        let ghost names = graph.names();
        let ghost edges = graph.edges();
        let n = graph.node_count();
        let mut best_name = String::new();
        let mut best_count: usize = 0;
        let ghost mut best_i: Option<int> = None;
        let mut idx: usize = 0;
        while idx < n
            invariant
                n == graph.nodes().len(),
                names == graph.names(),
                edges == graph.edges(),
                *self.graph == self.target(),
                graph == self.graph,
                idx <= n,
                (best_count as nat, best_i) == best_impact(names, edges, idx as int),
                match best_i {
                    Some(i) => best_name@ == names[i],
                    None => best_name@ == Seq::<char>::empty(),
                },
            decreases n - idx,
        {
            let name = &graph.node_at(idx).name;
            assert(names[idx as int] == name@);
            let count = self.downstream_count(name.as_str());
            if count > best_count {
                best_count = count;
                best_name = name.clone();
                proof {
                    best_i = Some(idx as int);
                }
            }
            idx = idx + 1;
        }
        proof {
            lemma_best_impact(names, edges, n as int);
        }
        (best_name, best_count)
    }

    /// Rank all crates by downstream impact: greatest count first; crates
    /// with equal counts keep their node order.
    pub fn rank_by_impact(&self) -> (r: Vec<(String, usize)>)
        ensures
            items_view(r@) == ranked(
                impact_items(self.target().names(), self.target().edges()),
                self.target().nodes().len(),
            ),
            forall|i: int, j: int| 0 <= i < j < r@.len() ==> (#[trigger] r@[i]).1 >= (#[trigger] r@[j]).1,
            items_view(r@).to_multiset() == impact_items(self.target().names(), self.target().edges()).to_multiset(),
            forall|c: nat| #[trigger]
                with_count(items_view(r@), c) == with_count(
                    impact_items(self.target().names(), self.target().edges()),
                    c,
                ),
    {
        let graph = self.graph;
        let ghost names = graph.names();
        let ghost edges = graph.edges();
        let ghost all = impact_items(names, edges);
        proof {
            use_type_invariant(graph);
            graph.lemma_inv();
        }
        let n = graph.node_count();
        let mut items: Vec<(String, usize)> = Vec::new();
        let mut idx: usize = 0;
        while idx < n
            invariant
                n == graph.nodes().len(),
                n < u32::MAX,
                names == graph.names(),
                edges == graph.edges(),
                all == impact_items(names, edges),
                *self.graph == self.target(),
                graph == self.graph,
                idx <= n,
                items_view(items@) == all.take(idx as int),
                forall|i: int| 0 <= i < idx ==> #[trigger] impact_count(names, edges, i) <= n,
            decreases n - idx,
        {
            let name = &graph.node_at(idx).name;
            assert(names[idx as int] == name@);
            let count = self.downstream_count(name.as_str());
            let ghost before = items_view(items@);
            items.push((name.clone(), count));
            assert(items_view(items@) =~= all.take(idx + 1)) by {
                assert(items_view(items@) =~= before.push((name@, count as nat)));
                assert(all[idx as int] == (names[idx as int], impact_count(names, edges, idx as int)));
            }
            idx = idx + 1;
        }
        assert(all.take(n as int) =~= all);
        let mut ranks: Vec<(String, usize)> = Vec::new();
        let mut k: usize = n + 1;
        assert(items_view(ranks@) =~= ranked_between(all, n as int, k as int));
        while k > 0
            invariant
                n < u32::MAX,
                k <= n + 1,
                items_view(items@) == all,
                items_view(ranks@) == ranked_between(all, n as int, k as int),
            decreases k,
        {
            let c = k - 1;
            let ghost base = items_view(ranks@);
            let mut j: usize = 0;
            while j < items.len()
                invariant
                    items_view(items@) == all,
                    j <= items@.len(),
                    items_view(ranks@) == base + with_count(all.take(j as int), c as nat),
                decreases items@.len() - j,
            {
                assert(all.take(j + 1).drop_last() =~= all.take(j as int));
                assert(all.take(j + 1).last() == all[j as int]);
                assert(all[j as int] == (items@[j as int].0@, items@[j as int].1 as nat));
                let ghost before = items_view(ranks@);
                if items[j].1 == c {
                    ranks.push((items[j].0.clone(), items[j].1));
                    assert(items_view(ranks@) =~= before.push(all[j as int]));
                }
                j = j + 1;
            }
            assert(all.take(items@.len() as int) =~= all);
            proof {
                lemma_ranked_extend(all, n as int, k as int);
            }
            k = k - 1;
        }
        proof {
            broadcast use vstd::seq_lib::group_to_multiset_ensures;

            lemma_ranked_between(all, n as int, 0);
            let rv = items_view(ranks@);
            assert forall|i: int, j: int| 0 <= i < j < ranks@.len() implies (#[trigger] ranks@[i]).1
                >= (#[trigger] ranks@[j]).1 by {
                assert(rv[i] == (ranks@[i].0@, ranks@[i].1 as nat));
                assert(rv[j] == (ranks@[j].0@, ranks@[j].1 as nat));
            }
            assert forall|x: (Seq<char>, nat)| #[trigger] rv.to_multiset().count(x) == all.to_multiset().count(x) by {
                if all.to_multiset().count(x) > 0 {
                    assert(all.contains(x));
                    let i = choose|i: int| 0 <= i < all.len() && all[i] == x;
                    assert(impact_count(names, edges, i) <= n);
                }
            }
            assert(rv.to_multiset() =~= all.to_multiset());
            assert forall|c: nat| #[trigger] with_count(rv, c) == with_count(all, c) by {
                lemma_ranked_stable(all, n as int, 0, c);
                if c > n {
                    assert forall|i: int| 0 <= i < all.len() implies (#[trigger] all[i]).1 <= n by {
                        assert(impact_count(names, edges, i) <= n);
                    }
                    lemma_with_count_above(all, n as nat, c);
                }
            }
        }
        ranks
    }
}


/// Picking one count out of two joined lists picks it out of each.
proof fn lemma_with_count_concat(a: Seq<(Seq<char>, nat)>, b: Seq<(Seq<char>, nat)>, c: nat)
    ensures
        with_count(a + b, c) == with_count(a, c) + with_count(b, c),
    decreases b.len(),
{
    if b.len() == 0 {
        assert(a + b =~= a);
        assert(with_count(a, c) + with_count(b, c) =~= with_count(a, c));
    } else {
        lemma_with_count_concat(a, b.drop_last(), c);
        assert((a + b).drop_last() =~= a + b.drop_last());
        assert((a + b).last() == b.last());
        if b.last().1 == c {
            assert(with_count(a, c) + with_count(b.drop_last(), c).push(b.last()) =~= (with_count(a, c)
                + with_count(b.drop_last(), c)).push(b.last()));
        }
    }
}

/// Picking count `c` out of the items of count `d`.
proof fn lemma_with_count_twice(items: Seq<(Seq<char>, nat)>, d: nat, c: nat)
    ensures
        with_count(with_count(items, d), c) == if c == d {
            with_count(items, c)
        } else {
            Seq::empty()
        },
    decreases items.len(),
{
    if items.len() > 0 {
        lemma_with_count_twice(items.drop_last(), d, c);
        let w = with_count(items.drop_last(), d);
        if items.last().1 == d {
            assert(w.push(items.last()).drop_last() =~= w);
        }
    } else {
        assert(with_count(with_count(items, d), c) =~= Seq::<(Seq<char>, nat)>::empty());
    }
}

/// No item has a count above `m`, so none is picked for a larger count.
proof fn lemma_with_count_above(items: Seq<(Seq<char>, nat)>, m: nat, c: nat)
    requires
        forall|i: int| 0 <= i < items.len() ==> (#[trigger] items[i]).1 <= m,
        c > m,
    ensures
        with_count(items, c) == Seq::<(Seq<char>, nat)>::empty(),
    decreases items.len(),
{
    if items.len() > 0 {
        assert forall|i: int| 0 <= i < items.drop_last().len() implies (#[trigger] items.drop_last()[i]).1 <= m by {
            assert(items.drop_last()[i] == items[i]);
        }
        lemma_with_count_above(items.drop_last(), m, c);
        assert(items[items.len() - 1].1 <= m);
    }
}

/// The ranking keeps, for each count from `lo` up to `hi`, the items of that
/// count in their order.
proof fn lemma_ranked_stable(items: Seq<(Seq<char>, nat)>, hi: int, lo: int, c: nat)
    ensures
        with_count(ranked_between(items, hi, lo), c) == if lo >= 0 && lo <= c <= hi {
            with_count(items, c)
        } else {
            Seq::empty()
        },
    decreases hi - lo + 1,
{
    if hi < lo || lo < 0 {
        assert(with_count(ranked_between(items, hi, lo), c) =~= Seq::<(Seq<char>, nat)>::empty());
    } else {
        lemma_ranked_stable(items, hi - 1, lo, c);
        lemma_with_count_concat(with_count(items, hi as nat), ranked_between(items, hi - 1, lo), c);
        lemma_with_count_twice(items, hi as nat, c);
        if c == hi {
            assert(with_count(items, c) + Seq::<(Seq<char>, nat)>::empty() =~= with_count(items, c));
        } else if lo <= c < hi {
            assert(Seq::<(Seq<char>, nat)>::empty() + with_count(items, c) =~= with_count(items, c));
        } else {
            assert(Seq::<(Seq<char>, nat)>::empty() + Seq::<(Seq<char>, nat)>::empty() =~= Seq::<(Seq<char>, nat)>::empty());
        }
    }
}

} // verus!
