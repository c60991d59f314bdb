//! Structural equivalence of dependency subgraphs (bisimulation).
use vstd::prelude::*;
use crate::critical::ints;
use crate::digraph::Dir;
use crate::graph::DependencyGraph;
use crate::model::{has_edge, in_nbrs, last_index, lemma_in_nbrs, lemma_last_index};

verus! {

/// Node `d` is a direct dependency of node `x` (listed once or more).
pub open spec fn is_dep(edges: Seq<(int, int)>, x: int, d: int) -> bool {
    in_nbrs(edges, x).contains(d)
}

/// The first members of the pairs.
pub open spec fn firsts(m: Seq<(int, int)>) -> Seq<int> {
    m.map_values(|p: (int, int)| p.0)
}

/// The second members of the pairs.
pub open spec fn seconds(m: Seq<(int, int)>) -> Seq<int> {
    m.map_values(|p: (int, int)| p.1)
}

/// `m` matches the dependencies of `x` one to one with those of `y`, and
/// every matched pair lies in `rel`.
pub open spec fn is_matching(edges: Seq<(int, int)>, rel: Set<(int, int)>, x: int, y: int, m: Seq<(int, int)>) -> bool {
    &&& firsts(m).no_duplicates()
    &&& seconds(m).no_duplicates()
    &&& forall|d: int| #[trigger] is_dep(edges, x, d) <==> firsts(m).contains(d)
    &&& forall|e: int| #[trigger] is_dep(edges, y, e) <==> seconds(m).contains(e)
    &&& forall|i: int| 0 <= i < m.len() ==> rel.contains(#[trigger] m[i])
}

/// `rel` is a bisimulation of dependencies: for every pair in it, the
/// direct dependencies of the two sides are matched one to one via `rel`.
pub open spec fn is_dep_bisimulation(edges: Seq<(int, int)>, rel: Set<(int, int)>) -> bool {
    forall|p: (int, int)| #[trigger]
        rel.contains(p) ==> exists|m: Seq<(int, int)>| #[trigger] is_matching(edges, rel, p.0, p.1, m)
}

/// Some bisimulation of dependencies relates node `x` to node `y`.
pub open spec fn bisim_related(edges: Seq<(int, int)>, x: int, y: int) -> bool {
    exists|rel: Set<(int, int)>| #[trigger] is_dep_bisimulation(edges, rel) && rel.contains((x, y))
}

/// What [`BisimulationChecker::check`] decides: both names are in the graph
/// and some bisimulation of dependencies relates their crates.
pub open spec fn bisimilar(
    names: Seq<Seq<char>>,
    edges: Seq<(int, int)>,
    name_a: Seq<char>,
    name_b: Seq<char>,
) -> bool {
    match (last_index(names, name_a), last_index(names, name_b)) {
        (Some(a), Some(b)) => bisim_related(edges, a, b),
        _ => false,
    }
}

// ---------------------------------------------------------------------------
// Partition refinement: classes named by their least node
// ---------------------------------------------------------------------------
/// The dependencies of `x` below `k` whose class under `lab` is `c`, in
/// increasing order.
pub open spec fn class_deps(edges: Seq<(int, int)>, lab: Seq<int>, x: int, c: int, k: int) -> Seq<int>
    decreases k,
{
    if k <= 0 {
        Seq::empty()
    } else {
        let r = class_deps(edges, lab, x, c, k - 1);
        if is_dep(edges, x, k - 1) && lab[k - 1] == c {
            r.push(k - 1)
        } else {
            r
        }
    }
}

/// The dependencies of `x` below `n` class by class, classes below `c`.
pub open spec fn deps_by_class(edges: Seq<(int, int)>, lab: Seq<int>, x: int, c: int, n: int) -> Seq<int>
    decreases c,
{
    if c <= 0 {
        Seq::empty()
    } else {
        deps_by_class(edges, lab, x, c - 1, n) + class_deps(edges, lab, x, c - 1, n)
    }
}

/// For each class below `n`, how many dependencies of `x` lie in it.
pub open spec fn signature(edges: Seq<(int, int)>, lab: Seq<int>, x: int, n: int) -> Seq<int> {
    Seq::new(n as nat, |c: int| class_deps(edges, lab, x, c, n).len() as int)
}

/// Nodes `z` and `x` are in the same class and have the same signature.
pub open spec fn same_key(edges: Seq<(int, int)>, lab: Seq<int>, n: int, z: int, x: int) -> bool {
    lab[z] == lab[x] && signature(edges, lab, z, n) == signature(edges, lab, x, n)
}

/// Every class is named by its least node.
pub open spec fn canon(lab: Seq<int>, n: int) -> bool {
    &&& lab.len() == n
    &&& forall|x: int| 0 <= x < n ==> 0 <= #[trigger] lab[x] <= x && lab[lab[x]] == lab[x]
}

/// Nodes related by some bisimulation share a class.
pub open spec fn keeps_bisimilar(edges: Seq<(int, int)>, lab: Seq<int>, n: int) -> bool {
    forall|x: int, y: int|
        0 <= x < n && 0 <= y < n && #[trigger] bisim_related(edges, x, y) ==> lab[x] == lab[y]
}

/// `new` is one refinement round of `lab`: each node's new class is named by
/// the least node with its class and signature.
pub open spec fn refined(edges: Seq<(int, int)>, lab: Seq<int>, new: Seq<int>, n: int) -> bool {
    &&& new.len() == n
    &&& forall|x: int|
        0 <= x < n ==> 0 <= #[trigger] new[x] <= x && same_key(edges, lab, n, new[x], x)
    &&& forall|x: int, z: int| 0 <= z < new[x] && 0 <= x < n ==> !#[trigger] same_key(edges, lab, n, z, x)
}

/// Nodes of one class have the same signature.
pub open spec fn stable(edges: Seq<(int, int)>, lab: Seq<int>, n: int) -> bool {
    forall|x: int, y: int|
        0 <= x < n && 0 <= y < n && #[trigger] lab[x] == #[trigger] lab[y] ==> signature(edges, lab, x, n)
            == signature(edges, lab, y, n)
}

/// Every edge joins nodes below `n`.
pub open spec fn edges_below(edges: Seq<(int, int)>, n: int) -> bool {
    forall|k: int| 0 <= k < edges.len() ==> 0 <= #[trigger] edges[k].0 < n && 0 <= edges[k].1 < n
}

/// The number of nodes below `k` that name their own class.
pub open spec fn num_reps(lab: Seq<int>, k: int) -> nat
    decreases k,
{
    if k <= 0 {
        0
    } else {
        num_reps(lab, k - 1) + if lab[k - 1] == k - 1 {
            1nat
        } else {
            0nat
        }
    }
}

// ---------------------------------------------------------------------------
// Lemmas
// ---------------------------------------------------------------------------
/// The dependencies of a node are nodes of the graph.
proof fn lemma_dep_range(edges: Seq<(int, int)>, n: int, x: int, d: int)
    requires
        edges_below(edges, n),
        is_dep(edges, x, d),
    ensures
        0 <= d < n,
{
    lemma_in_nbrs(edges, x);
    let k = choose|k: int| 0 <= k < edges.len() && edges[k] == (d, x);
    assert(0 <= edges[k].0 < n);
}

/// What `class_deps` holds: increasing, and exactly the dependencies below
/// `k` in class `c`.
proof fn lemma_class_deps(edges: Seq<(int, int)>, lab: Seq<int>, x: int, c: int, k: int)
    requires
        0 <= k,
    ensures
        class_deps(edges, lab, x, c, k).len() <= k,
        class_deps(edges, lab, x, c, k).no_duplicates(),
        forall|i: int, j: int|
            0 <= i < j < class_deps(edges, lab, x, c, k).len() ==> #[trigger] class_deps(edges, lab, x, c, k)[i]
                < #[trigger] class_deps(edges, lab, x, c, k)[j],
        forall|i: int|
            0 <= i < class_deps(edges, lab, x, c, k).len() ==> 0 <= #[trigger] class_deps(edges, lab, x, c, k)[i]
                < k && lab[class_deps(edges, lab, x, c, k)[i]] == c,
        forall|d: int|
            #[trigger] class_deps(edges, lab, x, c, k).contains(d) <==> (0 <= d < k && is_dep(edges, x, d)
                && lab[d] == c),
    decreases k,
{
    if k > 0 {
        lemma_class_deps(edges, lab, x, c, k - 1);
        let r = class_deps(edges, lab, x, c, k - 1);
        if is_dep(edges, x, k - 1) && lab[k - 1] == c {
            let s = r.push(k - 1);
            assert forall|d: int| #[trigger] s.contains(d) <==> (0 <= d < k && is_dep(edges, x, d) && lab[d] == c) by {
                if s.contains(d) && d != k - 1 {
                    let i = choose|i: int| 0 <= i < s.len() && s[i] == d;
                    assert(r[i] == d);
                    assert(r.contains(d));
                }
                if 0 <= d < k - 1 && is_dep(edges, x, d) && lab[d] == c {
                    assert(r.contains(d));
                    let i = choose|i: int| 0 <= i < r.len() && r[i] == d;
                    assert(s[i] == d);
                }
                if d == k - 1 {
                    assert(s[s.len() - 1] == d);
                }
            }
            assert forall|i: int, j: int| 0 <= i < j < s.len() implies #[trigger] s[i] < #[trigger] s[j] by {
                if j == s.len() - 1 {
                    assert(s[i] == r[i]);
                } else {
                    assert(s[i] == r[i] && s[j] == r[j]);
                }
            }
            assert forall|i: int| 0 <= i < s.len() implies 0 <= #[trigger] s[i] < k && lab[s[i]] == c by {
                if i < r.len() {
                    assert(s[i] == r[i]);
                }
            }
            assert forall|i: int, j: int| 0 <= i < s.len() && 0 <= j < s.len() && i != j implies s[i] != s[j] by {
                if i < j {
                    assert(s[i] < s[j]);
                } else {
                    assert(s[j] < s[i]);
                }
            }
        } else {
            assert forall|d: int| #[trigger] r.contains(d) <==> (0 <= d < k && is_dep(edges, x, d) && lab[d] == c) by {
            }
        }
    }
}

/// What `deps_by_class` holds: no node twice, and exactly the dependencies
/// below `n` whose class is below `c`.
proof fn lemma_deps_by_class(edges: Seq<(int, int)>, lab: Seq<int>, x: int, c: int, n: int)
    requires
        0 <= c,
        0 <= n,
    ensures
        deps_by_class(edges, lab, x, c, n).no_duplicates(),
        forall|d: int|
            #[trigger] deps_by_class(edges, lab, x, c, n).contains(d) <==> (0 <= d < n && is_dep(edges, x, d)
                && 0 <= lab[d] < c),
        forall|i: int|
            0 <= i < deps_by_class(edges, lab, x, c, n).len() ==> 0 <= #[trigger] deps_by_class(
                edges,
                lab,
                x,
                c,
                n,
            )[i] < n,
    decreases c,
{
    if c > 0 {
        lemma_deps_by_class(edges, lab, x, c - 1, n);
        lemma_class_deps(edges, lab, x, c - 1, n);
        let a = deps_by_class(edges, lab, x, c - 1, n);
        let b = class_deps(edges, lab, x, c - 1, n);
        assert forall|i: int, j: int| 0 <= i < a.len() && 0 <= j < b.len() implies a[i] != b[j] by {
            assert(a.contains(a[i]));
            assert(lab[b[j]] == c - 1);
        }
        vstd::seq_lib::lemma_no_dup_in_concat(a, b);
        let s = a + b;
        assert forall|d: int| #[trigger] s.contains(d) <==> (0 <= d < n && is_dep(edges, x, d) && 0 <= lab[d] < c) by {
            if s.contains(d) {
                let i = choose|i: int| 0 <= i < s.len() && s[i] == d;
                if i < a.len() {
                    assert(a.contains(d));
                } else {
                    assert(b[i - a.len()] == d);
                    assert(b.contains(d));
                }
            }
            if 0 <= d < n && is_dep(edges, x, d) && 0 <= lab[d] < c {
                if lab[d] < c - 1 {
                    assert(a.contains(d));
                    let i = choose|i: int| 0 <= i < a.len() && a[i] == d;
                    assert(s[i] == d);
                } else {
                    assert(b.contains(d));
                    let i = choose|i: int| 0 <= i < b.len() && b[i] == d;
                    assert(s[a.len() + i] == d);
                }
            }
        }
        assert forall|i: int| 0 <= i < s.len() implies 0 <= #[trigger] s[i] < n by {
            if i < a.len() {
                assert(s[i] == a[i]);
            } else {
                assert(s[i] == b[i - a.len()]);
            }
        }
    }
}

/// With as many dependencies in each class below `c`, the two class-by-class
/// lists have the same length and the same class at each position.
proof fn lemma_deps_by_class_align(edges: Seq<(int, int)>, lab: Seq<int>, x: int, y: int, c: int, n: int)
    requires
        0 <= c <= n,
        forall|k: int| 0 <= k < c ==> #[trigger] class_deps(edges, lab, x, k, n).len() == class_deps(edges, lab, y, k, n).len(),
    ensures
        deps_by_class(edges, lab, x, c, n).len() == deps_by_class(edges, lab, y, c, n).len(),
        forall|i: int|
            0 <= i < deps_by_class(edges, lab, x, c, n).len() ==> lab[#[trigger] deps_by_class(edges, lab, x, c, n)[i]]
                == lab[deps_by_class(edges, lab, y, c, n)[i]],
    decreases c,
{
    if c > 0 {
        lemma_deps_by_class_align(edges, lab, x, y, c - 1, n);
        lemma_class_deps(edges, lab, x, c - 1, n);
        lemma_class_deps(edges, lab, y, c - 1, n);
        assert(class_deps(edges, lab, x, c - 1, n).len() == class_deps(edges, lab, y, c - 1, n).len());
        let ax = deps_by_class(edges, lab, x, c - 1, n);
        let ay = deps_by_class(edges, lab, y, c - 1, n);
        let bx = class_deps(edges, lab, x, c - 1, n);
        let by = class_deps(edges, lab, y, c - 1, n);
        assert forall|i: int| 0 <= i < (ax + bx).len() implies lab[#[trigger] (ax + bx)[i]] == lab[(ay + by)[i]] by {
            if i < ax.len() {
                assert((ax + bx)[i] == ax[i]);
                assert((ay + by)[i] == ay[i]);
            } else {
                assert((ax + bx)[i] == bx[i - ax.len()]);
                assert((ay + by)[i] == by[i - ax.len()]);
            }
        }
    }
}

/// The pairs of `m` whose first member lies in class `c`, in order.
pub open spec fn class_pairs(lab: Seq<int>, m: Seq<(int, int)>, c: int) -> Seq<(int, int)>
    decreases m.len(),
{
    if m.len() == 0 {
        Seq::empty()
    } else {
        let r = class_pairs(lab, m.drop_last(), c);
        if lab[m.last().0] == c {
            r.push(m.last())
        } else {
            r
        }
    }
}

proof fn lemma_firsts_push(m: Seq<(int, int)>, p: (int, int))
    ensures
        firsts(m.push(p)) == firsts(m).push(p.0),
        seconds(m.push(p)) == seconds(m).push(p.1),
        firsts(m).len() == m.len(),
        seconds(m).len() == m.len(),
{
    assert(firsts(m.push(p)) =~= firsts(m).push(p.0));
    assert(seconds(m.push(p)) =~= seconds(m).push(p.1));
}

/// The pairs of a matching in one class: no node twice on either side, and
/// the members in that class of each side.
proof fn lemma_class_pairs(lab: Seq<int>, m: Seq<(int, int)>, c: int)
    requires
        firsts(m).no_duplicates(),
        seconds(m).no_duplicates(),
        forall|i: int| 0 <= i < m.len() ==> lab[(#[trigger] m[i]).0] == lab[m[i].1],
    ensures
        firsts(class_pairs(lab, m, c)).no_duplicates(),
        seconds(class_pairs(lab, m, c)).no_duplicates(),
        forall|d: int| #[trigger] firsts(class_pairs(lab, m, c)).contains(d) <==> (firsts(m).contains(d) && lab[d] == c),
        forall|e: int| #[trigger] seconds(class_pairs(lab, m, c)).contains(e) <==> (seconds(m).contains(e) && lab[e] == c),
        firsts(class_pairs(lab, m, c)).len() == seconds(class_pairs(lab, m, c)).len(),
    decreases m.len(),
{
    if m.len() > 0 {
        let m0 = m.drop_last();
        let p = m.last();
        assert(m =~= m0.push(p));
        lemma_firsts_push(m0, p);
        assert(firsts(m0) =~= firsts(m).drop_last());
        assert(seconds(m0) =~= seconds(m).drop_last());
        assert forall|i: int| 0 <= i < m0.len() implies lab[(#[trigger] m0[i]).0] == lab[m0[i].1] by {
            assert(m0[i] == m[i]);
        }
        lemma_class_pairs(lab, m0, c);
        let r = class_pairs(lab, m0, c);
        lemma_firsts_push(r, p);
        assert(lab[p.0] == lab[p.1]) by {
            assert(m[m.len() - 1] == p);
        }
        assert(!firsts(m0).contains(p.0)) by {
            if firsts(m0).contains(p.0) {
                let i = choose|i: int| 0 <= i < firsts(m0).len() && firsts(m0)[i] == p.0;
                assert(firsts(m)[i] == firsts(m)[m.len() - 1]);
            }
        }
        assert(!seconds(m0).contains(p.1)) by {
            if seconds(m0).contains(p.1) {
                let i = choose|i: int| 0 <= i < seconds(m0).len() && seconds(m0)[i] == p.1;
                assert(seconds(m)[i] == seconds(m)[m.len() - 1]);
            }
        }
        assert forall|d: int| #[trigger] firsts(m).contains(d) <==> (firsts(m0).contains(d) || d == p.0) by {
            crate::model::lemma_push_contains(firsts(m0), p.0, d);
        }
        assert forall|e: int| #[trigger] seconds(m).contains(e) <==> (seconds(m0).contains(e) || e == p.1) by {
            crate::model::lemma_push_contains(seconds(m0), p.1, e);
        }
        if lab[p.0] == c {
            assert forall|d: int| #[trigger] firsts(r.push(p)).contains(d) <==> (firsts(r).contains(d) || d == p.0) by {
                crate::model::lemma_push_contains(firsts(r), p.0, d);
            }
            assert forall|e: int| #[trigger] seconds(r.push(p)).contains(e) <==> (seconds(r).contains(e) || e == p.1) by {
                crate::model::lemma_push_contains(seconds(r), p.1, e);
            }
            assert(firsts(r.push(p)).no_duplicates()) by {
                let f = firsts(r.push(p));
                assert forall|i: int, j: int| 0 <= i < f.len() && 0 <= j < f.len() && i != j implies f[i] != f[j] by {
                    if i == f.len() - 1 {
                        assert(firsts(r).contains(f[j]));
                    } else if j == f.len() - 1 {
                        assert(firsts(r).contains(f[i]));
                    } else {
                        assert(f[i] == firsts(r)[i] && f[j] == firsts(r)[j]);
                    }
                }
            }
            assert(seconds(r.push(p)).no_duplicates()) by {
                let f = seconds(r.push(p));
                assert forall|i: int, j: int| 0 <= i < f.len() && 0 <= j < f.len() && i != j implies f[i] != f[j] by {
                    if i == f.len() - 1 {
                        assert(seconds(r).contains(f[j]));
                    } else if j == f.len() - 1 {
                        assert(seconds(r).contains(f[i]));
                    } else {
                        assert(f[i] == seconds(r)[i] && f[j] == seconds(r)[j]);
                    }
                }
            }
        }
    }
}

/// Two sequences without duplicates that hold the same elements have the
/// same length.
proof fn lemma_same_elements_len(a: Seq<int>, b: Seq<int>)
    requires
        a.no_duplicates(),
        b.no_duplicates(),
        forall|x: int| a.contains(x) <==> b.contains(x),
    ensures
        a.len() == b.len(),
{
    a.unique_seq_to_set();
    b.unique_seq_to_set();
    assert(a.to_set() =~= b.to_set());
}

/// A matching of `x` and `y` through pairs of equal classes gives them the
/// same number of dependencies in each class.
proof fn lemma_matching_counts(
    edges: Seq<(int, int)>,
    lab: Seq<int>,
    n: int,
    rel: Set<(int, int)>,
    x: int,
    y: int,
    m: Seq<(int, int)>,
    c: int,
)
    requires
        0 <= n,
        edges_below(edges, n),
        is_matching(edges, rel, x, y, m),
        forall|i: int| 0 <= i < m.len() ==> lab[(#[trigger] m[i]).0] == lab[m[i].1],
    ensures
        class_deps(edges, lab, x, c, n).len() == class_deps(edges, lab, y, c, n).len(),
{
    lemma_class_pairs(lab, m, c);
    let p = class_pairs(lab, m, c);
    lemma_class_deps(edges, lab, x, c, n);
    lemma_class_deps(edges, lab, y, c, n);
    assert forall|d: int| firsts(p).contains(d) <==> class_deps(edges, lab, x, c, n).contains(d) by {
        if is_dep(edges, x, d) {
            lemma_dep_range(edges, n, x, d);
        }
    }
    assert forall|e: int| seconds(p).contains(e) <==> class_deps(edges, lab, y, c, n).contains(e) by {
        if is_dep(edges, y, e) {
            lemma_dep_range(edges, n, y, e);
        }
    }
    lemma_same_elements_len(firsts(p), class_deps(edges, lab, x, c, n));
    lemma_same_elements_len(seconds(p), class_deps(edges, lab, y, c, n));
}

/// A refinement round keeps nodes related by a bisimulation in one class.
proof fn lemma_refine_keeps(edges: Seq<(int, int)>, lab: Seq<int>, new: Seq<int>, n: int)
    requires
        edges_below(edges, n),
        canon(lab, n),
        keeps_bisimilar(edges, lab, n),
        refined(edges, lab, new, n),
    ensures
        keeps_bisimilar(edges, new, n),
{
    assert forall|x: int, y: int|
        0 <= x < n && 0 <= y < n && #[trigger] bisim_related(edges, x, y) implies new[x] == new[y] by {
        let rel = choose|rel: Set<(int, int)>| #[trigger] is_dep_bisimulation(edges, rel) && rel.contains((x, y));
        assert(rel.contains((x, y)));
        let m = choose|m: Seq<(int, int)>| #[trigger] is_matching(edges, rel, x, y, m);
        assert forall|i: int| 0 <= i < m.len() implies lab[(#[trigger] m[i]).0] == lab[m[i].1] by {
            assert(rel.contains(m[i]));
            assert(firsts(m)[i] == m[i].0);
            assert(seconds(m)[i] == m[i].1);
            assert(firsts(m).contains(m[i].0));
            assert(seconds(m).contains(m[i].1));
            lemma_dep_range(edges, n, x, m[i].0);
            lemma_dep_range(edges, n, y, m[i].1);
            assert(bisim_related(edges, m[i].0, m[i].1));
        }
        assert forall|c: int| 0 <= c < n implies #[trigger] signature(edges, lab, x, n)[c] == signature(edges, lab, y, n)[c] by {
            lemma_matching_counts(edges, lab, n, rel, x, y, m, c);
        }
        assert(signature(edges, lab, x, n) =~= signature(edges, lab, y, n));
        assert(same_key(edges, lab, n, x, y));
        let nx = new[x];
        let ny = new[y];
        assert(same_key(edges, lab, n, nx, x));
        assert(same_key(edges, lab, n, ny, y));
        if nx < ny {
            assert(same_key(edges, lab, n, nx, y));
        } else if ny < nx {
            assert(same_key(edges, lab, n, ny, x));
        }
    }
}

/// A stable labelling, as a relation, is a bisimulation of dependencies.
proof fn lemma_stable_bisimulation(edges: Seq<(int, int)>, lab: Seq<int>, n: int)
    requires
        edges_below(edges, n),
        canon(lab, n),
        stable(edges, lab, n),
    ensures
        forall|x: int, y: int| 0 <= x < n && 0 <= y < n && lab[x] == lab[y] ==> #[trigger] bisim_related(edges, x, y),
{
    let rel = Set::new(|p: (int, int)| 0 <= p.0 < n && 0 <= p.1 < n && lab[p.0] == lab[p.1]);
    assert forall|p: (int, int)| #[trigger] rel.contains(p) implies exists|m: Seq<(int, int)>| #[trigger] is_matching(
        edges,
        rel,
        p.0,
        p.1,
        m,
    ) by {
        let (x, y) = p;
        assert(signature(edges, lab, x, n) == signature(edges, lab, y, n));
        assert forall|k: int| 0 <= k < n implies #[trigger] class_deps(edges, lab, x, k, n).len() == class_deps(edges, lab, y, k, n).len() by {
            assert(signature(edges, lab, x, n)[k] == signature(edges, lab, y, n)[k]);
        }
        lemma_deps_by_class_align(edges, lab, x, y, n, n);
        lemma_deps_by_class(edges, lab, x, n, n);
        lemma_deps_by_class(edges, lab, y, n, n);
        let dx = deps_by_class(edges, lab, x, n, n);
        let dy = deps_by_class(edges, lab, y, n, n);
        let m = Seq::new(dx.len(), |i: int| (dx[i], dy[i]));
        assert(firsts(m) =~= dx);
        assert(seconds(m) =~= dy);
        assert forall|d: int| #[trigger] is_dep(edges, x, d) <==> firsts(m).contains(d) by {
            if is_dep(edges, x, d) {
                lemma_dep_range(edges, n, x, d);
                assert(0 <= lab[d] <= d);
            }
        }
        assert forall|e: int| #[trigger] is_dep(edges, y, e) <==> seconds(m).contains(e) by {
            if is_dep(edges, y, e) {
                lemma_dep_range(edges, n, y, e);
                assert(0 <= lab[e] <= e);
            }
        }
        assert forall|i: int| 0 <= i < m.len() implies rel.contains(#[trigger] m[i]) by {
            assert(lab[dx[i]] == lab[dy[i]]);
        }
        assert(is_matching(edges, rel, x, y, m));
    }
    assert(is_dep_bisimulation(edges, rel));
    assert forall|x: int, y: int| 0 <= x < n && 0 <= y < n && lab[x] == lab[y] implies #[trigger] bisim_related(edges, x, y) by {
        assert(rel.contains((x, y)));
    }
}

/// Bisimilarity is symmetric: the inverse of a bisimulation is one.
pub proof fn lemma_bisim_symmetric(edges: Seq<(int, int)>, x: int, y: int)
    requires
        bisim_related(edges, x, y),
    ensures
        bisim_related(edges, y, x),
{
    let rel = choose|rel: Set<(int, int)>| #[trigger] is_dep_bisimulation(edges, rel) && rel.contains((x, y));
    let inv = Set::new(|p: (int, int)| rel.contains((p.1, p.0)));
    assert forall|p: (int, int)| #[trigger] inv.contains(p) implies exists|m: Seq<(int, int)>| #[trigger] is_matching(
        edges,
        inv,
        p.0,
        p.1,
        m,
    ) by {
        assert(rel.contains((p.1, p.0)));
        let m = choose|m: Seq<(int, int)>| #[trigger] is_matching(edges, rel, p.1, p.0, m);
        let w = m.map_values(|q: (int, int)| (q.1, q.0));
        assert(firsts(w) =~= seconds(m));
        assert(seconds(w) =~= firsts(m));
        assert forall|i: int| 0 <= i < w.len() implies inv.contains(#[trigger] w[i]) by {
            assert(rel.contains(m[i]));
        }
        assert(is_matching(edges, inv, p.0, p.1, w));
    }
    assert(is_dep_bisimulation(edges, inv));
    assert(inv.contains((y, x)));
}

/// One more node counted when `new` names more classes by their least node.
proof fn lemma_num_reps_grow(lab: Seq<int>, new: Seq<int>, k: int, w: int)
    requires
        0 <= k,
        forall|x: int| 0 <= x < k && lab[x] == x ==> #[trigger] new[x] == x,
        0 <= w < k,
        new[w] == w,
        lab[w] != w,
    ensures
        num_reps(new, k) > num_reps(lab, k),
    decreases k,
{
    if k - 1 == w {
        lemma_num_reps_mono(lab, new, k - 1);
    } else {
        lemma_num_reps_grow(lab, new, k - 1, w);
    }
}

proof fn lemma_num_reps_mono(lab: Seq<int>, new: Seq<int>, k: int)
    requires
        0 <= k,
        forall|x: int| 0 <= x < k && lab[x] == x ==> #[trigger] new[x] == x,
    ensures
        num_reps(new, k) >= num_reps(lab, k),
    decreases k,
{
    if k > 0 {
        lemma_num_reps_mono(lab, new, k - 1);
    }
}

proof fn lemma_num_reps_bound(lab: Seq<int>, k: int)
    requires
        0 <= k,
    ensures
        num_reps(lab, k) <= k,
    decreases k,
{
    if k > 0 {
        lemma_num_reps_bound(lab, k - 1);
    }
}


/// A refinement round yields classes named by their least node.
proof fn lemma_refined_canon(edges: Seq<(int, int)>, lab: Seq<int>, new: Seq<int>, n: int)
    requires
        refined(edges, lab, new, n),
    ensures
        canon(new, n),
{
    assert forall|x: int| 0 <= x < n implies 0 <= #[trigger] new[x] <= x && new[new[x]] == new[x] by {
        let w = new[x];
        let z = new[w];
        assert(same_key(edges, lab, n, w, x));
        assert(same_key(edges, lab, n, z, w));
        assert(same_key(edges, lab, n, z, x));
        if z < w {
            assert(!same_key(edges, lab, n, z, x));
        }
    }
}

/// Whether two vectors hold the same numbers.
fn same_vec(a: &Vec<usize>, b: &Vec<usize>) -> (r: bool)
    ensures
        r == (ints(a@) == ints(b@)),
{
    if a.len() != b.len() {
        assert(ints(a@).len() != ints(b@).len());
        return false;
    }
    let mut i: usize = 0;
    while i < a.len()
        invariant
            a@.len() == b@.len(),
            i <= a@.len(),
            forall|j: int| 0 <= j < i ==> a@[j] == b@[j],
        decreases a@.len() - i,
    {
        if a[i] != b[i] {
            assert(ints(a@)[i as int] != ints(b@)[i as int]);
            return false;
        }
        i = i + 1;
    }
    assert(ints(a@) =~= ints(b@));
    true
}

/// `n` zeros.
fn zeros(n: usize) -> (r: Vec<usize>)
    ensures
        r@.len() == n,
        forall|i: int| 0 <= i < n ==> #[trigger] r@[i] == 0,
{
    let mut r: Vec<usize> = Vec::new();
    let mut i: usize = 0;
    while i < n
        invariant
            i <= n,
            r@.len() == i,
            forall|j: int| 0 <= j < i ==> #[trigger] r@[j] == 0,
        decreases n - i,
    {
        r.push(0);
        i = i + 1;
    }
    r
}

/// The signature of node `x` under the classes `lab`.
fn signature_of(graph: &DependencyGraph, lab: &Vec<usize>, x: usize) -> (r: Vec<usize>)
    requires
        x < graph.nodes().len(),
        canon(ints(lab@), graph.nodes().len() as int),
    ensures
        ints(r@) == signature(graph.edges(), ints(lab@), x as int, graph.nodes().len() as int),
{
    let ghost edges = graph.edges();
    let ghost l = ints(lab@);
    let n = graph.node_count();
    let nb = graph.neighbors(x, Dir::Incoming);
    let ghost nbi = nb@.map_values(|v: usize| v as int);
    let mut isdep: Vec<bool> = Vec::new();
    let mut i: usize = 0;
    while i < n
        invariant
            i <= n,
            isdep@.len() == i,
            forall|j: int| 0 <= j < i ==> !#[trigger] isdep@[j],
        decreases n - i,
    {
        isdep.push(false);
        i = i + 1;
    }
    let mut k: usize = 0;
    while k < nb.len()
        invariant
            n == graph.nodes().len(),
            nbi == nb@.map_values(|v: usize| v as int),
            k <= nb@.len(),
            isdep@.len() == n,
            forall|j: int| 0 <= j < nb@.len() ==> #[trigger] nb@[j] < n,
            forall|d: int| 0 <= d < n ==> (#[trigger] isdep@[d] <==> nbi.take(k as int).contains(d)),
        decreases nb@.len() - k,
    {
        let d = nb[k];
        assert(nbi.take(k + 1) =~= nbi.take(k as int).push(d as int));
        isdep.set(d, true);
        proof {
            assert forall|e: int| 0 <= e < n implies (#[trigger] isdep@[e] <==> nbi.take(k + 1).contains(e)) by {
                crate::model::lemma_push_contains(nbi.take(k as int), d as int, e);
            }
        }
        k = k + 1;
    }
    assert(nbi.take(nb@.len() as int) =~= nbi);
    assert(nbi == in_nbrs(edges, x as int));
    let mut cnt = zeros(n);
    let mut d: usize = 0;
    while d < n
        invariant
            n == graph.nodes().len(),
            l == ints(lab@),
            edges == graph.edges(),
            canon(l, n as int),
            d <= n,
            isdep@.len() == n,
            cnt@.len() == n,
            forall|e: int| 0 <= e < n ==> (#[trigger] isdep@[e] <==> is_dep(edges, x as int, e)),
            forall|c: int| 0 <= c < n ==> #[trigger] cnt@[c] == class_deps(edges, l, x as int, c, d as int).len(),
        decreases n - d,
    {
        let ghost before = cnt@;
        if isdep[d] {
            assert(l[d as int] == lab@[d as int] as int);
            assert(0 <= l[d as int] <= d);
            let c = lab[d];
            proof {
                lemma_class_deps(edges, l, x as int, c as int, d as int);
            }
            cnt.set(c, cnt[c] + 1);
        }
        proof {
            assert forall|c: int| 0 <= c < n implies #[trigger] cnt@[c] == class_deps(edges, l, x as int, c, d + 1).len() by {
                assert(l[d as int] == lab@[d as int] as int);
            }
        }
        d = d + 1;
    }
    assert(ints(cnt@) =~= signature(edges, l, x as int, n as int));
    cnt
}

/// The least node with the same class and signature as `x`.
fn first_same(lab: &Vec<usize>, sigs: &Vec<Vec<usize>>, x: usize, Ghost(edges): Ghost<Seq<(int, int)>>, Ghost(n): Ghost<int>) -> (z: usize)
    requires
        x < lab@.len(),
        x < sigs@.len(),
        lab@.len() == n,
        forall|k: int| 0 <= k <= x ==> ints(#[trigger] sigs@[k]@) == signature(edges, ints(lab@), k, n),
    ensures
        z <= x,
        same_key(edges, ints(lab@), n, z as int, x as int),
        forall|w: int| 0 <= w < z ==> !#[trigger] same_key(edges, ints(lab@), n, w, x as int),
{
    let ghost l = ints(lab@);
    let mut z: usize = 0;
    while z < x
        invariant
            z <= x,
            x < lab@.len(),
            x < sigs@.len(),
            l == ints(lab@),
            forall|k: int| 0 <= k <= x ==> ints(#[trigger] sigs@[k]@) == signature(edges, l, k, n),
            forall|w: int| 0 <= w < z ==> !#[trigger] same_key(edges, l, n, w, x as int),
        decreases x - z,
    {
        assert(l[z as int] == lab@[z as int] as int && l[x as int] == lab@[x as int] as int);
        assert(ints(sigs@[z as int]@) == signature(edges, l, z as int, n));
        assert(ints(sigs@[x as int]@) == signature(edges, l, x as int, n));
        if lab[z] == lab[x] && same_vec(&sigs[z], &sigs[x]) {
            return z;
        }
        z = z + 1;
    }
    z
}

/// One refinement round: each node goes to the class of the least node with
/// its class and signature.
fn refine_round(graph: &DependencyGraph, lab: &Vec<usize>) -> (new: Vec<usize>)
    requires
        canon(ints(lab@), graph.nodes().len() as int),
    ensures
        refined(graph.edges(), ints(lab@), ints(new@), graph.nodes().len() as int),
{
    let ghost edges = graph.edges();
    let ghost l = ints(lab@);
    let n = graph.node_count();
    let ghost ni = n as int;
    let mut sigs: Vec<Vec<usize>> = Vec::new();
    let mut x: usize = 0;
    while x < n
        invariant
            n == graph.nodes().len(),
            edges == graph.edges(),
            l == ints(lab@),
            ni == n as int,
            canon(l, ni),
            x <= n,
            sigs@.len() == x,
            forall|k: int| 0 <= k < x ==> ints(#[trigger] sigs@[k]@) == signature(edges, l, k, ni),
        decreases n - x,
    {
        let s = signature_of(graph, lab, x);
        let ghost before = sigs@;
        sigs.push(s);
        assert forall|k: int| 0 <= k < x + 1 implies ints(#[trigger] sigs@[k]@) == signature(edges, l, k, ni) by {
            if k < x {
                assert(sigs@[k] == before[k]);
            }
        }
        x = x + 1;
    }
    let mut new: Vec<usize> = Vec::new();
    let mut x: usize = 0;
    while x < n
        invariant
            n == graph.nodes().len(),
            edges == graph.edges(),
            l == ints(lab@),
            ni == n as int,
            lab@.len() == n,
            x <= n,
            sigs@.len() == n,
            forall|k: int| 0 <= k < n ==> ints(#[trigger] sigs@[k]@) == signature(edges, l, k, ni),
            new@.len() == x,
            forall|y: int| 0 <= y < x ==> 0 <= #[trigger] new@[y] <= y && same_key(edges, l, ni, new@[y] as int, y),
            forall|y: int, z: int| 0 <= z < new@[y] && 0 <= y < x ==> !#[trigger] same_key(edges, l, ni, z, y),
        decreases n - x,
    {
        let z = first_same(lab, &sigs, x, Ghost(edges), Ghost(ni));
        new.push(z);
        x = x + 1;
    }
    proof {
        let nw = ints(new@);
        assert forall|y: int| 0 <= y < ni implies 0 <= #[trigger] nw[y] <= y && same_key(edges, l, ni, nw[y], y) by {
            assert(nw[y] == new@[y] as int);
        }
        assert forall|y: int, z: int| 0 <= z < nw[y] && 0 <= y < ni implies !#[trigger] same_key(edges, l, ni, z, y) by {
            assert(nw[y] == new@[y] as int);
        }
    }
    new
}

/// The classes of bisimilar crates: two nodes get the same number exactly
/// when some bisimulation of dependencies relates them. Computed by
/// refining one class by signatures until nothing changes.
fn bisim_classes(graph: &DependencyGraph) -> (lab: Vec<usize>)
    ensures
        lab@.len() == graph.nodes().len(),
        forall|x: int, y: int|
            0 <= x < graph.nodes().len() && 0 <= y < graph.nodes().len() ==> (lab@[x] == lab@[y]
                <==> #[trigger] bisim_related(graph.edges(), x, y)),
{
    proof {
        use_type_invariant(graph);
        graph.lemma_inv();
    }
    let ghost edges = graph.edges();
    let n = graph.node_count();
    let ghost ni = n as int;
    assert(edges_below(edges, ni));
    let mut lab = zeros(n);
    assert(canon(ints(lab@), ni)) by {
        assert forall|x: int| 0 <= x < ni implies 0 <= #[trigger] ints(lab@)[x] <= x && ints(lab@)[ints(lab@)[x]] == ints(lab@)[x] by {
            assert(ints(lab@)[x] == 0);
            assert(ints(lab@)[0] == 0);
        }
    }
    assert(keeps_bisimilar(edges, ints(lab@), ni)) by {
        assert forall|x: int, y: int| 0 <= x < ni && 0 <= y < ni && #[trigger] bisim_related(edges, x, y) implies ints(lab@)[x] == ints(lab@)[y] by {
            assert(ints(lab@)[x] == 0 && ints(lab@)[y] == 0);
        }
    }
    loop
        invariant
            n == graph.nodes().len(),
            ni == n as int,
            edges == graph.edges(),
            edges_below(edges, ni),
            lab@.len() == n,
            canon(ints(lab@), ni),
            keeps_bisimilar(edges, ints(lab@), ni),
        decreases ni - num_reps(ints(lab@), ni),
    {
        let ghost l = ints(lab@);
        let new = refine_round(graph, &lab);
        let ghost nw = ints(new@);
        proof {
            lemma_refine_keeps(edges, l, nw, ni);
            lemma_refined_canon(edges, l, nw, ni);
            lemma_num_reps_bound(nw, ni);
        }
        if same_vec(&new, &lab) {
            proof {
                assert forall|x: int, y: int| 0 <= x < ni && 0 <= y < ni && #[trigger] l[x] == #[trigger] l[y] implies signature(edges, l, x, ni) == signature(edges, l, y, ni) by {
                    assert(same_key(edges, l, ni, nw[x], x));
                    assert(same_key(edges, l, ni, nw[y], y));
                }
                lemma_stable_bisimulation(edges, l, ni);
                assert forall|x: int, y: int| 0 <= x < ni && 0 <= y < ni implies (lab@[x] == lab@[y] <==> #[trigger] bisim_related(edges, x, y)) by {
                    assert(l[x] == lab@[x] as int && l[y] == lab@[y] as int);
                }
            }
            return lab;
        }
        proof {
            assert forall|x: int| 0 <= x < ni && l[x] == x implies #[trigger] nw[x] == x by {
                assert(same_key(edges, l, ni, nw[x], x));
                assert(l[nw[x]] <= nw[x]);
            }
            assert(exists|x: int| 0 <= x < ni && nw[x] != l[x]) by {
                if forall|x: int| 0 <= x < ni ==> nw[x] == l[x] {
                    assert(nw =~= l);
                }
            }
            let x = choose|x: int| 0 <= x < ni && nw[x] != l[x];
            let w = nw[x];
            assert(same_key(edges, l, ni, w, x));
            assert(nw[w] == w);
            lemma_num_reps_grow(l, nw, ni, w);
        }
        lab = new;
    }
}

/// Whether the crates named `name_a` and `name_b` exist and share a class.
fn classes_agree(graph: &DependencyGraph, lab: &Vec<usize>, name_a: &str, name_b: &str) -> (r: bool)
    requires
        lab@.len() == graph.nodes().len(),
        forall|x: int, y: int|
            0 <= x < graph.nodes().len() && 0 <= y < graph.nodes().len() ==> (lab@[x] == lab@[y]
                <==> #[trigger] bisim_related(graph.edges(), x, y)),
    ensures
        r == bisimilar(graph.names(), graph.edges(), name_a@, name_b@),
        name_a@ == name_b@ ==> (r <==> graph.node_of(name_a@) is Some),
{
    proof {
        lemma_last_index(graph.names(), name_a@);
        lemma_last_index(graph.names(), name_b@);
    }
    let a = match graph.index_of(name_a) {
        Some(i) => i,
        None => return false,
    };
    let b = match graph.index_of(name_b) {
        Some(i) => i,
        None => return false,
    };
    assert(bisim_related(graph.edges(), a as int, b as int) == (lab@[a as int] == lab@[b as int]));
    lab[a] == lab[b]
}

/// Checks if two dependency subgraphs are structurally identical (bisimulation).
pub struct BisimulationChecker;

/// Bisimilarity of crate names is symmetric.
pub proof fn lemma_bisimilar_symmetric(names: Seq<Seq<char>>, edges: Seq<(int, int)>, a: Seq<char>, b: Seq<char>)
    requires
        bisimilar(names, edges, a, b),
    ensures
        bisimilar(names, edges, b, a),
{
    lemma_bisim_symmetric(edges, last_index(names, a).unwrap(), last_index(names, b).unwrap());
}

impl BisimulationChecker {
    /// Check if two crate subgraphs rooted at `name_a` and `name_b` are
    /// bisimilar: whether some relation `R` holds `(a, b)` and, for each pair
    /// in `R`, matches the direct dependencies of its two sides one to one
    /// through pairs of `R`. A dependency listed twice counts once. A crate is
    /// bisimilar to itself, and the relation is symmetric
    /// ([`lemma_bisimilar_symmetric`]).
    pub fn check(graph: &DependencyGraph, name_a: &str, name_b: &str) -> (r: bool)
        ensures
            r == bisimilar(graph.names(), graph.edges(), name_a@, name_b@),
            name_a@ == name_b@ ==> (r <==> graph.node_of(name_a@) is Some),
    {
        let lab = bisim_classes(graph);
        classes_agree(graph, &lab, name_a, name_b)
    }
}


/// The bisimilar pairs `(i, k)` with `i < k < j`, by `k`.
pub open spec fn pair_row(names: Seq<Seq<char>>, edges: Seq<(int, int)>, i: int, j: int) -> Seq<
    (Seq<char>, Seq<char>),
>
    decreases j - i,
{
    if j <= i + 1 {
        Seq::empty()
    } else {
        let rest = pair_row(names, edges, i, j - 1);
        let k = j - 1;
        if bisimilar(names, edges, names[i], names[k]) {
            rest.push((names[i], names[k]))
        } else {
            rest
        }
    }
}

/// The bisimilar pairs whose first node is below `i`, by first node then second.
pub open spec fn bisimilar_pairs(names: Seq<Seq<char>>, edges: Seq<(int, int)>, i: int) -> Seq<
    (Seq<char>, Seq<char>),
>
    decreases i,
{
    if i <= 0 {
        Seq::empty()
    } else {
        bisimilar_pairs(names, edges, i - 1) + pair_row(names, edges, i - 1, names.len() as int)
    }
}

/// Nodes `a < b` pass the bisimilarity check.
pub open spec fn pair_found(names: Seq<Seq<char>>, edges: Seq<(int, int)>, a: int, b: int) -> bool {
    &&& 0 <= a < b < names.len()
    &&& bisimilar(names, edges, names[a], names[b])
}

/// `p` holds the names of nodes `a` and `b`, which pass.
pub open spec fn is_found_pair(
    names: Seq<Seq<char>>,
    edges: Seq<(int, int)>,
    a: int,
    b: int,
    p: (Seq<char>, Seq<char>),
) -> bool {
    pair_found(names, edges, a, b) && p == (names[a], names[b])
}

/// `p` holds the names of a passing pair whose first node is `a`, and whose
/// second node lies below `hi`.
pub open spec fn found_from(names: Seq<Seq<char>>, edges: Seq<(int, int)>, a: int, hi: int, p: (Seq<char>, Seq<char>)) -> bool {
    exists|b: int| b < hi && #[trigger] is_found_pair(names, edges, a, b, p)
}

/// `p` holds the names of a passing pair whose first node lies below `hi`.
pub open spec fn found_below(names: Seq<Seq<char>>, edges: Seq<(int, int)>, hi: int, p: (Seq<char>, Seq<char>)) -> bool {
    exists|a: int, b: int| a < hi && #[trigger] is_found_pair(names, edges, a, b, p)
}

/// The row of node `i` lists exactly the pairs `(i, k)`, `k < j`, that pass.
proof fn lemma_pair_row(names: Seq<Seq<char>>, edges: Seq<(int, int)>, i: int, j: int)
    requires
        0 <= i,
        j <= names.len(),
    ensures
        forall|k: int|
            0 <= k < pair_row(names, edges, i, j).len() ==> found_from(
                names,
                edges,
                i,
                j,
                #[trigger] pair_row(names, edges, i, j)[k],
            ),
        forall|b: int|
            i < b < j && #[trigger] pair_found(names, edges, i, b) ==> pair_row(names, edges, i, j).contains(
                (names[i], names[b]),
            ),
    decreases j - i,
{
    if j > i + 1 {
        lemma_pair_row(names, edges, i, j - 1);
        let rest = pair_row(names, edges, i, j - 1);
        let r = pair_row(names, edges, i, j);
        assert forall|k: int| 0 <= k < r.len() implies found_from(names, edges, i, j, #[trigger] r[k]) by {
            if k < rest.len() {
                assert(r[k] == rest[k]);
                assert(found_from(names, edges, i, j - 1, rest[k]));
                let b = choose|b: int| b < j - 1 && #[trigger] is_found_pair(names, edges, i, b, rest[k]);
                assert(is_found_pair(names, edges, i, b, r[k]));
            } else {
                assert(pair_found(names, edges, i, j - 1));
                assert(is_found_pair(names, edges, i, j - 1, r[k]));
            }
        }
        assert forall|b: int| i < b < j && #[trigger] pair_found(names, edges, i, b) implies r.contains(
            (names[i], names[b]),
        ) by {
            if b < j - 1 {
                assert(rest.contains((names[i], names[b])));
                let k = choose|k: int| 0 <= k < rest.len() && rest[k] == (names[i], names[b]);
                assert(r[k] == rest[k]);
            } else {
                assert(r[r.len() - 1] == (names[i], names[b]));
            }
        }
    } else {
        assert(pair_row(names, edges, i, j).len() == 0);
    }
}

/// The pairs listed for the first `i` nodes are exactly the passing pairs
/// whose first node is below `i`.
proof fn lemma_bisimilar_pairs(names: Seq<Seq<char>>, edges: Seq<(int, int)>, i: int)
    requires
        0 <= i <= names.len(),
    ensures
        forall|k: int|
            0 <= k < bisimilar_pairs(names, edges, i).len() ==> found_below(
                names,
                edges,
                i,
                #[trigger] bisimilar_pairs(names, edges, i)[k],
            ),
        forall|a: int, b: int|
            0 <= a < i && #[trigger] pair_found(names, edges, a, b) ==> bisimilar_pairs(names, edges, i).contains(
                (names[a], names[b]),
            ),
    decreases i,
{
    if i > 0 {
        lemma_bisimilar_pairs(names, edges, i - 1);
        lemma_pair_row(names, edges, i - 1, names.len() as int);
        let rest = bisimilar_pairs(names, edges, i - 1);
        let row = pair_row(names, edges, i - 1, names.len() as int);
        let r = bisimilar_pairs(names, edges, i);
        assert(r == rest + row);
        assert forall|k: int| 0 <= k < r.len() implies found_below(names, edges, i, #[trigger] r[k]) by {
            if k < rest.len() {
                assert(r[k] == rest[k]);
                assert(found_below(names, edges, i - 1, rest[k]));
                let (a, b) = choose|a: int, b: int| a < i - 1 && #[trigger] is_found_pair(names, edges, a, b, rest[k]);
                assert(is_found_pair(names, edges, a, b, r[k]));
            } else {
                assert(r[k] == row[k - rest.len()]);
                assert(found_from(names, edges, i - 1, names.len() as int, row[k - rest.len()]));
                let b = choose|b: int| b < names.len() && #[trigger] is_found_pair(names, edges, i - 1, b, row[k - rest.len()]);
                assert(is_found_pair(names, edges, i - 1, b, r[k]));
            }
        }
        assert forall|a: int, b: int| 0 <= a < i && #[trigger] pair_found(names, edges, a, b) implies r.contains(
            (names[a], names[b]),
        ) by {
            if a < i - 1 {
                let k = choose|k: int| 0 <= k < rest.len() && rest[k] == (names[a], names[b]);
                assert(r[k] == rest[k]);
            } else {
                assert(row.contains((names[a], names[b])));
                let k = choose|k: int| 0 <= k < row.len() && row[k] == (names[a], names[b]);
                assert(r[rest.len() + k] == row[k]);
            }
        }
    }
}

/// The pairs of names, as mathematical values.
pub open spec fn name_pairs_view(v: Seq<(String, String)>) -> Seq<(Seq<char>, Seq<char>)> {
    v.map_values(|p: (String, String)| (p.0@, p.1@))
}

impl BisimulationChecker {
    /// Find all pairs of crates whose dependency subgraphs are bisimilar
    /// (see [`BisimulationChecker::check`]). Pairs come in order of the first
    /// crate's node, then the second's.
    pub fn find_bisimilar_pairs(graph: &DependencyGraph) -> (r: Vec<(String, String)>)
        ensures
            name_pairs_view(r@) == bisimilar_pairs(
                graph.names(),
                graph.edges(),
                graph.nodes().len() as int,
            ),
            forall|k: int|
                0 <= k < r@.len() ==> found_below(
                    graph.names(),
                    graph.edges(),
                    graph.nodes().len() as int,
                    #[trigger] name_pairs_view(r@)[k],
                ),
            forall|a: int, b: int|
                #[trigger] pair_found(graph.names(), graph.edges(), a, b) ==> name_pairs_view(r@).contains(
                    (graph.names()[a], graph.names()[b]),
                ),
            graph.names().no_duplicates() ==> name_pairs_view(r@).no_duplicates(),
            graph.names().no_duplicates() ==> forall|a: int, b: int|
                0 <= a < b < graph.nodes().len() ==> (name_pairs_view(r@).contains(
                    (graph.names()[a], graph.names()[b]),
                ) <==> #[trigger] bisimilar(graph.names(), graph.edges(), graph.names()[a], graph.names()[b])),
    {
        let ghost names = graph.names();
        let ghost edges = graph.edges();
        let n = graph.node_count();
        let lab = bisim_classes(graph);
        let mut pairs: Vec<(String, String)> = Vec::new();
        let mut i: usize = 0;
        while i < n
            invariant
                n == graph.nodes().len(),
                names == graph.names(),
                edges == graph.edges(),
                i <= n,
                name_pairs_view(pairs@) == bisimilar_pairs(names, edges, i as int),
                lab@.len() == graph.nodes().len(),
                forall|x: int, y: int|
                    0 <= x < graph.nodes().len() && 0 <= y < graph.nodes().len() ==> (lab@[x] == lab@[y]
                        <==> #[trigger] bisim_related(graph.edges(), x, y)),
            decreases n - i,
        {
            let name_i = &graph.node_at(i).name;
            assert(names[i as int] == name_i@);
            proof {
                lemma_last_index(names, name_i@);
            }
            let ghost base = pairs@;
            let mut j: usize = i + 1;
            while j < n
                invariant
                    n == graph.nodes().len(),
                    names == graph.names(),
                    edges == graph.edges(),
                    i < n,
                    i + 1 <= j <= n,
                    names[i as int] == name_i@,
                    lab@.len() == graph.nodes().len(),
                    forall|x: int, y: int|
                        0 <= x < graph.nodes().len() && 0 <= y < graph.nodes().len() ==> (lab@[x] == lab@[y]
                            <==> #[trigger] bisim_related(graph.edges(), x, y)),
                    name_pairs_view(base) == bisimilar_pairs(names, edges, i as int),
                    name_pairs_view(pairs@) == name_pairs_view(base) + pair_row(
                        names,
                        edges,
                        i as int,
                        j as int,
                    ),
                decreases n - j,
            {
                let name_j = &graph.node_at(j).name;
                assert(names[j as int] == name_j@);
                proof {
                    lemma_last_index(names, name_j@);
                }
                let ghost before = pairs@;
                if classes_agree(graph, &lab, name_i.as_str(), name_j.as_str()) {
                    pairs.push((name_i.clone(), name_j.clone()));
                    assert(name_pairs_view(pairs@) =~= name_pairs_view(before).push(
                        (name_i@, name_j@),
                    ));
                }
                j = j + 1;
            }
            i = i + 1;
        }
        proof {
            lemma_bisimilar_pairs(names, edges, n as int);
            assert forall|k: int| 0 <= k < pairs@.len() implies found_below(
                names,
                edges,
                n as int,
                #[trigger] name_pairs_view(pairs@)[k],
            ) by {
                assert(found_below(names, edges, n as int, bisimilar_pairs(names, edges, n as int)[k]));
            }
            if names.no_duplicates() {
                lemma_bisimilar_pairs_exact(names, edges);
            }
        }
        pairs
    }
}


/// With distinct names, a name refers to its own node.
proof fn lemma_distinct_name_index(names: Seq<Seq<char>>, a: int)
    requires
        names.no_duplicates(),
        0 <= a < names.len(),
    ensures
        last_index(names, names[a]) == Some(a),
{
    lemma_last_index(names, names[a]);
}

/// With distinct names, a listed pair names its two nodes.
proof fn lemma_found_pair_unique(
    names: Seq<Seq<char>>,
    edges: Seq<(int, int)>,
    a: int,
    b: int,
    a2: int,
    b2: int,
    p: (Seq<char>, Seq<char>),
)
    requires
        names.no_duplicates(),
        is_found_pair(names, edges, a, b, p),
        is_found_pair(names, edges, a2, b2, p),
    ensures
        a == a2,
        b == b2,
{
}

/// With distinct names, a row lists no pair twice.
proof fn lemma_row_no_dup(names: Seq<Seq<char>>, edges: Seq<(int, int)>, i: int, j: int)
    requires
        names.no_duplicates(),
        0 <= i,
        j <= names.len(),
    ensures
        pair_row(names, edges, i, j).no_duplicates(),
    decreases j - i,
{
    if j > i + 1 {
        lemma_row_no_dup(names, edges, i, j - 1);
        lemma_pair_row(names, edges, i, j - 1);
        let r = pair_row(names, edges, i, j - 1);
        let p = (names[i], names[j - 1]);
        if pair_found(names, edges, i, j - 1) {
            assert(!r.contains(p)) by {
                if r.contains(p) {
                    let k = choose|k: int| 0 <= k < r.len() && r[k] == p;
                    assert(found_from(names, edges, i, j - 1, r[k]));
                    let b = choose|b: int| b < j - 1 && #[trigger] is_found_pair(names, edges, i, b, r[k]);
                    lemma_found_pair_unique(names, edges, i, b, i, j - 1, p);
                }
            }
            assert forall|x: int, y: int| 0 <= x < r.push(p).len() && 0 <= y < r.push(p).len() && x != y implies r.push(p)[x] != r.push(p)[y] by {
                if x == r.len() {
                    assert(r.contains(r[y]));
                } else if y == r.len() {
                    assert(r.contains(r[x]));
                } else {
                    assert(r.push(p)[x] == r[x] && r.push(p)[y] == r[y]);
                }
            }
        }
    }
}

/// With distinct names, the pairs found for the first `i` nodes are listed
/// once each.
proof fn lemma_pairs_no_dup(names: Seq<Seq<char>>, edges: Seq<(int, int)>, i: int)
    requires
        names.no_duplicates(),
        0 <= i <= names.len(),
    ensures
        bisimilar_pairs(names, edges, i).no_duplicates(),
    decreases i,
{
    if i > 0 {
        lemma_pairs_no_dup(names, edges, i - 1);
        lemma_bisimilar_pairs(names, edges, i - 1);
        lemma_pair_row(names, edges, i - 1, names.len() as int);
        lemma_row_no_dup(names, edges, i - 1, names.len() as int);
        let a = bisimilar_pairs(names, edges, i - 1);
        let b = pair_row(names, edges, i - 1, names.len() as int);
        assert forall|x: int, y: int| 0 <= x < a.len() && 0 <= y < b.len() implies a[x] != b[y] by {
            assert(found_below(names, edges, i - 1, a[x]));
            assert(found_from(names, edges, i - 1, names.len() as int, b[y]));
            let (a1, b1) = choose|a1: int, b1: int| a1 < i - 1 && #[trigger] is_found_pair(names, edges, a1, b1, a[x]);
            let b2 = choose|b2: int| b2 < names.len() && #[trigger] is_found_pair(names, edges, i - 1, b2, b[y]);
            if a[x] == b[y] {
                lemma_found_pair_unique(names, edges, a1, b1, i - 1, b2, a[x]);
            }
        }
        vstd::seq_lib::lemma_no_dup_in_concat(a, b);
    }
}

/// When crate names are distinct, the pairs found are exactly the pairs of
/// crates, the first before the second in node order, that pass the
/// bisimilarity check, each listed once.
pub proof fn lemma_bisimilar_pairs_exact(names: Seq<Seq<char>>, edges: Seq<(int, int)>)
    requires
        names.no_duplicates(),
    ensures
        bisimilar_pairs(names, edges, names.len() as int).no_duplicates(),
        forall|a: int, b: int|
            0 <= a < b < names.len() ==> (bisimilar_pairs(names, edges, names.len() as int).contains(
                (names[a], names[b]),
            ) <==> #[trigger] bisimilar(names, edges, names[a], names[b])),
{
    let n = names.len() as int;
    lemma_pairs_no_dup(names, edges, n);
    lemma_bisimilar_pairs(names, edges, n);
    let r = bisimilar_pairs(names, edges, n);
    assert forall|a: int, b: int| 0 <= a < b < names.len() implies (r.contains((names[a], names[b]))
        <==> #[trigger] bisimilar(names, edges, names[a], names[b])) by {
        lemma_distinct_name_index(names, a);
        lemma_distinct_name_index(names, b);
        if bisimilar(names, edges, names[a], names[b]) {
            assert(pair_found(names, edges, a, b));
        }
        if r.contains((names[a], names[b])) {
            let k = choose|k: int| 0 <= k < r.len() && r[k] == (names[a], names[b]);
            assert(found_below(names, edges, n, r[k]));
            let (a1, b1) = choose|a1: int, b1: int| a1 < n && #[trigger] is_found_pair(names, edges, a1, b1, r[k]);
            assert(is_found_pair(names, edges, a, b, r[k])) by {
                assert(names[a1] == names[a]);
                assert(names[b1] == names[b]);
            }
        }
    }
}

} // verus!
