//! The dependency graph of a fleet of crates.
use vstd::prelude::*;
use petgraph::graph::DiGraph;
use crate::digraph::{
    Dir, graph_add_edge, graph_add_node, graph_edge_count, graph_edges, graph_neighbors,
    graph_new, graph_node, graph_node_count, graph_nodes, graph_toposort, toposort_result,
};
use crate::manifest::{CrateNode, crates_view, strings_view};
use crate::model::{
    canonical, edges_canonical, has_edge, in_nbrs, is_dag, is_topo_order, last_index, lemma_cycle_not_dag,
    lemma_edge_canonical, lemma_in_nbrs, lemma_last_index, lemma_last_index_canonical,
    lemma_out_nbrs, names_of, on_cycle, out_nbrs,
};

verus! {

/// The dependency names of a crate.
pub open spec fn crate_deps(c: CrateNode) -> Seq<Seq<char>> {
    strings_view(c.dependencies@)
}

/// The edges that the dependencies `deps` of the crate at node `target` give:
/// one from each dependency that names a crate of the fleet (the last crate of
/// that name), in the order of `deps`.
pub open spec fn dep_edges(names: Seq<Seq<char>>, deps: Seq<Seq<char>>, target: int) -> Seq<
    (int, int),
>
    decreases deps.len(),
{
    if deps.len() == 0 {
        Seq::empty()
    } else {
        let rest = dep_edges(names, deps.drop_last(), target);
        match last_index(names, deps.last()) {
            Some(s) => rest.push((s, target)),
            None => rest,
        }
    }
}

/// The edges that the first `k` crates give, in order; each crate's edges end
/// at the node its name refers to.
pub open spec fn prefix_edges(crates: Seq<CrateNode>, names: Seq<Seq<char>>, k: int) -> Seq<
    (int, int),
>
    decreases k,
{
    if k <= 0 {
        Seq::empty()
    } else {
        let rest = prefix_edges(crates, names, k - 1);
        match last_index(names, crates[k - 1].name@) {
            Some(t) => rest + dep_edges(names, crate_deps(crates[k - 1]), t),
            None => rest,
        }
    }
}

/// The edges of the graph built from `crates`: from each in-fleet dependency
/// to the crate that depends on it.
pub open spec fn build_edges(crates: Seq<CrateNode>) -> Seq<(int, int)> {
    prefix_edges(crates, names_of(crates), crates.len() as int)
}

proof fn lemma_dep_edges_len(names: Seq<Seq<char>>, deps: Seq<Seq<char>>, target: int, j: int)
    requires
        0 <= j <= deps.len(),
    ensures
        dep_edges(names, deps.take(j), target).len() <= dep_edges(names, deps, target).len(),
    decreases deps.len() - j,
{
    if j < deps.len() {
        lemma_dep_edges_len(names, deps, target, j + 1);
        assert(deps.take(j + 1).drop_last() =~= deps.take(j));
    } else {
        assert(deps.take(j) =~= deps);
    }
}

proof fn lemma_prefix_edges_len(crates: Seq<CrateNode>, names: Seq<Seq<char>>, k: int, m: int)
    requires
        0 <= k <= m,
    ensures
        prefix_edges(crates, names, k).len() <= prefix_edges(crates, names, m).len(),
    decreases m - k,
{
    if k < m {
        lemma_prefix_edges_len(crates, names, k, m - 1);
    }
}

proof fn lemma_names_of_views(a: Seq<CrateNode>, b: Seq<CrateNode>)
    requires
        crates_view(a) == crates_view(b),
    ensures
        names_of(a) == names_of(b),
{
    assert(a.len() == crates_view(a).len());
    assert(b.len() == crates_view(b).len());
    assert forall|i: int| 0 <= i < a.len() implies names_of(a)[i] == names_of(b)[i] by {
        assert(crates_view(a)[i] == a[i]@);
        assert(crates_view(b)[i] == b[i]@);
        assert(crates_view(a)[i] == crates_view(b)[i]);
    }
    assert(names_of(a) =~= names_of(b));
}

/// Crate `j` of the fleet stands at node `v` (the last crate of its name)
/// and lists a dependency whose name refers to node `u`.
pub open spec fn lists_dependency(crates: Seq<CrateNode>, j: int, u: int, v: int) -> bool {
    let names = names_of(crates);
    &&& 0 <= j < crates.len()
    &&& last_index(names, crates[j].name@) == Some(v)
    &&& exists|d: Seq<char>| #[trigger] crate_deps(crates[j]).contains(d) && last_index(names, d) == Some(u)
}

proof fn lemma_has_edge_concat(a: Seq<(int, int)>, b: Seq<(int, int)>, u: int, v: int)
    ensures
        has_edge(a + b, u, v) <==> has_edge(a, u, v) || has_edge(b, u, v),
{
    let c = a + b;
    if has_edge(c, u, v) {
        let k = choose|k: int| 0 <= k < c.len() && c[k] == (u, v);
        if k >= a.len() {
            assert(b[k - a.len()] == (u, v));
        }
    }
    if has_edge(a, u, v) {
        let k = choose|k: int| 0 <= k < a.len() && a[k] == (u, v);
        assert(c[k] == (u, v));
    }
    if has_edge(b, u, v) {
        let k = choose|k: int| 0 <= k < b.len() && b[k] == (u, v);
        assert(c[a.len() + k] == (u, v));
    }
}

proof fn lemma_dep_edges_has(names: Seq<Seq<char>>, deps: Seq<Seq<char>>, t: int, u: int, v: int)
    ensures
        has_edge(dep_edges(names, deps, t), u, v) <==> v == t && exists|d: Seq<char>|
            #[trigger] deps.contains(d) && last_index(names, d) == Some(u),
    decreases deps.len(),
{
    if deps.len() > 0 {
        let rest = deps.drop_last();
        lemma_dep_edges_has(names, rest, t, u, v);
        let e = dep_edges(names, rest, t);
        match last_index(names, deps.last()) {
            Some(s) => {
                lemma_has_edge_concat(e, seq![(s, t)], u, v);
                assert(e.push((s, t)) =~= e + seq![(s, t)]);
                if has_edge(seq![(s, t)], u, v) {
                    let k = choose|k: int| 0 <= k < 1 && seq![(s, t)][k] == (u, v);
                    assert(deps.contains(deps.last()));
                }
                if (u, v) == (s, t) {
                    assert(seq![(s, t)][0] == (u, v));
                }
            },
            None => {},
        }
        if exists|d: Seq<char>| #[trigger] deps.contains(d) && last_index(names, d) == Some(u) {
            let d = choose|d: Seq<char>| #[trigger] deps.contains(d) && last_index(names, d) == Some(u);
            if d != deps.last() {
                let i = choose|i: int| 0 <= i < deps.len() && deps[i] == d;
                assert(rest[i] == d);
                assert(rest.contains(d));
            }
        }
        if exists|d: Seq<char>| #[trigger] rest.contains(d) && last_index(names, d) == Some(u) {
            let d = choose|d: Seq<char>| #[trigger] rest.contains(d) && last_index(names, d) == Some(u);
            let i = choose|i: int| 0 <= i < rest.len() && rest[i] == d;
            assert(deps[i] == d);
            assert(deps.contains(d));
        }
        if has_edge(dep_edges(names, deps, t), u, v) && !has_edge(e, u, v) {
            let s = last_index(names, deps.last()).unwrap();
            assert(dep_edges(names, deps, t) == e.push((s, t)));
            let k = choose|k: int| 0 <= k < e.push((s, t)).len() && e.push((s, t))[k] == (u, v);
            if k < e.len() {
                assert(e[k] == (u, v));
            }
            assert(deps.contains(deps.last()));
        }
    }
}

proof fn lemma_prefix_edges_has(crates: Seq<CrateNode>, k: int, u: int, v: int)
    requires
        0 <= k <= crates.len(),
    ensures
        has_edge(prefix_edges(crates, names_of(crates), k), u, v) <==> exists|j: int|
            0 <= j < k && #[trigger] lists_dependency(crates, j, u, v),
    decreases k,
{
    let names = names_of(crates);
    if k > 0 {
        lemma_prefix_edges_has(crates, k - 1, u, v);
        let rest = prefix_edges(crates, names, k - 1);
        assert(names[k - 1] == crates[k - 1].name@);
        match last_index(names, crates[k - 1].name@) {
            Some(t) => {
                let de = dep_edges(names, crate_deps(crates[k - 1]), t);
                lemma_has_edge_concat(rest, de, u, v);
                lemma_dep_edges_has(names, crate_deps(crates[k - 1]), t, u, v);
                if has_edge(de, u, v) {
                    assert(lists_dependency(crates, k - 1, u, v));
                }
                if lists_dependency(crates, k - 1, u, v) {
                    assert(has_edge(de, u, v));
                }
            },
            None => {
                if lists_dependency(crates, k - 1, u, v) {
                    assert(false);
                }
            },
        }
    }
}

/// The graph's edges are the fleet's in-fleet dependencies: there is an edge
/// from `u` to `v` exactly when a crate standing at node `v` lists a
/// dependency whose name refers to node `u`.
pub proof fn lemma_build_edges(crates: Seq<CrateNode>, u: int, v: int)
    ensures
        has_edge(build_edges(crates), u, v) <==> exists|j: int| #[trigger] lists_dependency(crates, j, u, v),
{
    lemma_prefix_edges_has(crates, crates.len() as int, u, v);
}

/// The last crate of `crates` named `name`.
fn find_name(crates: &Vec<CrateNode>, name: &String) -> (r: Option<usize>)
    ensures
        match r {
            Some(i) => last_index(names_of(crates@), name@) == Some(i as int),
            None => last_index(names_of(crates@), name@) is None,
        },
{
    let ghost names = names_of(crates@);
    let mut i = crates.len();
    proof {
        lemma_last_index(names, name@);
    }
    while i > 0
        invariant
            i <= names.len(),
            names == names_of(crates@),
            forall|j: int| i <= j < names.len() ==> names[j] != name@,
            match last_index(names, name@) {
                Some(k) => 0 <= k < names.len() && names[k] == name@ && forall|j: int|
                    k < j < names.len() ==> names[j] != name@,
                None => forall|j: int| 0 <= j < names.len() ==> names[j] != name@,
            },
        decreases i,
    {
        assert(names[i - 1] == crates@[i - 1].name@);
        if crates[i - 1].name == *name {
            return Some(i - 1);
        }
        i = i - 1;
    }
    None
}

/// The number of edges that the graph of `crates` gets: one for each listed
/// dependency that names a crate of the fleet. `None` when that number
/// reaches `u32::MAX`, petgraph's limit.
pub fn in_fleet_edge_count(crates: &Vec<CrateNode>) -> (r: Option<usize>)
    ensures
        match r {
            Some(m) => m == build_edges(crates@).len() && m < u32::MAX,
            None => build_edges(crates@).len() >= u32::MAX,
        },
{
    let ghost names = names_of(crates@);
    let n = crates.len();
    let mut count: usize = 0;
    let mut i: usize = 0;
    while i < n
        invariant
            n == crates@.len(),
            names == names_of(crates@),
            i <= n,
            count == prefix_edges(crates@, names, i as int).len(),
            count < u32::MAX,
        decreases n - i,
    {
        let krate = &crates[i];
        assert(names[i as int] == krate.name@);
        proof {
            lemma_last_index(names, krate.name@);
        }
        let ghost t = last_index(names, krate.name@).unwrap();
        let ghost all = crate_deps(crates@[i as int]);
        assert(prefix_edges(crates@, names, i + 1) == prefix_edges(crates@, names, i as int) + dep_edges(names, all, t));
        let deps = &krate.dependencies;
        let mut j: usize = 0;
        while j < deps.len()
            invariant
                n == crates@.len(),
                names == names_of(crates@),
                i < n,
                *deps == crates@[i as int].dependencies,
                all == crate_deps(crates@[i as int]),
                prefix_edges(crates@, names, i + 1) == prefix_edges(crates@, names, i as int) + dep_edges(names, all, t),
                j <= deps@.len(),
                count == prefix_edges(crates@, names, i as int).len() + dep_edges(names, all.take(j as int), t).len(),
                count < u32::MAX,
            decreases deps@.len() - j,
        {
            assert(all.take(j + 1).drop_last() =~= all.take(j as int));
            assert(all.take(j + 1).last() == deps@[j as int]@);
            if find_name(crates, &deps[j]).is_some() {
                if count + 1 >= u32::MAX as usize {
                    proof {
                        lemma_dep_edges_len(names, all, t, j + 1);
                        lemma_prefix_edges_len(crates@, names, i + 1, n as int);
                        assert(crates@.len() == n);
                    }
                    return None;
                }
                count = count + 1;
            }
            j = j + 1;
        }
        assert(all.take(deps@.len() as int) =~= all);
        i = i + 1;
    }
    Some(count)
}

/// Why a graph could not be built.
#[derive(Debug)]
pub enum GraphError {
    /// The dependencies form a cycle through the crate with this name and manifest path.
    Cycle { name: String, path: String },
}

impl GraphError {
    /// The error's message.
    pub fn message(&self) -> (r: String)
        ensures
            match self {
                GraphError::Cycle { name, path } => r@ == "cycle detected involving crate: "@
                    + name@ + " (at "@ + path@ + ")"@,
            },
    {
        match self {
            GraphError::Cycle { name, path } => {
                let mut s = "cycle detected involving crate: ".to_string();
                s.append(name.as_str());
                s.append(" (at ");
                s.append(path.as_str());
                s.append(")");
                s
            },
        }
    }
}

/// The error a build reports for the cycle through node `c` of `crates`.
pub open spec fn cycle_error(e: GraphError, crates: Seq<CrateNode>, c: int) -> bool {
    match e {
        GraphError::Cycle { name, path } => name@ == crates[c].name@ && path@ == crates[c].path@,
    }
}

/// A directed graph of crate dependencies built from a fleet of Cargo.toml files.
/// An edge runs from a dependency to the crate that depends on it.
#[derive(Debug)]
pub struct DependencyGraph {
    graph: DiGraph<CrateNode, ()>,
}

/// The index of the last node of `g` whose name is `name`.
fn lookup(g: &DiGraph<CrateNode, ()>, name: &String) -> (r: Option<usize>)
    ensures
        match r {
            Some(i) => last_index(names_of(graph_nodes(*g)), name@) == Some(i as int),
            None => last_index(names_of(graph_nodes(*g)), name@) is None,
        },
{
    let ghost names = names_of(graph_nodes(*g));
    let mut i = graph_node_count(g);
    proof {
        lemma_last_index(names, name@);
    }
    while i > 0
        invariant
            i <= names.len(),
            names == names_of(graph_nodes(*g)),
            forall|j: int| i <= j < names.len() ==> names[j] != name@,
            match last_index(names, name@) {
                Some(k) => 0 <= k < names.len() && names[k] == name@ && forall|j: int|
                    k < j < names.len() ==> names[j] != name@,
                None => forall|j: int| 0 <= j < names.len() ==> names[j] != name@,
            },
        decreases i,
    {
        let node = graph_node(g, i - 1);
        assert(names[i - 1] == node.name@);
        if node.name == *name {
            return Some(i - 1);
        }
        i = i - 1;
    }
    None
}

impl DependencyGraph {
    /// The crates, by node index.
    pub closed spec fn nodes(&self) -> Seq<CrateNode> {
        graph_nodes(self.graph)
    }

    /// The edges as (dependency, dependent) pairs, in order of addition.
    pub closed spec fn edges(&self) -> Seq<(int, int)> {
        graph_edges(self.graph)
    }

    /// The crate names, by node index.
    pub open spec fn names(&self) -> Seq<Seq<char>> {
        names_of(self.nodes())
    }

    /// The node that a name refers to: the last crate of that name.
    pub open spec fn node_of(&self, name: Seq<char>) -> Option<int> {
        last_index(self.names(), name)
    }

    /// Every edge joins nodes that their names refer to, and node indices fit petgraph's.
    #[verifier::type_invariant]
    pub closed spec fn inv(&self) -> bool {
        &&& graph_nodes(self.graph).len() < u32::MAX
        &&& edges_canonical(names_of(graph_nodes(self.graph)), graph_edges(self.graph))
    }

    /// What the invariant says, over `nodes` and `edges`.
    pub proof fn lemma_inv(&self)
        requires
            self.inv(),
        ensures
            self.nodes().len() < u32::MAX,
            edges_canonical(self.names(), self.edges()),
            forall|k: int|
                0 <= k < self.edges().len() ==> 0 <= #[trigger] self.edges()[k].0 < self.nodes().len()
                    && 0 <= self.edges()[k].1 < self.nodes().len(),
    {
        assert forall|k: int| 0 <= k < self.edges().len() implies 0 <= #[trigger] self.edges()[k].0
            < self.nodes().len() && 0 <= self.edges()[k].1 < self.nodes().len() by {
            assert(canonical(self.names(), self.edges()[k].0));
        }
    }

    /// The graph of `crates`, with no check for cycles.
    fn assemble(crates: &Vec<CrateNode>) -> (g: DependencyGraph)
        requires
            crates@.len() < u32::MAX,
            build_edges(crates@).len() < u32::MAX,
        ensures
            crates_view(g.nodes()) == crates_view(crates@),
            g.edges() == build_edges(crates@),
    {
        let mut graph = graph_new();
        let n = crates.len();
        let mut i: usize = 0;
        while i < n
            invariant
                n == crates@.len(),
                n < u32::MAX,
                i <= n,
                crates_view(graph_nodes(graph)) == crates_view(crates@.take(i as int)),
                graph_nodes(graph).len() == i,
                graph_edges(graph) == Seq::<(int, int)>::empty(),
            decreases n - i,
        {
            let c = crates[i].duplicate();
            let ghost prev = graph_nodes(graph);
            graph_add_node(&mut graph, c);
            assert forall|j: int| 0 <= j <= i implies #[trigger] crates_view(graph_nodes(graph))[j]
                == crates_view(crates@.take(i + 1))[j] by {
                if j < i {
                    assert(crates_view(prev)[j] == crates_view(crates@.take(i as int))[j]);
                }
            }
            assert(crates_view(graph_nodes(graph)) =~= crates_view(crates@.take(i + 1)));
            i = i + 1;
        }
        assert(crates@.take(n as int) =~= crates@);
        let ghost names = names_of(crates@);
        proof {
            lemma_names_of_views(graph_nodes(graph), crates@);
        }
        let mut i: usize = 0;
        while i < n
            invariant
                n == crates@.len(),
                n < u32::MAX,
                i <= n,
                names == names_of(crates@),
                names_of(graph_nodes(graph)) == names,
                crates_view(graph_nodes(graph)) == crates_view(crates@),
                graph_edges(graph) == prefix_edges(crates@, names, i as int),
                build_edges(crates@).len() < u32::MAX,
                edges_canonical(names, graph_edges(graph)),
            decreases n - i,
        {
            let krate = &crates[i];
            assert(names[i as int] == krate.name@);
            proof {
                lemma_last_index(names, krate.name@);
            }
            let target = lookup(&graph, &krate.name).unwrap();
            proof {
                lemma_last_index_canonical(names, krate.name@);
            }
            let ghost base = graph_edges(graph);
            let deps = &krate.dependencies;
            let mut j: usize = 0;
            while j < deps.len()
                invariant
                    n == crates@.len(),
                    i < n,
                    *krate == crates@[i as int],
                    *deps == krate.dependencies,
                    j <= deps@.len(),
                    names == names_of(crates@),
                    names_of(graph_nodes(graph)) == names,
                    crates_view(graph_nodes(graph)) == crates_view(crates@),
                    last_index(names, krate.name@) == Some(target as int),
                    canonical(names, target as int),
                    base == prefix_edges(crates@, names, i as int),
                    graph_edges(graph) == base + dep_edges(
                        names,
                        crate_deps(*krate).take(j as int),
                        target as int,
                    ),
                    build_edges(crates@).len() < u32::MAX,
                    edges_canonical(names, graph_edges(graph)),
                decreases deps@.len() - j,
            {
                let ghost before = graph_edges(graph);
                let ghost dj = crate_deps(*krate).take(j + 1);
                assert(dj.drop_last() =~= crate_deps(*krate).take(j as int));
                assert(dj.last() == deps@[j as int]@);
                proof {
                    lemma_dep_edges_len(names, crate_deps(*krate), target as int, j + 1);
                    lemma_prefix_edges_len(crates@, names, i + 1, n as int);
                    assert(graph_nodes(graph).len() == n);
                }
                match lookup(&graph, &deps[j]) {
                    Some(s) => {
                        proof {
                            lemma_last_index_canonical(names, deps@[j as int]@);
                        }
                        graph_add_edge(&mut graph, s, target);
                        assert forall|k: int| 0 <= k < graph_edges(graph).len() implies canonical(
                            names,
                            #[trigger] graph_edges(graph)[k].0,
                        ) && canonical(names, graph_edges(graph)[k].1) by {
                            if k < before.len() {
                                assert(graph_edges(graph)[k] == before[k]);
                            }
                        }
                        assert(graph_edges(graph) =~= base + dep_edges(names, dj, target as int));
                    },
                    None => {
                        assert(graph_edges(graph) =~= base + dep_edges(names, dj, target as int));
                    },
                }
                j = j + 1;
            }
            assert(crate_deps(*krate).take(deps@.len() as int) =~= crate_deps(*krate));
            assert(graph_edges(graph) =~= prefix_edges(crates@, names, i + 1));
            i = i + 1;
        }
        DependencyGraph { graph }
    }

    /// Build a graph from crates; edges run from each in-fleet dependency to
    /// its dependent, and a dependency outside the fleet gives no edge.
    /// Returns an error if the dependencies form a cycle.
    pub fn build(crates: Vec<CrateNode>) -> (r: Result<Self, GraphError>)
        requires
            crates@.len() < u32::MAX,
            build_edges(crates@).len() < u32::MAX,
        ensures
            r is Ok <==> is_dag(crates@.len() as int, build_edges(crates@)),
            match r {
                Ok(g) => {
                    &&& crates_view(g.nodes()) == crates_view(crates@)
                    &&& g.edges() == build_edges(crates@)
                    &&& toposort_result(crates@.len() as nat, build_edges(crates@)) is Ok
                },
                Err(e) => match toposort_result(crates@.len() as nat, build_edges(crates@)) {
                    Err(c) => {
                        &&& cycle_error(e, crates@, c as int)
                        &&& c < crates@.len()
                        &&& on_cycle(build_edges(crates@), c as int)
                    },
                    Ok(_) => false,
                },
            },
    {
        let g = Self::assemble(&crates);
        proof {
            use_type_invariant(&g);
            g.lemma_inv();
            lemma_names_of_views(g.nodes(), crates@);
        }
        match graph_toposort(&g.graph) {
            Ok(_) => Ok(g),
            Err(c) => {
                proof {
                    lemma_cycle_not_dag(crates@.len() as int, build_edges(crates@), c as int);
                }
                let node = graph_node(&g.graph, c);
                assert(crates_view(g.nodes())[c as int] == crates_view(crates@)[c as int]);
                Err(GraphError::Cycle { name: node.name.clone(), path: node.path.clone() })
            },
        }
    }

    /// Build allowing cycles: the graph, and the name of a crate on a cycle if
    /// there is one (no name when the graph is acyclic).
    pub fn build_allow_cycles(crates: Vec<CrateNode>) -> (r: Result<(Self, Vec<String>), GraphError>)
        requires
            crates@.len() < u32::MAX,
            build_edges(crates@).len() < u32::MAX,
        ensures
            r is Ok,
            match r {
                Ok((g, cycles)) => {
                    &&& crates_view(g.nodes()) == crates_view(crates@)
                    &&& g.edges() == build_edges(crates@)
                    &&& (cycles@.len() == 0 <==> is_dag(crates@.len() as int, build_edges(crates@)))
                    &&& match toposort_result(crates@.len() as nat, build_edges(crates@)) {
                        Ok(_) => cycles@.len() == 0,
                        Err(c) => {
                            &&& cycles@.len() == 1
                            &&& cycles@[0]@ == crates@[c as int].name@
                            &&& c < crates@.len()
                            &&& on_cycle(build_edges(crates@), c as int)
                        },
                    }
                },
                Err(_) => false,
            },
    {
        let g = Self::assemble(&crates);
        proof {
            use_type_invariant(&g);
            g.lemma_inv();
            lemma_names_of_views(g.nodes(), crates@);
        }
        let mut cycle_nodes: Vec<String> = Vec::new();
        match graph_toposort(&g.graph) {
            Ok(_) => {},
            Err(c) => {
                proof {
                    lemma_cycle_not_dag(crates@.len() as int, build_edges(crates@), c as int);
                }
                let node = graph_node(&g.graph, c);
                assert(crates_view(g.nodes())[c as int] == crates_view(crates@)[c as int]);
                cycle_nodes.push(node.name.clone());
            },
        }
        Ok((g, cycle_nodes))
    }

    /// The number of crates.
    pub fn node_count(&self) -> (n: usize)
        ensures
            n == self.nodes().len(),
    {
        graph_node_count(&self.graph)
    }

    /// The number of in-fleet dependency edges.
    pub fn edge_count(&self) -> (m: usize)
        ensures
            m == self.edges().len(),
    {
        graph_edge_count(&self.graph)
    }

    /// The crate at node `i`.
    pub fn node_at(&self, i: usize) -> (c: &CrateNode)
        requires
            i < self.nodes().len(),
        ensures
            *c == self.nodes()[i as int],
    {
        graph_node(&self.graph, i)
    }

    /// The neighbours of node `i` in direction `dir`, most recent edge first.
    pub fn neighbors(&self, i: usize, dir: Dir) -> (r: Vec<usize>)
        requires
            i < self.nodes().len(),
        ensures
            r@.map_values(|x: usize| x as int) == match dir {
                Dir::Outgoing => out_nbrs(self.edges(), i as int),
                Dir::Incoming => in_nbrs(self.edges(), i as int),
            },
            forall|k: int| 0 <= k < r@.len() ==> canonical(self.names(), #[trigger] r@[k] as int),
    {
        proof {
            use_type_invariant(self);
            self.lemma_inv();
        }
        let r = graph_neighbors(&self.graph, i, dir);
        proof {
            lemma_out_nbrs(self.edges(), i as int);
            lemma_in_nbrs(self.edges(), i as int);
            assert forall|k: int| 0 <= k < r@.len() implies canonical(
                self.names(),
                #[trigger] r@[k] as int,
            ) by {
                let x = r@.map_values(|x: usize| x as int)[k];
                match dir {
                    Dir::Outgoing => {
                        assert(out_nbrs(self.edges(), i as int)[k] == x);
                        lemma_edge_canonical(self.names(), self.edges(), i as int, x);
                    },
                    Dir::Incoming => {
                        assert(in_nbrs(self.edges(), i as int)[k] == x);
                        lemma_edge_canonical(self.names(), self.edges(), x, i as int);
                    },
                }
            }
        }
        r
    }

    /// The node that `name` refers to, if any.
    pub fn index_of(&self, name: &str) -> (r: Option<usize>)
        ensures
            match r {
                Some(i) => self.node_of(name@) == Some(i as int),
                None => self.node_of(name@) is None,
            },
    {
        let key = name.to_string();
        lookup(&self.graph, &key)
    }

    /// All crates, by node index.
    pub fn crates(&self) -> (r: Vec<&CrateNode>)
        ensures
            r@.len() == self.nodes().len(),
            forall|i: int| 0 <= i < r@.len() ==> *#[trigger] r@[i] == self.nodes()[i],
    {
        let n = self.node_count();
        let mut r: Vec<&CrateNode> = Vec::new();
        let mut i: usize = 0;
        while i < n
            invariant
                n == self.nodes().len(),
                i <= n,
                r@.len() == i,
                forall|j: int| 0 <= j < i ==> *#[trigger] r@[j] == self.nodes()[j],
            decreases n - i,
        {
            r.push(self.node_at(i));
            i = i + 1;
        }
        r
    }

    /// The crate that `name` refers to.
    pub fn get_node(&self, name: &str) -> (r: Option<&CrateNode>)
        ensures
            match self.node_of(name@) {
                Some(i) => r matches Some(c) && *c == self.nodes()[i],
                None => r is None,
            },
    {
        proof {
            lemma_last_index(self.names(), name@);
        }
        match self.index_of(name) {
            Some(i) => Some(self.node_at(i)),
            None => None,
        }
    }

    /// Whether a crate of this name is in the graph.
    pub fn contains(&self, name: &str) -> (r: bool)
        ensures
            r == self.node_of(name@) is Some,
    {
        self.index_of(name).is_some()
    }

    /// The crates at the given nodes.
    fn crates_at(&self, idx: &Vec<usize>) -> (r: Vec<&CrateNode>)
        requires
            forall|k: int| 0 <= k < idx@.len() ==> #[trigger] idx@[k] < self.nodes().len(),
        ensures
            r@.len() == idx@.len(),
            forall|k: int| 0 <= k < r@.len() ==> *#[trigger] r@[k] == self.nodes()[idx@[k] as int],
    {
        let mut r: Vec<&CrateNode> = Vec::new();
        let mut k: usize = 0;
        while k < idx.len()
            invariant
                k <= idx@.len(),
                r@.len() == k,
                forall|k: int| 0 <= k < idx@.len() ==> #[trigger] idx@[k] < self.nodes().len(),
                forall|j: int| 0 <= j < k ==> *#[trigger] r@[j] == self.nodes()[idx@[j] as int],
            decreases idx@.len() - k,
        {
            r.push(self.node_at(idx[k]));
            k = k + 1;
        }
        r
    }

    /// All crates that directly depend on the given crate, most recent edge first.
    pub fn direct_dependents(&self, name: &str) -> (r: Vec<&CrateNode>)
        ensures
            match self.node_of(name@) {
                Some(i) => {
                    &&& r@.len() == out_nbrs(self.edges(), i).len()
                    &&& forall|k: int|
                        0 <= k < r@.len() ==> *#[trigger] r@[k] == self.nodes()[out_nbrs(
                            self.edges(),
                            i,
                        )[k]]
                },
                None => r@.len() == 0,
            },
    {
        self.adjacent(name, Dir::Outgoing)
    }

    /// All crates that the given crate directly depends on, most recent edge first.
    pub fn direct_dependencies(&self, name: &str) -> (r: Vec<&CrateNode>)
        ensures
            match self.node_of(name@) {
                Some(i) => {
                    &&& r@.len() == in_nbrs(self.edges(), i).len()
                    &&& forall|k: int|
                        0 <= k < r@.len() ==> *#[trigger] r@[k] == self.nodes()[in_nbrs(
                            self.edges(),
                            i,
                        )[k]]
                },
                None => r@.len() == 0,
            },
    {
        self.adjacent(name, Dir::Incoming)
    }

    fn adjacent(&self, name: &str, dir: Dir) -> (r: Vec<&CrateNode>)
        ensures
            match self.node_of(name@) {
                Some(i) => {
                    let nb = match dir {
                        Dir::Outgoing => out_nbrs(self.edges(), i),
                        Dir::Incoming => in_nbrs(self.edges(), i),
                    };
                    &&& r@.len() == nb.len()
                    &&& forall|k: int| 0 <= k < r@.len() ==> *#[trigger] r@[k] == self.nodes()[nb[k]]
                },
                None => r@.len() == 0,
            },
    {
        proof {
            lemma_last_index(self.names(), name@);
        }
        match self.index_of(name) {
            Some(i) => {
                let nb = self.neighbors(i, dir);
                let ghost nbv = nb@.map_values(|x: usize| x as int);
                assert forall|k: int| 0 <= k < nb@.len() implies #[trigger] nb@[k]
                    < self.nodes().len() by {
                    assert(canonical(self.names(), nb@[k] as int));
                }
                let r = self.crates_at(&nb);
                assert forall|k: int| 0 <= k < r@.len() implies *#[trigger] r@[k] == self.nodes()[nbv[k]] by {
                    assert(nbv[k] == nb@[k] as int);
                }
                r
            },
            None => Vec::new(),
        }
    }

    /// Each name of the fleet with the node it refers to, by node.
    pub fn name_index(&self) -> (r: Vec<(String, usize)>)
        ensures
            forall|k: int|
                0 <= k < r@.len() ==> self.node_of((#[trigger] r@[k]).0@) == Some(r@[k].1 as int),
            forall|k: int, j: int| 0 <= k < j < r@.len() ==> r@[k].1 < r@[j].1,
            forall|i: int|
                0 <= i < self.nodes().len() && canonical(self.names(), i) ==> exists|k: int|
                    0 <= k < r@.len() && #[trigger] r@[k].1 == i,
    {
        let n = self.node_count();
        let mut r: Vec<(String, usize)> = Vec::new();
        let mut i: usize = 0;
        while i < n
            invariant
                n == self.nodes().len(),
                i <= n,
                forall|k: int|
                    0 <= k < r@.len() ==> self.node_of((#[trigger] r@[k]).0@) == Some(r@[k].1 as int),
                forall|k: int, j: int| 0 <= k < j < r@.len() ==> r@[k].1 < r@[j].1,
                forall|k: int| 0 <= k < r@.len() ==> #[trigger] r@[k].1 < i,
                forall|x: int|
                    0 <= x < i && canonical(self.names(), x) ==> exists|k: int|
                        0 <= k < r@.len() && #[trigger] r@[k].1 == x,
            decreases n - i,
        {
            let name = &self.node_at(i).name;
            assert(self.names()[i as int] == name@);
            let found = self.index_of(name.as_str());
            let ghost before = r@;
            if found == Some(i) {
                r.push((name.clone(), i));
                proof {
                    assert forall|x: int|
                        0 <= x < i + 1 && canonical(self.names(), x) implies exists|k: int|
                            0 <= k < r@.len() && #[trigger] r@[k].1 == x by {
                        if x < i {
                            let k = choose|k: int| 0 <= k < before.len() && #[trigger] before[k].1 == x;
                            assert(r@[k] == before[k]);
                        } else {
                            assert(r@[before.len() as int].1 == x);
                        }
                    }
                }
            } else {
                proof {
                    assert(!canonical(self.names(), i as int));
                }
            }
            i = i + 1;
        }
        r
    }

    /// The underlying petgraph graph.
    pub fn graph(&self) -> (g: &DiGraph<CrateNode, ()>)
        ensures
            graph_nodes(*g) == self.nodes(),
            graph_edges(*g) == self.edges(),
    {
        &self.graph
    }
}

} // verus!
