use crate_graph::{
    dedup_by_name, scan_cargo_tomls, BisimulationChecker, CrateNode, CriticalPath,
    DependencyGraph, GraphError, ImpactAnalyzer, LayerCalculator, ManifestError,
};

fn krate(name: &str, deps: Vec<&str>) -> CrateNode {
    CrateNode {
        name: name.to_string(),
        version: "0.1.0".to_string(),
        dependencies: deps.into_iter().map(|s| s.to_string()).collect(),
        features: Vec::new(),
        path: format!("/fake/{}.toml", name),
    }
}

fn diamond() -> DependencyGraph {
    DependencyGraph::build(vec![
        krate("a", vec![]),
        krate("b", vec!["a"]),
        krate("c", vec!["a"]),
        krate("d", vec!["b", "c"]),
    ])
    .unwrap()
}

fn triangle() -> Vec<CrateNode> {
    vec![krate("a", vec!["b"]), krate("b", vec!["c"]), krate("c", vec!["a"])]
}

#[test]
fn cycle_error_names_crate_and_path() {
    let err = DependencyGraph::build(triangle()).err().unwrap();
    assert_eq!(
        err.message(),
        "cycle detected involving crate: b (at /fake/b.toml)"
    );
    match err {
        GraphError::Cycle { name, path } => {
            assert_eq!(name, "b");
            assert_eq!(path, "/fake/b.toml");
        }
    }
}

#[test]
fn self_dependency_is_a_cycle() {
    let r = DependencyGraph::build(vec![krate("a", vec!["a"])]);
    assert!(r.is_err());
}

#[test]
fn allow_cycles_on_acyclic_graph_reports_none() {
    let (g, cycles) = DependencyGraph::build_allow_cycles(vec![
        krate("a", vec![]),
        krate("b", vec!["a"]),
    ])
    .unwrap();
    assert!(cycles.is_empty());
    assert_eq!(g.edge_count(), 1);
}

#[test]
fn allow_cycles_names_a_crate_on_the_cycle() {
    let (_, cycles) = DependencyGraph::build_allow_cycles(triangle()).unwrap();
    assert_eq!(cycles, vec!["b".to_string()]);
}

#[test]
fn duplicate_dependency_gives_parallel_edges() {
    let g = DependencyGraph::build(vec![krate("a", vec![]), krate("b", vec!["a", "a"])]).unwrap();
    assert_eq!(g.edge_count(), 2);
    assert_eq!(g.direct_dependencies("b").len(), 2);
}

#[test]
fn later_crate_of_same_name_shadows_earlier() {
    let g = DependencyGraph::build(vec![
        krate("a", vec![]),
        CrateNode { version: "2.0.0".to_string(), ..krate("a", vec![]) },
        krate("b", vec!["a"]),
    ])
    .unwrap();
    assert_eq!(g.node_count(), 3);
    assert_eq!(g.get_node("a").unwrap().version, "2.0.0");
    assert_eq!(
        g.name_index(),
        vec![("a".to_string(), 1usize), ("b".to_string(), 2usize)]
    );
    assert_eq!(g.direct_dependents("a").len(), 1);
    assert!(g.contains("b"));
    assert!(!g.contains("z"));
    assert!(g.get_node("z").is_none());
    assert_eq!(g.crates().len(), 3);
    assert_eq!(g.graph().node_count(), 3);
}

#[test]
fn unknown_crate_has_no_neighbours() {
    let g = diamond();
    assert!(g.direct_dependents("zzz").is_empty());
    assert!(g.direct_dependencies("zzz").is_empty());
}

#[test]
fn neighbours_most_recent_edge_first() {
    let g = diamond();
    let deps: Vec<String> = g.direct_dependencies("d").iter().map(|c| c.name.clone()).collect();
    assert_eq!(deps, vec!["c", "b"]);
    let dependents: Vec<String> = g.direct_dependents("a").iter().map(|c| c.name.clone()).collect();
    assert_eq!(dependents, vec!["c", "b"]);
}

#[test]
fn layers_stop_at_a_cycle() {
    let g = DependencyGraph::build_allow_cycles(vec![
        krate("a", vec!["b"]),
        krate("b", vec!["a"]),
        krate("c", vec![]),
        krate("d", vec!["c", "a"]),
    ])
    .unwrap()
    .0;
    let layers = LayerCalculator::compute(&g);
    assert_eq!(layers, vec![vec!["c".to_string()]]);
    assert_eq!(LayerCalculator::layer_of(&g, "c"), Some(0));
    assert_eq!(LayerCalculator::layer_of(&g, "a"), None);
    assert_eq!(LayerCalculator::layer_of(&g, "d"), None);
}

#[test]
fn layers_of_empty_graph() {
    let g = DependencyGraph::build(vec![]).unwrap();
    assert!(LayerCalculator::compute(&g).is_empty());
}

#[test]
fn layer_holds_each_name_once() {
    let g = DependencyGraph::build(vec![krate("a", vec![]), krate("a", vec![])]).unwrap();
    assert_eq!(LayerCalculator::compute(&g), vec![vec!["a".to_string()]]);
}

#[test]
fn every_crate_of_a_dag_gets_a_layer_after_its_dependencies() {
    let g = diamond();
    for (name, layer) in [("a", 0usize), ("b", 1), ("c", 1), ("d", 2)] {
        assert_eq!(LayerCalculator::layer_of(&g, name), Some(layer));
    }
}

#[test]
fn critical_path_exact_on_diamond() {
    let (len, path) = CriticalPath::find(&diamond());
    assert_eq!(len, 2);
    assert_eq!(path, vec!["a", "c", "d"]);
}

#[test]
fn critical_path_on_cycle_cuts_the_cycle() {
    let g = DependencyGraph::build_allow_cycles(triangle()).unwrap().0;
    let (len, path) = CriticalPath::find(&g);
    assert_eq!(len, 2);
    assert_eq!(path, vec!["c", "b", "a"]);
}

#[test]
fn critical_path_of_empty_and_edgeless_graphs() {
    let empty = DependencyGraph::build(vec![]).unwrap();
    assert_eq!(CriticalPath::find(&empty), (0, Vec::<String>::new()));
    let flat = DependencyGraph::build(vec![krate("a", vec![]), krate("b", vec![])]).unwrap();
    let (len, path) = CriticalPath::find(&flat);
    assert_eq!(len, 0);
    assert_eq!(path, vec!["b"]);
}

#[test]
fn critical_path_in_given_order() {
    let g = diamond();
    let (len, path) = CriticalPath::find_in_order(&g, &vec![0, 1, 2, 3]);
    assert_eq!(len, 2);
    assert_eq!(path, vec!["a", "c", "d"]);
    let (len, path) = CriticalPath::find_in_order(&g, &vec![0, 3]);
    assert_eq!(len, 0);
    assert_eq!(path, vec!["a"]);
}

#[test]
fn critical_path_through_exact() {
    let g = diamond();
    assert_eq!(
        CriticalPath::find_through(&g, "b"),
        (2, vec!["a".to_string(), "b".to_string(), "d".to_string()])
    );
    assert_eq!(CriticalPath::find_through(&g, "zzz"), (0, Vec::<String>::new()));
    let cyclic = DependencyGraph::build_allow_cycles(triangle()).unwrap().0;
    assert_eq!(CriticalPath::find_through(&cyclic, "a"), (0, vec!["a".to_string()]));
}

#[test]
fn downstream_sets() {
    let g = diamond();
    let analyzer = ImpactAnalyzer::new(&g);
    let mut down = analyzer.downstream_set("a");
    down.sort();
    assert_eq!(down, vec!["b", "c", "d"]);
    assert!(analyzer.downstream_set("d").is_empty());
    assert!(analyzer.downstream_set("zzz").is_empty());
    assert_eq!(analyzer.downstream_count("zzz"), 0);
}

#[test]
fn downstream_on_a_cycle_leaves_out_the_crate_itself() {
    let g = DependencyGraph::build_allow_cycles(triangle()).unwrap().0;
    let analyzer = ImpactAnalyzer::new(&g);
    assert_eq!(analyzer.downstream_count("a"), 2);
    let mut down = analyzer.downstream_set("a");
    down.sort();
    assert_eq!(down, vec!["b", "c"]);
}

#[test]
fn downstream_by_depth_exact() {
    let g = DependencyGraph::build(vec![
        krate("a", vec![]),
        krate("b", vec!["a"]),
        krate("c", vec!["b"]),
        krate("d", vec!["a", "c"]),
    ])
    .unwrap();
    let analyzer = ImpactAnalyzer::new(&g);
    let mut layers = analyzer.downstream_by_depth("a");
    for l in layers.iter_mut() {
        l.sort();
    }
    assert_eq!(layers, vec![vec!["b".to_string(), "d".to_string()], vec!["c".to_string()]]);
    assert!(analyzer.downstream_by_depth("d").is_empty());
    assert!(analyzer.downstream_by_depth("zzz").is_empty());
}

#[test]
fn most_depended_on_without_edges() {
    let g = DependencyGraph::build(vec![krate("a", vec![]), krate("b", vec![])]).unwrap();
    let analyzer = ImpactAnalyzer::new(&g);
    assert_eq!(analyzer.most_depended_on(), (String::new(), 0));
}

#[test]
fn most_depended_on_prefers_first_of_equal_counts() {
    let g = DependencyGraph::build(vec![
        krate("x", vec![]),
        krate("y", vec![]),
        krate("p", vec!["x"]),
        krate("q", vec!["y"]),
    ])
    .unwrap();
    let analyzer = ImpactAnalyzer::new(&g);
    assert_eq!(analyzer.most_depended_on(), ("x".to_string(), 1));
}

#[test]
fn rank_by_impact_is_stable_and_descending() {
    let g = diamond();
    let ranks = ImpactAnalyzer::new(&g).rank_by_impact();
    assert_eq!(
        ranks,
        vec![
            ("a".to_string(), 3),
            ("b".to_string(), 1),
            ("c".to_string(), 1),
            ("d".to_string(), 0)
        ]
    );
}

#[test]
fn bisimulation_missing_names_and_self() {
    let g = diamond();
    assert!(!BisimulationChecker::check(&g, "a", "zzz"));
    assert!(!BisimulationChecker::check(&g, "zzz", "a"));
    assert!(BisimulationChecker::check(&g, "d", "d"));
    assert!(BisimulationChecker::check(&g, "b", "c"));
}

#[test]
fn bisimulation_deep_difference() {
    // e and f each have one dependency, but those differ below.
    let g = DependencyGraph::build(vec![
        krate("r1", vec![]),
        krate("r2", vec![]),
        krate("m1", vec!["r1"]),
        krate("m2", vec!["r1", "r2"]),
        krate("e", vec!["m1"]),
        krate("f", vec!["m2"]),
    ])
    .unwrap();
    assert!(!BisimulationChecker::check(&g, "e", "f"));
}

#[test]
fn bisimilar_pairs_exact() {
    let g = DependencyGraph::build(vec![
        krate("base1", vec![]),
        krate("base2", vec![]),
        krate("leaf1", vec!["base1"]),
        krate("leaf2", vec!["base2"]),
    ])
    .unwrap();
    let pairs = BisimulationChecker::find_bisimilar_pairs(&g);
    assert_eq!(
        pairs,
        vec![
            ("base1".to_string(), "base2".to_string()),
            ("leaf1".to_string(), "leaf2".to_string())
        ]
    );
}

#[test]
fn manifest_defaults_and_dev_dependencies() {
    let toml = "[package]\nedition = \"2021\"\n\n[dependencies]\nzeta = \"1\"\nalpha = \"1\"\n\n[dev-dependencies]\nbeta = \"1\"\n";
    let c = CrateNode::from_toml_str(toml, "p").unwrap();
    assert_eq!(c.name, "unknown");
    assert_eq!(c.version, "0.0.0");
    assert_eq!(c.dependencies, vec!["alpha", "zeta", "beta"]);
    assert!(c.features.is_empty());
    assert_eq!(c.path, "p");
}

#[test]
fn manifest_name_not_a_string() {
    let c = CrateNode::from_toml_str("[package]\nname = 3\nversion = \"1.0.0\"\n", "p").unwrap();
    assert_eq!(c.name, "unknown");
    assert_eq!(c.version, "1.0.0");
}

#[test]
fn manifest_errors() {
    let e = CrateNode::from_toml_str("this is = = not toml", "p").err().unwrap();
    assert_eq!(e, ManifestError::Parse);
    assert_eq!(e.message(), "failed to parse Cargo.toml");
    let e = CrateNode::from_toml_str("[dependencies]\nserde = \"1\"\n", "p").err().unwrap();
    assert_eq!(e, ManifestError::MissingPackage);
    assert_eq!(e.message(), "missing [package]");
}

#[test]
fn manifest_from_parsed_value() {
    let v: toml::Value = "[package]\nname = \"n\"\n[features]\nb = []\na = []\n".parse().unwrap();
    let c = CrateNode::from_toml_value(&v, "q").unwrap();
    assert_eq!(c.name, "n");
    assert_eq!(c.features, vec!["a", "b"]);
}

#[test]
fn scan_keeps_manifests_that_parse() {
    let manifests = vec![
        ("x/Cargo.toml".to_string(), "[package]\nname = \"x\"\n".to_string()),
        ("bad/Cargo.toml".to_string(), "[[[".to_string()),
        ("y/Cargo.toml".to_string(), "[workspace]\n".to_string()),
        ("z/Cargo.toml".to_string(), "[package]\nname = \"z\"\n".to_string()),
    ];
    let crates = scan_cargo_tomls(&manifests);
    let names: Vec<&str> = crates.iter().map(|c| c.name.as_str()).collect();
    assert_eq!(names, vec!["x", "z"]);
    assert_eq!(crates[1].path, "z/Cargo.toml");
}

#[test]
fn dedup_keeps_first_of_each_name() {
    let crates = vec![
        krate("a", vec![]),
        CrateNode { version: "9".to_string(), ..krate("a", vec![]) },
        krate("b", vec!["a"]),
    ];
    let unique = dedup_by_name(&crates);
    assert_eq!(unique.len(), 2);
    assert_eq!(unique[0].version, "0.1.0");
    assert_eq!(unique[1].name, "b");
}

#[test]
fn duplicate_copies_all_fields() {
    let c = CrateNode { features: vec!["f".to_string()], ..krate("a", vec!["x"]) };
    let d = c.duplicate();
    assert_eq!(d.name, "a");
    assert_eq!(d.dependencies, vec!["x"]);
    assert_eq!(d.features, vec!["f"]);
    assert_eq!(d.path, "/fake/a.toml");
}

fn depends(g: &DependencyGraph, dependent: &str, dependency: &str) -> bool {
    g.direct_dependencies(dependent).iter().any(|c| c.name == dependency)
}

#[test]
fn critical_path_is_a_chain_of_dependencies_and_the_longest() {
    let g = DependencyGraph::build(vec![
        krate("a", vec![]),
        krate("b", vec!["a"]),
        krate("c", vec!["a", "b"]),
        krate("d", vec!["c"]),
        krate("e", vec!["a"]),
    ])
    .unwrap();
    let (len, path) = CriticalPath::find(&g);
    assert_eq!(len, 3);
    assert_eq!(path.len(), len + 1);
    for w in path.windows(2) {
        assert!(depends(&g, &w[1], &w[0]));
    }
    assert_eq!(path, vec!["a", "b", "c", "d"]);
}

#[test]
fn critical_path_through_passes_through_the_crate() {
    let g = DependencyGraph::build(vec![
        krate("a", vec![]),
        krate("b", vec!["a"]),
        krate("c", vec!["b"]),
        krate("e", vec!["a"]),
        krate("f", vec!["e"]),
        krate("g", vec!["f"]),
    ])
    .unwrap();
    let (len, path) = CriticalPath::find_through(&g, "e");
    assert_eq!(len, 3);
    assert_eq!(path, vec!["a", "e", "f", "g"]);
    assert!(path.contains(&"e".to_string()));
    for w in path.windows(2) {
        assert!(depends(&g, &w[1], &w[0]));
    }
}

#[test]
fn layer_is_one_more_than_deepest_dependency() {
    let g = DependencyGraph::build(vec![
        krate("a", vec![]),
        krate("b", vec!["a"]),
        krate("c", vec!["b"]),
        krate("d", vec!["a", "c"]),
        krate("x", vec![]),
    ])
    .unwrap();
    let layer = |n: &str| LayerCalculator::layer_of(&g, n).unwrap();
    assert_eq!(layer("a"), 0);
    assert_eq!(layer("x"), 0);
    assert_eq!(layer("b"), 1);
    assert_eq!(layer("c"), 2);
    assert_eq!(layer("d"), 3);
    let layers = LayerCalculator::compute(&g);
    let total: usize = layers.iter().map(|l| l.len()).sum();
    assert_eq!(total, 5);
}

#[test]
fn depths_list_every_downstream_crate_but_the_start() {
    let g = DependencyGraph::build_allow_cycles(vec![
        krate("a", vec!["c"]),
        krate("b", vec!["a"]),
        krate("c", vec!["b"]),
        krate("d", vec!["b"]),
    ])
    .unwrap()
    .0;
    let analyzer = ImpactAnalyzer::new(&g);
    let mut down = analyzer.downstream_set("a");
    down.sort();
    assert_eq!(down, vec!["b", "c", "d"]);
    let depths = analyzer.downstream_by_depth("a");
    let mut listed: Vec<String> = depths.iter().flatten().cloned().collect();
    listed.sort();
    assert_eq!(listed, vec!["b", "c", "d"]);
    assert_eq!(depths[0], vec!["b".to_string()]);
}

#[test]
fn most_depended_on_has_the_greatest_count() {
    let g = DependencyGraph::build(vec![
        krate("a", vec![]),
        krate("b", vec!["a"]),
        krate("c", vec!["b"]),
        krate("z", vec![]),
        krate("y", vec!["z"]),
    ])
    .unwrap();
    let analyzer = ImpactAnalyzer::new(&g);
    let (name, count) = analyzer.most_depended_on();
    assert_eq!((name.as_str(), count), ("a", 2));
    for c in ["a", "b", "c", "z", "y"] {
        assert!(analyzer.downstream_count(c) <= count);
    }
    let ranks = analyzer.rank_by_impact();
    assert_eq!(ranks.len(), 5);
    for w in ranks.windows(2) {
        assert!(w[0].1 >= w[1].1);
    }
}

#[test]
fn every_bisimilar_pair_passes_the_check() {
    let g = DependencyGraph::build(vec![
        krate("p", vec![]),
        krate("q", vec![]),
        krate("u", vec!["p"]),
        krate("v", vec!["q"]),
        krate("w", vec!["p", "q"]),
    ])
    .unwrap();
    let pairs = BisimulationChecker::find_bisimilar_pairs(&g);
    assert!(!pairs.is_empty());
    for (a, b) in &pairs {
        assert!(BisimulationChecker::check(&g, a, b));
        assert_eq!(g.direct_dependencies(a).len(), g.direct_dependencies(b).len());
    }
    assert!(pairs.contains(&("u".to_string(), "v".to_string())));
}

#[test]
fn edges_are_the_in_fleet_dependencies() {
    let g = DependencyGraph::build(vec![
        krate("a", vec!["serde"]),
        krate("b", vec!["a", "tokio"]),
        krate("c", vec!["a", "b"]),
    ])
    .unwrap();
    assert_eq!(g.edge_count(), 3);
    assert!(depends(&g, "b", "a"));
    assert!(depends(&g, "c", "a"));
    assert!(depends(&g, "c", "b"));
    assert!(!depends(&g, "a", "b"));
}

#[test]
fn dedup_leaves_each_name_once() {
    let crates = vec![krate("a", vec![]), krate("b", vec![]), krate("a", vec!["b"]), krate("c", vec![])];
    let names: Vec<String> = dedup_by_name(&crates).into_iter().map(|c| c.name).collect();
    assert_eq!(names, vec!["a", "b", "c"]);
}

#[test]
fn crate_listing_a_dependency_twice_is_bisimilar_to_itself() {
    let g = DependencyGraph::build(vec![krate("a", vec![]), krate("b", vec!["a", "a"])]).unwrap();
    assert!(BisimulationChecker::check(&g, "b", "b"));
    assert!(BisimulationChecker::check(&g, "a", "a"));
    assert!(!BisimulationChecker::check(&g, "a", "b"));
}

#[test]
fn bisimulation_finds_the_matching_that_a_first_fit_misses() {
    // x depends on p, q and y on r, s; p is shaped like s and q like r.
    let g = DependencyGraph::build(vec![
        krate("a1", vec![]),
        krate("a2", vec![]),
        krate("c1", vec![]),
        krate("c2", vec![]),
        krate("b1", vec!["c1"]),
        krate("b2", vec!["c2"]),
        krate("p", vec!["a1"]),
        krate("q", vec!["b1"]),
        krate("r", vec!["b2"]),
        krate("s", vec!["a2"]),
        krate("x", vec!["p", "q"]),
        krate("y", vec!["r", "s"]),
    ])
    .unwrap();
    assert!(BisimulationChecker::check(&g, "x", "y"));
    assert!(BisimulationChecker::check(&g, "p", "s"));
    assert!(!BisimulationChecker::check(&g, "p", "r"));
}

#[test]
fn bisimulation_is_symmetric() {
    let g = DependencyGraph::build(vec![
        krate("a", vec![]),
        krate("l1", vec![]),
        krate("l2", vec![]),
        krate("u", vec!["a", "a"]),
        krate("v", vec!["l1", "l2"]),
    ])
    .unwrap();
    for (s, t) in [("u", "v"), ("l1", "l2"), ("a", "u")] {
        assert_eq!(BisimulationChecker::check(&g, s, t), BisimulationChecker::check(&g, t, s));
    }
    assert!(!BisimulationChecker::check(&g, "u", "v"));
    assert!(BisimulationChecker::check(&g, "l1", "l2"));
}

#[test]
fn layers_and_depths_list_names_in_order() {
    let g = DependencyGraph::build(vec![
        krate("zeta", vec![]),
        krate("alpha", vec![]),
        krate("mid", vec!["zeta", "alpha"]),
        krate("Beta", vec!["zeta"]),
        krate("beta", vec!["zeta"]),
    ])
    .unwrap();
    assert_eq!(
        LayerCalculator::compute(&g),
        vec![
            vec!["alpha".to_string(), "zeta".to_string()],
            vec!["Beta".to_string(), "beta".to_string(), "mid".to_string()]
        ]
    );
    let depths = ImpactAnalyzer::new(&g).downstream_by_depth("zeta");
    assert_eq!(depths, vec![vec!["Beta".to_string(), "beta".to_string(), "mid".to_string()]]);
}

#[test]
fn longest_chain_plus_one_is_the_number_of_layers() {
    for crates in [
        vec![krate("a", vec![]), krate("b", vec!["a"]), krate("c", vec!["b"]), krate("d", vec!["a"])],
        vec![krate("a", vec![]), krate("b", vec![])],
        vec![
            krate("a", vec![]),
            krate("b", vec!["a"]),
            krate("c", vec!["a", "b"]),
            krate("d", vec!["c"]),
        ],
    ] {
        let g = DependencyGraph::build(crates).unwrap();
        let (len, _) = CriticalPath::find(&g);
        assert_eq!(len + 1, LayerCalculator::compute(&g).len());
    }
}

#[test]
fn edge_count_of_crates_before_building() {
    let crates = vec![
        krate("a", vec!["serde"]),
        krate("b", vec!["a", "tokio"]),
        krate("c", vec!["a", "b", "a"]),
    ];
    assert_eq!(crate_graph::in_fleet_edge_count(&crates), Some(4));
    assert_eq!(DependencyGraph::build(crates).unwrap().edge_count(), 4);
    assert_eq!(crate_graph::in_fleet_edge_count(&vec![]), Some(0));
}

#[test]
fn bisimilar_pairs_with_distinct_names_are_exactly_the_checked_pairs() {
    let g = DependencyGraph::build(vec![
        krate("p", vec![]),
        krate("q", vec![]),
        krate("u", vec!["p"]),
        krate("v", vec!["q"]),
        krate("w", vec!["p", "q"]),
    ])
    .unwrap();
    let pairs = BisimulationChecker::find_bisimilar_pairs(&g);
    let names = ["p", "q", "u", "v", "w"];
    let mut expected = Vec::new();
    for i in 0..names.len() {
        for j in (i + 1)..names.len() {
            if BisimulationChecker::check(&g, names[i], names[j]) {
                expected.push((names[i].to_string(), names[j].to_string()));
            }
        }
    }
    assert_eq!(pairs, expected);
    assert_eq!(pairs, vec![("p".to_string(), "q".to_string()), ("u".to_string(), "v".to_string())]);
}

#[test]
fn bisimilar_pairs_count_a_twice_listed_dependency_once() {
    let g = DependencyGraph::build(vec![
        krate("a", vec![]),
        krate("b", vec![]),
        krate("u", vec!["a", "a"]),
        krate("v", vec!["b"]),
    ])
    .unwrap();
    assert!(BisimulationChecker::check(&g, "u", "v"));
    let pairs = BisimulationChecker::find_bisimilar_pairs(&g);
    assert_eq!(pairs, vec![("a".to_string(), "b".to_string()), ("u".to_string(), "v".to_string())]);
}

#[test]
fn through_chain_is_never_longer_than_the_longest() {
    let g = DependencyGraph::build(vec![
        krate("a", vec![]),
        krate("b", vec!["a"]),
        krate("c", vec!["b"]),
        krate("x", vec![]),
        krate("y", vec!["x"]),
    ])
    .unwrap();
    let (len, path) = CriticalPath::find(&g);
    for n in ["a", "b", "c", "x", "y"] {
        let (t, _) = CriticalPath::find_through(&g, n);
        assert!(t <= len);
        if path.contains(&n.to_string()) {
            assert_eq!(t, len);
        }
    }
    assert_eq!(CriticalPath::find_through(&g, "y").0, 1);
}

#[test]
fn depths_are_disjoint_and_cover_the_downstream_set() {
    let g = diamond();
    let analyzer = ImpactAnalyzer::new(&g);
    let depths = analyzer.downstream_by_depth("a");
    let mut all: Vec<String> = depths.iter().flatten().cloned().collect();
    let n = all.len();
    all.sort();
    all.dedup();
    assert_eq!(all.len(), n);
    let mut down = analyzer.downstream_set("a");
    down.sort();
    assert_eq!(all, down);
}
