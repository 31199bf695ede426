use shipcat::errors::Error;
use shipcat::graph::{
    build_fleet_wide, build_from_entry_point, first_level_consumers, nodeidx_from_name, Catalog,
};
use shipcat::manifest::{Dependency, DependencyProtocol, Manifest};
use shipcat::render::{render, RenderMode};

fn dep(name: &str) -> Dependency {
    Dependency {
        name: name.into(),
        api: "v1".into(),
        contract: None,
        protocol: DependencyProtocol::Http,
        intent: None,
    }
}

fn svc(name: &str, deps: Vec<Dependency>) -> Manifest {
    let mut mf = Manifest::default();
    mf.name = name.into();
    mf.dependencies = deps;
    mf
}

fn names(fleet: &[&str]) -> Vec<String> {
    fleet.iter().map(|s| s.to_string()).collect()
}

#[test]
fn entry_point_without_dependencies() {
    let catalog = Catalog { manifests: vec![svc("solo", vec![])] };
    let g = build_from_entry_point(&catalog, "solo").unwrap();
    assert_eq!(g.nodes.len(), 1);
    assert_eq!(g.edges.len(), 0);
    assert_eq!(g.nodes[0].name, "solo");
}

#[test]
fn entry_point_terminates_on_cycle() {
    let catalog = Catalog {
        manifests: vec![
            svc("alpha", vec![dep("beta")]),
            svc("beta", vec![dep("gamma")]),
            svc("gamma", vec![dep("alpha")]),
        ],
    };
    let g = build_from_entry_point(&catalog, "alpha").unwrap();
    assert_eq!(g.nodes.len(), 3);
    assert_eq!(g.edges.len(), 3);
    let a = nodeidx_from_name("alpha", &g).unwrap();
    let b = nodeidx_from_name("beta", &g).unwrap();
    let c = nodeidx_from_name("gamma", &g).unwrap();
    assert!(g.edges.iter().any(|e| e.from == a && e.to == b));
    assert!(g.edges.iter().any(|e| e.from == b && e.to == c));
    assert!(g.edges.iter().any(|e| e.from == c && e.to == a));
}

#[test]
fn duplicate_dependency_keeps_last_declaration() {
    let mut first = dep("db");
    first.contract = Some("v1-contract".into());
    let mut second = dep("db");
    second.contract = Some("v2-contract".into());
    second.protocol = DependencyProtocol::Grpc;
    let catalog =
        Catalog { manifests: vec![svc("api", vec![first, second]), svc("db", vec![])] };
    let g = build_from_entry_point(&catalog, "api").unwrap();
    assert_eq!(g.nodes.len(), 2);
    assert_eq!(g.edges.len(), 1);
    assert_eq!(g.edges[0].edge.contract.as_deref(), Some("v2-contract"));
    assert!(g.edges[0].edge.protocol == DependencyProtocol::Grpc);
}

#[test]
fn entry_point_resolution_failures() {
    let catalog = Catalog { manifests: vec![svc("api", vec![dep("ghost")])] };
    match build_from_entry_point(&catalog, "nosuch") {
        Err(Error::NotFound(n)) => assert_eq!(n, "nosuch"),
        other => panic!("expected not found, got {:?}", other),
    }
    match build_from_entry_point(&catalog, "api") {
        Err(Error::MalformedDependency(n)) => assert_eq!(n, "ghost"),
        other => panic!("expected malformed dependency, got {:?}", other),
    }
}

#[test]
fn fleet_wide_graph() {
    let catalog = Catalog {
        manifests: vec![
            svc("api", vec![dep("cache")]),
            svc("worker", vec![dep("api")]),
            svc("cache", vec![]),
        ],
    };
    // the listing omits cache: it still appears, as a leaf
    let g = build_fleet_wide(&catalog, &names(&["api", "worker"])).unwrap();
    assert_eq!(g.nodes.len(), 3);
    assert_eq!(g.edges.len(), 2);
    // insertion order: api, its leaf dependency, then worker
    assert_eq!(g.nodes[0].name, "api");
    assert_eq!(g.nodes[1].name, "cache");
    assert_eq!(g.nodes[2].name, "worker");
    match build_fleet_wide(&catalog, &names(&["api", "nosuch"])) {
        Err(Error::NotFound(n)) => assert_eq!(n, "nosuch"),
        other => panic!("expected not found, got {:?}", other),
    }
}

#[test]
fn first_level_consumers_do_not_leak() {
    // chain: caller -> middle -> target; only middle consumes target
    let catalog = Catalog {
        manifests: vec![
            svc("target", vec![]),
            svc("middle", vec![dep("target")]),
            svc("caller", vec![dep("middle")]),
        ],
    };
    let fleet = names(&["target", "middle", "caller"]);
    let consumers = first_level_consumers(&catalog, &fleet, "target").unwrap();
    assert_eq!(consumers, vec!["middle".to_string()]);
    let consumers = first_level_consumers(&catalog, &fleet, "middle").unwrap();
    assert_eq!(consumers, vec!["caller".to_string()]);
    let consumers = first_level_consumers(&catalog, &fleet, "caller").unwrap();
    assert!(consumers.is_empty());
    match first_level_consumers(&catalog, &names(&["gone"]), "target") {
        Err(Error::NotFound(n)) => assert_eq!(n, "gone"),
        other => panic!("expected not found, got {:?}", other),
    }
}

#[test]
fn consumers_follow_fleet_order() {
    let catalog = Catalog {
        manifests: vec![
            svc("db", vec![]),
            svc("a", vec![dep("db")]),
            svc("b", vec![dep("db")]),
        ],
    };
    let consumers =
        first_level_consumers(&catalog, &names(&["b", "a", "db"]), "db").unwrap();
    assert_eq!(consumers, vec!["b".to_string(), "a".to_string()]);
}

#[test]
fn render_structured_document() {
    let mut d = dep("db");
    d.intent = Some("store things".into());
    let catalog = Catalog { manifests: vec![svc("api", vec![d]), svc("db", vec![])] };
    let g = build_from_entry_point(&catalog, "api").unwrap();
    let text = render(&g, RenderMode::Structured);
    let expected = "nodes:\n- \"api\"\n- \"db\"\nedges:\n- from: \"api\"\n  to: \"db\"\n  api: \"v1\"\n  contract: ~\n  protocol: http\n  intent: \"store things\"\n";
    assert_eq!(text, expected);
}

#[test]
fn render_visualization_document() {
    let catalog = Catalog { manifests: vec![svc("api", vec![dep("db")]), svc("db", vec![])] };
    let g = build_from_entry_point(&catalog, "api").unwrap();
    let text = render(&g, RenderMode::Visualization);
    let expected = "digraph {\n    \"api\";\n    \"db\";\n    \"api\" -> \"db\";\n}\n";
    assert_eq!(text, expected);
}

#[test]
fn render_escapes_special_characters() {
    // a name with a quote and an intent with a newline stay unambiguous
    let mut d = dep("db\"prod");
    d.intent = Some("two\nlines \\ more".into());
    let catalog = Catalog { manifests: vec![svc("api", vec![d]), svc("db\"prod", vec![])] };
    let g = build_from_entry_point(&catalog, "api").unwrap();
    let text = render(&g, RenderMode::Structured);
    let expected = "nodes:\n- \"api\"\n- \"db\\\"prod\"\nedges:\n- from: \"api\"\n  to: \"db\\\"prod\"\n  api: \"v1\"\n  contract: ~\n  protocol: http\n  intent: \"two\\nlines \\\\ more\"\n";
    assert_eq!(text, expected);
    let viz = render(&g, RenderMode::Visualization);
    let expected_viz = "digraph {\n    \"api\";\n    \"db\\\"prod\";\n    \"api\" -> \"db\\\"prod\";\n}\n";
    assert_eq!(viz, expected_viz);
}
