use deptool::config::{Config, GeneratorType, ParserType};
use deptool::links::DepMap;
use deptool::parse_from_toml::{
    classify_value, dump_graph, parse_deps_from_toml, CrateManifest, DepSpec, FeatureList, Graph, Node,
    TomlError, ValueClass, Workspace,
};
use deptool::sorted::{SortedMap, SortedSet};
use deptool::utils::{CrateIndex, Roots};
use deptool::{next_manifest_to_load, parse_and_generate, DeptoolError};

fn dep(optional: bool, default_features: bool, features: &[&str]) -> DepSpec {
    DepSpec { optional, default_features, features: features.iter().map(|f| f.to_string()).collect() }
}

fn manifest(deps: Vec<(&str, DepSpec)>, features: Vec<(&str, Vec<&str>)>) -> CrateManifest {
    let mut m = CrateManifest::new();
    for (n, d) in deps {
        m.dependencies.insert(n.to_string(), d);
    }
    for (n, vs) in features {
        m.features.insert(n.to_string(), FeatureList { values: vs.iter().map(|v| v.to_string()).collect() });
    }
    m
}

fn index() -> CrateIndex {
    CrateIndex {
        crate_dirs: vec!["axlog".to_string(), "axerrno".to_string()],
        module_dirs: vec!["axhal".to_string(), "axruntime".to_string()],
    }
}

fn feature_set(items: &[&str]) -> SortedSet<String> {
    let mut s = SortedSet::new();
    for i in items {
        s.insert(i.to_string());
    }
    s
}

fn pairs_of(m: &DepMap) -> Vec<(String, String)> {
    let mut v = Vec::new();
    for i in 0..m.len() {
        let deps = m.value_at(i);
        for j in 0..deps.len() {
            v.push((m.key_at(i).clone(), deps.get(j).clone()));
        }
    }
    v
}

fn pair(a: &str, b: &str) -> (String, String) {
    (a.to_string(), b.to_string())
}

/// A crate using `axlog` and a crate using nothing of the tree.
fn simple_workspace() -> Workspace {
    let mut ws: Workspace = SortedMap::new();
    ws.insert("app".to_string(), manifest(vec![("axlog", dep(false, true, &[])), ("serde", dep(false, true, &[]))], vec![]));
    ws.insert("axlog".to_string(), manifest(vec![], vec![("default", vec![])]));
    ws
}

/// A crate with an optional dependency, a dependency without default
/// features, `dep:` values, a weak value and plain values.
fn feature_workspace() -> Workspace {
    let mut ws: Workspace = SortedMap::new();
    ws.insert(
        "app".to_string(),
        manifest(
            vec![("axhal", dep(true, true, &[])), ("axlog", dep(false, false, &["color"]))],
            vec![
                ("default", vec!["log"]),
                ("log", vec!["axlog/std"]),
                ("smp", vec!["axhal?/smp"]),
                ("hal", vec!["dep:axhal"]),
                ("extra", vec!["unknown_thing", "dep:serde", "serde/std"]),
            ],
        ),
    );
    ws.insert("axhal".to_string(), manifest(vec![], vec![("smp", vec![])]));
    ws.insert("axlog".to_string(), manifest(vec![], vec![("color", vec![]), ("std", vec![])]));
    ws
}

fn run(ws: &Workspace, req: &[&str], use_default: bool) -> (Vec<(String, String)>, String) {
    match parse_deps_from_toml("app".to_string(), ws, &Roots::new(), &index(), &feature_set(req), use_default) {
        Ok((links, dump)) => (pairs_of(&links), dump),
        Err(_) => panic!("unexpected error"),
    }
}

fn err(ws: &Workspace) -> TomlError {
    match parse_deps_from_toml("app".to_string(), ws, &Roots::new(), &index(), &feature_set(&[]), true) {
        Ok(_) => panic!("expected an error"),
        Err(e) => e,
    }
}

#[test]
fn node_text() {
    assert_eq!(Node::Component("axhal".to_string()).fmt(), "Component(axhal)");
    assert_eq!(Node::Feature("axhal".to_string(), "smp".to_string()).fmt(), "Feature(axhal/smp)");
    assert_eq!(
        Node::Condition(("app".to_string(), "smp".to_string()), "axhal".to_string()).fmt(),
        "Feature(app/smp) + Component(axhal)"
    );
}

#[test]
fn node_component() {
    assert_eq!(Node::Component("a".to_string()).get_component(), "a");
    assert_eq!(Node::Feature("b".to_string(), "f".to_string()).get_component(), "b");
    assert_eq!(Node::Condition(("c".to_string(), "f".to_string()), "d".to_string()).get_component(), "c");
}

#[test]
fn graph_links_and_conditions() {
    let mut g = Graph::new();
    g.make_link(Node::Feature("a".to_string(), "x".to_string()), Node::Component("a".to_string()));
    g.make_link(Node::Component("a".to_string()), Node::Component("b".to_string()));
    g.make_link(Node::Component("a".to_string()), Node::Component("b".to_string()));
    let c = g.insert_condition(Node::Feature("a".to_string(), "smp".to_string()), Node::Component("b".to_string()));
    assert_eq!(c.fmt(), "Feature(a/smp) + Component(b)");
    assert_eq!(g.conditions.len(), 1);
    assert_eq!(*g.conditions.value_at(0), 2);
    assert_eq!(
        dump_graph(&g),
        "Component(a): [Component(b), ]\n\
         Component(b): [Feature(a/smp) + Component(b), ]\n\
         Feature(a/smp): [Feature(a/smp) + Component(b), ]\n\
         Feature(a/x): [Component(a), ]\n"
    );
}

#[test]
fn empty_graph_dump() {
    assert_eq!(dump_graph(&Graph::new()), "");
}

#[test]
fn classify_feature_values() {
    assert!(matches!(classify_value(&"dep:axhal".to_string()), ValueClass::DepRef(d) if d == "axhal"));
    assert!(matches!(classify_value(&"dep:".to_string()), ValueClass::DepRef(d) if d.is_empty()));
    assert!(matches!(classify_value(&"axhal/smp".to_string()), ValueClass::DepFeature(d, f, false) if d == "axhal" && f == "smp"));
    assert!(matches!(classify_value(&"axhal?/smp".to_string()), ValueClass::DepFeature(d, f, true) if d == "axhal" && f == "smp"));
    assert!(matches!(classify_value(&"axhal??/a/b".to_string()), ValueClass::DepFeature(d, f, true) if d == "axhal" && f == "a/b"));
    assert!(matches!(classify_value(&"smp".to_string()), ValueClass::Plain));
    assert!(matches!(classify_value(&"de:x".to_string()), ValueClass::Plain));
}

#[test]
fn simple_tree_links_and_listing() {
    let (links, dump) = run(&simple_workspace(), &[], true);
    assert_eq!(links, vec![pair("app", "axlog")]);
    assert_eq!(
        dump,
        "Component(app): [Component(axlog), ]\n\
         Feature(app/axlog): [Component(axlog), Feature(axlog/default), ]\n\
         Feature(axlog/default): [Component(axlog), ]\n"
    );
}

#[test]
fn feature_tree_listing() {
    let (_, dump) = run(&feature_workspace(), &[], true);
    assert_eq!(
        dump,
        "Component(app): [Component(axlog), Feature(axlog/color), ]\n\
         Component(axhal): [Feature(app/smp) + Component(axhal), ]\n\
         Feature(app/axlog): [Component(axlog), ]\n\
         Feature(app/default): [Component(app), Feature(app/log), ]\n\
         Feature(app/extra): [Component(app), ]\n\
         Feature(app/hal): [Component(app), Component(axhal), Feature(axhal/default), ]\n\
         Feature(app/log): [Component(app), Feature(axlog/std), ]\n\
         Feature(app/smp): [Component(app), Feature(app/smp) + Component(axhal), ]\n\
         Feature(axhal/smp): [Component(axhal), ]\n\
         Feature(axlog/color): [Component(axlog), ]\n\
         Feature(axlog/std): [Component(axlog), ]\n\
         Feature(app/smp) + Component(axhal): [Feature(axhal/smp), ]\n"
    );
}

#[test]
fn optional_dependency_stays_off_by_default() {
    let (links, _) = run(&feature_workspace(), &[], true);
    assert_eq!(links, vec![pair("app", "axlog")]);
    let (links, _) = run(&feature_workspace(), &[], false);
    assert_eq!(links, vec![pair("app", "axlog")]);
}

#[test]
fn weak_value_waits_for_its_dependency() {
    let (links, _) = run(&feature_workspace(), &["smp"], true);
    assert_eq!(links, vec![pair("app", "axlog")]);
}

#[test]
fn dep_value_turns_dependency_on() {
    let (links, _) = run(&feature_workspace(), &["hal"], false);
    assert_eq!(links, vec![pair("app", "axhal"), pair("app", "axlog")]);
}

#[test]
fn weak_value_fires_with_its_dependency() {
    let (links, _) = run(&feature_workspace(), &["hal", "smp"], true);
    assert_eq!(links, vec![pair("app", "axhal"), pair("app", "axlog")]);
}

#[test]
fn implicit_dependency_feature() {
    let (links, _) = run(&feature_workspace(), &["axhal"], false);
    assert_eq!(links, vec![pair("app", "axlog")]);
    let (links, _) = run(&feature_workspace(), &["axlog"], false);
    assert_eq!(links, vec![pair("app", "axlog")]);
}

#[test]
fn more_features_give_more_links() {
    let ws = feature_workspace();
    let (small, _) = run(&ws, &["smp"], false);
    let (large, _) = run(&ws, &["smp", "hal", "extra"], true);
    for p in small.iter() {
        assert!(large.contains(p));
    }
}

#[test]
fn manifest_order_does_not_matter() {
    let a = feature_workspace();
    let mut b: Workspace = SortedMap::new();
    b.insert("axlog".to_string(), manifest(vec![], vec![("std", vec![]), ("color", vec![])]));
    b.insert("axhal".to_string(), manifest(vec![], vec![("smp", vec![])]));
    b.insert(
        "app".to_string(),
        manifest(
            vec![("axlog", dep(false, false, &["color"])), ("axhal", dep(true, true, &[]))],
            vec![
                ("extra", vec!["unknown_thing", "dep:serde", "serde/std"]),
                ("hal", vec!["dep:axhal"]),
                ("smp", vec!["axhal?/smp"]),
                ("log", vec!["axlog/std"]),
                ("default", vec!["log"]),
            ],
        ),
    );
    assert_eq!(run(&a, &["hal", "smp"], true), run(&b, &["smp", "hal"], true));
}

#[test]
fn chain_of_crates() {
    let mut ws: Workspace = SortedMap::new();
    ws.insert("app".to_string(), manifest(vec![("axruntime", dep(false, true, &[]))], vec![]));
    ws.insert(
        "axruntime".to_string(),
        manifest(vec![("axhal", dep(false, true, &[])), ("axlog", dep(true, true, &[]))], vec![("default", vec!["axlog"])]),
    );
    ws.insert("axhal".to_string(), manifest(vec![("axlog", dep(false, true, &[]))], vec![]));
    ws.insert("axlog".to_string(), manifest(vec![], vec![]));
    let (links, _) = run(&ws, &[], true);
    assert_eq!(links, vec![pair("app", "axruntime"), pair("axhal", "axlog"), pair("axruntime", "axhal")]);
}

#[test]
fn dependency_default_features_are_not_followed() {
    let mut ws: Workspace = SortedMap::new();
    ws.insert("app".to_string(), manifest(vec![("axruntime", dep(false, true, &[]))], vec![]));
    ws.insert(
        "axruntime".to_string(),
        manifest(vec![("axlog", dep(true, true, &[]))], vec![("default", vec!["axlog"])]),
    );
    ws.insert("axlog".to_string(), manifest(vec![], vec![]));
    let (links, _) = run(&ws, &[], true);
    assert_eq!(links, vec![pair("app", "axruntime")]);
}

#[test]
fn cycle_between_crates() {
    let mut ws: Workspace = SortedMap::new();
    ws.insert("app".to_string(), manifest(vec![("axlog", dep(false, true, &[]))], vec![]));
    ws.insert("axlog".to_string(), manifest(vec![("app", dep(false, true, &[]))], vec![]));
    let mut ix = index();
    ix.crate_dirs.push("app".to_string());
    match parse_deps_from_toml("app".to_string(), &ws, &Roots::new(), &ix, &feature_set(&[]), true) {
        Ok((links, _)) => assert_eq!(pairs_of(&links), vec![pair("app", "axlog"), pair("axlog", "app")]),
        Err(_) => panic!("unexpected error"),
    }
}

#[test]
fn unknown_dependency_in_dep_value() {
    let mut ws: Workspace = SortedMap::new();
    ws.insert("app".to_string(), manifest(vec![], vec![("f", vec!["dep:axhal"])]));
    match err(&ws) {
        TomlError::UnknownDependency { dependency, feature, krate } => {
            assert_eq!(dependency, "axhal");
            assert_eq!(feature, "f");
            assert_eq!(krate, "app");
        },
        TomlError::MissingManifest(_) => panic!("wrong error"),
    }
}

#[test]
fn unknown_dependency_in_weak_value() {
    let mut ws: Workspace = SortedMap::new();
    ws.insert("app".to_string(), manifest(vec![("axlog", dep(false, true, &[]))], vec![]));
    ws.insert("axlog".to_string(), manifest(vec![], vec![("a", vec!["fine"]), ("b", vec!["axerrno?/std"])]));
    match err(&ws) {
        TomlError::UnknownDependency { dependency, feature, krate } => {
            assert_eq!(dependency, "axerrno");
            assert_eq!(feature, "b");
            assert_eq!(krate, "axlog");
        },
        TomlError::MissingManifest(_) => panic!("wrong error"),
    }
}

#[test]
fn first_unknown_dependency_of_a_crate() {
    let mut ws: Workspace = SortedMap::new();
    ws.insert("app".to_string(), manifest(vec![], vec![("b", vec!["x", "axlog/std", "dep:axhal"]), ("a", vec!["axhal/smp"])]));
    match err(&ws) {
        TomlError::UnknownDependency { dependency, feature, krate } => {
            assert_eq!(dependency, "axhal");
            assert_eq!(feature, "a");
            assert_eq!(krate, "app");
        },
        TomlError::MissingManifest(_) => panic!("wrong error"),
    }
}

#[test]
fn missing_manifest_of_dependency() {
    let mut ws: Workspace = SortedMap::new();
    ws.insert("app".to_string(), manifest(vec![("axlog", dep(false, true, &[]))], vec![]));
    assert!(matches!(err(&ws), TomlError::MissingManifest(n) if n == "axlog"));
}

#[test]
fn missing_manifest_of_root() {
    let ws: Workspace = SortedMap::new();
    assert!(matches!(err(&ws), TomlError::MissingManifest(n) if n == "app"));
}

#[test]
fn next_manifest_walks_the_tree() {
    let roots = Roots::new();
    let ix = index();
    let name = "app".to_string();
    let dir = "apps/app".to_string();
    let mut ws: Workspace = SortedMap::new();
    assert_eq!(next_manifest_to_load(&name, &dir, &ws, &roots, &ix), Some(pair("app", "apps/app")));
    ws.insert(
        "app".to_string(),
        manifest(vec![("axhal", dep(true, true, &[])), ("serde", dep(false, true, &[]))], vec![]),
    );
    assert_eq!(next_manifest_to_load(&name, &dir, &ws, &roots, &ix), Some(pair("axhal", "../../modules/axhal")));
    ws.insert("axhal".to_string(), manifest(vec![("axlog", dep(false, true, &[]))], vec![]));
    assert_eq!(next_manifest_to_load(&name, &dir, &ws, &roots, &ix), Some(pair("axlog", "../../crates/axlog")));
    ws.insert("axlog".to_string(), manifest(vec![], vec![]));
    assert_eq!(next_manifest_to_load(&name, &dir, &ws, &roots, &ix), None);
}

fn config(parser: ParserType, generator: GeneratorType, req: &[&str], no_default: bool) -> Config {
    Config {
        crate_name: "app".to_string(),
        path: "apps/app".to_string(),
        features: feature_set(req),
        no_default,
        parser,
        generator,
    }
}

#[test]
fn run_with_mermaid() {
    let c = config(ParserType::ParseFromToml, GeneratorType::GenerateMermaid, &["hal"], false);
    match parse_and_generate(&c, &feature_workspace(), &Roots::new(), &index()) {
        Ok(out) => {
            assert_eq!(out.graph, "graph TD;\napp-->axhal\napp-->axlog\n");
            assert!(out.log.starts_with("Component(app): [Component(axlog), Feature(axlog/color), ]\n"));
        },
        Err(_) => panic!("unexpected error"),
    }
}

#[test]
fn run_with_d2() {
    let c = config(ParserType::ParseFromToml, GeneratorType::GenerateD2, &[], false);
    match parse_and_generate(&c, &simple_workspace(), &Roots::new(), &index()) {
        Ok(out) => {
            assert_eq!(out.graph, "app -> axlog\n");
            assert_eq!(out.log.lines().count(), 3);
        },
        Err(_) => panic!("unexpected error"),
    }
}

#[test]
fn run_with_cargo_tree_parser_is_refused() {
    let c = config(ParserType::ParseFromCargoTree, GeneratorType::GenerateMermaid, &[], false);
    match parse_and_generate(&c, &simple_workspace(), &Roots::new(), &index()) {
        Err(DeptoolError::Message(m)) => assert_eq!(m, "Parse from cargo tree not implemented yet"),
        _ => panic!("expected the refusal"),
    }
}

#[test]
fn run_reports_manifest_errors() {
    let mut ws: Workspace = SortedMap::new();
    ws.insert("app".to_string(), manifest(vec![], vec![("f", vec!["axlog/std"])]));
    let c = config(ParserType::ParseFromToml, GeneratorType::GenerateMermaid, &[], false);
    match parse_and_generate(&c, &ws, &Roots::new(), &index()) {
        Err(DeptoolError::Toml(TomlError::UnknownDependency { dependency, feature, krate })) => {
            assert_eq!((dependency.as_str(), feature.as_str(), krate.as_str()), ("axlog", "f", "app"));
        },
        _ => panic!("expected an unknown dependency"),
    }
}

#[test]
fn run_is_repeatable() {
    let c = config(ParserType::ParseFromToml, GeneratorType::GenerateMermaid, &["smp", "hal"], false);
    let ws = feature_workspace();
    let a = match parse_and_generate(&c, &ws, &Roots::new(), &index()) {
        Ok(o) => (o.log, o.graph),
        Err(_) => panic!("unexpected error"),
    };
    let b = match parse_and_generate(&c, &ws, &Roots::new(), &index()) {
        Ok(o) => (o.log, o.graph),
        Err(_) => panic!("unexpected error"),
    };
    assert_eq!(a, b);
}

#[test]
fn default_feature_turns_optional_dependency_on() {
    let mut ws: Workspace = SortedMap::new();
    ws.insert(
        "app".to_string(),
        manifest(vec![("axlog", dep(true, true, &[]))], vec![("default", vec!["axlog"])]),
    );
    ws.insert("axlog".to_string(), manifest(vec![], vec![]));
    let (links, _) = run(&ws, &[], true);
    assert_eq!(links, vec![pair("app", "axlog")]);
    let (links, _) = run(&ws, &[], false);
    assert_eq!(links, Vec::<(String, String)>::new());
    let (links, _) = run(&ws, &["axlog"], false);
    assert_eq!(links, vec![pair("app", "axlog")]);
}

#[test]
fn next_manifest_follows_the_depth_first_walk() {
    let roots = Roots::new();
    let ix = index();
    let name = "app".to_string();
    let dir = "apps/app".to_string();
    let mut ws: Workspace = SortedMap::new();
    ws.insert(
        "app".to_string(),
        manifest(vec![("axhal", dep(false, true, &[])), ("axlog", dep(false, true, &[]))], vec![]),
    );
    assert_eq!(next_manifest_to_load(&name, &dir, &ws, &roots, &ix), Some(pair("axhal", "../../modules/axhal")));
    ws.insert("axhal".to_string(), manifest(vec![("axruntime", dep(false, true, &[]))], vec![]));
    assert_eq!(
        next_manifest_to_load(&name, &dir, &ws, &roots, &ix),
        Some(pair("axruntime", "../../modules/axruntime"))
    );
    ws.insert("axruntime".to_string(), manifest(vec![], vec![]));
    assert_eq!(next_manifest_to_load(&name, &dir, &ws, &roots, &ix), Some(pair("axlog", "../../crates/axlog")));
}

#[test]
fn next_manifest_stops_at_an_error() {
    let roots = Roots::new();
    let ix = index();
    let name = "app".to_string();
    let dir = "apps/app".to_string();
    let mut ws: Workspace = SortedMap::new();
    ws.insert(
        "app".to_string(),
        manifest(vec![("axhal", dep(false, true, &[])), ("axlog", dep(false, true, &[]))], vec![]),
    );
    ws.insert("axhal".to_string(), manifest(vec![], vec![("smp", vec!["axerrno/std"])]));
    assert_eq!(next_manifest_to_load(&name, &dir, &ws, &roots, &ix), None);
    let c = Config {
        crate_name: "app".to_string(),
        path: dir.clone(),
        features: SortedSet::new(),
        no_default: false,
        parser: ParserType::ParseFromToml,
        generator: GeneratorType::GenerateMermaid,
    };
    match parse_and_generate(&c, &ws, &roots, &ix) {
        Err(DeptoolError::Toml(TomlError::UnknownDependency { dependency, feature, krate })) => {
            assert_eq!((dependency.as_str(), feature.as_str(), krate.as_str()), ("axerrno", "smp", "axhal"));
        },
        _ => panic!("expected an unknown dependency"),
    }
}

#[test]
fn dependencies_are_walked_before_the_crate_itself() {
    let mut ws: Workspace = SortedMap::new();
    ws.insert(
        "app".to_string(),
        manifest(vec![("axhal", dep(false, true, &[]))], vec![("f", vec!["axerrno/std"])]),
    );
    ws.insert("axhal".to_string(), manifest(vec![], vec![("g", vec!["dep:axlog"])]));
    match err(&ws) {
        TomlError::UnknownDependency { dependency, feature, krate } => {
            assert_eq!((dependency.as_str(), feature.as_str(), krate.as_str()), ("axlog", "g", "axhal"));
        },
        TomlError::MissingManifest(_) => panic!("wrong error"),
    }
}
