use deptool::d2_generator::generate_d2;
use deptool::links::{add_link, new_link_map, render_links, DepMap};
use deptool::mermaid_generator::generate_mermaid;
use deptool::parse_from_cargo_tree::{cargo_tree_command, is_white_char, parse_deps, parse_deps_from_cargo_tree};
use deptool::sorted::SortedSet;
use deptool::utils::{CrateIndex, Roots};

fn links(pairs: &[(&str, &str)]) -> DepMap {
    let mut m = new_link_map();
    for (a, b) in pairs {
        add_link(&mut m, a.to_string(), b.to_string());
    }
    m
}

fn pairs_of(m: &DepMap) -> Vec<(String, String)> {
    let mut v = Vec::new();
    for i in 0..m.len() {
        let deps = m.value_at(i);
        for j in 0..deps.len() {
            v.push((m.key_at(i).clone(), deps.get(j).clone()));
        }
    }
    v
}

fn index() -> CrateIndex {
    CrateIndex {
        crate_dirs: vec!["axlog".to_string(), "axerrno".to_string()],
        module_dirs: vec!["axhal".to_string(), "axruntime".to_string()],
    }
}

fn feature_set(items: &[&str]) -> SortedSet<String> {
    let mut s = SortedSet::new();
    for i in items {
        s.insert(i.to_string());
    }
    s
}

#[test]
fn mermaid_lists_links_in_order() {
    let m = links(&[("b", "c"), ("a", "c"), ("a", "b")]);
    assert_eq!(generate_mermaid(m), "graph TD;\na-->b\na-->c\nb-->c\n");
}

#[test]
fn mermaid_of_no_links() {
    assert_eq!(generate_mermaid(new_link_map()), "graph TD;\n");
}

#[test]
fn d2_lists_links_in_order() {
    let m = links(&[("b", "c"), ("a", "c"), ("a", "b"), ("a", "b")]);
    assert_eq!(generate_d2(m), "a -> b\na -> c\nb -> c\n");
}

#[test]
fn d2_of_no_links() {
    assert_eq!(generate_d2(new_link_map()), "");
}

#[test]
fn rendering_ignores_insertion_order() {
    let x = links(&[("axruntime", "axhal"), ("axhal", "axlog"), ("axruntime", "axlog"), ("app", "axruntime")]);
    let y = links(&[("app", "axruntime"), ("axruntime", "axlog"), ("axhal", "axlog"), ("axruntime", "axhal"), ("axhal", "axlog")]);
    assert_eq!(pairs_of(&x), pairs_of(&y));
    assert_eq!(generate_mermaid(x), generate_mermaid(y));
}

#[test]
fn render_links_with_any_arrow() {
    let m = links(&[("x", "y"), ("x", "a")]);
    assert_eq!(render_links(&m, " => "), "x => a\nx => y\n");
}

#[test]
fn add_link_records_pairs() {
    let m = links(&[("a", "b"), ("a", "b"), ("c", "a")]);
    assert_eq!(
        pairs_of(&m),
        vec![("a".to_string(), "b".to_string()), ("c".to_string(), "a".to_string())]
    );
}

#[test]
fn cargo_tree_command_plain() {
    assert_eq!(
        cargo_tree_command(&SortedSet::new(), true),
        "cargo tree -e normal --prefix depth --format {lib} --no-dedupe"
    );
}

#[test]
fn cargo_tree_command_without_defaults() {
    assert_eq!(
        cargo_tree_command(&SortedSet::new(), false),
        "cargo tree -e normal --prefix depth --format {lib} --no-dedupe --no-default-features"
    );
}

#[test]
fn cargo_tree_command_with_features() {
    assert_eq!(
        cargo_tree_command(&feature_set(&["smp", "fs"]), false),
        "cargo tree -e normal --prefix depth --format {lib} --no-dedupe --no-default-features --features ,fs,smp"
    );
    assert_eq!(
        cargo_tree_command(&feature_set(&["net"]), true),
        "cargo tree -e normal --prefix depth --format {lib} --no-dedupe --features ,net"
    );
}

#[test]
fn white_space_characters() {
    for c in [' ', '\t', '\n', '\r', '\u{b}', '\u{c}', '\u{85}', '\u{a0}', '\u{2003}', '\u{3000}', 'a', '1', '_', '\u{200b}'] {
        assert_eq!(is_white_char(c), c.is_whitespace(), "{:?}", c);
    }
}

#[test]
fn parse_deps_reads_depth_and_name() {
    let r = parse_deps("0app\n1axlog v0.1.0\n2axerrno (proc-macro)\n  1axhal\n").unwrap();
    assert_eq!(
        r,
        vec![
            (0, "app".to_string()),
            (1, "axlog".to_string()),
            (2, "axerrno".to_string()),
            (1, "axhal".to_string())
        ]
    );
}

#[test]
fn parse_deps_handles_crlf_and_empty() {
    assert_eq!(parse_deps("0a\r\n1b\r\n").unwrap(), vec![(0, "a".to_string()), (1, "b".to_string())]);
    assert_eq!(parse_deps("").unwrap(), Vec::<(i32, String)>::new());
    assert_eq!(parse_deps("7").unwrap(), vec![(7, String::new())]);
}

#[test]
fn parse_deps_refuses_malformed_lines() {
    assert!(parse_deps("0a\n\n1b\n").is_none());
    assert!(parse_deps("0a\nxb\n").is_none());
    assert!(parse_deps("   \n").is_none());
    assert!(parse_deps("é1\n").is_none());
}

#[test]
fn cargo_tree_links_follow_depth() {
    let out = "0app\n1axlog\n2axerrno\n1serde\n1axhal\n2axlog\n3axerrno\n";
    let m = parse_deps_from_cargo_tree("app".to_string(), out, &Roots::new(), &index()).unwrap();
    assert_eq!(
        pairs_of(&m),
        vec![
            ("app".to_string(), "axhal".to_string()),
            ("app".to_string(), "axlog".to_string()),
            ("axhal".to_string(), "axlog".to_string()),
            ("axlog".to_string(), "axerrno".to_string()),
        ]
    );
}

#[test]
fn cargo_tree_links_below_a_skipped_crate() {
    let out = "0app\n1serde\n2axlog\n";
    let m = parse_deps_from_cargo_tree("app".to_string(), out, &Roots::new(), &index()).unwrap();
    assert_eq!(pairs_of(&m), vec![(String::new(), "axlog".to_string())]);
}

#[test]
fn cargo_tree_links_at_depth_zero() {
    let out = "0app\n0axlog\n1axhal\n";
    let m = parse_deps_from_cargo_tree("app".to_string(), out, &Roots::new(), &index()).unwrap();
    assert_eq!(pairs_of(&m), vec![("axlog".to_string(), "axhal".to_string())]);
}

#[test]
fn cargo_tree_links_of_empty_output() {
    let m = parse_deps_from_cargo_tree("app".to_string(), "", &Roots::new(), &index()).unwrap();
    assert_eq!(m.len(), 0);
    let m = parse_deps_from_cargo_tree("app".to_string(), "0app\n", &Roots::new(), &index()).unwrap();
    assert_eq!(m.len(), 0);
}

#[test]
fn cargo_tree_links_refuse_malformed_output() {
    assert!(parse_deps_from_cargo_tree("app".to_string(), "0app\n\n", &Roots::new(), &index()).is_none());
}

#[test]
fn component_without_dependencies_gives_no_line() {
    let mut m: DepMap = deptool::sorted::SortedMap::new();
    m.insert("a".to_string(), SortedSet::new());
    assert_eq!(generate_d2(m), "");
    let mut m: DepMap = deptool::sorted::SortedMap::new();
    m.insert("a".to_string(), SortedSet::new());
    m.insert("b".to_string(), feature_set(&["c"]));
    assert_eq!(generate_mermaid(m), "graph TD;\nb-->c\n");
}

#[test]
fn cargo_tree_first_line_is_not_read() {
    let rest = "1axlog\n2axerrno\n1axhal\n";
    let a = parse_deps_from_cargo_tree("app".to_string(), &format!("0app\n{}", rest), &Roots::new(), &index()).unwrap();
    let b = parse_deps_from_cargo_tree("app".to_string(), &format!("5other v1.0\n{}", rest), &Roots::new(), &index()).unwrap();
    assert_eq!(pairs_of(&a), pairs_of(&b));
    assert_eq!(generate_d2(a), "app -> axhal\napp -> axlog\naxlog -> axerrno\n");
}
