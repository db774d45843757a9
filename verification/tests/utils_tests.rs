use deptool::config::{config_from_args, manifest_path, CommandLine, GeneratorType, ParserType};
use deptool::sorted::SortedSet;
use deptool::utils::{
    change_root, check_crate_name, check_module_name, check_ulib_name, find_arceos_crate,
    get_workspace, join_path, names_include, CrateIndex, Roots,
};

fn index() -> CrateIndex {
    CrateIndex {
        crate_dirs: vec!["axlog".to_string(), "axerrno".to_string(), "shared".to_string()],
        module_dirs: vec!["axhal".to_string(), "axruntime".to_string(), "shared".to_string()],
    }
}

fn args(name: &str) -> CommandLine {
    CommandLine {
        crate_name: name.to_string(),
        path: None,
        features: None,
        no_default: false,
        root: None,
        from_toml: false,
        from_cargo_tree: false,
        output_mermaid: false,
        output_d2: false,
    }
}

fn items(s: &SortedSet<String>) -> Vec<String> {
    (0..s.len()).map(|i| s.get(i).clone()).collect()
}

fn err_of(r: Result<deptool::config::Config, String>) -> String {
    match r {
        Ok(_) => panic!("expected an error"),
        Err(e) => e,
    }
}

#[test]
fn join_path_follows_unix_rules() {
    assert_eq!(join_path("../../", "crates"), "../../crates");
    assert_eq!(join_path("a", "b"), "a/b");
    assert_eq!(join_path("a", "/b"), "/b");
    assert_eq!(join_path("", "b"), "b");
    assert_eq!(join_path("a/", ""), "a/");
    assert_eq!(join_path("a", ""), "a/");
}

#[test]
fn join_path_agrees_with_std_path() {
    for (b, p) in [("../../", "crates"), ("a", "b"), ("a", "/b"), ("", "b"), ("x/y", "Cargo.toml"), ("a", "")] {
        let expected = std::path::Path::new(b).join(p);
        assert_eq!(join_path(b, p), expected.to_str().unwrap());
    }
}

#[test]
fn default_roots() {
    let r = Roots::new();
    assert_eq!(r.arceos_root, "../../");
    assert_eq!(r.crate_root, "../../crates/");
    assert_eq!(r.module_root, "../../modules/");
    assert_eq!(r.ulib_root, "../../ulib/");
    assert_eq!(get_workspace(&r), "../../");
}

#[test]
fn change_root_moves_every_root() {
    let mut r = Roots::new();
    change_root(&mut r, &"/opt/arceos".to_string());
    assert_eq!(r.arceos_root, "/opt/arceos");
    assert_eq!(r.crate_root, "/opt/arceos/crates");
    assert_eq!(r.module_root, "/opt/arceos/modules");
    assert_eq!(r.ulib_root, "/opt/arceos/ulib");
    assert_eq!(get_workspace(&r), "/opt/arceos");
    change_root(&mut r, &"tree/".to_string());
    assert_eq!(r.crate_root, "tree/crates");
    assert_eq!(r.ulib_root, "tree/ulib");
}

#[test]
fn name_checks() {
    let ix = index();
    assert!(check_crate_name(&ix, &"axlog".to_string()));
    assert!(!check_crate_name(&ix, &"axhal".to_string()));
    assert!(check_module_name(&ix, &"axhal".to_string()));
    assert!(!check_module_name(&ix, &"axlog".to_string()));
    assert!(check_ulib_name(&"libax".to_string()));
    assert!(!check_ulib_name(&"libaxx".to_string()));
    assert!(names_include(&ix.crate_dirs, &"axerrno".to_string()));
    assert!(!names_include(&Vec::new(), &"axerrno".to_string()));
}

#[test]
fn find_crate_looks_in_ulib_then_crates_then_modules() {
    let r = Roots::new();
    let ix = index();
    assert_eq!(find_arceos_crate(&r, &ix, &"libax".to_string()), Some("../../ulib/libax".to_string()));
    assert_eq!(find_arceos_crate(&r, &ix, &"axlog".to_string()), Some("../../crates/axlog".to_string()));
    assert_eq!(find_arceos_crate(&r, &ix, &"axhal".to_string()), Some("../../modules/axhal".to_string()));
    assert_eq!(find_arceos_crate(&r, &ix, &"shared".to_string()), Some("../../crates/shared".to_string()));
    assert_eq!(find_arceos_crate(&r, &ix, &"serde".to_string()), None);
}

#[test]
fn find_crate_after_change_root() {
    let mut r = Roots::new();
    change_root(&mut r, &"/src/arceos".to_string());
    let ix = index();
    assert_eq!(find_arceos_crate(&r, &ix, &"axhal".to_string()), Some("/src/arceos/modules/axhal".to_string()));
    assert_eq!(find_arceos_crate(&r, &ix, &"libax".to_string()), Some("/src/arceos/ulib/libax".to_string()));
}

#[test]
fn manifest_path_joins_cargo_toml() {
    assert_eq!(manifest_path(&"apps/hello".to_string()), "apps/hello/Cargo.toml");
    assert_eq!(manifest_path(&"apps/hello/".to_string()), "apps/hello/Cargo.toml");
}

#[test]
fn config_defaults_for_a_tree_crate() {
    let c = match config_from_args(&args("axhal"), &Roots::new(), &index(), false) {
        Ok(c) => c,
        Err(e) => panic!("{}", e),
    };
    assert_eq!(c.crate_name, "axhal");
    assert_eq!(c.path, "../../modules/axhal");
    assert_eq!(c.features.len(), 0);
    assert!(!c.no_default);
    assert_eq!(c.parser, ParserType::ParseFromToml);
    assert_eq!(c.generator, GeneratorType::GenerateMermaid);
}

#[test]
fn config_with_given_path_and_options() {
    let mut a = args("hello");
    a.path = Some("apps/hello".to_string());
    a.features = Some("smp,fs,smp".to_string());
    a.no_default = true;
    a.from_cargo_tree = true;
    a.output_d2 = true;
    let c = match config_from_args(&a, &Roots::new(), &index(), true) {
        Ok(c) => c,
        Err(e) => panic!("{}", e),
    };
    assert_eq!(c.crate_name, "hello");
    assert_eq!(c.path, "apps/hello");
    assert_eq!(items(&c.features), vec!["fs", "smp"]);
    assert!(c.no_default);
    assert_eq!(c.parser, ParserType::ParseFromCargoTree);
    assert_eq!(c.generator, GeneratorType::GenerateD2);
}

#[test]
fn config_explicit_choices() {
    let mut a = args("axlog");
    a.from_toml = true;
    a.output_mermaid = true;
    a.features = Some(String::new());
    let c = match config_from_args(&a, &Roots::new(), &index(), false) {
        Ok(c) => c,
        Err(e) => panic!("{}", e),
    };
    assert_eq!(c.parser, ParserType::ParseFromToml);
    assert_eq!(c.generator, GeneratorType::GenerateMermaid);
    assert_eq!(items(&c.features), vec![""]);
    assert_eq!(c.path, "../../crates/axlog");
}

#[test]
fn config_error_missing_path() {
    let mut a = args("hello");
    a.path = Some("apps/none".to_string());
    a.from_toml = true;
    a.from_cargo_tree = true;
    assert_eq!(err_of(config_from_args(&a, &Roots::new(), &index(), false)), "Given path apps/none does not exist");
}

#[test]
fn config_error_unknown_crate() {
    assert_eq!(
        err_of(config_from_args(&args("serde"), &Roots::new(), &index(), true)),
        "serde is not an arceos crate or module"
    );
}

#[test]
fn config_error_two_parsers() {
    let mut a = args("axlog");
    a.from_toml = true;
    a.from_cargo_tree = true;
    a.output_mermaid = true;
    a.output_d2 = true;
    assert_eq!(err_of(config_from_args(&a, &Roots::new(), &index(), false)), "multiple parsers given");
}

#[test]
fn config_error_two_generators() {
    let mut a = args("axlog");
    a.output_mermaid = true;
    a.output_d2 = true;
    assert_eq!(err_of(config_from_args(&a, &Roots::new(), &index(), false)), "multiple generators given");
}
