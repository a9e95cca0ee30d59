use chaff::rules::{match_dir, match_dir_with, rules, set_user_rules, user_rule, Rule, UserRules};

fn set(items: &[&str]) -> Vec<String> {
    items.iter().map(|s| s.to_string()).collect()
}

#[test]
fn node_modules_requires_package_json() {
    assert!(match_dir("node_modules", &set(&["package.json"]), &UserRules::new()).is_some());
    assert!(match_dir("node_modules", &set(&[]), &UserRules::new()).is_none());
}

#[test]
fn pycache_needs_no_marker() {
    assert!(match_dir("__pycache__", &set(&[]), &UserRules::new()).is_some());
}

#[test]
fn target_requires_cargo_toml() {
    assert!(match_dir("target", &set(&["Cargo.toml"]), &UserRules::new()).is_some());
    assert!(match_dir("target", &set(&["package.json"]), &UserRules::new()).is_none());
}

#[test]
fn unknown_dir_does_not_match() {
    assert!(match_dir("src", &set(&["Cargo.toml"]), &UserRules::new()).is_none());
}

#[test]
fn terraform_needs_no_marker() {
    assert!(match_dir(".terraform", &set(&[]), &UserRules::new()).is_some());
}

#[test]
fn cocoapods_requires_podfile() {
    assert!(match_dir("Pods", &set(&["Podfile"]), &UserRules::new()).is_some());
    assert!(match_dir("Pods", &set(&[]), &UserRules::new()).is_none());
}

#[test]
fn dotnet_bin_requires_project_file_by_extension() {
    assert!(match_dir("bin", &set(&["App.csproj"]), &UserRules::new()).is_some());
    assert!(match_dir("obj", &set(&["Solution.sln"]), &UserRules::new()).is_some());
    // a bare bin/ with no .NET project beside it is left alone
    assert!(match_dir("bin", &set(&["README.md"]), &UserRules::new()).is_none());
}

#[test]
fn elixir_deps_requires_mix_exs() {
    assert!(match_dir("deps", &set(&["mix.exs"]), &UserRules::new()).is_some());
    assert!(match_dir("deps", &set(&[]), &UserRules::new()).is_none());
}

#[test]
fn tool_caches_match_without_marker() {
    for d in [
        ".pytest_cache",
        ".mypy_cache",
        ".ruff_cache",
        ".tox",
        ".turbo",
        ".parcel-cache",
    ] {
        assert!(match_dir(d, &set(&[]), &UserRules::new()).is_some(), "{d} should match");
    }
}

#[test]
fn more_build_caches_match() {
    for d in [".angular", ".astro", ".docusaurus", ".nyc_output"] {
        assert!(match_dir(d, &set(&[]), &UserRules::new()).is_some(), "{d} should match");
    }
    // "coverage" needs a JS-project marker
    assert!(match_dir("coverage", &set(&["package.json"]), &UserRules::new()).is_some());
    assert!(match_dir("coverage", &set(&[]), &UserRules::new()).is_none());
}

#[test]
fn unambiguous_v07_caches_match_without_marker() {
    for d in [
        "elm-stuff",
        ".ipynb_checkpoints",
        ".hypothesis",
        "htmlcov",
        "cmake-build-debug",
        "cmake-build-release",
    ] {
        assert!(match_dir(d, &set(&[]), &UserRules::new()).is_some(), "{d} should match");
    }
}

#[test]
fn go_vendor_requires_go_mod() {
    assert!(match_dir("vendor", &set(&["go.mod"]), &UserRules::new()).is_some());
    // a bare vendor/ with no project marker is left alone
    assert!(match_dir("vendor", &set(&["README.md"]), &UserRules::new()).is_none());
}

#[test]
fn php_vendor_requires_composer_json() {
    assert!(match_dir("vendor", &set(&["composer.json"]), &UserRules::new()).is_some());
}

#[test]
fn maven_target_requires_pom_xml() {
    assert!(match_dir("target", &set(&["pom.xml"]), &UserRules::new()).is_some());
    // still matches Cargo projects, and still ignored without a marker
    assert!(match_dir("target", &set(&["Cargo.toml"]), &UserRules::new()).is_some());
    assert!(match_dir("target", &set(&[]), &UserRules::new()).is_none());
}

#[test]
fn storybook_static_requires_package_json() {
    assert!(match_dir("storybook-static", &set(&["package.json"]), &UserRules::new()).is_some());
    assert!(match_dir("storybook-static", &set(&[]), &UserRules::new()).is_none());
}

#[test]
fn unreal_dirs_require_uproject() {
    assert!(match_dir("Intermediate", &set(&["Game.uproject"]), &UserRules::new()).is_some());
    assert!(match_dir("DerivedDataCache", &set(&["Game.uproject"]), &UserRules::new()).is_some());
    assert!(match_dir("Intermediate", &set(&["README.md"]), &UserRules::new()).is_none());
}

#[test]
fn unambiguous_v08_caches_match_without_marker() {
    for d in [
        "nimcache",
        ".expo",
        ".godot",
        "dist-newstyle",
        ".bloop",
        ".metals",
        ".eggs",
    ] {
        assert!(match_dir(d, &set(&[]), &UserRules::new()).is_some(), "{d} should match");
    }
}

#[test]
fn ocaml_build_requires_dune_project() {
    assert!(match_dir("_build", &set(&["dune-project"]), &UserRules::new()).is_some());
    // still matches elixir projects, and stays gated otherwise
    assert!(match_dir("_build", &set(&["mix.exs"]), &UserRules::new()).is_some());
    assert!(match_dir("_build", &set(&["README.md"]), &UserRules::new()).is_none());
}

#[test]
fn sbt_target_requires_build_sbt() {
    assert!(match_dir("target", &set(&["build.sbt"]), &UserRules::new()).is_some());
}

#[test]
fn jekyll_site_requires_config() {
    assert!(match_dir("_site", &set(&["_config.yml"]), &UserRules::new()).is_some());
    assert!(match_dir("_site", &set(&[]), &UserRules::new()).is_none());
}

#[test]
fn user_rules_extend_matching_and_respect_markers() {
    let user = vec![user_rule(
        ".myframework".to_string(),
        "internal".to_string(),
        vec!["myframework.json".to_string()],
        vec![],
    )];
    // user rule matches only beside its marker
    let hit = match_dir_with(".myframework", &set(&["myframework.json"]), &user);
    assert_eq!(hit.map(|r| r.ecosystem), Some("internal"));
    assert!(match_dir_with(".myframework", &set(&[]), &user).is_none());
    // built-ins still match when user rules are present
    assert!(match_dir_with("__pycache__", &set(&[]), &user).is_some());
}

#[test]
fn builtins_win_over_user_rules() {
    let user = vec![user_rule("node_modules".to_string(), "mine".to_string(), vec![], vec![])];
    let hit = match_dir_with("node_modules", &set(&["package.json"]), &user);
    assert_eq!(hit.map(|r| r.ecosystem), Some("node"));
    // without the built-in's marker, the markerless user rule takes it
    let hit = match_dir_with("node_modules", &set(&[]), &user);
    assert_eq!(hit.map(|r| r.ecosystem), Some("mine"));
}

#[test]
fn registration_is_set_once() {
    let mut reg = UserRules::new();
    assert!(reg.rules().is_empty());
    set_user_rules(&mut reg, vec![user_rule(".a".to_string(), "first".to_string(), vec![], vec![])]);
    set_user_rules(&mut reg, vec![user_rule(".a".to_string(), "second".to_string(), vec![], vec![])]);
    assert_eq!(reg.rules().len(), 1);
    assert_eq!(match_dir(".a", &set(&[]), &reg).map(|r| r.ecosystem), Some("first"));
}

#[test]
fn marker_extension_matches_suffix() {
    let user: Vec<Rule> = vec![user_rule("out".to_string(), "x".to_string(), vec![], vec![".proj".to_string()])];
    assert!(match_dir_with("out", &set(&["a.proj"]), &user).is_some());
    assert!(match_dir_with("out", &set(&["a.proj.bak"]), &user).is_none());
    assert!(match_dir_with("ou", &set(&["a.proj"]), &user).is_none());
}

#[test]
fn builtin_table_has_the_documented_rules() {
    let all = rules();
    assert_eq!(all.len(), 55);
    assert_eq!(all[0].dir, "node_modules");
    assert!(all.iter().all(|r| !r.dir.is_empty() && !r.ecosystem.is_empty()));
}

#[test]
fn more_siblings_never_unmatch() {
    let reg = UserRules::new();
    assert!(match_dir("target", &set(&["Cargo.toml"]), &reg).is_some());
    assert!(match_dir("target", &set(&["Cargo.toml", "README.md", "x.txt"]), &reg).is_some());
    assert!(match_dir("target", &set(&[]), &reg).is_none());
}

#[test]
fn names_compare_exactly() {
    let reg = UserRules::new();
    assert!(match_dir("node_module", &set(&["package.json"]), &reg).is_none());
    assert!(match_dir("node_modules", &set(&["package.jso"]), &reg).is_none());
    assert!(match_dir("bin", &set(&["csproj"]), &reg).is_none());
    assert!(match_dir("bin", &set(&[".csproj"]), &reg).is_some());
}
