use chaff::rules::{set_user_rules, user_rule, UserRules};
use chaff::scan::{classify, siblings_of, skip_dir, EntryInfo, Visit};

fn dir(name: &str) -> EntryInfo {
    EntryInfo { name: name.to_string(), is_dir: true, is_file: false }
}

fn file(name: &str) -> EntryInfo {
    EntryInfo { name: name.to_string(), is_dir: false, is_file: true }
}

fn link(name: &str) -> EntryInfo {
    EntryInfo { name: name.to_string(), is_dir: false, is_file: false }
}

#[test]
fn classifies_project_listing() {
    let entries = vec![file("package.json"), dir("node_modules"), dir("src"), dir(".git"), link("target")];
    let reg = UserRules::new();
    let v = classify(&entries, &reg);
    assert!(matches!(v[0], Visit::Skip));
    match &v[1] {
        Visit::Artifact(r) => assert_eq!(r.dir, "node_modules"),
        _ => panic!("node_modules should be an artifact"),
    }
    assert!(matches!(v[2], Visit::Descend));
    assert!(matches!(v[3], Visit::Skip));
    assert!(matches!(v[4], Visit::Skip));
}

#[test]
fn markerless_target_is_descended_into() {
    let entries = vec![dir("target"), file("notes.txt")];
    let reg = UserRules::new();
    let v = classify(&entries, &reg);
    assert!(matches!(v[0], Visit::Descend));
    let entries = vec![dir("target"), file("Cargo.toml")];
    let v = classify(&entries, &reg);
    assert!(matches!(v[0], Visit::Artifact(r) if r.ecosystem == "rust"));
}

#[test]
fn directories_do_not_count_as_markers() {
    let entries = vec![dir("Cargo.toml"), dir("target")];
    let reg = UserRules::new();
    let v = classify(&entries, &reg);
    assert!(matches!(v[1], Visit::Descend));
    assert_eq!(siblings_of(&entries), Vec::<String>::new());
}

#[test]
fn version_control_dirs_are_never_touched() {
    let mut reg = UserRules::new();
    set_user_rules(&mut reg, vec![user_rule(".hg".to_string(), "x".to_string(), vec![], vec![])]);
    let v = classify(&vec![dir(".hg"), dir(".svn")], &reg);
    assert!(matches!(v[0], Visit::Skip));
    assert!(matches!(v[1], Visit::Skip));
    assert!(skip_dir(".git") && skip_dir(".hg") && skip_dir(".svn"));
    assert!(!skip_dir(".github"));
}
