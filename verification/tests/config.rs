use chaff::config::{
    build_globset, config_home_from, expand, ignore_lines, ignore_patterns, is_ignored, load, user_rules, Config,
    RawRule,
};
use chaff::rules::{match_dir, match_dir_with, UserRules};

fn gs(patterns: &[&str]) -> globset::GlobSet {
    build_globset(&patterns.iter().map(|s| s.to_string()).collect::<Vec<_>>()).0
}

fn strings(v: &toml::Value) -> Vec<String> {
    v.as_array().unwrap().iter().map(|x| x.as_str().unwrap().to_string()).collect()
}

/// Read a config file's TOML into a `Config` (missing keys take defaults).
fn config_from_toml(text: &str) -> Config {
    let t: toml::Table = text.parse().unwrap();
    let mut c = Config::default();
    if let Some(v) = t.get("older_than") {
        c.older_than = Some(v.as_str().unwrap().to_string());
    }
    if let Some(v) = t.get("caches") {
        c.caches = v.as_bool().unwrap();
    }
    if let Some(v) = t.get("ignore") {
        c.ignore = strings(v);
    }
    if let Some(v) = t.get("rule") {
        for r in v.as_array().unwrap() {
            let r = r.as_table().unwrap();
            let mut raw = RawRule::default();
            if let Some(x) = r.get("dir") {
                raw.dir = x.as_str().unwrap().to_string();
            }
            if let Some(x) = r.get("ecosystem") {
                raw.ecosystem = x.as_str().unwrap().to_string();
            }
            if let Some(x) = r.get("requires_marker") {
                raw.requires_marker = strings(x);
            }
            if let Some(x) = r.get("requires_marker_ext") {
                raw.requires_marker_ext = strings(x);
            }
            c.rules.push(raw);
        }
    }
    c
}

#[test]
fn bare_name_protects_dir_and_contents() {
    let set = gs(&["keepme"]);
    for p in ["/a/keepme", "/a/keepme/node_modules", "/a/b/keepme"] {
        assert!(is_ignored(&set, p), "should protect {p}");
    }
    assert!(!is_ignored(&set, "/a/src/node_modules"));
}

#[test]
fn wildcard_name_matches_at_depth() {
    let set = gs(&["cache*"]);
    assert!(is_ignored(&set, "/a/b/cachedir"));
    assert!(is_ignored(&set, "/a/b/cache-stuff/x"));
    let q = gs(&["temp?"]);
    assert!(is_ignored(&q, "/a/temp1"));
    assert!(!is_ignored(&q, "/a/temporary"));
}

#[test]
fn star_dir_star_protects_directory_itself() {
    let set = gs(&["**/vendor/**"]);
    assert!(is_ignored(&set, "/proj/vendor"), "dir itself");
    assert!(is_ignored(&set, "/proj/vendor/pkg"), "contents");
    assert!(!is_ignored(&set, "/proj/source"));
}

#[test]
fn trailing_slash_is_normalized() {
    let set = gs(&["node_modules/"]);
    assert!(is_ignored(&set, "/proj/node_modules"));
    assert!(is_ignored(&set, "/proj/node_modules/dep"));
}

#[test]
fn relative_subpath_matches_at_depth() {
    let set = gs(&["app/node_modules"]);
    assert!(is_ignored(&set, "/home/me/code/app/node_modules"));
}

#[test]
fn parses_toml_config() {
    let c = config_from_toml("older_than = \"30d\"\ncaches = true\nignore = [\"foo\"]");
    assert_eq!(c.older_than.as_deref(), Some("30d"));
    assert!(c.caches);
    assert_eq!(c.ignore, vec!["foo".to_string()]);
}

#[test]
fn parses_custom_rules() {
    let c = config_from_toml(
        "[[rule]]\ndir = \".mycache\"\necosystem = \"mine\"\nrequires_marker = [\"my.json\"]\n",
    );
    assert_eq!(c.rules.len(), 1);
    assert_eq!(c.rules[0].dir, ".mycache");
    assert_eq!(c.rules[0].ecosystem, "mine");
    assert_eq!(c.rules[0].requires_marker, vec!["my.json".to_string()]);

    // Conversion produces a usable rule that matches beside its marker.
    let (ur, _) = user_rules(&c.rules);
    let set = vec!["my.json".to_string()];
    assert!(match_dir_with(".mycache", &set, &ur).is_some());
}

#[test]
fn skips_custom_rule_with_empty_dir() {
    let c = config_from_toml("[[rule]]\ndir = \"\"\necosystem = \"x\"\n");
    assert!(user_rules(&c.rules).0.is_empty());
}

#[test]
fn custom_rule_fields_are_trimmed_and_defaulted() {
    let raw = vec![
        RawRule { dir: "  .gen  ".to_string(), ecosystem: "   ".to_string(), ..RawRule::default() },
        RawRule { dir: " ".to_string(), ecosystem: "x".to_string(), ..RawRule::default() },
    ];
    let (rules, skipped) = user_rules(&raw);
    assert_eq!(skipped, 1);
    assert_eq!(rules.len(), 1);
    assert_eq!(rules[0].dir, ".gen");
    assert_eq!(rules[0].ecosystem, "custom");
}

#[test]
fn expand_anchors_patterns() {
    assert_eq!(expand("keepme"), vec!["**/keepme".to_string(), "**/keepme/**".to_string()]);
    assert_eq!(expand(" build// "), vec!["**/build".to_string(), "**/build/**".to_string()]);
    assert_eq!(expand("**/fixtures/**"), vec!["**/fixtures".to_string(), "**/fixtures/**".to_string()]);
    assert_eq!(expand("/abs/dir"), vec!["/abs/dir".to_string(), "/abs/dir/**".to_string()]);
    assert!(expand("  /  ").is_empty());
    assert!(expand("/**").is_empty());
}

#[test]
fn invalid_pattern_is_reported() {
    let (set, invalid) = build_globset(&vec!["a[".to_string(), "keepme".to_string()]);
    assert_eq!(invalid.len(), 1);
    assert_eq!(invalid[0].pattern, "a[");
    assert!(is_ignored(&set, "/x/keepme"));
}

#[test]
fn ignore_file_lines_skip_comments_and_blanks() {
    let text = "# comment\n\n  keepme  \nbuild/\r\n   # also comment\napp/dist";
    assert_eq!(
        ignore_lines(text),
        vec!["keepme".to_string(), "build/".to_string(), "app/dist".to_string()]
    );
    assert!(ignore_lines("").is_empty());
}

#[test]
fn patterns_come_from_config_then_files() {
    let got = ignore_patterns(&vec!["cfg".to_string()], &vec!["a\n#x\nb".to_string(), "c".to_string()]);
    assert_eq!(got, vec!["cfg".to_string(), "a".to_string(), "b".to_string(), "c".to_string()]);
}

#[test]
fn config_home_prefers_xdg() {
    assert_eq!(config_home_from(Some("/x"), Some("/h")), Some("/x".to_string()));
    assert_eq!(config_home_from(Some(""), Some("/h")), Some("/h/.config".to_string()));
    assert_eq!(config_home_from(None, Some("/h/")), Some("/h/.config".to_string()));
    assert_eq!(config_home_from(None, None), None);
}

#[test]
fn load_registers_rules_and_compiles_ignores() {
    let mut c = config_from_toml("older_than = \"7d\"\nignore = [\"keepme\"]\n[[rule]]\ndir = \".gen\"\n");
    c.rules.push(RawRule::default());
    let mut reg = UserRules::new();
    let (settings, skipped, invalid) = load(c, &vec!["vendor/".to_string()], &mut reg);
    assert_eq!(settings.older_than.as_deref(), Some("7d"));
    assert!(!settings.caches);
    assert_eq!(skipped, 1);
    assert!(invalid.is_empty());
    assert!(is_ignored(&settings.ignore, "/p/keepme/x"));
    assert!(is_ignored(&settings.ignore, "/p/vendor"));
    assert!(!is_ignored(&settings.ignore, "/p/src"));
    assert_eq!(match_dir(".gen", &vec![], &reg).map(|r| r.ecosystem), Some("custom"));
}

#[test]
fn equivalent_pattern_spellings() {
    assert_eq!(expand("build/"), expand("build"));
    assert_eq!(expand("fixtures/**"), expand("fixtures"));
    assert_eq!(expand("**/fixtures/**"), expand("fixtures"));
    for p in ["keepme", "cache*", "app/dist", "/abs", "**/x"] {
        let g = expand(p);
        assert_eq!(g.len(), 2);
        assert_eq!(g[1], format!("{}/**", g[0]));
    }
}

#[test]
fn readme_ignore_example_with_inline_comments() {
    let text = "keepme            # protects every keepme/ dir and its contents\n\
build/            # trailing slash works (gitignore-style)\n\
app/dist          # sub-paths match at any depth\n\
**/fixtures/**    # explicit globs work too\n";
    assert_eq!(
        ignore_lines(text),
        vec!["keepme".to_string(), "build/".to_string(), "app/dist".to_string(), "**/fixtures/**".to_string()]
    );
    let mut reg = UserRules::new();
    let (settings, _, invalid) = load(Config::default(), &vec![text.to_string()], &mut reg);
    assert!(invalid.is_empty());
    for p in ["/a/keepme", "/a/keepme/x", "/p/build", "/home/me/app/dist", "/q/fixtures/f"] {
        assert!(is_ignored(&settings.ignore, p), "should protect {p}");
    }
    assert!(!is_ignored(&settings.ignore, "/a/src"));
}

#[test]
fn hash_without_leading_space_stays_in_pattern() {
    assert_eq!(ignore_lines("a#b\n  #whole line\nc\t# tab comment"), vec!["a#b".to_string(), "c".to_string()]);
}
