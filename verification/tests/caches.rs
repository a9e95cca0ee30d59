use chaff::caches::{cache_item, caches, pick_caches};

fn flags(present: &[(&str, &str)]) -> Vec<Vec<bool>> {
    caches()
        .iter()
        .map(|d| d.rel.iter().map(|r| present.iter().any(|(t, p)| *t == d.tool && p == r)).collect())
        .collect()
}

#[test]
fn first_present_location_wins() {
    let f = flags(&[("pip", ".cache/pip"), ("cargo", ".cargo/registry/cache"), ("deno", ".cache/deno"), ("deno", ".deno")]);
    let hits = pick_caches(&f);
    assert_eq!(hits, vec![(".cache/pip", "pip"), (".cargo/registry/cache", "cargo"), (".cache/deno", "deno")]);
}

#[test]
fn nothing_present_finds_nothing() {
    assert!(pick_caches(&flags(&[])).is_empty());
}

#[test]
fn table_lists_known_tools() {
    let tools: Vec<&str> = caches().iter().map(|d| d.tool).collect();
    assert_eq!(
        tools,
        vec![
            "npm", "pnpm", "yarn", "pip", "uv", "cargo", "go", "go-mod", "gradle", "maven", "huggingface", "xcode",
            "homebrew", "deno", "composer"
        ]
    );
}

#[test]
fn cache_items_are_in_the_cache_ecosystem() {
    let it = cache_item("/h/.cache/pip".to_string(), "pip", 42, None);
    assert_eq!(it.ecosystem, "cache");
    assert_eq!(it.label, "pip");
    assert_eq!(it.size, 42);
    assert_eq!(it.path, "/h/.cache/pip");
}
