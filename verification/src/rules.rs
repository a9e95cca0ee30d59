//! Ecosystem definitions: which directory names are regenerable artifacts, and
//! which sibling files must be present before an ambiguous name is trusted.

use vstd::prelude::*;
use crate::text::{chars_of, ends_with_seq, matches_at};

verus! {

/// A removable, regenerable artifact directory.
///
/// A directory matches when its name equals `dir` and, if a marker is required,
/// a sibling file satisfies it: either an exact name in `requires_marker` or a
/// suffix in `requires_marker_ext` (e.g. ".csproj"). Empty marker lists mean the
/// directory name alone is unambiguous (e.g. `__pycache__`); ambiguous names like
/// `bin`/`obj`/`deps` are gated by a marker so the wrong folder is never touched.
pub struct Rule {
    pub dir: &'static str,
    pub ecosystem: &'static str,
    pub requires_marker: &'static [&'static str],
    pub requires_marker_ext: &'static [&'static str],
}

/// Builds a [`Rule`] value (used to write the built-in table in specifications).
pub open spec fn rule(
    dir: &'static str,
    ecosystem: &'static str,
    requires_marker: &'static [&'static str],
    requires_marker_ext: &'static [&'static str],
) -> Rule {
    Rule { dir, ecosystem, requires_marker, requires_marker_ext }
}

/// The built-in rules, in priority order.
pub open spec fn builtin_rules() -> Seq<Rule> {
    seq![
        rule("node_modules", "node", &["package.json"], &[]),
        rule("target", "rust", &["Cargo.toml"], &[]),
        rule(".venv", "python", &[], &[]),
        rule("venv", "python", &[], &[]),
        rule("__pycache__", "python", &[], &[]),
        rule(".next", "next.js", &[], &[]),
        rule(".nuxt", "nuxt", &[], &[]),
        rule(".svelte-kit", "svelte", &[], &[]),
        rule(".gradle", "gradle", &[], &[]),
        rule(".dart_tool", "dart", &[], &[]),
        rule("dist", "js", &["package.json"], &[]),
        rule("build", "build", &["package.json", "build.gradle", "CMakeLists.txt"], &[]),
        rule(".terraform", "terraform", &[], &[]),
        rule("Pods", "cocoapods", &["Podfile"], &[]),
        rule(".stack-work", "haskell", &[], &[]),
        rule(".build", "swift", &["Package.swift"], &[]),
        rule("_build", "elixir", &["mix.exs"], &[]),
        rule("deps", "elixir", &["mix.exs"], &[]),
        rule("zig-cache", "zig", &[], &[]),
        rule("zig-out", "zig", &["build.zig"], &[]),
        rule("bin", "dotnet", &[], &[".csproj", ".fsproj", ".vbproj", ".sln"]),
        rule("obj", "dotnet", &[], &[".csproj", ".fsproj", ".vbproj", ".sln"]),
        rule(".pytest_cache", "python", &[], &[]),
        rule(".mypy_cache", "python", &[], &[]),
        rule(".ruff_cache", "python", &[], &[]),
        rule(".tox", "python", &[], &[]),
        rule(".turbo", "turbo", &[], &[]),
        rule(".parcel-cache", "parcel", &[], &[]),
        rule(".angular", "angular", &[], &[]),
        rule(".astro", "astro", &[], &[]),
        rule(".docusaurus", "docusaurus", &[], &[]),
        rule(".nyc_output", "coverage", &[], &[]),
        rule("coverage", "coverage", &["package.json"], &[]),
        rule("elm-stuff", "elm", &[], &[]),
        rule(".ipynb_checkpoints", "jupyter", &[], &[]),
        rule(".hypothesis", "python", &[], &[]),
        rule("htmlcov", "coverage", &[], &[]),
        rule("cmake-build-debug", "cmake", &[], &[]),
        rule("cmake-build-release", "cmake", &[], &[]),
        rule("storybook-static", "storybook", &["package.json"], &[]),
        rule("vendor", "go", &["go.mod"], &[]),
        rule("vendor", "php", &["composer.json"], &[]),
        rule("target", "maven", &["pom.xml"], &[]),
        rule("Intermediate", "unreal", &[], &[".uproject"]),
        rule("DerivedDataCache", "unreal", &[], &[".uproject"]),
        rule("nimcache", "nim", &[], &[]),
        rule(".expo", "expo", &[], &[]),
        rule(".godot", "godot", &[], &[]),
        rule("dist-newstyle", "haskell", &[], &[]),
        rule(".bloop", "scala", &[], &[]),
        rule(".metals", "scala", &[], &[]),
        rule(".eggs", "python", &[], &[]),
        rule("_build", "ocaml", &["dune-project"], &[]),
        rule("target", "sbt", &["build.sbt"], &[]),
        rule("_site", "jekyll", &["_config.yml"], &[]),
    ]
}

/// The built-in rules, in priority order.
pub fn rules() -> (r: &'static [Rule])
    ensures
        r@ == builtin_rules(),
{
    let r: &'static [Rule] = &[
        Rule { dir: "node_modules", ecosystem: "node", requires_marker: &["package.json"], requires_marker_ext: &[] },
        Rule { dir: "target", ecosystem: "rust", requires_marker: &["Cargo.toml"], requires_marker_ext: &[] },
        Rule { dir: ".venv", ecosystem: "python", requires_marker: &[], requires_marker_ext: &[] },
        Rule { dir: "venv", ecosystem: "python", requires_marker: &[], requires_marker_ext: &[] },
        Rule { dir: "__pycache__", ecosystem: "python", requires_marker: &[], requires_marker_ext: &[] },
        Rule { dir: ".next", ecosystem: "next.js", requires_marker: &[], requires_marker_ext: &[] },
        Rule { dir: ".nuxt", ecosystem: "nuxt", requires_marker: &[], requires_marker_ext: &[] },
        Rule { dir: ".svelte-kit", ecosystem: "svelte", requires_marker: &[], requires_marker_ext: &[] },
        Rule { dir: ".gradle", ecosystem: "gradle", requires_marker: &[], requires_marker_ext: &[] },
        Rule { dir: ".dart_tool", ecosystem: "dart", requires_marker: &[], requires_marker_ext: &[] },
        Rule { dir: "dist", ecosystem: "js", requires_marker: &["package.json"], requires_marker_ext: &[] },
        Rule { dir: "build", ecosystem: "build", requires_marker: &["package.json", "build.gradle", "CMakeLists.txt"], requires_marker_ext: &[] },
        Rule { dir: ".terraform", ecosystem: "terraform", requires_marker: &[], requires_marker_ext: &[] },
        Rule { dir: "Pods", ecosystem: "cocoapods", requires_marker: &["Podfile"], requires_marker_ext: &[] },
        Rule { dir: ".stack-work", ecosystem: "haskell", requires_marker: &[], requires_marker_ext: &[] },
        Rule { dir: ".build", ecosystem: "swift", requires_marker: &["Package.swift"], requires_marker_ext: &[] },
        Rule { dir: "_build", ecosystem: "elixir", requires_marker: &["mix.exs"], requires_marker_ext: &[] },
        Rule { dir: "deps", ecosystem: "elixir", requires_marker: &["mix.exs"], requires_marker_ext: &[] },
        Rule { dir: "zig-cache", ecosystem: "zig", requires_marker: &[], requires_marker_ext: &[] },
        Rule { dir: "zig-out", ecosystem: "zig", requires_marker: &["build.zig"], requires_marker_ext: &[] },
        Rule { dir: "bin", ecosystem: "dotnet", requires_marker: &[], requires_marker_ext: &[".csproj", ".fsproj", ".vbproj", ".sln"] },
        Rule { dir: "obj", ecosystem: "dotnet", requires_marker: &[], requires_marker_ext: &[".csproj", ".fsproj", ".vbproj", ".sln"] },
        Rule { dir: ".pytest_cache", ecosystem: "python", requires_marker: &[], requires_marker_ext: &[] },
        Rule { dir: ".mypy_cache", ecosystem: "python", requires_marker: &[], requires_marker_ext: &[] },
        Rule { dir: ".ruff_cache", ecosystem: "python", requires_marker: &[], requires_marker_ext: &[] },
        Rule { dir: ".tox", ecosystem: "python", requires_marker: &[], requires_marker_ext: &[] },
        Rule { dir: ".turbo", ecosystem: "turbo", requires_marker: &[], requires_marker_ext: &[] },
        Rule { dir: ".parcel-cache", ecosystem: "parcel", requires_marker: &[], requires_marker_ext: &[] },
        Rule { dir: ".angular", ecosystem: "angular", requires_marker: &[], requires_marker_ext: &[] },
        Rule { dir: ".astro", ecosystem: "astro", requires_marker: &[], requires_marker_ext: &[] },
        Rule { dir: ".docusaurus", ecosystem: "docusaurus", requires_marker: &[], requires_marker_ext: &[] },
        Rule { dir: ".nyc_output", ecosystem: "coverage", requires_marker: &[], requires_marker_ext: &[] },
        Rule { dir: "coverage", ecosystem: "coverage", requires_marker: &["package.json"], requires_marker_ext: &[] },
        Rule { dir: "elm-stuff", ecosystem: "elm", requires_marker: &[], requires_marker_ext: &[] },
        Rule { dir: ".ipynb_checkpoints", ecosystem: "jupyter", requires_marker: &[], requires_marker_ext: &[] },
        Rule { dir: ".hypothesis", ecosystem: "python", requires_marker: &[], requires_marker_ext: &[] },
        Rule { dir: "htmlcov", ecosystem: "coverage", requires_marker: &[], requires_marker_ext: &[] },
        Rule { dir: "cmake-build-debug", ecosystem: "cmake", requires_marker: &[], requires_marker_ext: &[] },
        Rule { dir: "cmake-build-release", ecosystem: "cmake", requires_marker: &[], requires_marker_ext: &[] },
        Rule { dir: "storybook-static", ecosystem: "storybook", requires_marker: &["package.json"], requires_marker_ext: &[] },
        Rule { dir: "vendor", ecosystem: "go", requires_marker: &["go.mod"], requires_marker_ext: &[] },
        Rule { dir: "vendor", ecosystem: "php", requires_marker: &["composer.json"], requires_marker_ext: &[] },
        Rule { dir: "target", ecosystem: "maven", requires_marker: &["pom.xml"], requires_marker_ext: &[] },
        Rule { dir: "Intermediate", ecosystem: "unreal", requires_marker: &[], requires_marker_ext: &[".uproject"] },
        Rule { dir: "DerivedDataCache", ecosystem: "unreal", requires_marker: &[], requires_marker_ext: &[".uproject"] },
        Rule { dir: "nimcache", ecosystem: "nim", requires_marker: &[], requires_marker_ext: &[] },
        Rule { dir: ".expo", ecosystem: "expo", requires_marker: &[], requires_marker_ext: &[] },
        Rule { dir: ".godot", ecosystem: "godot", requires_marker: &[], requires_marker_ext: &[] },
        Rule { dir: "dist-newstyle", ecosystem: "haskell", requires_marker: &[], requires_marker_ext: &[] },
        Rule { dir: ".bloop", ecosystem: "scala", requires_marker: &[], requires_marker_ext: &[] },
        Rule { dir: ".metals", ecosystem: "scala", requires_marker: &[], requires_marker_ext: &[] },
        Rule { dir: ".eggs", ecosystem: "python", requires_marker: &[], requires_marker_ext: &[] },
        Rule { dir: "_build", ecosystem: "ocaml", requires_marker: &["dune-project"], requires_marker_ext: &[] },
        Rule { dir: "target", ecosystem: "sbt", requires_marker: &["build.sbt"], requires_marker_ext: &[] },
        Rule { dir: "_site", ecosystem: "jekyll", requires_marker: &["_config.yml"], requires_marker_ext: &[] },
    ];
    assert(r@ =~= builtin_rules());
    r
}

/// The names of a list of sibling files, as character sequences.
pub open spec fn names_view(names: Seq<String>) -> Seq<Seq<char>> {
    names.map_values(|s: String| s@)
}

/// Whether some sibling is exactly the marker `m`.
pub open spec fn has_marker(siblings: Seq<Seq<char>>, m: Seq<char>) -> bool {
    exists|j: int| 0 <= j < siblings.len() && siblings[j] == m
}

/// Whether some sibling ends with the extension `ext`.
pub open spec fn has_marker_ext(siblings: Seq<Seq<char>>, ext: Seq<char>) -> bool {
    exists|j: int| 0 <= j < siblings.len() && ends_with_seq(siblings[j], ext)
}

/// Whether the rule's marker requirement holds among `siblings`: no marker is
/// required, or some required marker is a sibling, or some sibling ends with a
/// required extension.
pub open spec fn marker_ok(r: Rule, siblings: Seq<Seq<char>>) -> bool {
    ||| (r.requires_marker@.len() == 0 && r.requires_marker_ext@.len() == 0)
    ||| exists|i: int|
        0 <= i < r.requires_marker@.len() && has_marker(siblings, #[trigger] r.requires_marker@[i]@)
    ||| exists|i: int|
        0 <= i < r.requires_marker_ext@.len() && has_marker_ext(
            siblings,
            #[trigger] r.requires_marker_ext@[i]@,
        )
}

/// Whether rule `r` claims a directory called `name` beside `siblings`.
pub open spec fn rule_matches(r: Rule, name: Seq<char>, siblings: Seq<Seq<char>>) -> bool {
    r.dir@ == name && marker_ok(r, siblings)
}

/// Index of the first rule at or after `i` that matches (or `rs.len()`).
pub open spec fn first_match_from(rs: Seq<Rule>, i: int, name: Seq<char>, siblings: Seq<Seq<char>>) -> int
    decreases rs.len() - i,
{
    if 0 <= i < rs.len() {
        if rule_matches(rs[i], name, siblings) {
            i
        } else {
            first_match_from(rs, i + 1, name, siblings)
        }
    } else {
        i
    }
}

/// The first rule of `rs` that matches, if any.
pub open spec fn first_match(rs: Seq<Rule>, name: Seq<char>, siblings: Seq<Seq<char>>) -> Option<Rule> {
    let i = first_match_from(rs, 0, name, siblings);
    if i < rs.len() {
        Some(rs[i])
    } else {
        None
    }
}

/// The rule that claims `name` beside `siblings`: the first matching built-in,
/// else the first matching user rule.
pub open spec fn spec_match_dir(name: Seq<char>, siblings: Seq<Seq<char>>, user: Seq<Rule>) -> Option<Rule> {
    match first_match(builtin_rules(), name, siblings) {
        Some(r) => Some(r),
        None => first_match(user, name, siblings),
    }
}

pub proof fn lemma_first_match_from(rs: Seq<Rule>, i: int, name: Seq<char>, siblings: Seq<Seq<char>>)
    requires
        0 <= i <= rs.len(),
    ensures
        i <= first_match_from(rs, i, name, siblings) <= rs.len(),
        forall|k: int| i <= k < first_match_from(rs, i, name, siblings) ==> !rule_matches(#[trigger] rs[k], name, siblings),
        first_match_from(rs, i, name, siblings) < rs.len() ==> rule_matches(
            rs[first_match_from(rs, i, name, siblings)],
            name,
            siblings,
        ),
    decreases rs.len() - i,
{
    if i < rs.len() && !rule_matches(rs[i], name, siblings) {
        lemma_first_match_from(rs, i + 1, name, siblings);
    }
}

/// Whether two strings hold the same characters.
pub fn str_eq(a: &str, b: &str) -> (r: bool)
    ensures
        r == (a@ == b@),
{
    let ac = chars_of(a);
    let bc = chars_of(b);
    if ac.len() != bc.len() {
        return false;
    }
    let r = matches_at(&ac, &bc, 0);
    assert(ac@.subrange(0, bc@.len() as int) =~= ac@);
    r
}

/// Whether `pat` is a suffix of `s`.
pub fn str_ends_with(s: &str, pat: &str) -> (r: bool)
    ensures
        r == ends_with_seq(s@, pat@),
{
    let sc = chars_of(s);
    let pc = chars_of(pat);
    if pc.len() > sc.len() {
        return false;
    }
    matches_at(&sc, &pc, sc.len() - pc.len())
}

/// Whether `m` is one of `siblings`.
fn contains_name(siblings: &Vec<String>, m: &str) -> (r: bool)
    ensures
        r == has_marker(names_view(siblings@), m@),
{
    let mut j: usize = 0;
    while j < siblings.len()
        invariant
            j <= siblings.len(),
            forall|k: int| 0 <= k < j ==> siblings@[k]@ != m@,
        decreases siblings.len() - j,
    {
        if str_eq(siblings[j].as_str(), m) {
            assert(names_view(siblings@)[j as int] == m@);
            return true;
        }
        j = j + 1;
    }
    false
}

/// Whether some sibling ends with `ext`.
fn any_ends_with(siblings: &Vec<String>, ext: &str) -> (r: bool)
    ensures
        r == has_marker_ext(names_view(siblings@), ext@),
{
    let mut j: usize = 0;
    while j < siblings.len()
        invariant
            j <= siblings.len(),
            forall|k: int| 0 <= k < j ==> !ends_with_seq(#[trigger] siblings@[k]@, ext@),
        decreases siblings.len() - j,
    {
        if str_ends_with(siblings[j].as_str(), ext) {
            assert(names_view(siblings@)[j as int] == siblings@[j as int]@);
            return true;
        }
        j = j + 1;
    }
    assert forall|k: int| 0 <= k < siblings@.len() implies !ends_with_seq(
        #[trigger] names_view(siblings@)[k],
        ext@,
    ) by {
        assert(names_view(siblings@)[k] == siblings@[k]@);
    }
    false
}

/// Whether the marker requirement of `r` holds among `siblings`.
pub fn marker_satisfied(r: &Rule, siblings: &Vec<String>) -> (b: bool)
    ensures
        b == marker_ok(*r, names_view(siblings@)),
{
    if r.requires_marker.len() == 0 && r.requires_marker_ext.len() == 0 {
        return true;
    }
    let mut i: usize = 0;
    while i < r.requires_marker.len()
        invariant
            i <= r.requires_marker@.len(),
            forall|k: int| 0 <= k < i ==> !has_marker(names_view(siblings@), #[trigger] r.requires_marker@[k]@),
        decreases r.requires_marker@.len() - i,
    {
        if contains_name(siblings, r.requires_marker[i]) {
            return true;
        }
        i = i + 1;
    }
    let mut i: usize = 0;
    while i < r.requires_marker_ext.len()
        invariant
            i <= r.requires_marker_ext@.len(),
            forall|k: int| 0 <= k < r.requires_marker@.len() ==> !has_marker(names_view(siblings@), #[trigger] r.requires_marker@[k]@),
            forall|k: int| 0 <= k < i ==> !has_marker_ext(names_view(siblings@), #[trigger] r.requires_marker_ext@[k]@),
        decreases r.requires_marker_ext@.len() - i,
    {
        if any_ends_with(siblings, r.requires_marker_ext[i]) {
            return true;
        }
        i = i + 1;
    }
    false
}

/// Index of the first rule of `rs` that claims `name` beside `siblings`, or
/// `rs.len()`.
fn find_rule(rs: &[Rule], name: &str, siblings: &Vec<String>) -> (r: usize)
    ensures
        r as int == first_match_from(rs@, 0, name@, names_view(siblings@)),
{
    let mut i: usize = 0;
    while i < rs.len()
        invariant
            i <= rs@.len(),
            first_match_from(rs@, 0, name@, names_view(siblings@)) == first_match_from(
                rs@,
                i as int,
                name@,
                names_view(siblings@),
            ),
        decreases rs@.len() - i,
    {
        if str_eq(rs[i].dir, name) && marker_satisfied(&rs[i], siblings) {
            return i;
        }
        i = i + 1;
    }
    i
}

/// Match against the built-ins plus an explicit slice of `user` rules: the
/// first built-in that claims the directory wins, then the first user rule.
pub fn match_dir_with<'a>(name: &str, siblings: &Vec<String>, user: &'a [Rule]) -> (r: Option<&'a Rule>)
    ensures
        match r {
            Some(x) => spec_match_dir(name@, names_view(siblings@), user@) == Some(*x),
            None => spec_match_dir(name@, names_view(siblings@), user@) is None,
        },
{
    let builtins: &'static [Rule] = rules();
    let i = find_rule(builtins, name, siblings);
    if i < builtins.len() {
        return Some(&builtins[i]);
    }
    let j = find_rule(user, name, siblings);
    if j < user.len() {
        Some(&user[j])
    } else {
        None
    }
}

/// The strings of a slice of `&str`, as character sequences.
pub open spec fn strs_view(s: Seq<&'static str>) -> Seq<Seq<char>> {
    s.map_values(|x: &'static str| x@)
}

/// Calls `String::leak`: the string's storage lives for the rest of the
/// process and the returned slice holds the same characters.
#[verifier::external_body]
fn leak_string(s: String) -> (r: &'static str)
    ensures
        r@ == s@,
{
    s.leak()
}

/// Calls `Vec::leak`: the vector's storage lives for the rest of the process
/// and the returned slice holds the same elements in the same order.
#[verifier::external_body]
fn leak_vec(v: Vec<&'static str>) -> (r: &'static [&'static str])
    ensures
        r@ == v@,
{
    v.leak()
}

/// Turn an owned string into a `'static` one. Intended to run once per user
/// rule at startup, so the storage lives for the process.
pub fn leak_str(s: String) -> (r: &'static str)
    ensures
        r@ == s@,
{
    leak_string(s)
}

/// Turn owned strings into a `'static` slice of `'static` strings, in order.
pub fn leak_slice(items: Vec<String>) -> (r: &'static [&'static str])
    ensures
        strs_view(r@) == names_view(items@),
{
    let mut out: Vec<&'static str> = Vec::new();
    let mut i: usize = 0;
    while i < items.len()
        invariant
            i <= items@.len(),
            strs_view(out@) == names_view(items@.subrange(0, i as int)),
        decreases items@.len() - i,
    {
        let c = items[i].clone();
        let s = leak_str(c);
        let ghost prev = out@;
        out.push(s);
        assert(out@ == prev.push(s));
        assert(s@ == items@[i as int]@);
        assert(items@.subrange(0, i + 1) == items@.subrange(0, i as int).push(items@[i as int]));
        assert(strs_view(out@) =~= strs_view(prev).push(s@));
        assert(names_view(items@.subrange(0, i + 1)) =~= names_view(items@.subrange(0, i as int)).push(items@[i as int]@));
        i = i + 1;
    }
    assert(items@.subrange(0, i as int) =~= items@);
    leak_vec(out)
}

/// Build a [`Rule`] from owned strings (a user rule from config), leaking them
/// to `'static`. Intended to run once at startup, so the leak lives for the
/// process.
pub fn user_rule(
    dir: String,
    ecosystem: String,
    requires_marker: Vec<String>,
    requires_marker_ext: Vec<String>,
) -> (r: Rule)
    ensures
        r.dir@ == dir@,
        r.ecosystem@ == ecosystem@,
        strs_view(r.requires_marker@) == names_view(requires_marker@),
        strs_view(r.requires_marker_ext@) == names_view(requires_marker_ext@),
{
    Rule {
        dir: leak_str(dir),
        ecosystem: leak_str(ecosystem),
        requires_marker: leak_slice(requires_marker),
        requires_marker_ext: leak_slice(requires_marker_ext),
    }
}

/// The user-defined rules from config. Registration is set-once: the first
/// call of [`set_user_rules`] wins and later calls are ignored.
pub struct UserRules {
    rules: Option<Vec<Rule>>,
}

impl View for UserRules {
    type V = Option<Seq<Rule>>;

    closed spec fn view(&self) -> Option<Seq<Rule>> {
        match self.rules {
            Some(v) => Some(v@),
            None => None,
        }
    }
}

/// The rules that a registry holds (none before registration).
pub open spec fn registered(v: Option<Seq<Rule>>) -> Seq<Rule> {
    match v {
        Some(s) => s,
        None => seq![],
    }
}

impl UserRules {
    /// A registry with nothing registered yet.
    pub fn new() -> (r: Self)
        ensures
            r@ is None,
    {
        UserRules { rules: None }
    }

    /// The registered rules, in registration order.
    pub fn rules(&self) -> (r: &[Rule])
        ensures
            r@ == registered(self@),
    {
        match &self.rules {
            Some(v) => v.as_slice(),
            None => &[],
        }
    }
}

/// Register user-defined rules (from `config.toml`). Call once at startup;
/// later calls are ignored.
pub fn set_user_rules(registry: &mut UserRules, rules: Vec<Rule>)
    ensures
        final(registry)@ == (match old(registry)@ {
            None => Some(rules@),
            Some(s) => Some(s),
        }),
{
    if registry.rules.is_none() {
        registry.rules = Some(rules);
    }
}

/// Return the matching rule for directory `name`: built-ins first, then any
/// registered user rules.
pub fn match_dir<'a>(name: &str, siblings: &Vec<String>, registry: &'a UserRules) -> (r: Option<&'a Rule>)
    ensures
        match r {
            Some(x) => spec_match_dir(name@, names_view(siblings@), registered(registry@)) == Some(*x),
            None => spec_match_dir(name@, names_view(siblings@), registered(registry@)) is None,
        },
{
    match_dir_with(name, siblings, registry.rules())
}

// ---------------------------------------------------------------------------
// Laws of matching
// ---------------------------------------------------------------------------

proof fn lemma_first_match(rs: Seq<Rule>, name: Seq<char>, siblings: Seq<Seq<char>>)
    ensures
        match first_match(rs, name, siblings) {
            Some(r) => rule_matches(r, name, siblings) && exists|k: int| 0 <= k < rs.len() && rs[k] == r,
            None => forall|k: int| 0 <= k < rs.len() ==> !rule_matches(#[trigger] rs[k], name, siblings),
        },
{
    lemma_first_match_from(rs, 0, name, siblings);
    let i = first_match_from(rs, 0, name, siblings);
    if i < rs.len() {
        assert(rs[i] == rs[i]);
    }
}

/// A directory is claimed exactly when some rule, built-in or user, has its
/// name and sees its marker requirement met; the claiming rule is one of
/// them and meets both conditions.
pub proof fn law_match_sound_and_complete(name: Seq<char>, siblings: Seq<Seq<char>>, user: Seq<Rule>)
    ensures
        match spec_match_dir(name, siblings, user) {
            Some(r) => rule_matches(r, name, siblings) && ((exists|k: int|
                0 <= k < builtin_rules().len() && builtin_rules()[k] == r) || (exists|k: int|
                0 <= k < user.len() && user[k] == r)),
            None => (forall|k: int|
                0 <= k < builtin_rules().len() ==> !rule_matches(#[trigger] builtin_rules()[k], name, siblings))
                && (forall|k: int| 0 <= k < user.len() ==> !rule_matches(#[trigger] user[k], name, siblings)),
        },
{
    lemma_first_match(builtin_rules(), name, siblings);
    lemma_first_match(user, name, siblings);
}

/// Built-in rules take priority: when a built-in claims a directory, the
/// user rules make no difference to the answer.
pub proof fn law_builtins_first(name: Seq<char>, siblings: Seq<Seq<char>>, user1: Seq<Rule>, user2: Seq<Rule>)
    requires
        exists|k: int| 0 <= k < builtin_rules().len() && rule_matches(builtin_rules()[k], name, siblings),
    ensures
        spec_match_dir(name, siblings, user1) == spec_match_dir(name, siblings, user2),
        spec_match_dir(name, siblings, user1) == first_match(builtin_rules(), name, siblings),
{
    lemma_first_match(builtin_rules(), name, siblings);
}

/// With no custom rules registered, matching is the built-in table alone.
pub proof fn law_no_user_rules(name: Seq<char>, siblings: Seq<Seq<char>>)
    ensures
        spec_match_dir(name, siblings, Seq::<Rule>::empty()) == first_match(builtin_rules(), name, siblings),
{
    lemma_first_match(Seq::<Rule>::empty(), name, siblings);
}

/// Whether every name of `s1` is also in `s2`.
pub open spec fn includes_all(s2: Seq<Seq<char>>, s1: Seq<Seq<char>>) -> bool {
    forall|i: int| 0 <= i < s1.len() ==> has_marker(s2, #[trigger] s1[i])
}

proof fn lemma_marker_ok_mono(r: Rule, s1: Seq<Seq<char>>, s2: Seq<Seq<char>>)
    requires
        includes_all(s2, s1),
        marker_ok(r, s1),
    ensures
        marker_ok(r, s2),
{
    if r.requires_marker@.len() == 0 && r.requires_marker_ext@.len() == 0 {
    } else if exists|i: int| 0 <= i < r.requires_marker@.len() && has_marker(s1, #[trigger] r.requires_marker@[i]@) {
        let i = choose|i: int| 0 <= i < r.requires_marker@.len() && has_marker(s1, #[trigger] r.requires_marker@[i]@);
        let a = choose|a: int| 0 <= a < s1.len() && s1[a] == r.requires_marker@[i]@;
        assert(has_marker(s2, s1[a]));
        assert(has_marker(s2, r.requires_marker@[i]@));
    } else {
        let i = choose|i: int|
            0 <= i < r.requires_marker_ext@.len() && has_marker_ext(s1, #[trigger] r.requires_marker_ext@[i]@);
        let a = choose|a: int| 0 <= a < s1.len() && ends_with_seq(s1[a], r.requires_marker_ext@[i]@);
        assert(has_marker(s2, s1[a]));
        let b = choose|b: int| 0 <= b < s2.len() && s2[b] == s1[a];
        assert(has_marker_ext(s2, r.requires_marker_ext@[i]@));
    }
}

/// More sibling files never un-claim a directory: if it is claimed beside
/// `s1`, it is claimed beside any `s2` that holds every name of `s1`.
pub proof fn law_more_siblings(name: Seq<char>, s1: Seq<Seq<char>>, s2: Seq<Seq<char>>, user: Seq<Rule>)
    requires
        includes_all(s2, s1),
    ensures
        spec_match_dir(name, s1, user) is Some ==> spec_match_dir(name, s2, user) is Some,
{
    law_match_sound_and_complete(name, s1, user);
    law_match_sound_and_complete(name, s2, user);
    if spec_match_dir(name, s1, user) is Some {
        let r = spec_match_dir(name, s1, user)->Some_0;
        lemma_marker_ok_mono(r, s1, s2);
        if exists|k: int| 0 <= k < builtin_rules().len() && builtin_rules()[k] == r {
            let k = choose|k: int| 0 <= k < builtin_rules().len() && builtin_rules()[k] == r;
            assert(rule_matches(builtin_rules()[k], name, s2));
        } else {
            let k = choose|k: int| 0 <= k < user.len() && user[k] == r;
            assert(rule_matches(user[k], name, s2));
        }
    }
}

/// Without sibling files only a rule that needs no marker can claim a
/// directory: an ambiguous name (such as `target`) is never trusted on its
/// own.
pub proof fn law_no_siblings_no_marker(name: Seq<char>, user: Seq<Rule>)
    ensures
        spec_match_dir(name, Seq::<Seq<char>>::empty(), user) matches Some(r) ==> r.requires_marker@.len() == 0
            && r.requires_marker_ext@.len() == 0,
{
    law_match_sound_and_complete(name, Seq::<Seq<char>>::empty(), user);
}

/// A rule that needs no marker claims a directory of its name whatever
/// lies beside it (unless an earlier built-in does).
pub proof fn law_markerless_always_matches(name: Seq<char>, siblings: Seq<Seq<char>>, user: Seq<Rule>, k: int)
    requires
        0 <= k < builtin_rules().len(),
        builtin_rules()[k].dir@ == name,
        builtin_rules()[k].requires_marker@.len() == 0,
        builtin_rules()[k].requires_marker_ext@.len() == 0,
    ensures
        spec_match_dir(name, siblings, user) is Some,
{
    law_match_sound_and_complete(name, siblings, user);
    assert(rule_matches(builtin_rules()[k], name, siblings));
}

/// Any one of a rule's markers suffices: when some rule (built-in or user)
/// has the directory's name and any of its required marker files, or a
/// sibling with any of its required extensions, the directory is claimed.
pub proof fn law_any_marker_suffices(name: Seq<char>, siblings: Seq<Seq<char>>, user: Seq<Rule>, r: Rule, i: int)
    requires
        (exists|k: int| 0 <= k < builtin_rules().len() && builtin_rules()[k] == r) || (exists|k: int|
            0 <= k < user.len() && user[k] == r),
        r.dir@ == name,
        (0 <= i < r.requires_marker@.len() && exists|j: int|
            0 <= j < siblings.len() && siblings[j] == r.requires_marker@[i]@) || (0 <= i
            < r.requires_marker_ext@.len() && exists|j: int|
            0 <= j < siblings.len() && ends_with_seq(siblings[j], r.requires_marker_ext@[i]@)),
    ensures
        spec_match_dir(name, siblings, user) is Some,
{
    law_match_sound_and_complete(name, siblings, user);
    if 0 <= i < r.requires_marker@.len() && exists|j: int| 0 <= j < siblings.len() && siblings[j] == r.requires_marker@[i]@ {
        assert(has_marker(siblings, r.requires_marker@[i]@));
    } else {
        assert(has_marker_ext(siblings, r.requires_marker_ext@[i]@));
    }
    assert(rule_matches(r, name, siblings));
    if exists|k: int| 0 <= k < builtin_rules().len() && builtin_rules()[k] == r {
        let k = choose|k: int| 0 <= k < builtin_rules().len() && builtin_rules()[k] == r;
        assert(rule_matches(builtin_rules()[k], name, siblings));
    } else {
        let k = choose|k: int| 0 <= k < user.len() && user[k] == r;
        assert(rule_matches(user[k], name, siblings));
    }
}

/// A claim always rests on the directory's name and on its rule's markers:
/// the claiming rule has that name, and either needs no marker, or one of
/// its marker files is a sibling, or a sibling ends with one of its marker
/// extensions.
pub proof fn law_claim_needs_marker(name: Seq<char>, siblings: Seq<Seq<char>>, user: Seq<Rule>)
    ensures
        spec_match_dir(name, siblings, user) matches Some(r) ==> r.dir@ == name && ((r.requires_marker@.len() == 0
            && r.requires_marker_ext@.len() == 0) || (exists|i: int, j: int|
            0 <= i < r.requires_marker@.len() && 0 <= j < siblings.len() && #[trigger] siblings[j]
                == #[trigger] r.requires_marker@[i]@) || (exists|i: int, j: int|
            0 <= i < r.requires_marker_ext@.len() && 0 <= j < siblings.len() && ends_with_seq(
                #[trigger] siblings[j],
                #[trigger] r.requires_marker_ext@[i]@,
            ))),
{
    law_match_sound_and_complete(name, siblings, user);
    if spec_match_dir(name, siblings, user) is Some {
        let r = spec_match_dir(name, siblings, user)->Some_0;
        if r.requires_marker@.len() == 0 && r.requires_marker_ext@.len() == 0 {
        } else if exists|i: int| 0 <= i < r.requires_marker@.len() && has_marker(siblings, #[trigger] r.requires_marker@[i]@) {
            let i = choose|i: int| 0 <= i < r.requires_marker@.len() && has_marker(siblings, #[trigger] r.requires_marker@[i]@);
            let j = choose|j: int| 0 <= j < siblings.len() && siblings[j] == r.requires_marker@[i]@;
            assert(siblings[j] == r.requires_marker@[i]@);
        } else {
            let i = choose|i: int|
                0 <= i < r.requires_marker_ext@.len() && has_marker_ext(siblings, #[trigger] r.requires_marker_ext@[i]@);
            let j = choose|j: int| 0 <= j < siblings.len() && ends_with_seq(siblings[j], r.requires_marker_ext@[i]@);
            assert(ends_with_seq(siblings[j], r.requires_marker_ext@[i]@));
        }
    }
}

} // verus!
