//! User configuration: the config file's settings and custom rules, and the
//! ignore patterns of `.chaffignore` files, compiled into a glob set.

use vstd::prelude::*;
use globset::{Glob, GlobSet, GlobSetBuilder};
use crate::model::{join_path, joined};
use crate::rules::{Rule, UserRules, names_view, set_user_rules, strs_view, user_rule};
use crate::text::{
    char_is_whitespace, chars_of, first_char_from, is_whitespace, lead_end, lemma_first_char_bounds, lemma_lead_end_bounds,
    push_char, string_of, trail_end, trim, trim_bounds,
};

verus! {

// ---------------------------------------------------------------------------
// Settings
// ---------------------------------------------------------------------------

/// A user-defined artifact rule from config: a directory name, its label, and
/// optional sibling markers (exact names and/or extension suffixes) that gate
/// an ambiguous name.
pub struct RawRule {
    pub dir: String,
    pub ecosystem: String,
    pub requires_marker: Vec<String>,
    pub requires_marker_ext: Vec<String>,
}

impl Default for RawRule {
    fn default() -> (r: Self)
        ensures
            r.dir@.len() == 0,
            r.ecosystem@.len() == 0,
            r.requires_marker@.len() == 0,
            r.requires_marker_ext@.len() == 0,
    {
        RawRule {
            dir: String::new(),
            ecosystem: String::new(),
            requires_marker: Vec::new(),
            requires_marker_ext: Vec::new(),
        }
    }
}

/// User configuration, loaded from `config.toml`. All fields optional.
pub struct Config {
    /// Default age filter for `clean` (e.g. "30d"). CLI `--older-than` overrides.
    pub older_than: Option<String>,
    /// Include global caches by default. `--caches`/`--no-caches` override.
    pub caches: bool,
    /// Glob patterns to always protect (same syntax as `.chaffignore`).
    pub ignore: Vec<String>,
    /// Custom artifact rules (`[[rule]]` tables), added to the built-ins.
    pub rules: Vec<RawRule>,
}

impl Default for Config {
    fn default() -> (r: Self)
        ensures
            r.older_than is None,
            !r.caches,
            r.ignore@.len() == 0,
            r.rules@.len() == 0,
    {
        Config { older_than: None, caches: false, ignore: Vec::new(), rules: Vec::new() }
    }
}

/// The text of a rule: directory, ecosystem, markers, marker extensions.
pub open spec fn rule_text(r: Rule) -> (Seq<char>, Seq<char>, Seq<Seq<char>>, Seq<Seq<char>>) {
    (r.dir@, r.ecosystem@, strs_view(r.requires_marker@), strs_view(r.requires_marker_ext@))
}

/// The rule a config entry stands for, if any: none when its trimmed `dir`
/// is empty; the ecosystem is trimmed and defaults to "custom".
pub open spec fn raw_rule_text(r: RawRule) -> Option<(Seq<char>, Seq<char>, Seq<Seq<char>>, Seq<Seq<char>>)> {
    let dir = trim(r.dir@);
    let eco = trim(r.ecosystem@);
    if dir.len() == 0 {
        None
    } else {
        Some((
            dir,
            if eco.len() == 0 { "custom"@ } else { eco },
            names_view(r.requires_marker@),
            names_view(r.requires_marker_ext@),
        ))
    }
}

/// The rules that a list of config entries stands for, in order.
pub open spec fn spec_user_rules(raw: Seq<RawRule>) -> Seq<(Seq<char>, Seq<char>, Seq<Seq<char>>, Seq<Seq<char>>)>
    decreases raw.len(),
{
    if raw.len() == 0 {
        Seq::empty()
    } else {
        let rest = spec_user_rules(raw.drop_last());
        match raw_rule_text(raw.last()) {
            Some(t) => rest.push(t),
            None => rest,
        }
    }
}

/// How many config entries have an empty `dir`.
pub open spec fn empty_dir_count(raw: Seq<RawRule>) -> nat
    decreases raw.len(),
{
    if raw.len() == 0 {
        0
    } else {
        empty_dir_count(raw.drop_last()) + if raw_rule_text(raw.last()) is None {
            1nat
        } else {
            0nat
        }
    }
}

/// A copy of a list of strings.
fn clone_strings(v: &Vec<String>) -> (r: Vec<String>)
    ensures
        names_view(r@) == names_view(v@),
{
    let mut r: Vec<String> = Vec::new();
    let mut i: usize = 0;
    while i < v.len()
        invariant
            i <= v@.len(),
            names_view(r@) == names_view(v@.subrange(0, i as int)),
        decreases v@.len() - i,
    {
        let c = v[i].clone();
        let ghost prev = r@;
        r.push(c);
        assert(names_view(r@) =~= names_view(prev).push(c@));
        assert(v@.subrange(0, i + 1) =~= v@.subrange(0, i as int).push(v@[i as int]));
        assert(names_view(v@.subrange(0, i + 1)) =~= names_view(v@.subrange(0, i as int)).push(
            v@[i as int]@,
        ));
        i = i + 1;
    }
    assert(v@.subrange(0, i as int) =~= v@);
    r
}

/// A `String` holding the trimmed text of `s`.
fn trimmed(s: &String) -> (r: String)
    ensures
        r@ == trim(s@),
{
    let cs = chars_of(s.as_str());
    let (a, b) = trim_bounds(&cs, 0, cs.len());
    assert(cs@.subrange(0, cs@.len() as int) =~= cs@);
    string_of(&cs, a, b)
}

/// Convert parsed `[[rule]]` entries into [`Rule`]s, skipping any with an
/// empty `dir`. Also returns how many were skipped (each deserves a warning).
pub fn user_rules(raw: &Vec<RawRule>) -> (r: (Vec<Rule>, usize))
    ensures
        r.0@.map_values(|x: Rule| rule_text(x)) == spec_user_rules(raw@),
        r.1 as nat == empty_dir_count(raw@),
{
    let mut out: Vec<Rule> = Vec::new();
    let mut skipped: usize = 0;
    let mut i: usize = 0;
    while i < raw.len()
        invariant
            i <= raw@.len(),
            out@.map_values(|x: Rule| rule_text(x)) == spec_user_rules(raw@.subrange(0, i as int)),
            skipped as nat == empty_dir_count(raw@.subrange(0, i as int)),
            skipped <= i,
        decreases raw@.len() - i,
    {
        let r = &raw[i];
        let ghost sub = raw@.subrange(0, i + 1);
        assert(sub.drop_last() =~= raw@.subrange(0, i as int));
        assert(sub.last() == raw@[i as int]);
        let dir = trimmed(&r.dir);
        if dir.as_str().unicode_len() == 0 {
            skipped = skipped + 1;
        } else {
            let eco0 = trimmed(&r.ecosystem);
            let eco = if eco0.as_str().unicode_len() == 0 {
                String::from_str("custom")
            } else {
                eco0
            };
            let rule = user_rule(
                dir,
                eco,
                clone_strings(&r.requires_marker),
                clone_strings(&r.requires_marker_ext),
            );
            let ghost prev = out@;
            out.push(rule);
            assert(out@.map_values(|x: Rule| rule_text(x)) =~= prev.map_values(|x: Rule| rule_text(x)).push(rule_text(rule)));
        }
        i = i + 1;
    }
    assert(raw@.subrange(0, i as int) =~= raw@);
    (out, skipped)
}

// ---------------------------------------------------------------------------
// Ignore files
// ---------------------------------------------------------------------------

/// Whether a trimmed line of an ignore file is a pattern (not blank, not a
/// `#` comment).
pub open spec fn is_pattern_line(l: Seq<char>) -> bool {
    l.len() > 0 && l[0] != '#'
}

/// Where the inline comment of `line` starts, looking from `k` on: the first
/// `#` that follows whitespace, or the end of the line.
pub open spec fn comment_start(line: Seq<char>, k: int) -> int
    decreases line.len() - k,
{
    if 0 <= k < line.len() {
        if line[k] == '#' && k > 0 && char_is_whitespace(line[k - 1]) {
            k
        } else {
            comment_start(line, k + 1)
        }
    } else {
        k
    }
}

/// The candidate pattern of one line: the text before its inline comment,
/// trimmed.
pub open spec fn line_pattern(line: Seq<char>) -> Seq<char> {
    trim(line.subrange(0, comment_start(line, 0)))
}

/// The patterns of `text` from position `i` on: each `\n`-separated line,
/// cut at an inline comment (a `#` after whitespace) and trimmed, kept
/// unless blank or a comment line.
pub open spec fn patterns_from(text: Seq<char>, i: int) -> Seq<Seq<char>>
    decreases text.len() + 1 - i,
{
    if 0 <= i <= text.len() {
        let j = first_char_from(text, '\n', i);
        proof {
            lemma_first_char_bounds(text, '\n', i);
        }
        let line = line_pattern(text.subrange(i, j));
        let here = if is_pattern_line(line) {
            seq![line]
        } else {
            Seq::<Seq<char>>::empty()
        };
        here + if j < text.len() {
            patterns_from(text, j + 1)
        } else {
            Seq::<Seq<char>>::empty()
        }
    } else {
        Seq::<Seq<char>>::empty()
    }
}

/// The patterns of an ignore file's text (as `str::lines`, each cut at an
/// inline `#` comment and trimmed, minus blank lines and comment lines).
pub fn ignore_lines(text: &str) -> (r: Vec<String>)
    ensures
        names_view(r@) == patterns_from(text@, 0),
{
    let cs = chars_of(text);
    let mut out: Vec<String> = Vec::new();
    let mut i: usize = 0;
    loop
        invariant_except_break
            i <= cs.len(),
            patterns_from(cs@, 0) == names_view(out@) + patterns_from(cs@, i as int),
        ensures
            names_view(out@) == patterns_from(cs@, 0),
        decreases cs.len() + 1 - i,
    {
        let mut j = i;
        while j < cs.len() && cs[j] != '\n'
            invariant
                i <= j <= cs.len(),
                first_char_from(cs@, '\n', i as int) == first_char_from(cs@, '\n', j as int),
            decreases cs.len() - j,
        {
            j = j + 1;
        }
        proof {
            lemma_first_char_bounds(cs@, '\n', j as int);
        }
        let ghost raw = cs@.subrange(i as int, j as int);
        let mut c = i;
        while c < j && !(cs[c] == '#' && c > i && is_whitespace(cs[c - 1]))
            invariant
                i <= c <= j <= cs.len(),
                raw == cs@.subrange(i as int, j as int),
                comment_start(raw, 0) == comment_start(raw, c - i),
            decreases j - c,
        {
            c = c + 1;
        }
        assert(comment_start(raw, 0) == c - i);
        assert(cs@.subrange(i as int, c as int) =~= raw.subrange(0, c - i));
        let (a, b) = trim_bounds(&cs, i, c);
        let ghost line = line_pattern(raw);
        let ghost before = out@;
        if a < b && cs[a] != '#' {
            let l = string_of(&cs, a, b);
            out.push(l);
            assert(names_view(out@) =~= names_view(before) + seq![line]);
        } else {
            assert(names_view(out@) =~= names_view(before) + Seq::<Seq<char>>::empty());
        }
        if j >= cs.len() {
            assert(patterns_from(cs@, i as int) =~= (if is_pattern_line(line) {
                seq![line]
            } else {
                Seq::<Seq<char>>::empty()
            }) + Seq::<Seq<char>>::empty());
            assert(names_view(out@) =~= patterns_from(cs@, 0));
            break;
        }
        assert(patterns_from(cs@, 0) =~= names_view(out@) + patterns_from(cs@, j + 1));
        i = j + 1;
    }
    assert(cs@ == text@);
    out
}

// ---------------------------------------------------------------------------
// Pattern expansion
// ---------------------------------------------------------------------------

/// Index just past the last character of `s[0..j]` that is not `/`.
pub open spec fn slash_trail(s: Seq<char>, j: int) -> int
    decreases j,
{
    if 0 < j <= s.len() && s[j - 1] == '/' {
        slash_trail(s, j - 1)
    } else {
        j
    }
}

/// `s` without trailing `/`s (as `trim_end_matches('/')`).
pub open spec fn trim_end_slashes(s: Seq<char>) -> Seq<char> {
    s.subrange(0, slash_trail(s, s.len() as int))
}

/// The text `/**`.
pub open spec fn star_suffix() -> Seq<char> {
    seq!['/', '*', '*']
}

/// The text `**/`.
pub open spec fn star_prefix() -> Seq<char> {
    seq!['*', '*', '/']
}

/// Whether `s` ends with `/**`.
pub open spec fn has_star_suffix(s: Seq<char>) -> bool {
    s.len() >= 3 && s.subrange(s.len() - 3, s.len() as int) == star_suffix()
}

/// The base of a pattern: trimmed, trailing `/`s dropped, then one trailing
/// `/**` dropped.
pub open spec fn pattern_base(pattern: Seq<char>) -> Seq<char> {
    let p = trim_end_slashes(trim(pattern));
    if has_star_suffix(p) {
        p.subrange(0, p.len() - 3)
    } else {
        p
    }
}

/// The globs a user pattern expands to: the directory itself and everything
/// below it, anchored at any depth unless already absolute or `**/`-anchored.
pub open spec fn spec_expand(pattern: Seq<char>) -> Seq<Seq<char>> {
    let base = pattern_base(pattern);
    if base.len() == 0 {
        Seq::empty()
    } else if base[0] == '/' || (base.len() >= 3 && base.subrange(0, 3) == star_prefix()) {
        seq![base, base + star_suffix()]
    } else {
        seq![star_prefix() + base, star_prefix() + base + star_suffix()]
    }
}

fn push_str_chars(s: &mut String, lit: &str)
    ensures
        final(s)@ == old(s)@ + lit@,
{
    s.append(lit);
}

/// Expand one user pattern into globs that match an artifact's **absolute**
/// path at any depth, covering BOTH the directory itself and its contents.
///
/// Artifact paths are absolute and the path *is* the directory that might be
/// deleted, so every pattern must be depth-anchored (`**/`) and cover the dir
/// node, not just its children. Handles bare names (`keepme`), wildcards
/// (`cache*`), trailing slashes (`node_modules/`, the gitignore habit),
/// sub-paths (`app/node_modules`), and explicit `**/x/**` forms.
#[verifier::rlimit(50)]
pub fn expand(pattern: &str) -> (r: Vec<String>)
    ensures
        names_view(r@) == spec_expand(pattern@),
{
    proof {
        reveal_strlit("/**");
        reveal_strlit("**/");
        assert("/**"@ =~= star_suffix());
        assert("**/"@ =~= star_prefix());
    }
    let cs = chars_of(pattern);
    let (a, b) = trim_bounds(&cs, 0, cs.len());
    assert(cs@.subrange(0, cs@.len() as int) =~= pattern@);
    let ghost t = trim(pattern@);
    assert(cs@.subrange(a as int, b as int) == t);
    let mut e = b;
    while e > a && cs[e - 1] == '/'
        invariant
            a <= e <= b <= cs.len(),
            t == cs@.subrange(a as int, b as int),
            slash_trail(t, t.len() as int) == slash_trail(t, e - a),
        decreases e - a,
    {
        e = e - 1;
    }
    assert(slash_trail(t, t.len() as int) == e - a);
    let ghost p = trim_end_slashes(t);
    assert(p =~= cs@.subrange(a as int, e as int));
    if e - a >= 3 && cs[e - 3] == '/' && cs[e - 2] == '*' && cs[e - 1] == '*' {
        assert(p.subrange(p.len() - 3, p.len() as int) =~= star_suffix());
        e = e - 3;
    } else {
        assert(!has_star_suffix(p)) by {
            if p.len() >= 3 {
                let tail = p.subrange(p.len() - 3, p.len() as int);
                if tail == star_suffix() {
                    assert(tail[0] == '/' && tail[1] == '*' && tail[2] == '*');
                }
            }
        }
    }
    let ghost base = pattern_base(pattern@);
    assert(base =~= cs@.subrange(a as int, e as int));
    let mut out: Vec<String> = Vec::new();
    if e == a {
        assert(names_view(out@) =~= spec_expand(pattern@));
        return out;
    }
    let anchored = cs[a] == '/' || (e - a >= 3 && cs[a] == '*' && cs[a + 1] == '*' && cs[a + 2] == '/');
    assert(anchored == (base[0] == '/' || (base.len() >= 3 && base.subrange(0, 3) == star_prefix()))) by {
        if base.len() >= 3 {
            let head = base.subrange(0, 3);
            if head == star_prefix() {
                assert(head[0] == '*' && head[1] == '*' && head[2] == '/');
            }
            if cs[a as int] == '*' && cs[a + 1] == '*' && cs[a + 2] == '/' {
                assert(head =~= star_prefix());
            }
        }
    }
    let base_s = string_of(&cs, a, e);
    if anchored {
        let first = string_of(&cs, a, e);
        let mut second = base_s;
        push_str_chars(&mut second, "/**");
        out.push(first);
        out.push(second);
    } else {
        let mut first = String::from_str("**/");
        first.append(base_s.as_str());
        let mut second = String::from_str("**/");
        second.append(base_s.as_str());
        push_str_chars(&mut second, "/**");
        out.push(first);
        out.push(second);
    }
    assert(names_view(out@) =~= spec_expand(pattern@));
    out
}

// ---------------------------------------------------------------------------
// Glob sets
// ---------------------------------------------------------------------------

#[verifier::external_type_specification]
#[verifier::external_body]
pub struct ExGlob(Glob);

#[verifier::external_type_specification]
#[verifier::external_body]
pub struct ExGlobSet(GlobSet);

#[verifier::external_type_specification]
#[verifier::external_body]
pub struct ExGlobSetBuilder(GlobSetBuilder);

#[verifier::external_type_specification]
#[verifier::external_body]
pub struct ExGlobError(globset::Error);

/// Whether `Glob::new` accepts a pattern (default options).
pub uninterp spec fn glob_compiles(pattern: Seq<char>) -> bool;

/// The pattern a `Glob` was built from (what `Glob::glob` returns).
pub uninterp spec fn glob_pattern(g: Glob) -> Seq<char>;

/// The patterns of the globs added to a `GlobSetBuilder`, in order.
pub uninterp spec fn builder_patterns(b: GlobSetBuilder) -> Seq<Seq<char>>;

/// The patterns of the globs a `GlobSet` was built from, in order.
pub uninterp spec fn globset_patterns(s: GlobSet) -> Seq<Seq<char>>;

/// Whether `GlobSetBuilder::build` succeeds on globs with these patterns.
pub uninterp spec fn globset_builds(patterns: Seq<Seq<char>>) -> bool;

/// Whether the glob compiled from `pattern` matches `path` (globset's glob
/// semantics with default options).
pub uninterp spec fn glob_matches(pattern: Seq<char>, path: Seq<char>) -> bool;

/// Calls `Glob::new`. Claims: it succeeds exactly when the pattern compiles
/// (a named property of the pattern alone), and the glob it returns remembers
/// that pattern (`Glob::glob` gives back the text it was built from).
#[verifier::external_body]
fn glob_new(pattern: &str) -> (r: Result<Glob, globset::Error>)
    ensures
        r is Ok <==> glob_compiles(pattern@),
        r matches Ok(g) ==> glob_pattern(g) == pattern@,
{
    Glob::new(pattern)
}

/// Calls `GlobSetBuilder::new`, which starts with no globs.
#[verifier::external_body]
fn builder_new() -> (b: GlobSetBuilder)
    ensures
        builder_patterns(b) == Seq::<Seq<char>>::empty(),
{
    GlobSetBuilder::new()
}

/// Calls `GlobSetBuilder::add`, which appends the glob to the builder's list.
#[verifier::external_body]
fn builder_add(b: &mut GlobSetBuilder, g: Glob)
    ensures
        builder_patterns(*final(b)) == builder_patterns(*old(b)).push(glob_pattern(g)),
{
    b.add(g);
}

/// Calls `GlobSetBuilder::build`. Claims: it succeeds exactly when the named
/// property `globset_builds` holds of the builder's patterns, and the set it
/// returns is made of the builder's globs.
#[verifier::external_body]
fn builder_build(b: &GlobSetBuilder) -> (r: Result<GlobSet, globset::Error>)
    ensures
        r is Ok <==> globset_builds(builder_patterns(*b)),
        r matches Ok(s) ==> globset_patterns(s) == builder_patterns(*b),
{
    b.build()
}

/// Calls `GlobSet::empty`, a set of no globs.
#[verifier::external_body]
fn globset_empty() -> (s: GlobSet)
    ensures
        globset_patterns(s) == Seq::<Seq<char>>::empty(),
{
    GlobSet::empty()
}

/// Whether some glob of `patterns` matches `path`.
pub open spec fn any_glob_matches(patterns: Seq<Seq<char>>, path: Seq<char>) -> bool {
    exists|i: int| 0 <= i < patterns.len() && glob_matches(#[trigger] patterns[i], path)
}

/// Calls `GlobSet::is_match`, which (globset's documentation) is true if any
/// glob in the set matches the path given.
#[verifier::external_body]
fn globset_is_match(s: &GlobSet, path: &str) -> (r: bool)
    ensures
        r == (exists|i: int| 0 <= i < globset_patterns(*s).len() && glob_matches(#[trigger] globset_patterns(*s)[i], path@)),
{
    s.is_match(path)
}

/// A user pattern none of whose globs compiled, with the last error.
pub struct InvalidPattern {
    pub pattern: String,
    pub error: globset::Error,
}

/// The globs of `pattern` that compile.
pub open spec fn compiled_globs(pattern: Seq<char>) -> Seq<Seq<char>> {
    spec_expand(pattern).filter(|g: Seq<char>| glob_compiles(g))
}

/// All compiled globs of a list of patterns, in order.
pub open spec fn all_compiled(patterns: Seq<Seq<char>>) -> Seq<Seq<char>>
    decreases patterns.len(),
{
    if patterns.len() == 0 {
        Seq::empty()
    } else {
        all_compiled(patterns.drop_last()) + compiled_globs(patterns.last())
    }
}

/// Whether a pattern is reported as invalid: it expands to some glob and
/// none of its globs compiles.
pub open spec fn is_invalid_pattern(pattern: Seq<char>) -> bool {
    spec_expand(pattern).len() > 0 && compiled_globs(pattern).len() == 0
}

/// The patterns of a list that are reported as invalid, in order.
pub open spec fn invalid_patterns(patterns: Seq<Seq<char>>) -> Seq<Seq<char>>
    decreases patterns.len(),
{
    if patterns.len() == 0 {
        Seq::empty()
    } else {
        let rest = invalid_patterns(patterns.drop_last());
        if is_invalid_pattern(patterns.last()) {
            rest.push(patterns.last())
        } else {
            rest
        }
    }
}

/// The globs of the set that [`build_globset`] produces: every compiled glob,
/// or none if the set cannot be built.
pub open spec fn built_globs(patterns: Seq<Seq<char>>) -> Seq<Seq<char>> {
    if globset_builds(all_compiled(patterns)) {
        all_compiled(patterns)
    } else {
        Seq::empty()
    }
}

/// Compile all user patterns into one glob set. Every pattern is expanded
/// (see [`expand`]); each glob that compiles is added. A pattern none of
/// whose globs compiled is returned among the invalid ones, with the last
/// error, so that it can be reported rather than silently dropped. If the
/// set cannot be built, it is empty.
pub fn build_globset(patterns: &Vec<String>) -> (r: (GlobSet, Vec<InvalidPattern>))
    ensures
        globset_patterns(r.0) == built_globs(names_view(patterns@)),
        r.1@.map_values(|x: InvalidPattern| x.pattern@) == invalid_patterns(names_view(patterns@)),
{
    let mut builder = builder_new();
    let mut invalid: Vec<InvalidPattern> = Vec::new();
    let mut i: usize = 0;
    while i < patterns.len()
        invariant
            i <= patterns@.len(),
            builder_patterns(builder) == all_compiled(names_view(patterns@.subrange(0, i as int))),
            invalid@.map_values(|x: InvalidPattern| x.pattern@) == invalid_patterns(
                names_view(patterns@.subrange(0, i as int)),
            ),
        decreases patterns@.len() - i,
    {
        let p = &patterns[i];
        let ghost pv = p@;
        let ghost sub = names_view(patterns@.subrange(0, i + 1));
        assert(patterns@.subrange(0, i + 1) =~= patterns@.subrange(0, i as int).push(patterns@[i as int]));
        assert(sub =~= names_view(patterns@.subrange(0, i as int)).push(pv));
        assert(sub.drop_last() =~= names_view(patterns@.subrange(0, i as int)));
        let globs = expand(p.as_str());
        let ghost start = builder_patterns(builder);
        let mut any_ok = false;
        let mut last_err: Option<globset::Error> = None;
        let mut j: usize = 0;
        while j < globs.len()
            invariant
                j <= globs@.len(),
                names_view(globs@) == spec_expand(pv),
                builder_patterns(builder) == start + spec_expand(pv).subrange(0, j as int).filter(
                    |g: Seq<char>| glob_compiles(g),
                ),
                any_ok == (spec_expand(pv).subrange(0, j as int).filter(|g: Seq<char>| glob_compiles(g)).len() > 0),
                !any_ok && j > 0 ==> last_err is Some,
                last_err is Some ==> j > 0,
            decreases globs@.len() - j,
        {
            let ghost before = builder_patterns(builder);
            let ghost ex = spec_expand(pv);
            proof {
                reveal_with_fuel(Seq::filter, 1);
            }
            assert(ex.subrange(0, j + 1).drop_last() =~= ex.subrange(0, j as int));
            assert(ex[j as int] == globs@[j as int]@);
            match glob_new(globs[j].as_str()) {
                Ok(g) => {
                    builder_add(&mut builder, g);
                    any_ok = true;
                    assert(ex.subrange(0, j + 1).filter(|g: Seq<char>| glob_compiles(g)) =~= ex.subrange(0, j as int).filter(|g: Seq<char>| glob_compiles(g)).push(ex[j as int]));
                },
                Err(e) => {
                    last_err = Some(e);
                    assert(ex.subrange(0, j + 1).filter(|g: Seq<char>| glob_compiles(g)) =~= ex.subrange(0, j as int).filter(|g: Seq<char>| glob_compiles(g)));
                },
            }
            j = j + 1;
        }
        assert(spec_expand(pv).subrange(0, j as int) =~= spec_expand(pv));
        assert(builder_patterns(builder) == all_compiled(sub));
        assert(any_ok == (compiled_globs(pv).len() > 0));
        assert(sub.last() == pv);
        assert(invalid_patterns(sub) == (if is_invalid_pattern(pv) {
            invalid_patterns(sub.drop_last()).push(pv)
        } else {
            invalid_patterns(sub.drop_last())
        }));
        let ghost inv_before = invalid@;
        assert(inv_before.map_values(|x: InvalidPattern| x.pattern@) == invalid_patterns(sub.drop_last()));
        if !any_ok {
            match last_err {
                Some(e) => {
                    let text = p.clone();
                    invalid.push(InvalidPattern { pattern: text, error: e });
                    assert(invalid@.map_values(|x: InvalidPattern| x.pattern@) =~= inv_before.map_values(|x: InvalidPattern| x.pattern@).push(pv));
                },
                None => {
                    assert(spec_expand(pv).len() == 0);
                },
            }
        } else {
            assert(!is_invalid_pattern(pv));
        }
        assert(invalid@.map_values(|x: InvalidPattern| x.pattern@) == invalid_patterns(sub));
        i = i + 1;
    }
    assert(patterns@.subrange(0, i as int) =~= patterns@);
    match builder_build(&builder) {
        Ok(set) => (set, invalid),
        Err(_) => (globset_empty(), invalid),
    }
}

/// Whether `path` is protected by the ignore set: some glob of it matches.
pub fn is_ignored(set: &GlobSet, path: &str) -> (r: bool)
    ensures
        r == any_glob_matches(globset_patterns(*set), path@),
{
    globset_is_match(set, path)
}

// ---------------------------------------------------------------------------
// Loading
// ---------------------------------------------------------------------------

/// The directory that holds chaff's configuration: `$XDG_CONFIG_HOME` when it
/// is set and not empty, else `$HOME/.config`, else none.
pub fn config_home_from(xdg: Option<&str>, home: Option<&str>) -> (r: Option<String>)
    ensures
        match xdg {
            Some(x) if x@.len() > 0 => r matches Some(d) && d@ == x@,
            _ => match home {
                Some(h) => r matches Some(d) && d@ == joined(h@, ".config"@),
                None => r is None,
            },
        },
{
    match xdg {
        Some(x) => {
            if x.unicode_len() > 0 {
                return Some(String::from_str(x));
            }
        },
        None => {},
    }
    match home {
        Some(h) => Some(join_path(h, ".config")),
        None => None,
    }
}

/// The patterns of several ignore files' texts, file after file.
pub open spec fn texts_patterns(texts: Seq<Seq<char>>) -> Seq<Seq<char>>
    decreases texts.len(),
{
    if texts.len() == 0 {
        Seq::<Seq<char>>::empty()
    } else {
        texts_patterns(texts.drop_last()) + patterns_from(texts.last(), 0)
    }
}

/// Every ignore pattern in force: the config's `ignore` list, then the
/// patterns of each ignore file's text in turn.
pub open spec fn all_patterns(config_ignore: Seq<Seq<char>>, texts: Seq<Seq<char>>) -> Seq<Seq<char>> {
    config_ignore + texts_patterns(texts)
}

/// Gather the ignore patterns (see [`all_patterns`]). `texts` holds the
/// contents of the ignore files that could be read: the global one, then one
/// per scanned root.
pub fn ignore_patterns(config_ignore: &Vec<String>, texts: &Vec<String>) -> (r: Vec<String>)
    ensures
        names_view(r@) == all_patterns(names_view(config_ignore@), names_view(texts@)),
{
    let mut r = clone_strings(config_ignore);
    let mut i: usize = 0;
    while i < texts.len()
        invariant
            i <= texts@.len(),
            names_view(r@) == all_patterns(
                names_view(config_ignore@),
                names_view(texts@.subrange(0, i as int)),
            ),
        decreases texts@.len() - i,
    {
        let lines = ignore_lines(texts[i].as_str());
        let ghost before = r@;
        let mut k: usize = 0;
        while k < lines.len()
            invariant
                k <= lines@.len(),
                names_view(r@) == names_view(before) + names_view(lines@.subrange(0, k as int)),
            decreases lines@.len() - k,
        {
            let l = lines[k].clone();
            let ghost prev = r@;
            r.push(l);
            assert(l@ == lines@[k as int]@);
            assert(lines@.subrange(0, k + 1) =~= lines@.subrange(0, k as int).push(lines@[k as int]));
            assert(names_view(lines@.subrange(0, k + 1)) =~= names_view(lines@.subrange(0, k as int)).push(l@));
            assert(names_view(r@) =~= names_view(prev).push(l@));
            assert(names_view(r@) =~= names_view(before) + names_view(lines@.subrange(0, k + 1)));
            k = k + 1;
        }
        assert(lines@.subrange(0, k as int) =~= lines@);
        let ghost sub = names_view(texts@.subrange(0, i + 1));
        assert(sub.drop_last() =~= names_view(texts@.subrange(0, i as int)));
        assert(sub.last() == texts@[i as int]@);
        assert(names_view(r@) =~= all_patterns(names_view(config_ignore@), sub));
        i = i + 1;
    }
    assert(texts@.subrange(0, i as int) =~= texts@);
    r
}

/// Resolved settings: config defaults plus all ignore patterns compiled.
pub struct Settings {
    pub older_than: Option<String>,
    pub caches: bool,
    pub ignore: GlobSet,
}

/// Resolve the configuration `cfg` and the ignore files' `texts` into one
/// [`Settings`], and register the config's custom rules in `registry`
/// (first registration wins). Also returns how many custom rules were
/// skipped for an empty `dir`, and the ignore patterns that compiled to
/// nothing, so that both can be reported.
pub fn load(cfg: Config, texts: &Vec<String>, registry: &mut UserRules) -> (r: (Settings, usize, Vec<InvalidPattern>))
    ensures
        r.0.older_than == cfg.older_than,
        r.0.caches == cfg.caches,
        globset_patterns(r.0.ignore) == built_globs(all_patterns(names_view(cfg.ignore@), names_view(texts@))),
        r.1 as nat == empty_dir_count(cfg.rules@),
        r.2@.map_values(|x: InvalidPattern| x.pattern@) == invalid_patterns(
            all_patterns(names_view(cfg.ignore@), names_view(texts@)),
        ),
        match old(registry)@ {
            None => final(registry)@ matches Some(s) && s.map_values(|x: Rule| rule_text(x)) == spec_user_rules(cfg.rules@),
            Some(s) => final(registry)@ == Some(s),
        },
{
    let (rules, skipped) = user_rules(&cfg.rules);
    set_user_rules(registry, rules);
    let patterns = ignore_patterns(&cfg.ignore, texts);
    let (ignore, invalid) = build_globset(&patterns);
    (Settings { older_than: cfg.older_than, caches: cfg.caches, ignore }, skipped, invalid)
}

// ---------------------------------------------------------------------------
// Laws of ignore patterns
// ---------------------------------------------------------------------------

proof fn lemma_lead_end_push(x: Seq<char>, c: char, i: int)
    requires
        0 <= i <= x.len(),
        !char_is_whitespace(c),
    ensures
        lead_end(x.push(c), i) == lead_end(x, i),
    decreases x.len() - i,
{
    if i < x.len() {
        assert(x.push(c)[i] == x[i]);
        if char_is_whitespace(x[i]) {
            lemma_lead_end_push(x, c, i + 1);
        }
    } else {
        assert(x.push(c)[i] == c);
    }
}

proof fn lemma_trim_tail(x: Seq<char>)
    requires
        x.len() == 0 || !char_is_whitespace(x.last()),
    ensures
        0 <= lead_end(x, 0) <= x.len(),
        trim(x) == x.subrange(lead_end(x, 0), x.len() as int),
{
    lemma_lead_end_bounds(x, 0);
    let a = lead_end(x, 0);
    if a < x.len() {
        assert(trail_end(x, a, x.len() as int) == x.len());
    }
}

proof fn lemma_trim_push(x: Seq<char>, c: char)
    requires
        x.len() == 0 || !char_is_whitespace(x.last()),
        !char_is_whitespace(c),
    ensures
        trim(x.push(c)) == trim(x).push(c),
        trim(x.push(c)).len() > 0,
{
    lemma_trim_tail(x);
    lemma_lead_end_push(x, c, 0);
    assert(x.push(c).last() == c);
    lemma_trim_tail(x.push(c));
    let a = lead_end(x, 0);
    assert(x.push(c).subrange(a, x.len() as int + 1) =~= x.subrange(a, x.len() as int).push(c));
}

proof fn lemma_slash_trail_push(t: Seq<char>, j: int)
    requires
        0 <= j <= t.len(),
    ensures
        slash_trail(t.push('/'), j) == slash_trail(t, j),
        0 <= slash_trail(t, j) <= j,
    decreases j,
{
    if 0 < j {
        assert(t.push('/')[j - 1] == t[j - 1]);
        if t[j - 1] == '/' {
            lemma_slash_trail_push(t, j - 1);
        }
    }
}

proof fn lemma_trim_end_slashes_push(t: Seq<char>)
    ensures
        trim_end_slashes(t.push('/')) == trim_end_slashes(t),
{
    lemma_slash_trail_push(t, t.len() as int);
    assert(t.push('/')[t.len() as int] == '/');
    let k = slash_trail(t, t.len() as int);
    assert(t.push('/').subrange(0, k) =~= t.subrange(0, k));
}

/// A trailing slash (the gitignore habit) changes nothing: `build/`
/// protects exactly what `build` does.
pub proof fn law_trailing_slash(x: Seq<char>)
    requires
        x.len() == 0 || !char_is_whitespace(x.last()),
    ensures
        spec_expand(x.push('/')) == spec_expand(x),
{
    lemma_trim_push(x, '/');
    lemma_trim_end_slashes_push(trim(x));
}

/// Every pattern that expands at all covers both the directory itself and
/// everything below it: its two globs are `g` and `g/**`.
pub proof fn law_dir_and_contents(pattern: Seq<char>)
    ensures
        spec_expand(pattern).len() == 0 || (spec_expand(pattern).len() == 2 && spec_expand(pattern)[1]
            == spec_expand(pattern)[0] + star_suffix()),
{
}

/// Whether `s` holds `x`.
pub open spec fn holds(s: Seq<Seq<char>>, x: Seq<char>) -> bool {
    exists|j: int| 0 <= j < s.len() && s[j] == x
}

/// An invalid ignore pattern is reported, never silently dropped: every
/// pattern that expands to some glob either has a glob that compiled, and
/// all its compiled globs are in the set, or is among the invalid patterns.
pub proof fn law_invalid_reported(ps: Seq<Seq<char>>, i: int)
    requires
        0 <= i < ps.len(),
        spec_expand(ps[i]).len() > 0,
    ensures
        (compiled_globs(ps[i]).len() > 0 && forall|k: int|
            0 <= k < compiled_globs(ps[i]).len() ==> holds(all_compiled(ps), #[trigger] compiled_globs(ps[i])[k]))
            || holds(invalid_patterns(ps), ps[i]),
    decreases ps.len(),
{
    let n = ps.len() - 1;
    let front = ps.drop_last();
    if i == n {
        if compiled_globs(ps[i]).len() > 0 {
            assert forall|k: int| 0 <= k < compiled_globs(ps[i]).len() implies holds(
                all_compiled(ps),
                #[trigger] compiled_globs(ps[i])[k],
            ) by {
                let off = all_compiled(front).len();
                assert(all_compiled(ps)[off + k] == compiled_globs(ps[i])[k]);
            }
        } else {
            assert(invalid_patterns(ps).last() == ps[i]);
        }
    } else {
        assert(front[i] == ps[i]);
        law_invalid_reported(front, i);
        if holds(invalid_patterns(front), ps[i]) {
            let j = choose|j: int| 0 <= j < invalid_patterns(front).len() && invalid_patterns(front)[j] == ps[i];
            assert(invalid_patterns(ps)[j] == ps[i]);
        } else {
            assert forall|k: int| 0 <= k < compiled_globs(ps[i]).len() implies holds(
                all_compiled(ps),
                #[trigger] compiled_globs(ps[i])[k],
            ) by {
                assert(holds(all_compiled(front), compiled_globs(ps[i])[k]));
                let j = choose|j: int| 0 <= j < all_compiled(front).len() && all_compiled(front)[j] == compiled_globs(ps[i])[k];
                assert(all_compiled(ps)[j] == compiled_globs(ps[i])[k]);
            }
        }
    }
}

proof fn lemma_no_slash_end(t: Seq<char>)
    requires
        t.len() > 0,
        t.last() != '/',
    ensures
        trim_end_slashes(t) == t,
{
    assert(t.subrange(0, t.len() as int) =~= t);
}

/// Whether `x` is a plain relative pattern: not blank at either end, not
/// absolute, not already `**/`-anchored, and with no trailing `/` or `/**`.
pub open spec fn plain_pattern(x: Seq<char>) -> bool {
    &&& x.len() > 0
    &&& !char_is_whitespace(x[0])
    &&& !char_is_whitespace(x.last())
    &&& x[0] != '/'
    &&& !(x.len() >= 3 && x.subrange(0, 3) == star_prefix())
    &&& x.last() != '/'
    &&& !has_star_suffix(x)
}

proof fn lemma_plain_base(x: Seq<char>)
    requires
        plain_pattern(x),
    ensures
        pattern_base(x) == x,
{
    lemma_trim_tail(x);
    assert(lead_end(x, 0) == 0);
    assert(x.subrange(0, x.len() as int) =~= x);
    lemma_no_slash_end(x);
}

/// A bare name or sub-path protects that directory and its contents at any
/// depth: `keepme` expands to `**/keepme` and `**/keepme/**`.
pub proof fn law_plain_pattern(x: Seq<char>)
    requires
        plain_pattern(x),
    ensures
        spec_expand(x) == seq![star_prefix() + x, star_prefix() + x + star_suffix()],
{
    lemma_plain_base(x);
}

/// Writing `x/**` or `**/x/**` protects exactly what `x` does, the
/// directory itself included.
pub proof fn law_star_forms(x: Seq<char>)
    requires
        plain_pattern(x),
    ensures
        spec_expand(x + star_suffix()) == spec_expand(x),
        spec_expand(star_prefix() + x + star_suffix()) == spec_expand(x),
{
    lemma_plain_base(x);
    let a = x + star_suffix();
    assert(a =~= x.push('/').push('*').push('*'));
    lemma_trim_push(x, '/');
    lemma_trim_push(x.push('/'), '*');
    lemma_trim_push(x.push('/').push('*'), '*');
    lemma_trim_tail(x);
    assert(lead_end(x, 0) == 0);
    assert(trim(x) =~= x);
    assert(trim(a) =~= a);
    lemma_no_slash_end(a);
    assert(a.subrange(a.len() - 3, a.len() as int) =~= star_suffix());
    assert(a.subrange(0, a.len() - 3) =~= x);
    let b = star_prefix() + x + star_suffix();
    assert(b.last() == '*');
    assert(b[0] == '*');
    lemma_trim_tail(b);
    assert(lead_end(b, 0) == 0);
    assert(b.subrange(0, b.len() as int) =~= b);
    lemma_no_slash_end(b);
    assert(b.subrange(b.len() - 3, b.len() as int) =~= star_suffix());
    let base = b.subrange(0, b.len() - 3);
    assert(base =~= star_prefix() + x);
    assert(base.subrange(0, 3) =~= star_prefix());
}

// ---------------------------------------------------------------------------
// Law of custom rules
// ---------------------------------------------------------------------------

/// Whether `t` carries entry `e`'s directory (trimmed) and its markers and
/// marker extensions unchanged.
pub open spec fn carries(t: (Seq<char>, Seq<char>, Seq<Seq<char>>, Seq<Seq<char>>), e: RawRule) -> bool {
    &&& t.0 == trim(e.dir@)
    &&& (trim(e.ecosystem@).len() > 0 ==> t.1 == trim(e.ecosystem@))
    &&& (trim(e.ecosystem@).len() == 0 ==> t.1 == "custom"@)
    &&& t.2 == names_view(e.requires_marker@)
    &&& t.3 == names_view(e.requires_marker_ext@)
}

proof fn lemma_user_rules_from(raw: Seq<RawRule>, k: int)
    requires
        0 <= k < spec_user_rules(raw).len(),
    ensures
        exists|i: int| 0 <= i < raw.len() && trim(raw[i].dir@).len() > 0 && carries(spec_user_rules(raw)[k], #[trigger] raw[i]),
    decreases raw.len(),
{
    let front = raw.drop_last();
    if k < spec_user_rules(front).len() {
        lemma_user_rules_from(front, k);
        let i = choose|i: int| 0 <= i < front.len() && trim(front[i].dir@).len() > 0 && carries(spec_user_rules(front)[k], #[trigger] front[i]);
        assert(raw[i] == front[i]);
        assert(spec_user_rules(raw)[k] == spec_user_rules(front)[k]);
    } else {
        let i = raw.len() - 1;
        assert(carries(spec_user_rules(raw)[k], raw[i]));
    }
}

proof fn lemma_user_rules_carry(raw: Seq<RawRule>, i: int)
    requires
        0 <= i < raw.len(),
        trim(raw[i].dir@).len() > 0,
    ensures
        exists|k: int| 0 <= k < spec_user_rules(raw).len() && carries(#[trigger] spec_user_rules(raw)[k], raw[i]),
    decreases raw.len(),
{
    let front = raw.drop_last();
    if i == raw.len() - 1 {
        let k = spec_user_rules(front).len() as int;
        assert(carries(spec_user_rules(raw)[k], raw[i]));
    } else {
        assert(front[i] == raw[i]);
        lemma_user_rules_carry(front, i);
        let k = choose|k: int| 0 <= k < spec_user_rules(front).len() && carries(#[trigger] spec_user_rules(front)[k], front[i]);
        assert(spec_user_rules(raw)[k] == spec_user_rules(front)[k]);
    }
}

/// Whether rule `r` is what config entry `e` says: the entry's directory
/// (trimmed), its ecosystem (trimmed, `custom` when blank), and exactly its
/// marker names and marker extensions.
pub open spec fn rule_from_entry(r: Rule, e: RawRule) -> bool {
    &&& r.dir@ == trim(e.dir@)
    &&& (trim(e.ecosystem@).len() > 0 ==> r.ecosystem@ == trim(e.ecosystem@))
    &&& (trim(e.ecosystem@).len() == 0 ==> r.ecosystem@ == "custom"@)
    &&& strs_view(r.requires_marker@) == names_view(e.requires_marker@)
    &&& strs_view(r.requires_marker_ext@) == names_view(e.requires_marker_ext@)
}

/// Whether `r` is what some config entry with a non-blank `dir` says.
pub open spec fn comes_from_config(raw: Seq<RawRule>, r: Rule) -> bool {
    exists|i: int| 0 <= i < raw.len() && trim(raw[i].dir@).len() > 0 && rule_from_entry(r, raw[i])
}

/// A custom rule keeps what the config gave it: every `[[rule]]` entry
/// whose trimmed `dir` is not empty has a converted rule with its directory,
/// ecosystem, marker names and marker extensions, and every converted rule
/// comes from such an entry (`rules` being what [`user_rules`] returns for
/// `raw`).
pub proof fn law_config_rule_keeps_markers(raw: Seq<RawRule>, rules: Seq<Rule>)
    requires
        rules.map_values(|x: Rule| rule_text(x)) == spec_user_rules(raw),
    ensures
        forall|i: int|
            0 <= i < raw.len() && trim((#[trigger] raw[i]).dir@).len() > 0 ==> exists|k: int|
                0 <= k < rules.len() && rule_from_entry(rules[k], raw[i]),
        forall|k: int| 0 <= k < rules.len() ==> comes_from_config(raw, #[trigger] rules[k]),
{
    assert forall|i: int| 0 <= i < raw.len() && trim((#[trigger] raw[i]).dir@).len() > 0 implies exists|k: int|
        0 <= k < rules.len() && rule_from_entry(rules[k], raw[i]) by {
        lemma_user_rules_carry(raw, i);
        let k = choose|k: int| 0 <= k < spec_user_rules(raw).len() && carries(#[trigger] spec_user_rules(raw)[k], raw[i]);
        assert(rules.map_values(|x: Rule| rule_text(x))[k] == rule_text(rules[k]));
        assert(rule_from_entry(rules[k], raw[i]));
    }
    assert forall|k: int| 0 <= k < rules.len() implies comes_from_config(raw, #[trigger] rules[k]) by {
        assert(rules.map_values(|x: Rule| rule_text(x))[k] == rule_text(rules[k]));
        lemma_user_rules_from(raw, k);
        let i = choose|i: int| 0 <= i < raw.len() && trim(raw[i].dir@).len() > 0 && carries(spec_user_rules(raw)[k], #[trigger] raw[i]);
        assert(rule_from_entry(rules[k], raw[i]));
    }
}

} // verus!
