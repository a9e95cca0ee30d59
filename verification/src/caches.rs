//! The global package-manager caches that can be reclaimed, and which of
//! their candidate locations counts once the caller has looked on disk.

use vstd::prelude::*;
use crate::model::Reclaimable;

verus! {

/// A global, regenerable package-manager cache. `rel` lists candidate
/// locations relative to the home directory (platform variants); the first
/// that exists wins.
pub struct CacheDef {
    pub tool: &'static str,
    pub rel: &'static [&'static str],
}

/// The known caches, in the order they are reported.
pub open spec fn cache_defs() -> Seq<CacheDef> {
    seq![
        CacheDef { tool: "npm", rel: &[".npm/_cacache"] },
        CacheDef { tool: "pnpm", rel: &["Library/pnpm/store", ".local/share/pnpm/store", ".pnpm-store"] },
        CacheDef { tool: "yarn", rel: &["Library/Caches/Yarn", ".cache/yarn"] },
        CacheDef { tool: "pip", rel: &["Library/Caches/pip", ".cache/pip"] },
        CacheDef { tool: "uv", rel: &["Library/Caches/uv", ".cache/uv"] },
        CacheDef { tool: "cargo", rel: &[".cargo/registry/cache"] },
        CacheDef { tool: "go", rel: &["Library/Caches/go-build", ".cache/go-build"] },
        CacheDef { tool: "go-mod", rel: &["go/pkg/mod"] },
        CacheDef { tool: "gradle", rel: &[".gradle/caches"] },
        CacheDef { tool: "maven", rel: &[".m2/repository"] },
        CacheDef { tool: "huggingface", rel: &[".cache/huggingface", "Library/Caches/huggingface"] },
        CacheDef { tool: "xcode", rel: &["Library/Developer/Xcode/DerivedData"] },
        CacheDef { tool: "homebrew", rel: &["Library/Caches/Homebrew", ".cache/Homebrew"] },
        CacheDef { tool: "deno", rel: &["Library/Caches/deno", ".cache/deno", ".deno"] },
        CacheDef { tool: "composer", rel: &["Library/Caches/composer", ".cache/composer", ".composer/cache"] },
    ]
}

/// The known caches.
pub fn caches() -> (r: &'static [CacheDef])
    ensures
        r@ == cache_defs(),
{
    let r: &'static [CacheDef] = &[
        CacheDef { tool: "npm", rel: &[".npm/_cacache"] },
        CacheDef { tool: "pnpm", rel: &["Library/pnpm/store", ".local/share/pnpm/store", ".pnpm-store"] },
        CacheDef { tool: "yarn", rel: &["Library/Caches/Yarn", ".cache/yarn"] },
        CacheDef { tool: "pip", rel: &["Library/Caches/pip", ".cache/pip"] },
        CacheDef { tool: "uv", rel: &["Library/Caches/uv", ".cache/uv"] },
        CacheDef { tool: "cargo", rel: &[".cargo/registry/cache"] },
        CacheDef { tool: "go", rel: &["Library/Caches/go-build", ".cache/go-build"] },
        CacheDef { tool: "go-mod", rel: &["go/pkg/mod"] },
        CacheDef { tool: "gradle", rel: &[".gradle/caches"] },
        CacheDef { tool: "maven", rel: &[".m2/repository"] },
        CacheDef { tool: "huggingface", rel: &[".cache/huggingface", "Library/Caches/huggingface"] },
        CacheDef { tool: "xcode", rel: &["Library/Developer/Xcode/DerivedData"] },
        CacheDef { tool: "homebrew", rel: &["Library/Caches/Homebrew", ".cache/Homebrew"] },
        CacheDef { tool: "deno", rel: &["Library/Caches/deno", ".cache/deno", ".deno"] },
        CacheDef { tool: "composer", rel: &["Library/Caches/composer", ".cache/composer", ".composer/cache"] },
    ];
    assert(r@ =~= cache_defs());
    r
}

/// The index of the first `true` flag at or after `j`, if any.
pub open spec fn first_present_from(flags: Seq<bool>, j: int) -> Option<int>
    decreases flags.len() - j,
{
    if 0 <= j < flags.len() {
        if flags[j] {
            Some(j)
        } else {
            first_present_from(flags, j + 1)
        }
    } else {
        None
    }
}

/// For each cache among the first `n` that has a present location, in table
/// order: its first present location and its tool. `present[k][j]` says
/// whether location `j` of cache `k` is a directory.
pub open spec fn cache_hits(defs: Seq<CacheDef>, present: Seq<Seq<bool>>, n: nat) -> Seq<(&'static str, &'static str)>
    decreases n,
{
    if n == 0 {
        Seq::<(&'static str, &'static str)>::empty()
    } else {
        let k = n - 1;
        let rest = cache_hits(defs, present, k as nat);
        match first_present_from(present[k], 0) {
            Some(j) => rest.push((defs[k].rel@[j], defs[k].tool)),
            None => rest,
        }
    }
}

/// Whether `present` has one flag per candidate location of every cache.
pub open spec fn fits_table(present: Seq<Vec<bool>>) -> bool {
    &&& present.len() == cache_defs().len()
    &&& forall|k: int| 0 <= k < present.len() ==> (#[trigger] present[k])@.len() == cache_defs()[k].rel@.len()
}

/// The flags held in a vector of flag vectors.
pub open spec fn flags_view(present: Seq<Vec<bool>>) -> Seq<Seq<bool>> {
    present.map_values(|v: Vec<bool>| v@)
}

/// The first flag set at or after `from`, if any.
fn first_set(flags: &Vec<bool>, from: usize) -> (r: Option<usize>)
    requires
        from <= flags@.len(),
    ensures
        match r {
            Some(j) => j < flags@.len() && first_present_from(flags@, from as int) == Some(j as int),
            None => first_present_from(flags@, from as int) is None,
        },
    decreases flags@.len() - from,
{
    if from == flags.len() {
        None
    } else if flags[from] {
        Some(from)
    } else {
        first_set(flags, from + 1)
    }
}

/// The caches to report, as (location relative to home, tool), given which
/// candidate locations are directories: for each cache in table order, its
/// first present location; caches with none are left out.
pub fn pick_caches(present: &Vec<Vec<bool>>) -> (r: Vec<(&'static str, &'static str)>)
    requires
        fits_table(present@),
    ensures
        r@ == cache_hits(cache_defs(), flags_view(present@), cache_defs().len()),
{
    let defs = caches();
    let mut r: Vec<(&'static str, &'static str)> = Vec::new();
    let mut k: usize = 0;
    while k < defs.len()
        invariant
            defs@ == cache_defs(),
            fits_table(present@),
            k <= defs@.len(),
            r@ == cache_hits(cache_defs(), flags_view(present@), k as nat),
        decreases defs@.len() - k,
    {
        let flags = &present[k];
        assert(flags_view(present@)[k as int] == flags@);
        match first_set(flags, 0) {
            Some(j) => {
                r.push((defs[k].rel[j], defs[k].tool));
            },
            None => {},
        }
        k = k + 1;
    }
    r
}

/// The record of a cache found at `path`: its ecosystem is `cache` and its
/// label the tool's name.
pub fn cache_item(path: String, tool: &'static str, size: u64, modified: Option<i128>) -> (r: Reclaimable)
    ensures
        r.path@ == path@,
        r.ecosystem@ == "cache"@,
        r.label == tool,
        r.size == size,
        r.modified == modified,
{
    Reclaimable { path, ecosystem: "cache", label: tool, size, modified }
}

} // verus!
