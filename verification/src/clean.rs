//! What `clean` may remove: the per-item safety and filter checks, ignore
//! protection, the decision of what a non-interactive run does with the
//! chosen items, and the tallies and messages of a run.

use vstd::prelude::*;
use crate::model::{Reclaimable, elapsed_nanos, nanos_per_sec};
use crate::order::reversed;
use crate::rules::{names_view, str_eq};
use crate::config::{any_glob_matches, globset_patterns, is_ignored};
use crate::cli::{SortKey, sort_items, stably_sorted};
use crate::report::{human, humansize_decimal};
use crate::text::{decimal, decimal_string};
use globset::GlobSet;

verus! {

/// What the user asked `clean` to do.
pub struct CleanOptions {
    /// Only items untouched for at least this many seconds.
    pub older_than: Option<u64>,
    /// Only items whose ecosystem or label is one of these (all when empty).
    pub types: Vec<String>,
    pub all: bool,
    pub apply: bool,
    pub force: bool,
    pub include_caches: bool,
    /// Only items at least this many bytes big.
    pub min_size: u64,
    /// Delete permanently instead of moving to the trash.
    pub purge: bool,
}

/// Why an item was excluded from cleaning.
#[derive(Debug, PartialEq, Eq, Structural)]
pub enum Skip {
    TooNew,
    TooSmall,
    WrongType,
    GitTracked,
}

/// Whether the type filter lets `item` through: no filter, or a filter entry
/// equal to the item's ecosystem or label.
pub open spec fn type_selected(item: Reclaimable, types: Seq<Seq<char>>) -> bool {
    types.len() == 0 || exists|i: int|
        0 <= i < types.len() && (types[i] == item.ecosystem@ || types[i] == item.label@)
}

/// Whether the age filter lets `item` through at time `now`: no filter, or
/// the item's modification time is known, not in the future, and at least
/// `older_than` seconds back.
pub open spec fn old_enough(item: Reclaimable, older_than: Option<u64>, now: i128) -> bool {
    match older_than {
        None => true,
        Some(n) => match elapsed_nanos(item.modified, now) {
            Some(e) => e >= n * nanos_per_sec(),
            None => false,
        },
    }
}

/// The verdict on `item` under `opts` at time `now`, given whether its
/// directory holds files committed to git. The checks run in this order: type,
/// size, age, then (unless forced) git.
pub open spec fn spec_eligible(item: Reclaimable, opts: CleanOptions, now: i128, in_repo: bool) -> Result<(), Skip> {
    if !type_selected(item, names_view(opts.types@)) {
        Err(Skip::WrongType)
    } else if item.size < opts.min_size {
        Err(Skip::TooSmall)
    } else if !old_enough(item, opts.older_than, now) {
        Err(Skip::TooNew)
    } else if !opts.force && in_repo {
        Err(Skip::GitTracked)
    } else {
        Ok(())
    }
}

/// Whether the verdict on `item` depends on the git check (every other check
/// passed and `--force` is off).
pub open spec fn needs_git_check(item: Reclaimable, opts: CleanOptions, now: i128) -> bool {
    spec_eligible(item, opts, now, false) is Ok && !opts.force
}

/// Whether the type filter `types` lets `item` through.
fn type_matches(types: &Vec<String>, item: &Reclaimable) -> (r: bool)
    ensures
        r == type_selected(*item, names_view(types@)),
{
    if types.len() == 0 {
        return true;
    }
    let mut i: usize = 0;
    while i < types.len()
        invariant
            i <= types@.len(),
            forall|k: int|
                0 <= k < i ==> !(#[trigger] types@[k]@ == item.ecosystem@ || types@[k]@ == item.label@),
        decreases types@.len() - i,
    {
        if str_eq(types[i].as_str(), item.ecosystem) || str_eq(types[i].as_str(), item.label) {
            assert(names_view(types@)[i as int] == types@[i as int]@);
            return true;
        }
        i = i + 1;
    }
    assert forall|k: int| 0 <= k < names_view(types@).len() implies !(#[trigger] names_view(types@)[k]
        == item.ecosystem@ || names_view(types@)[k] == item.label@) by {
        assert(names_view(types@)[k] == types@[k]@);
    }
    false
}

/// Decide whether `item` should be cleaned under `opts` at time `now`
/// (nanoseconds since the Unix epoch), given whether its directory holds files
/// committed to git.
pub fn eligible(item: &Reclaimable, opts: &CleanOptions, now: i128, in_repo: bool) -> (r: Result<(), Skip>)
    ensures
        r == spec_eligible(*item, *opts, now, in_repo),
{
    if !type_matches(&opts.types, item) {
        return Err(Skip::WrongType);
    }
    if item.size < opts.min_size {
        return Err(Skip::TooSmall);
    }
    match opts.older_than {
        Some(n) => {
            let old_enough = match item.modified {
                Some(m) => {
                    if m <= now {
                        let d: u128 = if m >= 0 || now < 0 {
                            (now - m) as u128
                        } else {
                            (now as u128) + ((-(m + 1)) as u128) + 1
                        };
                        d >= (n as u128) * 1_000_000_000
                    } else {
                        false
                    }
                },
                None => false,
            };
            if !old_enough {
                return Err(Skip::TooNew);
            }
        },
        None => {},
    }
    if !opts.force && in_repo {
        return Err(Skip::GitTracked);
    }
    Ok(())
}

/// The items whose verdict is `Ok`, in order.
pub open spec fn chosen(items: Seq<Reclaimable>, ds: Seq<Result<(), Skip>>) -> Seq<Reclaimable>
    decreases items.len(),
{
    if items.len() == 0 {
        Seq::<Reclaimable>::empty()
    } else {
        let rest = chosen(items.drop_last(), ds.drop_last());
        if ds[items.len() - 1] is Ok {
            rest.push(items.last())
        } else {
            rest
        }
    }
}

/// How many verdicts are `Err(GitTracked)`.
pub open spec fn git_held_count(ds: Seq<Result<(), Skip>>) -> nat
    decreases ds.len(),
{
    if ds.len() == 0 {
        0
    } else {
        git_held_count(ds.drop_last()) + if ds.last() == Err::<(), Skip>(Skip::GitTracked) {
            1nat
        } else {
            0nat
        }
    }
}

/// The verdicts on `items` at time `now`, given the git answers `ts`.
pub open spec fn verdicts(items: Seq<Reclaimable>, opts: CleanOptions, now: i128, ts: Seq<bool>) -> Seq<Result<(), Skip>> {
    Seq::new(items.len(), |i: int| spec_eligible(items[i], opts, now, ts[i]))
}

proof fn lemma_git_held_count_bound(ds: Seq<Result<(), Skip>>)
    ensures
        git_held_count(ds) <= ds.len(),
    decreases ds.len(),
{
    if ds.len() > 0 {
        lemma_git_held_count_bound(ds.drop_last());
    }
}

/// Apply [`eligible`] to every item: the chosen items, in order, and how many
/// were held back only because they hold files committed to git. The git check
/// (`in_git`, given the item's path) runs only for items that passed
/// every other check while `--force` is off; whatever it answers, the result
/// is the one those answers determine.
pub fn filter<F: Fn(&String) -> bool>(items: Vec<Reclaimable>, opts: &CleanOptions, now: i128, in_git: F) -> (r: (Vec<Reclaimable>, u32))
    requires
        items@.len() <= u32::MAX,
        forall|p: &String| in_git.requires((p,)),
    ensures
        exists|ts: Seq<bool>|
            {
                &&& ts.len() == items@.len()
                &&& forall|i: int|
                    0 <= i < items@.len() && needs_git_check(items@[i], *opts, now) ==> in_git.ensures(
                        (&items@[i].path,),
                        #[trigger] ts[i],
                    )
                &&& r.0@ == chosen(items@, verdicts(items@, *opts, now, ts))
                &&& r.1 as nat == git_held_count(verdicts(items@, *opts, now, ts))
            },
{
    let ghost orig = items@;
    let n = items.len();
    let mut rev = reversed(items);
    let mut out: Vec<Reclaimable> = Vec::new();
    let mut held: u32 = 0;
    let ghost mut ts: Seq<bool> = Seq::empty();
    let mut k: usize = 0;
    while k < n
        invariant
            n == orig.len(),
            n <= u32::MAX,
            k <= n,
            rev@ == orig.subrange(k as int, n as int).reverse(),
            ts.len() == k,
            forall|p: &String| in_git.requires((p,)),
            forall|i: int|
                0 <= i < k && needs_git_check(orig[i], *opts, now) ==> in_git.ensures(
                    (&orig[i].path,),
                    #[trigger] ts[i],
                ),
            out@ == chosen(orig.subrange(0, k as int), verdicts(orig.subrange(0, k as int), *opts, now, ts)),
            held as nat == git_held_count(verdicts(orig.subrange(0, k as int), *opts, now, ts)),
        decreases n - k,
    {
        let it = rev.pop().unwrap();
        assert(it == orig[k as int]);
        assert(rev@ =~= orig.subrange(k + 1, n as int).reverse());
        let pre = eligible(&it, opts, now, false);
        let ghost mut t: bool = false;
        let verdict = if pre.is_ok() && !opts.force {
            let answer = in_git(&it.path);
            proof {
                t = answer;
            }
            eligible(&it, opts, now, answer)
        } else {
            proof {
                assert(spec_eligible(it, *opts, now, false) == spec_eligible(it, *opts, now, t));
            }
            pre
        };
        let ghost prev_ts = ts;
        proof {
            ts = ts.push(t);
        }
        let ghost sub = orig.subrange(0, k + 1);
        let ghost vs = verdicts(sub, *opts, now, ts);
        assert(sub.drop_last() =~= orig.subrange(0, k as int));
        assert(vs.drop_last() =~= verdicts(orig.subrange(0, k as int), *opts, now, prev_ts));
        assert(vs[k as int] == verdict);
        proof {
            lemma_git_held_count_bound(vs);
        }
        match verdict {
            Ok(()) => {
                out.push(it);
            },
            Err(Skip::GitTracked) => {
                held = held + 1;
            },
            Err(_) => {},
        }
        k = k + 1;
    }
    assert(orig.subrange(0, n as int) =~= orig);
    (out, held)
}

/// Whether the user narrowed what `clean --apply` removes.
pub fn has_selection(opts: &CleanOptions) -> (r: bool)
    ensures
        r == (opts.all || opts.types@.len() > 0 || opts.older_than is Some),
{
    opts.all || opts.types.len() > 0 || opts.older_than.is_some()
}

/// What a non-interactive `clean` run does with the items it chose.
#[derive(Debug, PartialEq, Eq, Structural)]
pub enum RunPlan {
    /// Nothing passed the filters: say so.
    NothingToClean,
    /// Show what would go, delete nothing (no `--apply`).
    DryRun,
    /// Refuse: `--apply` without any filter would remove everything.
    RefuseUnfiltered,
    /// Remove the chosen items.
    Reclaim,
}

/// Decide what a non-interactive run does with `chosen_count` chosen items.
pub fn plan_run(opts: &CleanOptions, chosen_count: usize) -> (r: RunPlan)
    ensures
        r == (if chosen_count == 0 {
            RunPlan::NothingToClean
        } else if !opts.apply {
            RunPlan::DryRun
        } else if !(opts.all || opts.types@.len() > 0 || opts.older_than is Some) {
            RunPlan::RefuseUnfiltered
        } else {
            RunPlan::Reclaim
        }),
{
    if chosen_count == 0 {
        RunPlan::NothingToClean
    } else if !opts.apply {
        RunPlan::DryRun
    } else if !has_selection(opts) {
        RunPlan::RefuseUnfiltered
    } else {
        RunPlan::Reclaim
    }
}

/// The items whose path no glob of `patterns` matches, in order.
pub open spec fn unignored(items: Seq<Reclaimable>, patterns: Seq<Seq<char>>) -> Seq<Reclaimable>
    decreases items.len(),
{
    if items.len() == 0 {
        Seq::<Reclaimable>::empty()
    } else {
        let rest = unignored(items.drop_last(), patterns);
        if any_glob_matches(patterns, items.last().path@) {
            rest
        } else {
            rest.push(items.last())
        }
    }
}

proof fn lemma_unignored_len(items: Seq<Reclaimable>, patterns: Seq<Seq<char>>)
    ensures
        unignored(items, patterns).len() <= items.len(),
    decreases items.len(),
{
    if items.len() > 0 {
        lemma_unignored_len(items.drop_last(), patterns);
    }
}

/// Drop the items protected by the ignore set; also returns how many were
/// dropped.
pub fn drop_ignored(items: Vec<Reclaimable>, ignore: &GlobSet) -> (r: (Vec<Reclaimable>, usize))
    ensures
        r.0@ == unignored(items@, globset_patterns(*ignore)),
        r.1 == items@.len() - r.0@.len(),
{
    let ghost orig = items@;
    let ghost pats = globset_patterns(*ignore);
    let n = items.len();
    let mut rev = reversed(items);
    let mut out: Vec<Reclaimable> = Vec::new();
    let mut k: usize = 0;
    while k < n
        invariant
            n == orig.len(),
            k <= n,
            pats == globset_patterns(*ignore),
            rev@ == orig.subrange(k as int, n as int).reverse(),
            out@ == unignored(orig.subrange(0, k as int), pats),
        decreases n - k,
    {
        let it = rev.pop().unwrap();
        assert(it == orig[k as int]);
        assert(rev@ =~= orig.subrange(k + 1, n as int).reverse());
        assert(orig.subrange(0, k + 1).drop_last() =~= orig.subrange(0, k as int));
        if !is_ignored(ignore, it.path.as_str()) {
            out.push(it);
        }
        k = k + 1;
    }
    assert(orig.subrange(0, n as int) =~= orig);
    proof {
        lemma_unignored_len(orig, pats);
    }
    let dropped = n - out.len();
    (out, dropped)
}

/// Drop `.chaffignore` matches from the scanned items and sort them largest
/// first. Returns the items and how many were protected by ignore rules.
pub fn collect(items: Vec<Reclaimable>, ignore: &GlobSet) -> (r: (Vec<Reclaimable>, usize))
    ensures
        stably_sorted(unignored(items@, globset_patterns(*ignore)), r.0@, SortKey::Size),
        r.1 == items@.len() - unignored(items@, globset_patterns(*ignore)).len(),
{
    let (mut kept, dropped) = drop_ignored(items, ignore);
    sort_items(&mut kept, SortKey::Size);
    (kept, dropped)
}

/// The notes printed after a run about what was protected: items held back
/// because they hold files committed to git, then paths protected by ignore
/// rules; a note only when its count is not zero.
pub open spec fn protected_notes_seq(git_held: u32, ignored: usize) -> Seq<Seq<char>> {
    let a = if git_held > 0 {
        seq![
            "Protected "@ + decimal(git_held as nat)
                + " item(s) with git-tracked files (use --force to include)."@,
        ]
    } else {
        Seq::<Seq<char>>::empty()
    };
    let b = if ignored > 0 {
        seq!["Protected "@ + decimal(ignored as nat) + " path(s) via .chaffignore/config."@]
    } else {
        Seq::<Seq<char>>::empty()
    };
    a + b
}

/// The lines that report what a run protected (see [`protected_notes_seq`]).
pub fn protected_notes(git_held: u32, ignored: usize) -> (r: Vec<String>)
    ensures
        names_view(r@) == protected_notes_seq(git_held, ignored),
{
    let mut r: Vec<String> = Vec::new();
    if git_held > 0 {
        let mut line = String::from_str("Protected ");
        let n = decimal_string(git_held as u64);
        line.append(n.as_str());
        line.append(" item(s) with git-tracked files (use --force to include).");
        r.push(line);
    }
    if ignored > 0 {
        let mut line = String::from_str("Protected ");
        let n = decimal_string(ignored as u64);
        line.append(n.as_str());
        line.append(" path(s) via .chaffignore/config.");
        r.push(line);
    }
    assert(names_view(r@) =~= protected_notes_seq(git_held, ignored));
    r
}

/// The total size of the items whose removal succeeded, among the first `n`.
pub open spec fn removed_size(items: Seq<Reclaimable>, done: Seq<bool>, n: nat) -> nat
    decreases n,
{
    if n == 0 {
        0
    } else {
        removed_size(items, done, (n - 1) as nat) + if done[n - 1] {
            items[n - 1].size as nat
        } else {
            0nat
        }
    }
}

/// How many removals succeeded among the first `n`.
pub open spec fn removed_count(done: Seq<bool>, n: nat) -> nat
    decreases n,
{
    if n == 0 {
        0
    } else {
        removed_count(done, (n - 1) as nat) + if done[n - 1] {
            1nat
        } else {
            0nat
        }
    }
}

proof fn lemma_removed_grows(items: Seq<Reclaimable>, done: Seq<bool>, a: nat, b: nat)
    requires
        a <= b,
    ensures
        removed_size(items, done, a) <= removed_size(items, done, b),
        removed_count(done, a) <= removed_count(done, b),
    decreases b - a,
{
    if a < b {
        lemma_removed_grows(items, done, a, (b - 1) as nat);
    }
}

/// Add up what was reclaimed: `done[i]` says whether removing `items[i]`
/// succeeded. Returns the bytes reclaimed and the number of items removed,
/// or `None` when either total does not fit its type.
pub fn tally_removed(items: &Vec<Reclaimable>, done: &Vec<bool>) -> (r: Option<(u64, u32)>)
    requires
        items@.len() == done@.len(),
    ensures
        match r {
            Some((bytes, count)) => bytes == removed_size(items@, done@, items@.len()) && count
                == removed_count(done@, items@.len()),
            None => removed_size(items@, done@, items@.len()) > u64::MAX || removed_count(
                done@,
                items@.len(),
            ) > u32::MAX,
        },
{
    let mut bytes: u64 = 0;
    let mut count: u32 = 0;
    let mut i: usize = 0;
    while i < items.len()
        invariant
            items@.len() == done@.len(),
            i <= items@.len(),
            bytes == removed_size(items@, done@, i as nat),
            count == removed_count(done@, i as nat),
        decreases items@.len() - i,
    {
        if done[i] {
            if items[i].size > u64::MAX - bytes || count == u32::MAX {
                proof {
                    lemma_removed_grows(items@, done@, (i + 1) as nat, items@.len());
                }
                return None;
            }
            bytes = bytes + items[i].size;
            count = count + 1;
        }
        i = i + 1;
    }
    Some((bytes, count))
}

/// The closing line of a run that removed `count` items holding `reclaimed`
/// bytes: to the trash, or permanently with `--purge`.
pub open spec fn reclaimed_line(reclaimed: u64, count: u32, purge: bool) -> Seq<char> {
    "Reclaimed "@ + humansize_decimal(reclaimed) + " from "@ + decimal(count as nat) + if purge {
        " item(s) (permanently deleted)."@
    } else {
        " item(s) → trash."@
    }
}

/// The closing line of a run (see [`reclaimed_line`]).
pub fn reclaimed_message(reclaimed: u64, count: u32, purge: bool) -> (r: String)
    ensures
        r@ == reclaimed_line(reclaimed, count, purge),
{
    let mut r = String::from_str("Reclaimed ");
    let h = human(reclaimed);
    r.append(h.as_str());
    r.append(" from ");
    let n = decimal_string(count as u64);
    r.append(n.as_str());
    if purge {
        r.append(" item(s) (permanently deleted).");
    } else {
        r.append(" item(s) → trash.");
    }
    r
}

/// The options of the interactive picker: every safe item is offered (no
/// type filter), the choice is applied, and the age, size, force and cache
/// settings come from the command line.
pub fn interactive_options(
    force: bool,
    include_caches: bool,
    older_than: Option<u64>,
    min_size: u64,
    purge: bool,
) -> (r: CleanOptions)
    ensures
        r.older_than == older_than,
        r.types@.len() == 0,
        r.all,
        r.apply,
        r.force == force,
        r.include_caches == include_caches,
        r.min_size == min_size,
        r.purge == purge,
{
    CleanOptions { older_than, types: Vec::new(), all: true, apply: true, force, include_caches, min_size, purge }
}

/// `a` and `b` describe the same artifact.
pub open spec fn same_item(a: Reclaimable, b: Reclaimable) -> bool {
    &&& a.path@ == b.path@
    &&& a.ecosystem == b.ecosystem
    &&& a.label == b.label
    &&& a.size == b.size
    &&& a.modified == b.modified
}

/// A copy of an item.
pub fn copy_item(it: &Reclaimable) -> (r: Reclaimable)
    ensures
        same_item(r, *it),
{
    Reclaimable {
        path: it.path.clone(),
        ecosystem: it.ecosystem,
        label: it.label,
        size: it.size,
        modified: it.modified,
    }
}

/// The items the user picked, in the order of `picks`.
pub fn picked_items(chosen: &Vec<Reclaimable>, picks: &Vec<usize>) -> (r: Vec<Reclaimable>)
    requires
        forall|k: int| 0 <= k < picks@.len() ==> #[trigger] picks@[k] < chosen@.len(),
    ensures
        r@.len() == picks@.len(),
        forall|k: int| 0 <= k < picks@.len() ==> same_item(#[trigger] r@[k], chosen@[picks@[k] as int]),
{
    let mut r: Vec<Reclaimable> = Vec::new();
    let mut k: usize = 0;
    while k < picks.len()
        invariant
            k <= picks@.len(),
            forall|j: int| 0 <= j < picks@.len() ==> #[trigger] picks@[j] < chosen@.len(),
            r@.len() == k,
            forall|j: int| 0 <= j < k ==> same_item(#[trigger] r@[j], chosen@[picks@[j] as int]),
        decreases picks@.len() - k,
    {
        r.push(copy_item(&chosen[picks[k]]));
        k = k + 1;
    }
    r
}

/// Whether `git ls-files` reported files under an artifact: the command ran,
/// succeeded, and printed something. If git is missing or the path is not
/// inside a repository, nothing committed needs protecting.
pub fn git_lists_files(ran: bool, success: bool, stdout: &[u8]) -> (r: bool)
    ensures
        r == (ran && success && stdout@.len() > 0),
{
    ran && success && stdout.len() > 0
}

// ---------------------------------------------------------------------------
// Laws of cleaning
// ---------------------------------------------------------------------------

/// Files committed to git are never removed without `--force`: an item
/// whose directory holds such files is never eligible.
pub proof fn law_git_files_protected(item: Reclaimable, opts: CleanOptions, now: i128)
    requires
        !opts.force,
    ensures
        spec_eligible(item, opts, now, true) is Err,
{
}

/// With `--force` the git check makes no difference to any verdict.
pub proof fn law_force_ignores_git(item: Reclaimable, opts: CleanOptions, now: i128)
    requires
        opts.force,
    ensures
        spec_eligible(item, opts, now, true) == spec_eligible(item, opts, now, false),
{
}

/// `x` is a scanned item of a selected type, at least `--min-size` big, at
/// least `--older-than` old, and (without `--force`) free of files committed
/// to git according to the answers `ts`.
pub open spec fn passes_checks(items: Seq<Reclaimable>, opts: CleanOptions, now: i128, ts: Seq<bool>, x: Reclaimable) -> bool {
    exists|i: int|
        0 <= i < items.len() && items[i] == x && type_selected(items[i], names_view(opts.types@))
            && items[i].size >= opts.min_size && old_enough(items[i], opts.older_than, now) && (opts.force || !ts[i])
}

/// Whatever the git check answered, every chosen item passes every check
/// (see [`passes_checks`]).
pub proof fn law_chosen_pass_checks(items: Seq<Reclaimable>, opts: CleanOptions, now: i128, ts: Seq<bool>)
    requires
        ts.len() == items.len(),
    ensures
        forall|k: int|
            0 <= k < chosen(items, verdicts(items, opts, now, ts)).len() ==> passes_checks(
                items,
                opts,
                now,
                ts,
                #[trigger] chosen(items, verdicts(items, opts, now, ts))[k],
            ),
    decreases items.len(),
{
    if items.len() > 0 {
        let front = items.drop_last();
        let tf = ts.drop_last();
        law_chosen_pass_checks(front, opts, now, tf);
        let vs = verdicts(items, opts, now, ts);
        assert(vs.drop_last() =~= verdicts(front, opts, now, tf));
        let c = chosen(items, vs);
        let cf = chosen(front, verdicts(front, opts, now, tf));
        assert forall|k: int| 0 <= k < c.len() implies passes_checks(items, opts, now, ts, #[trigger] c[k]) by {
            if k < cf.len() {
                assert(c[k] == cf[k]);
                assert(passes_checks(front, opts, now, tf, cf[k]));
                let i = choose|i: int|
                    0 <= i < front.len() && front[i] == cf[k] && type_selected(front[i], names_view(opts.types@))
                        && front[i].size >= opts.min_size && old_enough(front[i], opts.older_than, now) && (opts.force
                        || !tf[i]);
                assert(items[i] == front[i] && ts[i] == tf[i]);
            } else {
                let i = items.len() - 1;
                assert(c[k] == items[i]);
                assert(vs[i] == spec_eligible(items[i], opts, now, ts[i]));
            }
        }
    }
}

/// No item that an ignore glob matches is ever kept, and every kept item
/// was scanned.
pub proof fn law_ignored_never_kept(items: Seq<Reclaimable>, patterns: Seq<Seq<char>>)
    ensures
        forall|k: int|
            0 <= k < unignored(items, patterns).len() ==> !any_glob_matches(
                patterns,
                #[trigger] unignored(items, patterns)[k].path@,
            ) && exists|i: int| 0 <= i < items.len() && items[i] == unignored(items, patterns)[k],
    decreases items.len(),
{
    if items.len() > 0 {
        let front = items.drop_last();
        law_ignored_never_kept(front, patterns);
        let u = unignored(items, patterns);
        let uf = unignored(front, patterns);
        assert forall|k: int| 0 <= k < u.len() implies !any_glob_matches(patterns, #[trigger] u[k].path@) && exists|i: int|
            0 <= i < items.len() && items[i] == u[k] by {
            if k < uf.len() {
                assert(u[k] == uf[k]);
                assert(!any_glob_matches(patterns, uf[k].path@));
                let i = choose|i: int| 0 <= i < front.len() && front[i] == uf[k];
                assert(items[i] == front[i]);
            } else {
                assert(u[k] == items[items.len() - 1]);
            }
        }
    }
}

/// Nothing is removed by a non-interactive run without `--apply` and a
/// filter (`--all`, `--type` or `--older-than`).
pub proof fn law_reclaim_needs_apply_and_filter(opts: CleanOptions, chosen_count: usize)
    ensures
        (if chosen_count == 0 {
            RunPlan::NothingToClean
        } else if !opts.apply {
            RunPlan::DryRun
        } else if !(opts.all || opts.types@.len() > 0 || opts.older_than is Some) {
            RunPlan::RefuseUnfiltered
        } else {
            RunPlan::Reclaim
        }) == RunPlan::Reclaim ==> opts.apply && (opts.all || opts.types@.len() > 0 || opts.older_than is Some),
{
}

/// The type filter compares whole names: with a non-empty `--type` list an
/// item is turned away as `WrongType` exactly when no entry equals its
/// ecosystem or its label (a prefix such as `go` for `godot` does not
/// count), and an item that is let through has such an entry.
pub proof fn law_type_filter_is_exact(item: Reclaimable, opts: CleanOptions, now: i128, in_repo: bool)
    ensures
        (spec_eligible(item, opts, now, in_repo) == Err::<(), Skip>(Skip::WrongType)) <==> (opts.types@.len() > 0
            && forall|i: int|
            0 <= i < opts.types@.len() ==> (#[trigger] opts.types@[i])@ != item.ecosystem@ && opts.types@[i]@
                != item.label@),
        spec_eligible(item, opts, now, in_repo) is Ok && opts.types@.len() > 0 ==> exists|i: int|
            0 <= i < opts.types@.len() && ((#[trigger] opts.types@[i])@ == item.ecosystem@ || opts.types@[i]@
                == item.label@),
{
    let tv = names_view(opts.types@);
    if opts.types@.len() > 0 {
        if forall|i: int|
            0 <= i < opts.types@.len() ==> (#[trigger] opts.types@[i])@ != item.ecosystem@ && opts.types@[i]@
                != item.label@ {
            assert forall|i: int| 0 <= i < tv.len() implies !(#[trigger] tv[i] == item.ecosystem@ || tv[i]
                == item.label@) by {
                assert(tv[i] == opts.types@[i]@);
            }
        } else {
            let i = choose|i: int|
                0 <= i < opts.types@.len() && !((#[trigger] opts.types@[i])@ != item.ecosystem@ && opts.types@[i]@
                    != item.label@);
            assert(tv[i] == opts.types@[i]@);
        }
        if type_selected(item, tv) {
            let i = choose|i: int| 0 <= i < tv.len() && (tv[i] == item.ecosystem@ || tv[i] == item.label@);
            assert(tv[i] == opts.types@[i]@);
        }
    }
}

/// The age filter counts whole seconds back from `now`: an item of the
/// selected type and size is turned away as `TooNew` under `--older-than n`
/// exactly when its modification time is unknown, in the future, or less
/// than `n` seconds (`n * 10^9` nanoseconds) before `now`.
pub proof fn law_age_filter_exact(item: Reclaimable, opts: CleanOptions, now: i128, in_repo: bool, n: u64)
    requires
        opts.older_than == Some(n),
        spec_eligible(item, opts, now, in_repo) != Err::<(), Skip>(Skip::WrongType),
        item.size >= opts.min_size,
    ensures
        (spec_eligible(item, opts, now, in_repo) == Err::<(), Skip>(Skip::TooNew)) <==> !(item.modified matches Some(m)
            && m <= now && now - m >= n * 1_000_000_000),
{
}

} // verus!
