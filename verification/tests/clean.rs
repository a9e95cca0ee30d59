use chaff::clean::{
    eligible, filter, interactive_options, picked_items, plan_run, protected_notes, reclaimed_message,
    tally_removed, git_lists_files, CleanOptions, RunPlan, Skip,
};
use chaff::model::Reclaimable;
use std::time::{SystemTime, UNIX_EPOCH};

const DAY_NANOS: i128 = 86_400 * 1_000_000_000;

fn now_nanos() -> i128 {
    SystemTime::now().duration_since(UNIX_EPOCH).unwrap().as_nanos() as i128
}

fn item(eco: &'static str, label: &'static str, age_days: u64, now: i128) -> Reclaimable {
    Reclaimable {
        path: "/does/not/exist".to_string(),
        ecosystem: eco,
        label,
        size: 1,
        modified: Some(now - (age_days as i128) * DAY_NANOS),
    }
}

fn opts() -> CleanOptions {
    CleanOptions {
        older_than: None,
        types: vec![],
        all: true,
        apply: false,
        force: true, // skip the git check in unit tests
        include_caches: false,
        min_size: 0,
        purge: false,
    }
}

#[test]
fn type_filter_excludes_others() {
    let now = now_nanos();
    let it = item("node", "node_modules", 1, now);
    let mut o = opts();
    o.types = vec!["rust".to_string()];
    assert_eq!(eligible(&it, &o, now, false), Err(Skip::WrongType));
    o.types = vec!["node".to_string()];
    assert_eq!(eligible(&it, &o, now, false), Ok(()));
}

#[test]
fn age_filter_excludes_recent() {
    let now = now_nanos();
    let it = item("node", "node_modules", 40, now);
    let mut o = opts();
    o.older_than = Some(30 * 86_400);
    assert_eq!(eligible(&it, &o, now, false), Ok(()));
    o.older_than = Some(100 * 86_400);
    assert_eq!(eligible(&it, &o, now, false), Err(Skip::TooNew));
}

#[test]
fn cache_type_filter_matches_tool() {
    let now = now_nanos();
    let it = item("cache", "cargo", 1, now);
    let mut o = opts();
    o.types = vec!["cache".to_string()];
    assert_eq!(eligible(&it, &o, now, false), Ok(()));
    o.types = vec!["cargo".to_string()];
    assert_eq!(eligible(&it, &o, now, false), Ok(()));
    o.types = vec!["node".to_string()];
    assert_eq!(eligible(&it, &o, now, false), Err(Skip::WrongType));
}

#[test]
fn min_size_excludes_small() {
    let now = now_nanos();
    let mut it = item("node", "node_modules", 1, now);
    it.size = 50;
    let mut o = opts();
    o.min_size = 100;
    assert_eq!(eligible(&it, &o, now, false), Err(Skip::TooSmall));
    o.min_size = 10;
    assert_eq!(eligible(&it, &o, now, false), Ok(()));
}

#[test]
fn git_files_block_unless_forced() {
    let now = now_nanos();
    let it = item("node", "node_modules", 1, now);
    let mut o = opts();
    o.force = false;
    assert_eq!(eligible(&it, &o, now, true), Err(Skip::GitTracked));
    assert_eq!(eligible(&it, &o, now, false), Ok(()));
    o.force = true;
    assert_eq!(eligible(&it, &o, now, true), Ok(()));
}

#[test]
fn checks_run_in_order() {
    let now = now_nanos();
    let mut it = item("node", "node_modules", 1, now);
    it.size = 5;
    let mut o = opts();
    o.force = false;
    o.types = vec!["rust".to_string()];
    o.min_size = 10;
    o.older_than = Some(30 * 86_400);
    assert_eq!(eligible(&it, &o, now, true), Err(Skip::WrongType));
    o.types = vec![];
    assert_eq!(eligible(&it, &o, now, true), Err(Skip::TooSmall));
    o.min_size = 0;
    assert_eq!(eligible(&it, &o, now, true), Err(Skip::TooNew));
    o.older_than = None;
    assert_eq!(eligible(&it, &o, now, true), Err(Skip::GitTracked));
}

#[test]
fn unknown_or_future_age_is_too_new() {
    let now = now_nanos();
    let mut it = item("node", "node_modules", 1, now);
    let mut o = opts();
    o.older_than = Some(0);
    it.modified = None;
    assert_eq!(eligible(&it, &o, now, false), Err(Skip::TooNew));
    it.modified = Some(now + DAY_NANOS);
    assert_eq!(eligible(&it, &o, now, false), Err(Skip::TooNew));
    it.modified = Some(now);
    assert_eq!(eligible(&it, &o, now, false), Ok(()));
}

#[test]
fn filter_counts_git_held_items() {
    let now = now_nanos();
    let mut a = item("node", "node_modules", 1, now);
    a.path = "/p/a".to_string();
    let mut b = item("rust", "target", 1, now);
    b.path = "/p/b".to_string();
    let mut c = item("python", ".venv", 1, now);
    c.path = "/p/c".to_string();
    let mut o = opts();
    o.force = false;
    o.types = vec!["node".to_string(), "rust".to_string()];
    let (chosen, held) = filter(vec![a, b, c], &o, now, |p: &String| p == "/p/b");
    assert_eq!(chosen.len(), 1);
    assert_eq!(chosen[0].path, "/p/a");
    assert_eq!(held, 1);
}

#[test]
fn filter_skips_git_check_when_forced() {
    let now = now_nanos();
    let a = item("node", "node_modules", 1, now);
    let (chosen, held) = filter(vec![a], &opts(), now, |_p: &String| true);
    assert_eq!(chosen.len(), 1);
    assert_eq!(held, 0);
}

#[test]
fn plan_requires_apply_and_filter() {
    let mut o = opts();
    assert_eq!(plan_run(&o, 0), RunPlan::NothingToClean);
    assert_eq!(plan_run(&o, 3), RunPlan::DryRun);
    o.apply = true;
    assert_eq!(plan_run(&o, 3), RunPlan::Reclaim);
    o.all = false;
    assert_eq!(plan_run(&o, 3), RunPlan::RefuseUnfiltered);
    o.types = vec!["node".to_string()];
    assert_eq!(plan_run(&o, 3), RunPlan::Reclaim);
    o.types = vec![];
    o.older_than = Some(60);
    assert_eq!(plan_run(&o, 3), RunPlan::Reclaim);
}

#[test]
fn protected_notes_name_both_counts() {
    assert!(protected_notes(0, 0).is_empty());
    assert_eq!(
        protected_notes(2, 0),
        vec!["Protected 2 item(s) with git-tracked files (use --force to include).".to_string()]
    );
    assert_eq!(
        protected_notes(1, 3),
        vec![
            "Protected 1 item(s) with git-tracked files (use --force to include).".to_string(),
            "Protected 3 path(s) via .chaffignore/config.".to_string(),
        ]
    );
}

#[test]
fn tally_counts_only_removed_items() {
    let now = now_nanos();
    let mut a = item("node", "node_modules", 1, now);
    a.size = 100;
    let mut b = item("rust", "target", 1, now);
    b.size = 250;
    let mut c = item("python", ".venv", 1, now);
    c.size = 7;
    let items = vec![a, b, c];
    assert_eq!(tally_removed(&items, &vec![true, false, true]), Some((107, 2)));
    assert_eq!(tally_removed(&items, &vec![false, false, false]), Some((0, 0)));
    let mut big = item("x", "y", 1, now);
    big.size = u64::MAX;
    let two = vec![big.clone(), big];
    assert_eq!(tally_removed(&two, &vec![true, true]), None);
    assert_eq!(tally_removed(&two, &vec![true, false]), Some((u64::MAX, 1)));
}

#[test]
fn reclaimed_message_names_destination() {
    assert_eq!(reclaimed_message(1_500_000, 2, false), "Reclaimed 1.50 MB from 2 item(s) → trash.");
    assert_eq!(
        reclaimed_message(0, 0, true),
        "Reclaimed 0 B from 0 item(s) (permanently deleted)."
    );
}

#[test]
fn interactive_options_offer_everything_safe() {
    let o = interactive_options(false, true, Some(60), 10, false);
    assert!(o.all && o.apply && !o.force && o.include_caches && !o.purge);
    assert!(o.types.is_empty());
    assert_eq!(o.older_than, Some(60));
    assert_eq!(o.min_size, 10);
}

#[test]
fn picked_items_follow_picks() {
    let now = now_nanos();
    let mut a = item("node", "node_modules", 1, now);
    a.path = "/a".to_string();
    let mut b = item("rust", "target", 1, now);
    b.path = "/b".to_string();
    let chosen = vec![a, b];
    let got = picked_items(&chosen, &vec![1, 0]);
    assert_eq!(got.len(), 2);
    assert_eq!(got[0].path, "/b");
    assert_eq!(got[1].path, "/a");
}

#[test]
fn git_output_decides_protection() {
    assert!(git_lists_files(true, true, b"a.txt\0"));
    assert!(!git_lists_files(true, true, b""));
    assert!(!git_lists_files(true, false, b"x"));
    assert!(!git_lists_files(false, false, b""));
}
