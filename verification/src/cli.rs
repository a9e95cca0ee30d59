//! Decisions the command line makes from its flags: cache scope, the
//! `--min-size` and `--older-than` values, and the listing order.

use vstd::prelude::*;
use crate::model::{
    Reclaimable, age_key, age_sort_key, path_key, path_sort_key, size_key, size_sort_key,
};
use crate::order::{
    is_stable_order, lemma_permuted_multiset, lemma_stable_order_permutes, lex_lt_at, pos_lt, sort_by_keys, vkeys,
};
use crate::util::{age_fits, parse_age, parse_age_overflows, parse_size, spec_parse_age, spec_parse_size};

verus! {

/// `--no-caches` always wins; otherwise the CLI flag or config enables caches.
pub fn effective_caches(cli_caches: bool, no_caches: bool, config_caches: bool) -> (r: bool)
    ensures
        r == (!no_caches && (cli_caches || config_caches)),
{
    !no_caches && (cli_caches || config_caches)
}

/// Whether to say that global caches are included only because the config
/// enables them (it widens what gets reclaimed, so it is made visible).
pub fn config_caches_note_needed(cli_caches: bool, no_caches: bool, config_caches: bool) -> (r: bool)
    ensures
        r == (config_caches && !cli_caches && !no_caches),
{
    config_caches && !cli_caches && !no_caches
}

/// The message for a `--min-size` value that is not a size.
pub open spec fn bad_min_size_message(s: Seq<char>) -> Seq<char> {
    "bad --min-size '"@ + s + "' (try 100M, 1.5G)"@
}

/// Parse an optional `--min-size` value into bytes (absent = no minimum).
pub fn parse_min_size(s: Option<&str>) -> (r: Result<u64, String>)
    ensures
        match s {
            None => r == Ok::<u64, String>(0),
            Some(t) => match r {
                Ok(v) => spec_parse_size(t@) == Some(v as nat),
                Err(e) => spec_parse_size(t@) is None && e@ == bad_min_size_message(t@),
            },
        },
{
    match s {
        Some(t) => match parse_size(t) {
            Some(v) => Ok(v),
            None => {
                let mut e = String::from_str("bad --min-size '");
                e.append(t);
                e.append("' (try 100M, 1.5G)");
                Err(e)
            },
        },
        None => Ok(0),
    }
}

/// The message for an `--older-than` value that is not an age.
pub open spec fn bad_older_than_message(s: Seq<char>) -> Seq<char> {
    "bad --older-than '"@ + s + "' (try 30d, 2w, 6mo)"@
}

/// The age filter in force: the command line's `--older-than`, else the
/// config's `older_than`.
pub fn effective_older_than(cli: Option<String>, config: Option<String>) -> (r: Option<String>)
    ensures
        r == (match cli {
            Some(c) => Some(c),
            None => config,
        }),
{
    match cli {
        Some(c) => Some(c),
        None => config,
    }
}

/// Parse the `--older-than` value into seconds: `Some(Ok(..))` for an age,
/// `Some(Err(..))` with the message to show for anything else, and `None`
/// when the age is beyond `u64` seconds (where the seconds cannot be
/// computed at all).
pub fn parse_older_than(s: &str) -> (r: Option<Result<u64, String>>)
    ensures
        match r {
            None => !age_fits(s@),
            Some(Ok(v)) => age_fits(s@) && spec_parse_age(s@) == Some(v as nat),
            Some(Err(e)) => age_fits(s@) && spec_parse_age(s@) is None && e@ == bad_older_than_message(s@),
        },
{
    if parse_age_overflows(s) {
        return None;
    }
    match parse_age(s) {
        Some(v) => Some(Ok(v)),
        None => {
            let mut e = String::from_str("bad --older-than '");
            e.append(s);
            e.append("' (try 30d, 2w, 6mo)");
            Some(Err(e))
        },
    }
}

/// The order in which items are listed.
#[derive(Clone, Copy, Debug, PartialEq, Eq)]
pub enum SortKey {
    Size,
    Age,
    Name,
}

/// The key by which `key` orders an item: size (largest first), age
/// (oldest first, unknown last), or path (as `Path` orders paths).
pub open spec fn item_key(r: Reclaimable, key: SortKey) -> Seq<i128> {
    match key {
        SortKey::Size => size_key(r.size),
        SortKey::Age => age_key(r.modified),
        SortKey::Name => path_key(r.path@),
    }
}

/// The keys of a list of items.
pub open spec fn item_keys(items: Seq<Reclaimable>, key: SortKey) -> Seq<Seq<i128>> {
    items.map_values(|r: Reclaimable| item_key(r, key))
}

/// `sorted` is `items` stably sorted by `key`.
pub open spec fn stably_sorted(items: Seq<Reclaimable>, sorted: Seq<Reclaimable>, key: SortKey) -> bool {
    exists|ord: Seq<int>|
        is_stable_order(item_keys(items, key), ord) && sorted.len() == ord.len() && forall|i: int|
            0 <= i < ord.len() ==> #[trigger] sorted[i] == items[ord[i]]
}

/// The ordering key of one item under `key`.
pub fn key_for(it: &Reclaimable, key: SortKey) -> (r: Vec<i128>)
    ensures
        r@ == item_key(*it, key),
{
    match key {
        SortKey::Size => size_sort_key(it.size),
        SortKey::Age => age_sort_key(it.modified),
        SortKey::Name => path_sort_key(it.path.as_str()),
    }
}

/// The ordering keys of `items` under `key`.
pub fn keys_of(items: &Vec<Reclaimable>, key: SortKey) -> (r: Vec<Vec<i128>>)
    ensures
        vkeys(r@) == item_keys(items@, key),
{
    let mut keys: Vec<Vec<i128>> = Vec::new();
    let mut i: usize = 0;
    while i < items.len()
        invariant
            i <= items@.len(),
            vkeys(keys@) == item_keys(items@.subrange(0, i as int), key),
        decreases items@.len() - i,
    {
        let k = key_for(&items[i], key);
        assert(k@ == item_key(items@[i as int], key));
        let ghost prev = keys@;
        keys.push(k);
        assert(vkeys(keys@) =~= vkeys(prev).push(k@));
        assert(items@.subrange(0, i + 1) =~= items@.subrange(0, i as int).push(items@[i as int]));
        assert(item_keys(items@.subrange(0, i + 1), key) =~= item_keys(items@.subrange(0, i as int), key).push(item_key(items@[i as int], key)));
        i = i + 1;
    }
    assert(items@.subrange(0, i as int) =~= items@);
    keys
}

/// Sort reclaimables in place by the chosen key (stably).
pub fn sort_items(items: &mut Vec<Reclaimable>, key: SortKey)
    ensures
        stably_sorted(old(items)@, final(items)@, key),
{
    let keys = keys_of(items, key);
    let mut taken: Vec<Reclaimable> = Vec::new();
    std::mem::swap(items, &mut taken);
    let sorted = sort_by_keys(taken, &keys);
    *items = sorted;
}

/// The items at least `min_size` bytes big, in order.
pub open spec fn at_least(items: Seq<Reclaimable>, min_size: u64) -> Seq<Reclaimable>
    decreases items.len(),
{
    if items.len() == 0 {
        Seq::<Reclaimable>::empty()
    } else {
        let rest = at_least(items.drop_last(), min_size);
        if items.last().size >= min_size {
            rest.push(items.last())
        } else {
            rest
        }
    }
}

/// Keep only the items at least `min_size` bytes big.
pub fn keep_at_least(items: Vec<Reclaimable>, min_size: u64) -> (r: Vec<Reclaimable>)
    ensures
        r@ == at_least(items@, min_size),
{
    let ghost orig = items@;
    let n = items.len();
    let mut rev = crate::order::reversed(items);
    let mut out: Vec<Reclaimable> = Vec::new();
    let mut k: usize = 0;
    while k < n
        invariant
            n == orig.len(),
            k <= n,
            rev@ == orig.subrange(k as int, n as int).reverse(),
            out@ == at_least(orig.subrange(0, k as int), min_size),
        decreases n - k,
    {
        let it = rev.pop().unwrap();
        assert(it == orig[k as int]);
        assert(rev@ =~= orig.subrange(k + 1, n as int).reverse());
        assert(orig.subrange(0, k + 1).drop_last() =~= orig.subrange(0, k as int));
        if it.size >= min_size {
            out.push(it);
        }
        k = k + 1;
    }
    assert(orig.subrange(0, n as int) =~= orig);
    out
}

// ---------------------------------------------------------------------------
// Laws of ordering
// ---------------------------------------------------------------------------

/// Sorting by size lists the biggest first.
pub proof fn law_size_order(items: Seq<Reclaimable>, sorted: Seq<Reclaimable>)
    requires
        stably_sorted(items, sorted, SortKey::Size),
    ensures
        forall|i: int, j: int| 0 <= i < j < sorted.len() ==> (#[trigger] sorted[i]).size >= (#[trigger] sorted[j]).size,
{
    let ord = choose|ord: Seq<int>|
        is_stable_order(item_keys(items, SortKey::Size), ord) && sorted.len() == ord.len() && forall|i: int|
            0 <= i < ord.len() ==> #[trigger] sorted[i] == items[ord[i]];
    assert forall|i: int, j: int| 0 <= i < j < sorted.len() implies (#[trigger] sorted[i]).size >= (
    #[trigger] sorted[j]).size by {
        let keys = item_keys(items, SortKey::Size);
        assert(pos_lt(keys, ord[i], ord[j]));
        assert(keys[ord[i]] == size_key(sorted[i].size));
        assert(keys[ord[j]] == size_key(sorted[j].size));
        reveal_with_fuel(lex_lt_at, 2);
    }
}

/// Sorting by age lists the oldest first and items of unknown age last.
pub proof fn law_age_order(items: Seq<Reclaimable>, sorted: Seq<Reclaimable>)
    requires
        stably_sorted(items, sorted, SortKey::Age),
    ensures
        forall|i: int, j: int|
            0 <= i < j < sorted.len() && (#[trigger] sorted[j]).modified is Some ==> ((#[trigger] sorted[i]).modified
                matches Some(a) && a <= sorted[j].modified->Some_0),
{
    let ord = choose|ord: Seq<int>|
        is_stable_order(item_keys(items, SortKey::Age), ord) && sorted.len() == ord.len() && forall|i: int|
            0 <= i < ord.len() ==> #[trigger] sorted[i] == items[ord[i]];
    assert forall|i: int, j: int|
        0 <= i < j < sorted.len() && (#[trigger] sorted[j]).modified is Some implies ((#[trigger] sorted[i]).modified
            matches Some(a) && a <= sorted[j].modified->Some_0) by {
        let keys = item_keys(items, SortKey::Age);
        assert(pos_lt(keys, ord[i], ord[j]));
        assert(keys[ord[i]] == age_key(sorted[i].modified));
        assert(keys[ord[j]] == age_key(sorted[j].modified));
        reveal_with_fuel(lex_lt_at, 3);
    }
}

/// Sorting neither loses nor invents items: the result holds the same
/// items as many times each.
pub proof fn law_sort_keeps_items(items: Seq<Reclaimable>, sorted: Seq<Reclaimable>, key: SortKey)
    requires
        stably_sorted(items, sorted, key),
    ensures
        sorted.len() == items.len(),
        sorted.to_multiset() == items.to_multiset(),
{
    let ord = choose|ord: Seq<int>|
        is_stable_order(item_keys(items, key), ord) && sorted.len() == ord.len() && forall|i: int|
            0 <= i < ord.len() ==> #[trigger] sorted[i] == items[ord[i]];
    lemma_stable_order_permutes(item_keys(items, key), ord);
    lemma_permuted_multiset(items, ord, sorted);
}

} // verus!
