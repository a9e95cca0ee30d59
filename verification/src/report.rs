//! The human-readable and JSON reports: sizes, ages, totals, per-ecosystem
//! breakdowns, chart bars, and the text of the table and the chart.

use vstd::prelude::*;
use crate::model::{Reclaimable, elapsed_secs, elapsed_seconds};
use crate::order::{is_stable_order, lex_lt, sort_by_keys, vkeys, lemma_lex_irreflexive};
use crate::rules::{names_view, str_eq};
use crate::text::{decimal, decimal_string, pad_left, pad_left_seq, pad_right, pad_right_seq, push_char};

verus! {

// ---------------------------------------------------------------------------
// Sizes
// ---------------------------------------------------------------------------

/// What `humansize::format_size(bytes, DECIMAL)` renders for `bytes`.
pub uninterp spec fn humansize_decimal(bytes: u64) -> Seq<char>;

/// Calls `humansize::format_size` with the `DECIMAL` (SI) options. Claims only
/// that the text is the named rendering of `bytes`.
#[verifier::external_body]
fn format_size_decimal(bytes: u64) -> (r: String)
    ensures
        r@ == humansize_decimal(bytes),
{
    humansize::format_size(bytes, humansize::DECIMAL)
}

/// Format a byte count as a human-readable size (e.g. "1.2 GB").
pub fn human(bytes: u64) -> (r: String)
    ensures
        r@ == humansize_decimal(bytes),
{
    format_size_decimal(bytes)
}

/// How many rows to display given an optional cap.
pub fn visible_count(total: usize, limit: Option<usize>) -> (r: usize)
    ensures
        r == (match limit {
            None => total,
            Some(n) => if n < total {
                n
            } else {
                total
            },
        }),
{
    match limit {
        None => total,
        Some(n) => if n < total {
            n
        } else {
            total
        },
    }
}

/// `size * width / max` rounded to the nearest integer (halves up), for
/// `max > 0`.
pub open spec fn rounded_bar(size: u64, max: u64, width: usize) -> int {
    let p = size as int * width as int;
    p / (max as int) + if 2 * (p % (max as int)) >= max as int {
        1int
    } else {
        0int
    }
}

/// The length of a bar for `size` relative to `max` over `width` cells: the
/// rounded scale [`rounded_bar`], capped at `width`; no bar when `max` is
/// zero.
pub open spec fn spec_bar_len(size: u64, max: u64, width: usize) -> int {
    if max == 0 {
        0
    } else if rounded_bar(size, max, width) > width {
        width as int
    } else {
        rounded_bar(size, max, width)
    }
}

/// Length of a bar (in cells) for `size` relative to `max`, capped at
/// `width` (`width` cells for `size == max`).
pub fn bar_len(size: u64, max: u64, width: usize) -> (r: usize)
    ensures
        r == spec_bar_len(size, max, width),
        r <= width,
{
    if max == 0 {
        return 0;
    }
    let s = size as u128;
    let w = width as u128;
    assert(s * w <= 0xffff_ffff_ffff_ffffu128 * 0xffff_ffff_ffff_ffffu128) by (nonlinear_arith)
        requires
            s <= 0xffff_ffff_ffff_ffffu128,
            w <= 0xffff_ffff_ffff_ffffu128,
    ;
    let p = s * w;
    let m = max as u128;
    let q = p / m;
    let rem = p % m;
    let up: u128 = if 2 * rem >= m {
        1
    } else {
        0
    };
    assert(q <= p) by (nonlinear_arith)
        requires
            q == p / m,
            m >= 1,
    ;
    let len = q + up;
    if len > w {
        width
    } else {
        len as usize
    }
}

// ---------------------------------------------------------------------------
// Ages
// ---------------------------------------------------------------------------

/// A compact age for `secs` seconds: years, months (30 days), weeks, days,
/// hours, or "new" under an hour.
pub open spec fn age_text(secs: nat) -> Seq<char> {
    let days = secs / 86_400;
    if days >= 365 {
        decimal(days / 365) + seq!['y']
    } else if days >= 30 {
        decimal(days / 30) + seq!['m', 'o']
    } else if days >= 7 {
        decimal(days / 7) + seq!['w']
    } else if days >= 1 {
        decimal(days) + seq!['d']
    } else if secs >= 3600 {
        decimal(secs / 3600) + seq!['h']
    } else {
        seq!['n', 'e', 'w']
    }
}

/// The compact age for an optional elapsed time ("-" when unknown).
pub open spec fn age_label_text(elapsed: Option<u64>) -> Seq<char> {
    match elapsed {
        Some(s) => age_text(s as nat),
        None => seq!['-'],
    }
}

fn with_suffix(n: u64, suffix: &str) -> (r: String)
    ensures
        r@ == decimal(n as nat) + suffix@,
{
    let mut s = decimal_string(n);
    s.append(suffix);
    s
}

/// Compact human age (e.g. "3d", "2w", "5mo") from an elapsed time in
/// seconds.
pub fn age_label(elapsed: Option<u64>) -> (r: String)
    ensures
        r@ == age_label_text(elapsed),
{
    proof {
        reveal_strlit("y");
        reveal_strlit("mo");
        reveal_strlit("w");
        reveal_strlit("d");
        reveal_strlit("h");
        reveal_strlit("new");
        reveal_strlit("-");
    }
    let secs = match elapsed {
        Some(s) => s,
        None => {
            let r = String::from_str("-");
            assert(r@ =~= seq!['-']);
            return r;
        },
    };
    let days = secs / 86_400;
    let r = if days >= 365 {
        with_suffix(days / 365, "y")
    } else if days >= 30 {
        with_suffix(days / 30, "mo")
    } else if days >= 7 {
        with_suffix(days / 7, "w")
    } else if days >= 1 {
        with_suffix(days, "d")
    } else if secs >= 3600 {
        with_suffix(secs / 3600, "h")
    } else {
        String::from_str("new")
    };
    assert(r@ =~= age_label_text(elapsed));
    r
}

/// Compact human age of a last-modified time at time `now`.
pub fn age(modified: Option<i128>, now: i128) -> (r: String)
    ensures
        r@ == age_label_text(match elapsed_secs(modified, now) {
            Some(e) => Some(if e > u64::MAX { u64::MAX } else { e as u64 }),
            None => None,
        }),
{
    age_label(elapsed_seconds(modified, now))
}

// ---------------------------------------------------------------------------
// Totals and breakdowns
// ---------------------------------------------------------------------------

/// The total size of `items`.
pub open spec fn size_sum(items: Seq<Reclaimable>) -> nat
    decreases items.len(),
{
    if items.len() == 0 {
        0
    } else {
        size_sum(items.drop_last()) + items.last().size as nat
    }
}

/// The total size of the items of ecosystem `eco`.
pub open spec fn eco_sum(items: Seq<Reclaimable>, eco: Seq<char>) -> nat
    decreases items.len(),
{
    if items.len() == 0 {
        0
    } else {
        eco_sum(items.drop_last(), eco) + if items.last().ecosystem@ == eco {
            items.last().size as nat
        } else {
            0nat
        }
    }
}

/// Whether some item belongs to ecosystem `eco`.
pub open spec fn has_eco(items: Seq<Reclaimable>, eco: Seq<char>) -> bool {
    exists|i: int| 0 <= i < items.len() && items[i].ecosystem@ == eco
}

/// The ordering key of a string: its characters' code points (the order of
/// `str`'s `Ord`, which compares UTF-8 bytes).
pub open spec fn str_key(s: Seq<char>) -> Seq<i128> {
    s.map_values(|c: char| (c as u32) as i128)
}

/// `rows` is the per-ecosystem breakdown of `items`: one row per ecosystem
/// present, in ascending ecosystem order, each with its total size.
pub open spec fn is_eco_breakdown(items: Seq<Reclaimable>, rows: Seq<(&'static str, u64)>) -> bool {
    &&& forall|i: int, j: int|
        0 <= i < j < rows.len() ==> lex_lt(str_key(#[trigger] rows[i].0@), str_key(#[trigger] rows[j].0@))
    &&& forall|i: int|
        0 <= i < rows.len() ==> has_eco(items, #[trigger] rows[i].0@) && rows[i].1 == eco_sum(
            items,
            rows[i].0@,
        )
    &&& forall|k: int|
        0 <= k < items.len() ==> exists|i: int| 0 <= i < rows.len() && #[trigger] rows[i].0@ == (
        #[trigger] items[k]).ecosystem@
}

pub proof fn lemma_eco_sum_bound(items: Seq<Reclaimable>, eco: Seq<char>)
    ensures
        eco_sum(items, eco) <= size_sum(items),
    decreases items.len(),
{
    if items.len() > 0 {
        lemma_eco_sum_bound(items.drop_last(), eco);
    }
}

pub proof fn lemma_size_sum_prefix(items: Seq<Reclaimable>, k: int)
    requires
        0 <= k <= items.len(),
    ensures
        size_sum(items.subrange(0, k)) <= size_sum(items),
    decreases items.len() - k,
{
    if k < items.len() {
        lemma_size_sum_prefix(items, k + 1);
        assert(items.subrange(0, k + 1).drop_last() =~= items.subrange(0, k));
    } else {
        assert(items.subrange(0, k) =~= items);
    }
}

proof fn lemma_str_key_injective(a: Seq<char>, b: Seq<char>)
    requires
        str_key(a) == str_key(b),
    ensures
        a == b,
{
    assert(a.len() == str_key(a).len());
    assert(b.len() == str_key(b).len());
    assert forall|i: int| 0 <= i < a.len() implies a[i] == b[i] by {
        assert(str_key(a)[i] == str_key(b)[i]);
        assert(str_key(a)[i] == (a[i] as u32) as i128);
        assert(str_key(b)[i] == (b[i] as u32) as i128);
        let ua = a[i] as u32;
        let ub = b[i] as u32;
        assert(ua == ub);
        vstd::utf8::char_u32_cast(a[i], ua);
        vstd::utf8::char_u32_cast(b[i], ub);
    }
    assert(a =~= b);
}

/// The key of a string (see [`str_key`]).
fn str_sort_key(s: &str) -> (r: Vec<i128>)
    ensures
        r@ == str_key(s@),
{
    let cs = crate::text::chars_of(s);
    let mut k: Vec<i128> = Vec::new();
    let mut i: usize = 0;
    while i < cs.len()
        invariant
            i <= cs@.len(),
            cs@ == s@,
            k@ == str_key(cs@.subrange(0, i as int)),
        decreases cs@.len() - i,
    {
        k.push((cs[i] as u32) as i128);
        i = i + 1;
        assert(k@ =~= str_key(cs@.subrange(0, i as int)));
    }
    assert(cs@.subrange(0, i as int) =~= cs@);
    k
}

/// Per-ecosystem totals of `items`, in ascending ecosystem order.
pub fn eco_totals(items: &Vec<Reclaimable>) -> (r: Vec<(&'static str, u64)>)
    requires
        size_sum(items@) <= u64::MAX,
    ensures
        is_eco_breakdown(items@, r@),
{
    let mut rows: Vec<(&'static str, u64)> = Vec::new();
    let mut k: usize = 0;
    while k < items.len()
        invariant
            k <= items@.len(),
            size_sum(items@) <= u64::MAX,
            forall|i: int, j: int| 0 <= i < j < rows@.len() ==> (#[trigger] rows@[i]).0@ != (#[trigger] rows@[j]).0@,
            forall|i: int|
                0 <= i < rows@.len() ==> has_eco(items@.subrange(0, k as int), #[trigger] rows@[i].0@)
                    && rows@[i].1 == eco_sum(items@.subrange(0, k as int), rows@[i].0@),
            forall|q: int|
                0 <= q < k ==> exists|i: int| 0 <= i < rows@.len() && #[trigger] rows@[i].0@ == (
                #[trigger] items@[q]).ecosystem@,
        decreases items@.len() - k,
    {
        let it = &items[k];
        let ghost pre = items@.subrange(0, k as int);
        let ghost post = items@.subrange(0, k + 1);
        assert(post.drop_last() =~= pre);
        assert(post.last() == *it);
        proof {
            lemma_eco_sum_bound(post, it.ecosystem@);
            lemma_size_sum_prefix(items@, k + 1);
        }
        let mut j: usize = 0;
        while j < rows.len() && !str_eq(rows[j].0, it.ecosystem)
            invariant
                j <= rows@.len(),
                forall|i: int| 0 <= i < j ==> (#[trigger] rows@[i]).0@ != it.ecosystem@,
            decreases rows@.len() - j,
        {
            j = j + 1;
        }
        let ghost old_rows = rows@;
        if j < rows.len() {
            let (e, total) = rows[j];
            assert(e@ == it.ecosystem@);
            assert(total == eco_sum(pre, e@));
            let new_total = total + it.size;
            rows.set(j, (e, new_total));
            assert forall|i: int| 0 <= i < rows@.len() implies has_eco(post, #[trigger] rows@[i].0@)
                && rows@[i].1 == eco_sum(post, rows@[i].0@) by {
                assert(rows@[i].0 == old_rows[i].0);
                let w = choose|w: int| 0 <= w < pre.len() && pre[w].ecosystem@ == old_rows[i].0@;
                assert(post[w] == pre[w]);
            }
            assert forall|q: int| 0 <= q < k + 1 implies exists|i: int| 0 <= i < rows@.len() && #[trigger] rows@[i].0@ == (#[trigger] items@[q]).ecosystem@ by {
                if q == k {
                    assert(rows@[j as int].0@ == items@[q].ecosystem@);
                } else {
                    let i = choose|i: int| 0 <= i < old_rows.len() && #[trigger] old_rows[i].0@ == items@[q].ecosystem@;
                    assert(rows@[i].0 == old_rows[i].0);
                }
            }
        } else {
            rows.push((it.ecosystem, it.size));
            assert(eco_sum(pre, it.ecosystem@) == 0) by {
                lemma_eco_sum_absent(pre, it.ecosystem@, old_rows);
            }
            assert forall|i: int| 0 <= i < rows@.len() implies has_eco(post, #[trigger] rows@[i].0@)
                && rows@[i].1 == eco_sum(post, rows@[i].0@) by {
                if i < old_rows.len() {
                    assert(rows@[i] == old_rows[i]);
                    let w = choose|w: int| 0 <= w < pre.len() && pre[w].ecosystem@ == old_rows[i].0@;
                    assert(post[w] == pre[w]);
                } else {
                    assert(post[k as int].ecosystem@ == it.ecosystem@);
                }
            }
            assert forall|q: int| 0 <= q < k + 1 implies exists|i: int| 0 <= i < rows@.len() && #[trigger] rows@[i].0@ == (#[trigger] items@[q]).ecosystem@ by {
                if q == k {
                    assert(rows@[old_rows.len() as int].0@ == items@[q].ecosystem@);
                } else {
                    let i = choose|i: int| 0 <= i < old_rows.len() && #[trigger] old_rows[i].0@ == items@[q].ecosystem@;
                    assert(rows@[i] == old_rows[i]);
                }
            }
        }
        k = k + 1;
    }
    assert(items@.subrange(0, k as int) =~= items@);
    // Order the rows by ecosystem.
    let mut keys: Vec<Vec<i128>> = Vec::new();
    let mut i: usize = 0;
    while i < rows.len()
        invariant
            i <= rows@.len(),
            keys@.len() == i,
            forall|a: int| 0 <= a < i ==> (#[trigger] keys@[a])@ == str_key(rows@[a].0@),
        decreases rows@.len() - i,
    {
        keys.push(str_sort_key(rows[i].0));
        i = i + 1;
    }
    let ghost unsorted = rows@;
    let sorted = sort_by_keys(rows, &keys);
    let ghost ord = choose|ord: Seq<int>|
        is_stable_order(vkeys(keys@), ord) && sorted@.len() == ord.len() && forall|i: int|
            0 <= i < ord.len() ==> #[trigger] sorted@[i] == unsorted[ord[i]];
    assert forall|a: int, b: int| 0 <= a < b < sorted@.len() implies lex_lt(str_key(#[trigger] sorted@[a].0@), str_key(#[trigger] sorted@[b].0@)) by {
        assert(sorted@[a] == unsorted[ord[a]] && sorted@[b] == unsorted[ord[b]]);
        assert(vkeys(keys@)[ord[a]] == str_key(unsorted[ord[a]].0@));
        assert(vkeys(keys@)[ord[b]] == str_key(unsorted[ord[b]].0@));
        if ord[a] != ord[b] && str_key(unsorted[ord[a]].0@) == str_key(unsorted[ord[b]].0@) {
            lemma_str_key_injective(unsorted[ord[a]].0@, unsorted[ord[b]].0@);
            if ord[a] < ord[b] {
                assert(unsorted[ord[a]].0@ != unsorted[ord[b]].0@);
            } else {
                assert(unsorted[ord[b]].0@ != unsorted[ord[a]].0@);
            }
        }
        if ord[a] == ord[b] {
            lemma_lex_irreflexive(vkeys(keys@)[ord[a]], 0);
        }
    }
    assert forall|a: int| 0 <= a < sorted@.len() implies has_eco(items@, #[trigger] sorted@[a].0@)
        && sorted@[a].1 == eco_sum(items@, sorted@[a].0@) by {
        assert(sorted@[a] == unsorted[ord[a]]);
    }
    assert forall|q: int| 0 <= q < items@.len() implies exists|a: int| 0 <= a < sorted@.len() && #[trigger] sorted@[a].0@ == (#[trigger] items@[q]).ecosystem@ by {
        let i = choose|i: int| 0 <= i < unsorted.len() && #[trigger] unsorted[i].0@ == items@[q].ecosystem@;
        assert(crate::order::lists(ord, i));
        let a = choose|a: int| 0 <= a < ord.len() && ord[a] == i;
        assert(sorted@[a] == unsorted[i]);
    }
    sorted
}

proof fn lemma_eco_sum_absent(items: Seq<Reclaimable>, eco: Seq<char>, rows: Seq<(&'static str, u64)>)
    requires
        forall|i: int| 0 <= i < rows.len() ==> (#[trigger] rows[i]).0@ != eco,
        forall|q: int|
            0 <= q < items.len() ==> exists|i: int| 0 <= i < rows.len() && #[trigger] rows[i].0@ == (
            #[trigger] items[q]).ecosystem@,
    ensures
        eco_sum(items, eco) == 0,
    decreases items.len(),
{
    if items.len() > 0 {
        let q = items.len() - 1;
        let i = choose|i: int| 0 <= i < rows.len() && #[trigger] rows[i].0@ == items[q].ecosystem@;
        assert(items.last().ecosystem@ != eco);
        assert forall|q2: int| 0 <= q2 < items.drop_last().len() implies exists|i: int| 0 <= i < rows.len() && #[trigger] rows[i].0@ == (#[trigger] items.drop_last()[q2]).ecosystem@ by {
            assert(items.drop_last()[q2] == items[q2]);
        }
        lemma_eco_sum_absent(items.drop_last(), eco, rows);
    }
}

/// The total size of `items`, or `None` when it does not fit in 64 bits
/// (the totals, tables and charts need it to).
pub fn checked_total(items: &Vec<Reclaimable>) -> (r: Option<u64>)
    ensures
        match r {
            Some(t) => t == size_sum(items@),
            None => size_sum(items@) > u64::MAX,
        },
{
    let mut t: u64 = 0;
    let mut i: usize = 0;
    while i < items.len()
        invariant
            i <= items@.len(),
            t == size_sum(items@.subrange(0, i as int)),
        decreases items@.len() - i,
    {
        assert(items@.subrange(0, i + 1).drop_last() =~= items@.subrange(0, i as int));
        if items[i].size > u64::MAX - t {
            proof {
                lemma_size_sum_prefix(items@, i + 1);
            }
            return None;
        }
        t = t + items[i].size;
        i = i + 1;
    }
    assert(items@.subrange(0, i as int) =~= items@);
    Some(t)
}

/// The total size of `items`.
pub fn total_size(items: &Vec<Reclaimable>) -> (r: u64)
    requires
        size_sum(items@) <= u64::MAX,
    ensures
        r == size_sum(items@),
{
    let mut t: u64 = 0;
    let mut i: usize = 0;
    while i < items.len()
        invariant
            i <= items@.len(),
            size_sum(items@) <= u64::MAX,
            t == size_sum(items@.subrange(0, i as int)),
        decreases items@.len() - i,
    {
        proof {
            lemma_size_sum_prefix(items@, i + 1);
            assert(items@.subrange(0, i + 1).drop_last() =~= items@.subrange(0, i as int));
        }
        t = t + items[i].size;
        i = i + 1;
    }
    assert(items@.subrange(0, i as int) =~= items@);
    t
}

// ---------------------------------------------------------------------------
// Chart
// ---------------------------------------------------------------------------

/// The largest total among breakdown rows (0 when there are none).
pub open spec fn max_total(rows: Seq<(&'static str, u64)>) -> u64
    decreases rows.len(),
{
    if rows.len() == 0 {
        0
    } else {
        let m = max_total(rows.drop_last());
        if rows.last().1 > m {
            rows.last().1
        } else {
            m
        }
    }
}

/// The bar length [`bar_len`] returns, as a `usize` (it is at most
/// `width`).
pub open spec fn capped_bar_len(size: u64, max: u64, width: usize) -> usize {
    spec_bar_len(size, max, width) as usize
}

/// The ordering key of a breakdown row in the chart: largest total first.
pub open spec fn total_key(row: (&'static str, u64)) -> Seq<i128> {
    seq![(-(row.1 as int)) as i128]
}

/// `chart` is the bar chart of `items` over `width` cells: the per-ecosystem
/// breakdown stably sorted largest first, each row with its bar scaled to the
/// largest total.
pub open spec fn is_chart(items: Seq<Reclaimable>, chart: Seq<(&'static str, u64, usize)>, width: usize) -> bool {
    exists|base: Seq<(&'static str, u64)>, ord: Seq<int>|
        {
            &&& is_eco_breakdown(items, base)
            &&& is_stable_order(base.map_values(|row: (&'static str, u64)| total_key(row)), ord)
            &&& chart.len() == ord.len()
            &&& forall|i: int|
                0 <= i < ord.len() ==> #[trigger] chart[i] == (
                    base[ord[i]].0,
                    base[ord[i]].1,
                    capped_bar_len(base[ord[i]].1, max_total(base), width),
                )
        }
}

fn max_of(rows: &Vec<(&'static str, u64)>) -> (r: u64)
    ensures
        r == max_total(rows@),
{
    let mut m: u64 = 0;
    let mut i: usize = 0;
    while i < rows.len()
        invariant
            i <= rows@.len(),
            m == max_total(rows@.subrange(0, i as int)),
        decreases rows@.len() - i,
    {
        assert(rows@.subrange(0, i + 1).drop_last() =~= rows@.subrange(0, i as int));
        if rows[i].1 > m {
            m = rows[i].1;
        }
        i = i + 1;
    }
    assert(rows@.subrange(0, i as int) =~= rows@);
    m
}

/// Per-ecosystem chart rows: `(ecosystem, total, bar length)`, largest first,
/// bars scaled so that the largest total spans `width` cells.
pub fn chart_rows(items: &Vec<Reclaimable>, width: usize) -> (r: Vec<(&'static str, u64, usize)>)
    requires
        size_sum(items@) <= u64::MAX,
    ensures
        is_chart(items@, r@, width),
{
    let base = eco_totals(items);
    let max = max_of(&base);
    let mut keys: Vec<Vec<i128>> = Vec::new();
    let mut i: usize = 0;
    while i < base.len()
        invariant
            i <= base@.len(),
            keys@.len() == i,
            forall|a: int| 0 <= a < i ==> (#[trigger] keys@[a])@ == total_key(base@[a]),
        decreases base@.len() - i,
    {
        let mut k: Vec<i128> = Vec::new();
        k.push(-(base[i].1 as i128));
        assert(k@ =~= total_key(base@[i as int]));
        keys.push(k);
        i = i + 1;
    }
    let ghost b = base@;
    let ghost tk = b.map_values(|row: (&'static str, u64)| total_key(row));
    assert(vkeys(keys@) =~= tk);
    let sorted = sort_by_keys(base, &keys);
    let ghost ord = choose|ord: Seq<int>|
        is_stable_order(vkeys(keys@), ord) && sorted@.len() == ord.len() && forall|i: int|
            0 <= i < ord.len() ==> #[trigger] sorted@[i] == b[ord[i]];
    let mut out: Vec<(&'static str, u64, usize)> = Vec::new();
    let mut j: usize = 0;
    while j < sorted.len()
        invariant
            j <= sorted@.len(),
            sorted@.len() == ord.len(),
            max == max_total(b),
            forall|i: int| 0 <= i < ord.len() ==> #[trigger] sorted@[i] == b[ord[i]],
            out@.len() == j,
            forall|i: int|
                0 <= i < j ==> #[trigger] out@[i] == (
                    b[ord[i]].0,
                    b[ord[i]].1,
                    capped_bar_len(b[ord[i]].1, max_total(b), width),
                ),
        decreases sorted@.len() - j,
    {
        let (eco, total) = sorted[j];
        let bar = bar_len(total, max, width);
        out.push((eco, total, bar));
        j = j + 1;
    }
    assert(is_chart(items@, out@, width)) by {
        assert(is_eco_breakdown(items@, b));
        assert(is_stable_order(tk, ord));
    }
    out
}

// ---------------------------------------------------------------------------
// JSON report
// ---------------------------------------------------------------------------

/// One artifact in the JSON report.
pub struct JsonItem {
    pub path: String,
    pub kind: &'static str,
    pub ecosystem: &'static str,
    pub size_bytes: u64,
    pub age_seconds: Option<u64>,
}

/// The JSON report: total, count, and the items.
pub struct JsonReport {
    pub total_bytes: u64,
    pub count: usize,
    pub items: Vec<JsonItem>,
}

/// The age in whole seconds that the JSON report gives for an item.
pub open spec fn json_age(modified: Option<i128>, now: i128) -> Option<u64> {
    match elapsed_secs(modified, now) {
        Some(e) => Some(if e > u64::MAX { u64::MAX } else { e as u64 }),
        None => None,
    }
}

/// Whether `j` reports `item` at time `now`.
pub open spec fn reports(j: JsonItem, item: Reclaimable, now: i128) -> bool {
    &&& j.path@ == item.path@
    &&& j.kind == item.label
    &&& j.ecosystem == item.ecosystem
    &&& j.size_bytes == item.size
    &&& j.age_seconds == json_age(item.modified, now)
}

/// The values of the JSON report (`scan --json`) for `items` at time `now`.
pub fn json_report(items: &Vec<Reclaimable>, now: i128) -> (r: JsonReport)
    requires
        size_sum(items@) <= u64::MAX,
    ensures
        r.total_bytes == size_sum(items@),
        r.count == items@.len(),
        r.items@.len() == items@.len(),
        forall|i: int| 0 <= i < items@.len() ==> reports(#[trigger] r.items@[i], items@[i], now),
{
    let mut out: Vec<JsonItem> = Vec::new();
    let mut i: usize = 0;
    while i < items.len()
        invariant
            i <= items@.len(),
            out@.len() == i,
            forall|a: int| 0 <= a < i ==> reports(#[trigger] out@[a], items@[a], now),
        decreases items@.len() - i,
    {
        let it = &items[i];
        let age = elapsed_seconds(it.modified, now);
        out.push(JsonItem {
            path: it.path.clone(),
            kind: it.label,
            ecosystem: it.ecosystem,
            size_bytes: it.size,
            age_seconds: age,
        });
        i = i + 1;
    }
    JsonReport { total_bytes: total_size(items), count: items.len(), items: out }
}

// ---------------------------------------------------------------------------
// Table and chart text
// ---------------------------------------------------------------------------

/// The age column of an item at time `now`.
pub open spec fn age_of(modified: Option<i128>, now: i128) -> Seq<char> {
    age_label_text(json_age(modified, now))
}

/// The table's header line.
pub open spec fn table_header_seq() -> Seq<char> {
    pad_left_seq("SIZE"@, 11) + "  "@ + pad_left_seq("AGE"@, 6) + "  "@ + pad_right_seq("TYPE"@, 13) + " PATH"@
}

/// One table row: size right-aligned in 11 columns, age in 6, label
/// left-aligned in 13, then the path.
pub open spec fn table_row_seq(item: Reclaimable, now: i128) -> Seq<char> {
    pad_left_seq(humansize_decimal(item.size), 11) + "  "@ + pad_left_seq(age_of(item.modified, now), 6)
        + "  "@ + pad_right_seq(item.label@, 13) + " "@ + item.path@
}

/// One entry of the per-ecosystem breakdown: size, then ecosystem.
pub open spec fn breakdown_entry(row: (&'static str, u64)) -> Seq<char> {
    humansize_decimal(row.1) + " "@ + row.0@
}

/// The breakdown entries joined with `, `.
pub open spec fn breakdown_seq(rows: Seq<(&'static str, u64)>) -> Seq<char>
    decreases rows.len(),
{
    if rows.len() == 0 {
        Seq::<char>::empty()
    } else if rows.len() == 1 {
        breakdown_entry(rows[0])
    } else {
        breakdown_seq(rows.drop_last()) + ", "@ + breakdown_entry(rows.last())
    }
}

/// The summary under the table: total, item count, breakdown, and how many
/// rows were shown when not all were.
pub open spec fn summary_seq(total: u64, count: nat, breakdown: Seq<char>, shown: nat) -> Seq<char> {
    "\nReclaimable: "@ + humansize_decimal(total) + " across "@ + decimal(count) + " item(s)  ("@
        + breakdown + ")"@ + if shown < count {
        "  (showing top "@ + decimal(shown) + ")"@
    } else {
        Seq::<char>::empty()
    }
}

/// What the table says when there is nothing to show.
pub open spec fn nothing_found_seq() -> Seq<char> {
    "Nothing reclaimable found. Your projects are already tidy. 🌾"@
}

/// The rows shown under a cap.
pub open spec fn shown_count(total: nat, limit: Option<usize>) -> nat {
    match limit {
        None => total,
        Some(n) => if n < total {
            n as nat
        } else {
            total
        },
    }
}

/// `lines` is the table of `items` at time `now` with at most `limit` rows:
/// a friendly line when there are none; otherwise the header, the first
/// rows, and a summary whose total and breakdown count every item.
pub open spec fn is_table(items: Seq<Reclaimable>, limit: Option<usize>, now: i128, lines: Seq<Seq<char>>) -> bool {
    if items.len() == 0 {
        lines == seq![nothing_found_seq()]
    } else {
        let shown = shown_count(items.len(), limit);
        exists|rows: Seq<(&'static str, u64)>|
            {
                &&& is_eco_breakdown(items, rows)
                &&& lines.len() == shown + 2
                &&& lines[0] == table_header_seq()
                &&& forall|i: int| 0 <= i < shown ==> #[trigger] lines[i + 1] == table_row_seq(items[i], now)
                &&& lines[shown as int + 1] == summary_seq(size_sum(items) as u64, items.len(), breakdown_seq(rows), shown)
            }
    }
}

/// The table's header line.
pub fn table_header() -> (r: String)
    ensures
        r@ == table_header_seq(),
{
    let mut r = pad_left("SIZE", 11);
    r.append("  ");
    let a = pad_left("AGE", 6);
    r.append(a.as_str());
    r.append("  ");
    let t = pad_right("TYPE", 13);
    r.append(t.as_str());
    r.append(" PATH");
    r
}

/// One table row for `item` at time `now`.
pub fn table_row(item: &Reclaimable, now: i128) -> (r: String)
    ensures
        r@ == table_row_seq(*item, now),
{
    let h = human(item.size);
    let mut r = pad_left(h.as_str(), 11);
    r.append("  ");
    let age_s = age(item.modified, now);
    let a = pad_left(age_s.as_str(), 6);
    r.append(a.as_str());
    r.append("  ");
    let l = pad_right(item.label, 13);
    r.append(l.as_str());
    r.append(" ");
    r.append(item.path.as_str());
    r
}

/// The breakdown text: `<size> <ecosystem>` entries joined with `, `.
pub fn breakdown_text(rows: &Vec<(&'static str, u64)>) -> (r: String)
    ensures
        r@ == breakdown_seq(rows@),
{
    let mut r = String::new();
    let mut i: usize = 0;
    while i < rows.len()
        invariant
            i <= rows@.len(),
            r@ == breakdown_seq(rows@.subrange(0, i as int)),
        decreases rows@.len() - i,
    {
        let ghost prev = r@;
        if i > 0 {
            r.append(", ");
        }
        let h = human(rows[i].1);
        r.append(h.as_str());
        r.append(" ");
        r.append(rows[i].0);
        let ghost sub = rows@.subrange(0, i + 1);
        assert(sub.drop_last() =~= rows@.subrange(0, i as int));
        if i == 0 {
            assert(r@ =~= breakdown_entry(rows@[0]));
        } else {
            assert(r@ =~= prev + ", "@ + breakdown_entry(rows@[i as int]));
        }
        i = i + 1;
    }
    assert(rows@.subrange(0, i as int) =~= rows@);
    r
}

/// The lines of the size table (see [`is_table`]). The sizes must add up
/// within 64 bits.
pub fn table_lines(items: &Vec<Reclaimable>, limit: Option<usize>, now: i128) -> (r: Vec<String>)
    requires
        size_sum(items@) <= u64::MAX,
    ensures
        is_table(items@, limit, now, names_view(r@)),
{
    let mut r: Vec<String> = Vec::new();
    if items.len() == 0 {
        r.push(String::from_str("Nothing reclaimable found. Your projects are already tidy. 🌾"));
        assert(names_view(r@) =~= seq![nothing_found_seq()]);
        return r;
    }
    let shown = visible_count(items.len(), limit);
    r.push(table_header());
    let mut i: usize = 0;
    while i < shown
        invariant
            shown <= items@.len(),
            i <= shown,
            r@.len() == i + 1,
            names_view(r@)[0] == table_header_seq(),
            forall|k: int| 0 <= k < i ==> #[trigger] names_view(r@)[k + 1] == table_row_seq(items@[k], now),
        decreases shown - i,
    {
        let row = table_row(&items[i], now);
        let ghost prev = r@;
        r.push(row);
        assert(names_view(r@) =~= names_view(prev).push(row@));
        i = i + 1;
    }
    let total = total_size(items);
    let rows = eco_totals(items);
    let b = breakdown_text(&rows);
    let mut last = String::from_str("\nReclaimable: ");
    let h = human(total);
    last.append(h.as_str());
    last.append(" across ");
    let c = decimal_string(items.len() as u64);
    last.append(c.as_str());
    last.append(" item(s)  (");
    last.append(b.as_str());
    last.append(")");
    if shown < items.len() {
        last.append("  (showing top ");
        let sh = decimal_string(shown as u64);
        last.append(sh.as_str());
        last.append(")");
    }
    let ghost pre = r@;
    r.push(last);
    assert(last@ == summary_seq(total, items@.len(), breakdown_seq(rows@), shown as nat));
    assert(forall|k: int| 0 <= k < i + 1 ==> #[trigger] names_view(r@)[k] == names_view(pre)[k]);
    assert(is_eco_breakdown(items@, rows@));
    r
}

/// A bar of `n` cells.
pub open spec fn bar_seq(n: nat) -> Seq<char> {
    Seq::new(n, |_i: int| '█')
}

/// One chart line: ecosystem left-aligned in 12 columns, the bar
/// left-aligned in 28, then the total's size.
pub open spec fn chart_line_seq(row: (&'static str, u64, usize)) -> Seq<char> {
    pad_right_seq(row.0@, 12) + " "@ + pad_right_seq(bar_seq(row.2 as nat), 28) + " "@ + humansize_decimal(
        row.1,
    )
}

/// `lines` is the bar chart of `items`: nothing for no items; otherwise an
/// empty line, then one line per ecosystem, largest first, bars 28 cells
/// at most.
pub open spec fn is_chart_text(items: Seq<Reclaimable>, lines: Seq<Seq<char>>) -> bool {
    if items.len() == 0 {
        lines.len() == 0
    } else {
        exists|chart: Seq<(&'static str, u64, usize)>|
            {
                &&& is_chart(items, chart, 28)
                &&& lines.len() == chart.len() + 1
                &&& lines[0] == Seq::<char>::empty()
                &&& forall|i: int| 0 <= i < chart.len() ==> #[trigger] lines[i + 1] == chart_line_seq(chart[i])
            }
    }
}

/// The text of one chart line.
pub fn chart_line(row: (&'static str, u64, usize)) -> (r: String)
    ensures
        r@ == chart_line_seq(row),
{
    let mut bar = String::new();
    let mut k: usize = 0;
    while k < row.2
        invariant
            k <= row.2,
            bar@ == bar_seq(k as nat),
        decreases row.2 - k,
    {
        push_char(&mut bar, '█');
        k = k + 1;
        assert(bar@ =~= bar_seq(k as nat));
    }
    let mut r = pad_right(row.0, 12);
    r.append(" ");
    let b = pad_right(bar.as_str(), 28);
    r.append(b.as_str());
    r.append(" ");
    let h = human(row.1);
    r.append(h.as_str());
    r
}

/// The lines of the per-ecosystem bar chart (see [`is_chart_text`]). The
/// sizes must add up within 64 bits.
pub fn chart_lines(items: &Vec<Reclaimable>) -> (r: Vec<String>)
    requires
        size_sum(items@) <= u64::MAX,
    ensures
        is_chart_text(items@, names_view(r@)),
{
    let mut r: Vec<String> = Vec::new();
    if items.len() == 0 {
        assert(names_view(r@) =~= Seq::<Seq<char>>::empty());
        return r;
    }
    let chart = chart_rows(items, 28);
    r.push(String::new());
    let mut i: usize = 0;
    while i < chart.len()
        invariant
            i <= chart@.len(),
            r@.len() == i + 1,
            names_view(r@)[0] == Seq::<char>::empty(),
            forall|k: int| 0 <= k < i ==> #[trigger] names_view(r@)[k + 1] == chart_line_seq(chart@[k]),
        decreases chart@.len() - i,
    {
        let line = chart_line(chart[i]);
        let ghost prev = r@;
        r.push(line);
        assert(names_view(r@) =~= names_view(prev).push(line@));
        i = i + 1;
    }
    r
}

// ---------------------------------------------------------------------------
// Laws of bars
// ---------------------------------------------------------------------------

proof fn lemma_bar_rounding(size: u64, max: u64, width: usize)
    requires
        max > 0,
    ensures
        rounded_bar(size, max, width) == (2 * (size as int * width as int) + max as int) / (2 * max as int),
        rounded_bar(size, max, width) >= 0,
{
    let p = size as int * width as int;
    let m = max as int;
    let q = p / m;
    let r = p % m;
    assert(p >= 0) by (nonlinear_arith)
        requires
            p == size as int * width as int,
    ;
    vstd::arithmetic::div_mod::lemma_fundamental_div_mod(p, m);
    assert(0 <= r < m);
    assert(q >= 0) by (nonlinear_arith)
        requires
            p == m * q + r,
            p >= 0,
            0 <= r < m,
    ;
    if 2 * r >= m {
        assert(2 * p + m == (q + 1) * (2 * m) + (2 * r - m)) by (nonlinear_arith)
            requires
                p == m * q + r,
        ;
        vstd::arithmetic::div_mod::lemma_fundamental_div_mod_converse(2 * p + m, 2 * m, q + 1, 2 * r - m);
    } else {
        assert(2 * p + m == q * (2 * m) + (2 * r + m)) by (nonlinear_arith)
            requires
                p == m * q + r,
        ;
        vstd::arithmetic::div_mod::lemma_fundamental_div_mod_converse(2 * p + m, 2 * m, q, 2 * r + m);
    }
}

proof fn lemma_rounded_full(max: u64, width: usize)
    requires
        max > 0,
    ensures
        rounded_bar(max, max, width) == width,
{
    let p = max as int * width as int;
    assert(p == width as int * max as int + 0) by (nonlinear_arith)
        requires
            p == max as int * width as int,
    ;
    vstd::arithmetic::div_mod::lemma_fundamental_div_mod_converse(p, max as int, width as int, 0);
}

proof fn lemma_rounded_monotone(s1: u64, s2: u64, max: u64, width: usize)
    requires
        max > 0,
        s1 <= s2,
    ensures
        rounded_bar(s1, max, width) <= rounded_bar(s2, max, width),
{
    lemma_bar_rounding(s1, max, width);
    lemma_bar_rounding(s2, max, width);
    assert(s1 as int * width as int <= s2 as int * width as int) by (nonlinear_arith)
        requires
            s1 <= s2,
    ;
    vstd::arithmetic::div_mod::lemma_div_is_ordered(
        2 * (s1 as int * width as int) + max as int,
        2 * (s2 as int * width as int) + max as int,
        2 * max as int,
    );
}

/// The largest size gets the full width.
pub proof fn law_bar_full(max: u64, width: usize)
    requires
        max > 0,
    ensures
        spec_bar_len(max, max, width) == width,
{
    lemma_rounded_full(max, width);
}

/// A bigger size never gets a shorter bar.
pub proof fn law_bar_monotone(s1: u64, s2: u64, max: u64, width: usize)
    requires
        s1 <= s2,
    ensures
        spec_bar_len(s1, max, width) <= spec_bar_len(s2, max, width),
{
    if max > 0 {
        lemma_rounded_monotone(s1, s2, max, width);
    }
}

/// No bar is longer than the width, whatever the sizes.
pub proof fn law_bar_within_width(size: u64, max: u64, width: usize)
    ensures
        0 <= spec_bar_len(size, max, width) <= width,
{
    if max > 0 {
        lemma_bar_rounding(size, max, width);
    }
}

/// Up to the largest size the cap never bites: the bar is the rounded
/// scale itself.
pub proof fn law_bar_uncapped_up_to_max(size: u64, max: u64, width: usize)
    requires
        max > 0,
        size <= max,
    ensures
        spec_bar_len(size, max, width) == rounded_bar(size, max, width),
{
    lemma_rounded_monotone(size, max, max, width);
    lemma_rounded_full(max, width);
}

// ---------------------------------------------------------------------------
// Law of the breakdown
// ---------------------------------------------------------------------------

/// The sum of the totals of breakdown rows.
pub open spec fn row_sum(rows: Seq<(&'static str, u64)>) -> nat
    decreases rows.len(),
{
    if rows.len() == 0 {
        0
    } else {
        row_sum(rows.drop_last()) + rows.last().1 as nat
    }
}

/// The sum, over the first `k` rows, of the size of the items of the row's
/// ecosystem.
pub open spec fn eco_sums(items: Seq<Reclaimable>, rows: Seq<(&'static str, u64)>, k: nat) -> nat
    decreases k,
{
    if k == 0 {
        0
    } else {
        eco_sums(items, rows, (k - 1) as nat) + eco_sum(items, rows[k - 1].0@)
    }
}

/// No two rows name the same ecosystem.
pub open spec fn distinct_ecos(rows: Seq<(&'static str, u64)>) -> bool {
    forall|i: int, j: int| 0 <= i < j < rows.len() ==> (#[trigger] rows[i]).0@ != (#[trigger] rows[j]).0@
}

/// Whether one of the first `k` rows names ecosystem `eco`.
pub open spec fn names_eco(rows: Seq<(&'static str, u64)>, k: nat, eco: Seq<char>) -> bool {
    exists|i: int| 0 <= i < k && rows[i].0@ == eco
}

proof fn lemma_eco_sums_step(items: Seq<Reclaimable>, rows: Seq<(&'static str, u64)>, k: nat)
    requires
        items.len() > 0,
        k <= rows.len(),
        distinct_ecos(rows),
    ensures
        eco_sums(items, rows, k) == eco_sums(items.drop_last(), rows, k) + if names_eco(rows, k, items.last().ecosystem@) {
            items.last().size as nat
        } else {
            0nat
        },
    decreases k,
{
    if k > 0 {
        lemma_eco_sums_step(items, rows, (k - 1) as nat);
        let e = items.last().ecosystem@;
        if rows[k - 1].0@ == e {
            if names_eco(rows, (k - 1) as nat, e) {
                let i = choose|i: int| 0 <= i < k - 1 && rows[i].0@ == e;
                assert(rows[i].0@ != rows[k - 1].0@);
            }
        } else {
            if names_eco(rows, k, e) {
                let i = choose|i: int| 0 <= i < k && rows[i].0@ == e;
                assert(names_eco(rows, (k - 1) as nat, e));
            }
        }
    }
}

proof fn lemma_eco_sums_total(items: Seq<Reclaimable>, rows: Seq<(&'static str, u64)>)
    requires
        distinct_ecos(rows),
        forall|k: int| 0 <= k < items.len() ==> names_eco(rows, rows.len(), (#[trigger] items[k]).ecosystem@),
    ensures
        eco_sums(items, rows, rows.len()) == size_sum(items),
    decreases items.len(),
{
    if items.len() == 0 {
        lemma_eco_sums_empty(items, rows, rows.len());
    } else {
        let front = items.drop_last();
        assert forall|k: int| 0 <= k < front.len() implies names_eco(rows, rows.len(), (#[trigger] front[k]).ecosystem@) by {
            assert(front[k] == items[k]);
        }
        lemma_eco_sums_total(front, rows);
        lemma_eco_sums_step(items, rows, rows.len());
        assert(names_eco(rows, rows.len(), items[items.len() - 1].ecosystem@));
    }
}

proof fn lemma_eco_sums_empty(items: Seq<Reclaimable>, rows: Seq<(&'static str, u64)>, k: nat)
    requires
        items.len() == 0,
    ensures
        eco_sums(items, rows, k) == 0,
    decreases k,
{
    if k > 0 {
        lemma_eco_sums_empty(items, rows, (k - 1) as nat);
    }
}

proof fn lemma_row_sum_prefix(items: Seq<Reclaimable>, rows: Seq<(&'static str, u64)>, k: nat)
    requires
        k <= rows.len(),
        forall|i: int| 0 <= i < rows.len() ==> (#[trigger] rows[i]).1 == eco_sum(items, rows[i].0@),
    ensures
        row_sum(rows.subrange(0, k as int)) == eco_sums(items, rows, k),
    decreases k,
{
    if k > 0 {
        lemma_row_sum_prefix(items, rows, (k - 1) as nat);
        assert(rows.subrange(0, k as int).drop_last() =~= rows.subrange(0, k - 1));
    }
}

/// The breakdown accounts for every byte: its totals add up to the total
/// size of all items.
pub proof fn law_breakdown_adds_up(items: Seq<Reclaimable>, rows: Seq<(&'static str, u64)>)
    requires
        is_eco_breakdown(items, rows),
    ensures
        row_sum(rows) == size_sum(items),
{
    assert forall|i: int, j: int| 0 <= i < j < rows.len() implies (#[trigger] rows[i]).0@ != (#[trigger] rows[j]).0@ by {
        if rows[i].0@ == rows[j].0@ {
            lemma_lex_irreflexive(str_key(rows[i].0@), 0);
        }
    }
    assert forall|k: int| 0 <= k < items.len() implies names_eco(rows, rows.len(), (#[trigger] items[k]).ecosystem@) by {
        let i = choose|i: int| 0 <= i < rows.len() && #[trigger] rows[i].0@ == items[k].ecosystem@;
    }
    lemma_eco_sums_total(items, rows);
    lemma_row_sum_prefix(items, rows, rows.len());
    assert(rows.subrange(0, rows.len() as int) =~= rows);
}

} // verus!
