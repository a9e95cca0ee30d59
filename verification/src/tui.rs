//! The state of the interactive picker and every decision it makes: which
//! items the filter shows, in what order, where the cursor stands, what is
//! selected, and what each key press does. Drawing the screen and reading
//! keys are left to the caller, which hands each key to [`App::handle_key`].

use vstd::prelude::*;
use crate::cli::{SortKey, item_key, item_keys, key_for};
use crate::model::Reclaimable;
use crate::order::{is_stable_order, lists, lists_usize, stable_order, vkeys};
use crate::report::{human, humansize_decimal};
use crate::text::{
    chars_of, contains_chars, contains_seq, decimal, decimal_string, pad_left, pad_left_seq, pad_right,
    pad_right_seq, str_to_lowercase, string_of, to_lowercase, push_char,
};

verus! {

/// The order in which the picker lists items; `s` cycles through them.
#[derive(Clone, Copy, Debug, PartialEq, Eq)]
pub enum Sort {
    Size,
    Age,
    Name,
}

/// The mode that follows `s` in the cycle size, age, name.
pub open spec fn next_sort(s: Sort) -> Sort {
    match s {
        Sort::Size => Sort::Age,
        Sort::Age => Sort::Name,
        Sort::Name => Sort::Size,
    }
}

/// The name under which a mode is shown.
pub open spec fn sort_label(s: Sort) -> Seq<char> {
    match s {
        Sort::Size => "size"@,
        Sort::Age => "age"@,
        Sort::Name => "name"@,
    }
}

/// The listing key that a mode sorts by.
pub open spec fn sort_key(s: Sort) -> SortKey {
    match s {
        Sort::Size => SortKey::Size,
        Sort::Age => SortKey::Age,
        Sort::Name => SortKey::Name,
    }
}

impl Sort {
    /// The next mode in the cycle.
    pub fn next(self) -> (r: Sort)
        ensures
            r == next_sort(self),
    {
        match self {
            Sort::Size => Sort::Age,
            Sort::Age => Sort::Name,
            Sort::Name => Sort::Size,
        }
    }

    /// The mode's name.
    pub fn label(self) -> (r: &'static str)
        ensures
            r@ == sort_label(self),
    {
        match self {
            Sort::Size => "size",
            Sort::Age => "age",
            Sort::Name => "name",
        }
    }

    /// The listing key this mode sorts by: size largest first, age oldest
    /// first (unknown last), name by path.
    pub fn key(self) -> (r: SortKey)
        ensures
            r == sort_key(self),
    {
        match self {
            Sort::Size => SortKey::Size,
            Sort::Age => SortKey::Age,
            Sort::Name => SortKey::Name,
        }
    }
}

/// Picker state. `order` holds indices into `items` in display order
/// (filtered and sorted); `selected` is indexed by position in `items`;
/// `cursor` is the highlighted position in `order`, if any.
pub struct App<'a> {
    pub items: &'a [Reclaimable],
    pub selected: Vec<bool>,
    pub order: Vec<usize>,
    pub cursor: Option<usize>,
    pub sort: Sort,
    pub filtering: bool,
    pub query: String,
}

/// The text the filter looks for: the query lowercased (nothing for an
/// empty query).
pub open spec fn filter_text(query: Seq<char>) -> Seq<char> {
    if query.len() == 0 {
        Seq::<char>::empty()
    } else {
        str_to_lowercase(query)
    }
}

/// Whether the filter `q` (already lowercased) shows `item`: an empty filter
/// shows everything; otherwise the lowercased label, ecosystem or path must
/// contain it.
pub open spec fn shows(item: Reclaimable, q: Seq<char>) -> bool {
    ||| q.len() == 0
    ||| contains_seq(str_to_lowercase(item.label@), q)
    ||| contains_seq(str_to_lowercase(item.ecosystem@), q)
    ||| contains_seq(str_to_lowercase(item.path@), q)
}

/// The indices below `n` of the items that `q` shows, in increasing order.
pub open spec fn shown(items: Seq<Reclaimable>, q: Seq<char>, n: nat) -> Seq<usize>
    decreases n,
{
    if n == 0 {
        Seq::<usize>::empty()
    } else {
        let rest = shown(items, q, (n - 1) as nat);
        if shows(items[n - 1], q) {
            rest.push((n - 1) as usize)
        } else {
            rest
        }
    }
}

/// The items at the given indices.
pub open spec fn at_indices(items: Seq<Reclaimable>, idx: Seq<usize>) -> Seq<Reclaimable> {
    idx.map_values(|i: usize| items[i as int])
}

/// `order` lists the items that `q` shows, stably sorted by `sort`'s key.
pub open spec fn display_order(items: Seq<Reclaimable>, q: Seq<char>, sort: Sort, order: Seq<usize>) -> bool {
    let f = shown(items, q, items.len());
    exists|ord: Seq<int>|
        is_stable_order(item_keys(at_indices(items, f), sort_key(sort)), ord) && order.len() == ord.len()
            && forall|i: int| 0 <= i < ord.len() ==> #[trigger] order[i] == f[ord[i]]
}

/// Where the cursor goes when the list is rebuilt with `len` rows: it stays
/// where it was if that row still exists, moves to the last row if the list
/// got shorter, to the first if it had none, and is dropped on an empty list.
pub open spec fn settled_cursor(c: Option<usize>, len: nat) -> Option<usize> {
    match c {
        Some(p) => if p >= len {
            if len == 0 {
                None
            } else {
                Some((len - 1) as usize)
            }
        } else {
            Some(p)
        },
        None => if len > 0 {
            Some(0usize)
        } else {
            None
        },
    }
}

/// `post` is `pre` with the list rebuilt from `post`'s filter and sort mode:
/// the items and selection are unchanged, the order is the display order,
/// and the cursor has settled.
pub open spec fn rebuilt<'a>(pre: App<'a>, post: App<'a>) -> bool {
    &&& post.items@ == pre.items@
    &&& post.selected@ == pre.selected@
    &&& display_order(post.items@, filter_text(post.query@), post.sort, post.order@)
    &&& post.cursor == settled_cursor(pre.cursor, post.order@.len())
}

/// `post` keeps the items, rows, cursor and selection of `pre`, except
/// those named by the flags.
pub open spec fn keeps<'a>(pre: App<'a>, post: App<'a>, order: bool, cursor: bool, selected: bool) -> bool {
    &&& post.items@ == pre.items@
    &&& (!order ==> post.order@ == pre.order@)
    &&& (!cursor ==> post.cursor == pre.cursor)
    &&& (!selected ==> post.selected@ == pre.selected@)
}

/// The state is consistent: one selection flag per item, no more rows than
/// items, every row names an item, and the cursor (if any) is on a row.
pub open spec fn app_wf<'a>(app: App<'a>) -> bool {
    &&& app.selected@.len() == app.items@.len()
    &&& app.items@.len() <= isize::MAX
    &&& app.order@.len() <= app.items@.len()
    &&& forall|k: int| 0 <= k < app.order@.len() ==> #[trigger] app.order@[k] < app.items@.len()
    &&& match app.cursor {
        Some(p) => p < app.order@.len(),
        None => true,
    }
}

/// The filter, sort mode and filtering flag are those of `pre`.
pub open spec fn same_settings<'a>(pre: App<'a>, post: App<'a>) -> bool {
    &&& post.sort == pre.sort
    &&& post.filtering == pre.filtering
    &&& post.query@ == pre.query@
}

/// Nothing changed.
pub open spec fn unchanged<'a>(pre: App<'a>, post: App<'a>) -> bool {
    keeps(pre, post, false, false, false) && same_settings(pre, post)
}

/// The cursor's position, the first row when there is none.
pub open spec fn cursor_pos(c: Option<usize>) -> int {
    match c {
        Some(p) => p as int,
        None => 0,
    }
}

/// `post` is `pre` with the cursor moved by `delta` rows, wrapping around
/// at either end; on an empty list nothing moves.
pub open spec fn moved<'a>(pre: App<'a>, post: App<'a>, delta: int) -> bool {
    &&& keeps(pre, post, false, true, false)
    &&& same_settings(pre, post)
    &&& (pre.order@.len() == 0 ==> post.cursor == pre.cursor)
    &&& (pre.order@.len() > 0 ==> post.cursor == Some(
        ((cursor_pos(pre.cursor) + delta) % (pre.order@.len() as int)) as usize,
    ))
}

/// The item under the cursor, if the cursor is on a row.
pub open spec fn current_item<'a>(app: App<'a>) -> Option<usize> {
    match app.cursor {
        Some(p) => if p < app.order@.len() {
            Some(app.order@[p as int])
        } else {
            None
        },
        None => None,
    }
}

/// `post` is `pre` with the item under the cursor flipped between selected
/// and not (nothing changes when the cursor is on no row).
pub open spec fn toggled_current<'a>(pre: App<'a>, post: App<'a>) -> bool {
    &&& keeps(pre, post, false, false, true)
    &&& same_settings(pre, post)
    &&& match current_item(pre) {
        Some(i) => post.selected@ == pre.selected@.update(i as int, !pre.selected@[i as int]),
        None => post.selected@ == pre.selected@,
    }
}

/// Whether item `i` is on a row of the list.
pub open spec fn is_visible<'a>(app: App<'a>, i: int) -> bool {
    exists|k: int| 0 <= k < app.order@.len() && app.order@[k] == i
}

/// Whether the list has rows and every one of them is selected.
pub open spec fn all_visible_selected<'a>(app: App<'a>) -> bool {
    app.order@.len() > 0 && forall|k: int|
        0 <= k < app.order@.len() ==> app.selected@[#[trigger] app.order@[k] as int]
}

/// `post` is `pre` with every listed item deselected if all of them were
/// selected, and selected otherwise; items the filter hides keep their flag.
pub open spec fn toggled_all<'a>(pre: App<'a>, post: App<'a>) -> bool {
    &&& keeps(pre, post, false, false, true)
    &&& same_settings(pre, post)
    &&& post.selected@.len() == pre.selected@.len()
    &&& forall|i: int|
        0 <= i < pre.selected@.len() ==> #[trigger] post.selected@[i] == if is_visible(pre, i) {
            !all_visible_selected(pre)
        } else {
            pre.selected@[i]
        }
}

/// The indices below `n` whose flag is set, in increasing order.
pub open spec fn picked(sel: Seq<bool>, n: nat) -> Seq<usize>
    decreases n,
{
    if n == 0 {
        Seq::<usize>::empty()
    } else {
        let rest = picked(sel, (n - 1) as nat);
        if sel[n - 1] {
            rest.push((n - 1) as usize)
        } else {
            rest
        }
    }
}

proof fn lemma_shown_len(items: Seq<Reclaimable>, q: Seq<char>, n: nat)
    ensures
        shown(items, q, n).len() <= n,
    decreases n,
{
    if n > 0 {
        lemma_shown_len(items, q, (n - 1) as nat);
    }
}

/// A key press, as far as the picker tells keys apart.
#[derive(Clone, Copy, Debug, PartialEq, Eq)]
pub enum Key {
    Char(char),
    Esc,
    Enter,
    Backspace,
    Up,
    Down,
    Other,
}

/// What the picker does after a key: keep going, or finish with the chosen
/// item indices (empty when cancelled).
#[derive(Debug)]
pub enum Step {
    Continue,
    Done(Vec<usize>),
}

/// What a key means while browsing (not typing a filter).
#[derive(Clone, Copy, Debug, PartialEq, Eq)]
pub enum Command {
    Quit,
    Filter,
    CycleSort,
    Down,
    Up,
    Toggle,
    ToggleAll,
    Accept,
    Nothing,
}

/// The browsing meaning of each key: `q`/Esc quit, `/` filters, `s` cycles
/// the sort, Down/`j` and Up/`k` move, space toggles, `a` toggles all,
/// Enter accepts.
pub open spec fn browse_command(key: Key) -> Command {
    match key {
        Key::Char(c) => if c == 'q' {
            Command::Quit
        } else if c == '/' {
            Command::Filter
        } else if c == 's' {
            Command::CycleSort
        } else if c == 'j' {
            Command::Down
        } else if c == 'k' {
            Command::Up
        } else if c == ' ' {
            Command::Toggle
        } else if c == 'a' {
            Command::ToggleAll
        } else {
            Command::Nothing
        },
        Key::Esc => Command::Quit,
        Key::Enter => Command::Accept,
        Key::Down => Command::Down,
        Key::Up => Command::Up,
        _ => Command::Nothing,
    }
}

/// `s` without its last character (unchanged when empty), as `String::pop`
/// leaves it.
pub open spec fn without_last(s: Seq<char>) -> Seq<char> {
    if s.len() == 0 {
        s
    } else {
        s.drop_last()
    }
}

/// The total size of the selected items among the first `n`.
pub open spec fn selected_sum(items: Seq<Reclaimable>, sel: Seq<bool>, n: nat) -> nat
    decreases n,
{
    if n == 0 {
        0
    } else {
        selected_sum(items, sel, (n - 1) as nat) + if sel[n - 1] {
            items[n - 1].size as nat
        } else {
            0nat
        }
    }
}

/// The check box of a row.
pub open spec fn mark_text(on: bool) -> Seq<char> {
    if on {
        "[x]"@
    } else {
        "[ ]"@
    }
}

/// The text of one row: check box, size right-aligned in 10 columns, label
/// left-aligned in 13, and the path.
pub open spec fn row_seq(item: Reclaimable, on: bool) -> Seq<char> {
    mark_text(on) + " "@ + pad_left_seq(humansize_decimal(item.size), 10) + "  "@ + pad_right_seq(
        item.label@,
        13,
    ) + " "@ + item.path@
}

/// The title of the list, naming the sort mode and the keys.
pub open spec fn title_seq(sort: Sort) -> Seq<char> {
    " chaff — sort:"@ + sort_label(sort) + " · / filter · space · a all · enter reclaim · q quit "@
}

/// The footer: the filter being typed and how many rows it shows, or how
/// many items are selected and their total size.
pub open spec fn footer_seq(filtering: bool, query: Seq<char>, shown_rows: nat, count: nat, total: u64) -> Seq<char> {
    if filtering {
        " filter: "@ + query + "▌  ("@ + decimal(shown_rows) + " shown) "@
    } else {
        " selected "@ + decimal(count) + " item(s) — "@ + humansize_decimal(total) + " to reclaim (→ trash) "@
    }
}

/// Whether the lowercased filter `q` shows `item`.
fn item_shows(item: &Reclaimable, q: &Vec<char>) -> (r: bool)
    ensures
        r == shows(*item, q@),
{
    if q.len() == 0 {
        return true;
    }
    let label = to_lowercase(item.label);
    if contains_chars(&chars_of(label.as_str()), q) {
        return true;
    }
    let eco = to_lowercase(item.ecosystem);
    if contains_chars(&chars_of(eco.as_str()), q) {
        return true;
    }
    let path = to_lowercase(item.path.as_str());
    contains_chars(&chars_of(path.as_str()), q)
}

impl<'a> App<'a> {
    /// A picker over `items`: nothing selected, no filter, sorted by size.
    pub fn new(items: &'a [Reclaimable]) -> (r: App<'a>)
        requires
            items@.len() <= isize::MAX,
        ensures
            r.items@ == items@,
            r.selected@ == Seq::new(items@.len(), |_i: int| false),
            r.sort == Sort::Size,
            !r.filtering,
            r.query@ == Seq::<char>::empty(),
            display_order(items@, Seq::<char>::empty(), Sort::Size, r.order@),
            r.cursor == settled_cursor(None, r.order@.len()),
            app_wf(r),
    {
        let mut selected: Vec<bool> = Vec::new();
        let mut i: usize = 0;
        while i < items.len()
            invariant
                i <= items@.len(),
                selected@ == Seq::new(i as nat, |_i: int| false),
            decreases items@.len() - i,
        {
            selected.push(false);
            i = i + 1;
            assert(selected@ =~= Seq::new(i as nat, |_i: int| false));
        }
        let mut app = App {
            items,
            selected,
            order: Vec::new(),
            cursor: None,
            sort: Sort::Size,
            filtering: false,
            query: String::new(),
        };
        app.recompute();
        app
    }

    /// Rebuild `order` from the current filter query and sort mode, and
    /// settle the cursor on the new list.
    pub fn recompute(&mut self)
        ensures
            rebuilt(*old(self), *final(self)),
            keeps(*old(self), *final(self), true, true, false),
            same_settings(*old(self), *final(self)),
            app_wf(*old(self)) ==> app_wf(*final(self)),
    {
        let q = to_lowercase(self.query.as_str());
        let qc = chars_of(q.as_str());
        assert(qc@ =~= filter_text(self.query@));
        let ghost items = self.items@;
        let n = self.items.len();
        let mut idx: Vec<usize> = Vec::new();
        let mut i: usize = 0;
        while i < n
            invariant
                n == items.len(),
                items == self.items@,
                i <= n,
                idx@ == shown(items, qc@, i as nat),
                forall|k: int| 0 <= k < idx@.len() ==> #[trigger] idx@[k] < i,
            decreases n - i,
        {
            if item_shows(&self.items[i], &qc) {
                idx.push(i);
            }
            i = i + 1;
        }
        let ghost f = idx@;
        let ghost chosen = at_indices(items, f);
        let mut keys: Vec<Vec<i128>> = Vec::new();
        let mut j: usize = 0;
        while j < idx.len()
            invariant
                f == idx@,
                items == self.items@,
                n == items.len(),
                chosen == at_indices(items, f),
                forall|k: int| 0 <= k < f.len() ==> #[trigger] f[k] < n,
                j <= idx@.len(),
                vkeys(keys@) == item_keys(chosen.subrange(0, j as int), sort_key(self.sort)),
            decreases idx@.len() - j,
        {
            let k = key_for(&self.items[idx[j]], self.sort.key());
            let ghost prev = keys@;
            assert(chosen[j as int] == items[f[j as int] as int]);
            assert(k@ == item_key(chosen[j as int], sort_key(self.sort)));
            keys.push(k);
            assert(vkeys(keys@) =~= vkeys(prev).push(k@));
            assert(chosen.subrange(0, j + 1) =~= chosen.subrange(0, j as int).push(chosen[j as int]));
            assert(vkeys(keys@) =~= item_keys(chosen.subrange(0, j + 1), sort_key(self.sort)));
            j = j + 1;
        }
        assert(chosen.subrange(0, j as int) =~= chosen);
        let perm = stable_order(&keys);
        let ghost pm = perm@.map_values(|x: usize| x as int);
        let mut order: Vec<usize> = Vec::new();
        let mut t: usize = 0;
        while t < perm.len()
            invariant
                f == idx@,
                n == items.len(),
                forall|k: int| 0 <= k < f.len() ==> #[trigger] f[k] < n,
                is_stable_order(vkeys(keys@), pm),
                keys@.len() == f.len(),
                pm == perm@.map_values(|x: usize| x as int),
                t <= perm@.len(),
                order@.len() == t,
                forall|k: int| 0 <= k < t ==> #[trigger] order@[k] == f[pm[k]],
                forall|k: int| 0 <= k < t ==> #[trigger] order@[k] < n,
            decreases perm@.len() - t,
        {
            assert(pm[t as int] == perm@[t as int] as int);
            assert(0 <= pm[t as int] < keys@.len());
            order.push(idx[perm[t]]);
            t = t + 1;
        }
        assert(perm@.len() == f.len());
        proof {
            lemma_shown_len(items, qc@, n as nat);
        }
        self.order = order;
        let len = self.order.len();
        match self.cursor {
            Some(p) => {
                if p >= len {
                    self.cursor = if len == 0 {
                        None
                    } else {
                        Some(len - 1)
                    };
                }
            },
            None => {
                if len > 0 {
                    self.cursor = Some(0);
                }
            },
        }
    }

    /// Move the cursor by `delta` rows, wrapping around at either end.
    pub fn move_cursor(&mut self, delta: isize)
        requires
            old(self).order@.len() <= isize::MAX,
            cursor_pos(old(self).cursor) <= isize::MAX,
            isize::MIN <= cursor_pos(old(self).cursor) + delta <= isize::MAX,
        ensures
            moved(*old(self), *final(self), delta as int),
            app_wf(*old(self)) ==> app_wf(*final(self)),
    {
        let len = self.order.len();
        if len == 0 {
            return;
        }
        let cur: isize = match self.cursor {
            Some(p) => p as isize,
            None => 0,
        };
        let s: isize = cur + delta;
        let next: usize = if s >= 0 {
            (s as usize) % len
        } else {
            let neg: usize = (-(s + 1)) as usize;
            let r: usize = neg % len;
            proof {
                let q: int = neg as int / len as int;
                vstd::arithmetic::div_mod::lemma_fundamental_div_mod(neg as int, len as int);
                assert(s as int == (-q - 1) * (len as int) + (len - 1 - r)) by (nonlinear_arith)
                    requires
                        neg as int == (len as int) * q + r as int,
                        s as int == -(neg as int + 1),
                ;
                vstd::arithmetic::div_mod::lemma_fundamental_div_mod_converse(
                    s as int,
                    len as int,
                    -q - 1,
                    (len - 1 - r) as int,
                );
            }
            len - 1 - r
        };
        self.cursor = Some(next);
    }

    /// Flip the item under the cursor between selected and not.
    pub fn toggle_current(&mut self)
        requires
            forall|k: int| 0 <= k < old(self).order@.len() ==> #[trigger] old(self).order@[k] < old(self).selected@.len(),
        ensures
            toggled_current(*old(self), *final(self)),
            app_wf(*old(self)) ==> app_wf(*final(self)),
    {
        match self.cursor {
            Some(p) => {
                if p < self.order.len() {
                    let i = self.order[p];
                    let v = self.selected[i];
                    self.selected.set(i, !v);
                }
            },
            None => {},
        }
    }

    /// Select every listed item, or deselect them all if all were selected.
    pub fn toggle_all_visible(&mut self)
        requires
            forall|k: int| 0 <= k < old(self).order@.len() ==> #[trigger] old(self).order@[k] < old(self).selected@.len(),
        ensures
            toggled_all(*old(self), *final(self)),
            app_wf(*old(self)) ==> app_wf(*final(self)),
    {
        let ghost pre = *self;
        let n = self.order.len();
        let mut all_on = n > 0;
        let mut k: usize = 0;
        while k < n
            invariant
                n == self.order@.len(),
                k <= n,
                self.order@ == pre.order@,
                self.selected@ == pre.selected@,
                forall|j: int| 0 <= j < n ==> #[trigger] pre.order@[j] < pre.selected@.len(),
                all_on == (n > 0 && forall|j: int| 0 <= j < k ==> pre.selected@[#[trigger] pre.order@[j] as int]),
            decreases n - k,
        {
            if !self.selected[self.order[k]] {
                all_on = false;
            }
            k = k + 1;
        }
        assert(all_on == all_visible_selected(pre));
        let mut k: usize = 0;
        while k < n
            invariant
                n == self.order@.len(),
                k <= n,
                self.order@ == pre.order@,
                self.items@ == pre.items@,
                self.cursor == pre.cursor,
                same_settings(pre, *self),
                self.selected@.len() == pre.selected@.len(),
                forall|j: int| 0 <= j < n ==> #[trigger] pre.order@[j] < pre.selected@.len(),
                forall|i: int|
                    0 <= i < pre.selected@.len() ==> #[trigger] self.selected@[i] == if exists|j: int|
                        0 <= j < k && pre.order@[j] == i {
                        !all_on
                    } else {
                        pre.selected@[i]
                    },
            decreases n - k,
        {
            let i = self.order[k];
            self.selected.set(i, !all_on);
            k = k + 1;
            assert forall|x: int| 0 <= x < pre.selected@.len() implies #[trigger] self.selected@[x] == if exists|j: int|
                0 <= j < k && pre.order@[j] == x {
                !all_on
            } else {
                pre.selected@[x]
            } by {
                if x == i {
                    assert(pre.order@[k - 1] == x);
                } else if exists|j: int| 0 <= j < k && pre.order@[j] == x {
                    let j = choose|j: int| 0 <= j < k && pre.order@[j] == x;
                    assert(j != k - 1);
                }
            }
        }
    }

    /// The indices of the selected items, in increasing order.
    pub fn picks(&self) -> (r: Vec<usize>)
        ensures
            r@ == picked(self.selected@, self.selected@.len()),
    {
        let mut r: Vec<usize> = Vec::new();
        let mut i: usize = 0;
        while i < self.selected.len()
            invariant
                i <= self.selected@.len(),
                r@ == picked(self.selected@, i as nat),
            decreases self.selected@.len() - i,
        {
            if self.selected[i] {
                r.push(i);
            }
            i = i + 1;
        }
        r
    }

    /// Apply one key press: edit the filter while typing one, otherwise
    /// browse (see [`browse_command`]). Returns whether the picker is done,
    /// and with which items.
    pub fn handle_key(&mut self, key: Key) -> (r: Step)
        requires
            app_wf(*old(self)),
        ensures
            app_wf(*final(self)),
            old(self).filtering ==> (r is Continue && match key {
                Key::Esc => final(self).query@ == Seq::<char>::empty() && !final(self).filtering
                    && final(self).sort == old(self).sort && rebuilt(*old(self), *final(self)),
                Key::Enter => !final(self).filtering && final(self).query@ == old(self).query@
                    && final(self).sort == old(self).sort && keeps(*old(self), *final(self), false, false, false),
                Key::Backspace => final(self).query@ == without_last(old(self).query@) && final(self).filtering
                    && final(self).sort == old(self).sort && rebuilt(*old(self), *final(self)),
                Key::Char(c) => final(self).query@ == old(self).query@.push(c) && final(self).filtering
                    && final(self).sort == old(self).sort && rebuilt(*old(self), *final(self)),
                _ => unchanged(*old(self), *final(self)),
            }),
            !old(self).filtering ==> match browse_command(key) {
                Command::Quit => r matches Step::Done(v) && v@.len() == 0 && unchanged(*old(self), *final(self)),
                Command::Filter => r is Continue && final(self).filtering && final(self).query@ == old(self).query@
                    && final(self).sort == old(self).sort && keeps(*old(self), *final(self), false, false, false),
                Command::CycleSort => r is Continue && final(self).sort == next_sort(old(self).sort)
                    && !final(self).filtering && final(self).query@ == old(self).query@ && rebuilt(*old(self), *final(self)),
                Command::Down => r is Continue && moved(*old(self), *final(self), 1),
                Command::Up => r is Continue && moved(*old(self), *final(self), -1),
                Command::Toggle => r is Continue && toggled_current(*old(self), *final(self)),
                Command::ToggleAll => r is Continue && toggled_all(*old(self), *final(self)),
                Command::Accept => r matches Step::Done(v) && v@ == picked(old(self).selected@, old(self).selected@.len())
                    && unchanged(*old(self), *final(self)),
                Command::Nothing => r is Continue && unchanged(*old(self), *final(self)),
            },
    {
        if self.filtering {
            match key {
                Key::Esc => {
                    self.query = String::new();
                    self.filtering = false;
                    self.recompute();
                },
                Key::Enter => {
                    self.filtering = false;
                },
                Key::Backspace => {
                    let cs = chars_of(self.query.as_str());
                    if cs.len() > 0 {
                        self.query = string_of(&cs, 0, cs.len() - 1);
                    }
                    self.recompute();
                },
                Key::Char(c) => {
                    push_char(&mut self.query, c);
                    self.recompute();
                },
                _ => {},
            }
            return Step::Continue;
        }
        match key {
            Key::Char('q') | Key::Esc => Step::Done(Vec::new()),
            Key::Char('/') => {
                self.filtering = true;
                Step::Continue
            },
            Key::Char('s') => {
                self.sort = self.sort.next();
                self.recompute();
                Step::Continue
            },
            Key::Down | Key::Char('j') => {
                self.move_cursor(1);
                Step::Continue
            },
            Key::Up | Key::Char('k') => {
                self.move_cursor(-1);
                Step::Continue
            },
            Key::Char(' ') => {
                self.toggle_current();
                Step::Continue
            },
            Key::Char('a') => {
                self.toggle_all_visible();
                Step::Continue
            },
            Key::Enter => Step::Done(self.picks()),
            _ => Step::Continue,
        }
    }

    /// The text of the row at `pos` in the list.
    pub fn row_text(&self, pos: usize) -> (r: String)
        requires
            app_wf(*self),
            pos < self.order@.len(),
        ensures
            r@ == row_seq(self.items@[self.order@[pos as int] as int], self.selected@[self.order@[pos as int] as int]),
    {
        let i = self.order[pos];
        let it = &self.items[i];
        let mut r = String::new();
        r.append(if self.selected[i] {
            "[x]"
        } else {
            "[ ]"
        });
        r.append(" ");
        let size = pad_left(human(it.size).as_str(), 10);
        r.append(size.as_str());
        r.append("  ");
        let label = pad_right(it.label, 13);
        r.append(label.as_str());
        r.append(" ");
        r.append(it.path.as_str());
        r
    }

    /// The title of the list.
    pub fn title_text(&self) -> (r: String)
        ensures
            r@ == title_seq(self.sort),
    {
        let mut r = String::new();
        r.append(" chaff — sort:");
        r.append(self.sort.label());
        r.append(" · / filter · space · a all · enter reclaim · q quit ");
        r
    }

    /// The total size of the selected items, or `None` if it does not fit
    /// in 64 bits.
    pub fn selected_size(&self) -> (r: Option<u64>)
        requires
            app_wf(*self),
        ensures
            match r {
                Some(t) => t == selected_sum(self.items@, self.selected@, self.selected@.len()),
                None => selected_sum(self.items@, self.selected@, self.selected@.len()) > u64::MAX,
            },
    {
        let mut total: u64 = 0;
        let mut i: usize = 0;
        while i < self.selected.len()
            invariant
                app_wf(*self),
                i <= self.selected@.len(),
                total == selected_sum(self.items@, self.selected@, i as nat),
            decreases self.selected@.len() - i,
        {
            if self.selected[i] {
                let size = self.items[i].size;
                if size > u64::MAX - total {
                    proof {
                        lemma_selected_sum_grows(self.items@, self.selected@, (i + 1) as nat, self.selected@.len());
                    }
                    return None;
                }
                total = total + size;
            }
            i = i + 1;
        }
        Some(total)
    }

    /// The footer text. The selected sizes must add up within 64 bits
    /// (see [`App::selected_size`]).
    pub fn footer_text(&self) -> (r: String)
        requires
            app_wf(*self),
            selected_sum(self.items@, self.selected@, self.selected@.len()) <= u64::MAX,
        ensures
            r@ == footer_seq(
                self.filtering,
                self.query@,
                self.order@.len(),
                picked(self.selected@, self.selected@.len()).len(),
                selected_sum(self.items@, self.selected@, self.selected@.len()) as u64,
            ),
    {
        let mut r = String::new();
        if self.filtering {
            r.append(" filter: ");
            r.append(self.query.as_str());
            r.append("▌  (");
            let n = decimal_string(self.order.len() as u64);
            r.append(n.as_str());
            r.append(" shown) ");
        } else {
            let count = self.picks().len();
            let total = match self.selected_size() {
                Some(t) => t,
                None => 0,
            };
            r.append(" selected ");
            let c = decimal_string(count as u64);
            r.append(c.as_str());
            r.append(" item(s) — ");
            let h = human(total);
            r.append(h.as_str());
            r.append(" to reclaim (→ trash) ");
        }
        r
    }
}

proof fn lemma_selected_sum_grows(items: Seq<Reclaimable>, sel: Seq<bool>, a: nat, b: nat)
    requires
        a <= b,
    ensures
        selected_sum(items, sel, a) <= selected_sum(items, sel, b),
    decreases b - a,
{
    if a < b {
        lemma_selected_sum_grows(items, sel, a, (b - 1) as nat);
    }
}

// ---------------------------------------------------------------------------
// Laws of the picker
// ---------------------------------------------------------------------------

/// Pressing `s` three times brings back the sort mode one started with.
pub proof fn law_sort_cycle(s: Sort)
    ensures
        next_sort(next_sort(next_sort(s))) == s,
{
}

/// Toggling the item under the cursor twice leaves the selection as it was.
pub proof fn law_toggle_current_twice<'a>(a: App<'a>, b: App<'a>, c: App<'a>)
    requires
        app_wf(a),
        toggled_current(a, b),
        toggled_current(b, c),
    ensures
        c.selected@ == a.selected@,
{
    assert(current_item(b) == current_item(a));
    match current_item(a) {
        Some(i) => {
            assert(c.selected@ =~= a.selected@);
        },
        None => {},
    }
}

/// When the listed items are all selected, or none of them is, pressing
/// `a` twice leaves the selection as it was.
pub proof fn law_toggle_all_twice<'a>(a: App<'a>, b: App<'a>, c: App<'a>)
    requires
        app_wf(a),
        all_visible_selected(a) || forall|k: int| 0 <= k < a.order@.len() ==> !a.selected@[#[trigger] a.order@[k] as int],
        toggled_all(a, b),
        toggled_all(b, c),
    ensures
        c.selected@ == a.selected@,
{
    assert(b.order@ == a.order@);
    if a.order@.len() > 0 && !all_visible_selected(a) {
        assert forall|k: int| 0 <= k < b.order@.len() implies b.selected@[#[trigger] b.order@[k] as int] by {
            assert(is_visible(a, b.order@[k] as int));
        }
        assert(all_visible_selected(b));
    } else if a.order@.len() > 0 {
        assert(is_visible(a, a.order@[0] as int));
        assert(!b.selected@[b.order@[0] as int]);
        assert(!all_visible_selected(b));
    }
    assert forall|i: int| 0 <= i < a.selected@.len() implies c.selected@[i] == a.selected@[i] by {
        assert(is_visible(b, i) == is_visible(a, i));
        if is_visible(a, i) {
            let k = choose|k: int| 0 <= k < a.order@.len() && a.order@[k] == i;
            assert(a.selected@[a.order@[k] as int] == a.selected@[i]);
        }
    }
    assert(c.selected@ =~= a.selected@);
}

/// Moving the cursor down one row and back up returns it to where it was.
pub proof fn law_move_round_trip<'a>(a: App<'a>, b: App<'a>, c: App<'a>, p: usize)
    requires
        app_wf(a),
        a.cursor == Some(p),
        p < a.order@.len(),
        moved(a, b, 1),
        moved(b, c, -1),
    ensures
        c.cursor == a.cursor,
{
    let n = a.order@.len() as int;
    assert(b.order@.len() == n);
    if p + 1 < n {
        vstd::arithmetic::div_mod::lemma_small_mod((p + 1) as nat, n as nat);
        vstd::arithmetic::div_mod::lemma_small_mod(p as nat, n as nat);
        assert(b.cursor == Some((p + 1) as usize));
        assert(cursor_pos(b.cursor) - 1 == p);
    } else {
        vstd::arithmetic::div_mod::lemma_fundamental_div_mod_converse(p + 1, n, 1, 0);
        vstd::arithmetic::div_mod::lemma_fundamental_div_mod_converse(-1, n, -1, n - 1);
        assert(b.cursor == Some(0usize));
        assert(cursor_pos(b.cursor) - 1 == -1);
    }
}

proof fn lemma_shown(items: Seq<Reclaimable>, q: Seq<char>, n: nat)
    requires
        n <= items.len(),
        n <= usize::MAX,
    ensures
        forall|k: int| 0 <= k < shown(items, q, n).len() ==> #[trigger] shown(items, q, n)[k] < n && shows(
            items[shown(items, q, n)[k] as int],
            q,
        ),
        forall|i: int| 0 <= i < n && shows(#[trigger] items[i], q) ==> lists_usize(shown(items, q, n), i),
    decreases n,
{
    if n > 0 {
        lemma_shown(items, q, (n - 1) as nat);
        let f = shown(items, q, n);
        let g = shown(items, q, (n - 1) as nat);
        assert forall|i: int| 0 <= i < n && shows(#[trigger] items[i], q) implies lists_usize(f, i) by {
            if i < n - 1 {
                let k = choose|k: int| 0 <= k < g.len() && g[k] == i;
                assert(f[k] == g[k]);
            } else {
                assert(f[g.len() as int] == i);
            }
        }
    }
}

/// The list shows exactly the items the filter matches: every row is such
/// an item, and every such item has a row. With an empty filter every item
/// is listed.
pub proof fn law_rows_are_matches(items: Seq<Reclaimable>, q: Seq<char>, sort: Sort, order: Seq<usize>)
    requires
        items.len() <= usize::MAX,
        display_order(items, q, sort, order),
    ensures
        forall|k: int| 0 <= k < order.len() ==> #[trigger] order[k] < items.len() && shows(items[order[k] as int], q),
        forall|i: int| 0 <= i < items.len() && shows(#[trigger] items[i], q) ==> lists_usize(order, i),
        q.len() == 0 ==> forall|i: int| 0 <= i < items.len() ==> #[trigger] lists_usize(order, i),
{
    let f = shown(items, q, items.len());
    lemma_shown(items, q, items.len());
    let ord = choose|ord: Seq<int>|
        is_stable_order(item_keys(at_indices(items, f), sort_key(sort)), ord) && order.len() == ord.len()
            && forall|i: int| 0 <= i < ord.len() ==> #[trigger] order[i] == f[ord[i]];
    let keys = item_keys(at_indices(items, f), sort_key(sort));
    assert(keys.len() == f.len());
    assert forall|k: int| 0 <= k < order.len() implies #[trigger] order[k] < items.len() && shows(items[order[k] as int], q) by {
        assert(order[k] == f[ord[k]]);
    }
    assert forall|i: int| 0 <= i < items.len() && shows(#[trigger] items[i], q) implies lists_usize(order, i) by {
        let x = choose|x: int| 0 <= x < f.len() && f[x] == i;
        assert(lists(ord, x));
        let k = choose|k: int| 0 <= k < ord.len() && ord[k] == x;
        assert(order[k] == i);
    }
    if q.len() == 0 {
        assert forall|i: int| 0 <= i < items.len() implies #[trigger] lists_usize(order, i) by {
            assert(shows(items[i], q));
        }
    }
}

/// The picks are exactly the selected items, each once, in increasing order.
pub proof fn law_picks_are_selected(sel: Seq<bool>, n: nat)
    requires
        n <= sel.len(),
        n <= usize::MAX,
    ensures
        forall|k: int| 0 <= k < picked(sel, n).len() ==> #[trigger] picked(sel, n)[k] < n && sel[picked(sel, n)[k] as int],
        forall|a: int, b: int| 0 <= a < b < picked(sel, n).len() ==> #[trigger] picked(sel, n)[a] < #[trigger] picked(sel, n)[b],
        forall|i: int| 0 <= i < n && #[trigger] sel[i] ==> lists_usize(picked(sel, n), i),
    decreases n,
{
    if n > 0 {
        law_picks_are_selected(sel, (n - 1) as nat);
        let f = picked(sel, n);
        let g = picked(sel, (n - 1) as nat);
        assert forall|i: int| 0 <= i < n && #[trigger] sel[i] implies lists_usize(f, i) by {
            if i < n - 1 {
                let k = choose|k: int| 0 <= k < g.len() && g[k] == i;
                assert(f[k] == g[k]);
            } else {
                assert(f[g.len() as int] == i);
            }
        }
    }
}

/// Clearing the filter lists every item again: once the list is rebuilt
/// with an empty query, each item has a row.
pub proof fn law_cleared_filter_lists_all<'a>(pre: App<'a>, post: App<'a>)
    requires
        rebuilt(pre, post),
        post.query@.len() == 0,
        post.items@.len() <= usize::MAX,
    ensures
        forall|i: int| 0 <= i < post.items@.len() ==> #[trigger] lists_usize(post.order@, i),
{
    law_rows_are_matches(post.items@, filter_text(post.query@), post.sort, post.order@);
}

/// The filter is case-insensitive on both sides: after the list is rebuilt,
/// item `i` has a row exactly when the query (or its lowercase) is empty or
/// the lowercased query occurs in the lowercased label, ecosystem or path of
/// the item.
pub proof fn law_filter_ignores_case<'a>(pre: App<'a>, post: App<'a>, i: int)
    requires
        rebuilt(pre, post),
        post.items@.len() <= usize::MAX,
        0 <= i < post.items@.len(),
    ensures
        lists_usize(post.order@, i) <==> (post.query@.len() == 0 || str_to_lowercase(post.query@).len() == 0
            || contains_seq(
            str_to_lowercase(post.items@[i].label@),
            str_to_lowercase(post.query@),
        ) || contains_seq(str_to_lowercase(post.items@[i].ecosystem@), str_to_lowercase(post.query@))
            || contains_seq(str_to_lowercase(post.items@[i].path@), str_to_lowercase(post.query@))),
{
    law_rows_are_matches(post.items@, filter_text(post.query@), post.sort, post.order@);
    if lists_usize(post.order@, i) {
        let k = choose|k: int| 0 <= k < post.order@.len() && post.order@[k] == i;
        assert(shows(post.items@[post.order@[k] as int], filter_text(post.query@)));
    }
}

} // verus!
