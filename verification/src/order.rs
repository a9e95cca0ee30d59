//! A stable sort by keys.
//!
//! Every ordering the library needs (size, age, path) is expressed as a key:
//! a sequence of integers compared lexicographically. Sorting is then stable
//! sorting by key: the result order is the unique one that is strictly
//! increasing in `(key, input position)`.

use vstd::prelude::*;

verus! {

/// Lexicographic `<` on integer sequences, from position `i` on (a proper
/// prefix is smaller).
pub open spec fn lex_lt_at(a: Seq<i128>, b: Seq<i128>, i: int) -> bool
    decreases a.len() - i,
{
    if i < 0 {
        false
    } else if i >= a.len() {
        i < b.len()
    } else if i >= b.len() {
        false
    } else if a[i] < b[i] {
        true
    } else if a[i] > b[i] {
        false
    } else {
        lex_lt_at(a, b, i + 1)
    }
}

/// Lexicographic `<` on integer sequences.
pub open spec fn lex_lt(a: Seq<i128>, b: Seq<i128>) -> bool {
    lex_lt_at(a, b, 0)
}

/// Whether `a` and `b` agree on positions `0..i`.
pub open spec fn agree_upto(a: Seq<i128>, b: Seq<i128>, i: int) -> bool {
    i <= a.len() && i <= b.len() && forall|k: int| 0 <= k < i ==> a[k] == b[k]
}

pub proof fn lemma_lex_irreflexive(a: Seq<i128>, i: int)
    requires
        0 <= i,
    ensures
        !lex_lt_at(a, a, i),
    decreases a.len() - i,
{
    if i < a.len() {
        lemma_lex_irreflexive(a, i + 1);
    }
}

pub proof fn lemma_lex_transitive(a: Seq<i128>, b: Seq<i128>, c: Seq<i128>, i: int)
    requires
        0 <= i,
        lex_lt_at(a, b, i),
        lex_lt_at(b, c, i),
    ensures
        lex_lt_at(a, c, i),
    decreases a.len() - i,
{
    if i < a.len() && i < b.len() && i < c.len() && a[i] == b[i] && b[i] == c[i] {
        lemma_lex_transitive(a, b, c, i + 1);
    }
}

pub proof fn lemma_lex_total(a: Seq<i128>, b: Seq<i128>, i: int)
    requires
        0 <= i,
        agree_upto(a, b, i),
        a != b,
    ensures
        lex_lt_at(a, b, i) || lex_lt_at(b, a, i),
    decreases a.len() - i,
{
    if i >= a.len() && i >= b.len() {
        assert(a =~= b);
    } else if i < a.len() && i < b.len() && a[i] == b[i] {
        lemma_lex_total(a, b, i + 1);
    }
}

/// The keys held in a vector of key vectors.
pub open spec fn vkeys(keys: Seq<Vec<i128>>) -> Seq<Seq<i128>> {
    keys.map_values(|v: Vec<i128>| v@)
}

/// The key of position `x`.
pub open spec fn key_of(keys: Seq<Seq<i128>>, x: int) -> Seq<i128> {
    keys[x]
}

/// The order of a stable sort: by key, then by input position.
pub open spec fn pos_lt(keys: Seq<Seq<i128>>, x: int, y: int) -> bool {
    lex_lt(key_of(keys, x), key_of(keys, y)) || (key_of(keys, x) == key_of(keys, y) && x < y)
}

/// Whether `x` occurs in `ord`.
pub open spec fn lists(ord: Seq<int>, x: int) -> bool {
    exists|i: int| 0 <= i < ord.len() && ord[i] == x
}

/// Whether `x` occurs in `ord`.
pub open spec fn lists_usize(ord: Seq<usize>, x: int) -> bool {
    exists|i: int| 0 <= i < ord.len() && ord[i] == x
}

/// `ord` lists every position of `keys` exactly once, in stable-sort order.
pub open spec fn is_stable_order(keys: Seq<Seq<i128>>, ord: Seq<int>) -> bool {
    &&& ord.len() == keys.len()
    &&& forall|i: int| 0 <= i < ord.len() ==> 0 <= #[trigger] ord[i] < keys.len()
    &&& forall|i: int, j: int| 0 <= i < j < ord.len() ==> pos_lt(keys, #[trigger] ord[i], #[trigger] ord[j])
    &&& forall|x: int| 0 <= x < keys.len() ==> #[trigger] lists(ord, x)
}

pub proof fn lemma_pos_lt_transitive(keys: Seq<Seq<i128>>, x: int, y: int, z: int)
    requires
        pos_lt(keys, x, y),
        pos_lt(keys, y, z),
    ensures
        pos_lt(keys, x, z),
{
    let (kx, ky, kz) = (key_of(keys, x), key_of(keys, y), key_of(keys, z));
    if lex_lt(kx, ky) && lex_lt(ky, kz) {
        lemma_lex_transitive(kx, ky, kz, 0);
    }
}

/// Lexicographic `<` on two keys.
pub fn key_lt(a: &Vec<i128>, b: &Vec<i128>) -> (r: bool)
    ensures
        r == lex_lt(a@, b@),
{
    let mut i: usize = 0;
    while i < a.len() && i < b.len() && a[i] == b[i]
        invariant
            i <= a.len(),
            i <= b.len(),
            lex_lt_at(a@, b@, 0) == lex_lt_at(a@, b@, i as int),
        decreases a.len() - i,
    {
        i = i + 1;
    }
    if i >= a.len() {
        i < b.len()
    } else if i >= b.len() {
        false
    } else {
        a[i] < b[i]
    }
}

/// `items` stably sorted by `keys` (insertion sort): the result lists the
/// items in the unique order that increases in `(key, input position)`.
pub fn sort_by_keys<T>(items: Vec<T>, keys: &Vec<Vec<i128>>) -> (r: Vec<T>)
    requires
        items@.len() == keys@.len(),
    ensures
        exists|ord: Seq<int>|
            is_stable_order(vkeys(keys@), ord) && r@.len() == ord.len() && forall|i: int|
                0 <= i < ord.len() ==> #[trigger] r@[i] == items@[ord[i]],
{
    let n = keys.len();
    let ghost orig = items@;
    let mut rev = reversed(items);
    let mut ord: Vec<usize> = Vec::new();
    let mut out: Vec<T> = Vec::new();
    let mut k: usize = 0;
    while k < n
        invariant
            n == keys@.len(),
            n == orig.len(),
            k <= n,
            rev@ == orig.subrange(k as int, n as int).reverse(),
            ord@.len() == k,
            out@.len() == k,
            forall|i: int| 0 <= i < ord@.len() ==> #[trigger] ord@[i] < k,
            forall|i: int| 0 <= i < out@.len() ==> #[trigger] out@[i] == orig[ord@[i] as int],
            forall|i: int, j: int|
                0 <= i < j < ord@.len() ==> pos_lt(vkeys(keys@), #[trigger] ord@[i] as int, #[trigger] ord@[j] as int),
            forall|x: int| 0 <= x < k ==> #[trigger] lists_usize(ord@, x),
        decreases n - k,
    {
        let item = rev.pop().unwrap();
        assert(item == orig[k as int]);
        assert(rev@ =~= orig.subrange(k + 1, n as int).reverse());
        let mut pos = ord.len();
        while pos > 0 && key_lt(&keys[k], &keys[ord[pos - 1]])
            invariant
                n == keys@.len(),
                k < n,
                pos <= ord@.len(),
                forall|i: int| 0 <= i < ord@.len() ==> #[trigger] ord@[i] < k,
                forall|j: int| pos <= j < ord@.len() ==> lex_lt(vkeys(keys@)[k as int], #[trigger] vkeys(keys@)[ord@[j] as int]),
            decreases pos,
        {
            pos = pos - 1;
        }
        let ghost old_ord = ord@;
        let ghost old_out = out@;
        proof {
            if pos > 0 {
                let y = old_ord[pos - 1] as int;
                assert(!lex_lt(key_of(vkeys(keys@), k as int), key_of(vkeys(keys@), y)));
                if key_of(vkeys(keys@), y) != key_of(vkeys(keys@), k as int) {
                    lemma_lex_total(key_of(vkeys(keys@), y), key_of(vkeys(keys@), k as int), 0);
                }
                assert(pos_lt(vkeys(keys@), y, k as int));
                assert forall|i: int| 0 <= i < pos implies pos_lt(vkeys(keys@), #[trigger] old_ord[i] as int, k as int) by {
                    if i < pos - 1 {
                        lemma_pos_lt_transitive(vkeys(keys@), old_ord[i] as int, y, k as int);
                    }
                }
            }
        }
        ord.insert(pos, k);
        out.insert(pos, item);
        proof {
            assert forall|i: int, j: int| 0 <= i < j < ord@.len() implies pos_lt(
                vkeys(keys@),
                #[trigger] ord@[i] as int,
                #[trigger] ord@[j] as int,
            ) by {
                if j < pos {
                    assert(ord@[i] == old_ord[i] && ord@[j] == old_ord[j]);
                } else if j == pos {
                    assert(ord@[i] == old_ord[i]);
                } else if i == pos {
                    assert(ord@[j] == old_ord[j - 1]);
                    assert(lex_lt(key_of(vkeys(keys@), k as int), key_of(vkeys(keys@), old_ord[j - 1] as int)));
                } else if i < pos {
                    assert(ord@[i] == old_ord[i] && ord@[j] == old_ord[j - 1]);
                } else {
                    assert(ord@[i] == old_ord[i - 1] && ord@[j] == old_ord[j - 1]);
                }
            }
            assert forall|i: int| 0 <= i < out@.len() implies #[trigger] out@[i] == orig[ord@[i] as int] by {
                if i < pos {
                    assert(out@[i] == old_out[i] && ord@[i] == old_ord[i]);
                } else if i > pos {
                    assert(out@[i] == old_out[i - 1] && ord@[i] == old_ord[i - 1]);
                }
            }
            assert forall|x: int| 0 <= x < k + 1 implies #[trigger] lists_usize(ord@, x) by {
                if x == k {
                    assert(ord@[pos as int] == x);
                } else {
                    assert(lists_usize(old_ord, x));
                    let i = choose|i: int| 0 <= i < old_ord.len() && old_ord[i] == x;
                    if i < pos {
                        assert(ord@[i] == x);
                    } else {
                        assert(ord@[i + 1] == x);
                    }
                }
            }
        }
        k = k + 1;
    }
    let ghost m = ord@.map_values(|x: usize| x as int);
    assert forall|i: int, j: int| 0 <= i < j < m.len() implies pos_lt(vkeys(keys@), #[trigger] m[i], #[trigger] m[j]) by {
        assert(m[i] == ord@[i] as int && m[j] == ord@[j] as int);
    }
    assert forall|x: int| 0 <= x < keys@.len() implies #[trigger] lists(m, x) by {
        assert(lists_usize(ord@, x));
        let i = choose|i: int| 0 <= i < ord@.len() && ord@[i] == x;
        assert(m[i] == x);
    }
    assert forall|i: int| 0 <= i < m.len() implies #[trigger] out@[i] == orig[m[i]] by {
        assert(m[i] == ord@[i] as int);
    }
    assert(is_stable_order(vkeys(keys@), m));
    out
}

/// The positions `0..keys.len()` in stable-sort order.
pub fn stable_order(keys: &Vec<Vec<i128>>) -> (r: Vec<usize>)
    ensures
        is_stable_order(vkeys(keys@), r@.map_values(|x: usize| x as int)),
{
    let mut idx: Vec<usize> = Vec::new();
    let mut i: usize = 0;
    while i < keys.len()
        invariant
            i <= keys@.len(),
            idx@.len() == i,
            forall|j: int| 0 <= j < i ==> #[trigger] idx@[j] == j,
        decreases keys@.len() - i,
    {
        idx.push(i);
        i = i + 1;
    }
    let ghost src = idx@;
    let r = sort_by_keys(idx, keys);
    let ghost ord = choose|ord: Seq<int>|
        is_stable_order(vkeys(keys@), ord) && r@.len() == ord.len() && forall|i: int|
            0 <= i < ord.len() ==> #[trigger] r@[i] == src[ord[i]];
    assert(r@.map_values(|x: usize| x as int) =~= ord) by {
        assert forall|i: int| 0 <= i < ord.len() implies r@.map_values(|x: usize| x as int)[i] == ord[i] by {
            assert(r@[i] == src[ord[i]]);
        }
    }
    r
}

/// `v` in reverse order.
pub fn reversed<T>(v: Vec<T>) -> (r: Vec<T>)
    ensures
        r@ == v@.reverse(),
{
    let mut v = v;
    let ghost orig = v@;
    let mut r: Vec<T> = Vec::new();
    while v.len() > 0
        invariant
            orig.len() == v@.len() + r@.len(),
            v@ == orig.subrange(0, v@.len() as int),
            r@ == orig.subrange(v@.len() as int, orig.len() as int).reverse(),
        decreases v@.len(),
    {
        let ghost before = v@;
        let x = v.pop().unwrap();
        r.push(x);
        assert(r@ =~= orig.subrange(v@.len() as int, orig.len() as int).reverse());
        assert(v@ =~= orig.subrange(0, v@.len() as int));
    }
    assert(orig.subrange(0, orig.len() as int) =~= orig);
    r
}

/// Whether `ord` lists each position `0..n` exactly once.
pub open spec fn is_permutation(ord: Seq<int>, n: int) -> bool {
    &&& ord.len() == n
    &&& forall|i: int| 0 <= i < ord.len() ==> 0 <= #[trigger] ord[i] < n
    &&& forall|i: int, j: int| 0 <= i < j < ord.len() ==> #[trigger] ord[i] != #[trigger] ord[j]
    &&& forall|x: int| 0 <= x < n ==> #[trigger] lists(ord, x)
}

/// A stable order lists each position exactly once.
pub proof fn lemma_stable_order_permutes(keys: Seq<Seq<i128>>, ord: Seq<int>)
    requires
        is_stable_order(keys, ord),
    ensures
        is_permutation(ord, keys.len() as int),
{
    assert forall|i: int, j: int| 0 <= i < j < ord.len() implies #[trigger] ord[i] != #[trigger] ord[j] by {
        if ord[i] == ord[j] {
            assert(pos_lt(keys, ord[i], ord[j]));
            lemma_lex_irreflexive(key_of(keys, ord[i]), 0);
        }
    }
}

/// Items drawn through a permutation of their positions are the same
/// items, as many times each.
pub proof fn lemma_permuted_multiset<T>(items: Seq<T>, ord: Seq<int>, out: Seq<T>)
    requires
        is_permutation(ord, items.len() as int),
        out.len() == ord.len(),
        forall|i: int| 0 <= i < out.len() ==> #[trigger] out[i] == items[ord[i]],
    ensures
        out.to_multiset() == items.to_multiset(),
    decreases items.len(),
{
    broadcast use vstd::seq_lib::group_to_multiset_ensures;
    if items.len() == 0 {
        assert(out =~= Seq::<T>::empty());
        assert(items =~= Seq::<T>::empty());
    } else {
        let n = items.len() - 1;
        assert(lists(ord, n));
        let p = choose|p: int| 0 <= p < ord.len() && ord[p] == n;
        let ord2 = ord.remove(p);
        let out2 = out.remove(p);
        let front = items.drop_last();
        assert forall|i: int| 0 <= i < ord2.len() implies 0 <= #[trigger] ord2[i] < n by {
            if i < p {
                assert(ord2[i] == ord[i] && ord[i] != ord[p]);
            } else {
                assert(ord2[i] == ord[i + 1] && ord[i + 1] != ord[p]);
            }
        }
        assert forall|i: int, j: int| 0 <= i < j < ord2.len() implies #[trigger] ord2[i] != #[trigger] ord2[j] by {
            let a = if i < p { i } else { i + 1 };
            let b = if j < p { j } else { j + 1 };
            assert(ord2[i] == ord[a] && ord2[j] == ord[b]);
        }
        assert forall|x: int| 0 <= x < n implies #[trigger] lists(ord2, x) by {
            assert(lists(ord, x));
            let i = choose|i: int| 0 <= i < ord.len() && ord[i] == x;
            if i < p {
                assert(ord2[i] == x);
            } else {
                assert(i != p);
                assert(ord2[i - 1] == x);
            }
        }
        assert forall|i: int| 0 <= i < out2.len() implies #[trigger] out2[i] == front[ord2[i]] by {
            if i < p {
                assert(out2[i] == out[i] && ord2[i] == ord[i]);
            } else {
                assert(out2[i] == out[i + 1] && ord2[i] == ord[i + 1]);
            }
        }
        lemma_permuted_multiset(front, ord2, out2);
        assert(items =~= front.push(items[n]));
        assert(out[p] == items[n]);
        assert(out.to_multiset().count(out[p]) > 0) by {
            assert(out.contains(out[p]));
        }
        assert(out.to_multiset() =~= out2.to_multiset().insert(out[p]));
    }
}

} // verus!
