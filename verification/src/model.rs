//! The artifact record that every part of the library works on, and the keys
//! by which such records are ordered.

use vstd::prelude::*;
use crate::text::{chars_of, first_char_from, lemma_first_char_bounds};

verus! {

/// A directory that can be safely removed and regenerated (build output,
/// dependencies, or a tool cache).
#[derive(Debug, Clone)]
pub struct Reclaimable {
    /// Absolute path to the artifact directory.
    pub path: String,
    /// Ecosystem the artifact belongs to (e.g. "node", "rust").
    pub ecosystem: &'static str,
    /// Directory label (e.g. "node_modules", "target").
    pub label: &'static str,
    /// Total size on disk, in bytes.
    pub size: u64,
    /// Last-modified time of the artifact dir (nanoseconds since the Unix
    /// epoch, negative before it), used as an "age" proxy.
    pub modified: Option<i128>,
}

/// Nanoseconds per second.
pub open spec fn nanos_per_sec() -> int {
    1_000_000_000
}

/// How long ago `modified` was at time `now`, in nanoseconds; `None` when the
/// time is unknown or lies in the future (as `SystemTime::elapsed` fails).
pub open spec fn elapsed_nanos(modified: Option<i128>, now: i128) -> Option<int> {
    match modified {
        Some(m) => if m <= now {
            Some(now - m)
        } else {
            None
        },
        None => None,
    }
}

/// Whole seconds elapsed since `modified` at time `now`.
pub open spec fn elapsed_secs(modified: Option<i128>, now: i128) -> Option<int> {
    match elapsed_nanos(modified, now) {
        Some(n) => Some(n / nanos_per_sec()),
        None => None,
    }
}

/// Whole seconds elapsed since `modified` at time `now` (as
/// `SystemTime::elapsed().as_secs()`), or `None` if unknown or in the future.
/// Spans beyond `u64::MAX` seconds, which no `SystemTime` can have, are
/// reported as `u64::MAX`.
pub fn elapsed_seconds(modified: Option<i128>, now: i128) -> (r: Option<u64>)
    ensures
        match r {
            Some(s) => elapsed_secs(modified, now) matches Some(e) && s == (if e > u64::MAX {
                u64::MAX as int
            } else {
                e
            }),
            None => elapsed_secs(modified, now) is None,
        },
{
    match modified {
        Some(m) => {
            if m <= now {
                let d: u128 = if m >= 0 || now < 0 {
                    (now - m) as u128
                } else {
                    (now as u128) + ((-(m + 1)) as u128) + 1
                };
                assert(d == now - m);
                let secs = d / 1_000_000_000;
                if secs <= u64::MAX as u128 {
                    Some(secs as u64)
                } else {
                    Some(u64::MAX)
                }
            } else {
                None
            }
        },
        None => None,
    }
}

// ---------------------------------------------------------------------------
// Ordering keys
// ---------------------------------------------------------------------------

/// The key of one path component (`..`, or a normal name): its kind, then
/// its characters, then a terminator below every character. Empty parts and
/// `.` contribute nothing.
pub open spec fn part_key(part: Seq<char>) -> Seq<i128> {
    if part.len() == 0 || part == seq!['.'] {
        Seq::<i128>::empty()
    } else if part == seq!['.', '.'] {
        seq![3i128, -1i128]
    } else {
        seq![4i128] + part.map_values(|c: char| (c as u32) as i128) + seq![-1i128]
    }
}

/// The keys of the components of `p` from position `i` on, part by part
/// between `/` separators.
pub open spec fn parts_key(p: Seq<char>, i: int) -> Seq<i128>
    decreases p.len() - i,
{
    if 0 <= i < p.len() {
        let j = first_char_from(p, '/', i);
        proof {
            lemma_first_char_bounds(p, '/', i);
        }
        part_key(p.subrange(i, j)) + if j < p.len() {
            parts_key(p, j + 1)
        } else {
            Seq::<i128>::empty()
        }
    } else {
        Seq::<i128>::empty()
    }
}

/// The ordering key of a path: its components as `Path::components` yields
/// them on Unix (a root, a leading `.`, `..`, and normal names; repeated
/// separators and other `.` parts dropped), each keyed by kind in the order
/// of `std::path::Component` and then by its characters, followed by an end
/// marker below every component. Comparing keys lexicographically compares
/// the component lists the way `Path`'s `Ord` does.
pub open spec fn path_key(p: Seq<char>) -> Seq<i128> {
    let head = if p.len() > 0 && p[0] == '/' {
        seq![1i128, -1i128] + parts_key(p, 1)
    } else if p.len() > 0 && p[0] == '.' && (p.len() == 1 || p[1] == '/') {
        seq![2i128, -1i128] + parts_key(p, 1)
    } else {
        parts_key(p, 0)
    };
    head + seq![-2i128]
}

fn push_part_key(key: &mut Vec<i128>, cs: &Vec<char>, i: usize, j: usize)
    requires
        i <= j <= cs.len(),
    ensures
        final(key)@ == old(key)@ + part_key(cs@.subrange(i as int, j as int)),
{
    let ghost part = cs@.subrange(i as int, j as int);
    if j == i {
        assert(part_key(part) =~= Seq::<i128>::empty());
        assert(key@ =~= key@ + Seq::<i128>::empty());
        return;
    }
    if j - i == 1 && cs[i] == '.' {
        assert(part =~= seq!['.']);
        assert(key@ =~= key@ + Seq::<i128>::empty());
        return;
    }
    if j - i == 2 && cs[i] == '.' && cs[i + 1] == '.' {
        assert(part =~= seq!['.', '.']);
        key.push(3);
        key.push(-1);
        return;
    }
    assert(part != seq!['.']) by {
        if part.len() == 1 {
            assert(part[0] != '.');
        }
    }
    assert(part != seq!['.', '.']) by {
        if part.len() == 2 {
            assert(part[0] != '.' || part[1] != '.');
        }
    }
    let ghost start = key@;
    key.push(4);
    let mut k = i;
    while k < j
        invariant
            i <= k <= j <= cs.len(),
            key@ == start + seq![4i128] + cs@.subrange(i as int, k as int).map_values(
                |c: char| (c as u32) as i128,
            ),
        decreases j - k,
    {
        key.push((cs[k] as u32) as i128);
        k = k + 1;
        assert(key@ =~= start + seq![4i128] + cs@.subrange(i as int, k as int).map_values(
            |c: char| (c as u32) as i128,
        ));
    }
    key.push(-1);
    assert(key@ =~= start + part_key(part));
}

fn push_parts_key(key: &mut Vec<i128>, cs: &Vec<char>, from: usize)
    requires
        from <= cs.len(),
    ensures
        final(key)@ == old(key)@ + parts_key(cs@, from as int),
{
    let ghost start = key@;
    let mut i = from;
    if i >= cs.len() {
        assert(key@ =~= start + parts_key(cs@, from as int));
        return;
    }
    loop
        invariant_except_break
            from <= i < cs.len(),
            start + parts_key(cs@, from as int) == key@ + parts_key(cs@, i as int),
        ensures
            key@ == start + parts_key(cs@, from as int),
        decreases cs.len() - i,
    {
        let mut j = i;
        while j < cs.len() && cs[j] != '/'
            invariant
                i <= j <= cs.len(),
                first_char_from(cs@, '/', i as int) == first_char_from(cs@, '/', j as int),
            decreases cs.len() - j,
        {
            j = j + 1;
        }
        proof {
            lemma_first_char_bounds(cs@, '/', j as int);
        }
        let ghost before = key@;
        push_part_key(key, cs, i, j);
        if j >= cs.len() - 1 {
            proof {
                if j + 1 == cs.len() {
                    assert(parts_key(cs@, (j + 1) as int) =~= Seq::<i128>::empty());
                }
                assert(parts_key(cs@, i as int) == part_key(cs@.subrange(i as int, j as int))
                    + parts_key(cs@, (j + 1) as int) || j == cs.len());
            }
            assert(key@ =~= start + parts_key(cs@, from as int));
            break;
        }
        assert(parts_key(cs@, i as int) == part_key(cs@.subrange(i as int, j as int))
            + parts_key(cs@, (j + 1) as int));
        assert(before + parts_key(cs@, i as int) =~= key@ + parts_key(cs@, (j + 1) as int));
        i = j + 1;
    }
}

/// The ordering key of a path (see [`path_key`]).
pub fn path_sort_key(p: &str) -> (r: Vec<i128>)
    ensures
        r@ == path_key(p@),
{
    let cs = chars_of(p);
    let mut key: Vec<i128> = Vec::new();
    if cs.len() > 0 && cs[0] == '/' {
        key.push(1);
        key.push(-1);
        push_parts_key(&mut key, &cs, 1);
    } else if cs.len() > 0 && cs[0] == '.' && (cs.len() == 1 || cs[1] == '/') {
        key.push(2);
        key.push(-1);
        push_parts_key(&mut key, &cs, 1);
    } else {
        push_parts_key(&mut key, &cs, 0);
    }
    key.push(-2);
    assert(key@ =~= path_key(p@));
    key
}

/// The ordering key by size, largest first.
pub open spec fn size_key(size: u64) -> Seq<i128> {
    seq![(-(size as int)) as i128]
}

/// The ordering key by modification time, oldest first and unknown last.
pub open spec fn age_key(modified: Option<i128>) -> Seq<i128> {
    match modified {
        Some(m) => seq![0i128, m],
        None => seq![1i128],
    }
}

/// The ordering key by size, largest first.
pub fn size_sort_key(size: u64) -> (r: Vec<i128>)
    ensures
        r@ == size_key(size),
{
    let mut k: Vec<i128> = Vec::new();
    k.push(-(size as i128));
    assert(k@ =~= size_key(size));
    k
}

/// The ordering key by modification time, oldest first and unknown last.
pub fn age_sort_key(modified: Option<i128>) -> (r: Vec<i128>)
    ensures
        r@ == age_key(modified),
{
    let mut k: Vec<i128> = Vec::new();
    match modified {
        Some(m) => {
            k.push(0);
            k.push(m);
        },
        None => {
            k.push(1);
        },
    }
    assert(k@ =~= age_key(modified));
    k
}

// ---------------------------------------------------------------------------
// Paths
// ---------------------------------------------------------------------------

/// `rel` (a relative path) appended to `base`, with a `/` between them
/// unless `base` is empty or already ends with one.
pub open spec fn joined(base: Seq<char>, rel: Seq<char>) -> Seq<char> {
    if base.len() == 0 || base.last() == '/' {
        base + rel
    } else {
        base + "/"@ + rel
    }
}

/// Append the relative path `rel` to `base` (see [`joined`]).
pub fn join_path(base: &str, rel: &str) -> (r: String)
    ensures
        r@ == joined(base@, rel@),
{
    let n = base.unicode_len();
    let mut r = String::from_str(base);
    if n > 0 && base.get_char(n - 1) != '/' {
        r.append("/");
    }
    r.append(rel);
    r
}

} // verus!
