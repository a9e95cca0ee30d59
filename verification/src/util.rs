//! Parsers for the human-friendly ages (`30d`, `6mo`) and sizes (`100M`,
//! `1.5G`) that the command line and the config file accept.

use vstd::prelude::*;
use crate::text::{
    all_digits, chars_of, digit_value, is_digit, digits_value, first_alpha_from, is_alphabetic, lemma_digits_value_monotone,
    lemma_digits_value_push, trim, trim_bounds, first_char_from, lemma_first_char_bounds, char_is_whitespace, lead_end,
    trail_end,
};

verus! {

/// `10^e`.
pub open spec fn pow10(e: nat) -> nat
    decreases e,
{
    if e == 0 {
        1
    } else {
        10 * pow10((e - 1) as nat)
    }
}

/// `s` read as an unsigned decimal integer the way `u64::from_str` reads it:
/// an optional `+`, then one or more ASCII digits, with a value that fits in
/// a `u64`.
pub open spec fn spec_parse_u64(s: Seq<char>) -> Option<nat> {
    let d = if s.len() > 0 && s[0] == '+' { s.drop_first() } else { s };
    if d.len() > 0 && all_digits(d) && digits_value(d) <= u64::MAX {
        Some(digits_value(d))
    } else {
        None
    }
}

/// Seconds per unit of an age suffix: `h`, `d`, `w`, `mo`, `y`.
pub open spec fn age_unit_secs(unit: Seq<char>) -> Option<nat> {
    if unit == seq!['h'] {
        Some(3_600)
    } else if unit == seq!['d'] {
        Some(86_400)
    } else if unit == seq!['w'] {
        Some(7 * 86_400)
    } else if unit == seq!['m', 'o'] {
        Some(30 * 86_400)
    } else if unit == seq!['y'] {
        Some(365 * 86_400)
    } else {
        None
    }
}

/// The number of seconds an age string denotes, if it is well formed: after
/// trimming, the text up to the first alphabetic character is an integer
/// (itself trimmed) and the rest is one of the units. The value is exact,
/// whether or not it fits in a `u64`.
pub open spec fn spec_parse_age(s: Seq<char>) -> Option<nat> {
    let t = trim(s);
    let k = first_alpha_from(t, 0);
    if k >= t.len() {
        None
    } else {
        match spec_parse_u64(trim(t.subrange(0, k))) {
            None => None,
            Some(n) => match age_unit_secs(t.subrange(k, t.len() as int)) {
                None => None,
                Some(m) => Some(n * m),
            },
        }
    }
}

/// Whether parsing `s` as an age stays within `u64` seconds (where the
/// multiplication by the unit would overflow, the arithmetic is out of range).
pub open spec fn age_fits(s: Seq<char>) -> bool {
    match spec_parse_age(s) {
        Some(v) => v <= u64::MAX,
        None => true,
    }
}

/// Whether an executable optional value equals a specification one.
pub open spec fn same_opt(r: Option<u64>, v: Option<nat>) -> bool {
    match r {
        Some(x) => v == Some(x as nat),
        None => v is None,
    }
}

/// `cs[from..to]` read as `u64::from_str` reads it.
pub fn parse_u64(cs: &Vec<char>, from: usize, to: usize) -> (r: Option<u64>)
    requires
        from <= to <= cs.len(),
    ensures
        same_opt(r, spec_parse_u64(cs@.subrange(from as int, to as int))),
{
    let ghost s = cs@.subrange(from as int, to as int);
    let mut i = from;
    if i < to && cs[i] == '+' {
        i = i + 1;
    }
    let ghost d = cs@.subrange(i as int, to as int);
    assert(d =~= (if s.len() > 0 && s[0] == '+' { s.drop_first() } else { s }));
    if i == to {
        return None;
    }
    let start = i;
    let mut acc: u64 = 0;
    while i < to
        invariant
            from <= start <= i <= to <= cs.len(),
            start < to,
            d == cs@.subrange(start as int, to as int),
            s == cs@.subrange(from as int, to as int),
            d == (if s.len() > 0 && s[0] == '+' { s.drop_first() } else { s }),
            all_digits(cs@.subrange(start as int, i as int)),
            acc as nat == digits_value(cs@.subrange(start as int, i as int)),
        decreases to - i,
    {
        let c = cs[i];
        if c < '0' || c > '9' {
            assert(d[i - start] == c);
            assert(!is_digit(d[i - start]));
            return None;
        }
        let v = (c as u64) - ('0' as u64);
        let ghost prefix = cs@.subrange(start as int, i as int);
        assert(cs@.subrange(start as int, i + 1) =~= prefix.push(c));
        proof {
            lemma_digits_value_push(prefix, c);
        }
        let wide: u128 = (acc as u128) * 10 + (v as u128);
        if wide > u64::MAX as u128 {
            proof {
                lemma_digits_value_monotone(d, i + 1 - start);
                assert(d.subrange(0, i + 1 - start) =~= prefix.push(c));
            }
            return None;
        }
        acc = wide as u64;
        i = i + 1;
    }
    assert(cs@.subrange(start as int, i as int) =~= d);
    Some(acc)
}

/// Position of the first alphabetic character in `cs[from..to]`, or `to`.
pub fn find_alpha_in(cs: &Vec<char>, from: usize, to: usize) -> (r: usize)
    requires
        from <= to <= cs.len(),
    ensures
        from <= r <= to,
        r - from == first_alpha_from(cs@.subrange(from as int, to as int), 0),
{
    let ghost t = cs@.subrange(from as int, to as int);
    let mut i = from;
    while i < to && !is_alphabetic(cs[i])
        invariant
            from <= i <= to <= cs.len(),
            t == cs@.subrange(from as int, to as int),
            first_alpha_from(t, 0) == first_alpha_from(t, i - from),
        decreases to - i,
    {
        i = i + 1;
    }
    i
}

/// Whether `cs[from..to]` is exactly `lit`.
fn span_is(cs: &Vec<char>, from: usize, to: usize, lit: &str) -> (r: bool)
    requires
        from <= to <= cs.len(),
    ensures
        r == (cs@.subrange(from as int, to as int) == lit@),
{
    let l = chars_of(lit);
    if l.len() != to - from {
        return false;
    }
    let mut k: usize = 0;
    while k < l.len()
        invariant
            l@ == lit@,
            l.len() == to - from,
            from <= to <= cs.len(),
            k <= l.len(),
            forall|j: int| 0 <= j < k ==> cs@[from + j] == l@[j],
        decreases l.len() - k,
    {
        if cs[from + k] != l[k] {
            assert(cs@.subrange(from as int, to as int)[k as int] != l@[k as int]);
            return false;
        }
        k = k + 1;
    }
    assert(cs@.subrange(from as int, to as int) =~= l@);
    true
}

/// Seconds per unit for the age suffix `cs[from..to]`.
fn age_unit(cs: &Vec<char>, from: usize, to: usize) -> (r: Option<u64>)
    requires
        from <= to <= cs.len(),
    ensures
        same_opt(r, age_unit_secs(cs@.subrange(from as int, to as int))),
{
    let ghost u = cs@.subrange(from as int, to as int);
    proof {
        reveal_strlit("h");
        reveal_strlit("d");
        reveal_strlit("w");
        reveal_strlit("mo");
        reveal_strlit("y");
        assert("h"@ =~= seq!['h']);
        assert("d"@ =~= seq!['d']);
        assert("w"@ =~= seq!['w']);
        assert("mo"@ =~= seq!['m', 'o']);
        assert("y"@ =~= seq!['y']);
        assert(seq!['h'][0] == 'h' && seq!['d'][0] == 'd' && seq!['w'][0] == 'w');
        assert(seq!['m', 'o'][0] == 'm' && seq!['y'][0] == 'y');
    }
    if span_is(cs, from, to, "h") {
        Some(3_600)
    } else if span_is(cs, from, to, "d") {
        assert(u[0] == 'd');
        Some(86_400)
    } else if span_is(cs, from, to, "w") {
        assert(u[0] == 'w');
        Some(7 * 86_400)
    } else if span_is(cs, from, to, "mo") {
        assert(u.len() == 2);
        Some(30 * 86_400)
    } else if span_is(cs, from, to, "y") {
        assert(u[0] == 'y');
        Some(365 * 86_400)
    } else {
        None
    }
}

/// Parse a human duration like `30d`, `2w`, `6mo`, `1y`, `12h` into a number
/// of seconds. Returns `None` for malformed input.
pub fn parse_age(s: &str) -> (r: Option<u64>)
    requires
        age_fits(s@),
    ensures
        same_opt(r, spec_parse_age(s@)),
{
    let cs = chars_of(s);
    let (a, b) = trim_bounds(&cs, 0, cs.len());
    assert(cs@.subrange(0, cs@.len() as int) =~= s@);
    let ghost t = trim(s@);
    let k = find_alpha_in(&cs, a, b);
    if k == b {
        return None;
    }
    let (na, nb) = trim_bounds(&cs, a, k);
    assert(cs@.subrange(a as int, k as int) =~= t.subrange(0, k - a));
    let n = match parse_u64(&cs, na, nb) {
        Some(n) => n,
        None => return None,
    };
    assert(cs@.subrange(k as int, b as int) =~= t.subrange(k - a, t.len() as int));
    let m = match age_unit(&cs, k, b) {
        Some(m) => m,
        None => return None,
    };
    assert(n * m <= u64::MAX);
    Some(n * m)
}

/// Whether parsing `s` as an age would leave the `u64` range of seconds (a
/// caller checks this before [`parse_age`], whose arithmetic is unchecked).
pub fn parse_age_overflows(s: &str) -> (r: bool)
    ensures
        r == !age_fits(s@),
{
    let cs = chars_of(s);
    let (a, b) = trim_bounds(&cs, 0, cs.len());
    assert(cs@.subrange(0, cs@.len() as int) =~= s@);
    let ghost t = trim(s@);
    let k = find_alpha_in(&cs, a, b);
    if k == b {
        return false;
    }
    let (na, nb) = trim_bounds(&cs, a, k);
    assert(cs@.subrange(a as int, k as int) =~= t.subrange(0, k - a));
    let n = match parse_u64(&cs, na, nb) {
        Some(n) => n,
        None => return false,
    };
    assert(cs@.subrange(k as int, b as int) =~= t.subrange(k - a, t.len() as int));
    let m = match age_unit(&cs, k, b) {
        Some(m) => m,
        None => return false,
    };
    let wide_n = n as u128;
    let wide_m = m as u128;
    assert(wide_n * wide_m <= u64::MAX * u64::MAX) by (nonlinear_arith)
        requires
            wide_n <= u64::MAX,
            wide_m <= u64::MAX,
    ;
    wide_n * wide_m > u64::MAX as u128
}

// ---------------------------------------------------------------------------
// Sizes
// ---------------------------------------------------------------------------

/// ASCII lowercasing of one character (as `char::to_ascii_lowercase`).
pub open spec fn ascii_lower(c: char) -> char {
    if 'A' <= c && c <= 'Z' {
        (((c as u8) + 32) as u8) as char
    } else {
        c
    }
}

/// The power of ten that a size unit stands for (decimal, 1000-based),
/// compared without regard to ASCII case: none or `b` is 0, `k`/`kb` 3,
/// `m`/`mb` 6, `g`/`gb` 9, `t`/`tb` 12.
pub open spec fn size_unit_exp(u: Seq<char>) -> Option<nat> {
    let l = u.map_values(|c: char| ascii_lower(c));
    if l == Seq::<char>::empty() || l == seq!['b'] {
        Some(0)
    } else if l == seq!['k'] || l == seq!['k', 'b'] {
        Some(3)
    } else if l == seq!['m'] || l == seq!['m', 'b'] {
        Some(6)
    } else if l == seq!['g'] || l == seq!['g', 'b'] {
        Some(9)
    } else if l == seq!['t'] || l == seq!['t', 'b'] {
        Some(12)
    } else {
        None
    }
}

/// Length of a leading `+` or `-`.
pub open spec fn sign_len(n: Seq<char>) -> int {
    if n.len() > 0 && (n[0] == '+' || n[0] == '-') {
        1
    } else {
        0
    }
}

/// The digits of a decimal number before its point.
pub open spec fn int_digits(n: Seq<char>) -> Seq<char> {
    let body = n.subrange(sign_len(n), n.len() as int);
    body.subrange(0, first_char_from(body, '.', 0))
}

/// The digits of a decimal number after its point (none without a point).
pub open spec fn frac_digits(n: Seq<char>) -> Seq<char> {
    let body = n.subrange(sign_len(n), n.len() as int);
    let p = first_char_from(body, '.', 0);
    if p < body.len() {
        body.subrange(p + 1, body.len() as int)
    } else {
        Seq::<char>::empty()
    }
}

/// Whether every character of `d` is `0`.
pub open spec fn all_zero(d: Seq<char>) -> bool {
    forall|i: int| 0 <= i < d.len() ==> #[trigger] d[i] == '0'
}

/// Whether `n` is a decimal number that `f64::from_str` accepts and that is
/// not below zero: an optional sign, digits with at most one point and at
/// least one digit, and a minus sign only in front of zero.
pub open spec fn number_ok(n: Seq<char>) -> bool {
    let ip = int_digits(n);
    let fp = frac_digits(n);
    &&& all_digits(ip)
    &&& all_digits(fp)
    &&& (ip.len() > 0 || fp.len() > 0)
    &&& (n.len() > 0 && n[0] == '-' ==> all_zero(ip) && all_zero(fp))
}

/// `floor(0.fp * 10^e)`: the first `e` fraction digits, padded with zeros.
pub open spec fn frac_scaled(fp: Seq<char>, e: nat) -> nat {
    if fp.len() >= e {
        digits_value(fp.subrange(0, e as int))
    } else {
        digits_value(fp) * pow10((e - fp.len()) as nat)
    }
}

/// The number of bytes a size string denotes: after trimming, the text up to
/// the first alphabetic character is a non-negative decimal number (itself
/// trimmed) and the rest a unit; the result is the number times the unit,
/// rounded down, and capped at `u64::MAX`.
pub open spec fn spec_parse_size(s: Seq<char>) -> Option<nat> {
    let t = trim(s);
    if t.len() == 0 {
        None
    } else {
        let k = first_alpha_from(t, 0);
        let num = trim(t.subrange(0, k));
        match size_unit_exp(trim(t.subrange(k, t.len() as int))) {
            None => None,
            Some(e) => if number_ok(num) {
                let v = digits_value(int_digits(num)) * pow10(e) + frac_scaled(frac_digits(num), e);
                Some(if v > u64::MAX { u64::MAX as nat } else { v })
            } else {
                None
            },
        }
    }
}

/// The value at which the integer part of a size stops being followed
/// exactly: anything at least this large ends up as `u64::MAX`.
pub open spec fn cap() -> nat {
    0x1_0000_0000_0000_0000
}

pub open spec fn min_cap(x: nat) -> nat {
    if x < cap() {
        x
    } else {
        cap()
    }
}

pub proof fn lemma_pow10_pos(e: nat)
    ensures
        pow10(e) >= 1,
    decreases e,
{
    if e > 0 {
        lemma_pow10_pos((e - 1) as nat);
    }
}

pub proof fn lemma_digits_value_bound(d: Seq<char>)
    requires
        all_digits(d),
    ensures
        digits_value(d) < pow10(d.len()),
    decreases d.len(),
{
    if d.len() > 0 {
        let p = d.drop_last();
        assert(all_digits(p)) by {
            assert forall|i: int| 0 <= i < p.len() implies crate::text::is_digit(#[trigger] p[i]) by {
                assert(p[i] == d[i]);
            }
        }
        lemma_digits_value_bound(p);
        assert(crate::text::is_digit(d[d.len() - 1]));
        assert(digit_value(d.last()) <= 9);
        assert(pow10(d.len()) == 10 * pow10(p.len()));
    }
}

fn ascii_lower_char(c: char) -> (r: char)
    ensures
        r == ascii_lower(c),
{
    if 'A' <= c && c <= 'Z' {
        ((c as u8) + 32) as char
    } else {
        c
    }
}

/// `10^e` for `e <= 12`.
fn pow10_exec(e: u64) -> (r: u64)
    requires
        e <= 12,
    ensures
        r as nat == pow10(e as nat),
        r <= 1_000_000_000_000,
{
    let mut r: u64 = 1;
    let mut i: u64 = 0;
    proof {
        lemma_pow10_12();
    }
    while i < e
        invariant
            i <= e <= 12,
            r as nat == pow10(i as nat),
            pow10(12) == 1_000_000_000_000,
        decreases e - i,
    {
        proof {
            assert(pow10((i + 1) as nat) == 10 * pow10(i as nat));
            lemma_pow10_mono((i + 1) as nat, 12);
        }
        r = r * 10;
        i = i + 1;
    }
    proof {
        lemma_pow10_12();
        lemma_pow10_mono(e as nat, 12);
    }
    r
}

pub proof fn lemma_pow10_mono(a: nat, b: nat)
    requires
        a <= b,
    ensures
        pow10(a) <= pow10(b),
    decreases b - a,
{
    if a < b {
        lemma_pow10_mono(a, (b - 1) as nat);
        lemma_pow10_pos((b - 1) as nat);
        assert(pow10(b) == 10 * pow10((b - 1) as nat));
    }
}

/// The value of the digit string `cs[from..to]`, of at most 12 digits.
fn small_digits_value(cs: &Vec<char>, from: usize, to: usize) -> (r: u64)
    requires
        from <= to <= cs.len(),
        to - from <= 12,
        all_digits(cs@.subrange(from as int, to as int)),
    ensures
        r as nat == digits_value(cs@.subrange(from as int, to as int)),
        (r as nat) < pow10((to - from) as nat),
{
    let ghost d = cs@.subrange(from as int, to as int);
    let mut acc: u64 = 0;
    let mut i = from;
    proof {
        lemma_digits_value_bound(d);
        lemma_pow10_mono((to - from) as nat, 12);
        lemma_pow10_12();
    }
    while i < to
        invariant
            from <= i <= to <= cs.len(),
            to - from <= 12,
            d == cs@.subrange(from as int, to as int),
            all_digits(d),
            acc as nat == digits_value(cs@.subrange(from as int, i as int)),
            digits_value(d) < 1_000_000_000_000,
        decreases to - i,
    {
        let c = cs[i];
        assert(d[i - from] == c);
        assert(crate::text::is_digit(d[i - from]));
        let ghost prefix = cs@.subrange(from as int, i as int);
        assert(cs@.subrange(from as int, i + 1) =~= prefix.push(c));
        proof {
            lemma_digits_value_push(prefix, c);
            lemma_digits_value_monotone(d, i + 1 - from);
            assert(d.subrange(0, i + 1 - from) =~= prefix.push(c));
        }
        acc = acc * 10 + ((c as u64) - ('0' as u64));
        i = i + 1;
    }
    assert(cs@.subrange(from as int, i as int) =~= d);
    acc
}

/// Reads `cs[from..to]` as a number for [`parse_size`]: the integer part's
/// value (stopping at `cap()`), and the span of the fraction digits.
fn parse_number(cs: &Vec<char>, from: usize, to: usize) -> (r: Option<(u128, usize, usize)>)
    requires
        from <= to <= cs.len(),
    ensures
        r is Some <==> number_ok(cs@.subrange(from as int, to as int)),
        r matches Some((v, fa, fb)) ==> {
            &&& v as nat == min_cap(digits_value(int_digits(cs@.subrange(from as int, to as int))))
            &&& from <= fa <= fb <= to
            &&& cs@.subrange(fa as int, fb as int) == frac_digits(cs@.subrange(from as int, to as int))
        },
{
    let ghost n = cs@.subrange(from as int, to as int);
    let neg = from < to && cs[from] == '-';
    let mut i = from;
    if i < to && (cs[i] == '+' || cs[i] == '-') {
        i = i + 1;
    }
    let bstart = i;
    let ghost body = cs@.subrange(bstart as int, to as int);
    assert(body =~= n.subrange(sign_len(n), n.len() as int));
    assert(neg == (n.len() > 0 && n[0] == '-'));
    let mut acc: u128 = 0;
    let mut int_zero = true;
    while i < to && cs[i] != '.'
        invariant
            from <= bstart <= i <= to <= cs.len(),
            n == cs@.subrange(from as int, to as int),
            body == n.subrange(sign_len(n), n.len() as int),
            body == cs@.subrange(bstart as int, to as int),
            first_char_from(body, '.', 0) == first_char_from(body, '.', i - bstart),
            all_digits(cs@.subrange(bstart as int, i as int)),
            acc as nat == min_cap(digits_value(cs@.subrange(bstart as int, i as int))),
            int_zero == all_zero(cs@.subrange(bstart as int, i as int)),
        decreases to - i,
    {
        let c = cs[i];
        proof {
            lemma_first_char_bounds(body, '.', i - bstart);
        }
        if c < '0' || c > '9' {
            proof {
                lemma_first_char_bounds(body, '.', 0);
                assert(int_digits(n) =~= body.subrange(0, first_char_from(body, '.', 0)));
                assert(int_digits(n)[i - bstart] == c);
                assert(!crate::text::is_digit(int_digits(n)[i - bstart]));
            }
            return None;
        }
        let ghost prefix = cs@.subrange(bstart as int, i as int);
        assert(cs@.subrange(bstart as int, i + 1) =~= prefix.push(c));
        proof {
            lemma_digits_value_push(prefix, c);
        }
        let wide = acc * 10 + ((c as u64) - ('0' as u64)) as u128;
        acc = if wide > 0x1_0000_0000_0000_0000u128 { 0x1_0000_0000_0000_0000u128 } else { wide };
        if c != '0' {
            int_zero = false;
            assert(prefix.push(c)[i - bstart] != '0');
        } else {
            assert(int_zero == all_zero(prefix.push(c))) by {
                if int_zero {
                    assert forall|k: int| 0 <= k < prefix.push(c).len() implies #[trigger] prefix.push(c)[k] == '0' by {
                        if k < prefix.len() {
                            assert(prefix[k] == '0');
                        }
                    }
                } else {
                    let w = choose|k: int| 0 <= k < prefix.len() && prefix[k] != '0';
                    assert(prefix.push(c)[w] != '0');
                }
            }
        }
        assert(all_digits(prefix.push(c))) by {
            assert forall|k: int| 0 <= k < prefix.push(c).len() implies crate::text::is_digit(#[trigger] prefix.push(c)[k]) by {
                if k < prefix.len() {
                    assert(crate::text::is_digit(prefix[k]));
                }
            }
        }
        i = i + 1;
    }
    proof {
        lemma_first_char_bounds(body, '.', i - bstart);
    }
    assert(first_char_from(body, '.', 0) == i - bstart);
    assert(int_digits(n) =~= cs@.subrange(bstart as int, i as int));
    let ilen = i - bstart;
    let (fa, fb) = if i < to { (i + 1, to) } else { (to, to) };
    assert(cs@.subrange(fa as int, fb as int) =~= frac_digits(n));
    let mut j = fa;
    let mut frac_zero = true;
    while j < fb
        invariant
            fa <= j <= fb <= cs.len(),
            n == cs@.subrange(from as int, to as int),
            cs@.subrange(fa as int, fb as int) == frac_digits(n),
            all_digits(cs@.subrange(fa as int, j as int)),
            frac_zero == all_zero(cs@.subrange(fa as int, j as int)),
        decreases fb - j,
    {
        let c = cs[j];
        let ghost prefix = cs@.subrange(fa as int, j as int);
        assert(cs@.subrange(fa as int, j + 1) =~= prefix.push(c));
        if c < '0' || c > '9' {
            assert(frac_digits(n)[j - fa] == c);
            assert(!crate::text::is_digit(frac_digits(n)[j - fa]));
            return None;
        }
        if c != '0' {
            frac_zero = false;
            assert(prefix.push(c)[j - fa] != '0');
        } else {
            assert(frac_zero == all_zero(prefix.push(c))) by {
                if frac_zero {
                    assert forall|k: int| 0 <= k < prefix.push(c).len() implies #[trigger] prefix.push(c)[k] == '0' by {
                        if k < prefix.len() {
                            assert(prefix[k] == '0');
                        }
                    }
                } else {
                    let w = choose|k: int| 0 <= k < prefix.len() && prefix[k] != '0';
                    assert(prefix.push(c)[w] != '0');
                }
            }
        }
        assert(all_digits(prefix.push(c))) by {
            assert forall|k: int| 0 <= k < prefix.push(c).len() implies crate::text::is_digit(#[trigger] prefix.push(c)[k]) by {
                if k < prefix.len() {
                    assert(crate::text::is_digit(prefix[k]));
                }
            }
        }
        j = j + 1;
    }
    assert(cs@.subrange(fa as int, j as int) =~= frac_digits(n));
    if ilen == 0 && fa == fb {
        return None;
    }
    if neg && !(int_zero && frac_zero) {
        return None;
    }
    Some((acc, fa, fb))
}

/// The exponent of the size unit `cs[from..to]`.
fn size_unit(cs: &Vec<char>, from: usize, to: usize) -> (r: Option<u64>)
    requires
        from <= to <= cs.len(),
    ensures
        same_opt(r, size_unit_exp(cs@.subrange(from as int, to as int))),
        r matches Some(e) ==> e <= 12,
{
    let mut l: Vec<char> = Vec::new();
    let mut i = from;
    while i < to
        invariant
            from <= i <= to <= cs.len(),
            l@ == cs@.subrange(from as int, i as int).map_values(|c: char| ascii_lower(c)),
        decreases to - i,
    {
        l.push(ascii_lower_char(cs[i]));
        i = i + 1;
        assert(l@ =~= cs@.subrange(from as int, i as int).map_values(|c: char| ascii_lower(c)));
    }
    let n = l.len();
    let ghost lv = l@;
    proof {
        reveal_strlit("b");
        reveal_strlit("k");
        reveal_strlit("kb");
        reveal_strlit("m");
        reveal_strlit("mb");
        reveal_strlit("g");
        reveal_strlit("gb");
        reveal_strlit("t");
        reveal_strlit("tb");
        assert("b"@ =~= seq!['b']);
        assert("k"@ =~= seq!['k']);
        assert("kb"@ =~= seq!['k', 'b']);
        assert("m"@ =~= seq!['m']);
        assert("mb"@ =~= seq!['m', 'b']);
        assert("g"@ =~= seq!['g']);
        assert("gb"@ =~= seq!['g', 'b']);
        assert("t"@ =~= seq!['t']);
        assert("tb"@ =~= seq!['t', 'b']);
        assert(seq!['b'][0] == 'b' && seq!['k'][0] == 'k' && seq!['m'][0] == 'm');
        assert(seq!['g'][0] == 'g' && seq!['t'][0] == 't');
        assert(seq!['k', 'b'][0] == 'k' && seq!['m', 'b'][0] == 'm');
        assert(seq!['g', 'b'][0] == 'g' && seq!['t', 'b'][0] == 't');
    }
    if n == 0 {
        assert(lv =~= Seq::<char>::empty());
        return Some(0);
    }
    assert(lv != Seq::<char>::empty());
    if span_is(&l, 0, n, "b") {
        assert(l@.subrange(0, n as int) =~= lv);
        return Some(0);
    }
    assert(l@.subrange(0, n as int) =~= lv);
    if span_is(&l, 0, n, "k") || span_is(&l, 0, n, "kb") {
        assert(lv[0] == 'k');
        Some(3)
    } else if span_is(&l, 0, n, "m") || span_is(&l, 0, n, "mb") {
        assert(lv[0] == 'm');
        Some(6)
    } else if span_is(&l, 0, n, "g") || span_is(&l, 0, n, "gb") {
        assert(lv[0] == 'g');
        Some(9)
    } else if span_is(&l, 0, n, "t") || span_is(&l, 0, n, "tb") {
        assert(lv[0] == 't');
        Some(12)
    } else {
        None
    }
}

/// Parse a human size like `100M`, `1.5G`, `500k`, `2GB` into bytes (decimal,
/// 1000-based, to match the sizes chaff displays). Returns `None` if
/// malformed. The value is computed exactly, rounded down, and capped at
/// `u64::MAX`.
pub fn parse_size(s: &str) -> (r: Option<u64>)
    ensures
        same_opt(r, spec_parse_size(s@)),
{
    let cs = chars_of(s);
    let (a, b) = trim_bounds(&cs, 0, cs.len());
    assert(cs@.subrange(0, cs@.len() as int) =~= s@);
    let ghost t = trim(s@);
    if a == b {
        return None;
    }
    let k = find_alpha_in(&cs, a, b);
    let (na, nb) = trim_bounds(&cs, a, k);
    assert(cs@.subrange(a as int, k as int) =~= t.subrange(0, k - a));
    let ghost num = trim(t.subrange(0, k - a));
    let parsed = parse_number(&cs, na, nb);
    let (ua, ub) = trim_bounds(&cs, k, b);
    assert(cs@.subrange(k as int, b as int) =~= t.subrange(k - a, t.len() as int));
    let e = match size_unit(&cs, ua, ub) {
        Some(e) => e,
        None => return None,
    };
    let (iv, fa, fb) = match parsed {
        Some(p) => p,
        None => return None,
    };
    let ghost ip = int_digits(num);
    let ghost fp = frac_digits(num);
    assert(cs@.subrange(na as int, nb as int) == num);
    let flen = fb - fa;
    proof {
        lemma_pow10_12();
        lemma_pow10_mono(e as nat, 12);
    }
    let f: u64 = if flen as u64 >= e {
        assert(cs@.subrange(fa as int, fa + e) =~= fp.subrange(0, e as int));
        assert(all_digits(fp.subrange(0, e as int))) by {
            assert forall|k: int| 0 <= k < e implies is_digit(#[trigger] fp.subrange(0, e as int)[k]) by {
                assert(fp.subrange(0, e as int)[k] == fp[k]);
            }
        }
        let fv = small_digits_value(&cs, fa, fa + e as usize);
        fv
    } else {
        let fv = small_digits_value(&cs, fa, fb);
        let p = pow10_exec(e - flen as u64);
        proof {
            lemma_pow10_add(flen as nat, (e - flen) as nat);
            assert(fv * p <= pow10(flen as nat) * pow10((e - flen) as nat)) by (nonlinear_arith)
                requires
                    fv < pow10(flen as nat),
                    p == pow10((e - flen) as nat),
            ;
        }
        fv * p
    };
    assert(f as nat == frac_scaled(fp, e as nat));
    assert(f <= 1_000_000_000_000);
    let pe = pow10_exec(e);
    assert((iv as nat) * (pe as nat) <= cap() * 1_000_000_000_000) by (nonlinear_arith)
        requires
            iv <= cap(),
            pe <= 1_000_000_000_000,
    ;
    let v: u128 = iv * (pe as u128) + (f as u128);
    let ghost truth = digits_value(ip) * pow10(e as nat) + frac_scaled(fp, e as nat);
    proof {
        if digits_value(ip) >= cap() {
            lemma_pow10_pos(e as nat);
            assert(digits_value(ip) * pow10(e as nat) >= digits_value(ip)) by (nonlinear_arith)
                requires
                    pow10(e as nat) >= 1,
            ;
            assert(iv * pe >= iv) by (nonlinear_arith)
                requires
                    pe >= 1,
            ;
        }
    }
    if v > u64::MAX as u128 {
        Some(u64::MAX)
    } else {
        Some(v as u64)
    }
}

pub proof fn lemma_pow10_12()
    ensures
        pow10(12) == 1_000_000_000_000,
{
    reveal_with_fuel(pow10, 13);
}

pub proof fn lemma_pow10_add(a: nat, b: nat)
    ensures
        pow10(a + b) == pow10(a) * pow10(b),
    decreases a,
{
    if a > 0 {
        let a1 = (a - 1) as nat;
        lemma_pow10_add(a1, b);
        let x = pow10(a1);
        let y = pow10(b);
        assert(pow10(a1 + b) == x * y);
        assert(pow10(a) == 10 * x);
        assert(pow10(a + b) == 10 * pow10(a1 + b)) by {
            assert((a + b - 1) as nat == a1 + b);
        }
        assert((10 * x) * y == 10 * (x * y)) by (nonlinear_arith);
        assert(pow10(a) * pow10(b) == (10 * x) * y);
    } else {
        assert(pow10(a) == 1);
        assert(1 * pow10(b) == pow10(b));
        assert(a + b == b);
    }
}

// ---------------------------------------------------------------------------
// Law of size units
// ---------------------------------------------------------------------------

/// Whether every character of `u` is an ASCII letter.
pub open spec fn ascii_letters(u: Seq<char>) -> bool {
    forall|j: int| 0 <= j < u.len() ==> ('a' <= #[trigger] u[j] && u[j] <= 'z') || ('A' <= u[j] && u[j] <= 'Z')
}

/// `v` bytes, or `u64::MAX` beyond it.
pub open spec fn capped_bytes(v: nat) -> nat {
    if v > u64::MAX {
        u64::MAX as nat
    } else {
        v
    }
}

proof fn lemma_first_alpha_after_digits(s: Seq<char>, n: int, i: int)
    requires
        0 <= i <= n <= s.len(),
        forall|j: int| 0 <= j < n ==> is_digit(#[trigger] s[j]),
        n < s.len() ==> ('a' <= s[n] && s[n] <= 'z') || ('A' <= s[n] && s[n] <= 'Z'),
    ensures
        first_alpha_from(s, i) == n,
    decreases n - i,
{
    if i < n {
        assert(is_digit(s[i]));
        lemma_first_alpha_after_digits(s, n, i + 1);
    }
}

proof fn lemma_no_point(d: Seq<char>, i: int)
    requires
        0 <= i <= d.len(),
        all_digits(d),
    ensures
        first_char_from(d, '.', i) == d.len(),
    decreases d.len() - i,
{
    if i < d.len() {
        assert(is_digit(d[i]));
        lemma_no_point(d, i + 1);
    }
}

proof fn lemma_trim_plain(s: Seq<char>)
    requires
        s.len() == 0 || (!char_is_whitespace(s[0]) && !char_is_whitespace(s.last())),
    ensures
        trim(s) == s,
{
    if s.len() > 0 {
        assert(lead_end(s, 0) == 0);
        assert(trail_end(s, 0, s.len() as int) == s.len());
    }
    assert(s.subrange(0, s.len() as int) =~= s);
}

/// A size written as digits followed by ASCII letters is the digits' value
/// times the power of ten that the letters name as a unit (capped at
/// `u64::MAX`), or nothing if they name no unit.
proof fn lemma_digits_then_unit(d: Seq<char>, u: Seq<char>)
    requires
        d.len() > 0,
        all_digits(d),
        ascii_letters(u),
    ensures
        spec_parse_size(d + u) == match size_unit_exp(u) {
            Some(e) => Some(capped_bytes(digits_value(d) * pow10(e))),
            None => None,
        },
{
    let s = d + u;
    assert(is_digit(s[0]));
    if u.len() > 0 {
        assert(s.last() == u[u.len() - 1]);
        assert(ascii_letters(u));
        let c = u[u.len() - 1];
        assert(('a' <= c && c <= 'z') || ('A' <= c && c <= 'Z'));
    } else {
        assert(s.last() == d[d.len() - 1]);
        assert(is_digit(d[d.len() - 1]));
    }
    lemma_trim_plain(s);
    assert forall|j: int| 0 <= j < d.len() implies is_digit(#[trigger] s[j]) by {
        assert(s[j] == d[j]);
    }
    if u.len() > 0 {
        assert(s[d.len() as int] == u[0]);
    }
    lemma_first_alpha_after_digits(s, d.len() as int, 0);
    assert(s.subrange(0, d.len() as int) =~= d);
    assert(s.subrange(d.len() as int, s.len() as int) =~= u);
    assert(d.last() == d[d.len() - 1] && is_digit(d[d.len() - 1]));
    lemma_trim_plain(d);
    if u.len() > 0 {
        let c = u[u.len() - 1];
        assert(('a' <= c && c <= 'z') || ('A' <= c && c <= 'Z'));
        assert(('a' <= u[0] && u[0] <= 'z') || ('A' <= u[0] && u[0] <= 'Z'));
    }
    lemma_trim_plain(u);
    assert(sign_len(d) == 0);
    assert(d.subrange(sign_len(d), d.len() as int) =~= d);
    lemma_no_point(d, 0);
    assert(int_digits(d) =~= d);
    assert(frac_digits(d) =~= Seq::<char>::empty());
    match size_unit_exp(u) {
        Some(e) => {
            let fp = Seq::<char>::empty();
            assert(digits_value(fp) == 0);
            if e == 0 {
                assert(fp.subrange(0, 0) =~= fp);
            }
            assert(frac_scaled(fp, e) == 0);
        },
        None => {},
    }
}

proof fn lemma_unit_case(d: Seq<char>, u: Seq<char>, e: nat)
    requires
        d.len() > 0,
        all_digits(d),
        ascii_letters(u),
        size_unit_exp(u) == Some(e),
    ensures
        spec_parse_size(d + u) == Some(capped_bytes(digits_value(d) * pow10(e))),
{
    lemma_digits_then_unit(d, u);
}

/// A documented size unit is accepted, in either case, with its decimal
/// multiplier (capped at `u64::MAX`): for any digits `d` standing for `n`,
/// bytes: `d`, `db` and `dB` are `n` bytes.
pub proof fn law_size_unit_bytes(d: Seq<char>)
    requires
        d.len() > 0,
        all_digits(d),
    ensures
        spec_parse_size(d) == Some(capped_bytes(digits_value(d))),
        spec_parse_size(d + "b"@) == Some(capped_bytes(digits_value(d) * 1)),
        spec_parse_size(d + "B"@) == Some(capped_bytes(digits_value(d) * 1)),
{
    assert(d + Seq::<char>::empty() =~= d);
    assert(Seq::<char>::empty().map_values(|c: char| ascii_lower(c)) =~= Seq::<char>::empty());
    lemma_digits_then_unit(d, Seq::<char>::empty());
    reveal_strlit("b");
    assert("b"@ =~= seq!['b']);
    assert(seq!['b'].map_values(|c: char| ascii_lower(c)) =~= seq!['b']);
    lemma_unit_case(d, seq!['b'], 0);
    reveal_strlit("B");
    assert("B"@ =~= seq!['B']);
    assert(seq!['B'].map_values(|c: char| ascii_lower(c)) =~= seq!['b']);
    lemma_unit_case(d, seq!['B'], 0);
}

/// A documented size unit is accepted, in either case, with its decimal
/// multiplier (capped at `u64::MAX`): for any digits `d` standing for `n`,
/// kilobytes: `dk`, `dK`, `dkb`, `dkB`, `dKB` are `n * 1000` bytes.
pub proof fn law_size_unit_kilo(d: Seq<char>)
    requires
        d.len() > 0,
        all_digits(d),
    ensures
        spec_parse_size(d + "k"@) == Some(capped_bytes(digits_value(d) * 1_000)),
        spec_parse_size(d + "K"@) == Some(capped_bytes(digits_value(d) * 1_000)),
        spec_parse_size(d + "kb"@) == Some(capped_bytes(digits_value(d) * 1_000)),
        spec_parse_size(d + "kB"@) == Some(capped_bytes(digits_value(d) * 1_000)),
        spec_parse_size(d + "KB"@) == Some(capped_bytes(digits_value(d) * 1_000)),
{
    reveal_with_fuel(pow10, 4);
    assert(pow10(3) == 1_000);
    reveal_strlit("k");
    assert("k"@ =~= seq!['k']);
    assert(seq!['k'].map_values(|c: char| ascii_lower(c)) =~= seq!['k']);
    lemma_unit_case(d, seq!['k'], 3);
    reveal_strlit("K");
    assert("K"@ =~= seq!['K']);
    assert(seq!['K'].map_values(|c: char| ascii_lower(c)) =~= seq!['k']);
    lemma_unit_case(d, seq!['K'], 3);
    reveal_strlit("kb");
    assert("kb"@ =~= seq!['k', 'b']);
    assert(seq!['k', 'b'].map_values(|c: char| ascii_lower(c)) =~= seq!['k', 'b']);
    lemma_unit_case(d, seq!['k', 'b'], 3);
    reveal_strlit("kB");
    assert("kB"@ =~= seq!['k', 'B']);
    assert(seq!['k', 'B'].map_values(|c: char| ascii_lower(c)) =~= seq!['k', 'b']);
    lemma_unit_case(d, seq!['k', 'B'], 3);
    reveal_strlit("KB");
    assert("KB"@ =~= seq!['K', 'B']);
    assert(seq!['K', 'B'].map_values(|c: char| ascii_lower(c)) =~= seq!['k', 'b']);
    lemma_unit_case(d, seq!['K', 'B'], 3);
}

/// A documented size unit is accepted, in either case, with its decimal
/// multiplier (capped at `u64::MAX`): for any digits `d` standing for `n`,
/// megabytes: `dm`, `dM`, `dmb`, `dMB` are `n * 10^6` bytes.
pub proof fn law_size_unit_mega(d: Seq<char>)
    requires
        d.len() > 0,
        all_digits(d),
    ensures
        spec_parse_size(d + "m"@) == Some(capped_bytes(digits_value(d) * 1_000_000)),
        spec_parse_size(d + "M"@) == Some(capped_bytes(digits_value(d) * 1_000_000)),
        spec_parse_size(d + "mb"@) == Some(capped_bytes(digits_value(d) * 1_000_000)),
        spec_parse_size(d + "MB"@) == Some(capped_bytes(digits_value(d) * 1_000_000)),
{
    reveal_with_fuel(pow10, 7);
    assert(pow10(6) == 1_000_000);
    reveal_strlit("m");
    assert("m"@ =~= seq!['m']);
    assert(seq!['m'].map_values(|c: char| ascii_lower(c)) =~= seq!['m']);
    lemma_unit_case(d, seq!['m'], 6);
    reveal_strlit("M");
    assert("M"@ =~= seq!['M']);
    assert(seq!['M'].map_values(|c: char| ascii_lower(c)) =~= seq!['m']);
    lemma_unit_case(d, seq!['M'], 6);
    reveal_strlit("mb");
    assert("mb"@ =~= seq!['m', 'b']);
    assert(seq!['m', 'b'].map_values(|c: char| ascii_lower(c)) =~= seq!['m', 'b']);
    lemma_unit_case(d, seq!['m', 'b'], 6);
    reveal_strlit("MB");
    assert("MB"@ =~= seq!['M', 'B']);
    assert(seq!['M', 'B'].map_values(|c: char| ascii_lower(c)) =~= seq!['m', 'b']);
    lemma_unit_case(d, seq!['M', 'B'], 6);
}

/// A documented size unit is accepted, in either case, with its decimal
/// multiplier (capped at `u64::MAX`): for any digits `d` standing for `n`,
/// gigabytes: `dg`, `dG`, `dgb`, `dGB` are `n * 10^9` bytes.
pub proof fn law_size_unit_giga(d: Seq<char>)
    requires
        d.len() > 0,
        all_digits(d),
    ensures
        spec_parse_size(d + "g"@) == Some(capped_bytes(digits_value(d) * 1_000_000_000)),
        spec_parse_size(d + "G"@) == Some(capped_bytes(digits_value(d) * 1_000_000_000)),
        spec_parse_size(d + "gb"@) == Some(capped_bytes(digits_value(d) * 1_000_000_000)),
        spec_parse_size(d + "GB"@) == Some(capped_bytes(digits_value(d) * 1_000_000_000)),
{
    reveal_with_fuel(pow10, 10);
    assert(pow10(9) == 1_000_000_000);
    reveal_strlit("g");
    assert("g"@ =~= seq!['g']);
    assert(seq!['g'].map_values(|c: char| ascii_lower(c)) =~= seq!['g']);
    lemma_unit_case(d, seq!['g'], 9);
    reveal_strlit("G");
    assert("G"@ =~= seq!['G']);
    assert(seq!['G'].map_values(|c: char| ascii_lower(c)) =~= seq!['g']);
    lemma_unit_case(d, seq!['G'], 9);
    reveal_strlit("gb");
    assert("gb"@ =~= seq!['g', 'b']);
    assert(seq!['g', 'b'].map_values(|c: char| ascii_lower(c)) =~= seq!['g', 'b']);
    lemma_unit_case(d, seq!['g', 'b'], 9);
    reveal_strlit("GB");
    assert("GB"@ =~= seq!['G', 'B']);
    assert(seq!['G', 'B'].map_values(|c: char| ascii_lower(c)) =~= seq!['g', 'b']);
    lemma_unit_case(d, seq!['G', 'B'], 9);
}

/// A documented size unit is accepted, in either case, with its decimal
/// multiplier (capped at `u64::MAX`): for any digits `d` standing for `n`,
/// terabytes: `dt`, `dT`, `dtb`, `dTB` are `n * 10^12` bytes.
pub proof fn law_size_unit_tera(d: Seq<char>)
    requires
        d.len() > 0,
        all_digits(d),
    ensures
        spec_parse_size(d + "t"@) == Some(capped_bytes(digits_value(d) * 1_000_000_000_000)),
        spec_parse_size(d + "T"@) == Some(capped_bytes(digits_value(d) * 1_000_000_000_000)),
        spec_parse_size(d + "tb"@) == Some(capped_bytes(digits_value(d) * 1_000_000_000_000)),
        spec_parse_size(d + "TB"@) == Some(capped_bytes(digits_value(d) * 1_000_000_000_000)),
{
    lemma_pow10_12();
    reveal_strlit("t");
    assert("t"@ =~= seq!['t']);
    assert(seq!['t'].map_values(|c: char| ascii_lower(c)) =~= seq!['t']);
    lemma_unit_case(d, seq!['t'], 12);
    reveal_strlit("T");
    assert("T"@ =~= seq!['T']);
    assert(seq!['T'].map_values(|c: char| ascii_lower(c)) =~= seq!['t']);
    lemma_unit_case(d, seq!['T'], 12);
    reveal_strlit("tb");
    assert("tb"@ =~= seq!['t', 'b']);
    assert(seq!['t', 'b'].map_values(|c: char| ascii_lower(c)) =~= seq!['t', 'b']);
    lemma_unit_case(d, seq!['t', 'b'], 12);
    reveal_strlit("TB");
    assert("TB"@ =~= seq!['T', 'B']);
    assert(seq!['T', 'B'].map_values(|c: char| ascii_lower(c)) =~= seq!['t', 'b']);
    lemma_unit_case(d, seq!['T', 'B'], 12);
}

proof fn lemma_digits_value_concat(d: Seq<char>, f: Seq<char>)
    ensures
        digits_value(d + f) == digits_value(d) * pow10(f.len()) + digits_value(f),
    decreases f.len(),
{
    if f.len() == 0 {
        assert(d + f =~= d);
        assert(pow10(0) == 1);
        assert(digits_value(f) == 0);
        assert(digits_value(d) * 1 == digits_value(d));
    } else {
        let f1 = f.drop_last();
        lemma_digits_value_concat(d, f1);
        assert(d + f =~= (d + f1).push(f.last()));
        lemma_digits_value_push(d + f1, f.last());
        assert(f =~= f1.push(f.last()));
        lemma_digits_value_push(f1, f.last());
        assert(pow10(f.len()) == 10 * pow10(f1.len()));
        let a = digits_value(d);
        let p = pow10(f1.len());
        let b = digits_value(f1);
        let c = digit_value(f.last());
        assert((a * p + b) * 10 + c == a * (10 * p) + (b * 10 + c)) by (nonlinear_arith);
        assert(digits_value(d + f) == (a * p + b) * 10 + c);
        assert(digits_value(f) == b * 10 + c);
    }
}

proof fn lemma_first_alpha_before(s: Seq<char>, n: int, i: int)
    requires
        0 <= i <= n <= s.len(),
        forall|j: int| 0 <= j < n ==> is_digit(#[trigger] s[j]) || s[j] == '.',
        n < s.len() ==> ('a' <= s[n] && s[n] <= 'z') || ('A' <= s[n] && s[n] <= 'Z'),
    ensures
        first_alpha_from(s, i) == n,
    decreases n - i,
{
    if i < n {
        assert(is_digit(s[i]) || s[i] == '.');
        lemma_first_alpha_before(s, n, i + 1);
    }
}

/// A size written as digits, a point, digits and ASCII letters is the
/// whole part times the unit's power of ten plus the scaled fraction.
proof fn lemma_decimal_then_unit(d: Seq<char>, f: Seq<char>, u: Seq<char>, e: nat)
    requires
        d.len() > 0,
        all_digits(d),
        all_digits(f),
        ascii_letters(u),
        size_unit_exp(u) == Some(e),
    ensures
        spec_parse_size(d + seq!['.'] + f + u) == Some(capped_bytes(digits_value(d) * pow10(e) + frac_scaled(f, e))),
{
    let n = d + seq!['.'] + f;
    let s = n + u;
    assert(is_digit(s[0]) && s[0] == n[0] && n[0] == d[0]);
    let c = s.last();
    if u.len() > 0 {
        assert(c == u[u.len() - 1]);
        assert(('a' <= c && c <= 'z') || ('A' <= c && c <= 'Z'));
    } else if f.len() > 0 {
        assert(c == f[f.len() - 1]);
        assert(is_digit(f[f.len() - 1]));
    } else {
        assert(c == '.');
    }
    lemma_trim_plain(s);
    assert forall|j: int| 0 <= j < n.len() implies is_digit(#[trigger] s[j]) || s[j] == '.' by {
        assert(s[j] == n[j]);
        if j < d.len() {
            assert(n[j] == d[j]);
        } else if j > d.len() {
            assert(n[j] == f[j - d.len() - 1]);
        }
    }
    if u.len() > 0 {
        assert(s[n.len() as int] == u[0]);
    }
    lemma_first_alpha_before(s, n.len() as int, 0);
    assert(s.subrange(0, n.len() as int) =~= n);
    assert(s.subrange(n.len() as int, s.len() as int) =~= u);
    let cn = n.last();
    if f.len() > 0 {
        assert(cn == f[f.len() - 1] && is_digit(f[f.len() - 1]));
    } else {
        assert(cn == '.');
    }
    lemma_trim_plain(n);
    if u.len() > 0 {
        let c = u[u.len() - 1];
        assert(('a' <= c && c <= 'z') || ('A' <= c && c <= 'Z'));
        assert(('a' <= u[0] && u[0] <= 'z') || ('A' <= u[0] && u[0] <= 'Z'));
    }
    lemma_trim_plain(u);
    assert(sign_len(n) == 0);
    assert(n.subrange(sign_len(n), n.len() as int) =~= n);
    lemma_no_point(d, 0);
    assert forall|j: int| 0 <= j < d.len() implies n[j] != '.' by {
        assert(n[j] == d[j] && is_digit(d[j]));
    }
    lemma_point_at(n, d.len() as int, 0);
    assert(int_digits(n) =~= d);
    assert(frac_digits(n) =~= f);
}

proof fn lemma_point_at(n: Seq<char>, p: int, i: int)
    requires
        0 <= i <= p < n.len(),
        n[p] == '.',
        forall|j: int| 0 <= j < p ==> n[j] != '.',
    ensures
        first_char_from(n, '.', i) == p,
    decreases p - i,
{
    if i < p {
        lemma_point_at(n, p, i + 1);
    }
}

/// A decimal point shifts the unit as in written arithmetic: for whole
/// digits `d`, fraction digits `f` no longer than the unit's exponent `e`,
/// and any spelling `u` of that unit, `d.f` with unit `u` is the number
/// written `df` times `10^(e - len f)` bytes (capped at `u64::MAX`); for
/// example `1.5G` is `15 * 10^8`.
pub proof fn law_size_fraction(d: Seq<char>, f: Seq<char>, u: Seq<char>, e: nat)
    requires
        d.len() > 0,
        all_digits(d),
        all_digits(f),
        ascii_letters(u),
        size_unit_exp(u) == Some(e),
        f.len() <= e,
    ensures
        spec_parse_size(d + seq!['.'] + f + u) == Some(capped_bytes(digits_value(d + f) * pow10((e - f.len()) as nat))),
{
    lemma_decimal_then_unit(d, f, u, e);
    let k = f.len();
    let r = (e - k) as nat;
    if k == e {
        assert(f.subrange(0, e as int) =~= f);
    }
    assert(frac_scaled(f, e) == digits_value(f) * pow10(r)) by {
        if k == e {
            assert(pow10(0) == 1);
        }
    }
    lemma_pow10_add(k, r);
    assert(k + r == e);
    lemma_digits_value_concat(d, f);
    let a = digits_value(d);
    let b = digits_value(f);
    let pk = pow10(k);
    let pr = pow10(r);
    assert(a * (pk * pr) + b * pr == (a * pk + b) * pr) by (nonlinear_arith);
}

proof fn lemma_age_digits_then_unit(d: Seq<char>, u: Seq<char>)
    requires
        d.len() > 0,
        all_digits(d),
        u.len() > 0,
        ascii_letters(u),
    ensures
        spec_parse_age(d + u) == (if digits_value(d) <= u64::MAX {
            match age_unit_secs(u) {
                Some(m) => Some(digits_value(d) * m),
                None => None,
            }
        } else {
            None
        }),
{
    let s = d + u;
    assert(is_digit(s[0]));
    assert(s.last() == u[u.len() - 1]);
    let c = u[u.len() - 1];
    assert(('a' <= c && c <= 'z') || ('A' <= c && c <= 'Z'));
    lemma_trim_plain(s);
    assert forall|j: int| 0 <= j < d.len() implies is_digit(#[trigger] s[j]) by {
        assert(s[j] == d[j]);
    }
    assert(s[d.len() as int] == u[0]);
    assert(('a' <= u[0] && u[0] <= 'z') || ('A' <= u[0] && u[0] <= 'Z'));
    lemma_first_alpha_after_digits(s, d.len() as int, 0);
    assert(s.subrange(0, d.len() as int) =~= d);
    assert(s.subrange(d.len() as int, s.len() as int) =~= u);
    assert(is_digit(d[d.len() - 1]));
    lemma_trim_plain(d);
    assert(is_digit(d[0]) && d[0] != '+');
}

/// Every documented age unit is accepted with its length in seconds: for
/// any digits `d` standing for `n` (within `u64`), `dh` is `n` hours, `dd`
/// `n` days, `dw` `n` weeks, `dmo` `n` months of 30 days and `dy` `n`
/// years of 365 days; digits alone are no age.
pub proof fn law_age_units(d: Seq<char>)
    requires
        d.len() > 0,
        all_digits(d),
    ensures
        spec_parse_age(d) is None,
        spec_parse_age(d + "h"@) == (if digits_value(d) <= u64::MAX { Some(digits_value(d) * (3_600)) } else { None }),
        spec_parse_age(d + "d"@) == (if digits_value(d) <= u64::MAX { Some(digits_value(d) * (86_400)) } else { None }),
        spec_parse_age(d + "w"@) == (if digits_value(d) <= u64::MAX { Some(digits_value(d) * (7 * 86_400)) } else { None }),
        spec_parse_age(d + "mo"@) == (if digits_value(d) <= u64::MAX { Some(digits_value(d) * (30 * 86_400)) } else { None }),
        spec_parse_age(d + "y"@) == (if digits_value(d) <= u64::MAX { Some(digits_value(d) * (365 * 86_400)) } else { None }),
{
    let dd = d;
    assert(is_digit(dd[0]) && is_digit(dd.last()));
    lemma_trim_plain(dd);
    assert forall|j: int| 0 <= j < d.len() implies is_digit(#[trigger] d[j]) by {}
    lemma_first_alpha_after_digits(d, d.len() as int, 0);
    reveal_strlit("h");
    assert("h"@ =~= seq!['h']);
    lemma_age_digits_then_unit(d, seq!['h']);
    reveal_strlit("d");
    assert("d"@ =~= seq!['d']);
    lemma_age_digits_then_unit(d, seq!['d']);
    reveal_strlit("w");
    assert("w"@ =~= seq!['w']);
    lemma_age_digits_then_unit(d, seq!['w']);
    reveal_strlit("mo");
    assert("mo"@ =~= seq!['m', 'o']);
    lemma_age_digits_then_unit(d, seq!['m', 'o']);
    reveal_strlit("y");
    assert("y"@ =~= seq!['y']);
    lemma_age_digits_then_unit(d, seq!['y']);
}

} // verus!
