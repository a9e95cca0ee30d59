//! Character-level helpers shared by the parsers and formatters.
//!
//! Strings are modelled by their view, a `Seq<char>`. The few facts about
//! Unicode character classes that the library relies on come from `std`
//! through the trusted items at the top of this file; everything else here is
//! verified.

use vstd::prelude::*;

verus! {

/// What `char::is_whitespace` answers for a character outside ASCII
/// (whether it has the Unicode `White_Space` property).
pub uninterp spec fn non_ascii_whitespace(c: char) -> bool;

/// Whether `char::is_whitespace` holds of `c`: within ASCII, a space or one
/// of `\t \n \x0b \x0c \r`; beyond it, the Unicode property.
pub open spec fn char_is_whitespace(c: char) -> bool {
    if (c as u32) < 0x80 {
        c == ' ' || ('\t' <= c && c <= '\r')
    } else {
        non_ascii_whitespace(c)
    }
}

/// What `char::is_alphabetic` answers for a character outside ASCII
/// (whether it has the Unicode `Alphabetic` property).
pub uninterp spec fn non_ascii_alphabetic(c: char) -> bool;

/// Whether `char::is_alphabetic` holds of `c`: within ASCII, an ASCII
/// letter; beyond it, the Unicode property.
pub open spec fn char_is_alphabetic(c: char) -> bool {
    if (c as u32) < 0x80 {
        ('a' <= c && c <= 'z') || ('A' <= c && c <= 'Z')
    } else {
        non_ascii_alphabetic(c)
    }
}

/// What `str::to_lowercase` returns for a string (full Unicode lowercasing).
pub uninterp spec fn str_to_lowercase(s: Seq<char>) -> Seq<char>;

/// Calls `char::is_whitespace`. Claims, as Unicode's `White_Space` list gives for the
/// ASCII range, that an ASCII character is whitespace exactly when it is a
/// space or one of `\t \n \x0b \x0c \r`, and that beyond ASCII the answer
/// is the named property `non_ascii_whitespace`.
#[verifier::external_body]
pub(crate) fn is_whitespace(c: char) -> (r: bool)
    ensures
        (c as u32) < 0x80 ==> (r <==> (c == ' ' || ('\t' <= c && c <= '\r'))),
        (c as u32) >= 0x80 ==> r == non_ascii_whitespace(c),
{
    c.is_whitespace()
}

/// Calls `char::is_alphabetic`. Claims, as Unicode's `Alphabetic` property
/// gives for the ASCII range, that an ASCII character is alphabetic exactly
/// when it is an ASCII letter, and that beyond ASCII the answer is the named
/// property `non_ascii_alphabetic`.
#[verifier::external_body]
pub(crate) fn is_alphabetic(c: char) -> (r: bool)
    ensures
        (c as u32) < 0x80 ==> (r <==> (('a' <= c && c <= 'z') || ('A' <= c && c <= 'Z'))),
        (c as u32) >= 0x80 ==> r == non_ascii_alphabetic(c),
{
    c.is_alphabetic()
}

/// Calls `str::to_lowercase`. Claims that the result is the named
/// lowercasing of the argument, and that the lowercase of the empty string
/// is empty; the Unicode case tables are not restated.
#[verifier::external_body]
pub(crate) fn to_lowercase(s: &str) -> (r: String)
    ensures
        r@ == str_to_lowercase(s@),
        s@.len() == 0 ==> r@.len() == 0,
{
    s.to_lowercase()
}

/// Calls `String::push`, which appends one character.
#[verifier::external_body]
pub(crate) fn push_char(s: &mut String, c: char)
    ensures
        final(s)@ == old(s)@.push(c),
{
    s.push(c)
}

/// The characters of a string, one by one.
pub fn chars_of(s: &str) -> (v: Vec<char>)
    ensures
        v@ == s@,
{
    let n = s.unicode_len();
    let mut v: Vec<char> = Vec::new();
    let mut i: usize = 0;
    while i < n
        invariant
            n == s@.len(),
            i <= n,
            v@ == s@.subrange(0, i as int),
        decreases n - i,
    {
        let c = s.get_char(i);
        v.push(c);
        i = i + 1;
        assert(v@ =~= s@.subrange(0, i as int));
    }
    assert(v@ =~= s@);
    v
}

/// A `String` holding the characters of `cs[from..to]`.
pub fn string_of(cs: &Vec<char>, from: usize, to: usize) -> (r: String)
    requires
        from <= to <= cs.len(),
    ensures
        r@ == cs@.subrange(from as int, to as int),
{
    let mut r = String::new();
    let mut i = from;
    while i < to
        invariant
            from <= i <= to <= cs.len(),
            r@ == cs@.subrange(from as int, i as int),
        decreases to - i,
    {
        push_char(&mut r, cs[i]);
        i = i + 1;
        assert(r@ =~= cs@.subrange(from as int, i as int));
    }
    r
}

// ---------------------------------------------------------------------------
// Trimming
// ---------------------------------------------------------------------------

/// Index of the first non-whitespace character at or after `i` (or `s.len()`).
pub open spec fn lead_end(s: Seq<char>, i: int) -> int
    decreases s.len() - i,
{
    if 0 <= i < s.len() && char_is_whitespace(s[i]) {
        lead_end(s, i + 1)
    } else {
        i
    }
}

/// Scanning back from `j` (exclusive) down to `lo`, the index just past the
/// last non-whitespace character.
pub open spec fn trail_end(s: Seq<char>, lo: int, j: int) -> int
    decreases j - lo,
{
    if lo < j <= s.len() && char_is_whitespace(s[j - 1]) {
        trail_end(s, lo, j - 1)
    } else {
        j
    }
}

/// `s` with leading and trailing whitespace removed (as `str::trim`).
pub open spec fn trim(s: Seq<char>) -> Seq<char> {
    let a = lead_end(s, 0);
    s.subrange(a, trail_end(s, a, s.len() as int))
}

pub proof fn lemma_lead_end_bounds(s: Seq<char>, i: int)
    requires
        0 <= i <= s.len(),
    ensures
        i <= lead_end(s, i) <= s.len(),
        forall|k: int| i <= k < lead_end(s, i) ==> char_is_whitespace(#[trigger] s[k]),
        lead_end(s, i) < s.len() ==> !char_is_whitespace(s[lead_end(s, i)]),
    decreases s.len() - i,
{
    if i < s.len() && char_is_whitespace(s[i]) {
        lemma_lead_end_bounds(s, i + 1);
    }
}

/// Bounds `(a, b)` with `cs[a..b]` the trimmed text of `cs[from..to]`.
pub fn trim_bounds(cs: &Vec<char>, from: usize, to: usize) -> (r: (usize, usize))
    requires
        from <= to <= cs.len(),
    ensures
        from <= r.0 <= r.1 <= to,
        cs@.subrange(r.0 as int, r.1 as int) == trim(cs@.subrange(from as int, to as int)),
{
    let ghost t = cs@.subrange(from as int, to as int);
    let mut a = from;
    while a < to && is_whitespace(cs[a])
        invariant
            from <= a <= to <= cs.len(),
            t == cs@.subrange(from as int, to as int),
            lead_end(t, 0) == lead_end(t, a - from),
        decreases to - a,
    {
        a = a + 1;
    }
    assert(lead_end(t, 0) == a - from);
    let mut b = to;
    while b > a && is_whitespace(cs[b - 1])
        invariant
            from <= a <= b <= to <= cs.len(),
            t == cs@.subrange(from as int, to as int),
            lead_end(t, 0) == a - from,
            trail_end(t, a - from, t.len() as int) == trail_end(t, a - from, b - from),
        decreases b - a,
    {
        b = b - 1;
    }
    assert(trail_end(t, a - from, t.len() as int) == b - from);
    assert(cs@.subrange(a as int, b as int) =~= t.subrange(a - from, b - from));
    (a, b)
}

// ---------------------------------------------------------------------------
// Searching
// ---------------------------------------------------------------------------

/// Index of the first alphabetic character of `s` at or after `i`
/// (or `s.len()` when there is none).
pub open spec fn first_alpha_from(s: Seq<char>, i: int) -> int
    decreases s.len() - i,
{
    if 0 <= i < s.len() {
        if char_is_alphabetic(s[i]) {
            i
        } else {
            first_alpha_from(s, i + 1)
        }
    } else {
        i
    }
}

/// Index of the first `c` in `s` at or after `i`, or `s.len()`.
pub open spec fn first_char_from(s: Seq<char>, c: char, i: int) -> int
    decreases s.len() - i,
{
    if 0 <= i < s.len() {
        if s[i] == c {
            i
        } else {
            first_char_from(s, c, i + 1)
        }
    } else {
        i
    }
}

pub proof fn lemma_first_char_bounds(s: Seq<char>, c: char, i: int)
    requires
        0 <= i <= s.len(),
    ensures
        i <= first_char_from(s, c, i) <= s.len(),
        forall|k: int| i <= k < first_char_from(s, c, i) ==> #[trigger] s[k] != c,
        first_char_from(s, c, i) < s.len() ==> s[first_char_from(s, c, i)] == c,
    decreases s.len() - i,
{
    if i < s.len() && s[i] != c {
        lemma_first_char_bounds(s, c, i + 1);
    }
}

/// Whether `pat` occurs in `s` starting at position `i`.
pub open spec fn occurs_at(s: Seq<char>, pat: Seq<char>, i: int) -> bool {
    0 <= i && i + pat.len() <= s.len() && s.subrange(i, i + pat.len()) == pat
}

/// Whether `pat` is a substring of `s` (as `str::contains`).
pub open spec fn contains_seq(s: Seq<char>, pat: Seq<char>) -> bool {
    exists|i: int| occurs_at(s, pat, i)
}

/// Whether `s` ends with `pat` (as `str::ends_with`).
pub open spec fn ends_with_seq(s: Seq<char>, pat: Seq<char>) -> bool {
    pat.len() <= s.len() && s.subrange(s.len() - pat.len(), s.len() as int) == pat
}

/// Whether `pat` occurs in `s` at position `i`.
pub fn matches_at(s: &Vec<char>, pat: &Vec<char>, i: usize) -> (r: bool)
    ensures
        r == occurs_at(s@, pat@, i as int),
{
    if i > s.len() || pat.len() > s.len() - i {
        return false;
    }
    let mut k: usize = 0;
    while k < pat.len()
        invariant
            i + pat.len() <= s.len(),
            k <= pat.len(),
            forall|j: int| 0 <= j < k ==> s@[i + j] == pat@[j],
        decreases pat.len() - k,
    {
        if s[i + k] != pat[k] {
            assert(s@.subrange(i as int, i + pat.len())[k as int] != pat@[k as int]);
            return false;
        }
        k = k + 1;
    }
    assert(s@.subrange(i as int, i + pat.len()) =~= pat@);
    true
}

/// Substring search, as `str::contains` with a string pattern.
pub fn contains_chars(s: &Vec<char>, pat: &Vec<char>) -> (r: bool)
    ensures
        r == contains_seq(s@, pat@),
{
    if pat.len() > s.len() {
        assert forall|i: int| !occurs_at(s@, pat@, i) by {}
        return false;
    }
    let last = s.len() - pat.len();
    let mut i: usize = 0;
    loop
        invariant
            last == s.len() - pat.len(),
            i <= last,
            forall|j: int| 0 <= j < i ==> !occurs_at(s@, pat@, j),
        ensures
            forall|j: int| 0 <= j <= last ==> !occurs_at(s@, pat@, j),
        decreases last - i,
    {
        if matches_at(s, pat, i) {
            return true;
        }
        if i == last {
            break;
        }
        i = i + 1;
    }
    assert forall|j: int| !occurs_at(s@, pat@, j) by {
        if 0 <= j && j <= last {
        }
    }
    false
}

// ---------------------------------------------------------------------------
// Decimal numbers
// ---------------------------------------------------------------------------

/// The ASCII digit for `d < 10`.
pub open spec fn digit_char(d: nat) -> char {
    if d == 0 { '0' }
    else if d == 1 { '1' }
    else if d == 2 { '2' }
    else if d == 3 { '3' }
    else if d == 4 { '4' }
    else if d == 5 { '5' }
    else if d == 6 { '6' }
    else if d == 7 { '7' }
    else if d == 8 { '8' }
    else { '9' }
}

/// Whether `c` is an ASCII decimal digit.
pub open spec fn is_digit(c: char) -> bool {
    '0' <= c && c <= '9'
}

/// The value of an ASCII digit.
pub open spec fn digit_value(c: char) -> nat {
    ((c as u32) - ('0' as u32)) as nat
}

/// The value of a string of decimal digits (most significant first).
pub open spec fn digits_value(d: Seq<char>) -> nat
    decreases d.len(),
{
    if d.len() == 0 {
        0
    } else {
        digits_value(d.drop_last()) * 10 + digit_value(d.last())
    }
}

/// Whether every character of `d` is an ASCII digit.
pub open spec fn all_digits(d: Seq<char>) -> bool {
    forall|i: int| 0 <= i < d.len() ==> is_digit(#[trigger] d[i])
}

/// The decimal rendering of `n`, without leading zeros (as `u64::to_string`).
pub open spec fn decimal(n: nat) -> Seq<char>
    decreases n,
{
    if n < 10 {
        seq![digit_char(n)]
    } else {
        decimal(n / 10).push(digit_char(n % 10))
    }
}

pub proof fn lemma_digits_value_push(d: Seq<char>, c: char)
    ensures
        digits_value(d.push(c)) == digits_value(d) * 10 + digit_value(c),
{
    assert(d.push(c).drop_last() =~= d);
}

pub proof fn lemma_digits_value_monotone(d: Seq<char>, k: int)
    requires
        0 <= k <= d.len(),
    ensures
        digits_value(d.subrange(0, k)) <= digits_value(d),
    decreases d.len() - k,
{
    if k < d.len() {
        lemma_digits_value_monotone(d, k + 1);
        assert(d.subrange(0, k + 1).drop_last() =~= d.subrange(0, k));
        assert(digits_value(d.subrange(0, k + 1)) == digits_value(d.subrange(0, k)) * 10
            + digit_value(d.subrange(0, k + 1).last()));
    } else {
        assert(d.subrange(0, k) =~= d);
    }
}

fn digit_to_char(d: u64) -> (c: char)
    requires
        d < 10,
    ensures
        c == digit_char(d as nat),
{
    if d == 0 { '0' }
    else if d == 1 { '1' }
    else if d == 2 { '2' }
    else if d == 3 { '3' }
    else if d == 4 { '4' }
    else if d == 5 { '5' }
    else if d == 6 { '6' }
    else if d == 7 { '7' }
    else if d == 8 { '8' }
    else { '9' }
}

/// The decimal rendering of `n` (as `u64::to_string`).
pub fn decimal_string(n: u64) -> (r: String)
    ensures
        r@ == decimal(n as nat),
{
    let mut digits: Vec<char> = Vec::new();
    let mut cur = n;
    while cur >= 10
        invariant
            decimal(n as nat) == decimal(cur as nat) + digits@,
        decreases cur,
    {
        let d = digit_to_char(cur % 10);
        let ghost old_digits = digits@;
        digits.insert(0, d);
        assert(decimal(cur as nat) == decimal((cur / 10) as nat).push(d));
        assert(decimal((cur / 10) as nat).push(d) + old_digits =~= decimal((cur / 10) as nat)
            + digits@);
        cur = cur / 10;
    }
    digits.insert(0, digit_to_char(cur));
    assert(decimal(cur as nat) == seq![digit_char(cur as nat)]);
    assert(decimal(n as nat) =~= digits@);
    string_of(&digits, 0, digits.len())
}

// ---------------------------------------------------------------------------
// Padding (as `format!`'s width for strings, which counts characters)
// ---------------------------------------------------------------------------

/// `n` spaces.
pub open spec fn spaces(n: nat) -> Seq<char> {
    Seq::new(n, |_i: int| ' ')
}

/// `s` right-aligned in a field of `width` characters (as `{:>width}`).
pub open spec fn pad_left_seq(s: Seq<char>, width: nat) -> Seq<char> {
    if s.len() >= width {
        s
    } else {
        spaces((width - s.len()) as nat) + s
    }
}

/// `s` left-aligned in a field of `width` characters (as `{:<width}`).
pub open spec fn pad_right_seq(s: Seq<char>, width: nat) -> Seq<char> {
    if s.len() >= width {
        s
    } else {
        s + spaces((width - s.len()) as nat)
    }
}

/// Append `n` spaces to `out`.
pub fn push_spaces(out: &mut String, n: usize)
    ensures
        final(out)@ == old(out)@ + spaces(n as nat),
{
    let mut k: usize = 0;
    while k < n
        invariant
            k <= n,
            out@ == old(out)@ + spaces(k as nat),
        decreases n - k,
    {
        push_char(out, ' ');
        k = k + 1;
        assert(out@ =~= old(out)@ + spaces(k as nat));
    }
}

/// `s` right-aligned in a field of `width` characters.
pub fn pad_left(s: &str, width: usize) -> (r: String)
    ensures
        r@ == pad_left_seq(s@, width as nat),
{
    let n = s.unicode_len();
    let mut r = String::new();
    if n < width {
        push_spaces(&mut r, width - n);
    }
    r.append(s);
    assert(r@ =~= pad_left_seq(s@, width as nat));
    r
}

/// `s` left-aligned in a field of `width` characters.
pub fn pad_right(s: &str, width: usize) -> (r: String)
    ensures
        r@ == pad_right_seq(s@, width as nat),
{
    let n = s.unicode_len();
    let mut r = String::new();
    r.append(s);
    if n < width {
        push_spaces(&mut r, width - n);
    }
    assert(r@ =~= pad_right_seq(s@, width as nat));
    r
}

} // verus!
