//! Byte-level text scanning primitives shared by the source extractors.
//!
//! The broker pages are scanned as raw bytes.  Every executable function here
//! is specified against a recursive specification function over `Seq<u8>`,
//! so that the extractor contracts can be stated purely over the input bytes.

use vstd::prelude::*;

verus! {

// ---------------------------------------------------------------------------
// Byte classes
// ---------------------------------------------------------------------------

/// ASCII whitespace, as the source grammars use it.
pub open spec fn is_ws(b: u8) -> bool {
    b == 32 || b == 9 || b == 10 || b == 13 || b == 11 || b == 12
}

/// ASCII decimal digit.
pub open spec fn is_digit(b: u8) -> bool {
    48 <= b <= 57
}

/// Digit or the decimal point.
pub open spec fn is_digit_dot(b: u8) -> bool {
    is_digit(b) || b == 46
}

/// Digit or the thousands separator.
pub open spec fn is_digit_comma(b: u8) -> bool {
    is_digit(b) || b == 44
}

/// ASCII letter, digit or underscore.
pub open spec fn is_word_byte(b: u8) -> bool {
    is_digit(b) || (65 <= b <= 90) || (97 <= b <= 122) || b == 95
}

/// ASCII lower-casing of a single byte.
pub open spec fn lower(b: u8) -> u8 {
    if 65 <= b <= 90 {
        (b + 32) as u8
    } else {
        b
    }
}

pub fn byte_is_ws(b: u8) -> (r: bool)
    ensures
        r == is_ws(b),
{
    b == 32 || b == 9 || b == 10 || b == 13 || b == 11 || b == 12
}

pub fn byte_is_digit(b: u8) -> (r: bool)
    ensures
        r == is_digit(b),
{
    48 <= b && b <= 57
}

pub fn byte_is_digit_dot(b: u8) -> (r: bool)
    ensures
        r == is_digit_dot(b),
{
    (48 <= b && b <= 57) || b == 46
}

pub fn byte_is_digit_comma(b: u8) -> (r: bool)
    ensures
        r == is_digit_comma(b),
{
    (48 <= b && b <= 57) || b == 44
}

pub fn byte_lower(b: u8) -> (r: u8)
    ensures
        r == lower(b),
{
    if 65 <= b && b <= 90 {
        b + 32
    } else {
        b
    }
}

// ---------------------------------------------------------------------------
// Substring search, case-sensitive and ASCII-case-insensitive
// ---------------------------------------------------------------------------

/// The needle `n` occurs in `h` at position `i`.
pub open spec fn matches_at(h: Seq<u8>, n: Seq<u8>, i: int) -> bool {
    0 <= i && i + n.len() <= h.len() && (forall|j: int| 0 <= j < n.len() ==> h[i + j] == n[j])
}

/// The needle `n` occurs in `h` at position `i`, ignoring ASCII case.
pub open spec fn matches_ci_at(h: Seq<u8>, n: Seq<u8>, i: int) -> bool {
    0 <= i && i + n.len() <= h.len() && (forall|j: int|
        0 <= j < n.len() ==> lower(h[i + j]) == lower(n[j]))
}

/// First position at or after `i` where `n` occurs in `h`.
pub open spec fn find_from(h: Seq<u8>, n: Seq<u8>, i: int) -> Option<int>
    decreases h.len() - i + 1,
{
    if i + n.len() > h.len() {
        None
    } else if matches_at(h, n, i) {
        Some(i)
    } else {
        find_from(h, n, i + 1)
    }
}

/// First position at or after `i` where `n` occurs in `h`, ignoring ASCII case.
pub open spec fn find_ci_from(h: Seq<u8>, n: Seq<u8>, i: int) -> Option<int>
    decreases h.len() - i + 1,
{
    if i + n.len() > h.len() {
        None
    } else if matches_ci_at(h, n, i) {
        Some(i)
    } else {
        find_ci_from(h, n, i + 1)
    }
}

/// Checks whether `n` occurs in `h` exactly at position `i`.
pub fn match_at(h: &[u8], n: &[u8], i: usize) -> (r: bool)
    ensures
        r == matches_at(h@, n@, i as int),
{
    let hl = h.len();
    if i > hl || n.len() > hl - i {
        return false;
    }
    let mut j: usize = 0;
    while j < n.len()
        invariant
            i + n.len() <= h@.len() <= usize::MAX,
            j <= n.len(),
            forall|k: int| 0 <= k < j ==> h@[i + k] == n@[k],
        decreases n.len() - j,
    {
        if h[i + j] != n[j] {
            return false;
        }
        j += 1;
    }
    true
}

/// Checks whether `n` occurs in `h` at position `i`, ignoring ASCII case.
pub fn match_ci_at(h: &[u8], n: &[u8], i: usize) -> (r: bool)
    ensures
        r == matches_ci_at(h@, n@, i as int),
{
    let hl = h.len();
    if i > hl || n.len() > hl - i {
        return false;
    }
    let mut j: usize = 0;
    while j < n.len()
        invariant
            i + n.len() <= h@.len() <= usize::MAX,
            j <= n.len(),
            forall|k: int| 0 <= k < j ==> lower(h@[i + k]) == lower(n@[k]),
        decreases n.len() - j,
    {
        if byte_lower(h[i + j]) != byte_lower(n[j]) {
            return false;
        }
        j += 1;
    }
    true
}

/// First occurrence of `n` in `h` at or after `from`.
pub fn find_sub(h: &[u8], n: &[u8], from: usize) -> (r: Option<usize>)
    ensures
        match r {
            Some(p) => find_from(h@, n@, from as int) == Some(p as int) && p + n@.len()
                <= h@.len(),
            None => find_from(h@, n@, from as int) is None,
        },
{
    let mut i: usize = from;
    loop
        invariant
            from <= i,
            find_from(h@, n@, from as int) == find_from(h@, n@, i as int),
        decreases h@.len() - i + 1,
    {
        if i > h.len() || n.len() > h.len() - i {
            return None;
        }
        if match_at(h, n, i) {
            return Some(i);
        }
        i += 1;
    }
}

/// First occurrence of `n` in `h` at or after `from`, ignoring ASCII case.
pub fn find_sub_ci(h: &[u8], n: &[u8], from: usize) -> (r: Option<usize>)
    ensures
        match r {
            Some(p) => find_ci_from(h@, n@, from as int) == Some(p as int) && p + n@.len()
                <= h@.len(),
            None => find_ci_from(h@, n@, from as int) is None,
        },
{
    let mut i: usize = from;
    loop
        invariant
            from <= i,
            find_ci_from(h@, n@, from as int) == find_ci_from(h@, n@, i as int),
        decreases h@.len() - i + 1,
    {
        if i > h.len() || n.len() > h.len() - i {
            return None;
        }
        if match_ci_at(h, n, i) {
            return Some(i);
        }
        i += 1;
    }
}

/// Equality of two byte strings.
pub fn eq_bytes(a: &[u8], b: &[u8]) -> (r: bool)
    ensures
        r == (a@ == b@),
{
    if a.len() != b.len() {
        proof {
            assert(a@.len() != b@.len());
        }
        return false;
    }
    let mut j: usize = 0;
    while j < a.len()
        invariant
            a@.len() == b@.len(),
            j <= a@.len(),
            forall|k: int| 0 <= k < j ==> a@[k] == b@[k],
        decreases a@.len() - j,
    {
        if a[j] != b[j] {
            return false;
        }
        j += 1;
    }
    proof {
        assert(a@ =~= b@);
    }
    true
}

// ---------------------------------------------------------------------------
// Character runs
// ---------------------------------------------------------------------------

/// End of the run of whitespace starting at `i`.
pub open spec fn skip_ws(h: Seq<u8>, i: int) -> int
    decreases h.len() - i + 1,
{
    if i < 0 || i >= h.len() || !is_ws(h[i]) {
        i
    } else {
        skip_ws(h, i + 1)
    }
}

/// End of the run of decimal digits starting at `i`.
pub open spec fn run_end_digits(h: Seq<u8>, i: int) -> int
    decreases h.len() - i + 1,
{
    if i < 0 || i >= h.len() || !is_digit(h[i]) {
        i
    } else {
        run_end_digits(h, i + 1)
    }
}

/// End of the run of digit-or-dot bytes starting at `i`.
pub open spec fn run_end_digit_dot(h: Seq<u8>, i: int) -> int
    decreases h.len() - i + 1,
{
    if i < 0 || i >= h.len() || !is_digit_dot(h[i]) {
        i
    } else {
        run_end_digit_dot(h, i + 1)
    }
}

/// End of the run of digit-or-comma bytes starting at `i`.
pub open spec fn run_end_digit_comma(h: Seq<u8>, i: int) -> int
    decreases h.len() - i + 1,
{
    if i < 0 || i >= h.len() || !is_digit_comma(h[i]) {
        i
    } else {
        run_end_digit_comma(h, i + 1)
    }
}

/// End of the run of word bytes starting at `i`.
pub open spec fn run_end_word(h: Seq<u8>, i: int) -> int
    decreases h.len() - i + 1,
{
    if i < 0 || i >= h.len() || !is_word_byte(h[i]) {
        i
    } else {
        run_end_word(h, i + 1)
    }
}

/// End of the run of bytes other than `stop` starting at `i`.
pub open spec fn run_end_not(h: Seq<u8>, i: int, stop: u8) -> int
    decreases h.len() - i + 1,
{
    if i < 0 || i >= h.len() || h[i] == stop {
        i
    } else {
        run_end_not(h, i + 1, stop)
    }
}

pub fn ws_end(h: &[u8], from: usize) -> (r: usize)
    requires
        from <= h@.len(),
    ensures
        r == skip_ws(h@, from as int),
        from <= r <= h@.len(),
{
    let mut i: usize = from;
    loop
        invariant
            from <= i <= h@.len(),
            skip_ws(h@, from as int) == skip_ws(h@, i as int),
        decreases h@.len() - i + 1,
    {
        if i >= h.len() || !byte_is_ws(h[i]) {
            return i;
        }
        i += 1;
    }
}

pub fn digits_end(h: &[u8], from: usize) -> (r: usize)
    requires
        from <= h@.len(),
    ensures
        r == run_end_digits(h@, from as int),
        from <= r <= h@.len(),
{
    let mut i: usize = from;
    loop
        invariant
            from <= i <= h@.len(),
            run_end_digits(h@, from as int) == run_end_digits(h@, i as int),
        decreases h@.len() - i + 1,
    {
        if i >= h.len() || !byte_is_digit(h[i]) {
            return i;
        }
        i += 1;
    }
}

pub fn digit_dot_end(h: &[u8], from: usize) -> (r: usize)
    requires
        from <= h@.len(),
    ensures
        r == run_end_digit_dot(h@, from as int),
        from <= r <= h@.len(),
{
    let mut i: usize = from;
    loop
        invariant
            from <= i <= h@.len(),
            run_end_digit_dot(h@, from as int) == run_end_digit_dot(h@, i as int),
        decreases h@.len() - i + 1,
    {
        if i >= h.len() || !byte_is_digit_dot(h[i]) {
            return i;
        }
        i += 1;
    }
}

pub fn digit_comma_end(h: &[u8], from: usize) -> (r: usize)
    requires
        from <= h@.len(),
    ensures
        r == run_end_digit_comma(h@, from as int),
        from <= r <= h@.len(),
{
    let mut i: usize = from;
    loop
        invariant
            from <= i <= h@.len(),
            run_end_digit_comma(h@, from as int) == run_end_digit_comma(h@, i as int),
        decreases h@.len() - i + 1,
    {
        if i >= h.len() || !byte_is_digit_comma(h[i]) {
            return i;
        }
        i += 1;
    }
}

pub fn word_end(h: &[u8], from: usize) -> (r: usize)
    requires
        from <= h@.len(),
    ensures
        r == run_end_word(h@, from as int),
        from <= r <= h@.len(),
{
    let mut i: usize = from;
    loop
        invariant
            from <= i <= h@.len(),
            run_end_word(h@, from as int) == run_end_word(h@, i as int),
        decreases h@.len() - i + 1,
    {
        if i >= h.len() || !(byte_is_digit(h[i]) || (65 <= h[i] && h[i] <= 90) || (97 <= h[i]
            && h[i] <= 122) || h[i] == 95) {
            return i;
        }
        i += 1;
    }
}

pub fn not_byte_end(h: &[u8], from: usize, stop: u8) -> (r: usize)
    requires
        from <= h@.len(),
    ensures
        r == run_end_not(h@, from as int, stop),
        from <= r <= h@.len(),
{
    let mut i: usize = from;
    loop
        invariant
            from <= i <= h@.len(),
            run_end_not(h@, from as int, stop) == run_end_not(h@, i as int, stop),
        decreases h@.len() - i + 1,
    {
        if i >= h.len() || h[i] == stop {
            return i;
        }
        i += 1;
    }
}

pub proof fn lemma_skip_ws_le(h: Seq<u8>, i: int)
    requires
        0 <= i <= h.len(),
    ensures
        i <= skip_ws(h, i) <= h.len(),
    decreases h.len() - i,
{
    if i < h.len() && is_ws(h[i]) {
        lemma_skip_ws_le(h, i + 1);
    }
}

pub proof fn lemma_run_end_digits_le(h: Seq<u8>, i: int)
    requires
        0 <= i <= h.len(),
    ensures
        i <= run_end_digits(h, i) <= h.len(),
    decreases h.len() - i,
{
    if i < h.len() && is_digit(h[i]) {
        lemma_run_end_digits_le(h, i + 1);
    }
}

pub proof fn lemma_run_end_digit_dot_le(h: Seq<u8>, i: int)
    requires
        0 <= i <= h.len(),
    ensures
        i <= run_end_digit_dot(h, i) <= h.len(),
    decreases h.len() - i,
{
    if i < h.len() && is_digit_dot(h[i]) {
        lemma_run_end_digit_dot_le(h, i + 1);
    }
}

pub proof fn lemma_run_end_digit_comma_le(h: Seq<u8>, i: int)
    requires
        0 <= i <= h.len(),
    ensures
        i <= run_end_digit_comma(h, i) <= h.len(),
    decreases h.len() - i,
{
    if i < h.len() && is_digit_comma(h[i]) {
        lemma_run_end_digit_comma_le(h, i + 1);
    }
}

pub proof fn lemma_run_end_word_le(h: Seq<u8>, i: int)
    requires
        0 <= i <= h.len(),
    ensures
        i <= run_end_word(h, i) <= h.len(),
    decreases h.len() - i,
{
    if i < h.len() && is_word_byte(h[i]) {
        lemma_run_end_word_le(h, i + 1);
    }
}

pub proof fn lemma_run_end_not_le(h: Seq<u8>, i: int, stop: u8)
    requires
        0 <= i <= h.len(),
    ensures
        i <= run_end_not(h, i, stop) <= h.len(),
    decreases h.len() - i,
{
    if i < h.len() && h[i] != stop {
        lemma_run_end_not_le(h, i + 1, stop);
    }
}

/// A located case-insensitive occurrence is a match at or after the start.
pub proof fn lemma_find_ci_from_is_match(h: Seq<u8>, n: Seq<u8>, i: int)
    requires
        find_ci_from(h, n, i) is Some,
    ensures
        i <= find_ci_from(h, n, i).unwrap(),
        matches_ci_at(h, n, find_ci_from(h, n, i).unwrap()),
    decreases h.len() - i + 1,
{
    if i + n.len() > h.len() {
    } else if matches_ci_at(h, n, i) {
    } else {
        lemma_find_ci_from_is_match(h, n, i + 1);
    }
}

// ---------------------------------------------------------------------------
// Numeric tokens and fixed-point parsing
// ---------------------------------------------------------------------------

/// Every byte of `s` is a decimal digit.
pub open spec fn all_digits(s: Seq<u8>) -> bool {
    forall|j: int| 0 <= j < s.len() ==> is_digit(s[j])
}

/// Value of a string of decimal digits, most significant first.
pub open spec fn digits_val(s: Seq<u8>) -> int
    decreases s.len(),
{
    if s.len() == 0 {
        0
    } else {
        digits_val(s.drop_last()) * 10 + (s.last() - 48)
    }
}

/// Ten to the power `n`.
pub open spec fn pow10(n: nat) -> int
    decreases n,
{
    if n == 0 {
        1
    } else {
        10 * pow10((n - 1) as nat)
    }
}

/// Position of the first decimal point of `t`, if any.
pub open spec fn dot_pos(t: Seq<u8>) -> Option<int> {
    let e = run_end_not(t, 0, 46);
    if e < t.len() {
        Some(e)
    } else {
        None
    }
}

/// The digits of `t` before its first decimal point.
pub open spec fn int_part(t: Seq<u8>) -> Seq<u8> {
    match dot_pos(t) {
        Some(d) => t.subrange(0, d),
        None => t,
    }
}

/// The bytes of `t` after its first decimal point.
pub open spec fn frac_part(t: Seq<u8>) -> Seq<u8> {
    match dot_pos(t) {
        Some(d) => t.subrange(d + 1, t.len() as int),
        None => Seq::empty(),
    }
}

/// A well-formed numeric token: decimal digits with at most one decimal
/// point, and at least one digit.  This is exactly the shape that the
/// sources' numeric cell texts must have to be used as prices.
pub open spec fn is_decimal_token(t: Seq<u8>) -> bool {
    &&& all_digits(int_part(t))
    &&& all_digits(frac_part(t))
    &&& int_part(t).len() + frac_part(t).len() >= 1
}

/// How many fractional digits of `t` are kept when scaling by `10^digits`.
pub open spec fn kept_frac(t: Seq<u8>, digits: nat) -> nat {
    if frac_part(t).len() >= digits {
        digits
    } else {
        frac_part(t).len()
    }
}

/// The value of `t` times `10^digits`, rounded to the nearest integer,
/// halves away from zero.
pub open spec fn decimal_scaled(t: Seq<u8>, digits: nat) -> int {
    let f = frac_part(t);
    let k = kept_frac(t, digits);
    let carry: int = if f.len() > digits && f[digits as int] >= 53 {
        1
    } else {
        0
    };
    digits_val(int_part(t) + f.subrange(0, k as int)) * pow10((digits - k) as nat) + carry
}

/// The scaled value of a numeric token: `None` when the token is malformed
/// or the scaled value does not fit an `i32`.
pub open spec fn parse_price(t: Seq<u8>, digits: nat) -> Option<int> {
    if is_decimal_token(t) && decimal_scaled(t, digits) <= i32::MAX {
        Some(decimal_scaled(t, digits))
    } else {
        None
    }
}

pub proof fn lemma_digits_val_nonneg(s: Seq<u8>)
    requires
        all_digits(s),
    ensures
        digits_val(s) >= 0,
    decreases s.len(),
{
    if s.len() > 0 {
        lemma_digits_val_nonneg(s.drop_last());
    }
}

pub proof fn lemma_pow10_pos(n: nat)
    ensures
        pow10(n) >= 1,
    decreases n,
{
    if n > 0 {
        lemma_pow10_pos((n - 1) as nat);
    }
}

pub proof fn lemma_digits_val_concat(a: Seq<u8>, b: Seq<u8>)
    ensures
        digits_val(a + b) == digits_val(a) * pow10(b.len()) + digits_val(b),
    decreases b.len(),
{
    if b.len() == 0 {
        assert(a + b =~= a);
    } else {
        lemma_digits_val_concat(a, b.drop_last());
        assert((a + b).drop_last() =~= a + b.drop_last());
        lemma_pow10_pos((b.len() - 1) as nat);
        assert((digits_val(a) * pow10((b.len() - 1) as nat) + digits_val(b.drop_last())) * 10
            == digits_val(a) * (10 * pow10((b.len() - 1) as nat)) + digits_val(b.drop_last())
            * 10) by (nonlinear_arith);
    }
}

pub proof fn lemma_digits_val_prefix(s: Seq<u8>, i: int)
    requires
        0 <= i <= s.len(),
        all_digits(s),
    ensures
        0 <= digits_val(s.subrange(0, i)) <= digits_val(s),
{
    let a = s.subrange(0, i);
    let b = s.subrange(i, s.len() as int);
    assert(s =~= a + b);
    lemma_digits_val_nonneg(a);
    lemma_digits_val_nonneg(b);
    lemma_digits_val_concat(a, b);
    lemma_pow10_pos(b.len());
    assert(digits_val(a) * pow10(b.len()) >= digits_val(a) * 1) by (nonlinear_arith)
        requires
            digits_val(a) >= 0,
            pow10(b.len()) >= 1,
    ;
}

pub proof fn lemma_pow10_mono(i: nat, j: nat)
    requires
        i <= j,
    ensures
        pow10(i) <= pow10(j),
    decreases j,
{
    if i < j {
        lemma_pow10_mono(i, (j - 1) as nat);
        lemma_pow10_pos((j - 1) as nat);
    }
}

/// Ten to the power `n`, as a machine integer.
pub fn pow10_u64(n: usize) -> (r: u64)
    requires
        n <= 9,
    ensures
        r as int == pow10(n as nat),
{
    let mut r: u64 = 1;
    let mut i: usize = 0;
    while i < n
        invariant
            i <= n <= 9,
            r as int == pow10(i as nat),
        decreases n - i,
    {
        proof {
            lemma_pow10_mono(i as nat, 8);
            reveal_with_fuel(pow10, 11);
            assert(pow10(8) == 100000000);
        }
        r = r * 10;
        i += 1;
    }
    r
}

/// Checks that `t` is a well-formed numeric token.
pub fn is_decimal_token_exec(t: &[u8]) -> (r: bool)
    ensures
        r == is_decimal_token(t@),
{
    let n = t.len();
    let dp = not_byte_end(t, 0, 46);
    let ghost ip = int_part(t@);
    let ghost fp = frac_part(t@);
    let (int_len, frac_start): (usize, usize) = if dp < n {
        (dp, dp + 1)
    } else {
        (n, n)
    };
    proof {
        if dp < n {
            assert(ip =~= t@.subrange(0, dp as int));
            assert(fp =~= t@.subrange(dp + 1, n as int));
        } else {
            assert(ip =~= t@);
            assert(fp =~= Seq::<u8>::empty());
        }
    }
    let mut i: usize = 0;
    while i < int_len
        invariant
            i <= int_len <= n == t@.len(),
            ip == int_part(t@),
            int_len == ip.len(),
            ip =~= t@.subrange(0, int_len as int),
            forall|k: int| 0 <= k < i ==> is_digit(ip[k]),
        decreases int_len - i,
    {
        if !byte_is_digit(t[i]) {
            assert(!is_digit(ip[i as int]));
            return false;
        }
        i += 1;
    }
    assert(all_digits(ip));
    let mut i: usize = frac_start;
    while i < n
        invariant
            frac_start <= i <= n == t@.len(),
            fp == frac_part(t@),
            fp =~= t@.subrange(frac_start as int, n as int),
            forall|k: int| 0 <= k < i - frac_start ==> is_digit(fp[k]),
        decreases n - i,
    {
        if !byte_is_digit(t[i]) {
            assert(!is_digit(fp[i - frac_start]));
            return false;
        }
        i += 1;
    }
    assert(all_digits(fp));
    if int_len == 0 && frac_start >= n {
        assert(ip.len() + fp.len() < 1);
        return false;
    }
    true
}

/// Parses a numeric token into its value scaled by `10^digits`, rounded to
/// the nearest integer with halves away from zero.  Returns `None` when the
/// token is not a plain decimal number or the result does not fit an `i32`.
pub fn parse_price_bytes(t: &[u8], digits: usize) -> (r: Option<i32>)
    requires
        digits <= 9,
    ensures
        r matches Some(v) ==> parse_price(t@, digits as nat) == Some(v as int) && v >= 0,
        r is None ==> parse_price(t@, digits as nat) is None,
{
    let n = t.len();
    let dp = not_byte_end(t, 0, 46);
    let ghost ip = int_part(t@);
    let ghost fp = frac_part(t@);
    let (int_len, frac_start): (usize, usize) = if dp < n {
        (dp, dp + 1)
    } else {
        (n, n)
    };
    proof {
        if dp < n {
            assert(ip =~= t@.subrange(0, dp as int));
            assert(fp =~= t@.subrange(dp + 1, n as int));
        } else {
            assert(ip =~= t@);
            assert(fp =~= Seq::<u8>::empty());
        }
    }
    // validate the digits
    let mut i: usize = 0;
    while i < int_len
        invariant
            i <= int_len <= n == t@.len(),
            ip == int_part(t@),
            int_len == ip.len(),
            ip =~= t@.subrange(0, int_len as int),
            forall|k: int| 0 <= k < i ==> is_digit(ip[k]),
        decreases int_len - i,
    {
        if !byte_is_digit(t[i]) {
            assert(!is_digit(ip[i as int]));
            return None;
        }
        i += 1;
    }
    assert(all_digits(ip));
    let mut i: usize = frac_start;
    while i < n
        invariant
            frac_start <= i <= n == t@.len(),
            fp == frac_part(t@),
            fp =~= t@.subrange(frac_start as int, n as int),
            forall|k: int| 0 <= k < i - frac_start ==> is_digit(fp[k]),
        decreases n - i,
    {
        if !byte_is_digit(t[i]) {
            assert(!is_digit(fp[i - frac_start]));
            return None;
        }
        i += 1;
    }
    assert(all_digits(fp));
    if int_len == 0 && frac_start >= n {
        assert(ip.len() + fp.len() < 1);
        return None;
    }
    assert(is_decimal_token(t@));

    // accumulate the integer part, then the kept fractional digits
    let mut acc: u64 = 0;
    let mut i: usize = 0;
    while i < int_len
        invariant
            i <= int_len <= n == t@.len(),
            ip == int_part(t@),
            int_len == ip.len(),
            ip =~= t@.subrange(0, int_len as int),
            all_digits(ip),
            all_digits(fp),
            is_decimal_token(t@),
            acc as int == digits_val(ip.subrange(0, i as int)),
            acc <= 2147483647,
            digits <= 9,
        decreases int_len - i,
    {
        proof {
            assert(is_digit(ip[i as int]));
            assert(ip[i as int] == t@[i as int]);
            assert(ip.subrange(0, i + 1).drop_last() =~= ip.subrange(0, i as int));
        }
        acc = acc * 10 + ((t[i] - 48) as u64);
        i += 1;
        if acc > 2147483647 {
            proof {
                lemma_scaled_exceeds(t@, digits as nat, i as int, acc as int);
            }
            return None;
        }
    }
    proof {
        assert(ip.subrange(0, int_len as int) =~= ip);
        assert(ip + frac_part(t@).subrange(0, 0) =~= ip);
    }
    let k: usize = if n - frac_start >= digits {
        digits
    } else {
        n - frac_start
    };
    proof {
        assert(k == kept_frac(t@, digits as nat));
    }
    let mut j: usize = 0;
    while j < k
        invariant
            j <= k <= fp.len(),
            ip == int_part(t@),
            fp == frac_part(t@),
            k == kept_frac(t@, digits as nat),
            k <= digits <= 9,
            frac_start + fp.len() == n == t@.len(),
            fp =~= t@.subrange(frac_start as int, n as int),
            all_digits(ip),
            all_digits(fp),
            is_decimal_token(t@),
            acc as int == digits_val(ip + fp.subrange(0, j as int)),
            acc <= 2147483647,
        decreases k - j,
    {
        proof {
            assert(is_digit(fp[j as int]));
            assert(fp[j as int] == t@[frac_start + j]);
            assert((ip + fp.subrange(0, j + 1)).drop_last() =~= ip + fp.subrange(0, j as int));
            assert((ip + fp.subrange(0, j + 1)).last() == fp[j as int]);
        }
        acc = acc * 10 + ((t[frac_start + j] - 48) as u64);
        j += 1;
        if acc > 2147483647 {
            proof {
                lemma_scaled_frac_exceeds(t@, digits as nat, j as int, acc as int);
            }
            return None;
        }
    }
    let p10 = pow10_u64(digits - k);
    let carry: u64 = if n - frac_start > digits && t[frac_start + digits] >= 53 {
        1
    } else {
        0
    };
    proof {
        assert(carry == 1 <==> (fp.len() > digits && fp[digits as int] >= 53));
        lemma_pow10_mono((digits - k) as nat, 9);
        reveal_with_fuel(pow10, 11);
        assert(acc * p10 <= 2147483647u64 * 1000000000u64) by (nonlinear_arith)
            requires
                acc <= 2147483647,
                p10 <= 1000000000,
                acc >= 0,
                p10 >= 0,
        ;
    }
    let scaled: u64 = acc * p10 + carry;
    proof {
        assert(fp.subrange(0, k as int) =~= fp.subrange(0, k as int));
        assert(scaled as int == decimal_scaled(t@, digits as nat));
    }
    if scaled > 2147483647 {
        return None;
    }
    Some(scaled as i32)
}

/// If an initial segment of the integer digits already exceeds `i32::MAX`,
/// the whole scaled value does.
proof fn lemma_scaled_exceeds(t: Seq<u8>, digits: nat, i: int, acc: int)
    requires
        is_decimal_token(t),
        0 <= i <= int_part(t).len(),
        acc == digits_val(int_part(t).subrange(0, i)),
        acc > i32::MAX,
    ensures
        parse_price(t, digits) is None,
{
    let ip = int_part(t);
    let fp = frac_part(t);
    let k = kept_frac(t, digits);
    let whole = ip + fp.subrange(0, k as int);
    assert(all_digits(whole));
    assert(whole.subrange(0, i) =~= ip.subrange(0, i));
    lemma_digits_val_prefix(whole, i);
    lemma_pow10_pos((digits - k) as nat);
    lemma_digits_val_nonneg(whole);
    assert(digits_val(whole) * pow10((digits - k) as nat) >= digits_val(whole) * 1)
        by (nonlinear_arith)
        requires
            digits_val(whole) >= 0,
            pow10((digits - k) as nat) >= 1,
    ;
}

/// The same, for a segment that extends into the kept fractional digits.
proof fn lemma_scaled_frac_exceeds(t: Seq<u8>, digits: nat, j: int, acc: int)
    requires
        is_decimal_token(t),
        0 <= j <= kept_frac(t, digits),
        acc == digits_val(int_part(t) + frac_part(t).subrange(0, j)),
        acc > i32::MAX,
    ensures
        parse_price(t, digits) is None,
{
    let ip = int_part(t);
    let fp = frac_part(t);
    let k = kept_frac(t, digits);
    let whole = ip + fp.subrange(0, k as int);
    assert(all_digits(whole));
    assert(whole.subrange(0, ip.len() + j) =~= ip + fp.subrange(0, j));
    lemma_digits_val_prefix(whole, ip.len() + j);
    lemma_pow10_pos((digits - k) as nat);
    lemma_digits_val_nonneg(whole);
    assert(digits_val(whole) * pow10((digits - k) as nat) >= digits_val(whole) * 1)
        by (nonlinear_arith)
        requires
            digits_val(whole) >= 0,
            pow10((digits - k) as nat) >= 1,
    ;
}

/// Copies the byte range `[from, to)` of `h` into a fresh vector.
pub fn copy_range(h: &[u8], from: usize, to: usize) -> (r: Vec<u8>)
    requires
        from <= to <= h@.len(),
    ensures
        r@ == h@.subrange(from as int, to as int),
{
    let mut out: Vec<u8> = Vec::new();
    let mut i: usize = from;
    while i < to
        invariant
            from <= i <= to <= h@.len(),
            out@ == h@.subrange(from as int, i as int),
        decreases to - i,
    {
        out.push(h[i]);
        proof {
            assert(out@ =~= h@.subrange(from as int, i + 1));
        }
        i += 1;
    }
    out
}

} // verus!
