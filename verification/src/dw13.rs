//! Extractor for the delimited-HTML-table source.
//!
//! The page holds one `<table>` marked by a known `id` attribute.  Rows are
//! split on `<tr`; the third row carries the date headers, whose position
//! among the repeated date groups selects a column offset; every later row
//! contributes one table entry: its first numeric cell is the underlying
//! price and, after skipping `column_offset` cells, the remaining numeric
//! cells are that row's warrant prices.

use vstd::prelude::*;
use std::collections::HashMap;
use crate::scan::{
    is_ws, is_digit, matches_ci_at, find_ci_from, skip_ws, run_end_digits, run_end_word,
    run_end_digit_comma, is_decimal_token, parse_price, lemma_find_ci_from_is_match,
    lemma_skip_ws_le, lemma_run_end_digits_le, lemma_run_end_word_le,
    lemma_run_end_digit_comma_le, match_ci_at, find_sub_ci, ws_end, digits_end, word_end,
    digit_comma_end, byte_is_ws, byte_is_digit, copy_range, is_decimal_token_exec,
    parse_price_bytes, eq_bytes,
};
use crate::calendar::{WorkingDate, fmt_date_dmy, format_date_dmy, date_wf};
use crate::instrument::{lower_step, to_lower_adjacent_price};
use crate::instrument::dw::{DWInfo, DWSide, DWPriceTable, Error, is_s50_symbol, symbol_is_s50};

verus! {

broadcast use vstd::std_specs::hash::group_hash_axioms;

/// The bytes of `id`.
pub open spec fn n_id() -> Seq<u8> {
    seq![105u8, 100u8]
}

/// The bytes of `"maincontent_gvindicative"`, quotes included, the marker
/// attribute value of the price table (compared ignoring case).
pub open spec fn n_marker() -> Seq<u8> {
    seq![
        34u8, 109u8, 97u8, 105u8, 110u8, 99u8, 111u8, 110u8, 116u8, 101u8, 110u8, 116u8, 95u8,
        103u8, 118u8, 105u8, 110u8, 100u8, 105u8, 99u8, 97u8, 116u8, 105u8, 118u8, 101u8, 34u8,
    ]
}

/// The bytes of `</table`.
pub open spec fn n_table_end() -> Seq<u8> {
    seq![60u8, 47u8, 116u8, 97u8, 98u8, 108u8, 101u8]
}

/// The bytes of `<tr`.
pub open spec fn n_tr() -> Seq<u8> {
    seq![60u8, 116u8, 114u8]
}

/// End position of the anchor `\s id \s* = \s* "marker"` matching at `a`,
/// ignoring ASCII case.
pub open spec fn anchor_end(h: Seq<u8>, a: int) -> Option<int> {
    if 0 <= a && a < h.len() && is_ws(h[a]) && matches_ci_at(h, n_id(), a + 1) {
        let p = skip_ws(h, a + 3);
        if p < h.len() && h[p] == 61 {
            let q = skip_ws(h, p + 1);
            if matches_ci_at(h, n_marker(), q) {
                Some(q + 26)
            } else {
                None
            }
        } else {
            None
        }
    } else {
        None
    }
}

/// Leftmost anchor at or after `i`.
pub open spec fn first_anchor_from(h: Seq<u8>, i: int) -> Option<int>
    decreases h.len() - i + 1,
{
    if i >= h.len() {
        None
    } else if anchor_end(h, i) is Some {
        Some(i)
    } else {
        first_anchor_from(h, i + 1)
    }
}

/// The matched table fragment `[start, end)` of the page: from the leftmost
/// anchor through the first `</table` that starts past the anchor.
pub open spec fn table_region(h: Seq<u8>) -> Option<(int, int)> {
    match first_anchor_from(h, 0) {
        Some(a) => {
            let e = anchor_end(h, a).unwrap();
            match find_ci_from(h, n_table_end(), e + 1) {
                Some(t) => Some((a, t + 7)),
                None => None,
            }
        },
        None => None,
    }
}

/// The segments of `r` from position `i` on, split on case-insensitive
/// `<tr` occurrences.
pub open spec fn split_tr_from(r: Seq<u8>, i: int) -> Seq<Seq<u8>>
    decreases r.len() - i + 1,
    via split_tr_from_dec
{
    if i < 0 {
        Seq::empty()
    } else {
        match find_ci_from(r, n_tr(), i) {
            Some(p) => seq![r.subrange(i, p)] + split_tr_from(r, p + 3),
            None => seq![r.subrange(i, r.len() as int)],
        }
    }
}

#[via_fn]
proof fn split_tr_from_dec(r: Seq<u8>, i: int) {
    if i >= 0 && find_ci_from(r, n_tr(), i) is Some {
        lemma_find_ci_from_is_match(r, n_tr(), i);
    }
}

/// A date cell `>\s*(\d+-\w+-\d+)\s*<` whose `>` stands exactly at `j`:
/// gives (capture start, capture end, position after the match).
pub open spec fn date_attempt(col: Seq<u8>, j: int) -> Option<(int, int, int)> {
    if 0 <= j && j < col.len() && col[j] == 62 {
        let p1 = skip_ws(col, j + 1);
        let d1 = run_end_digits(col, p1);
        if d1 > p1 && d1 < col.len() && col[d1] == 45 {
            let w = run_end_word(col, d1 + 1);
            if w > d1 + 1 && w < col.len() && col[w] == 45 {
                let d2 = run_end_digits(col, w + 1);
                if d2 > w + 1 {
                    let p2 = skip_ws(col, d2);
                    if p2 < col.len() && col[p2] == 60 {
                        Some((p1, d2, p2 + 1))
                    } else {
                        None
                    }
                } else {
                    None
                }
            } else {
                None
            }
        } else {
            None
        }
    } else {
        None
    }
}

/// First date cell starting at or after `i`.
pub open spec fn next_date_cap(col: Seq<u8>, i: int) -> Option<(int, int, int)>
    decreases col.len() - i + 1,
{
    if i >= col.len() {
        None
    } else if date_attempt(col, i) is Some {
        date_attempt(col, i)
    } else {
        next_date_cap(col, i + 1)
    }
}

proof fn lemma_next_date_cap_bounds(col: Seq<u8>, i: int)
    requires
        0 <= i,
        next_date_cap(col, i) is Some,
    ensures
        ({
            let (s, e, res) = next_date_cap(col, i).unwrap();
            &&& 0 <= s <= e <= col.len()
            &&& i < res <= col.len()
        }),
    decreases col.len() - i + 1,
{
    if i >= col.len() {
    } else if date_attempt(col, i) is Some {
        let j = i;
        lemma_skip_ws_le(col, j + 1);
        let p1 = skip_ws(col, j + 1);
        lemma_run_end_digits_le(col, p1);
        let d1 = run_end_digits(col, p1);
        if d1 > p1 && d1 < col.len() && col[d1] == 45 {
            lemma_run_end_word_le(col, d1 + 1);
            let w = run_end_word(col, d1 + 1);
            if w > d1 + 1 && w < col.len() && col[w] == 45 {
                lemma_run_end_digits_le(col, w + 1);
                let d2 = run_end_digits(col, w + 1);
                if d2 > w + 1 {
                    lemma_skip_ws_le(col, d2);
                }
            }
        }
    } else {
        lemma_next_date_cap_bounds(col, i + 1);
    }
}

/// The date-cell captures of `col` from `i` on, in order.
pub open spec fn date_caps_from(col: Seq<u8>, i: int) -> Seq<Seq<u8>>
    decreases col.len() - i + 1,
    via date_caps_from_dec
{
    if i < 0 {
        Seq::empty()
    } else {
        match next_date_cap(col, i) {
            Some((s, e, res)) => seq![col.subrange(s, e)] + date_caps_from(col, res),
            None => Seq::empty(),
        }
    }
}

#[via_fn]
proof fn date_caps_from_dec(col: Seq<u8>, i: int) {
    if i >= 0 && next_date_cap(col, i) is Some {
        lemma_next_date_cap_bounds(col, i);
    }
}

/// A numeric cell `>\s*([\d,]+(\.\d+)?)\s*<` whose `>` stands exactly at
/// `j`: gives (capture start, capture end, position after the match).
pub open spec fn price_attempt(col: Seq<u8>, j: int) -> Option<(int, int, int)> {
    if 0 <= j && j < col.len() && col[j] == 62 {
        let p1 = skip_ws(col, j + 1);
        let r1 = run_end_digit_comma(col, p1);
        if r1 > p1 {
            let e = if r1 < col.len() && col[r1] == 46 && run_end_digits(col, r1 + 1) > r1 + 1 {
                run_end_digits(col, r1 + 1)
            } else {
                r1
            };
            let p2 = skip_ws(col, e);
            if p2 < col.len() && col[p2] == 60 {
                Some((p1, e, p2 + 1))
            } else {
                None
            }
        } else {
            None
        }
    } else {
        None
    }
}

/// First numeric cell starting at or after `i`.
pub open spec fn next_price_cap(col: Seq<u8>, i: int) -> Option<(int, int, int)>
    decreases col.len() - i + 1,
{
    if i >= col.len() {
        None
    } else if price_attempt(col, i) is Some {
        price_attempt(col, i)
    } else {
        next_price_cap(col, i + 1)
    }
}

proof fn lemma_next_price_cap_bounds(col: Seq<u8>, i: int)
    requires
        0 <= i,
        next_price_cap(col, i) is Some,
    ensures
        ({
            let (s, e, res) = next_price_cap(col, i).unwrap();
            &&& 0 <= s <= e <= col.len()
            &&& i < res <= col.len()
        }),
    decreases col.len() - i + 1,
{
    if i >= col.len() {
    } else if price_attempt(col, i) is Some {
        let j = i;
        lemma_skip_ws_le(col, j + 1);
        let p1 = skip_ws(col, j + 1);
        lemma_run_end_digit_comma_le(col, p1);
        let r1 = run_end_digit_comma(col, p1);
        if r1 > p1 {
            if r1 < col.len() && col[r1] == 46 {
                lemma_run_end_digits_le(col, r1 + 1);
            }
            let e = if r1 < col.len() && col[r1] == 46 && run_end_digits(col, r1 + 1) > r1 + 1 {
                run_end_digits(col, r1 + 1)
            } else {
                r1
            };
            lemma_skip_ws_le(col, e);
        }
    } else {
        lemma_next_price_cap_bounds(col, i + 1);
    }
}

/// The numeric-cell captures of `col` from `i` on, in order.
pub open spec fn price_caps_from(col: Seq<u8>, i: int) -> Seq<Seq<u8>>
    decreases col.len() - i + 1,
    via price_caps_from_dec
{
    if i < 0 {
        Seq::empty()
    } else {
        match next_price_cap(col, i) {
            Some((s, e, res)) => seq![col.subrange(s, e)] + price_caps_from(col, res),
            None => Seq::empty(),
        }
    }
}

#[via_fn]
proof fn price_caps_from_dec(col: Seq<u8>, i: int) {
    if i >= 0 && next_price_cap(col, i) is Some {
        lemma_next_price_cap_bounds(col, i);
    }
}

/// Index of the first well-formed numeric capture at or after `i`.
pub open spec fn first_decimal_idx(caps: Seq<Seq<u8>>, i: int) -> Option<int>
    decreases caps.len() - i + 1,
{
    if i < 0 || i >= caps.len() {
        None
    } else if is_decimal_token(caps[i]) {
        Some(i)
    } else {
        first_decimal_idx(caps, i + 1)
    }
}

/// The well-formed numeric captures from index `i` on, in order.
pub open spec fn decimal_caps_from(caps: Seq<Seq<u8>>, i: int) -> Seq<Seq<u8>>
    decreases caps.len() - i + 1,
{
    if i < 0 || i >= caps.len() {
        Seq::empty()
    } else if is_decimal_token(caps[i]) {
        seq![caps[i]] + decimal_caps_from(caps, i + 1)
    } else {
        decimal_caps_from(caps, i + 1)
    }
}

/// Index of the first capture equal to `target` at or after `i`.
pub open spec fn first_index_of(caps: Seq<Seq<u8>>, target: Seq<u8>, i: int) -> Option<int>
    decreases caps.len() - i + 1,
{
    if i < 0 || i >= caps.len() {
        None
    } else if caps[i] == target {
        Some(i)
    } else {
        first_index_of(caps, target, i + 1)
    }
}

/// The entry contributed by one row: the quantized first numeric cell
/// (stepped one tick down when `adjust` holds) mapped to the numeric cells
/// after skipping `offset` cells past the underlying.  A row with no
/// numeric cell, or whose underlying does not fit the integer grid,
/// contributes nothing.
pub open spec fn column_entry(col: Seq<u8>, offset: int, adjust: bool) -> Option<
    (int, Seq<Seq<u8>>),
> {
    let caps = price_caps_from(col, 0);
    match first_decimal_idx(caps, 0) {
        Some(u) => match parse_price(caps[u], 2) {
            Some(p) => Some(
                (
                    if adjust {
                        p - lower_step(p)
                    } else {
                        p
                    },
                    decimal_caps_from(caps, u + 1 + offset),
                ),
            ),
            None => None,
        },
        None => None,
    }
}

/// The zero-based position of the working date among the date headers of
/// the third row; zero when absent or when there is no third row.
pub open spec fn spec_column_offset(cols: Seq<Seq<u8>>, date: Seq<u8>) -> int {
    if cols.len() > 2 {
        match first_index_of(date_caps_from(cols[2], 0), date, 0) {
            Some(k) => k,
            None => 0,
        }
    } else {
        0
    }
}

/// The table accumulated over the rows before index `k` (rows 3 and later),
/// later rows overwriting equal keys.
pub open spec fn dw13_fold(cols: Seq<Seq<u8>>, offset: int, adjust: bool, k: int) -> Map<
    i32,
    Seq<Seq<u8>>,
>
    decreases k,
{
    if k <= 3 {
        Map::empty()
    } else {
        let m = dw13_fold(cols, offset, adjust, k - 1);
        match column_entry(cols[k - 1], offset, adjust) {
            Some(entry) => m.insert(entry.0 as i32, entry.1),
            None => m,
        }
    }
}

/// Whether the lower-tick adjustment applies: a call whose symbol names the
/// SET50 index.
pub open spec fn spec_dw13_adjust(info: DWInfo) -> bool {
    info.side == DWSide::C && is_s50_symbol(info.symbol@)
}

/// The whole extraction: `None` when the marked table is absent, else the
/// table read from the rows of the matched fragment.
pub open spec fn dw13_extract(content: Seq<u8>, date: Seq<u8>, adjust: bool) -> Option<
    Map<i32, Seq<Seq<u8>>>,
> {
    match table_region(content) {
        Some(region) => {
            let cols = split_tr_from(content.subrange(region.0, region.1), 0);
            Some(dw13_fold(cols, spec_column_offset(cols, date), adjust, cols.len() as int))
        },
        None => None,
    }
}

// ---------------------------------------------------------------------------
// Executable extraction
// ---------------------------------------------------------------------------

fn id_needle() -> (r: Vec<u8>)
    ensures
        r@ == n_id(),
{
    let v: Vec<u8> = vec![105u8, 100u8];
    proof {
        assert(v@ =~= n_id());
    }
    v
}

fn marker_needle() -> (r: Vec<u8>)
    ensures
        r@ == n_marker(),
{
    let v: Vec<u8> = vec![
        34u8, 109u8, 97u8, 105u8, 110u8, 99u8, 111u8, 110u8, 116u8, 101u8, 110u8, 116u8, 95u8,
        103u8, 118u8, 105u8, 110u8, 100u8, 105u8, 99u8, 97u8, 116u8, 105u8, 118u8, 101u8, 34u8,
    ];
    proof {
        assert(v@ =~= n_marker());
    }
    v
}

fn table_end_needle() -> (r: Vec<u8>)
    ensures
        r@ == n_table_end(),
{
    let v: Vec<u8> = vec![60u8, 47u8, 116u8, 97u8, 98u8, 108u8, 101u8];
    proof {
        assert(v@ =~= n_table_end());
    }
    v
}

fn tr_needle() -> (r: Vec<u8>)
    ensures
        r@ == n_tr(),
{
    let v: Vec<u8> = vec![60u8, 116u8, 114u8];
    proof {
        assert(v@ =~= n_tr());
    }
    v
}

fn anchor_attempt(h: &[u8], a: usize, id: &[u8], marker: &[u8]) -> (r: Option<usize>)
    requires
        a < h@.len(),
        id@ == n_id(),
        marker@ == n_marker(),
    ensures
        match r {
            Some(e) => anchor_end(h@, a as int) == Some(e as int) && a < e <= h@.len(),
            None => anchor_end(h@, a as int) is None,
        },
{
    if !byte_is_ws(h[a]) {
        return None;
    }
    if !match_ci_at(h, id, a + 1) {
        return None;
    }
    assert(a + 3 <= h@.len());
    let p = ws_end(h, a + 3);
    if p >= h.len() || h[p] != 61 {
        return None;
    }
    let q = ws_end(h, p + 1);
    if match_ci_at(h, marker, q) {
        assert(q + 26 <= h@.len());
        Some(q + 26)
    } else {
        None
    }
}

/// Locates the marked table fragment of the page.
fn find_table_region(h: &[u8]) -> (r: Option<(usize, usize)>)
    ensures
        match r {
            Some(t) => table_region(h@) == Some((t.0 as int, t.1 as int)) && t.0 <= t.1
                <= h@.len(),
            None => table_region(h@) is None,
        },
{
    let id = id_needle();
    let marker = marker_needle();
    let tend = table_end_needle();
    let mut i: usize = 0;
    loop
        invariant
            id@ == n_id(),
            marker@ == n_marker(),
            tend@ == n_table_end(),
            i <= h@.len(),
            first_anchor_from(h@, 0) == first_anchor_from(h@, i as int),
        decreases h@.len() - i + 1,
    {
        if i >= h.len() {
            return None;
        }
        match anchor_attempt(h, i, id.as_slice(), marker.as_slice()) {
            Some(e) => {
                assert(first_anchor_from(h@, i as int) == Some(i as int));
                if e >= h.len() {
                    proof {
                        assert(find_ci_from(h@, n_table_end(), e + 1) is None);
                    }
                    return None;
                }
                match find_sub_ci(h, tend.as_slice(), e + 1) {
                    Some(t) => {
                        proof {
                            lemma_find_ci_from_is_match(h@, n_table_end(), e + 1);
                            assert(n_table_end().len() == 7);
                        }
                        return Some((i, t + 7));
                    },
                    None => {
                        return None;
                    },
                }
            },
            None => {
                i += 1;
            },
        }
    }
}

fn date_attempt_exec(col: &[u8], j: usize) -> (r: Option<(usize, usize, usize)>)
    requires
        j < col@.len(),
    ensures
        match r {
            Some(t) => date_attempt(col@, j as int) == Some((t.0 as int, t.1 as int, t.2 as int))
                && t.0 <= t.1 <= col@.len() && j < t.2 <= col@.len(),
            None => date_attempt(col@, j as int) is None,
        },
{
    if col[j] != 62 {
        return None;
    }
    let p1 = ws_end(col, j + 1);
    let d1 = digits_end(col, p1);
    if !(d1 > p1 && d1 < col.len() && col[d1] == 45) {
        return None;
    }
    let w = word_end(col, d1 + 1);
    if !(w > d1 + 1 && w < col.len() && col[w] == 45) {
        return None;
    }
    let d2 = digits_end(col, w + 1);
    if !(d2 > w + 1) {
        return None;
    }
    let p2 = ws_end(col, d2);
    if p2 < col.len() && col[p2] == 60 {
        Some((p1, d2, p2 + 1))
    } else {
        None
    }
}

fn price_attempt_exec(col: &[u8], j: usize) -> (r: Option<(usize, usize, usize)>)
    requires
        j < col@.len(),
    ensures
        match r {
            Some(t) => price_attempt(col@, j as int) == Some((t.0 as int, t.1 as int, t.2 as int))
                && t.0 <= t.1 <= col@.len() && j < t.2 <= col@.len(),
            None => price_attempt(col@, j as int) is None,
        },
{
    if col[j] != 62 {
        return None;
    }
    let p1 = ws_end(col, j + 1);
    let r1 = digit_comma_end(col, p1);
    if !(r1 > p1) {
        return None;
    }
    let e = if r1 < col.len() && col[r1] == 46 {
        let de = digits_end(col, r1 + 1);
        if de > r1 + 1 {
            de
        } else {
            r1
        }
    } else {
        r1
    };
    let p2 = ws_end(col, e);
    if p2 < col.len() && col[p2] == 60 {
        Some((p1, e, p2 + 1))
    } else {
        None
    }
}

fn collect_date_caps(col: &[u8]) -> (caps: Vec<Vec<u8>>)
    ensures
        caps.deep_view() == date_caps_from(col@, 0),
{
    let mut caps: Vec<Vec<u8>> = Vec::new();
    let mut i: usize = 0;
    proof {
        assert(caps.deep_view() =~~= Seq::<Seq<u8>>::empty());
        assert(caps.deep_view() + date_caps_from(col@, 0) =~~= date_caps_from(col@, 0));
    }
    loop
        invariant
            i <= col@.len(),
            caps.deep_view() + date_caps_from(col@, i as int) == date_caps_from(col@, 0),
        decreases col@.len() - i + 1,
    {
        if i >= col.len() {
            proof {
                assert(date_caps_from(col@, i as int) =~~= Seq::<Seq<u8>>::empty());
                assert(caps.deep_view() =~~= date_caps_from(col@, 0));
            }
            return caps;
        }
        match date_attempt_exec(col, i) {
            Some((s, e, res)) => {
                proof {
                    assert(next_date_cap(col@, i as int) == Some((s as int, e as int, res as int)));
                    assert(date_caps_from(col@, i as int) == seq![col@.subrange(s as int, e as int)]
                        + date_caps_from(col@, res as int));
                }
                let ghost pre = caps.deep_view();
                let cap = copy_range(col, s, e);
                caps.push(cap);
                proof {
                    assert(caps.deep_view() =~~= pre.push(col@.subrange(s as int, e as int)));
                    assert(caps.deep_view() + date_caps_from(col@, res as int) =~~= date_caps_from(
                        col@,
                        0,
                    ));
                }
                i = res;
            },
            None => {
                proof {
                    assert(date_caps_from(col@, i as int) == date_caps_from(col@, i + 1));
                }
                i += 1;
            },
        }
    }
}

fn collect_price_caps(col: &[u8]) -> (caps: Vec<Vec<u8>>)
    ensures
        caps.deep_view() == price_caps_from(col@, 0),
{
    let mut caps: Vec<Vec<u8>> = Vec::new();
    let mut i: usize = 0;
    proof {
        assert(caps.deep_view() =~~= Seq::<Seq<u8>>::empty());
        assert(caps.deep_view() + price_caps_from(col@, 0) =~~= price_caps_from(col@, 0));
    }
    loop
        invariant
            i <= col@.len(),
            caps.deep_view() + price_caps_from(col@, i as int) == price_caps_from(col@, 0),
        decreases col@.len() - i + 1,
    {
        if i >= col.len() {
            proof {
                assert(price_caps_from(col@, i as int) =~~= Seq::<Seq<u8>>::empty());
                assert(caps.deep_view() =~~= price_caps_from(col@, 0));
            }
            return caps;
        }
        match price_attempt_exec(col, i) {
            Some((s, e, res)) => {
                proof {
                    assert(next_price_cap(col@, i as int) == Some(
                        (s as int, e as int, res as int),
                    ));
                    assert(price_caps_from(col@, i as int) == seq![col@.subrange(
                        s as int,
                        e as int,
                    )] + price_caps_from(col@, res as int));
                }
                let ghost pre = caps.deep_view();
                let cap = copy_range(col, s, e);
                caps.push(cap);
                proof {
                    assert(caps.deep_view() =~~= pre.push(col@.subrange(s as int, e as int)));
                    assert(caps.deep_view() + price_caps_from(col@, res as int) =~~= price_caps_from(
                        col@,
                        0,
                    ));
                }
                i = res;
            },
            None => {
                proof {
                    assert(price_caps_from(col@, i as int) == price_caps_from(col@, i + 1));
                }
                i += 1;
            },
        }
    }
}

fn find_first_decimal(caps: &Vec<Vec<u8>>) -> (r: Option<usize>)
    ensures
        match r {
            Some(u) => first_decimal_idx(caps.deep_view(), 0) == Some(u as int) && u
                < caps@.len(),
            None => first_decimal_idx(caps.deep_view(), 0) is None,
        },
{
    let mut u: usize = 0;
    loop
        invariant
            u <= caps@.len(),
            caps.deep_view().len() == caps@.len(),
            first_decimal_idx(caps.deep_view(), 0) == first_decimal_idx(caps.deep_view(), u as int),
        decreases caps@.len() - u,
    {
        if u >= caps.len() {
            return None;
        }
        proof {
            assert(caps.deep_view()[u as int] =~= caps@[u as int]@);
        }
        if is_decimal_token_exec(caps[u].as_slice()) {
            return Some(u);
        }
        u += 1;
    }
}

fn decimal_caps_exec(caps: &Vec<Vec<u8>>, start: usize) -> (dws: Vec<Vec<u8>>)
    ensures
        dws.deep_view() == decimal_caps_from(caps.deep_view(), start as int),
{
    let ghost capsd = caps.deep_view();
    let mut dws: Vec<Vec<u8>> = Vec::new();
    let mut j: usize = start;
    proof {
        assert(dws.deep_view() =~~= Seq::<Seq<u8>>::empty());
        assert(dws.deep_view() + decimal_caps_from(capsd, start as int) =~~= decimal_caps_from(
            capsd,
            start as int,
        ));
    }
    loop
        invariant
            start <= j,
            capsd == caps.deep_view(),
            capsd.len() == caps@.len(),
            dws.deep_view() + decimal_caps_from(capsd, j as int) == decimal_caps_from(
                capsd,
                start as int,
            ),
        decreases caps@.len() - j + 1,
    {
        if j >= caps.len() {
            proof {
                assert(decimal_caps_from(capsd, j as int) =~~= Seq::<Seq<u8>>::empty());
                assert(dws.deep_view() =~~= decimal_caps_from(capsd, start as int));
            }
            return dws;
        }
        proof {
            assert(capsd[j as int] =~= caps@[j as int]@);
        }
        if is_decimal_token_exec(caps[j].as_slice()) {
            let ghost pre = dws.deep_view();
            let cap = copy_range(caps[j].as_slice(), 0, caps[j].len());
            dws.push(cap);
            proof {
                assert(dws.deep_view() =~~= pre.push(capsd[j as int]));
                assert(decimal_caps_from(capsd, j as int) == seq![capsd[j as int]]
                    + decimal_caps_from(capsd, j + 1));
                assert(dws.deep_view() + decimal_caps_from(capsd, j + 1) =~~= decimal_caps_from(
                    capsd,
                    start as int,
                ));
            }
        } else {
            proof {
                assert(decimal_caps_from(capsd, j as int) == decimal_caps_from(capsd, j + 1));
            }
        }
        j += 1;
    }
}

/// Computes the entry of one row, if the row has one.
fn row_entry(col: &[u8], offset: usize, adjust: bool) -> (r: Option<(i32, Vec<Vec<u8>>)>)
    ensures
        match r {
            Some(entry) => ({
                let s = column_entry(col@, offset as int, adjust);
                &&& s is Some
                &&& entry.0 as int == s.unwrap().0
                &&& entry.1.deep_view() == s.unwrap().1
            }),
            None => column_entry(col@, offset as int, adjust) is None,
        },
{
    let caps = collect_price_caps(col);
    let ghost capsd = caps.deep_view();
    match find_first_decimal(&caps) {
        None => None,
        Some(u) => {
            proof {
                assert(capsd[u as int] =~= caps@[u as int]@);
            }
            match parse_price_bytes(caps[u].as_slice(), 2) {
                None => None,
                Some(p) => {
                    let key = if adjust {
                        to_lower_adjacent_price(p)
                    } else {
                        p
                    };
                    let start = if offset >= caps.len() - u {
                        caps.len()
                    } else {
                        u + 1 + offset
                    };
                    proof {
                        if offset >= caps@.len() - u {
                            assert(decimal_caps_from(capsd, u + 1 + offset) =~~= Seq::<
                                Seq<u8>,
                            >::empty());
                            assert(decimal_caps_from(capsd, caps@.len() as int) =~~= Seq::<
                                Seq<u8>,
                            >::empty());
                        }
                    }
                    let dws = decimal_caps_exec(&caps, start);
                    Some((key, dws))
                },
            }
        },
    }
}

/// Computes the working date's column offset from the header row.
fn column_offset_exec(cols: &Vec<Vec<u8>>, date: &[u8]) -> (r: usize)
    ensures
        r as int == spec_column_offset(cols.deep_view(), date@),
{
    if cols.len() > 2 {
        proof {
            assert(cols.deep_view()[2] =~= cols@[2]@);
        }
        let caps = collect_date_caps(cols[2].as_slice());
        let ghost capsd = caps.deep_view();
        let mut k: usize = 0;
        loop
            invariant
                k <= caps@.len(),
                capsd == caps.deep_view(),
                capsd.len() == caps@.len(),
                capsd == date_caps_from(cols.deep_view()[2], 0),
                cols.deep_view().len() > 2,
                first_index_of(capsd, date@, 0) == first_index_of(capsd, date@, k as int),
            decreases caps@.len() - k,
        {
            if k >= caps.len() {
                return 0;
            }
            proof {
                assert(capsd[k as int] =~= caps@[k as int]@);
            }
            if eq_bytes(caps[k].as_slice(), date) {
                return k;
            }
            k += 1;
        }
    } else {
        proof {
            assert(cols.deep_view().len() == cols@.len());
        }
        0
    }
}

/// Splits the table fragment into its rows on `<tr` markers.
fn split_tr_exec(region: &Vec<u8>) -> (cols: Vec<Vec<u8>>)
    ensures
        cols.deep_view() == split_tr_from(region@, 0),
{
    let tr = tr_needle();
    let mut cols: Vec<Vec<u8>> = Vec::new();
    let mut pos: usize = 0;
    let rlen = region.len();
    proof {
        assert(cols.deep_view() =~~= Seq::<Seq<u8>>::empty());
        assert(cols.deep_view() + split_tr_from(region@, 0) =~~= split_tr_from(region@, 0));
    }
    loop
        invariant
            pos <= region@.len(),
            region@.len() == rlen,
            tr@ == n_tr(),
            cols.deep_view() + split_tr_from(region@, pos as int) == split_tr_from(region@, 0),
        decreases region@.len() - pos + 1,
    {
        match find_sub_ci(region.as_slice(), tr.as_slice(), pos) {
            Some(p) => {
                proof {
                    lemma_find_ci_from_is_match(region@, n_tr(), pos as int);
                    assert(n_tr().len() == 3);
                    assert(p + 3 <= region@.len());
                    assert(split_tr_from(region@, pos as int) == seq![region@.subrange(
                        pos as int,
                        p as int,
                    )] + split_tr_from(region@, p + 3));
                }
                let ghost pre = cols.deep_view();
                let seg = copy_range(region.as_slice(), pos, p);
                cols.push(seg);
                proof {
                    assert(cols.deep_view() =~~= pre.push(region@.subrange(pos as int, p as int)));
                    assert(cols.deep_view() + split_tr_from(region@, p + 3) =~~= split_tr_from(
                        region@,
                        0,
                    ));
                }
                pos = p + 3;
            },
            None => {
                proof {
                    assert(split_tr_from(region@, pos as int) == seq![region@.subrange(
                        pos as int,
                        region@.len() as int,
                    )]);
                }
                let ghost pre = cols.deep_view();
                let seg = copy_range(region.as_slice(), pos, region.len());
                cols.push(seg);
                proof {
                    assert(cols.deep_view() =~~= pre.push(region@.subrange(
                        pos as int,
                        region@.len() as int,
                    )));
                    assert(cols.deep_view() =~~= split_tr_from(region@, 0));
                }
                return cols;
            },
        }
    }
}

/// Law: the HTML-table extractor never reports a located but empty table
/// as a success; such a table is a data-not-found error.
pub proof fn lemma_located_empty_table_is_an_error(
    dw_info: DWInfo,
    content: Seq<u8>,
    date: WorkingDate,
    r: Result<HashMap<i32, Vec<Vec<u8>>>, Error>,
)
    requires
        <DW13 as DWPriceTable>::table_ens(dw_info, content, date, r),
        dw13_extract(content, fmt_date_dmy(date), spec_dw13_adjust(dw_info)) matches Some(t)
            && t.dom() == Set::<i32>::empty(),
    ensures
        r matches Err(e) && e matches Error::DataNotFound { .. },
{
}

/// Extractor for the delimited-HTML-table source.
pub struct DW13;

impl DWPriceTable for DW13 {
    type UnderlyingType = i32;

    type DWType = Vec<u8>;

    open spec fn table_req(dw_info: DWInfo, content: Seq<u8>, date: WorkingDate) -> bool {
        date_wf(date)
    }

    open spec fn table_ens(
        dw_info: DWInfo,
        content: Seq<u8>,
        date: WorkingDate,
        r: Result<HashMap<i32, Vec<Vec<u8>>>, Error>,
    ) -> bool {
        let t = dw13_extract(content, fmt_date_dmy(date), spec_dw13_adjust(dw_info));
        match r {
            Ok(m) => {
                &&& t is Some
                &&& m@.dom() == t.unwrap().dom()
                &&& forall|key: i32|
                    m@.dom().contains(key) ==> #[trigger] m@[key].deep_view() == t.unwrap()[key]
                &&& t.unwrap().dom() != Set::<i32>::empty()
            },
            Err(e) => {
                ||| {
                    &&& t is None
                    &&& e matches Error::DataNotFound { symbol, info }
                    &&& symbol@ == dw_info.symbol@
                    &&& info matches Some(s)
                    &&& s@ == "Failed to extract underlying-derivative price table"@
                }
                ||| {
                    &&& t is Some
                    &&& t.unwrap().dom() == Set::<i32>::empty()
                    &&& e matches Error::DataNotFound { symbol, info }
                    &&& symbol@ == dw_info.symbol@
                    &&& info matches Some(s)
                    &&& s@ == "Found empty underlying-derivative price map"@
                }
            },
        }
    }

    /// Reads the price table of the working date from the fetched page: the
    /// marked table is located, the date headers pick the column offset, and
    /// each later row maps its quantized first numeric cell (one tick lower
    /// for SET50 calls) to the row's warrant price texts.
    fn get_underlying_dw_price_table(dw_info: &DWInfo, content: &[u8], date: &WorkingDate) -> (r:
        Result<HashMap<i32, Vec<Vec<u8>>>, Error>) {
        let adjust = dw_info.side == DWSide::C && symbol_is_s50(dw_info.symbol.as_str());
        let date_bytes = format_date_dmy(date);
        match find_table_region(content) {
            None => {
                Err(
                    Error::DataNotFound {
                        symbol: dw_info.symbol.clone(),
                        info: Some("Failed to extract underlying-derivative price table".to_owned()),
                    },
                )
            },
            Some((a, b)) => {
                let region = copy_range(content, a, b);
                let cols = split_tr_exec(&region);
                let ghost colsd = cols.deep_view();
                let offset = column_offset_exec(&cols, date_bytes.as_slice());
                let mut table: HashMap<i32, Vec<Vec<u8>>> = HashMap::new();
                let mut k: usize = 3;
                proof {
                    assert(colsd.len() == cols@.len());
                    assert(table@.dom() =~= dw13_fold(
                        colsd,
                        offset as int,
                        adjust,
                        3,
                    ).dom());
                }
                while k < cols.len()
                    invariant
                        3 <= k,
                        k <= cols@.len() || k == 3,
                        colsd == cols.deep_view(),
                        colsd.len() == cols@.len(),
                        table@.dom() == dw13_fold(colsd, offset as int, adjust, k as int).dom(),
                        forall|key: i32|
                            table@.dom().contains(key) ==> #[trigger] table@[key].deep_view()
                                == dw13_fold(colsd, offset as int, adjust, k as int)[key],
                    decreases cols@.len() - k,
                {
                    proof {
                        assert(colsd[k as int] =~= cols@[k as int]@);
                    }
                    let ghost prev = dw13_fold(colsd, offset as int, adjust, k as int);
                    match row_entry(cols[k].as_slice(), offset, adjust) {
                        Some((key, dws)) => {
                            table.insert(key, dws);
                            proof {
                                assert(dw13_fold(colsd, offset as int, adjust, k + 1)
                                    == prev.insert(key, dws.deep_view()));
                                assert(table@.dom() =~= dw13_fold(
                                    colsd,
                                    offset as int,
                                    adjust,
                                    k + 1,
                                ).dom());
                            }
                        },
                        None => {
                            proof {
                                assert(dw13_fold(colsd, offset as int, adjust, k + 1) == prev);
                            }
                        },
                    }
                    k += 1;
                }
                proof {
                    if cols@.len() <= 3 {
                        assert(dw13_fold(colsd, offset as int, adjust, k as int) =~= dw13_fold(
                            colsd,
                            offset as int,
                            adjust,
                            colsd.len() as int,
                        ));
                    }
                }
                if table.len() > 0 {
                    proof {
                        assert(table@.dom().len() > 0);
                        assert(!(table@.dom() =~= Set::<i32>::empty()));
                    }
                    Ok(table)
                } else {
                    proof {
                        assert(table@.dom().len() == 0);
                        assert(table@.dom().finite());
                        assert(table@.dom() =~= Set::<i32>::empty());
                    }
                    Err(
                        Error::DataNotFound {
                            symbol: dw_info.symbol.clone(),
                            info: Some("Found empty underlying-derivative price map".to_owned()),
                        },
                    )
                }
            },
        }
    }
}

} // verus!
