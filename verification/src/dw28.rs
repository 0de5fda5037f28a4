//! Extractor for the live-matrix JSON source.
//!
//! The feed publishes the same logical table in two encodings.  The
//! compressed form lists, per date key, daily records of underlying bid and
//! warrant bid; per distinct warrant bid text the minimum underlying bid is
//! kept.  The non-compressed form lists one column per underlying price with
//! date-labelled warrant prices; the column whose label equals the working
//! date is read.  A preceding instrument-list lookup resolves the symbol to
//! its reference instrument code (ric), predicting the code from the symbol
//! fields when the list has no entry.

use vstd::prelude::*;
use std::collections::HashMap;
use crate::scan::{
    is_digit, is_digit_dot, matches_ci_at, find_ci_from, run_end_not, run_end_digit_dot,
    is_decimal_token, parse_price, lemma_find_ci_from_is_match, lemma_run_end_not_le,
    lemma_run_end_digit_dot_le, match_ci_at, find_sub_ci, not_byte_end, digit_dot_end,
    byte_is_digit, copy_range, parse_price_bytes, eq_bytes,
};
use crate::calendar::{WorkingDate, fmt_date_ymd, fmt_date_dmon, format_date_ymd, format_date_dmon,
    date_wf};
use crate::instrument::dw::{DWInfo, DWSide, DWPriceTable, Error};
use vstd::string::{StringSliceAdditionalSpecFns, StringExecFns, StrSliceExecFns};

verus! {

broadcast use vstd::std_specs::hash::group_hash_axioms;

// ---------------------------------------------------------------------------
// Fixed texts of the feed
// ---------------------------------------------------------------------------

/// The bytes of `"is_compressed":"true"`, the marker of the compressed form.
pub open spec fn n_compressed() -> Seq<u8> {
    seq![
        34u8, 105u8, 115u8, 95u8, 99u8, 111u8, 109u8, 112u8, 114u8, 101u8, 115u8, 115u8, 101u8,
        100u8, 34u8, 58u8, 34u8, 116u8, 114u8, 117u8, 101u8, 34u8,
    ]
}

/// The bytes of `"ric":"`.
pub open spec fn n_ric() -> Seq<u8> {
    seq![34u8, 114u8, 105u8, 99u8, 34u8, 58u8, 34u8]
}

/// The bytes of `"underlying_bid":`.
pub open spec fn n_ub() -> Seq<u8> {
    seq![
        34u8, 117u8, 110u8, 100u8, 101u8, 114u8, 108u8, 121u8, 105u8, 110u8, 103u8, 95u8, 98u8,
        105u8, 100u8, 34u8, 58u8,
    ]
}

/// The bytes of `"bid":`.
pub open spec fn n_bid() -> Seq<u8> {
    seq![34u8, 98u8, 105u8, 100u8, 34u8, 58u8]
}

/// The bytes of `"livematrix":[`.
pub open spec fn n_livematrix() -> Seq<u8> {
    seq![
        34u8, 108u8, 105u8, 118u8, 101u8, 109u8, 97u8, 116u8, 114u8, 105u8, 120u8, 34u8, 58u8,
        91u8,
    ]
}

/// The bytes of `"security_code":"<sym>"`.
pub open spec fn sec_needle(sym: Seq<u8>) -> Seq<u8> {
    seq![
        34u8, 115u8, 101u8, 99u8, 117u8, 114u8, 105u8, 116u8, 121u8, 95u8, 99u8, 111u8, 100u8,
        101u8, 34u8, 58u8, 34u8,
    ] + sym + seq![34u8]
}

// ---------------------------------------------------------------------------
// Instrument-list lookup
// ---------------------------------------------------------------------------

/// A brace-delimited list entry starting at `b` that names the symbol:
/// gives the entry's inner span.
pub open spec fn sec_attempt(h: Seq<u8>, b: int, needle: Seq<u8>) -> Option<(int, int)> {
    if 0 <= b && b < h.len() && h[b] == 123 {
        let c = run_end_not(h, b + 1, 125);
        if c < h.len() {
            match find_ci_from(h, needle, b + 1) {
                Some(p) => if p + needle.len() <= c {
                    Some((b + 1, c))
                } else {
                    None
                },
                None => None,
            }
        } else {
            None
        }
    } else {
        None
    }
}

/// The first such entry at or after `i`.
pub open spec fn first_sec_from(h: Seq<u8>, i: int, needle: Seq<u8>) -> Option<(int, int)>
    decreases h.len() - i + 1,
{
    if i >= h.len() {
        None
    } else if sec_attempt(h, i, needle) is Some {
        sec_attempt(h, i, needle)
    } else {
        first_sec_from(h, i + 1, needle)
    }
}

/// A `"ric":"` field at `q` within the window ending at `hi`, with a
/// non-empty value: gives the value's span.
pub open spec fn ric_attempt(h: Seq<u8>, q: int, hi: int) -> Option<(int, int)> {
    if matches_ci_at(h, n_ric(), q) && q + 7 < hi && hi <= h.len() && h[q + 7] != 34 {
        let e = run_end_not(h, q + 7, 34);
        Some((q + 7, if e > hi {
            hi
        } else {
            e
        }))
    } else {
        None
    }
}

/// The first such field at or after `q` within the window.
pub open spec fn first_ric_from(h: Seq<u8>, q: int, hi: int) -> Option<(int, int)>
    decreases hi - q + 1,
{
    if q >= hi {
        None
    } else if ric_attempt(h, q, hi) is Some {
        ric_attempt(h, q, hi)
    } else {
        first_ric_from(h, q + 1, hi)
    }
}

/// The ric that the instrument list names for the symbol, if any: the first
/// list entry holding `"security_code":"<sym>"` is searched for its first
/// non-empty `"ric"` field.
pub open spec fn spec_find_ric(content: Seq<u8>, sym: Seq<u8>) -> Option<Seq<u8>> {
    match first_sec_from(content, 0, sec_needle(sym)) {
        Some((lo, hi)) => match first_ric_from(content, lo, hi) {
            Some((s, e)) => Some(content.subrange(s, e)),
            None => None,
        },
        None => None,
    }
}

// ---------------------------------------------------------------------------
// Predicted ric
// ---------------------------------------------------------------------------

/// The ASCII digit character of `d`.
pub open spec fn digit_char(d: u8) -> char {
    ((48 + d) as u8) as char
}

/// The decimal digits of a byte-sized number, without leading zeroes.
pub open spec fn u8_dec_chars(b: u8) -> Seq<char> {
    if b < 10 {
        seq![digit_char(b)]
    } else if b < 100 {
        seq![digit_char((b / 10) as u8), digit_char((b % 10) as u8)]
    } else {
        seq![
            digit_char((b / 100) as u8),
            digit_char(((b / 10) % 10) as u8),
            digit_char((b % 10) as u8),
        ]
    }
}

/// The letter that stands for the side in a ric; a placeholder dot for an
/// unknown side.
pub open spec fn side_letter(s: DWSide) -> char {
    match s {
        DWSide::C => 'C',
        DWSide::P => 'P',
        DWSide::Unknown => '.',
    }
}

/// The ric predicted from the symbol fields alone: underlying, broker id,
/// side letter, the three expiry digits after the tens digit of the year,
/// and the `.BK` suffix.
pub open spec fn spec_predicted_ric(info: DWInfo) -> Seq<char> {
    info.underlying_symbol@ + u8_dec_chars(info.broker_id) + seq![side_letter(info.side)] + seq![
        info.expire_yymm@[1] as char,
        info.expire_yymm@[2] as char,
        info.expire_yymm@[3] as char,
    ] + seq!['.', 'B', 'K']
}

// ---------------------------------------------------------------------------
// Compressed form
// ---------------------------------------------------------------------------

/// A daily block `"<yyyy-mm-dd>":[...]` whose quote stands exactly at `j`:
/// gives (date start, records start, records end, resume position).
pub open spec fn daily_attempt(h: Seq<u8>, j: int) -> Option<(int, int, int, int)> {
    if 0 <= j && j + 15 <= h.len() && h[j] == 34 && is_digit(h[j + 1]) && is_digit(h[j + 2])
        && is_digit(h[j + 3]) && is_digit(h[j + 4]) && h[j + 5] == 45 && is_digit(h[j + 6])
        && is_digit(h[j + 7]) && h[j + 8] == 45 && is_digit(h[j + 9]) && is_digit(h[j + 10]) && h[j
        + 11] == 34 && h[j + 12] == 58 && h[j + 13] == 91 && h[j + 14] != 93 {
        let e = run_end_not(h, j + 14, 93);
        Some((j + 1, j + 14, e, e))
    } else {
        None
    }
}

/// The first daily block at or after `i`.
pub open spec fn next_daily(h: Seq<u8>, i: int) -> Option<(int, int, int, int)>
    decreases h.len() - i + 1,
{
    if i >= h.len() {
        None
    } else if daily_attempt(h, i) is Some {
        daily_attempt(h, i)
    } else {
        next_daily(h, i + 1)
    }
}

proof fn lemma_next_daily_bounds(h: Seq<u8>, i: int)
    requires
        0 <= i,
        next_daily(h, i) is Some,
    ensures
        ({
            let (ds, bs, be, res) = next_daily(h, i).unwrap();
            &&& 0 <= ds
            &&& ds + 10 <= h.len()
            &&& 0 <= bs <= be <= h.len()
            &&& i < res <= h.len()
        }),
    decreases h.len() - i + 1,
{
    if i >= h.len() {
    } else if daily_attempt(h, i) is Some {
        lemma_run_end_not_le(h, i + 14, 93);
    } else {
        lemma_next_daily_bounds(h, i + 1);
    }
}

/// A record fragment `{...}` of a block, whose brace stands exactly at `j`:
/// gives (inner start, inner end, resume position).
pub open spec fn rec_attempt(blk: Seq<u8>, j: int) -> Option<(int, int, int)> {
    if 0 <= j && j + 1 < blk.len() && blk[j] == 123 && blk[j + 1] != 125 {
        let e = run_end_not(blk, j + 1, 125);
        Some((j + 1, e, e))
    } else {
        None
    }
}

/// The first record fragment at or after `i`.
pub open spec fn next_rec(blk: Seq<u8>, i: int) -> Option<(int, int, int)>
    decreases blk.len() - i + 1,
{
    if i >= blk.len() {
        None
    } else if rec_attempt(blk, i) is Some {
        rec_attempt(blk, i)
    } else {
        next_rec(blk, i + 1)
    }
}

proof fn lemma_next_rec_bounds(blk: Seq<u8>, i: int)
    requires
        0 <= i,
        next_rec(blk, i) is Some,
    ensures
        ({
            let (s, e, res) = next_rec(blk, i).unwrap();
            &&& 0 <= s <= e <= blk.len()
            &&& i < res <= blk.len()
        }),
    decreases blk.len() - i + 1,
{
    if i >= blk.len() {
    } else if rec_attempt(blk, i) is Some {
        lemma_run_end_not_le(blk, i + 1, 125);
    } else {
        lemma_next_rec_bounds(blk, i + 1);
    }
}

/// A bid-like field at `q`: the given field needle, an optional quote, and
/// a non-empty numeric text.  Gives the value's span.
pub open spec fn field_attempt(rec: Seq<u8>, q: int, needle: Seq<u8>) -> Option<(int, int)> {
    if matches_ci_at(rec, needle, q) {
        let t = q + needle.len();
        let s = if t < rec.len() && rec[t] == 34 {
            t + 1
        } else {
            t
        };
        let e = run_end_digit_dot(rec, s);
        if e > s {
            Some((s, e))
        } else {
            None
        }
    } else {
        None
    }
}

/// The first such field at or after `q`.
pub open spec fn first_field_from(rec: Seq<u8>, q: int, needle: Seq<u8>) -> Option<(int, int)>
    decreases rec.len() - q + 1,
{
    if q >= rec.len() {
        None
    } else if field_attempt(rec, q, needle) is Some {
        field_attempt(rec, q, needle)
    } else {
        first_field_from(rec, q + 1, needle)
    }
}

/// Index of the warrant-bid text in the accumulator, if present.
pub open spec fn assoc_find(m: Seq<(Seq<u8>, int)>, dw: Seq<u8>, i: int) -> Option<int>
    decreases m.len() - i + 1,
{
    if i < 0 || i >= m.len() {
        None
    } else if m[i].0 == dw {
        Some(i)
    } else {
        assoc_find(m, dw, i + 1)
    }
}

/// Keeps, per warrant-bid text, the minimum underlying bid seen.
pub open spec fn upd_min(m: Seq<(Seq<u8>, int)>, dw: Seq<u8>, u: int) -> Seq<(Seq<u8>, int)> {
    match assoc_find(m, dw, 0) {
        Some(i) => if m[i].1 > u {
            m.update(i, (dw, u))
        } else {
            m
        },
        None => m.push((dw, u)),
    }
}

proof fn lemma_assoc_find_absent_push(m: Seq<(Seq<u8>, int)>, dw: Seq<u8>, u: int, i: int)
    requires
        0 <= i <= m.len(),
        assoc_find(m, dw, i) is None,
    ensures
        assoc_find(m.push((dw, u)), dw, i) == Some(m.len() as int),
    decreases m.len() - i,
{
    let m2 = m.push((dw, u));
    if i < m.len() {
        assert(m2[i] == m[i]);
        lemma_assoc_find_absent_push(m, dw, u, i + 1);
    } else {
        assert(m2[i] == (dw, u));
    }
}

/// Law: two daily records sharing one warrant bid text collapse to a
/// single accumulator entry, keyed by the smaller of their underlying
/// bids, whichever order they arrive in.
pub proof fn lemma_repeated_bid_keeps_the_minimum(
    m: Seq<(Seq<u8>, int)>,
    dw: Seq<u8>,
    u1: int,
    u2: int,
)
    requires
        assoc_find(m, dw, 0) is None,
    ensures
        upd_min(upd_min(m, dw, u1), dw, u2) == m.push(
            (
                dw,
                if u2 < u1 {
                    u2
                } else {
                    u1
                },
            ),
        ),
{
    let m1 = upd_min(m, dw, u1);
    assert(m1 == m.push((dw, u1)));
    lemma_assoc_find_absent_push(m, dw, u1, 0);
    if u1 > u2 {
        assert(upd_min(m1, dw, u2) == m1.update(m.len() as int, (dw, u2)));
        assert(m1.update(m.len() as int, (dw, u2)) =~= m.push((dw, u2)));
    } else {
        assert(upd_min(m1, dw, u2) == m1);
    }
}

/// Folds one daily record into the accumulator: the record contributes when
/// its underlying bid is a numeric text on the integer grid and it has a
/// warrant bid text.
pub open spec fn rec_step(m: Seq<(Seq<u8>, int)>, rec: Seq<u8>) -> Seq<(Seq<u8>, int)> {
    match first_field_from(rec, 0, n_ub()) {
        Some((us, ue)) => match parse_price(rec.subrange(us, ue), 2) {
            Some(u) => match first_field_from(rec, 0, n_bid()) {
                Some((bs, be)) => upd_min(m, rec.subrange(bs, be), u),
                None => m,
            },
            None => m,
        },
        None => m,
    }
}

/// Folds the records of one block, in order.
pub open spec fn recs_fold(m: Seq<(Seq<u8>, int)>, blk: Seq<u8>, i: int) -> Seq<(Seq<u8>, int)>
    decreases blk.len() - i + 1,
    via recs_fold_dec
{
    if i < 0 {
        m
    } else {
        match next_rec(blk, i) {
            Some((s, e, res)) => recs_fold(rec_step(m, blk.subrange(s, e)), blk, res),
            None => m,
        }
    }
}

#[via_fn]
proof fn recs_fold_dec(m: Seq<(Seq<u8>, int)>, blk: Seq<u8>, i: int) {
    if i >= 0 && next_rec(blk, i) is Some {
        lemma_next_rec_bounds(blk, i);
    }
}

/// Folds the records of every daily block labelled with the working date,
/// blocks in page order.
pub open spec fn blocks_fold(m: Seq<(Seq<u8>, int)>, h: Seq<u8>, i: int, ymd: Seq<u8>) -> Seq<
    (Seq<u8>, int),
>
    decreases h.len() - i + 1,
    via blocks_fold_dec
{
    if i < 0 {
        m
    } else {
        match next_daily(h, i) {
            Some((ds, bs, be, res)) => {
                let m2 = if h.subrange(ds, ds + 10) == ymd {
                    recs_fold(m, h.subrange(bs, be), 0)
                } else {
                    m
                };
                blocks_fold(m2, h, res, ymd)
            },
            None => m,
        }
    }
}

#[via_fn]
proof fn blocks_fold_dec(m: Seq<(Seq<u8>, int)>, h: Seq<u8>, i: int, ymd: Seq<u8>) {
    if i >= 0 && next_daily(h, i) is Some {
        lemma_next_daily_bounds(h, i);
    }
}

/// The accumulator emptied into the table, in accumulation order: one entry
/// per warrant bid, keyed by its minimum underlying bid.
pub open spec fn assoc_to_table(m: Seq<(Seq<u8>, int)>, k: int) -> Map<i32, Seq<Seq<u8>>>
    decreases k,
{
    if k <= 0 {
        Map::empty()
    } else {
        assoc_to_table(m, k - 1).insert(m[k - 1].1 as i32, seq![m[k - 1].0])
    }
}

/// The table of the compressed form for the working date.
pub open spec fn dw28_compressed(content: Seq<u8>, ymd: Seq<u8>) -> Map<i32, Seq<Seq<u8>>> {
    let m = blocks_fold(Seq::empty(), content, 0, ymd);
    assoc_to_table(m, m.len() as int)
}

// ---------------------------------------------------------------------------
// Non-compressed form
// ---------------------------------------------------------------------------

/// The span of the live-matrix array content, when the page has one: the
/// first `"livematrix":[` occurrence decides; `None` when it is present but
/// its array content is empty or missing.
pub open spec fn livematrix_group(h: Seq<u8>) -> Option<(int, int)> {
    match find_ci_from(h, n_livematrix(), 0) {
        Some(p) => {
            let s = p + 14;
            if s < h.len() && h[s] != 93 {
                Some((s, run_end_not(h, s, 93)))
            } else {
                None
            }
        },
        None => None,
    }
}

/// A price column `{"<underlying>":{...}` whose brace stands exactly at
/// `j`: gives (underlying start/end, column start/end, resume position).
pub open spec fn pc_attempt(blk: Seq<u8>, j: int) -> Option<(int, int, int, int, int)> {
    if 0 <= j && j + 2 < blk.len() && blk[j] == 123 && blk[j + 1] == 34 {
        let ue = run_end_digit_dot(blk, j + 2);
        if ue > j + 2 && ue + 3 < blk.len() && blk[ue] == 34 && blk[ue + 1] == 58 && blk[ue + 2]
            == 123 && blk[ue + 3] != 125 {
            let ce = run_end_not(blk, ue + 3, 125);
            Some((j + 2, ue, ue + 3, ce, ce))
        } else {
            None
        }
    } else {
        None
    }
}

/// The first price column at or after `i`.
pub open spec fn next_pc(blk: Seq<u8>, i: int) -> Option<(int, int, int, int, int)>
    decreases blk.len() - i + 1,
{
    if i >= blk.len() {
        None
    } else if pc_attempt(blk, i) is Some {
        pc_attempt(blk, i)
    } else {
        next_pc(blk, i + 1)
    }
}

proof fn lemma_next_pc_bounds(blk: Seq<u8>, i: int)
    requires
        0 <= i,
        next_pc(blk, i) is Some,
    ensures
        ({
            let (us, ue, cs, ce, res) = next_pc(blk, i).unwrap();
            &&& 0 <= us <= ue <= blk.len()
            &&& 0 <= cs <= ce <= blk.len()
            &&& i < res <= blk.len()
        }),
    decreases blk.len() - i + 1,
{
    if i >= blk.len() {
    } else if pc_attempt(blk, i) is Some {
        lemma_run_end_digit_dot_le(blk, i + 2);
        let ue = run_end_digit_dot(blk, i + 2);
        if ue > i + 2 && ue + 3 < blk.len() && blk[ue] == 34 && blk[ue + 1] == 58 && blk[ue + 2]
            == 123 && blk[ue + 3] != 125 {
            lemma_run_end_not_le(blk, ue + 3, 125);
        }
    } else {
        lemma_next_pc_bounds(blk, i + 1);
    }
}

/// A date-labelled price `"<label>":"<price>"` whose quote stands exactly
/// at `j`: gives (label start/end, price start/end, resume position).
pub open spec fn dp_attempt(col: Seq<u8>, j: int) -> Option<(int, int, int, int, int)> {
    if 0 <= j && j + 1 < col.len() && col[j] == 34 && col[j + 1] != 34 {
        let le = run_end_not(col, j + 1, 34);
        if le + 3 < col.len() && col[le + 1] == 58 && col[le + 2] == 34 && col[le + 3] != 34 {
            let pe = run_end_not(col, le + 3, 34);
            Some((j + 1, le, le + 3, pe, pe))
        } else {
            None
        }
    } else {
        None
    }
}

/// The first date-labelled price at or after `i`.
pub open spec fn next_dp(col: Seq<u8>, i: int) -> Option<(int, int, int, int, int)>
    decreases col.len() - i + 1,
{
    if i >= col.len() {
        None
    } else if dp_attempt(col, i) is Some {
        dp_attempt(col, i)
    } else {
        next_dp(col, i + 1)
    }
}

proof fn lemma_next_dp_bounds(col: Seq<u8>, i: int)
    requires
        0 <= i,
        next_dp(col, i) is Some,
    ensures
        ({
            let (ls, le, ps, pe, res) = next_dp(col, i).unwrap();
            &&& 0 <= ls <= le <= col.len()
            &&& 0 <= ps <= pe <= col.len()
            &&& i < res <= col.len()
        }),
    decreases col.len() - i + 1,
{
    if i >= col.len() {
    } else if dp_attempt(col, i) is Some {
        lemma_run_end_not_le(col, i + 1, 34);
        let le = run_end_not(col, i + 1, 34);
        if le + 3 < col.len() && col[le + 1] == 58 && col[le + 2] == 34 && col[le + 3] != 34 {
            lemma_run_end_not_le(col, le + 3, 34);
        }
    } else {
        lemma_next_dp_bounds(col, i + 1);
    }
}

/// Folds one column's date-labelled prices: every price labelled with the
/// working date is written under the column's underlying key.
pub open spec fn col_fold(
    m: Map<i32, Seq<Seq<u8>>>,
    col: Seq<u8>,
    i: int,
    dmon: Seq<u8>,
    ukey: i32,
) -> Map<i32, Seq<Seq<u8>>>
    decreases col.len() - i + 1,
    via col_fold_dec
{
    if i < 0 {
        m
    } else {
        match next_dp(col, i) {
            Some((ls, le, ps, pe, res)) => {
                let m2 = if col.subrange(ls, le) == dmon {
                    m.insert(ukey, seq![col.subrange(ps, pe)])
                } else {
                    m
                };
                col_fold(m2, col, res, dmon, ukey)
            },
            None => m,
        }
    }
}

#[via_fn]
proof fn col_fold_dec(m: Map<i32, Seq<Seq<u8>>>, col: Seq<u8>, i: int, dmon: Seq<u8>, ukey: i32) {
    if i >= 0 && next_dp(col, i) is Some {
        lemma_next_dp_bounds(col, i);
    }
}

/// Folds the live-matrix columns: a column contributes when its underlying
/// text is numeric and fits the integer grid.
pub open spec fn nc_fold(m: Map<i32, Seq<Seq<u8>>>, blk: Seq<u8>, i: int, dmon: Seq<u8>) -> Map<
    i32,
    Seq<Seq<u8>>,
>
    decreases blk.len() - i + 1,
    via nc_fold_dec
{
    if i < 0 {
        m
    } else {
        match next_pc(blk, i) {
            Some((us, ue, cs, ce, res)) => {
                let m2 = match parse_price(blk.subrange(us, ue), 2) {
                    Some(u) => col_fold(m, blk.subrange(cs, ce), 0, dmon, u as i32),
                    None => m,
                };
                nc_fold(m2, blk, res, dmon)
            },
            None => m,
        }
    }
}

#[via_fn]
proof fn nc_fold_dec(m: Map<i32, Seq<Seq<u8>>>, blk: Seq<u8>, i: int, dmon: Seq<u8>) {
    if i >= 0 && next_pc(blk, i) is Some {
        lemma_next_pc_bounds(blk, i);
    }
}

/// The non-compressed extraction: an absent live-matrix section gives an
/// empty table; one that is present but empty cannot be read (`None`); else
/// the columns are folded for the working date.
pub open spec fn dw28_noncompressed(content: Seq<u8>, dmon: Seq<u8>) -> Option<
    Map<i32, Seq<Seq<u8>>>,
> {
    match find_ci_from(content, n_livematrix(), 0) {
        Some(p) => match livematrix_group(content) {
            Some((s, e)) => Some(nc_fold(Map::empty(), content.subrange(s, e), 0, dmon)),
            None => None,
        },
        None => Some(Map::empty()),
    }
}

/// The whole extraction: the compressed reading when the page carries the
/// compressed marker, else the non-compressed reading.
pub open spec fn dw28_result(content: Seq<u8>, ymd: Seq<u8>, dmon: Seq<u8>) -> Option<
    Map<i32, Seq<Seq<u8>>>,
> {
    if find_ci_from(content, n_compressed(), 0) is Some {
        Some(dw28_compressed(content, ymd))
    } else {
        dw28_noncompressed(content, dmon)
    }
}

// ---------------------------------------------------------------------------
// Ric resolution
// ---------------------------------------------------------------------------

fn digit_str(d: u8) -> (r: &'static str)
    requires
        d < 10,
    ensures
        r@ == seq![digit_char(d)],
{
    let s: &'static str = if d == 0 {
        "0"
    } else if d == 1 {
        "1"
    } else if d == 2 {
        "2"
    } else if d == 3 {
        "3"
    } else if d == 4 {
        "4"
    } else if d == 5 {
        "5"
    } else if d == 6 {
        "6"
    } else if d == 7 {
        "7"
    } else if d == 8 {
        "8"
    } else {
        "9"
    };
    proof {
        reveal_strlit("0");
        reveal_strlit("1");
        reveal_strlit("2");
        reveal_strlit("3");
        reveal_strlit("4");
        reveal_strlit("5");
        reveal_strlit("6");
        reveal_strlit("7");
        reveal_strlit("8");
        reveal_strlit("9");
        assert(s@ =~= seq![digit_char(d)]);
    }
    s
}

/// Extractor for the live-matrix JSON source.
pub struct DW28;

impl DW28 {
    /// Predicts the ric from the symbol fields alone: underlying, broker
    /// id, side letter (a dot for an unknown side), the three expiry digits
    /// after the tens digit of the year, and the `.BK` suffix.
    pub fn get_predicted_dw_ric(dw_info: &DWInfo) -> (r: String)
        requires
            is_digit(dw_info.expire_yymm@[1]),
            is_digit(dw_info.expire_yymm@[2]),
            is_digit(dw_info.expire_yymm@[3]),
        ensures
            r@ == spec_predicted_ric(*dw_info),
    {
        let mut r = dw_info.underlying_symbol.clone();
        let b = dw_info.broker_id;
        if b >= 100 {
            r.append(digit_str(b / 100));
            r.append(digit_str((b / 10) % 10));
            r.append(digit_str(b % 10));
        } else if b >= 10 {
            r.append(digit_str(b / 10));
            r.append(digit_str(b % 10));
        } else {
            r.append(digit_str(b));
        }
        match dw_info.side {
            DWSide::C => r.append("C"),
            DWSide::P => r.append("P"),
            DWSide::Unknown => r.append("."),
        }
        r.append(digit_str(dw_info.expire_yymm[1] - 48));
        r.append(digit_str(dw_info.expire_yymm[2] - 48));
        r.append(digit_str(dw_info.expire_yymm[3] - 48));
        r.append(".BK");
        proof {
            reveal_strlit("C");
            reveal_strlit("P");
            reveal_strlit(".");
            reveal_strlit(".BK");
            assert(r@ =~= spec_predicted_ric(*dw_info));
        }
        r
    }
}

fn ric_needle() -> (r: Vec<u8>)
    ensures
        r@ == n_ric(),
{
    let v: Vec<u8> = vec![34u8, 114u8, 105u8, 99u8, 34u8, 58u8, 34u8];
    proof {
        assert(v@ =~= n_ric());
    }
    v
}

fn sec_needle_exec(sym: &[u8]) -> (r: Vec<u8>)
    ensures
        r@ == sec_needle(sym@),
{
    let mut v: Vec<u8> = vec![
        34u8, 115u8, 101u8, 99u8, 117u8, 114u8, 105u8, 116u8, 121u8, 95u8, 99u8, 111u8, 100u8,
        101u8, 34u8, 58u8, 34u8,
    ];
    v.extend_from_slice(sym);
    v.push(34);
    proof {
        assert(v@ =~= sec_needle(sym@));
    }
    v
}

fn sec_attempt_exec(h: &[u8], b: usize, needle: &[u8]) -> (r: Option<(usize, usize)>)
    requires
        b < h@.len(),
    ensures
        match r {
            Some(t) => sec_attempt(h@, b as int, needle@) == Some((t.0 as int, t.1 as int)) && t.0
                <= t.1 < h@.len(),
            None => sec_attempt(h@, b as int, needle@) is None,
        },
{
    if h[b] != 123 {
        return None;
    }
    let c = not_byte_end(h, b + 1, 125);
    if c >= h.len() {
        return None;
    }
    match find_sub_ci(h, needle, b + 1) {
        Some(p) => if needle.len() <= c && p <= c - needle.len() {
            Some((b + 1, c))
        } else {
            None
        },
        None => None,
    }
}

fn ric_attempt_exec(h: &[u8], q: usize, hi: usize, ricn: &[u8]) -> (r: Option<(usize, usize)>)
    requires
        q < hi <= h@.len(),
        ricn@ == n_ric(),
    ensures
        match r {
            Some(t) => ric_attempt(h@, q as int, hi as int) == Some((t.0 as int, t.1 as int))
                && t.0 <= t.1 <= hi,
            None => ric_attempt(h@, q as int, hi as int) is None,
        },
{
    if !match_ci_at(h, ricn, q) {
        return None;
    }
    if hi - q <= 7 {
        return None;
    }
    if h[q + 7] == 34 {
        return None;
    }
    let e = not_byte_end(h, q + 7, 34);
    Some((q + 7, if e > hi {
        hi
    } else {
        e
    }))
}

impl DW28 {
    /// Looks the symbol up in the fetched instrument list and returns the
    /// ric named there, when the list has a non-empty one.
    pub fn find_dw_ric(list_content: &[u8], dw_symbol: &str) -> (r: Option<Vec<u8>>)
        ensures
            match r {
                Some(ric) => spec_find_ric(list_content@, dw_symbol.spec_bytes()) == Some(ric@),
                None => spec_find_ric(list_content@, dw_symbol.spec_bytes()) is None,
            },
    {
        let sym = dw_symbol.as_bytes();
        let needle = sec_needle_exec(sym);
        let ricn = ric_needle();
        let ghost nd = sec_needle(dw_symbol.spec_bytes());
        let mut b: usize = 0;
        loop
            invariant
                nd == sec_needle(dw_symbol.spec_bytes()),
                needle@ == nd,
                ricn@ == n_ric(),
                b <= list_content@.len(),
                first_sec_from(list_content@, 0, nd) == first_sec_from(list_content@, b as int, nd),
            decreases list_content@.len() - b + 1,
        {
            if b >= list_content.len() {
                return None;
            }
            match sec_attempt_exec(list_content, b, needle.as_slice()) {
                Some((lo, hi)) => {
                    assert(first_sec_from(list_content@, b as int, nd) == Some(
                        (lo as int, hi as int),
                    ));
                    let mut q: usize = lo;
                    loop
                        invariant
                            nd == sec_needle(dw_symbol.spec_bytes()),
                            first_sec_from(list_content@, 0, nd) == Some((lo as int, hi as int)),
                            ricn@ == n_ric(),
                            lo <= q <= hi,
                            hi <= list_content@.len(),
                            first_ric_from(list_content@, lo as int, hi as int) == first_ric_from(
                                list_content@,
                                q as int,
                                hi as int,
                            ),
                        decreases hi - q + 1,
                    {
                        if q >= hi {
                            return None;
                        }
                        match ric_attempt_exec(list_content, q, hi, ricn.as_slice()) {
                            Some((s, e)) => {
                                return Some(copy_range(list_content, s, e));
                            },
                            None => {
                                q += 1;
                            },
                        }
                    }
                },
                None => {
                    b += 1;
                },
            }
        }
    }

    /// The ric to fetch the table under: the instrument list's entry when
    /// one is named, else the ric predicted from the symbol fields.
    pub fn resolve_dw_ric(list_content: &[u8], dw_info: &DWInfo) -> (r: Vec<u8>)
        requires
            is_digit(dw_info.expire_yymm@[1]),
            is_digit(dw_info.expire_yymm@[2]),
            is_digit(dw_info.expire_yymm@[3]),
        ensures
            ({
                let found = spec_find_ric(
                    list_content@,
                    vstd::utf8::encode_utf8(dw_info.symbol@),
                );
                match found {
                    Some(ric) => r@ == ric,
                    None => r@ == vstd::utf8::encode_utf8(spec_predicted_ric(*dw_info)),
                }
            }),
    {
        match Self::find_dw_ric(list_content, dw_info.symbol.as_str()) {
            Some(ric) => ric,
            None => Self::get_predicted_dw_ric(dw_info).as_str().as_bytes_vec(),
        }
    }
}

// ---------------------------------------------------------------------------
// Compressed-form extraction
// ---------------------------------------------------------------------------

fn compressed_needle() -> (r: Vec<u8>)
    ensures
        r@ == n_compressed(),
{
    let v: Vec<u8> = vec![
        34u8, 105u8, 115u8, 95u8, 99u8, 111u8, 109u8, 112u8, 114u8, 101u8, 115u8, 115u8, 101u8,
        100u8, 34u8, 58u8, 34u8, 116u8, 114u8, 117u8, 101u8, 34u8,
    ];
    proof {
        assert(v@ =~= n_compressed());
    }
    v
}

fn ub_needle() -> (r: Vec<u8>)
    ensures
        r@ == n_ub(),
{
    let v: Vec<u8> = vec![
        34u8, 117u8, 110u8, 100u8, 101u8, 114u8, 108u8, 121u8, 105u8, 110u8, 103u8, 95u8, 98u8,
        105u8, 100u8, 34u8, 58u8,
    ];
    proof {
        assert(v@ =~= n_ub());
    }
    v
}

fn bid_needle() -> (r: Vec<u8>)
    ensures
        r@ == n_bid(),
{
    let v: Vec<u8> = vec![34u8, 98u8, 105u8, 100u8, 34u8, 58u8];
    proof {
        assert(v@ =~= n_bid());
    }
    v
}

fn livematrix_needle() -> (r: Vec<u8>)
    ensures
        r@ == n_livematrix(),
{
    let v: Vec<u8> = vec![
        34u8, 108u8, 105u8, 118u8, 101u8, 109u8, 97u8, 116u8, 114u8, 105u8, 120u8, 34u8, 58u8,
        91u8,
    ];
    proof {
        assert(v@ =~= n_livematrix());
    }
    v
}

fn daily_attempt_exec(h: &[u8], j: usize) -> (r: Option<(usize, usize, usize, usize)>)
    requires
        j < h@.len(),
    ensures
        match r {
            Some(t) => daily_attempt(h@, j as int) == Some(
                (t.0 as int, t.1 as int, t.2 as int, t.3 as int),
            ) && t.0 + 10 <= h@.len() && t.1 <= t.2 <= h@.len() && j < t.3 <= h@.len(),
            None => daily_attempt(h@, j as int) is None,
        },
{
    if h.len() - j < 15 {
        return None;
    }
    if h[j] != 34 || !byte_is_digit(h[j + 1]) || !byte_is_digit(h[j + 2]) || !byte_is_digit(
        h[j + 3],
    ) || !byte_is_digit(h[j + 4]) || h[j + 5] != 45 || !byte_is_digit(h[j + 6]) || !byte_is_digit(
        h[j + 7],
    ) || h[j + 8] != 45 || !byte_is_digit(h[j + 9]) || !byte_is_digit(h[j + 10]) || h[j + 11] != 34
        || h[j + 12] != 58 || h[j + 13] != 91 || h[j + 14] == 93 {
        return None;
    }
    let e = not_byte_end(h, j + 14, 93);
    Some((j + 1, j + 14, e, e))
}

fn rec_attempt_exec(blk: &[u8], j: usize) -> (r: Option<(usize, usize, usize)>)
    requires
        j < blk@.len(),
    ensures
        match r {
            Some(t) => rec_attempt(blk@, j as int) == Some((t.0 as int, t.1 as int, t.2 as int))
                && t.0 <= t.1 <= blk@.len() && j < t.2 <= blk@.len(),
            None => rec_attempt(blk@, j as int) is None,
        },
{
    if blk.len() - j < 2 {
        return None;
    }
    if blk[j] != 123 || blk[j + 1] == 125 {
        return None;
    }
    let e = not_byte_end(blk, j + 1, 125);
    Some((j + 1, e, e))
}

fn field_attempt_exec(rec: &[u8], q: usize, needle: &[u8]) -> (r: Option<(usize, usize)>)
    requires
        q < rec@.len(),
    ensures
        match r {
            Some(t) => field_attempt(rec@, q as int, needle@) == Some((t.0 as int, t.1 as int))
                && t.0 <= t.1 <= rec@.len(),
            None => field_attempt(rec@, q as int, needle@) is None,
        },
{
    let rl = rec.len();
    if !match_ci_at(rec, needle, q) {
        return None;
    }
    assert(q + needle@.len() <= rl);
    let t = q + needle.len();
    let s = if t < rec.len() && rec[t] == 34 {
        t + 1
    } else {
        t
    };
    let e = digit_dot_end(rec, s);
    if e > s {
        Some((s, e))
    } else {
        None
    }
}

fn first_field_exec(rec: &[u8], needle: &[u8]) -> (r: Option<(usize, usize)>)
    ensures
        match r {
            Some(t) => first_field_from(rec@, 0, needle@) == Some((t.0 as int, t.1 as int)) && t.0
                <= t.1 <= rec@.len(),
            None => first_field_from(rec@, 0, needle@) is None,
        },
{
    let mut q: usize = 0;
    loop
        invariant
            q <= rec@.len(),
            first_field_from(rec@, 0, needle@) == first_field_from(rec@, q as int, needle@),
        decreases rec@.len() - q + 1,
    {
        if q >= rec.len() {
            return None;
        }
        match field_attempt_exec(rec, q, needle) {
            Some(t) => {
                return Some(t);
            },
            None => {
                q += 1;
            },
        }
    }
}

/// The spec value of an accumulator entry list.
pub open spec fn assoc_view(a: Seq<(Vec<u8>, i32)>) -> Seq<(Seq<u8>, int)> {
    Seq::new(a.len(), |i: int| (a[i].0@, a[i].1 as int))
}

fn assoc_upd_min(assoc: &mut Vec<(Vec<u8>, i32)>, dw: Vec<u8>, u: i32)
    ensures
        assoc_view(final(assoc)@) == upd_min(assoc_view(old(assoc)@), dw@, u as int),
{
    let ghost m0 = assoc_view(assoc@);
    let mut idx: usize = 0;
    loop
        invariant
            assoc@ == old(assoc)@,
            m0 == assoc_view(old(assoc)@),
            idx <= assoc@.len(),
            m0.len() == assoc@.len(),
            assoc_find(m0, dw@, 0) == assoc_find(m0, dw@, idx as int),
        decreases assoc@.len() - idx,
    {
        if idx >= assoc.len() {
            assoc.push((dw, u));
            proof {
                assert(assoc_view(assoc@) =~= m0.push((dw@, u as int)));
            }
            return;
        }
        proof {
            assert(m0[idx as int] == (assoc@[idx as int].0@, assoc@[idx as int].1 as int));
        }
        let hit = {
            let entry = &assoc[idx];
            eq_bytes(entry.0.as_slice(), dw.as_slice())
        };
        if hit {
            proof {
                assert(assoc_find(m0, dw@, idx as int) == Some(idx as int));
            }
            let cur = {
                let entry = &assoc[idx];
                entry.1
            };
            if cur > u {
                assoc[idx] = (dw, u);
                proof {
                    assert(assoc_view(assoc@) =~= m0.update(idx as int, (dw@, u as int)));
                }
            }
            return;
        }
        proof {
            assert(assoc_find(m0, dw@, idx as int) == assoc_find(m0, dw@, idx + 1));
        }
        idx += 1;
    }
}

fn process_record(assoc: &mut Vec<(Vec<u8>, i32)>, rec: &[u8], ubn: &[u8], bidn: &[u8])
    requires
        ubn@ == n_ub(),
        bidn@ == n_bid(),
    ensures
        assoc_view(final(assoc)@) == rec_step(assoc_view(old(assoc)@), rec@),
{
    match first_field_exec(rec, ubn) {
        None => {},
        Some((us, ue)) => {
            let tok = copy_range(rec, us, ue);
            match parse_price_bytes(tok.as_slice(), 2) {
                None => {},
                Some(u) => {
                    match first_field_exec(rec, bidn) {
                        None => {},
                        Some((bs, be)) => {
                            let dw = copy_range(rec, bs, be);
                            assoc_upd_min(assoc, dw, u);
                        },
                    }
                },
            }
        },
    }
}

fn extract_compressed(content: &[u8], ymd: &[u8]) -> (r: HashMap<i32, Vec<Vec<u8>>>)
    ensures
        ({
            let t = dw28_compressed(content@, ymd@);
            &&& r@.dom() == t.dom()
            &&& forall|key: i32|
                r@.dom().contains(key) ==> #[trigger] r@[key].deep_view() == t[key]
        }),
{
    let ubn = ub_needle();
    let bidn = bid_needle();
    let mut assoc: Vec<(Vec<u8>, i32)> = Vec::new();
    let mut i: usize = 0;
    proof {
        assert(assoc_view(assoc@) =~= Seq::<(Seq<u8>, int)>::empty());
    }
    loop
        invariant
            ubn@ == n_ub(),
            bidn@ == n_bid(),
            i <= content@.len(),
            blocks_fold(assoc_view(assoc@), content@, i as int, ymd@) == blocks_fold(
                Seq::empty(),
                content@,
                0,
                ymd@,
            ),
        ensures
            assoc_view(assoc@) == blocks_fold(Seq::empty(), content@, 0, ymd@),
        decreases content@.len() - i + 1,
    {
        if i >= content.len() {
            proof {
                assert(blocks_fold(assoc_view(assoc@), content@, i as int, ymd@) == assoc_view(
                    assoc@,
                ));
            }
            break;
        }
        match daily_attempt_exec(content, i) {
            Some((ds, bs, be, res)) => {
                proof {
                    assert(next_daily(content@, i as int) == Some(
                        (ds as int, bs as int, be as int, res as int),
                    ));
                }
                let dcopy = copy_range(content, ds, ds + 10);
                let ghost m_enter = assoc_view(assoc@);
                let same_date = eq_bytes(dcopy.as_slice(), ymd);
                if same_date {
                    let blk = copy_range(content, bs, be);
                    let mut j: usize = 0;
                    loop
                        invariant
                            ubn@ == n_ub(),
                            bidn@ == n_bid(),
                            j <= blk@.len(),
                            recs_fold(assoc_view(assoc@), blk@, j as int) == recs_fold(
                                m_enter,
                                blk@,
                                0,
                            ),
                        ensures
                            assoc_view(assoc@) == recs_fold(m_enter, blk@, 0),
                        decreases blk@.len() - j + 1,
                    {
                        if j >= blk.len() {
                            proof {
                                assert(recs_fold(assoc_view(assoc@), blk@, j as int) == assoc_view(
                                    assoc@,
                                ));
                            }
                            break;
                        }
                        match rec_attempt_exec(blk.as_slice(), j) {
                            Some((s, e, res2)) => {
                                proof {
                                    assert(next_rec(blk@, j as int) == Some(
                                        (s as int, e as int, res2 as int),
                                    ));
                                }
                                let rec = copy_range(blk.as_slice(), s, e);
                                process_record(
                                    &mut assoc,
                                    rec.as_slice(),
                                    ubn.as_slice(),
                                    bidn.as_slice(),
                                );
                                j = res2;
                            },
                            None => {
                                proof {
                                    assert(next_rec(blk@, j as int) == next_rec(blk@, j + 1));
                                }
                                j += 1;
                            },
                        }
                    }
                    proof {
                        assert(blk@ == content@.subrange(bs as int, be as int));
                    }
                }
                proof {
                    assert(dcopy@ == content@.subrange(ds as int, ds + 10));
                    assert(same_date == (content@.subrange(ds as int, ds + 10) == ymd@));
                    assert(blocks_fold(assoc_view(assoc@), content@, res as int, ymd@)
                        == blocks_fold(Seq::empty(), content@, 0, ymd@));
                }
                i = res;
            },
            None => {
                proof {
                    assert(next_daily(content@, i as int) == next_daily(content@, i + 1));
                }
                i += 1;
            },
        }
    }
    let ghost mfull = assoc_view(assoc@);
    let mut table: HashMap<i32, Vec<Vec<u8>>> = HashMap::new();
    let mut k: usize = 0;
    proof {
        assert(table@.dom() =~= assoc_to_table(mfull, 0).dom());
    }
    while k < assoc.len()
        invariant
            k <= assoc@.len(),
            mfull == assoc_view(assoc@),
            mfull.len() == assoc@.len(),
            table@.dom() == assoc_to_table(mfull, k as int).dom(),
            forall|key: i32|
                table@.dom().contains(key) ==> #[trigger] table@[key].deep_view()
                    == assoc_to_table(mfull, k as int)[key],
        decreases assoc@.len() - k,
    {
        let ghost prev = assoc_to_table(mfull, k as int);
        let entry_bytes = {
            let e = &assoc[k];
            copy_range(e.0.as_slice(), 0, e.0.len())
        };
        let ukey = {
            let e = &assoc[k];
            e.1
        };
        let mut lst: Vec<Vec<u8>> = Vec::new();
        lst.push(entry_bytes);
        proof {
            assert(mfull[k as int] == (assoc@[k as int].0@, assoc@[k as int].1 as int));
            assert(lst.deep_view() =~~= seq![assoc@[k as int].0@]);
        }
        table.insert(ukey, lst);
        proof {
            assert(assoc_to_table(mfull, k + 1) == prev.insert(
                mfull[k as int].1 as i32,
                seq![mfull[k as int].0],
            ));
            assert(table@.dom() =~= assoc_to_table(mfull, k + 1).dom());
        }
        k += 1;
    }
    table
}

// ---------------------------------------------------------------------------
// Non-compressed-form extraction
// ---------------------------------------------------------------------------

fn pc_attempt_exec(blk: &[u8], j: usize) -> (r: Option<(usize, usize, usize, usize, usize)>)
    requires
        j < blk@.len(),
    ensures
        match r {
            Some(t) => pc_attempt(blk@, j as int) == Some(
                (t.0 as int, t.1 as int, t.2 as int, t.3 as int, t.4 as int),
            ) && t.0 <= t.1 <= blk@.len() && t.2 <= t.3 <= blk@.len() && j < t.4 <= blk@.len(),
            None => pc_attempt(blk@, j as int) is None,
        },
{
    if blk.len() - j < 3 {
        return None;
    }
    if blk[j] != 123 || blk[j + 1] != 34 {
        return None;
    }
    let ue = digit_dot_end(blk, j + 2);
    if !(ue > j + 2) {
        return None;
    }
    if blk.len() - ue < 4 {
        return None;
    }
    if !(blk[ue] == 34 && blk[ue + 1] == 58 && blk[ue + 2] == 123 && blk[ue + 3] != 125) {
        return None;
    }
    let ce = not_byte_end(blk, ue + 3, 125);
    Some((j + 2, ue, ue + 3, ce, ce))
}

fn dp_attempt_exec(col: &[u8], j: usize) -> (r: Option<(usize, usize, usize, usize, usize)>)
    requires
        j < col@.len(),
    ensures
        match r {
            Some(t) => dp_attempt(col@, j as int) == Some(
                (t.0 as int, t.1 as int, t.2 as int, t.3 as int, t.4 as int),
            ) && t.0 <= t.1 <= col@.len() && t.2 <= t.3 <= col@.len() && j < t.4 <= col@.len(),
            None => dp_attempt(col@, j as int) is None,
        },
{
    if col.len() - j < 2 {
        return None;
    }
    if col[j] != 34 || col[j + 1] == 34 {
        return None;
    }
    let le = not_byte_end(col, j + 1, 34);
    if col.len() - le < 4 {
        return None;
    }
    if !(col[le + 1] == 58 && col[le + 2] == 34 && col[le + 3] != 34) {
        return None;
    }
    let pe = not_byte_end(col, le + 3, 34);
    Some((j + 1, le, le + 3, pe, pe))
}

fn extract_noncompressed(content: &[u8], dmon: &[u8]) -> (r: Option<HashMap<i32, Vec<Vec<u8>>>>)
    ensures
        ({
            let t = dw28_noncompressed(content@, dmon@);
            match r {
                Some(m) => {
                    &&& t is Some
                    &&& m@.dom() == t.unwrap().dom()
                    &&& forall|key: i32|
                        m@.dom().contains(key) ==> #[trigger] m@[key].deep_view()
                            == t.unwrap()[key]
                },
                None => t is None,
            }
        }),
{
    let lmn = livematrix_needle();
    match find_sub_ci(content, lmn.as_slice(), 0) {
        None => {
            let table: HashMap<i32, Vec<Vec<u8>>> = HashMap::new();
            proof {
                assert(table@.dom() =~= Map::<i32, Seq<Seq<u8>>>::empty().dom());
            }
            Some(table)
        },
        Some(p) => {
            let cl = content.len();
            proof {
                assert(n_livematrix().len() == 14);
            }
            let s = p + 14;
            if s >= content.len() {
                return None;
            }
            if content[s] == 93 {
                return None;
            }
            let e = not_byte_end(content, s, 93);
            let blk = copy_range(content, s, e);
            let mut table: HashMap<i32, Vec<Vec<u8>>> = HashMap::new();
            let ghost mut gm: Map<i32, Seq<Seq<u8>>> = Map::empty();
            let mut i: usize = 0;
            proof {
                assert(table@.dom() =~= gm.dom());
            }
            loop
                invariant
                    i <= blk@.len(),
                    table@.dom() == gm.dom(),
                    forall|key: i32|
                        gm.dom().contains(key) ==> #[trigger] table@[key].deep_view() == gm[key],
                    nc_fold(gm, blk@, i as int, dmon@) == nc_fold(Map::empty(), blk@, 0, dmon@),
                ensures
                    gm == nc_fold(Map::empty(), blk@, 0, dmon@),
                    table@.dom() == gm.dom(),
                    forall|key: i32|
                        gm.dom().contains(key) ==> #[trigger] table@[key].deep_view() == gm[key],
                decreases blk@.len() - i + 1,
            {
                if i >= blk.len() {
                    proof {
                        assert(nc_fold(gm, blk@, i as int, dmon@) == gm);
                    }
                    break;
                }
                match pc_attempt_exec(blk.as_slice(), i) {
                    None => {
                        proof {
                            assert(next_pc(blk@, i as int) == next_pc(blk@, i + 1));
                        }
                        i += 1;
                    },
                    Some((us, ue, cs, ce, res)) => {
                        proof {
                            assert(next_pc(blk@, i as int) == Some(
                                (us as int, ue as int, cs as int, ce as int, res as int),
                            ));
                        }
                        let tok = copy_range(blk.as_slice(), us, ue);
                        let ghost gm_enter = gm;
                        match parse_price_bytes(tok.as_slice(), 2) {
                            Some(u) => {
                                let col = copy_range(blk.as_slice(), cs, ce);
                                let mut j: usize = 0;
                                loop
                                    invariant
                                        j <= col@.len(),
                                        table@.dom() == gm.dom(),
                                        forall|key: i32|
                                            gm.dom().contains(key)
                                                ==> #[trigger] table@[key].deep_view() == gm[key],
                                        col_fold(gm, col@, j as int, dmon@, u) == col_fold(
                                            gm_enter,
                                            col@,
                                            0,
                                            dmon@,
                                            u,
                                        ),
                                    ensures
                                        gm == col_fold(gm_enter, col@, 0, dmon@, u),
                                        table@.dom() == gm.dom(),
                                        forall|key: i32|
                                            gm.dom().contains(key)
                                                ==> #[trigger] table@[key].deep_view() == gm[key],
                                    decreases col@.len() - j + 1,
                                {
                                    if j >= col.len() {
                                        proof {
                                            assert(col_fold(gm, col@, j as int, dmon@, u) == gm);
                                        }
                                        break;
                                    }
                                    match dp_attempt_exec(col.as_slice(), j) {
                                        None => {
                                            proof {
                                                assert(next_dp(col@, j as int) == next_dp(
                                                    col@,
                                                    j + 1,
                                                ));
                                            }
                                            j += 1;
                                        },
                                        Some((ls, le, ps, pe, res2)) => {
                                            proof {
                                                assert(next_dp(col@, j as int) == Some(
                                                    (
                                                        ls as int,
                                                        le as int,
                                                        ps as int,
                                                        pe as int,
                                                        res2 as int,
                                                    ),
                                                ));
                                            }
                                            let label = copy_range(col.as_slice(), ls, le);
                                            if eq_bytes(label.as_slice(), dmon) {
                                                let price = copy_range(col.as_slice(), ps, pe);
                                                let mut lst: Vec<Vec<u8>> = Vec::new();
                                                lst.push(price);
                                                proof {
                                                    assert(lst.deep_view() =~~= seq![col@.subrange(
                                                        ps as int,
                                                        pe as int,
                                                    )]);
                                                }
                                                let ghost gprev = gm;
                                                table.insert(u, lst);
                                                proof {
                                                    gm = gprev.insert(
                                                        u,
                                                        seq![col@.subrange(ps as int, pe as int)],
                                                    );
                                                    assert(table@.dom() =~= gm.dom());
                                                }
                                            }
                                            j = res2;
                                        },
                                    }
                                }
                            },
                            None => {},
                        }
                        proof {
                            assert(tok@ == blk@.subrange(us as int, ue as int));
                            assert(nc_fold(gm, blk@, res as int, dmon@) == nc_fold(
                                Map::empty(),
                                blk@,
                                0,
                                dmon@,
                            ));
                        }
                        i = res;
                    },
                }
            }
            proof {
                assert(blk@ == content@.subrange(s as int, e as int));
            }
            Some(table)
        },
    }
}

/// Law: unlike the HTML-table source, the live-matrix extractor permits an
/// empty success: whenever the reading of the page is an empty table, the
/// result is `Ok` with an empty table, never an error.
pub proof fn lemma_empty_live_matrix_is_a_success(
    dw_info: DWInfo,
    content: Seq<u8>,
    date: WorkingDate,
    r: Result<HashMap<i32, Vec<Vec<u8>>>, Error>,
)
    requires
        <DW28 as DWPriceTable>::table_ens(dw_info, content, date, r),
        dw28_result(content, fmt_date_ymd(date), fmt_date_dmon(date)) matches Some(t) && t.dom()
            == Set::<i32>::empty(),
    ensures
        r matches Ok(m) && m@.dom() == Set::<i32>::empty(),
{
}

impl DWPriceTable for DW28 {
    type UnderlyingType = i32;

    type DWType = Vec<u8>;

    open spec fn table_req(dw_info: DWInfo, content: Seq<u8>, date: WorkingDate) -> bool {
        date_wf(date)
    }

    open spec fn table_ens(
        dw_info: DWInfo,
        content: Seq<u8>,
        date: WorkingDate,
        r: Result<HashMap<i32, Vec<Vec<u8>>>, Error>,
    ) -> bool {
        let t = dw28_result(content, fmt_date_ymd(date), fmt_date_dmon(date));
        match r {
            Ok(m) => {
                &&& t is Some
                &&& m@.dom() == t.unwrap().dom()
                &&& forall|key: i32|
                    m@.dom().contains(key) ==> #[trigger] m@[key].deep_view() == t.unwrap()[key]
            },
            Err(e) => {
                &&& t is None
                &&& e matches Error::DataNotFound { symbol, info }
                &&& symbol@ == dw_info.symbol@
                &&& info matches Some(s)
                &&& s@ == "Not found date in non-compressed livematrix"@
            },
        }
    }

    /// Reads the price table of the working date from the fetched feed.
    /// With the compressed marker present, the daily records of the date's
    /// blocks are folded, keeping per warrant bid text the minimum
    /// underlying bid; otherwise the live-matrix columns labelled with the
    /// working date are read.
    fn get_underlying_dw_price_table(dw_info: &DWInfo, content: &[u8], date: &WorkingDate) -> (r:
        Result<HashMap<i32, Vec<Vec<u8>>>, Error>) {
        let cn = compressed_needle();
        match find_sub_ci(content, cn.as_slice(), 0) {
            Some(_) => {
                let ymd = format_date_ymd(date);
                Ok(extract_compressed(content, ymd.as_slice()))
            },
            None => {
                let dmon = format_date_dmon(date);
                match extract_noncompressed(content, dmon.as_slice()) {
                    Some(m) => Ok(m),
                    None => Err(
                        Error::DataNotFound {
                            symbol: dw_info.symbol.clone(),
                            info: Some("Not found date in non-compressed livematrix".to_owned()),
                        },
                    ),
                }
            },
        }
    }
}

} // verus!
