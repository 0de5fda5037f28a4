//! Extractor for the bid-tier JSON source.
//!
//! The feed answers with a calculator document whose `BidRows` array holds
//! one row per underlying price tick; each row carries the underlying bid
//! and five warrant bid tiers, any of which may be `null`.  Absent data
//! (a missing rows array) is a successful empty table.

use vstd::prelude::*;
use std::collections::HashMap;
use crate::scan::{
    is_digit_dot, matches_at, find_from, skip_ws, run_end_not, run_end_digit_dot, parse_price,
    lemma_run_end_not_le, match_at, find_sub, ws_end, not_byte_end, digit_dot_end, copy_range,
    parse_price_bytes,
};
use crate::calendar::WorkingDate;
use crate::instrument::dw::{DWInfo, DWPriceTable, Error};

verus! {

broadcast use vstd::std_specs::hash::group_hash_axioms;

/// The bytes of `"BidRows":`.
pub open spec fn n_bidrows() -> Seq<u8> {
    seq![34u8, 66u8, 105u8, 100u8, 82u8, 111u8, 119u8, 115u8, 34u8, 58u8]
}

/// The bytes of `"UnderlyBidOffer":`.
pub open spec fn n_ubo() -> Seq<u8> {
    seq![
        34u8, 85u8, 110u8, 100u8, 101u8, 114u8, 108u8, 121u8, 66u8, 105u8, 100u8, 79u8, 102u8,
        102u8, 101u8, 114u8, 34u8, 58u8,
    ]
}

/// The bytes of `"BidT<k>":` for tiers one to five.
pub open spec fn n_bidt(k: int) -> Seq<u8> {
    seq![34u8, 66u8, 105u8, 100u8, 84u8, (48 + k) as u8, 34u8, 58u8]
}

/// The bytes of `null`.
pub open spec fn n_null() -> Seq<u8> {
    seq![110u8, 117u8, 108u8, 108u8]
}

/// The span of the rows array content: after the first `"BidRows":` and
/// its opening bracket, up to the first closing bracket.
pub open spec fn bidrows_group(h: Seq<u8>) -> Option<(int, int)> {
    match find_from(h, n_bidrows(), 0) {
        Some(p) => {
            let q = skip_ws(h, p + 10);
            if q < h.len() && h[q] == 91 {
                Some((q + 1, run_end_not(h, q + 1, 93)))
            } else {
                None
            }
        },
        None => None,
    }
}

/// A row fragment `{...}` whose brace stands exactly at `j`.
pub open spec fn row_attempt(blk: Seq<u8>, j: int) -> Option<(int, int, int)> {
    if 0 <= j && j + 1 < blk.len() && blk[j] == 123 && blk[j + 1] != 125 {
        let e = run_end_not(blk, j + 1, 125);
        Some((j + 1, e, e))
    } else {
        None
    }
}

/// The first row fragment at or after `i`.
pub open spec fn next_row(blk: Seq<u8>, i: int) -> Option<(int, int, int)>
    decreases blk.len() - i + 1,
{
    if i >= blk.len() {
        None
    } else if row_attempt(blk, i) is Some {
        row_attempt(blk, i)
    } else {
        next_row(blk, i + 1)
    }
}

proof fn lemma_next_row_bounds(blk: Seq<u8>, i: int)
    requires
        0 <= i,
        next_row(blk, i) is Some,
    ensures
        ({
            let (s, e, res) = next_row(blk, i).unwrap();
            &&& 0 <= s <= e <= blk.len()
            &&& i < res <= blk.len()
        }),
    decreases blk.len() - i + 1,
{
    if i >= blk.len() {
    } else if row_attempt(blk, i) is Some {
        lemma_run_end_not_le(blk, i + 1, 125);
    } else {
        lemma_next_row_bounds(blk, i + 1);
    }
}

/// The numeric text of a field: the first exact field name, whitespace
/// skipped, then a non-empty numeric token.
pub open spec fn dw06_num_field(rec: Seq<u8>, needle: Seq<u8>) -> Option<Seq<u8>> {
    match find_from(rec, needle, 0) {
        Some(p) => {
            let s = skip_ws(rec, p + needle.len());
            let e = run_end_digit_dot(rec, s);
            if e > s {
                Some(rec.subrange(s, e))
            } else {
                None
            }
        },
        None => None,
    }
}

/// The text of a bid tier: as the numeric field, with a `null` value
/// standing for zero.
pub open spec fn dw06_bid_field(rec: Seq<u8>, needle: Seq<u8>) -> Option<Seq<u8>> {
    match find_from(rec, needle, 0) {
        Some(p) => {
            let s = skip_ws(rec, p + needle.len());
            if matches_at(rec, n_null(), s) {
                Some(seq![48u8])
            } else {
                let e = run_end_digit_dot(rec, s);
                if e > s {
                    Some(rec.subrange(s, e))
                } else {
                    None
                }
            }
        },
        None => None,
    }
}

/// The entry of one row: the quantized underlying bid mapped to the five
/// bid-tier texts.  A row without a readable underlying bid on the integer
/// grid, or with an unreadable tier, contributes nothing.
pub open spec fn dw06_row_entry(rec: Seq<u8>) -> Option<(int, Seq<Seq<u8>>)> {
    match dw06_num_field(rec, n_ubo()) {
        Some(ut) => match parse_price(ut, 2) {
            Some(u) => {
                if dw06_bid_field(rec, n_bidt(1)) is Some && dw06_bid_field(rec, n_bidt(2)) is Some
                    && dw06_bid_field(rec, n_bidt(3)) is Some && dw06_bid_field(
                    rec,
                    n_bidt(4),
                ) is Some && dw06_bid_field(rec, n_bidt(5)) is Some {
                    Some(
                        (
                            u,
                            seq![
                                dw06_bid_field(rec, n_bidt(1)).unwrap(),
                                dw06_bid_field(rec, n_bidt(2)).unwrap(),
                                dw06_bid_field(rec, n_bidt(3)).unwrap(),
                                dw06_bid_field(rec, n_bidt(4)).unwrap(),
                                dw06_bid_field(rec, n_bidt(5)).unwrap(),
                            ],
                        ),
                    )
                } else {
                    None
                }
            },
            None => None,
        },
        None => None,
    }
}

/// The table folded over the rows, later rows overwriting equal keys.
pub open spec fn dw06_fold(m: Map<i32, Seq<Seq<u8>>>, blk: Seq<u8>, i: int) -> Map<
    i32,
    Seq<Seq<u8>>,
>
    decreases blk.len() - i + 1,
    via dw06_fold_dec
{
    if i < 0 {
        m
    } else {
        match next_row(blk, i) {
            Some((s, e, res)) => {
                let m2 = match dw06_row_entry(blk.subrange(s, e)) {
                    Some(entry) => m.insert(entry.0 as i32, entry.1),
                    None => m,
                };
                dw06_fold(m2, blk, res)
            },
            None => m,
        }
    }
}

#[via_fn]
proof fn dw06_fold_dec(m: Map<i32, Seq<Seq<u8>>>, blk: Seq<u8>, i: int) {
    if i >= 0 && next_row(blk, i) is Some {
        lemma_next_row_bounds(blk, i);
    }
}

/// The whole extraction: an absent rows array is an empty table.
pub open spec fn dw06_extract(content: Seq<u8>) -> Map<i32, Seq<Seq<u8>>> {
    match bidrows_group(content) {
        Some((s, e)) => dw06_fold(Map::empty(), content.subrange(s, e), 0),
        None => Map::empty(),
    }
}

// ---------------------------------------------------------------------------
// Executable extraction
// ---------------------------------------------------------------------------

fn bidrows_needle() -> (r: Vec<u8>)
    ensures
        r@ == n_bidrows(),
{
    let v: Vec<u8> = vec![34u8, 66u8, 105u8, 100u8, 82u8, 111u8, 119u8, 115u8, 34u8, 58u8];
    proof {
        assert(v@ =~= n_bidrows());
    }
    v
}

fn ubo_needle() -> (r: Vec<u8>)
    ensures
        r@ == n_ubo(),
{
    let v: Vec<u8> = vec![
        34u8, 85u8, 110u8, 100u8, 101u8, 114u8, 108u8, 121u8, 66u8, 105u8, 100u8, 79u8, 102u8,
        102u8, 101u8, 114u8, 34u8, 58u8,
    ];
    proof {
        assert(v@ =~= n_ubo());
    }
    v
}

fn bidt_needle(k: u8) -> (r: Vec<u8>)
    requires
        1 <= k <= 5,
    ensures
        r@ == n_bidt(k as int),
{
    let v: Vec<u8> = vec![34u8, 66u8, 105u8, 100u8, 84u8, 48 + k, 34u8, 58u8];
    proof {
        assert(v@ =~= n_bidt(k as int));
    }
    v
}

fn null_needle() -> (r: Vec<u8>)
    ensures
        r@ == n_null(),
{
    let v: Vec<u8> = vec![110u8, 117u8, 108u8, 108u8];
    proof {
        assert(v@ =~= n_null());
    }
    v
}

fn num_field_exec(rec: &[u8], needle: &[u8]) -> (r: Option<Vec<u8>>)
    ensures
        match r {
            Some(tok) => dw06_num_field(rec@, needle@) == Some(tok@),
            None => dw06_num_field(rec@, needle@) is None,
        },
{
    let rl = rec.len();
    match find_sub(rec, needle, 0) {
        Some(p) => {
            let s = ws_end(rec, p + needle.len());
            let e = digit_dot_end(rec, s);
            if e > s {
                Some(copy_range(rec, s, e))
            } else {
                None
            }
        },
        None => None,
    }
}

fn bid_field_exec(rec: &[u8], needle: &[u8], nulln: &[u8]) -> (r: Option<Vec<u8>>)
    requires
        nulln@ == n_null(),
    ensures
        match r {
            Some(tok) => dw06_bid_field(rec@, needle@) == Some(tok@),
            None => dw06_bid_field(rec@, needle@) is None,
        },
{
    let rl = rec.len();
    match find_sub(rec, needle, 0) {
        Some(p) => {
            let s = ws_end(rec, p + needle.len());
            if match_at(rec, nulln, s) {
                let zero: Vec<u8> = vec![48u8];
                proof {
                    assert(zero@ =~= seq![48u8]);
                }
                Some(zero)
            } else {
                let e = digit_dot_end(rec, s);
                if e > s {
                    Some(copy_range(rec, s, e))
                } else {
                    None
                }
            }
        },
        None => None,
    }
}

fn row_attempt_exec(blk: &[u8], j: usize) -> (r: Option<(usize, usize, usize)>)
    requires
        j < blk@.len(),
    ensures
        match r {
            Some(t) => row_attempt(blk@, j as int) == Some((t.0 as int, t.1 as int, t.2 as int))
                && t.0 <= t.1 <= blk@.len() && j < t.2 <= blk@.len(),
            None => row_attempt(blk@, j as int) is None,
        },
{
    if blk.len() - j < 2 {
        return None;
    }
    if blk[j] != 123 || blk[j + 1] == 125 {
        return None;
    }
    let e = not_byte_end(blk, j + 1, 125);
    Some((j + 1, e, e))
}

/// Computes the entry of one row, if the row has one.
fn dw06_row_entry_exec(rec: &[u8], ubon: &[u8], nulln: &[u8]) -> (r: Option<(i32, Vec<Vec<u8>>)>)
    requires
        ubon@ == n_ubo(),
        nulln@ == n_null(),
    ensures
        match r {
            Some(entry) => ({
                let s = dw06_row_entry(rec@);
                &&& s is Some
                &&& entry.0 as int == s.unwrap().0
                &&& entry.1.deep_view() == s.unwrap().1
            }),
            None => dw06_row_entry(rec@) is None,
        },
{
    let ut = match num_field_exec(rec, ubon) {
        Some(t) => t,
        None => {
            return None;
        },
    };
    let u = match parse_price_bytes(ut.as_slice(), 2) {
        Some(u) => u,
        None => {
            return None;
        },
    };
    let mut bids: Vec<Vec<u8>> = Vec::new();
    let mut k: u8 = 1;
    while k <= 5
        invariant
            1 <= k <= 6,
            ubon@ == n_ubo(),
            nulln@ == n_null(),
            bids@.len() == k - 1,
            forall|t: int| 1 <= t < k ==> #[trigger] dw06_bid_field(rec@, n_bidt(t)) is Some,
            forall|t: int|
                0 <= t < k - 1 ==> #[trigger] bids@[t]@ == dw06_bid_field(
                    rec@,
                    n_bidt(t + 1),
                ).unwrap(),
        decreases 6 - k,
    {
        let needle = bidt_needle(k);
        match bid_field_exec(rec, needle.as_slice(), nulln) {
            Some(tok) => {
                let ghost prev = bids@;
                bids.push(tok);
                proof {
                    assert(bids@[k - 1] == tok);
                    assert forall|t: int|
                        1 <= t < k + 1 implies #[trigger] dw06_bid_field(
                            rec@,
                            n_bidt(t),
                        ) is Some by {
                        if t < k {
                            assert(dw06_bid_field(rec@, n_bidt(t)) is Some);
                        }
                    }
                    assert forall|t: int|
                        0 <= t < k implies #[trigger] bids@[t]@ == dw06_bid_field(
                            rec@,
                            n_bidt(t + 1),
                        ).unwrap() by {
                        if t < k - 1 {
                            assert(bids@[t] == prev[t]);
                            assert(prev[t]@ == dw06_bid_field(rec@, n_bidt(t + 1)).unwrap());
                        } else {
                            assert(bids@[t] == tok);
                        }
                    }
                }
            },
            None => {
                return None;
            },
        }
        k += 1;
    }
    proof {
        assert(dw06_bid_field(rec@, n_bidt(1)) is Some);
        assert(dw06_bid_field(rec@, n_bidt(2)) is Some);
        assert(dw06_bid_field(rec@, n_bidt(3)) is Some);
        assert(dw06_bid_field(rec@, n_bidt(4)) is Some);
        assert(dw06_bid_field(rec@, n_bidt(5)) is Some);
        let s = dw06_row_entry(rec@);
        assert(s is Some);
        assert(bids.deep_view().len() == 5);
        assert forall|t: int| 0 <= t < 5 implies bids.deep_view()[t] == s.unwrap().1[t] by {
            assert(bids@[t]@ == dw06_bid_field(rec@, n_bidt(t + 1)).unwrap());
            assert(bids.deep_view()[t] =~= bids@[t]@);
        }
        assert(bids.deep_view() =~~= s.unwrap().1);
    }
    Some((u, bids))
}

/// Extractor for the bid-tier JSON source.
pub struct DW06;

impl DWPriceTable for DW06 {
    type UnderlyingType = i32;

    type DWType = Vec<u8>;

    open spec fn table_req(dw_info: DWInfo, content: Seq<u8>, date: WorkingDate) -> bool {
        true
    }

    open spec fn table_ens(
        dw_info: DWInfo,
        content: Seq<u8>,
        date: WorkingDate,
        r: Result<HashMap<i32, Vec<Vec<u8>>>, Error>,
    ) -> bool {
        let t = dw06_extract(content);
        match r {
            Ok(m) => {
                &&& m@.dom() == t.dom()
                &&& forall|key: i32|
                    m@.dom().contains(key) ==> #[trigger] m@[key].deep_view() == t[key]
            },
            Err(e) => false,
        }
    }

    /// Reads the bid-tier table from the fetched calculator document: each
    /// row of the `BidRows` array maps its quantized underlying bid to the
    /// row's five bid-tier texts, `null` tiers reading as zero.  A document
    /// without rows gives an empty table.
    fn get_underlying_dw_price_table(dw_info: &DWInfo, content: &[u8], date: &WorkingDate) -> (r:
        Result<HashMap<i32, Vec<Vec<u8>>>, Error>) {
        let brn = bidrows_needle();
        let ubon = ubo_needle();
        let nulln = null_needle();
        let mut table: HashMap<i32, Vec<Vec<u8>>> = HashMap::new();
        let cl = content.len();
        let (s, e): (usize, usize) = match find_sub(content, brn.as_slice(), 0) {
            Some(p) => {
                let q = ws_end(content, p + 10);
                if q < content.len() && content[q] == 91 {
                    let e = not_byte_end(content, q + 1, 93);
                    (q + 1, e)
                } else {
                    proof {
                        assert(table@.dom() =~= dw06_extract(content@).dom());
                    }
                    return Ok(table);
                }
            },
            None => {
                proof {
                    assert(table@.dom() =~= dw06_extract(content@).dom());
                }
                return Ok(table);
            },
        };
        let blk = copy_range(content, s, e);
        let ghost mut gm: Map<i32, Seq<Seq<u8>>> = Map::empty();
        let mut i: usize = 0;
        proof {
            assert(table@.dom() =~= gm.dom());
        }
        loop
            invariant
                ubon@ == n_ubo(),
                nulln@ == n_null(),
                i <= blk@.len(),
                table@.dom() == gm.dom(),
                forall|key: i32|
                    gm.dom().contains(key) ==> #[trigger] table@[key].deep_view() == gm[key],
                dw06_fold(gm, blk@, i as int) == dw06_fold(Map::empty(), blk@, 0),
            ensures
                gm == dw06_fold(Map::empty(), blk@, 0),
                table@.dom() == gm.dom(),
                forall|key: i32|
                    gm.dom().contains(key) ==> #[trigger] table@[key].deep_view() == gm[key],
            decreases blk@.len() - i + 1,
        {
            if i >= blk.len() {
                proof {
                    assert(dw06_fold(gm, blk@, i as int) == gm);
                }
                break;
            }
            match row_attempt_exec(blk.as_slice(), i) {
                None => {
                    proof {
                        assert(next_row(blk@, i as int) == next_row(blk@, i + 1));
                    }
                    i += 1;
                },
                Some((rs, re, res)) => {
                    proof {
                        assert(next_row(blk@, i as int) == Some(
                            (rs as int, re as int, res as int),
                        ));
                    }
                    let rec = copy_range(blk.as_slice(), rs, re);
                    match dw06_row_entry_exec(rec.as_slice(), ubon.as_slice(), nulln.as_slice()) {
                        Some((u, bids)) => {
                            let ghost gprev = gm;
                            let ghost bview = bids.deep_view();
                            table.insert(u, bids);
                            proof {
                                gm = gprev.insert(u, bview);
                                assert(table@.dom() =~= gm.dom());
                            }
                        },
                        None => {},
                    }
                    i = res;
                },
            }
        }
        proof {
            assert(blk@ == content@.subrange(s as int, e as int));
        }
        Ok(table)
    }
}

} // verus!
