//! Derivative-warrant symbols and the shared price-table interface.
//!
//! A warrant ticker has the fixed-position layout
//! `<underlying><broker 2 digits><side C|P><expiry YYMM><series>`:
//! the parser locates the seven-character core, requires at least one
//! leading character and exactly one trailing character, and splits the
//! symbol into its typed fields.

use vstd::prelude::*;
use std::collections::HashMap;
use crate::calendar::WorkingDate;

verus! {

/// Option side of a derivative warrant.
#[derive(PartialEq, Eq, Structural, Clone, Copy, Debug)]
pub enum DWSide {
    C,
    P,
    Unknown,
}

/// Failure of a table extraction.
#[derive(PartialEq, Clone, Debug)]
pub enum Error {
    /// The source was readable but the expected table, date column or row
    /// set was not there, or was empty where an empty table is an error.
    DataNotFound { symbol: String, info: Option<String> },
    /// A located fragment could not be converted to the expected shape.
    FailedParsing { symbol: String, info: Option<String> },
    /// No extractor is registered for this broker id.
    UnsupportedDWTableScraping { broker_id: u8 },
}

/// The semantic fields of a warrant ticker symbol.
#[derive(PartialEq, Clone, Debug)]
pub struct DWInfo {
    pub symbol: String,
    pub underlying_symbol: String,
    pub broker_id: u8,
    pub side: DWSide,
    pub expire_yymm: [u8; 4],
    pub series: char,
}

pub open spec fn is_digit_char(c: char) -> bool {
    '0' <= c <= '9'
}

/// The seven-character core `\d\d[CP]\d\d\d\d` occurs at position `i`.
pub open spec fn sym_match_at(s: Seq<char>, i: int) -> bool {
    &&& 0 <= i
    &&& i + 7 <= s.len()
    &&& is_digit_char(s[i])
    &&& is_digit_char(s[i + 1])
    &&& (s[i + 2] == 'C' || s[i + 2] == 'P')
    &&& is_digit_char(s[i + 3])
    &&& is_digit_char(s[i + 4])
    &&& is_digit_char(s[i + 5])
    &&& is_digit_char(s[i + 6])
}

/// Leftmost core occurrence at or after `i`.
pub open spec fn first_sym_match_from(s: Seq<char>, i: int) -> Option<int>
    decreases s.len() - i + 1,
{
    if i + 7 > s.len() {
        None
    } else if sym_match_at(s, i) {
        Some(i)
    } else {
        first_sym_match_from(s, i + 1)
    }
}

/// A parseable symbol: the leftmost core has at least one character before
/// it (the underlying) and exactly one character after it (the series).
pub open spec fn dw_symbol_valid(s: Seq<char>) -> bool {
    match first_sym_match_from(s, 0) {
        Some(i) => i >= 1 && i + 8 == s.len(),
        None => false,
    }
}

/// Start of the core of a valid symbol.
pub open spec fn sym_core_start(s: Seq<char>) -> int {
    first_sym_match_from(s, 0).unwrap()
}

pub open spec fn char_digit(c: char) -> int {
    c as int - 48
}

/// The broker id encoded by the first two core digits.
pub open spec fn spec_broker_id(s: Seq<char>) -> int {
    10 * char_digit(s[sym_core_start(s)]) + char_digit(s[sym_core_start(s) + 1])
}

/// The side encoded by the core's third character.
pub open spec fn spec_side(s: Seq<char>) -> DWSide {
    if s[sym_core_start(s) + 2] == 'C' {
        DWSide::C
    } else {
        DWSide::P
    }
}

/// The expiry digits of the core, as their ASCII bytes.
pub open spec fn spec_expire_yymm(s: Seq<char>) -> Seq<u8> {
    Seq::new(4, |k: int| s[sym_core_start(s) + 3 + k] as u8)
}

fn exec_is_digit_char(c: char) -> (r: bool)
    ensures
        r == is_digit_char(c),
{
    '0' <= c && c <= '9'
}

/// Finds the leftmost core occurrence in `s`.
fn find_sym_core(s: &str, n: usize) -> (r: Option<usize>)
    requires
        n == s@.len(),
    ensures
        match r {
            Some(i) => first_sym_match_from(s@, 0) == Some(i as int),
            None => first_sym_match_from(s@, 0) is None,
        },
{
    let mut i: usize = 0;
    loop
        invariant
            n == s@.len(),
            i <= n,
            first_sym_match_from(s@, 0) == first_sym_match_from(s@, i as int),
        decreases n - i + 1,
    {
        if n < 7 || i > n - 7 {
            return None;
        }
        let hit = exec_is_digit_char(s.get_char(i)) && exec_is_digit_char(s.get_char(i + 1)) && {
            let c2 = s.get_char(i + 2);
            c2 == 'C' || c2 == 'P'
        } && exec_is_digit_char(s.get_char(i + 3)) && exec_is_digit_char(s.get_char(i + 4))
            && exec_is_digit_char(s.get_char(i + 5)) && exec_is_digit_char(s.get_char(i + 6));
        if hit {
            assert(sym_match_at(s@, i as int));
            return Some(i);
        }
        assert(!sym_match_at(s@, i as int));
        i += 1;
    }
}

impl DWInfo {
    /// Parses a warrant ticker symbol into its fields; `None` when the
    /// symbol does not have the expected layout.
    pub fn from_str(dw_symbol: &str) -> (r: Option<DWInfo>)
        ensures
            r is Some <==> dw_symbol_valid(dw_symbol@),
            r matches Some(info) ==> {
                let s = dw_symbol@;
                let i = sym_core_start(s);
                &&& info.symbol@ == s
                &&& info.underlying_symbol@ == s.subrange(0, i)
                &&& info.broker_id as int == spec_broker_id(s)
                &&& info.side == spec_side(s)
                &&& info.expire_yymm@ == spec_expire_yymm(s)
                &&& info.series == s[s.len() - 1]
            },
    {
        let n = dw_symbol.unicode_len();
        let found = find_sym_core(dw_symbol, n);
        let i = match found {
            Some(i) => i,
            None => {
                return None;
            },
        };
        proof {
            lemma_first_sym_match_hit(dw_symbol@, 0);
        }
        assert(i + 7 <= n);
        if i == 0 || n - i != 8 {
            return None;
        }
        assert(dw_symbol_valid(dw_symbol@));
        let c0 = dw_symbol.get_char(i);
        let c1 = dw_symbol.get_char(i + 1);
        let side_char = dw_symbol.get_char(i + 2);
        let e0 = dw_symbol.get_char(i + 3);
        let e1 = dw_symbol.get_char(i + 4);
        let e2 = dw_symbol.get_char(i + 5);
        let e3 = dw_symbol.get_char(i + 6);
        proof {
            assert(sym_match_at(dw_symbol@, i as int));
        }
        let broker_id: u8 = (10 * (c0 as u32 - 48) + (c1 as u32 - 48)) as u8;
        let expire_yymm: [u8; 4] = [e0 as u8, e1 as u8, e2 as u8, e3 as u8];
        let info = DWInfo {
            symbol: dw_symbol.to_owned(),
            underlying_symbol: dw_symbol.substring_char(0, i).to_owned(),
            broker_id,
            side: if side_char == 'C' {
                DWSide::C
            } else {
                DWSide::P
            },
            expire_yymm,
            series: dw_symbol.get_char(n - 1),
        };
        proof {
            assert(info.expire_yymm@ =~= spec_expire_yymm(dw_symbol@));
        }
        Some(info)
    }
}

pub open spec fn is_ws_char(c: char) -> bool {
    c == ' ' || c == '\t' || c == '\n' || c == '\r' || c == '\x0b' || c == '\x0c'
}

pub open spec fn skip_ws_chars(s: Seq<char>, i: int) -> int
    decreases s.len() - i + 1,
{
    if i < 0 || i >= s.len() || !is_ws_char(s[i]) {
        i
    } else {
        skip_ws_chars(s, i + 1)
    }
}

/// The symbol names the SET50 index: after leading whitespace it begins
/// with `s50`, ignoring the case of the letter.
pub open spec fn is_s50_symbol(s: Seq<char>) -> bool {
    let i = skip_ws_chars(s, 0);
    i + 3 <= s.len() && (s[i] == 's' || s[i] == 'S') && s[i + 1] == '5' && s[i + 2] == '0'
}

/// Checks whether the symbol names the SET50 index.
pub fn symbol_is_s50(sym: &str) -> (r: bool)
    ensures
        r == is_s50_symbol(sym@),
{
    let n = sym.unicode_len();
    let mut i: usize = 0;
    loop
        invariant
            i <= n == sym@.len(),
            skip_ws_chars(sym@, 0) == skip_ws_chars(sym@, i as int),
        ensures
            i <= n,
            i as int == skip_ws_chars(sym@, 0),
        decreases n - i + 1,
    {
        if i >= n {
            assert(skip_ws_chars(sym@, i as int) == i);
            break;
        }
        let c = sym.get_char(i);
        if !(c == ' ' || c == '\t' || c == '\n' || c == '\r' || c == '\x0b' || c == '\x0c') {
            assert(skip_ws_chars(sym@, i as int) == i);
            break;
        }
        i += 1;
    }
    if n >= 3 && i <= n - 3 {
        let c0 = sym.get_char(i);
        (c0 == 's' || c0 == 'S') && sym.get_char(i + 1) == '5' && sym.get_char(i + 2) == '0'
    } else {
        false
    }
}

/// Interface of the per-broker table extractors.  Each extractor maps the
/// fetched source content and the resolved working date to the table from
/// quantized underlying price to the warrant's price texts; its exact
/// behaviour is given by its `table_ens` relation.
pub trait DWPriceTable {
    type UnderlyingType;

    type DWType;

    /// What an extractor needs of its inputs.
    spec fn table_req(dw_info: DWInfo, content: Seq<u8>, date: WorkingDate) -> bool;

    /// The exact relation between the inputs and the result.
    spec fn table_ens(
        dw_info: DWInfo,
        content: Seq<u8>,
        date: WorkingDate,
        r: Result<HashMap<Self::UnderlyingType, Vec<Self::DWType>>, Error>,
    ) -> bool;

    /// Extracts the underlying-to-warrant price table for the working date
    /// from fetched source content.
    fn get_underlying_dw_price_table(dw_info: &DWInfo, content: &[u8], date: &WorkingDate) -> (r:
        Result<HashMap<Self::UnderlyingType, Vec<Self::DWType>>, Error>)
        requires
            Self::table_req(*dw_info, content@, *date),
        ensures
            Self::table_ens(*dw_info, content@, *date, r),
    ;
}

impl DWPriceTable for DWInfo {
    type UnderlyingType = i32;

    type DWType = Vec<u8>;

    open spec fn table_req(dw_info: DWInfo, content: Seq<u8>, date: WorkingDate) -> bool {
        crate::calendar::date_wf(date)
    }

    open spec fn table_ens(
        dw_info: DWInfo,
        content: Seq<u8>,
        date: WorkingDate,
        r: Result<HashMap<i32, Vec<Vec<u8>>>, Error>,
    ) -> bool {
        if dw_info.broker_id == 13 {
            <crate::dw13::DW13 as DWPriceTable>::table_ens(dw_info, content, date, r)
        } else if dw_info.broker_id == 28 {
            <crate::dw28::DW28 as DWPriceTable>::table_ens(dw_info, content, date, r)
        } else {
            &&& r matches Err(e)
            &&& e matches Error::UnsupportedDWTableScraping { broker_id }
            &&& broker_id == dw_info.broker_id
        }
    }

    /// Routes the symbol to the extractor registered for its broker id;
    /// any other broker id is unsupported.
    fn get_underlying_dw_price_table(dw_info: &DWInfo, content: &[u8], date: &WorkingDate) -> (r:
        Result<HashMap<i32, Vec<Vec<u8>>>, Error>) {
        if dw_info.broker_id == 13 {
            crate::dw13::DW13::get_underlying_dw_price_table(dw_info, content, date)
        } else if dw_info.broker_id == 28 {
            crate::dw28::DW28::get_underlying_dw_price_table(dw_info, content, date)
        } else {
            Err(Error::UnsupportedDWTableScraping { broker_id: dw_info.broker_id })
        }
    }
}

/// The concatenation of the parsed fields, as characters: underlying, two
/// broker digits, side letter, four expiry digits, series.
pub open spec fn dw_info_concat(
    underlying: Seq<char>,
    broker_id: int,
    side: DWSide,
    expire: Seq<u8>,
    series: char,
) -> Seq<char> {
    underlying + seq![
        ((48 + broker_id / 10) as u8) as char,
        ((48 + broker_id % 10) as u8) as char,
    ] + seq![if side == DWSide::C { 'C' } else { 'P' }] + Seq::new(4, |k: int| expire[k] as char)
        + seq![series]
}

/// Law: parsing round-trips.  For a valid symbol, concatenating the parsed
/// fields (underlying, the two broker-id digits, the side letter, the four
/// expiry digits, the series) gives back exactly the input text.
pub proof fn lemma_from_str_round_trip(s: Seq<char>, info: DWInfo)
    requires
        dw_symbol_valid(s),
        info.underlying_symbol@ == s.subrange(0, sym_core_start(s)),
        info.broker_id as int == spec_broker_id(s),
        info.side == spec_side(s),
        info.expire_yymm@ == spec_expire_yymm(s),
        info.series == s[s.len() - 1],
    ensures
        dw_info_concat(
            info.underlying_symbol@,
            info.broker_id as int,
            info.side,
            info.expire_yymm@,
            info.series,
        ) == s,
{
    let i = sym_core_start(s);
    assert(sym_match_at(s, i)) by {
        lemma_first_sym_match_hit(s, 0);
    }
    let d0 = char_digit(s[i]);
    let d1 = char_digit(s[i + 1]);
    assert(0 <= d0 <= 9 && 0 <= d1 <= 9);
    assert((10 * d0 + d1) / 10 == d0 && (10 * d0 + d1) % 10 == d1) by (nonlinear_arith)
        requires
            0 <= d0 <= 9 && 0 <= d1 <= 9,
    ;
    assert(((48 + d0) as u8) as char == s[i]) by {
        assert(48 <= s[i] as int <= 57);
    }
    assert(dw_info_concat(
        info.underlying_symbol@,
        info.broker_id as int,
        info.side,
        info.expire_yymm@,
        info.series,
    ) =~= s);
}

/// A located leftmost match is a match.
proof fn lemma_first_sym_match_hit(s: Seq<char>, i: int)
    requires
        first_sym_match_from(s, i) is Some,
    ensures
        sym_match_at(s, first_sym_match_from(s, i).unwrap()),
        first_sym_match_from(s, i).unwrap() >= i,
    decreases s.len() - i + 1,
{
    if i + 7 > s.len() {
    } else if sym_match_at(s, i) {
    } else {
        lemma_first_sym_match_hit(s, i + 1);
    }
}

} // verus!
