use settrade_dw::calendar::WorkingDate;
use settrade_dw::instrument::dw::{DWInfo, DWPriceTable, DWSide, Error};

fn date() -> WorkingDate {
    WorkingDate { year: 2020, month: 12, day: 23 }
}

#[test]
#[allow(non_snake_case)]
fn givenUnknownSymbol_whenGetPriceTable_thenGotErr() {
    let dw_info = DWInfo {
        symbol: "XX00C3333Z".to_owned(),
        underlying_symbol: "XX".to_owned(),
        broker_id: 0,
        side: DWSide::C,
        expire_yymm: *b"3333",
        series: 'Z',
    };
    let price_table = DWInfo::get_underlying_dw_price_table(&dw_info, b"", &date());
    assert!(price_table.is_err());
    assert_eq!(
        price_table,
        Err(Error::UnsupportedDWTableScraping { broker_id: 0 })
    );
}

#[test]
fn broker_13_routes_to_the_html_extractor() {
    let info = DWInfo::from_str("AAA13P0000A").unwrap();
    let out = DWInfo::get_underlying_dw_price_table(&info, b"no table", &date());
    assert_eq!(
        out,
        Err(Error::DataNotFound {
            symbol: "AAA13P0000A".to_owned(),
            info: Some("Failed to extract underlying-derivative price table".to_owned()),
        })
    );
}

#[test]
fn broker_28_routes_to_the_live_matrix_extractor() {
    let info = DWInfo::from_str("S5028P2109A").unwrap();
    let out = DWInfo::get_underlying_dw_price_table(&info, b"{}", &date());
    assert_eq!(out, Ok(std::collections::HashMap::new()));
}
