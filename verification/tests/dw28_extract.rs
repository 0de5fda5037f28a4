use settrade_dw::calendar::WorkingDate;
use settrade_dw::dw28::DW28;
use settrade_dw::instrument::dw::{DWInfo, DWPriceTable, DWSide, Error};

fn date() -> WorkingDate {
    WorkingDate { year: 2020, month: 12, day: 23 }
}

#[test]
fn compressed_records_collapse_to_the_minimum_underlying_bid() {
    // Two daily records share the warrant bid 0.69 with different
    // underlying bids: one entry keyed by the lower underlying bid remains.
    let content = "{\"is_compressed\":\"true\",\"livematrix\":{\"2020-12-23\":[{\"underlying_bid\":\"905.5\",\"bid\":\"0.69\"},{\"underlying_bid\":\"905.0\",\"bid\":\"0.69\"},{\"underlying_bid\":\"904.5\",\"bid\":\"0.68\"}]}}";
    let info = DWInfo::from_str("S5028C2012D").unwrap();
    let table = DW28::get_underlying_dw_price_table(&info, content.as_bytes(), &date()).unwrap();
    assert_eq!(table.len(), 2);
    assert_eq!(table.get(&90500), Some(&vec![b"0.69".to_vec()]));
    assert_eq!(table.get(&90450), Some(&vec![b"0.68".to_vec()]));
}

#[test]
fn compressed_ignores_blocks_of_other_dates() {
    let content = "{\"is_compressed\":\"true\",\"livematrix\":{\"2020-12-22\":[{\"underlying_bid\":\"900.0\",\"bid\":\"0.50\"}],\"2020-12-23\":[{\"underlying_bid\":\"905.5\",\"bid\":\"0.69\"}]}}";
    let info = DWInfo::from_str("S5028C2012D").unwrap();
    let table = DW28::get_underlying_dw_price_table(&info, content.as_bytes(), &date()).unwrap();
    assert_eq!(table.len(), 1);
    assert_eq!(table.get(&90550), Some(&vec![b"0.69".to_vec()]));
}

#[test]
fn compressed_with_no_matching_date_is_an_empty_success() {
    let content = "{\"is_compressed\":\"true\",\"livematrix\":{\"2020-12-22\":[{\"underlying_bid\":\"900.0\",\"bid\":\"0.50\"}]}}";
    let info = DWInfo::from_str("S5028C2012D").unwrap();
    let table = DW28::get_underlying_dw_price_table(&info, content.as_bytes(), &date()).unwrap();
    assert!(table.is_empty());
}

#[test]
fn noncompressed_reads_the_working_date_labels() {
    let content = "{\"date_keys\":[\"22 Dec\",\"23 Dec\"],\"livematrix\":[{\"905.5\":{\"22 Dec\":\"0.70\",\"23 Dec\":\"0.69\"}},{\"906.0\":{\"22 Dec\":\"0.72\",\"23 Dec\":\"0.71\"}}]}";
    let info = DWInfo::from_str("ADVA28C2102L").unwrap();
    let table = DW28::get_underlying_dw_price_table(&info, content.as_bytes(), &date()).unwrap();
    assert_eq!(table.len(), 2);
    assert_eq!(table.get(&90550), Some(&vec![b"0.69".to_vec()]));
    assert_eq!(table.get(&90600), Some(&vec![b"0.71".to_vec()]));
}

#[test]
fn noncompressed_with_no_matching_label_is_an_empty_success() {
    // The non-compressed form permits an empty success, unlike the
    // HTML-table source.
    let content = "{\"livematrix\":[{\"905.5\":{\"22 Dec\":\"0.70\"}}]}";
    let info = DWInfo::from_str("ADVA28C2102L").unwrap();
    let table = DW28::get_underlying_dw_price_table(&info, content.as_bytes(), &date()).unwrap();
    assert!(table.is_empty());
}

#[test]
fn noncompressed_without_livematrix_is_an_empty_success() {
    let content = "{\"something\":\"else\"}";
    let info = DWInfo::from_str("ADVA28C2102L").unwrap();
    let table = DW28::get_underlying_dw_price_table(&info, content.as_bytes(), &date()).unwrap();
    assert!(table.is_empty());
}

#[test]
fn noncompressed_with_empty_livematrix_is_data_not_found() {
    let content = "{\"livematrix\":[]}";
    let info = DWInfo::from_str("ADVA28C2102L").unwrap();
    let out = DW28::get_underlying_dw_price_table(&info, content.as_bytes(), &date());
    assert_eq!(
        out,
        Err(Error::DataNotFound {
            symbol: "ADVA28C2102L".to_owned(),
            info: Some("Not found date in non-compressed livematrix".to_owned()),
        })
    );
}

#[test]
fn find_dw_ric_reads_the_instrument_list() {
    let list = "[{\"security_code\":\"AAAA28C2012A\",\"ric\":\"AAAA28C012A.BK\"},{\"security_code\":\"S5028C2012D\",\"ric\":\"S5028C012D.BK\"}]";
    assert_eq!(
        DW28::find_dw_ric(list.as_bytes(), "S5028C2012D"),
        Some(b"S5028C012D.BK".to_vec())
    );
    assert_eq!(DW28::find_dw_ric(list.as_bytes(), "ZZZZ28C2012A"), None);
}

#[test]
fn resolve_dw_ric_predicts_on_a_miss() {
    let list = "[]";
    let info = DWInfo::from_str("S5028C2012D").unwrap();
    assert_eq!(
        DW28::resolve_dw_ric(list.as_bytes(), &info),
        b"S5028C012.BK".to_vec()
    );
}

#[test]
fn test_get_predicted_dw_ric() {
    // random DWInfo
    let dw_info = DWInfo {
        symbol: "ABC11C2345A".to_owned(),
        underlying_symbol: "ABC".to_owned(),
        broker_id: 11,
        side: DWSide::C,
        expire_yymm: [0x32, 0x33, 0x34, 0x35],
        series: 'A',
    };
    assert_eq!(DW28::get_predicted_dw_ric(&dw_info), "ABC11C345.BK");

    // underlying_symbol based
    let dw_info = DWInfo {
        symbol: "ABC11C2345A".to_owned(),
        underlying_symbol: "XYZ".to_owned(),
        broker_id: 11,
        side: DWSide::C,
        expire_yymm: [0x32, 0x33, 0x34, 0x35],
        series: 'A',
    };
    assert_eq!(DW28::get_predicted_dw_ric(&dw_info), "XYZ11C345.BK");

    // broker_id
    let dw_info = DWInfo {
        symbol: "ABC11C2345A".to_owned(),
        underlying_symbol: "ABC".to_owned(),
        broker_id: 99,
        side: DWSide::C,
        expire_yymm: [0x32, 0x33, 0x34, 0x35],
        series: 'A',
    };
    assert_eq!(DW28::get_predicted_dw_ric(&dw_info), "ABC99C345.BK");

    // C type
    let dw_info = DWInfo {
        symbol: "ABC11C2345A".to_owned(),
        underlying_symbol: "ABC".to_owned(),
        broker_id: 11,
        side: DWSide::C,
        expire_yymm: [0x32, 0x33, 0x34, 0x35],
        series: 'A',
    };
    assert_eq!(DW28::get_predicted_dw_ric(&dw_info), "ABC11C345.BK");

    // P type
    let dw_info = DWInfo {
        symbol: "ABC11C2345A".to_owned(),
        underlying_symbol: "ABC".to_owned(),
        broker_id: 11,
        side: DWSide::P,
        expire_yymm: [0x32, 0x33, 0x34, 0x35],
        series: 'B',
    };
    assert_eq!(DW28::get_predicted_dw_ric(&dw_info), "ABC11P345.BK");

    // unknown type
    let dw_info = DWInfo {
        symbol: "ABC11C2345A".to_owned(),
        underlying_symbol: "ABC".to_owned(),
        broker_id: 11,
        side: DWSide::Unknown,
        expire_yymm: [0x32, 0x33, 0x34, 0x35],
        series: 'A',
    };
    assert_eq!(DW28::get_predicted_dw_ric(&dw_info), "ABC11.345.BK");

    // changed expiration Y_: no consequence
    let dw_info = DWInfo {
        symbol: "ABC11C2345A".to_owned(),
        underlying_symbol: "ABC".to_owned(),
        broker_id: 11,
        side: DWSide::C,
        expire_yymm: [0x50, 0x33, 0x34, 0x35],
        series: 'B',
    };
    assert_eq!(DW28::get_predicted_dw_ric(&dw_info), "ABC11C345.BK");

    // changed expiration _Y
    let dw_info = DWInfo {
        symbol: "ABC11C2345A".to_owned(),
        underlying_symbol: "ABC".to_owned(),
        broker_id: 11,
        side: DWSide::C,
        expire_yymm: [0x32, 0x39, 0x34, 0x35],
        series: 'B',
    };
    assert_eq!(DW28::get_predicted_dw_ric(&dw_info), "ABC11C945.BK");

    // changed expiration MM
    let dw_info = DWInfo {
        symbol: "ABC11C2345A".to_owned(),
        underlying_symbol: "ABC".to_owned(),
        broker_id: 11,
        side: DWSide::C,
        expire_yymm: [0x32, 0x33, 0x30, 0x30],
        series: 'B',
    };
    assert_eq!(DW28::get_predicted_dw_ric(&dw_info), "ABC11C300.BK");

    // changed series: no consequence
    let dw_info = DWInfo {
        symbol: "ABC11C2345A".to_owned(),
        underlying_symbol: "ABC".to_owned(),
        broker_id: 11,
        side: DWSide::C,
        expire_yymm: [0x32, 0x33, 0x34, 0x35],
        series: 'B',
    };
    assert_eq!(DW28::get_predicted_dw_ric(&dw_info), "ABC11C345.BK");
}

#[test]
fn compressed_marker_and_fields_ignore_ascii_case() {
    let content = "{\"IS_COMPRESSED\":\"TRUE\",\"livematrix\":{\"2020-12-23\":[{\"Underlying_Bid\":905.5,\"Bid\":0.69}]}}";
    let info = DWInfo::from_str("S5028C2012D").unwrap();
    let table = DW28::get_underlying_dw_price_table(&info, content.as_bytes(), &date()).unwrap();
    assert_eq!(table.len(), 1);
    assert_eq!(table.get(&90550), Some(&vec![b"0.69".to_vec()]));
}
