use settrade_dw::calendar::WorkingDate;
use settrade_dw::dw06::DW06;
use settrade_dw::instrument::dw::{DWInfo, DWPriceTable};

fn date() -> WorkingDate {
    WorkingDate { year: 2024, month: 7, day: 4 }
}

#[test]
fn bid_rows_map_each_underlying_to_its_five_tiers() {
    let content = "{\"ResponseCode\":0,\"Data\":{\"DWCode\":\"DW06C2408F\",\"DwPriceMatrixTable\":{\"BidRows\":[{\"UnderlyBidOffer\":1645.00,\"BidT1\":0.01,\"BidT2\":0.02,\"BidT3\":null,\"BidT4\":0.04,\"BidT5\":0.05},{\"UnderlyBidOffer\":1647.50,\"BidT1\":0.02,\"BidT2\":0.03,\"BidT3\":null,\"BidT4\":null,\"BidT5\":null}]}}}";
    let info = DWInfo::from_str("DW06C2408F").unwrap();
    let table = DW06::get_underlying_dw_price_table(&info, content.as_bytes(), &date()).unwrap();
    assert_eq!(table.len(), 2);
    assert_eq!(
        table.get(&164500),
        Some(&vec![
            b"0.01".to_vec(),
            b"0.02".to_vec(),
            b"0".to_vec(),
            b"0.04".to_vec(),
            b"0.05".to_vec(),
        ])
    );
    assert_eq!(
        table.get(&164750),
        Some(&vec![
            b"0.02".to_vec(),
            b"0.03".to_vec(),
            b"0".to_vec(),
            b"0".to_vec(),
            b"0".to_vec(),
        ])
    );
}

#[test]
fn null_data_is_an_empty_success() {
    let content = "{\"ResponseCode\":1,\"Data\":null}";
    let info = DWInfo::from_str("XX06C0000X").unwrap();
    let table = DW06::get_underlying_dw_price_table(&info, content.as_bytes(), &date()).unwrap();
    assert_eq!(table.len(), 0);
}

#[test]
fn a_row_with_an_unreadable_underlying_is_skipped() {
    let content = "{\"Data\":{\"DwPriceMatrixTable\":{\"BidRows\":[{\"UnderlyBidOffer\":null,\"BidT1\":0.01,\"BidT2\":0.02,\"BidT3\":0.03,\"BidT4\":0.04,\"BidT5\":0.05},{\"UnderlyBidOffer\":1650.00,\"BidT1\":0.06,\"BidT2\":0.07,\"BidT3\":0.08,\"BidT4\":0.09,\"BidT5\":0.10}]}}}";
    let info = DWInfo::from_str("DW06C2408F").unwrap();
    let table = DW06::get_underlying_dw_price_table(&info, content.as_bytes(), &date()).unwrap();
    assert_eq!(table.len(), 1);
    assert!(table.contains_key(&165000));
}
