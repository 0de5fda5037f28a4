use settrade_dw::calendar::WorkingDate;
use settrade_dw::dw13::DW13;
use settrade_dw::instrument::dw::{DWInfo, DWPriceTable, Error};

fn page(rows: &str) -> String {
    format!(
        "<html><body><table id=\"MainContent_gvIndicative\">{}</table></body></html>",
        rows
    )
}

fn date() -> WorkingDate {
    WorkingDate { year: 2020, month: 12, day: 16 }
}

#[test]
fn html_table_selects_the_matching_date_column() {
    // Two date columns; the second matches the working date, so only the
    // second column's prices may be read.
    let html = page(
        "<tr><th>Underlying</th></tr>\
         <tr><td> 15-Dec-20 </td><td> 16-Dec-20 </td></tr>\
         <tr><td> 905.50 </td><td> 0.10 </td><td> 0.20 </td></tr>\
         <tr><td> 906.00 </td><td> 0.11 </td><td> 0.21 </td></tr>",
    );
    let info = DWInfo::from_str("AAA13P0000A").unwrap();
    let out = DW13::get_underlying_dw_price_table(&info, html.as_bytes(), &date());
    let table = out.unwrap();
    assert_eq!(table.len(), 2);
    assert_eq!(table.get(&90550), Some(&vec![b"0.20".to_vec()]));
    assert_eq!(table.get(&90600), Some(&vec![b"0.21".to_vec()]));
}

#[test]
fn html_table_uses_first_column_when_date_is_absent() {
    let html = page(
        "<tr><th>Underlying</th></tr>\
         <tr><td> 14-Dec-20 </td><td> 15-Dec-20 </td></tr>\
         <tr><td> 905.50 </td><td> 0.10 </td><td> 0.20 </td></tr>",
    );
    let info = DWInfo::from_str("AAA13P0000A").unwrap();
    let table = DW13::get_underlying_dw_price_table(&info, html.as_bytes(), &date()).unwrap();
    assert_eq!(table.get(&90550), Some(&vec![b"0.10".to_vec(), b"0.20".to_vec()]));
}

#[test]
fn html_table_set50_call_steps_the_underlying_one_tick_down() {
    let html = page(
        "<tr><th>Underlying</th></tr>\
         <tr><td> 16-Dec-20 </td></tr>\
         <tr><td> 905.50 </td><td> 0.10 </td></tr>",
    );
    let info = DWInfo::from_str("S5013C2109A").unwrap();
    let table = DW13::get_underlying_dw_price_table(&info, html.as_bytes(), &date()).unwrap();
    // 90550 sits in the 200-step band, one tick down is 90350.
    assert_eq!(table.get(&90350), Some(&vec![b"0.10".to_vec()]));
    assert_eq!(table.get(&90550), None);
}

#[test]
fn html_table_skips_comma_separated_cells_for_the_underlying() {
    let html = page(
        "<tr><th>h</th></tr>\
         <tr><td> 16-Dec-20 </td></tr>\
         <tr><td> 1,234 </td><td> 905.50 </td><td> 0.10 </td></tr>",
    );
    let info = DWInfo::from_str("AAA13P0000A").unwrap();
    let table = DW13::get_underlying_dw_price_table(&info, html.as_bytes(), &date()).unwrap();
    assert_eq!(table.get(&90550), Some(&vec![b"0.10".to_vec()]));
}

#[test]
fn html_table_missing_is_data_not_found() {
    let html = "<html><body>no table here</body></html>";
    let info = DWInfo::from_str("AAA13P0000A").unwrap();
    let out = DW13::get_underlying_dw_price_table(&info, html.as_bytes(), &date());
    assert_eq!(
        out,
        Err(Error::DataNotFound {
            symbol: "AAA13P0000A".to_owned(),
            info: Some("Failed to extract underlying-derivative price table".to_owned()),
        })
    );
}

#[test]
fn html_table_with_no_extractable_rows_is_data_not_found() {
    // The marked table is present but no row yields an underlying price:
    // this is an error, not an empty success.
    let html = page("<tr><th>Underlying</th></tr><tr><td> 16-Dec-20 </td></tr>");
    let info = DWInfo::from_str("AAA13P0000A").unwrap();
    let out = DW13::get_underlying_dw_price_table(&info, html.as_bytes(), &date());
    assert_eq!(
        out,
        Err(Error::DataNotFound {
            symbol: "AAA13P0000A".to_owned(),
            info: Some("Found empty underlying-derivative price map".to_owned()),
        })
    );
}

#[test]
fn html_table_markers_ignore_ascii_case() {
    let html = "<html><TABLE Id = \"MAINCONTENT_GVINDICATIVE\">\
        <TR><th>h</th></TR>\
        <TR><td> 16-Dec-20 </td></TR>\
        <TR><td> 905.50 </td><td> 0.10 </td></TR>\
        </TABLE></html>";
    let info = DWInfo::from_str("AAA13P0000A").unwrap();
    let table = DW13::get_underlying_dw_price_table(&info, html.as_bytes(), &date()).unwrap();
    assert_eq!(table.get(&90550), Some(&vec![b"0.10".to_vec()]));
}
