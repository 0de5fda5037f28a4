use settrade_dw::instrument::dw::{DWInfo, DWSide};

fn expect_info(
    symbol: &str,
    underlying: &str,
    broker_id: u8,
    side: DWSide,
    expire: &[u8; 4],
    series: char,
) -> DWInfo {
    DWInfo {
        symbol: symbol.to_owned(),
        underlying_symbol: underlying.to_owned(),
        broker_id,
        side,
        expire_yymm: *expire,
        series,
    }
}

#[test]
#[allow(non_snake_case)]
fn givenPutDWSymbol_whenFromStr_thenGotSomeDWInfo() {
    assert_eq!(
        DWInfo::from_str("ABCD00P5678A"),
        Some(expect_info("ABCD00P5678A", "ABCD", 0, DWSide::P, b"5678", 'A'))
    );
}

#[test]
#[allow(non_snake_case)]
fn givenCallDWSymbol_whenFromStr_thenGotSomeDWInfo() {
    assert_eq!(
        DWInfo::from_str("VVVV00C5678A"),
        Some(expect_info("VVVV00C5678A", "VVVV", 0, DWSide::C, b"5678", 'A'))
    );
}

#[test]
#[allow(non_snake_case)]
fn givenDWSymbolWithShortName_whenFromStr_thenGotSomeDWInfo() {
    assert_eq!(
        DWInfo::from_str("CC00C2020A"),
        Some(expect_info("CC00C2020A", "CC", 0, DWSide::C, b"2020", 'A'))
    );
    assert_eq!(
        DWInfo::from_str("XX00C3333Z"),
        Some(expect_info("XX00C3333Z", "XX", 0, DWSide::C, b"3333", 'Z'))
    );
}

#[test]
#[allow(non_snake_case)]
fn givenUnknownDWType_whenFromStr_thenNone() {
    assert_eq!(DWInfo::from_str("AA00X5555Y"), None);
}

#[test]
#[allow(non_snake_case)]
fn givenTooLongBrokerIdSize_whenFromStr_thenDWInfoAsExceedingIdIsAPartOfUnderlyingSymbol() {
    assert_eq!(
        DWInfo::from_str("WW333C0000Z"),
        Some(expect_info("WW333C0000Z", "WW3", 33, DWSide::C, b"0000", 'Z'))
    );
}

#[test]
#[allow(non_snake_case)]
fn givenTooShortBrokerIdSize_whenFromStr_thenNone() {
    assert_eq!(DWInfo::from_str("WW1C0000Z"), None);
}

#[test]
#[allow(non_snake_case)]
fn givenNoBrokerIdSize_whenFromStr_thenNone() {
    assert_eq!(DWInfo::from_str("QQC0000Z"), None);
}

#[test]
#[allow(non_snake_case)]
fn givenNoUnderlyingPart_whenFromStr_thenNone() {
    assert_eq!(DWInfo::from_str("00C0000Z"), None);
}

#[test]
#[allow(non_snake_case)]
fn givenTooShortExpiryDateSize_whenFromStr_thenNone() {
    assert_eq!(DWInfo::from_str("EE00C123Z"), None);
}

#[test]
#[allow(non_snake_case)]
fn givenTooLongExpiryDateSize_whenFromStr_thenNone() {
    assert_eq!(DWInfo::from_str("EE00C12345Z"), None);
}

#[test]
fn from_str_round_trips_concretely() {
    for symbol in ["ABCD00P5678A", "S5013C2109A", "WW333C0000Z", "HSI28P2101C"] {
        let info = DWInfo::from_str(symbol).unwrap();
        let side = match info.side {
            DWSide::C => 'C',
            DWSide::P => 'P',
            DWSide::Unknown => '?',
        };
        let rebuilt = format!(
            "{}{:02}{}{}{}",
            info.underlying_symbol,
            info.broker_id,
            side,
            String::from_utf8(info.expire_yymm.to_vec()).unwrap(),
            info.series
        );
        assert_eq!(rebuilt, symbol);
    }
}

#[test]
fn from_str_rejects_text_after_series() {
    assert_eq!(DWInfo::from_str("AB00C1234AX"), None);
}

#[test]
fn from_str_rejects_missing_series() {
    assert_eq!(DWInfo::from_str("AB00C1234"), None);
}
