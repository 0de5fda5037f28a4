use settrade_dw::instrument::{to_int_price_text, to_lower_adjacent_price, to_upper_adjacent_price};

#[test]
fn test_to_lower_adjacent_price() {
    assert_eq!(to_lower_adjacent_price(190), 189);
    assert_eq!(to_lower_adjacent_price(200), 199);
    assert_eq!(to_lower_adjacent_price(202), 200);
    assert_eq!(to_lower_adjacent_price(398), 396);
    assert_eq!(to_lower_adjacent_price(400), 398);
    assert_eq!(to_lower_adjacent_price(402), 400);
    assert_eq!(to_lower_adjacent_price(498), 496);
    assert_eq!(to_lower_adjacent_price(500), 498);
    assert_eq!(to_lower_adjacent_price(505), 500);
    assert_eq!(to_lower_adjacent_price(1000), 995);
    assert_eq!(to_lower_adjacent_price(1010), 1000);
    assert_eq!(to_lower_adjacent_price(2500), 2490);
    assert_eq!(to_lower_adjacent_price(2525), 2500);
    assert_eq!(to_lower_adjacent_price(9975), 9950);
    assert_eq!(to_lower_adjacent_price(10000), 9975);
    assert_eq!(to_lower_adjacent_price(10050), 10000);
    assert_eq!(to_lower_adjacent_price(20000), 19950);
    assert_eq!(to_lower_adjacent_price(20100), 20000);
    assert_eq!(to_lower_adjacent_price(40000), 39900);
    assert_eq!(to_lower_adjacent_price(40200), 40000);
}

#[test]
fn test_to_upper_adjacent_price() {
    assert_eq!(to_upper_adjacent_price(190), 191);
    assert_eq!(to_upper_adjacent_price(199), 200);
    assert_eq!(to_upper_adjacent_price(200), 202);
    assert_eq!(to_upper_adjacent_price(396), 398);
    assert_eq!(to_upper_adjacent_price(398), 400);
    assert_eq!(to_upper_adjacent_price(400), 402);
    assert_eq!(to_upper_adjacent_price(496), 498);
    assert_eq!(to_upper_adjacent_price(498), 500);
    assert_eq!(to_upper_adjacent_price(500), 505);
    assert_eq!(to_upper_adjacent_price(995), 1000);
    assert_eq!(to_upper_adjacent_price(1000), 1010);
    assert_eq!(to_upper_adjacent_price(2490), 2500);
    assert_eq!(to_upper_adjacent_price(2500), 2525);
    assert_eq!(to_upper_adjacent_price(9950), 9975);
    assert_eq!(to_upper_adjacent_price(9975), 10000);
    assert_eq!(to_upper_adjacent_price(10000), 10050);
    assert_eq!(to_upper_adjacent_price(19950), 20000);
    assert_eq!(to_upper_adjacent_price(20000), 20100);
    assert_eq!(to_upper_adjacent_price(39900), 40000);
    assert_eq!(to_upper_adjacent_price(40000), 40200);
}

#[test]
fn test_to_int_price_text() {
    let f = "1.2345678";
    assert_eq!(to_int_price_text(f, 0), Some(1));
    assert_eq!(to_int_price_text(f, 1), Some(12));
    assert_eq!(to_int_price_text(f, 2), Some(123));
    assert_eq!(to_int_price_text(f, 3), Some(1235));
    assert_eq!(to_int_price_text(f, 4), Some(12346));
    assert_eq!(to_int_price_text(f, 5), Some(123457));
    assert_eq!(to_int_price_text(f, 6), Some(1234568));
    assert_eq!(to_int_price_text(f, 7), Some(12345678));
}

#[test]
fn test_to_int_price_text_edges() {
    assert_eq!(to_int_price_text("905.5", 2), Some(90550));
    assert_eq!(to_int_price_text("0.5", 0), Some(1));
    assert_eq!(to_int_price_text("0.4999", 0), Some(0));
    assert_eq!(to_int_price_text("26781", 2), Some(2678100));
    assert_eq!(to_int_price_text("7.", 2), Some(700));
    assert_eq!(to_int_price_text(".25", 2), Some(25));
    assert_eq!(to_int_price_text("1,234", 2), None);
    assert_eq!(to_int_price_text("1.2.3", 2), None);
    assert_eq!(to_int_price_text(".", 2), None);
    assert_eq!(to_int_price_text("", 2), None);
    assert_eq!(to_int_price_text("99999999999", 2), None);
}
