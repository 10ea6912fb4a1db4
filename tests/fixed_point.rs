use tick_columnar::fixed_point::{
    parse_signed, parse_unsigned, FixedPointError, Price, Quantity, MAX_PRECISION,
};

#[test]
fn quote_price_decodes_and_reencodes() {
    let bid = Price::from_raw(123450, 5);
    assert_eq!(bid.to_text(), "1.23450");
    assert_eq!(Price::from_text(b"1.23450", 5), Ok(Price::from_raw(123450, 5)));
}

#[test]
fn precision_is_part_of_the_text() {
    let p5 = Price::from_raw(123450, 5).to_text();
    let p4 = Price::from_raw(123450, 4).to_text();
    assert_eq!(p4, "12.3450");
    assert_ne!(p5, p4);
    assert_ne!(Price::from_raw(0, 0).to_text(), Price::from_raw(0, 1).to_text());
    assert_ne!(Price::from_raw(123450, 5), Price::from_raw(1234500, 6));
}

#[test]
fn price_text_forms() {
    assert_eq!(Price::from_raw(-5, 2).to_text(), "-0.05");
    assert_eq!(Price::from_raw(42, 0).to_text(), "42");
    assert_eq!(Price::from_raw(0, 3).to_text(), "0.000");
    assert_eq!(Price::from_raw(i64::MIN, 0).to_text(), "-9223372036854775808");
    assert_eq!(Price::from_raw(i64::MAX, 18).to_text(), "9.223372036854775807");
    assert_eq!(Quantity::from_raw(100000, 0).to_text(), "100000");
    assert_eq!(Quantity::from_raw(u64::MAX, 2).to_text(), "184467440737095516.15");
}

#[test]
fn price_reads_with_padding_and_sign() {
    assert_eq!(parse_signed(b"1.5", 3), Ok(1500));
    assert_eq!(parse_signed(b"-0.05", 2), Ok(-5));
    assert_eq!(parse_signed(b"7", 0), Ok(7));
    assert_eq!(parse_signed(b"-9223372036854775808", 0), Ok(i64::MIN));
    assert_eq!(parse_unsigned(b"18446744073709551615", 0), Ok(u64::MAX));
    assert_eq!(parse_unsigned(b"0.000000000000000001", MAX_PRECISION), Ok(1));
}

#[test]
fn malformed_text_is_rejected() {
    let cases: [&[u8]; 9] = [b"", b"1.2.3", b".5", b"5.", b"-", b"1a", b"+1", b" 1", b"1.234"];
    for t in cases {
        assert_eq!(parse_signed(t, 2), Err(FixedPointError::Malformed));
    }
    assert_eq!(parse_unsigned(b"-1", 2), Err(FixedPointError::Malformed));
    assert_eq!(Quantity::from_text(b"1.5", 0), Err(FixedPointError::Malformed));
}

#[test]
fn out_of_range_text_is_rejected() {
    assert_eq!(parse_signed(b"9223372036854775808", 0), Err(FixedPointError::OutOfRange));
    assert_eq!(parse_signed(b"-9223372036854775809", 0), Err(FixedPointError::OutOfRange));
    assert_eq!(parse_unsigned(b"18446744073709551616", 0), Err(FixedPointError::OutOfRange));
    assert_eq!(parse_unsigned(b"20", 18), Err(FixedPointError::OutOfRange));
    assert_eq!(Price::from_text(b"10", 18), Err(FixedPointError::OutOfRange));
}

#[test]
fn text_round_trips_at_its_precision() {
    for (raw, p) in [(0i64, 0u8), (1, 1), (-1, 1), (123450, 5), (-98765, 18), (i64::MAX, 0)] {
        let text = Price::from_raw(raw, p).to_text();
        assert_eq!(Price::from_text(text.as_bytes(), p), Ok(Price::from_raw(raw, p)));
    }
    let q = Quantity::from_raw(250, 2);
    assert_eq!(Quantity::from_text(q.to_text().as_bytes(), 2), Ok(q));
}
