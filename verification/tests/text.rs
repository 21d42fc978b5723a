use fcv_converter::text::{decimal_text, first_field_text, pad_text, read_unsigned, text_is};

#[test]
fn numbers_are_read_as_the_standard_library_reads_them() {
    let texts = [
        "0", "1", "9", "10", "99", "100", "250", "007", "000", "4294967295", "4294967296",
        "42949672950", "99999999999999999999999999", "+5", "+0", "+4294967295", "+4294967296",
        "", "+", "-", "-0", "-5", "++5", "+-5", " 5", "5 ", "5a", "a5", "1.5", "1e3", "0x10",
        "１２", "٣", "5\n", "1_000", "+", "00000000000000000000000000000000001",
    ];
    for text in texts {
        assert_eq!(read_unsigned(text), text.parse::<u32>().ok(), "{:?}", text);
    }
}

#[test]
fn a_number_is_read_exactly() {
    assert_eq!(read_unsigned("250"), Some(250));
    assert_eq!(read_unsigned("+17"), Some(17));
    assert_eq!(read_unsigned("4294967295"), Some(u32::MAX));
    assert_eq!(read_unsigned("4294967296"), None);
    assert_eq!(read_unsigned(""), None);
    assert_eq!(read_unsigned("12x"), None);
}

#[test]
fn numbers_are_written_in_decimal_digits() {
    assert_eq!(decimal_text(0), "0");
    assert_eq!(decimal_text(7), "7");
    assert_eq!(decimal_text(10), "10");
    assert_eq!(decimal_text(1234567890), "1234567890");
    assert_eq!(decimal_text(18446744073709551615), "18446744073709551615");
    assert_eq!(decimal_text(u128::MAX), "340282366920938463463374607431768211455");
    for n in [1u128, 9, 11, 99, 100, 101, 4294967295, 4294967296] {
        assert_eq!(decimal_text(n), n.to_string());
    }
}

#[test]
fn the_first_field_ends_before_the_first_comma() {
    assert_eq!(first_field_text("0.75,ignored"), "0.75");
    assert_eq!(first_field_text("0.75"), "0.75");
    assert_eq!(first_field_text(""), "");
    assert_eq!(first_field_text(",1"), "");
    assert_eq!(first_field_text("1,2,3"), "1");
    assert_eq!(first_field_text("é,ü"), "é");
    for text in ["a,b", "ab", ",", ",,", "a,", "日本,語"] {
        assert_eq!(first_field_text(text), text.split(',').next().unwrap());
    }
}

#[test]
fn short_texts_are_filled_up_with_zeros() {
    assert_eq!(pad_text(""), "00000000");
    assert_eq!(pad_text("1.5"), "1.500000");
    assert_eq!(pad_text("inf"), "inf00000");
    assert_eq!(pad_text("1234567"), "12345670");
    assert_eq!(pad_text("é"), "é0000000");
    for text in ["", "a", "NaN", "-inf", "1234567", "12345678", "123456789"] {
        assert_eq!(pad_text(text), format!("{:0<8}", text));
    }
}

#[test]
fn wide_texts_are_left_as_they_are() {
    assert_eq!(pad_text("1.500000"), "1.500000");
    assert_eq!(pad_text("123456789.250000"), "123456789.250000");
    assert_eq!(pad_text("9000000.000000"), "9000000.000000");
}

#[test]
fn texts_are_compared_letter_by_letter() {
    assert!(text_is("frame", "frame"));
    assert!(!text_is("frame", "Frame"));
    assert!(!text_is("frame", "frames"));
    assert!(!text_is("", "frame"));
    assert!(text_is("", ""));
}

