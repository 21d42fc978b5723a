use fcv_converter::number::write_number;
use fcv_converter::reading::read_number;

fn agrees(text: &str) {
    let expected = text.parse::<f32>().ok();
    let read = read_number(text);
    match (expected, read) {
        (None, None) => {},
        (Some(number), Some(bits)) => {
            if number.is_nan() {
                assert!(f32::from_bits(bits).is_nan(), "{:?}", text);
                assert_eq!(bits >> 31 == 1, number.is_sign_negative(), "{:?}", text);
            } else {
                assert_eq!(bits, number.to_bits(), "{:?}: {:?} and {:?}", text, number, f32::from_bits(bits));
            }
        },
        (number, bits) => panic!("{:?}: {:?} and {:?}", text, number, bits),
    }
}

#[test]
fn common_numbers_are_read() {
    assert_eq!(read_number("1.5"), Some(0x3fc0_0000));
    assert_eq!(read_number("0.75"), Some(0.75f32.to_bits()));
    assert_eq!(read_number("0"), Some(0));
    assert_eq!(read_number("-0"), Some(0x8000_0000));
    assert_eq!(read_number("+2"), Some(2.0f32.to_bits()));
    assert_eq!(read_number("-3.25"), Some((-3.25f32).to_bits()));
    assert_eq!(read_number("1e3"), Some(1000.0f32.to_bits()));
    assert_eq!(read_number("1E-3"), Some(0.001f32.to_bits()));
    assert_eq!(read_number(".5"), Some(0.5f32.to_bits()));
    assert_eq!(read_number("5."), Some(5.0f32.to_bits()));
    assert_eq!(read_number("123456789.25"), Some(0x4ceb_79a3));
    assert_eq!(read_number("0.1"), Some(0x3dcc_cccd));
}

#[test]
fn words_are_read_in_either_case() {
    assert_eq!(read_number("inf"), Some(0x7f80_0000));
    assert_eq!(read_number("-inf"), Some(0xff80_0000));
    assert_eq!(read_number("+Infinity"), Some(0x7f80_0000));
    assert_eq!(read_number("INFINITY"), Some(0x7f80_0000));
    assert_eq!(read_number("nan"), Some(0x7fc0_0000));
    assert_eq!(read_number("NaN"), Some(0x7fc0_0000));
    assert_eq!(read_number("-nan"), Some(0xffc0_0000));
    assert_eq!(read_number("infinit"), None);
    assert_eq!(read_number("infinityy"), None);
    assert_eq!(read_number("na"), None);
    assert_eq!(read_number("ınf"), None);
}

#[test]
fn what_writes_no_number_is_not_read() {
    for text in ["", "+", "-", ".", "+.", "e5", ".e5", "1e", "1e+", "1e-", "1.5.5", "1e5.0", "1e5e5", " 1", "1 ", "1_0", "0x10", "1f", "strong", "1,5", "--1", "+-1", "１", "1e٣", "٣", "1\u{0}", "é", "1.5é"] {
        assert_eq!(read_number(text), None, "{:?}", text);
        agrees(text);
    }
}

#[test]
fn written_texts_are_read_as_the_standard_library_reads_them() {
    for text in [
        "1.e5", "1.", ".5", "+.5", "-.5e1", "5", "0", "-0", "+0", "0.0", "000", "-000.000e-5", "inf", "INF",
        "Infinity", "infinity", "INFINITY", "nan", "NaN", "NAN", "-nan", "+nan", "+inf", "-inf",
        "-Infinity", "0.75", "1.5", "123456789.25", "16777216", "16777217", "16777218", "16777219", "0.1",
        "0.2", "0.3", "1e38", "3.4028235e38", "3.4028236e38", "3.40282357e38", "3.4028235677973366e38",
        "3.40282356779733661637539395458142568448e38", "3.40282356779733661637539395458142568447e38",
        "3.4028234664e38", "1e39", "1e40", "1e-45", "1.4e-45", "0.7e-45",
        "0.70064923216240853546186479164495806564013097093825788587853914e-45",
        "0.70064923216240853546186479164495806564013097093825788587853915e-45",
        "7.0064923216240853546e-46", "7.0064923216240853547e-46", "1e-46", "1e-50", "1e-400", "1e400",
        "1e99999999999999999999999", "1e-99999999999999999999999", "0e99999999999999999999999",
        "0e-99999999999999999999999", "1e1000000000000000000000000000000", "1e-1000000000000000000000000000000",
        "1e999999999999999999999999999999", "1e-999999999999999999999999999999",
        "0.0000000000000000000000000000000000000000000000000000000000000000001e67",
        "1000000000000000000000000000000000000000000000000000000000000e-60", "1.17549435e-38",
        "1.17549428e-38", "1.1754942e-38", "5.877471754111438e-39", "8388608.5", "8388609.5", "8388607.5",
        "0.5", "0.25", "4e0", "4E0", "4e+0", "4E-0", "00001.5000", "1e0000000000000000005",
        "1e-0000000000000000005", "9007199254740993", "340282366920938463463374607431768211456",
        "340282346638528859811704183484516925440", "340282356779733661637539395458142568448",
        "340282356779733661637539395458142568447.99999", "1e38", "1e37", "9.999999e37", "1e-37", "1e-38", "1e-39",
        "1e-44", "2e-45", "3e-45",
    ] {
        agrees(text);
    }
}

#[test]
fn long_texts_are_read() {
    let mut zeros = String::from("0.");
    for _ in 0..5000 {
        zeros.push('0');
    }
    zeros.push('7');
    agrees(&zeros);
    agrees(&format!("{}e5000", zeros));
    agrees(&format!("{}e5001", zeros));
    agrees(&format!("{}e4960", zeros));
    let mut nines = String::new();
    for _ in 0..3000 {
        nines.push('9');
    }
    agrees(&nines);
    agrees(&format!("{}e-2990", nines));
    agrees(&format!("{}e-3000", nines));
    agrees(&format!("{}e-3040", nines));
    agrees(&format!("16777217.{}", nines));
    agrees(&format!("16777216.{}", nines));
    agrees(&format!("16777217.000{}1", zeros));
}

#[test]
fn written_numbers_are_read_back() {
    let mut x: u64 = 987654321;
    for _ in 0..10000 {
        x ^= x << 13;
        x ^= x >> 7;
        x ^= x << 17;
        let bits = x as u32;
        let number = f32::from_bits(bits);
        if !number.is_finite() {
            continue;
        }
        agrees(&format!("{}", number));
        agrees(&format!("{:e}", number));
        agrees(&format!("{:.3}", number));
        agrees(&format!("{:.10e}", number));
        assert_eq!(read_number(&format!("{}", number)), Some(bits));
        assert_eq!(read_number(&format!("{:e}", number)), Some(bits));
    }
}

#[test]
fn numbers_half_way_between_two_are_read_as_the_even_one() {
    let mut x: u64 = 13;
    for _ in 0..3000 {
        x ^= x << 13;
        x ^= x >> 7;
        x ^= x << 17;
        let bits = (x as u32) & 0x7fff_ffff;
        let lower = f32::from_bits(bits);
        let upper = f32::from_bits(bits + 1);
        if !upper.is_finite() {
            continue;
        }
        let middle = (lower as f64 + upper as f64) / 2.0;
        let exact = format!("{:.180}", middle);
        let expected = if bits % 2 == 0 { bits } else { bits + 1 };
        assert_eq!(read_number(&exact), Some(expected), "{}", exact);
        assert_eq!(read_number(&format!("{}1", exact)), Some(bits + 1), "{}", exact);
        agrees(&exact);
        agrees(&format!("{:.160e}", middle));
        agrees(&format!("-{}", exact));
    }
}

#[test]
fn digits_at_random_are_read_as_the_standard_library_reads_them() {
    let mut x: u64 = 424242;
    let mut next = move || {
        x ^= x << 13;
        x ^= x >> 7;
        x ^= x << 17;
        x
    };
    for _ in 0..20000 {
        let mut text = String::new();
        match next() % 6 {
            0 => text.push('-'),
            1 => text.push('+'),
            _ => {},
        }
        for _ in 0..next() % 12 {
            text.push((b'0' + (next() % 10) as u8) as char);
        }
        if next() % 3 != 0 {
            text.push('.');
            for _ in 0..next() % 12 {
                text.push((b'0' + (next() % 10) as u8) as char);
            }
        }
        if next() % 2 == 0 {
            text.push(if next() % 2 == 0 { 'e' } else { 'E' });
            let power = (next() % 120) as i64 - 60;
            if power >= 0 && next() % 2 == 0 {
                text.push('+');
            }
            text.push_str(&power.to_string());
        }
        agrees(&text);
    }
}

#[test]
fn a_number_read_and_written_has_six_digits() {
    assert_eq!(write_number(read_number("1.5").unwrap()), "1.500000");
    assert_eq!(write_number(read_number("0.75").unwrap()), "0.750000");
    assert_eq!(write_number(read_number("123456789.25").unwrap()), "123456792.000000");
    assert_eq!(write_number(read_number("-1e-7").unwrap()), "-0.000000");
    assert_eq!(write_number(read_number("1e40").unwrap()), "inf");
    assert_eq!(write_number(read_number("-NaN").unwrap()), "NaN");
    for text in ["0.1", "0.2", "2.5", "100", "3.14159265", "1e-3", "65504", "0.333333333"] {
        let expected = format!("{:.6}", text.parse::<f32>().unwrap());
        assert_eq!(write_number(read_number(text).unwrap()), expected);
    }
}

#[test]
fn the_size_of_a_number_written_in_full_is_read_as_the_number() {
    let mut x: u64 = 77;
    for _ in 0..4000 {
        x ^= x << 13;
        x ^= x >> 7;
        x ^= x << 17;
        let bits = (x as u32) & 0x7fff_ffff;
        let number = f32::from_bits(bits);
        if !number.is_finite() {
            continue;
        }
        let in_full = format!("{:.160}", number);
        assert_eq!(read_number(&in_full), Some(bits), "{}", in_full);
        assert_eq!(read_number(&format!("-{}", in_full)), Some(bits + 0x8000_0000), "{}", in_full);
    }
    for bits in [0u32, 1, 2, 0x007f_ffff, 0x0080_0000, 0x0080_0001, 0x3f80_0000, 0x7f7f_ffff] {
        let in_full = format!("{:.160}", f32::from_bits(bits));
        assert_eq!(read_number(&in_full), Some(bits), "{}", in_full);
    }
}
