use fcv_converter::number::write_number;
use fcv_converter::text::pad_text;

fn standard(bits: u32) -> String {
    format!("{:.6}", f32::from_bits(bits))
}

fn written(value: f32) -> String {
    write_number(value.to_bits())
}

#[test]
fn one_and_a_half_is_written_with_six_digits() {
    assert_eq!(write_number(0x3fc0_0000), "1.500000");
    assert_eq!(written(1.5), "1.500000");
    assert_eq!(pad_text(&written(1.5)), "1.500000");
}

#[test]
fn a_long_whole_part_is_written_in_full() {
    let nearest = 123456789.25f32;
    assert_eq!(nearest.to_bits(), 0x4ceb_79a3);
    assert_eq!(write_number(0x4ceb_79a3), "123456792.000000");
    assert_eq!(pad_text(&write_number(0x4ceb_79a3)), "123456792.000000");
    assert_eq!(written(9000000.0), "9000000.000000");
    assert_eq!(written(16777216.0), "16777216.000000");
}

#[test]
fn common_values_are_written_as_expected() {
    assert_eq!(written(0.0), "0.000000");
    assert_eq!(written(0.75), "0.750000");
    assert_eq!(written(1.0), "1.000000");
    assert_eq!(written(-3.25), "-3.250000");
    assert_eq!(written(0.1), "0.100000");
    assert_eq!(written(0.3), "0.300000");
    assert_eq!(written(100.0), "100.000000");
    assert_eq!(written(1.25), "1.250000");
    assert_eq!(written(0.000001), "0.000001");
    assert_eq!(written(0.0000004), "0.000000");
    assert_eq!(written(0.0000006), "0.000001");
    assert_eq!(written(0.9999999), "1.000000");
    assert_eq!(written(999999.94), "999999.937500");
}

#[test]
fn a_zero_keeps_its_sign() {
    assert_eq!(write_number(0x0000_0000), "0.000000");
    assert_eq!(write_number(0x8000_0000), "-0.000000");
    assert_eq!(written(-0.0000001), "-0.000000");
}

#[test]
fn what_is_no_finite_number_is_written_in_letters() {
    assert_eq!(write_number(0x7f80_0000), "inf");
    assert_eq!(write_number(0xff80_0000), "-inf");
    assert_eq!(write_number(0x7fc0_0000), "NaN");
    assert_eq!(write_number(0xffc0_0000), "NaN");
    assert_eq!(write_number(0x7f80_0001), "NaN");
    assert_eq!(write_number(0xffff_ffff), "NaN");
    assert_eq!(pad_text(&write_number(0x7f80_0000)), "inf00000");
    assert_eq!(pad_text(&write_number(0xff80_0000)), "-inf0000");
    assert_eq!(pad_text(&write_number(0x7fc0_0000)), "NaN00000");
}

#[test]
fn the_ends_of_the_range_are_written() {
    assert_eq!(write_number(0x7f7f_ffff), "340282346638528859811704183484516925440.000000");
    assert_eq!(write_number(0xff7f_ffff), "-340282346638528859811704183484516925440.000000");
    assert_eq!(write_number(0x0000_0001), "0.000000");
    assert_eq!(write_number(0x007f_ffff), "0.000000");
    assert_eq!(write_number(0x0080_0000), "0.000000");
    assert_eq!(write_number(0x4b00_0000), "8388608.000000");
    assert_eq!(write_number(0x4b7f_ffff), "16777215.000000");
    assert_eq!(write_number(0x4aff_ffff), "8388607.500000");
}

#[test]
fn a_half_is_rounded_to_the_even_digit() {
    assert_eq!(written(0.0078125), "0.007812");
    assert_eq!(written(0.0234375), "0.023438");
    assert_eq!(written(-0.0078125), "-0.007812");
    assert_eq!(written(-0.0234375), "-0.023438");
    assert_eq!(written(0.5), "0.500000");
    assert_eq!(written(0.0000305175781250), "0.000031");
    assert_eq!(written(1.0000305175781250), "1.000031");
}

#[test]
fn the_digits_behind_the_point_keep_their_zeros() {
    assert_eq!(written(2.000007), "2.000007");
    assert_eq!(written(3.0625), "3.062500");
    assert_eq!(written(0.120340), "0.120340");
    assert_eq!(written(1024.0), "1024.000000");
}

#[test]
fn every_exponent_is_written_as_the_standard_library_writes_it() {
    for exponent in 0..256u32 {
        for fraction in [0u32, 1, 2, 3, 0x40_0000, 0x40_0001, 0x7f_ffff, 0x7f_fffe, 0x12_3456, 0x55_5555, 0x2a_aaaa] {
            for sign in [0u32, 0x8000_0000] {
                let bits = sign + exponent * 0x80_0000 + fraction;
                assert_eq!(write_number(bits), standard(bits), "{:#010x}", bits);
            }
        }
    }
}

#[test]
fn halves_are_written_as_the_standard_library_writes_them() {
    for k in 0..10000u32 {
        let value = (k as f32) / 128.0;
        assert_eq!(written(value), format!("{:.6}", value), "{}", value);
        assert_eq!(written(-value), format!("{:.6}", -value), "{}", value);
        let small = (k as f32) / 256.0;
        assert_eq!(written(small), format!("{:.6}", small), "{}", small);
    }
}

#[test]
fn many_numbers_are_written_as_the_standard_library_writes_them() {
    let mut bits: u32 = 12345;
    for _ in 0..100000 {
        bits = bits.wrapping_mul(1664525).wrapping_add(1013904223);
        let text = write_number(bits);
        assert_eq!(text, standard(bits), "{:#010x}", bits);
        assert!(text.len() >= 8 || !f32::from_bits(bits).is_finite(), "{:#010x}", bits);
    }
}

#[test]
fn texts_with_a_few_decimals_are_written_as_the_standard_library_writes_them() {
    for whole in 0..300u32 {
        for part in 0..100u32 {
            let text = format!("{}.{:02}", whole, part);
            let value: f32 = text.parse().unwrap();
            assert_eq!(written(value), format!("{:.6}", value), "{}", text);
        }
    }
}
