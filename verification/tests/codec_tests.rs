use color_transform::{decode_hex, encode_hex, pad_hex, Color, ColorError};

#[test]
fn hex_black_parses() {
    assert_eq!(
        Color::from_hex("#000000"),
        Ok(Color { r: 0, g: 0, b: 0, a: 255 })
    );
}

#[test]
fn hex_black_serializes() {
    let c = Color { r: 0, g: 0, b: 0, a: 255 };
    assert_eq!(c.to_hex(), "#000000ff");
}

#[test]
fn hex_three_digits_expand() {
    assert_eq!(
        Color::from_hex("#fff"),
        Ok(Color { r: 255, g: 255, b: 255, a: 255 })
    );
}

#[test]
fn hex_four_digits_expand() {
    assert_eq!(
        Color::from_hex("#1234"),
        Ok(Color { r: 0x11, g: 0x22, b: 0x33, a: 0x44 })
    );
}

#[test]
fn hex_uppercase_digits() {
    assert_eq!(
        Color::from_hex("#FFF"),
        Ok(Color { r: 255, g: 255, b: 255, a: 255 })
    );
}

#[test]
fn hex_eight_digits() {
    assert_eq!(
        Color::from_hex("#80ff0001"),
        Ok(Color { r: 128, g: 255, b: 0, a: 1 })
    );
}

#[test]
fn hex_whitespace_and_missing_hash_tolerated() {
    assert_eq!(
        Color::from_hex(" # a1b2c3 "),
        Ok(Color { r: 0xa1, g: 0xb2, b: 0xc3, a: 255 })
    );
    assert_eq!(
        Color::from_hex("a1b2c3"),
        Ok(Color { r: 0xa1, g: 0xb2, b: 0xc3, a: 255 })
    );
}

#[test]
fn hex_two_digits_is_error() {
    assert_eq!(Color::from_hex("#12"), Err(ColorError::MalformedHex));
}

#[test]
fn hex_five_digits_is_error() {
    assert_eq!(Color::from_hex("#12345"), Err(ColorError::MalformedHex));
}

#[test]
fn hex_stray_character_is_error() {
    assert_eq!(Color::from_hex("#gg1122"), Err(ColorError::MalformedHex));
}

#[test]
fn hex_round_trip_is_fixed_point() {
    let samples = [
        Color { r: 0, g: 0, b: 0, a: 255 },
        Color { r: 255, g: 255, b: 255, a: 255 },
        Color { r: 1, g: 2, b: 3, a: 255 },
        Color { r: 16, g: 160, b: 254, a: 255 },
        Color { r: 171, g: 205, b: 239, a: 7 },
    ];
    for c in samples {
        let once = c.to_hex();
        let back = Color::from_hex(&once).unwrap();
        assert_eq!(back, c);
        assert_eq!(back.to_hex(), once);
    }
}

#[test]
fn rgb_three_fields_parse() {
    assert_eq!(
        Color::from_rgb("rgb(255, 0, 128)"),
        Ok(Color { r: 255, g: 0, b: 128, a: 255 })
    );
}

#[test]
fn rgba_fraction_alpha_rounds_half_up() {
    assert_eq!(
        Color::from_rgb("rgba(255,0,128,0.5)"),
        Ok(Color { r: 255, g: 0, b: 128, a: 128 })
    );
}

#[test]
fn rgba_alpha_edge_values() {
    assert_eq!(
        Color::from_rgb("rgba(1,2,3,1)"),
        Ok(Color { r: 1, g: 2, b: 3, a: 255 })
    );
    assert_eq!(
        Color::from_rgb("rgba(1,2,3,0)"),
        Ok(Color { r: 1, g: 2, b: 3, a: 0 })
    );
    assert_eq!(
        Color::from_rgb("rgba(1,2,3,.5)"),
        Ok(Color { r: 1, g: 2, b: 3, a: 128 })
    );
    assert_eq!(
        Color::from_rgb("rgba(1,2,3,1.0)"),
        Ok(Color { r: 1, g: 2, b: 3, a: 255 })
    );
}

#[test]
fn rgb_too_few_fields_is_error() {
    assert_eq!(Color::from_rgb("rgb(1,2)"), Err(ColorError::MalformedRgb));
}

#[test]
fn rgb_too_many_fields_is_error() {
    assert_eq!(
        Color::from_rgb("rgb(1,2,3,0.5,9)"),
        Err(ColorError::MalformedRgb)
    );
}

#[test]
fn rgb_non_numeric_field_is_error() {
    assert_eq!(Color::from_rgb("rgb(a,2,3)"), Err(ColorError::MalformedRgb));
    assert_eq!(
        Color::from_rgb("rgba(1,2,3,)"),
        Err(ColorError::MalformedRgb)
    );
}

#[test]
fn rgb_channel_over_255_is_out_of_range() {
    assert_eq!(Color::from_rgb("rgb(300,0,0)"), Err(ColorError::OutOfRange));
}

#[test]
fn rgba_alpha_over_one_is_out_of_range() {
    assert_eq!(
        Color::from_rgb("rgba(1,2,3,1.5)"),
        Err(ColorError::OutOfRange)
    );
}

#[test]
fn rgba_serializes_with_fraction_alpha() {
    let c = Color { r: 255, g: 0, b: 128, a: 128 };
    assert_eq!(c.to_rgba(), "rgba(255, 0, 128, 0.502)");
    let opaque = Color { r: 255, g: 0, b: 128, a: 255 };
    assert_eq!(opaque.to_rgba(), "rgba(255, 0, 128, 1)");
    let clear = Color { r: 9, g: 99, b: 199, a: 0 };
    assert_eq!(clear.to_rgba(), "rgba(9, 99, 199, 0)");
}

#[test]
fn percent_parses_with_mandatory_alpha() {
    assert_eq!(
        Color::from_percent("%1,0,0.5,1"),
        Ok(Color { r: 255, g: 0, b: 128, a: 255 })
    );
}

#[test]
fn percent_with_spaces_parses() {
    assert_eq!(
        Color::from_percent("% 1, 0, 0.5, 1"),
        Ok(Color { r: 255, g: 0, b: 128, a: 255 })
    );
}

#[test]
fn percent_three_fields_is_error() {
    assert_eq!(
        Color::from_percent("%1,0,0.5"),
        Err(ColorError::MalformedPercent)
    );
}

#[test]
fn percent_five_fields_is_error() {
    assert_eq!(
        Color::from_percent("%1,0,0.5,1,0"),
        Err(ColorError::MalformedPercent)
    );
}

#[test]
fn percent_non_numeric_field_is_error() {
    assert_eq!(
        Color::from_percent("%1,0,x,1"),
        Err(ColorError::MalformedPercent)
    );
}

#[test]
fn percent_value_over_one_is_out_of_range() {
    assert_eq!(
        Color::from_percent("%2,0,0,1"),
        Err(ColorError::OutOfRange)
    );
    assert_eq!(
        Color::from_percent("%0.5,0.5,1.5,1"),
        Err(ColorError::OutOfRange)
    );
}

#[test]
fn percent_serializes_all_channels_as_fractions() {
    let c = Color { r: 255, g: 0, b: 128, a: 255 };
    assert_eq!(c.to_percent(), "% 1, 0, 0.502, 1");
    let trimmed = Color { r: 51, g: 51, b: 51, a: 51 };
    assert_eq!(trimmed.to_percent(), "% 0.2, 0.2, 0.2, 0.2");
}

#[test]
fn decode_hex_reads_byte_pairs() {
    assert_eq!(decode_hex("00ff"), Ok(vec![0, 255]));
    assert_eq!(decode_hex(""), Ok(vec![]));
    assert_eq!(decode_hex("0g"), Err(ColorError::MalformedHex));
    assert_eq!(decode_hex("abc"), Err(ColorError::MalformedHex));
}

#[test]
fn encode_hex_writes_lowercase_pairs() {
    assert_eq!(encode_hex(&[0, 255, 16]), "00ff10");
    assert_eq!(encode_hex(&[]), "");
}

#[test]
fn pad_hex_doubles_every_character() {
    assert_eq!(pad_hex("abc"), "aabbcc");
    assert_eq!(pad_hex(""), "");
    assert_eq!(pad_hex("1f"), "11ff");
}

#[test]
fn byte_to_fraction_is_monotonic() {
    let mut prev: u16 = 0;
    for b in 0..=255u8 {
        let m = color_transform::numeric::u8_to_milli(b);
        assert!(m >= prev);
        prev = m;
    }
}
