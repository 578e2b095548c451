use color_transform::{convert, parse_color, transform_color, Color, ColorError, Output};

#[test]
fn unrecognized_input_is_reported() {
    assert_eq!(parse_color("not a color"), Err(ColorError::UnrecognizedFormat));
    assert_eq!(parse_color(""), Err(ColorError::UnrecognizedFormat));
    assert_eq!(parse_color("hsl(1,2,3)"), Err(ColorError::UnrecognizedFormat));
}

#[test]
fn hex_shape_routes_to_hex_parser() {
    assert_eq!(
        parse_color("#fff"),
        Ok(Color { r: 255, g: 255, b: 255, a: 255 })
    );
    // the shape admits digit counts the parser then refuses
    assert_eq!(parse_color("#12345"), Err(ColorError::MalformedHex));
}

#[test]
fn rgb_shape_routes_to_rgb_parser() {
    assert_eq!(
        parse_color("rgb(1,2,3)"),
        Ok(Color { r: 1, g: 2, b: 3, a: 255 })
    );
    assert_eq!(
        parse_color("rgba(1, 2, 3, 0.5)"),
        Ok(Color { r: 1, g: 2, b: 3, a: 128 })
    );
}

#[test]
fn percent_shape_routes_to_percent_parser() {
    assert_eq!(
        parse_color("%0.1,0.2,0.3,1"),
        Ok(Color { r: 26, g: 51, b: 77, a: 255 })
    );
    // three fields have the shape, but the parser demands the alpha field
    assert_eq!(parse_color("%1,0,0.5"), Err(ColorError::MalformedPercent));
}

#[test]
fn transform_selects_the_notation() {
    let c = Color { r: 255, g: 255, b: 255, a: 255 };
    assert_eq!(transform_color(Output::Hex, c), "#ffffffff");
    assert_eq!(transform_color(Output::Rgb, c), "rgba(255, 255, 255, 1)");
    assert_eq!(transform_color(Output::Percent, c), "% 1, 1, 1, 1");
}

#[test]
fn convert_crosses_notations() {
    assert_eq!(convert("#fff", Output::Rgb), Ok("rgba(255, 255, 255, 1)".to_string()));
    assert_eq!(convert("rgb(0,0,0)", Output::Hex), Ok("#000000ff".to_string()));
    assert_eq!(convert("%1,0,0.5,1", Output::Hex), Ok("#ff0080ff".to_string()));
    assert_eq!(convert("#abc", Output::Percent), Ok("% 0.667, 0.733, 0.8, 1".to_string()));
    assert_eq!(convert("nope", Output::Hex), Err(ColorError::UnrecognizedFormat));
}

#[test]
fn error_messages_name_the_failure() {
    assert_eq!(
        ColorError::UnrecognizedFormat.message(),
        "input matches no color notation"
    );
    assert_eq!(ColorError::MalformedHex.message(), "malformed hexadecimal color");
    assert_eq!(ColorError::MalformedRgb.message(), "malformed rgb color");
    assert_eq!(ColorError::MalformedPercent.message(), "malformed percent color");
    assert_eq!(ColorError::OutOfRange.message(), "channel value out of range");
}
