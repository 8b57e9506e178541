use srtb_integration::color::{ColorError, HslColor, RgbColor};

#[test]
fn hex_to_rgb() -> Result<(), ColorError> {
    let col = RgbColor::from_hex_str("#1f1e33")?;
    let expected_col = RgbColor::from_hex(0x1f1e33);
    assert_eq!(col, expected_col);

    Ok(())
}

#[test]
fn hex_without_hash_and_in_upper_case() {
    let col = RgbColor::from_hex_str("1F1E33").unwrap();
    assert_eq!(col, RgbColor { r: 0x1f, g: 0x1e, b: 0x33 });
}

#[test]
fn hex_of_wrong_length() {
    assert_eq!(RgbColor::from_hex_str("#fff"), Err(ColorError::InvalidSize(3)));
    assert_eq!(RgbColor::from_hex_str("##ffffff"), Err(ColorError::InvalidSize(7)));
    assert_eq!(RgbColor::from_hex_str(""), Err(ColorError::InvalidSize(0)));
}

#[test]
fn hex_length_counts_characters() {
    assert_eq!(RgbColor::from_hex_str("ééé"), Err(ColorError::InvalidSize(3)));
    assert_eq!(RgbColor::from_hex_str("#éééééé"), Err(ColorError::InvalidInteger));
}

#[test]
fn hex_with_bad_digits() {
    assert_eq!(RgbColor::from_hex_str("ghijkl"), Err(ColorError::InvalidInteger));
    assert_eq!(RgbColor::from_hex_str("#12345z"), Err(ColorError::InvalidInteger));
    assert_eq!(RgbColor::from_hex_str("-12345"), Err(ColorError::InvalidInteger));
}

#[test]
fn hex_with_plus_sign() {
    assert_eq!(RgbColor::from_hex_str("+0000ff"), Err(ColorError::InvalidSize(7)));
    assert_eq!(RgbColor::from_hex_str("+abcde"), Err(ColorError::InvalidInteger));
    assert_eq!(HslColor::from_hex_rgb("+12345"), Err(ColorError::InvalidInteger));
}

#[test]
fn from_hex_takes_low_bytes() {
    assert_eq!(RgbColor::from_hex(0xff1f1e33), RgbColor { r: 0x1f, g: 0x1e, b: 0x33 });
}

#[test]
fn rgb_to_hex_text() {
    assert_eq!(RgbColor { r: 255, g: 0, b: 10 }.hex(), "#ff000a");
    assert_eq!(RgbColor { r: 0, g: 0, b: 0 }.hex(), "#000000");
}

#[test]
fn hsl_keeps_channels() {
    let c = RgbColor { r: 76, g: 45, b: 55 };
    assert_eq!(HslColor::from_rgb(c).to_rgb(), c);
}

#[test]
fn hue_zero_and_hueless() {
    let red = HslColor::from_rgb(RgbColor { r: 255, g: 0, b: 0 });
    let cyan = HslColor::from_rgb(RgbColor { r: 0, g: 255, b: 255 });
    let white = HslColor::from_rgb(RgbColor { r: 255, g: 255, b: 255 });
    let magenta_ish = HslColor::from_rgb(RgbColor { r: 255, g: 0, b: 1 });
    assert!(red.hue_is_zero());
    assert!(!cyan.hue_is_zero());
    assert!(white.hue_is_zero());
    assert!(!magenta_ish.hue_is_zero());
    assert!(white.is_hueless());
    assert!(!red.is_hueless());
}

#[test]
fn hsl_from_hex_text() {
    assert_eq!(
        HslColor::from_hex_rgb("#00FFFF"),
        Ok(HslColor::from_rgb(RgbColor { r: 0, g: 255, b: 255 }))
    );
    assert_eq!(HslColor::from_hex_rgb("00ff"), Err(ColorError::InvalidSize(4)));
}
