use orbclient::color::{blend_value, InvalidColorSpec};
use orbclient::Color;

#[test]
fn partial_eq() {
    assert_eq!(Color::rgb(1, 2, 3), Color::rgba(1, 2, 3, 200));
    assert_ne!(Color::rgb(1, 2, 3), Color::rgba(11, 2, 3, 200));
    assert_eq!(Color::rgba(1, 2, 3, 200), Color::rgba(1, 2, 3, 200));
}

#[test]
fn alignment() {
    assert_eq!(4, core::mem::size_of::<Color>());
    assert_eq!(8, core::mem::size_of::<[Color; 2]>());
    assert_eq!(12, core::mem::size_of::<[Color; 3]>());
    assert_eq!(16, core::mem::size_of::<[Color; 4]>());
    assert_eq!(20, core::mem::size_of::<[Color; 5]>());
}

#[test]
fn deserialize_ok() {
    let test_color = Color::from_spec("#00010203").expect("Color spec did not parse correctly");
    assert_eq!(test_color.a(), 0, "Alpha channel incorrect");
    assert_eq!(test_color.r(), 1, "Red channel incorrect");
    assert_eq!(test_color.g(), 2, "Green channel incorrect");
    assert_eq!(test_color.b(), 3, "Blue channel incorrect");
}

#[test]
fn deserialize_hex() {
    let c = Color::from_spec("#AABBCCDD").expect("Color spec did not parse HEX correctly");
    assert_eq!(c.data, 0xAABBCCDD);
}

#[test]
fn deserialize_no_hash() {
    let test_color = Color::from_spec("00010203");
    assert!(test_color.is_err(), "Color spec should not parse correctly without leading '#'");
}

#[test]
fn deserialize_not_hex() {
    let test_color = Color::from_spec("#GG010203");
    assert!(test_color.is_err(), "Color spec should not parse invalid HEX correctly");
}

#[test]
fn deserialize_str_too_long() {
    let test_color = Color::from_spec("#0001020304");
    assert!(test_color.is_err(), "Color spec should not parse invalid spec correctly");
}

#[test]
fn deserialize_str_too_short() {
    let test_color = Color::from_spec("#000102");
    assert!(test_color.is_err(), "Color spec should not parse invalid spec correctly");
}

#[test]
fn spec_rejects_six_digits_and_missing_hash() {
    assert_eq!(Color::from_spec("#010203"), Err(InvalidColorSpec));
    assert_eq!(Color::from_spec("x00010203"), Err(InvalidColorSpec));
    assert_eq!(Color::from_spec(""), Err(InvalidColorSpec));
    assert_eq!(Color::from_spec("#+1010203"), Err(InvalidColorSpec));
}

#[test]
fn spec_accepts_lower_case() {
    let c = Color::from_spec("#ff0a0b0c").unwrap();
    assert_eq!((c.a(), c.r(), c.g(), c.b()), (255, 10, 11, 12));
}

#[test]
fn equality_ignores_alpha_only() {
    for a in [0u8, 1, 128, 255] {
        assert_eq!(Color::rgba(9, 8, 7, a), Color::rgba(9, 8, 7, 255 - a));
    }
    assert_ne!(Color::rgba(9, 8, 7, 0), Color::rgba(9, 8, 6, 0));
    assert_ne!(Color::rgba(9, 8, 7, 0), Color::rgba(9, 7, 7, 0));
}

#[test]
fn channels_and_packing() {
    let c = Color::rgba(0x12, 0x34, 0x56, 0x78);
    assert_eq!(c.data, 0x78123456);
    assert_eq!((c.r(), c.g(), c.b(), c.a()), (0x12, 0x34, 0x56, 0x78));
    assert_eq!(Color::rgb(1, 2, 3).data, 0xFF010203);
}

#[test]
fn blend_rule_values() {
    // transparent leaves, opaque replaces
    assert_eq!(blend_value(0x11223344, 0x00FFFFFF), 0x11223344);
    assert_eq!(blend_value(0x11223344, 0xFFABCDEF), 0xFFABCDEF);
    // half red over opaque black
    assert_eq!(blend_value(0xFF000000, Color::rgba(255, 0, 0, 128).data), 0xFE7F0000);
}
