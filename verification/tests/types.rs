use orinium_text::{BidiMode, Color, Direction, FontStyle, FontVariant, FontWeight};

#[test]
fn test_color_default() {
    let c = Color(0, 0, 0, 255);
    assert_eq!(c.0, 0);
    assert_eq!(c.3, 255);
}

#[test]
fn test_color_equality() {
    assert_eq!(Color(255, 0, 0, 255), Color(255, 0, 0, 255));
    assert_ne!(Color(255, 0, 0, 255), Color(0, 255, 0, 255));
}

#[test]
fn test_color_copy() {
    let c1 = Color(10, 20, 30, 40);
    let c2 = c1;
    assert_eq!(c1, c2);
}

#[test]
fn test_font_weight_new() {
    assert_eq!(FontWeight(400).0, 400);
    assert_eq!(FontWeight(700).0, 700);
}

#[test]
fn test_font_weight_order() {
    assert!(FontWeight(100) < FontWeight(900));
    assert!(FontWeight(700) > FontWeight(400));
}

#[test]
fn test_font_weight_equality() {
    assert_eq!(FontWeight(400), FontWeight(400));
    assert_ne!(FontWeight(400), FontWeight(700));
}

#[test]
fn test_font_style_variants() {
    assert_ne!(FontStyle::Normal, FontStyle::Italic);
    assert_ne!(FontStyle::Normal, FontStyle::Oblique);
    assert_ne!(FontStyle::Italic, FontStyle::Oblique);
}

#[test]
fn test_bidi_mode_variants() {
    assert_ne!(BidiMode::Auto, BidiMode::Ltr);
    assert_ne!(BidiMode::Ltr, BidiMode::Rtl);
    assert_ne!(BidiMode::Auto, BidiMode::Rtl);
}

#[test]
fn test_font_variant_variants_differ() {
    assert_ne!(FontVariant::Normal, FontVariant::Subscript);
    assert_ne!(FontVariant::Subscript, FontVariant::Superscript);
}

#[test]
fn test_direction_is_rtl() {
    assert!(Direction::Rtl.is_rtl());
    assert!(!Direction::Ltr.is_rtl());
}
