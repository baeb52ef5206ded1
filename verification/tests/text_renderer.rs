use oximedia::text_renderer::{FontWeight, TextAlignment};

#[test]
fn test_alignment_left_is_horizontal() {
    assert!(TextAlignment::Left.is_horizontal());
}

#[test]
fn test_alignment_center_is_horizontal() {
    assert!(TextAlignment::Center.is_horizontal());
}

#[test]
fn test_alignment_top_is_not_horizontal() {
    assert!(!TextAlignment::Top.is_horizontal());
}

#[test]
fn test_alignment_middle_is_vertical() {
    assert!(TextAlignment::Middle.is_vertical());
}

#[test]
fn test_font_weight_bold_is_bold() {
    assert!(FontWeight::Bold.is_bold());
}

#[test]
fn test_font_weight_regular_not_bold() {
    assert!(!FontWeight::Regular.is_bold());
}

#[test]
fn test_font_weight_black_is_bold() {
    assert!(FontWeight::Black.is_bold());
}

#[test]
fn test_font_weight_numeric_regular() {
    assert_eq!(FontWeight::Regular.numeric_value(), 400);
}

#[test]
fn test_font_weight_numeric_bold() {
    assert_eq!(FontWeight::Bold.numeric_value(), 700);
}
