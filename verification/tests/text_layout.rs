use oximedia::text_layout::{LineBreakMode, TextAlign, TextOverflow, VerticalAlign};

#[test]
fn test_text_align_display() {
    assert_eq!(TextAlign::Left.to_string(), "left");
    assert_eq!(TextAlign::Center.to_string(), "center");
    assert_eq!(TextAlign::Right.to_string(), "right");
    assert_eq!(TextAlign::Justify.to_string(), "justify");
}

#[test]
fn test_text_align_default() {
    assert_eq!(TextAlign::default(), TextAlign::Left);
}

#[test]
fn test_vertical_align_default() {
    assert_eq!(VerticalAlign::default(), VerticalAlign::Top);
}

#[test]
fn test_text_overflow_default() {
    assert_eq!(TextOverflow::default(), TextOverflow::Clip);
}

#[test]
fn test_line_break_mode_default() {
    assert_eq!(LineBreakMode::default(), LineBreakMode::WordWrap);
}
