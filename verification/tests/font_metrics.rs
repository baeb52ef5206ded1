use oximedia::font_metrics::FontWeight;

#[test]
fn test_font_weight_values() {
    assert_eq!(FontWeight::Thin.value(), 100);
    assert_eq!(FontWeight::Regular.value(), 400);
    assert_eq!(FontWeight::Black.value(), 900);
}

#[test]
fn test_font_weight_from_value() {
    assert_eq!(FontWeight::from_value(400), FontWeight::Regular);
    assert_eq!(FontWeight::from_value(0), FontWeight::Thin);
    assert_eq!(FontWeight::from_value(999), FontWeight::Black);
}

#[test]
fn test_font_weight_is_bold() {
    assert!(!FontWeight::Regular.is_bold());
    assert!(FontWeight::Bold.is_bold());
    assert!(FontWeight::SemiBold.is_bold());
}

#[test]
fn test_font_weight_ordering() {
    assert!(FontWeight::Thin < FontWeight::Regular);
    assert!(FontWeight::Regular < FontWeight::Bold);
}

#[test]
fn test_font_weight_keywords() {
    assert_eq!(FontWeight::Regular.keyword(), "normal");
    assert_eq!(FontWeight::Bold.keyword(), "bold");
}

#[test]
fn from_value_round_trips_every_weight() {
    for w in [
        FontWeight::Thin,
        FontWeight::ExtraLight,
        FontWeight::Light,
        FontWeight::Regular,
        FontWeight::Medium,
        FontWeight::SemiBold,
        FontWeight::Bold,
        FontWeight::ExtraBold,
        FontWeight::Black,
    ] {
        assert_eq!(FontWeight::from_value(w.value()), w);
    }
}

#[test]
fn from_value_picks_nearest_weight() {
    assert_eq!(FontWeight::from_value(440), FontWeight::Regular);
    assert_eq!(FontWeight::from_value(460), FontWeight::Medium);
    assert_eq!(FontWeight::from_value(649), FontWeight::SemiBold);
    assert_eq!(FontWeight::from_value(650), FontWeight::Bold);
}
