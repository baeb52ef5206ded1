use oximedia::text::{FontFamily, FontManager, FontStyle, FontWeight, GraphicsError};

#[test]
fn test_font_family() {
    let family = FontFamily::from_regular(vec![0; 100]);
    assert!(family.bold.is_none());
    assert!(family.italic.is_none());
}

#[test]
fn test_font_manager() {
    let mut manager = FontManager::new();
    let family = FontFamily::from_regular(vec![0; 100]);
    manager.add_family("Test".to_string(), family);
    assert!(manager.get_family("Test").is_some());
    assert!(manager.get_family("NotFound").is_none());
}

#[test]
fn get_font_falls_back_to_regular() {
    let family = FontFamily::from_regular(vec![7; 3]);
    assert_eq!(family.get_font(FontStyle::Italic, FontWeight::Bold), &[7, 7, 7][..]);
    assert_eq!(family.get_font(FontStyle::Normal, FontWeight::Normal), &[7, 7, 7][..]);
}

#[test]
fn add_family_replaces_same_name() {
    let mut manager = FontManager::new();
    manager.add_family("Sans".to_string(), FontFamily::from_regular(vec![1]));
    manager.add_family("Sans".to_string(), FontFamily::from_regular(vec![2]));
    let f = manager.get_family("Sans").unwrap();
    assert_eq!(f.regular.as_slice(), &[2][..]);
}

#[test]
fn load_system_font_reports_font_error() {
    let mut manager = FontManager::new();
    match manager.load_system_font("Arial") {
        Err(GraphicsError::FontError(msg)) => {
            assert_eq!(msg, "System font loading not implemented: Arial")
        }
        other => panic!("unexpected {other:?}"),
    }
}

/// The smallest TrueType file a font parser accepts: the `head`, `hhea` and
/// `maxp` tables and nothing else.
fn minimal_font() -> Vec<u8> {
    let mut head = vec![0u8; 54];
    head[0..4].copy_from_slice(&[0, 1, 0, 0]); // version 1.0
    head[12..16].copy_from_slice(&[0x5F, 0x0F, 0x3C, 0xF5]); // magic
    head[18..20].copy_from_slice(&1000u16.to_be_bytes()); // units per em
    let mut hhea = vec![0u8; 36];
    hhea[0..4].copy_from_slice(&[0, 1, 0, 0]);
    hhea[34..36].copy_from_slice(&1u16.to_be_bytes()); // metrics count
    let maxp = vec![0, 0, 0x50, 0, 0, 1]; // version 0.5, one glyph
    let tables: [(&[u8; 4], &Vec<u8>); 3] = [(b"head", &head), (b"hhea", &hhea), (b"maxp", &maxp)];
    let mut font = vec![0, 1, 0, 0, 0, 3, 0, 32, 0, 1, 0, 16];
    let mut offset = 12 + 16 * tables.len() as u32;
    let mut data = Vec::new();
    for (tag, table) in tables {
        font.extend_from_slice(tag);
        font.extend_from_slice(&[0, 0, 0, 0]);
        font.extend_from_slice(&offset.to_be_bytes());
        font.extend_from_slice(&(table.len() as u32).to_be_bytes());
        data.extend_from_slice(table);
        while data.len() % 4 != 0 {
            data.push(0);
        }
        offset = 12 + 16 * tables.len() as u32 + data.len() as u32;
    }
    font.extend_from_slice(&data);
    font
}

#[test]
fn resolve_font_reports_missing_family() {
    let manager = FontManager::new();
    match manager.resolve_font("Sans", FontStyle::Normal, FontWeight::Normal) {
        Err(GraphicsError::FontError(msg)) => assert_eq!(msg, "Font family not found: Sans"),
        other => panic!("unexpected {other:?}"),
    }
}

#[test]
fn resolve_font_reports_unparsable_data() {
    let mut manager = FontManager::new();
    manager.add_family("Sans".to_string(), FontFamily::from_regular(vec![0; 100]));
    match manager.resolve_font("Sans", FontStyle::Normal, FontWeight::Normal) {
        Err(GraphicsError::FontError(msg)) => assert_eq!(msg, "Failed to parse font: InvalidFont"),
        other => panic!("unexpected {other:?}"),
    }
}

#[test]
fn resolve_font_returns_parsable_data() {
    let font = minimal_font();
    let mut manager = FontManager::new();
    let mut family = FontFamily::from_regular(vec![1, 2, 3]);
    family.bold = Some(std::sync::Arc::new(font.clone()));
    manager.add_family("Sans".to_string(), family);
    let data = manager
        .resolve_font("Sans", FontStyle::Normal, FontWeight::Bold)
        .expect("bold face parses");
    assert_eq!(data, &font[..]);
    assert!(manager.resolve_font("Sans", FontStyle::Normal, FontWeight::Normal).is_err());
}
