use oximedia::lut_3dl::{parse_3dl_text, TABLE_ENTRIES};

/// The `.3dl` reading written with std's line, white-space and integer parsing.
fn reference(contents: &str) -> Result<Vec<(u32, u32, u32)>, String> {
    let mut data = Vec::new();
    for line in contents.lines() {
        let line = line.trim();
        if line.is_empty() || line.starts_with('#') {
            continue;
        }
        let parts: Vec<&str> = line.split_whitespace().collect();
        if parts.len() >= 3 {
            let r: u32 = parts[0].parse().map_err(|e| format!("Invalid R value: {e}"))?;
            let g: u32 = parts[1].parse().map_err(|e| format!("Invalid G value: {e}"))?;
            let b: u32 = parts[2].parse().map_err(|e| format!("Invalid B value: {e}"))?;
            if data.len() < TABLE_ENTRIES {
                data.push((r, g, b));
            }
        }
    }
    if data.len() != TABLE_ENTRIES {
        return Err(format!("Incomplete .3dl data: got {} entries", data.len()));
    }
    Ok(data)
}

fn full_table(sep: &str) -> String {
    let mut text = String::from("# header\n0 64 128 192 256 320 384 448 512 576 640 704 768 832 896 960 1023\n");
    for i in 0..TABLE_ENTRIES - 1 {
        text.push_str(&format!("{}{sep}{}{sep}{}\n", i % 4096, (i * 7) % 4096, (i * 13) % 4096));
    }
    text
}

#[test]
fn full_table_is_read() {
    let text = full_table(" ");
    let parsed = parse_3dl_text(&text).unwrap();
    assert_eq!(parsed.len(), TABLE_ENTRIES);
    // The first data line of the file is the header of input levels.
    assert_eq!(parsed[0], (0, 64, 128));
    assert_eq!(parsed[1], (0, 0, 0));
    assert_eq!(parsed[2], (1, 7, 13));
    assert_eq!(Ok(parsed), reference(&text));
}

#[test]
fn unicode_and_crlf_separators_split_fields() {
    let text = full_table("\u{A0}\t").replace('\n', "\r\n");
    assert_eq!(parse_3dl_text(&text), reference(&text));
    assert!(parse_3dl_text(&text).is_ok());
    let text = full_table("\u{2003}\u{3000}");
    assert_eq!(parse_3dl_text(&text), reference(&text));
}

#[test]
fn entries_past_a_table_are_ignored() {
    let mut text = full_table(" ");
    text.push_str("1 2 3\n4 5 6\n");
    let parsed = parse_3dl_text(&text).unwrap();
    assert_eq!(parsed.len(), TABLE_ENTRIES);
    assert_eq!(Ok(parsed), reference(&text));
}

#[test]
fn short_data_reports_the_count() {
    let text = "# comment\n\n1 2 3\n4 5\n   \n6 7 8 9\n";
    assert_eq!(parse_3dl_text(text), Err("Incomplete .3dl data: got 2 entries".to_string()));
    assert_eq!(parse_3dl_text(text), reference(text));
    assert_eq!(parse_3dl_text(""), Err("Incomplete .3dl data: got 0 entries".to_string()));
}

#[test]
fn invalid_fields_report_the_channel() {
    for (text, expected) in [
        ("1 x 3\n", "Invalid G value: invalid digit found in string"),
        ("-1 2 3\n", "Invalid R value: invalid digit found in string"),
        ("1 2 +\n", "Invalid B value: invalid digit found in string"),
        ("1 2 4294967296\n", "Invalid B value: number too large to fit in target type"),
        ("99999999999x 2 3\n", "Invalid R value: number too large to fit in target type"),
        ("1 2 3.5\n", "Invalid B value: invalid digit found in string"),
    ] {
        assert_eq!(parse_3dl_text(text), Err(expected.to_string()), "{text:?}");
        assert_eq!(parse_3dl_text(text), reference(text), "{text:?}");
    }
}

#[test]
fn fields_read_as_std_reads_them() {
    for field in ["+7", "007", "4294967295", "4294967296", "+", "-", "++1", "+-1", "1_000", "٣", "12a"] {
        let text = format!("{field} 0 0\n");
        assert_eq!(parse_3dl_text(&text), reference(&text), "{field:?}");
    }
}

#[test]
fn comment_lines_are_skipped_even_with_fields() {
    let text = "#1 2 3\n  # 4 5 6\n";
    assert_eq!(parse_3dl_text(text), Err("Incomplete .3dl data: got 0 entries".to_string()));
}

#[test]
fn errors_after_the_table_still_count() {
    let mut text = full_table(" ");
    text.push_str("1 2 oops\n");
    assert_eq!(parse_3dl_text(&text), Err("Invalid B value: invalid digit found in string".to_string()));
    assert_eq!(parse_3dl_text(&text), reference(&text));
}
