use oximedia::lut_cube::{cube_items, cube_table, exact_cube_root, parse_csv_text, CubeFailure, CubeItem, Words3};

type Row = (String, String, String);

/// The `.cube` grammar written with std's trimming, prefix and white-space splitting;
/// the numbers are checked as floats and kept as words.
fn reference_cube(text: &str) -> Result<(String, usize, Option<Row>, Option<Row>, Vec<Row>), String> {
    let mut size = 0usize;
    let mut title = String::new();
    let mut domain_min = None;
    let mut domain_max = None;
    let mut rows = Vec::new();
    let three = |p: &[&str], k: usize| (p[k].to_string(), p[k + 1].to_string(), p[k + 2].to_string());
    let floats = |p: &[&str], k: usize, what: [&str; 3]| -> Result<(), String> {
        for i in 0..3 {
            p[k + i].parse::<f64>().map_err(|e| format!("Invalid {}: {e}", what[i]))?;
        }
        Ok(())
    };
    for line in text.split('\n') {
        let line = line.trim();
        if line.is_empty() || line.starts_with('#') {
            continue;
        }
        let parts: Vec<&str> = line.split_whitespace().collect();
        if let Some(rest) = line.strip_prefix("TITLE") {
            title = rest.trim().trim_matches('"').to_string();
        } else if line.starts_with("LUT_3D_SIZE") {
            if parts.len() >= 2 {
                size = parts[1].parse().map_err(|e| format!("Invalid LUT size: {e}"))?;
            }
        } else if line.starts_with("DOMAIN_MIN") {
            if parts.len() >= 4 {
                floats(&parts, 1, ["domain min"; 3])?;
                domain_min = Some(three(&parts, 1));
            }
        } else if line.starts_with("DOMAIN_MAX") {
            if parts.len() >= 4 {
                floats(&parts, 1, ["domain max"; 3])?;
                domain_max = Some(three(&parts, 1));
            }
        } else if parts.len() >= 3 {
            floats(&parts, 0, ["R value", "G value", "B value"])?;
            rows.push(three(&parts, 0));
        }
    }
    if size == 0 {
        return Err("No LUT_3D_SIZE found in file".to_string());
    }
    let cube = size.checked_mul(size).and_then(|s| s.checked_mul(size));
    let Some(cube) = cube else {
        return Err(format!("LUT size too large: {size}"));
    };
    if rows.len() != cube {
        return Err(format!("Data size mismatch: expected {cube}, got {}", rows.len()));
    }
    Ok((title, size, domain_min, domain_max, rows))
}

/// The words of the items whose words are not all floats: the first, with its error.
fn first_bad_word(items: &[CubeItem]) -> Option<(usize, String)> {
    let check = |w: &Words3, what: [&str; 3]| -> Result<(), String> {
        for (i, word) in [&w.0, &w.1, &w.2].into_iter().enumerate() {
            word.parse::<f64>().map_err(|e| format!("Invalid {}: {e}", what[i]))?;
        }
        Ok(())
    };
    items.iter().enumerate().find_map(|(k, item)| {
        let r = match item {
            CubeItem::DomainMin(w) => check(w, ["domain min"; 3]),
            CubeItem::DomainMax(w) => check(w, ["domain max"; 3]),
            CubeItem::Row(w) => check(w, ["R value", "G value", "B value"]),
            _ => Ok(()),
        };
        r.err().map(|e| (k, e))
    })
}

fn read(text: &str) -> Result<(String, usize, Option<Words3>, Option<Words3>, Vec<Words3>), String> {
    let items = cube_items(text);
    let bad = first_bad_word(&items);
    match cube_table(&items, bad.as_ref().map(|b| b.0)) {
        Ok(t) => Ok((t.title, t.size, t.domain_min, t.domain_max, t.rows)),
        Err(CubeFailure::Message(m)) => Err(m),
        Err(CubeFailure::BadWord(k)) => {
            let (at, m) = bad.unwrap();
            assert_eq!(k, at);
            Err(m)
        }
    }
}

fn words(a: &str, b: &str, c: &str) -> Row {
    (a.to_string(), b.to_string(), c.to_string())
}

fn two_cubed() -> String {
    let mut text = String::from("# Created by hand\r\nTITLE \"Warm look\"\r\n\r\nLUT_3D_SIZE 2\r\n");
    text.push_str("DOMAIN_MIN 0.0 0.0 0.0\r\nDOMAIN_MAX 1.0 1.0 1.0\r\n");
    for i in 0..8 {
        text.push_str(&format!("  {}.0 {}.5\t{}e-1  \r\n", i % 2, (i / 2) % 2, i / 4));
    }
    text
}

#[test]
fn cube_text_reads_header_and_rows() {
    let (title, size, dmin, dmax, rows) = read(&two_cubed()).unwrap();
    assert_eq!(title, "Warm look");
    assert_eq!(size, 2);
    assert_eq!(dmin, Some(words("0.0", "0.0", "0.0")));
    assert_eq!(dmax, Some(words("1.0", "1.0", "1.0")));
    assert_eq!(rows.len(), 8);
    assert_eq!(rows[0], words("0.0", "0.5", "0e-1"));
    assert_eq!(rows[7], words("1.0", "1.5", "1e-1"));
}

#[test]
fn cube_text_without_size_is_refused() {
    assert_eq!(read("TITLE x\n0 0 0\n"), Err("No LUT_3D_SIZE found in file".to_string()));
    assert_eq!(read("LUT_3D_SIZE 0\n"), Err("No LUT_3D_SIZE found in file".to_string()));
    assert_eq!(read("LUT_3D_SIZE\n0 0 0\n"), Err("No LUT_3D_SIZE found in file".to_string()));
}

#[test]
fn cube_text_with_wrong_row_count_is_refused() {
    assert_eq!(
        read("LUT_3D_SIZE 2\n0 0 0\n1 1 1\n0.5 0.5 0.5\n"),
        Err("Data size mismatch: expected 8, got 3".to_string())
    );
}

#[test]
fn cube_text_with_bad_size_word_is_refused() {
    assert_eq!(
        read("LUT_3D_SIZE 1x\n0 0 0\n"),
        Err("Invalid LUT size: invalid digit found in string".to_string())
    );
    assert_eq!(
        read("LUT_3D_SIZE 99999999999999999999999\n"),
        Err("Invalid LUT size: number too large to fit in target type".to_string())
    );
    assert_eq!(read("LUT_3D_SIZE -1\n"), Err("Invalid LUT size: invalid digit found in string".to_string()));
    // A bad size word is reported even when a later line sets a good size.
    assert_eq!(
        read("LUT_3D_SIZE +\nLUT_3D_SIZE 1\n0 0 0\n"),
        Err("Invalid LUT size: invalid digit found in string".to_string())
    );
}

#[test]
fn cube_text_with_oversized_table_is_refused() {
    assert_eq!(read("LUT_3D_SIZE 4294967296\n"), Err("LUT size too large: 4294967296".to_string()));
}

#[test]
fn cube_text_last_header_lines_win() {
    let text = "TITLE first\nTITLE \"\"second\"\"  \nLUT_3D_SIZE 2\nLUT_3D_SIZE +1\n\
                DOMAIN_MIN 0 0\nDOMAIN_MIN -1 -2 -3\nDOMAIN_MIN 5 5\n0.1 0.2 0.3 0.4\n";
    let (title, size, dmin, dmax, rows) = read(text).unwrap();
    assert_eq!(title, "second");
    assert_eq!(size, 1);
    assert_eq!(dmin, Some(words("-1", "-2", "-3")));
    assert_eq!(dmax, None);
    assert_eq!(rows, vec![words("0.1", "0.2", "0.3")]);
}

#[test]
fn cube_text_agrees_with_std_reading() {
    let texts = [
        two_cubed(),
        "LUT_3D_SIZE 1\n# 1 2 3\n  \t \n1 2\n1 2 3\n".to_string(),
        "TITLEwith no space\nLUT_3D_SIZEX 1\nDOMAIN_MAXIMUM 1 2 3\n4 5 6\n".to_string(),
        "LUT_3D_SIZE 1\nDOMAIN_MIN a b c d\n\u{2003}x y z\u{a0}\n".to_string(),
        "LUT_3D_SIZE 3\n".to_string(),
        "".to_string(),
    ];
    for text in &texts {
        assert_eq!(read(text), reference_cube(text), "text {text:?}");
    }
}

#[test]
fn csv_text_reads_rows_and_size() {
    let mut text = String::from("# r,g,b\n\n");
    for i in 0..8 {
        text.push_str(&format!(" {} , {}.5,{} ,extra\r\n", i % 2, i / 2 % 2, i / 4));
    }
    let table = parse_csv_text(&text);
    assert_eq!(table.size, Ok(2));
    assert_eq!(table.rows.len(), 8);
    assert_eq!(table.rows[0], words("0", "0.5", "0"));
    assert_eq!(table.rows[7], words("1", "1.5", "1"));
}

#[test]
fn csv_text_skips_short_lines_and_counts_cubes() {
    let empty = parse_csv_text("# nothing\n1,2\n");
    assert_eq!(empty.size, Ok(0));
    assert!(empty.rows.is_empty());
    let one = parse_csv_text("0.25,0.5,0.75");
    assert_eq!(one.size, Ok(1));
    assert_eq!(one.rows, vec![words("0.25", "0.5", "0.75")]);
    let seven = parse_csv_text(&"1,1,1\n".repeat(7));
    assert_eq!(seven.size, Err("Invalid CSV data size: 7 is not a perfect cube".to_string()));
    // The rows are still there, for their fields to be read before the size.
    assert_eq!(seven.rows.len(), 7);
    let t = parse_csv_text(&",,\n".repeat(27));
    assert_eq!(t.size, Ok(3));
    assert_eq!(t.rows[26], words("", "", ""));
}

#[test]
fn cube_errors_come_in_line_order() {
    assert_eq!(
        read("1 2 x\nLUT_3D_SIZE 1x\n"),
        Err("Invalid B value: invalid float literal".to_string())
    );
    assert_eq!(
        read("LUT_3D_SIZE 1x\n1 2 x\n"),
        Err("Invalid LUT size: invalid digit found in string".to_string())
    );
    // A domain line that a later one replaces is still read.
    assert_eq!(
        read("DOMAIN_MIN a 0 0\nDOMAIN_MIN 0 0 0\nLUT_3D_SIZE 1\n0 0 0\n"),
        Err("Invalid domain min: invalid float literal".to_string())
    );
    // A bad number comes before the checks of the size and the row count.
    assert_eq!(read("x 0 0\n"), Err("Invalid R value: invalid float literal".to_string()));
    assert_eq!(
        read("LUT_3D_SIZE 2\n0 0 0\nDOMAIN_MAX 1 1 one\n"),
        Err("Invalid domain max: invalid float literal".to_string())
    );
}

#[test]
fn cube_table_takes_the_first_failing_item() {
    let items = cube_items("TITLE t\n0 0 0\nLUT_3D_SIZE +\n1 1 1\n");
    assert_eq!(items.len(), 4);
    assert!(matches!(cube_table(&items, Some(1)), Err(CubeFailure::BadWord(1))));
    assert!(matches!(
        cube_table(&items, Some(3)),
        Err(CubeFailure::Message(m)) if m == "Invalid LUT size: invalid digit found in string"
    ));
    assert!(matches!(
        cube_table(&items, None),
        Err(CubeFailure::Message(m)) if m == "Invalid LUT size: invalid digit found in string"
    ));
    // A mark past the items is never reached.
    let ok = cube_items("LUT_3D_SIZE 1\n0 0 0\n");
    assert!(matches!(cube_table(&ok, Some(7)), Ok(t) if t.size == 1 && t.rows.len() == 1));
}

#[test]
fn exact_cube_roots() {
    assert_eq!(exact_cube_root(0), Some(0));
    assert_eq!(exact_cube_root(1), Some(1));
    assert_eq!(exact_cube_root(27), Some(3));
    assert_eq!(exact_cube_root(35937), Some(33));
    assert_eq!(exact_cube_root(26), None);
    assert_eq!(exact_cube_root(28), None);
    assert_eq!(exact_cube_root(18446724184312856125), Some(2642245));
    assert_eq!(exact_cube_root(usize::MAX), None);
}
