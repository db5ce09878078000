use quotation_align::names::{decimal_digit, parse_window_file_name, WindowNameError};

#[test]
fn window_file_names_are_read() {
    assert_eq!(parse_window_file_name("path-3-100-50.json"), Ok(Some((3, 100, 50))));
    assert_eq!(parse_window_file_name("path-0-0-0.json"), Ok(Some((0, 0, 0))));
    assert_eq!(parse_window_file_name("old-path-12-007-9.json"), Ok(Some((12, 7, 9))));
}

#[test]
fn other_file_names_are_skipped() {
    for name in [
        "path-1-2.json",
        "path-1-2-3.json.bak",
        "path-1-2-3.jsn",
        "path--2-3.json",
        "path-1-2-.json",
        "path-a-2-3.json",
        "matrix-1-2-3.json",
        "path-1-2-3-4.json",
        "",
        ".json",
    ] {
        assert_eq!(parse_window_file_name(name), Ok(None), "{}", name);
    }
}

#[test]
fn fields_too_large_are_errors() {
    assert_eq!(
        parse_window_file_name("path-1-99999999999999999999999-3.json"),
        Err(WindowNameError::InvalidNumber)
    );
    let max = format!("path-{}-0-0.json", usize::MAX);
    assert_eq!(parse_window_file_name(&max), Ok(Some((usize::MAX, 0, 0))));
}

#[test]
fn names_read_as_the_pattern_reads_them() {
    let re = regex::Regex::new(r"path-(\d+)-(\d+)-(\d+)\.json$").unwrap();
    for name in [
        "path-3-100-50.json",
        "./log/path-1-2-3.json",
        "path-1-path-2-3-4.json",
        "pathpath-1-2-3.json",
        "path-1-2-3.json.json",
        "path-1-2-3-json",
        "path-11-22-33.json",
        "xpath-1-2-3.json",
        "path-1-2-3.jsonx",
        "path-\u{663}-0-0.json",
        "path-1-\u{ff12}-3.json",
        "path-1-2-\u{1d7ce}.json",
        "path-12-34-99999999999999999999999.json",
        "p\u{e9}-path-5-6-7.json",
    ] {
        let expected = match re.captures(name) {
            None => Ok(None),
            Some(caps) => match (caps[1].parse::<usize>(), caps[2].parse::<usize>(), caps[3].parse::<usize>()) {
                (Ok(a), Ok(b), Ok(c)) => Ok(Some((a, b, c))),
                _ => Err(WindowNameError::InvalidNumber),
            },
        };
        assert_eq!(parse_window_file_name(name), expected, "{}", name);
    }
}

#[test]
fn digits_of_other_scripts_are_errors() {
    assert_eq!(parse_window_file_name("path-\u{663}-0-0.json"), Err(WindowNameError::InvalidNumber));
    assert_eq!(parse_window_file_name("path-\u{663}-\u{664}.json"), Ok(None));
}

#[test]
fn decimal_digits_match_the_pattern_class() {
    let re = regex::Regex::new(r"^\d$").unwrap();
    let mut buf = [0u8; 4];
    for v in 0u32..=0x10ffff {
        if let Some(c) = char::from_u32(v) {
            assert_eq!(decimal_digit(c), re.is_match(c.encode_utf8(&mut buf)), "{:x}", v);
        }
    }
}
