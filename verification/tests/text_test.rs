use epubtr::text::{
    blank, char_count, clamp, contains, decimal_text, ends_with, join_all, parse_usize, same_text,
    split, split as split_text, starts_with, to_ascii_lowercase, trim, white_space,
};

#[test]
fn white_space_is_that_of_unicode() {
    for code in 0..=0x10FFFFu32 {
        if let Some(c) = char::from_u32(code) {
            assert_eq!(white_space(c), c.is_whitespace(), "{:x}", code);
        }
    }
}

#[test]
fn trimming_removes_white_space_on_both_sides() {
    assert_eq!(trim("  hola \n"), "hola");
    assert_eq!(trim("\u{3000}hola mundo\u{a0}"), "hola mundo");
    assert_eq!(trim(" \t\n"), "");
    assert_eq!(trim("hola"), "hola");
    assert!(blank(""));
    assert!(blank(" \u{2003}"));
    assert!(!blank(" x "));
}

#[test]
fn lower_case_touches_ascii_only() {
    assert_eq!(to_ascii_lowercase("AbZ-ÉÑ9"), "abz-ÉÑ9");
}

#[test]
fn searching_finds_parts() {
    assert!(contains("error de red: x", "error de red"));
    assert!(!contains("error de re", "error de red"));
    assert!(contains("abc", ""));
    assert!(starts_with("data: x", "data:"));
    assert!(!starts_with("dat", "data:"));
    assert!(ends_with("a.html", ".html"));
    assert!(!ends_with("html", ".html"));
    assert!(same_text("ñ", "ñ"));
    assert!(!same_text("ñ", "n"));
}

#[test]
fn numbers_are_written_and_read() {
    assert_eq!(decimal_text(0), "0");
    assert_eq!(decimal_text(u64::MAX), u64::MAX.to_string());
    for raw in ["0", "7", "+12", "007", "", "+", "-1", "1x", " 1", "18446744073709551615", "18446744073709551616", "99999999999999999999"] {
        assert_eq!(parse_usize(raw), raw.parse::<usize>().ok(), "{}", raw);
    }
}

#[test]
fn clamping_stays_between() {
    assert_eq!(clamp(5, 1, 9), 5);
    assert_eq!(clamp(0, 1, 9), 1);
    assert_eq!(clamp(10, 1, 9), 9);
}

#[test]
fn splitting_gives_all_parts() {
    let parts: Vec<String> = split("a/b//c/", '/');
    let expected: Vec<&str> = "a/b//c/".split('/').collect();
    assert_eq!(parts, expected);
    assert_eq!(split_text("", '/'), vec![""]);
}

#[test]
fn joining_keeps_order() {
    let parts = vec!["uno".to_string(), "".to_string(), "dos".to_string()];
    assert_eq!(join_all(&parts), "unodos");
    assert_eq!(char_count("año"), 3);
}
