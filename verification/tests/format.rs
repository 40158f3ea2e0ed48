use core::fmt::Write;
use stackfmt::{fmt_truncate, WriteTo};

#[test]
fn format_ok() {
    let mut buf = [0u8; 64];
    let number = format!("{}", 42);
    let formatted: &str = fmt_truncate(&mut buf, Ok(&["Hello", &number]));
    assert_eq!(formatted, "Hello42");
}

#[test]
fn format_truncate_ascii() {
    let mut buf = [0u8; 4];
    let number = format!("{}", 42);
    let formatted: &str = fmt_truncate(&mut buf, Ok(&["Hello", &number]));
    assert_eq!(formatted, "Hell");
}

#[test]
fn format_truncate_ascii_second() {
    let mut buf = [0u8; 6];
    let number = format!("{}", 42);
    let formatted: &str = fmt_truncate(&mut buf, Ok(&["Hello", &number]));
    assert_eq!(formatted, "Hello4");
}

#[test]
fn format_zero() {
    let mut buf = [0u8; 0];
    let number = format!("{}", 42);
    let formatted: &str = fmt_truncate(&mut buf, Ok(&["Hello", &number]));
    assert_eq!(formatted, "");
}

#[test]
fn format_truncate_unicode() {
    let mut buf = [0u8; 4];
    // U+20AC  = E2 82 AC
    let formatted: &str = fmt_truncate(&mut buf, Ok(&["Add", "\u{20AC}"]));
    assert_eq!(formatted, "Add");
}

#[test]
fn format_fits_exactly() {
    let mut buffer = [0u8; 16];
    let mut w = WriteTo::new(&mut buffer);
    assert!(w.write_str("The answer is ").is_ok());
    assert!(w.write_str("42").is_ok());
    assert_eq!(w.as_str(), "The answer is 42");
    assert_eq!(buffer, "The answer is 42".as_bytes());
}

#[test]
fn format_engine_failure_gives_empty_string() {
    let mut buf = [7u8; 8];
    let formatted: &str = fmt_truncate(&mut buf, Err(core::fmt::Error));
    assert_eq!(formatted, "");
    assert_eq!(buf, [7u8; 8]);
}

#[test]
fn format_no_fragments() {
    let mut buf = [0u8; 8];
    assert_eq!(fmt_truncate(&mut buf, Ok(&[])), "");
}

#[test]
fn format_leaves_rest_of_buffer() {
    let mut buf = [0xAAu8; 6];
    {
        let formatted = fmt_truncate(&mut buf, Ok(&["ab", "c"]));
        assert_eq!(formatted, "abc");
    }
    assert_eq!(buf, [b'a', b'b', b'c', 0xAA, 0xAA, 0xAA]);
}

#[test]
fn format_does_not_depend_on_fragmentation() {
    let text = "Gr\u{fc}\u{df}e, \u{10348}\u{20AC} world";
    for cap in 0..=text.len() + 2 {
        let mut whole = vec![0u8; cap];
        let mut split = vec![0u8; cap];
        let mut chars = vec![0u8; cap];
        let pieces: Vec<String> = text.chars().map(|c| c.to_string()).collect();
        let pieces: Vec<&str> = pieces.iter().map(|p| p.as_str()).collect();
        let a = fmt_truncate(&mut whole, Ok(&[text]));
        let b = fmt_truncate(&mut split, Ok(&[&text[..2], "", &text[2..]]));
        let c = fmt_truncate(&mut chars, Ok(&pieces));
        assert_eq!(a, b);
        assert_eq!(a, c);
    }
}

#[test]
fn format_is_longest_prefix_that_fits() {
    let text = "a\u{e9}\u{20AC}\u{10348}z";
    for cap in 0..=text.len() + 1 {
        let mut buf = vec![0u8; cap];
        let out = fmt_truncate(&mut buf, Ok(&["a\u{e9}", "\u{20AC}\u{10348}", "z"]));
        assert!(out.len() <= cap);
        assert!(text.starts_with(out));
        if text.len() <= cap {
            assert_eq!(out, text);
        } else {
            for k in out.len() + 1..=cap {
                assert!(!text.is_char_boundary(k));
                assert!(core::str::from_utf8(&text.as_bytes()[..k]).is_err());
            }
        }
    }
}

#[test]
fn format_four_byte_code_point_cut() {
    // U+10348 = F0 90 8D 88, U+20AC = E2 82 AC
    let expected = ["", "", "", "", "\u{10348}", "\u{10348}", "\u{10348}", "\u{10348}\u{20AC}"];
    for (cap, want) in expected.iter().enumerate() {
        let mut buf = vec![0u8; cap];
        let out = fmt_truncate(&mut buf, Ok(&["\u{10348}\u{20AC} "]));
        assert_eq!(out, *want);
    }
}
