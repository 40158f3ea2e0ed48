use stackfmt::{find_closest_boundary, is_not_first_utf8};

#[test]
fn is_not_first_utf8_test() {
    // U+20AC  = E2 82 AC
    assert!(!is_not_first_utf8(0xE2));
    assert!(is_not_first_utf8(0x82));
    assert!(is_not_first_utf8(0xAC));
    // U+10348 = F0 90 8D 88
    assert!(!is_not_first_utf8(0xF0));
    assert!(is_not_first_utf8(0x90));
    assert!(is_not_first_utf8(0x8D));
    assert!(is_not_first_utf8(0x88));
    // space = 0x20
    assert!(!is_not_first_utf8(0x20));
}

#[test]
fn find_closest_boundary_test_ascii() {
    // An ASCII string is always cut just where requested.
    let buf = b"Hello";
    assert_eq!(find_closest_boundary(buf, 0), 0);
    assert_eq!(find_closest_boundary(buf, 1), 1);
    assert_eq!(find_closest_boundary(buf, 2), 2);
    assert_eq!(find_closest_boundary(buf, 3), 3);
    assert_eq!(find_closest_boundary(buf, 4), 4);
}

#[test]
fn find_closest_boundary_test_unicode() {
    // U+10348 = F0 90 8D 88
    // U+20AC  = E2 82 AC
    let buf = [
        0xF0u8, 0x90, 0x8D, 0x88, /* next char */ 0xE2, 0x82, 0xAC,
        /* ascii */ 0x20,
    ];
    assert_eq!(find_closest_boundary(&buf, 0), 0);
    assert_eq!(find_closest_boundary(&buf, 1), 0);
    assert_eq!(find_closest_boundary(&buf, 2), 0);
    assert_eq!(find_closest_boundary(&buf, 3), 0);
    assert_eq!(find_closest_boundary(&buf, 4), 4);
    assert_eq!(find_closest_boundary(&buf, 5), 4);
    assert_eq!(find_closest_boundary(&buf, 6), 4);
    assert_eq!(find_closest_boundary(&buf, 7), 7);
}

#[test]
fn continuation_test_covers_every_byte() {
    for b in 0u8..=255 {
        assert_eq!(is_not_first_utf8(b), (0x80..=0xBF).contains(&b));
    }
}

#[test]
fn boundary_never_exceeds_limit_and_is_stable() {
    let text = "a\u{e9}\u{20AC}\u{10348}z!";
    let raw = text.as_bytes();
    for max_len in 0..raw.len() {
        let cut = find_closest_boundary(raw, max_len);
        assert!(cut <= max_len);
        assert!(text.is_char_boundary(cut));
        for k in cut + 1..=max_len {
            assert!(!text.is_char_boundary(k));
        }
        assert_eq!(find_closest_boundary(raw, max_len), cut);
        assert_eq!(find_closest_boundary(raw, cut), cut);
    }
}

#[test]
fn boundary_in_two_byte_code_point() {
    // U+00E9 = C3 A9
    let buf = [0x61u8, 0xC3, 0xA9, 0x62];
    assert_eq!(find_closest_boundary(&buf, 1), 1);
    assert_eq!(find_closest_boundary(&buf, 2), 1);
    assert_eq!(find_closest_boundary(&buf, 3), 3);
}

#[test]
fn boundary_of_zero_limit_does_not_look_at_bytes() {
    let buf = [0x82u8, 0xAC];
    assert_eq!(find_closest_boundary(&buf, 0), 0);
}
