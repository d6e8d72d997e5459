use whisrs::text::{
    decimal_text, eq_ignore_ascii_case, is_ascii_alphanumeric, is_text_le, is_white_space,
    same_text, strip_prefix, trim,
};

#[test]
fn white_space_is_that_of_unicode() {
    for code in 0..=0x10ffff_u32 {
        if let Some(c) = char::from_u32(code) {
            assert_eq!(is_white_space(c), c.is_whitespace());
            assert_eq!(is_ascii_alphanumeric(c), c.is_ascii_alphanumeric());
        }
    }
}

const SAMPLES: [&str; 12] = [
    "",
    " ",
    "a",
    " a b ",
    "\t\u{3000}x\u{85}\n",
    "default",
    "DEFAULT",
    "Default ",
    "É",
    "é",
    "ab",
    "\u{10ffff}",
];

#[test]
fn text_operations_agree_with_str() {
    for a in SAMPLES {
        assert_eq!(trim(a), a.trim());
        for b in SAMPLES {
            assert_eq!(same_text(a, b), a == b);
            assert_eq!(eq_ignore_ascii_case(a, b), a.eq_ignore_ascii_case(b));
            assert_eq!(is_text_le(a, b), a <= b);
            assert_eq!(strip_prefix(a, b), a.strip_prefix(b));
        }
    }
}

#[test]
fn decimal_text_is_plain() {
    for n in [0, 7, 10, 64, 1_000, 16_000, 65_535, u32::MAX] {
        assert_eq!(decimal_text(n), format!("{n}"));
    }
}
