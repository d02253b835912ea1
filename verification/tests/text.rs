use microstation::text::{concat_decimal, is_whitespace, push_decimal, text_eq, trim_line};

#[test]
fn decimals_are_appended() {
    let mut s = String::from("id=");
    push_decimal(&mut s, 0);
    assert_eq!(s, "id=0");
    push_decimal(&mut s, 4294967297);
    assert_eq!(s, "id=04294967297");
    assert_eq!(concat_decimal("wall", 12), "wall12");
    assert_eq!(concat_decimal("", u64::MAX), "18446744073709551615");
}

#[test]
fn lines_lose_carriage_returns_and_surrounding_blanks() {
    assert_eq!(trim_line("  spawn steel_wall 1 2 \r\r"), "spawn steel_wall 1 2");
    assert_eq!(trim_line("\t\u{3000}entities\u{a0}"), "entities");
    assert_eq!(trim_line(" \r "), "");
    assert_eq!(trim_line("a\rb"), "a\rb");
    assert_eq!(trim_line("привет"), "привет");
}

#[test]
fn text_comparison() {
    assert!(text_eq("steel_wall", "steel_wall"));
    assert!(!text_eq("steel_wall", "steel_walls"));
    assert!(!text_eq("floor", "flood"));
    assert!(text_eq("", ""));
}

#[test]
fn whitespace_agrees_with_std_on_every_char() {
    for u in 0..=0x10FFFFu32 {
        if let Some(c) = char::from_u32(u) {
            assert_eq!(is_whitespace(c), c.is_whitespace(), "U+{:04X}", u);
        }
    }
}
