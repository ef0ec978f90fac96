use inkling::chars::{is_control, is_whitespace};
use inkling::text::{chars_of, decimal_chars, string_of};

#[test]
fn character_classes_agree_with_std() {
    for c in (0u32..=0x10FFFF).filter_map(char::from_u32) {
        assert_eq!(is_whitespace(c), c.is_whitespace(), "{c:?}");
        assert_eq!(is_control(c), c.is_control(), "{c:?}");
    }
}

#[test]
fn decimals_print_as_std_does() {
    for n in [0u64, 7, 10, 255, 65535, 1_000_000, u64::MAX] {
        let s: String = decimal_chars(n).into_iter().collect();
        assert_eq!(s, n.to_string());
    }
}

#[test]
fn strings_round_trip_through_characters() {
    let s = "a世\u{1b}b";
    assert_eq!(string_of(&chars_of(s)), s);
}
