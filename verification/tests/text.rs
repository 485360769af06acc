use pocket_femtanyl::text::{chars_of, parse_u32, same_text, trim_trailing_digits};

fn parse(s: &str) -> Option<u32> {
    parse_u32(&chars_of(s))
}

#[test]
fn parses_u32_as_std_does() {
    for s in ["0", "7", "42", "+42", "007", "4294967295", "", "+", "-", "-1", "++1", "1a", " 1", "4294967296", "99999999999999999999"] {
        assert_eq!(parse(s), s.parse::<u32>().ok(), "{s:?}");
    }
    assert_eq!(parse("123"), Some(123));
    assert_eq!(parse("4294967296"), None);
}

#[test]
fn trims_trailing_digits() {
    let trim = |s: &str| trim_trailing_digits(&chars_of(s)).into_iter().collect::<String>();
    assert_eq!(trim("idle0001"), "idle");
    assert_eq!(trim("left"), "left");
    assert_eq!(trim("a1b2"), "a1b");
    assert_eq!(trim("1234"), "");
    assert_eq!(trim(""), "");
}

#[test]
fn compares_texts() {
    assert!(same_text(&chars_of("up"), &chars_of("up")));
    assert!(!same_text(&chars_of("up"), &chars_of("upp")));
    assert!(!same_text(&chars_of("up"), &chars_of("Up")));
    assert_eq!(chars_of("héllo"), vec!['h', 'é', 'l', 'l', 'o']);
}
