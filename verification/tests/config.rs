use rtree::{parse_depth, Config};

#[test]
fn depth_from_plain_digits() {
    assert_eq!(parse_depth("0"), Some(0));
    assert_eq!(parse_depth("1"), Some(1));
    assert_eq!(parse_depth("3"), Some(3));
    assert_eq!(parse_depth("42"), Some(42));
    assert_eq!(parse_depth("1234567890"), Some(1234567890));
}

#[test]
fn depth_with_plus_sign_or_leading_zeros() {
    assert_eq!(parse_depth("+7"), Some(7));
    assert_eq!(parse_depth("+0"), Some(0));
    assert_eq!(parse_depth("007"), Some(7));
    assert_eq!(parse_depth("+0012"), Some(12));
}

#[test]
fn depth_rejects_what_is_no_number() {
    let texts = ["", "+", "-", "-1", "++1", "+-1", "1+", "abc", "1a", "a1", "1.0", "1_000", "0x10"];
    for text in texts {
        assert_eq!(parse_depth(text), None, "{:?}", text);
    }
}

#[test]
fn depth_rejects_blanks_and_other_digits() {
    for text in [" 1", "1 ", " ", "1\n", "\t2", "١٢", "１２"] {
        assert_eq!(parse_depth(text), None, "{:?}", text);
    }
}

#[test]
fn depth_up_to_the_largest_value() {
    let largest = usize::MAX.to_string();
    assert_eq!(parse_depth(&largest), Some(usize::MAX));
    assert_eq!(parse_depth(&format!("+000{}", largest)), Some(usize::MAX));
    let beyond = (usize::MAX as u128 + 1).to_string();
    assert_eq!(parse_depth(&beyond), None);
    assert_eq!(parse_depth(&format!("{}0", largest)), None);
    assert_eq!(parse_depth("99999999999999999999999999999999999999999999"), None);
}

#[test]
fn depth_agrees_with_the_standard_parser() {
    for text in ["0", "5", "+5", "-5", "", "+", "05", "5x", " 5", "18446744073709551615",
        "18446744073709551616", "340282366920938463463374607431768211456"]
    {
        assert_eq!(parse_depth(text), text.parse::<usize>().ok(), "{:?}", text);
    }
}

#[test]
fn config_holds_what_it_was_made_with() {
    let config = Config::new(3, true, false, true);
    assert_eq!(config.max_depth, 3);
    assert!(config.files_only);
    assert!(!config.dirs_only);
    assert!(config.show_hidden);
    assert_eq!(
        config,
        Config { max_depth: 3, files_only: true, dirs_only: false, show_hidden: true }
    );
}

#[test]
fn hidden_name_filter() {
    let plain = Config::new(0, false, false, false);
    assert!(plain.is_shown("a.rs"));
    assert!(plain.is_shown("a.b.c"));
    assert!(plain.is_shown(""));
    assert!(plain.is_shown("a."));
    assert!(!plain.is_shown(".git"));
    assert!(!plain.is_shown("."));
    assert!(!plain.is_shown(".."));
    let all = Config::new(0, false, false, true);
    assert!(all.is_shown(".git"));
    assert!(all.is_shown("a.rs"));
}

#[test]
fn type_filter() {
    let none = Config::new(0, false, false, false);
    assert!(none.is_kept(true) && none.is_kept(false));
    let files = Config::new(0, true, false, false);
    assert!(!files.is_kept(true) && files.is_kept(false));
    let dirs = Config::new(0, false, true, false);
    assert!(dirs.is_kept(true) && !dirs.is_kept(false));
    let both = Config::new(0, true, true, false);
    assert!(!both.is_kept(true) && !both.is_kept(false));
}
