//! Truthy and falsy words.
use hera_leds::truth::{bool_from_str, expecting, read_bool};

#[test]
fn usual_spellings() {
    for s in ["t", "T", "true", "True", "1", "on", "On", "y", "Y", "yes", "Yes"] {
        assert!(bool_from_str(s).unwrap(), "{}", s);
    }
    for s in ["f", "F", "false", "False", "0", "off", "Off", "n", "N", "no", "No"] {
        assert!(!bool_from_str(s).unwrap(), "{}", s);
    }
}

#[test]
fn mixed_case() {
    for s in ["tRue", "TRUE", "oN", "ON", "yEs", "YES"] {
        assert!(bool_from_str(s).unwrap(), "{}", s);
    }
    for s in ["fAlse", "FALSE", "oFF", "OFF", "nO", "NO"] {
        assert!(!bool_from_str(s).unwrap(), "{}", s);
    }
}

#[test]
fn other_words_are_reported_in_lowercase() {
    assert_eq!(bool_from_str("MayBe").unwrap_err().found, "maybe");
    assert_eq!(bool_from_str("").unwrap_err().found, "");
    assert_eq!(bool_from_str("10").unwrap_err().found, "10");
    assert_eq!(bool_from_str(" true").unwrap_err().found, " true");
    assert_eq!(bool_from_str("JA\u{c9}").unwrap_err().found, "ja\u{e9}");
}

#[test]
fn given_lowercase_form() {
    assert_eq!(read_bool("X", "on"), Some(true));
    assert_eq!(read_bool("X", "no"), Some(false));
    assert_eq!(read_bool("X", "t"), None);
    assert_eq!(read_bool("T", "anything"), Some(true));
    assert_eq!(read_bool("0", "true"), Some(false));
}

#[test]
fn message() {
    assert_eq!(
        expecting(),
        "truthy (t, true, 1, on, y, yes) or falsey (f, false, 0, off, n, no) string"
    );
}

#[test]
fn ascii_case_does_not_matter() {
    let pairs = [
        ("tRUe", "TRuE"),
        ("nO", "No"),
        ("t", "T"),
        ("MAYBE", "maybe"),
        ("TRUE\u{3a3}", "true\u{3a3}"),
        ("\u{c9}Yes", "\u{c9}yEs"),
        ("o\u{3a3}F", "O\u{3a3}f"),
        ("\u{212a}ON", "\u{212a}on"),
    ];
    for (s, t) in pairs {
        assert!(s.eq_ignore_ascii_case(t));
        match (bool_from_str(s), bool_from_str(t)) {
            (Ok(a), Ok(b)) => assert_eq!(a, b),
            (Err(a), Err(b)) => assert_eq!(a.found, b.found),
            _ => panic!("{} and {} differ", s, t),
        }
    }
}
