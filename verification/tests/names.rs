use bitter_dotcom_generator::names::{
    corpus, ensure_valid_names, invalid_message, lowercase_only, ngrams, shares_gram, valid_name,
    NameError,
};

fn strings(list: &[&str]) -> Vec<String> {
    list.iter().map(|s| s.to_string()).collect()
}

#[test]
fn validates_names_strictly() {
    assert!(ensure_valid_names(&strings(&["alpha", "beta"])).is_ok());
    assert!(ensure_valid_names(&strings(&["Alpha"])).is_err());
    assert!(ensure_valid_names(&strings(&["alpha", "alpha"])).is_err());
}

#[test]
fn the_first_bad_name_is_reported() {
    let e = ensure_valid_names(&strings(&["alpha", "be ta", "alpha"])).unwrap_err();
    assert!(matches!(&e, NameError::Invalid(n) if n == "be ta"));
    assert_eq!(
        e.message(),
        "invalid name: \"be ta\" (expected 1 to 63 lowercase a-z letters)"
    );
    let e = ensure_valid_names(&strings(&["alpha", "beta", "alpha", "X"])).unwrap_err();
    assert!(matches!(&e, NameError::Duplicate(n) if n == "alpha"));
    assert_eq!(e.message(), "duplicate name in input: alpha");
}

#[test]
fn messages_quote_with_escapes() {
    let e = NameError::Invalid("a\"\n".to_string());
    assert_eq!(
        e.message(),
        "invalid name: \"a\\\"\\n\" (expected 1 to 63 lowercase a-z letters)"
    );
    assert_eq!(
        invalid_message("\"A\""),
        "invalid name: \"A\" (expected 1 to 63 lowercase a-z letters)"
    );
}

#[test]
fn length_limits() {
    assert!(!valid_name(""));
    assert!(valid_name("a"));
    assert!(valid_name(&"a".repeat(63)));
    assert!(!valid_name(&"a".repeat(64)));
    assert!(!valid_name("é"));
    assert!(!valid_name("a-b"));
    assert!(lowercase_only(""));
}

#[test]
fn corpus_keeps_lowercase_lines() {
    let words = corpus("alpha\r\n  beta\t\n\nGamma\nx-y\n1\nlast");
    assert_eq!(words, strings(&["alpha", "beta", "last"]));
    assert!(corpus("").is_empty());
}

#[test]
fn ngrams_of_words() {
    let set = ngrams(&strings(&["abcd", "xy"]), 3);
    assert!(set.contains(b"abc"));
    assert!(set.contains(b"bcd"));
    assert!(!set.contains(b"xy"));
    assert!(!set.contains(b"abcd"));
    assert!(ngrams(&strings(&["abcd"]), 0).is_empty());
}

#[test]
fn shared_ngrams() {
    let set = ngrams(&strings(&["zendesk"]), 5);
    assert!(shares_gram("sendesk", 5, &set));
    assert!(!shares_gram("sendisk", 5, &set));
    assert!(!shares_gram("zend", 5, &set));
}
