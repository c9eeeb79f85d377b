use topiq::topic::{split_tokens, MAX_SUBJECT_LEN};
use topiq::{PubSubError, Subject};

fn reason(raw: &str) -> String {
    match Subject::new(raw) {
        Err(PubSubError::InvalidSubject { reason }) => reason,
        other => panic!("expected an invalid subject, got {:?}", other),
    }
}

#[test]
fn valid_simple_subject() {
    assert!(Subject::new("sensors.temp.room1").is_ok());
}

#[test]
fn valid_single_token() {
    assert!(Subject::new("hello").is_ok());
}

#[test]
fn valid_wildcard_star() {
    assert!(Subject::new("sensors.*.room1").is_ok());
}

#[test]
fn valid_wildcard_gt() {
    assert!(Subject::new("sensors.>").is_ok());
}

#[test]
fn valid_star_only() {
    assert!(Subject::new("*").is_ok());
}

#[test]
fn valid_gt_only() {
    assert!(Subject::new(">").is_ok());
}

#[test]
fn invalid_empty() {
    assert!(Subject::new("").is_err());
}

#[test]
fn invalid_double_dot() {
    assert!(Subject::new("sensors..temp").is_err());
}

#[test]
fn invalid_leading_dot() {
    assert!(Subject::new(".sensors").is_err());
}

#[test]
fn invalid_trailing_dot() {
    assert!(Subject::new("sensors.").is_err());
}

#[test]
fn invalid_gt_not_last() {
    assert!(Subject::new("sensors.>.temp").is_err());
}

#[test]
fn invalid_mixed_wildcard() {
    assert!(Subject::new("sensors.te*").is_err());
}

#[test]
fn tokens_returns_segments() {
    let s = Subject::new("a.b.c").unwrap();
    let tokens: Vec<String> = s.tokens();
    assert_eq!(tokens, vec!["a".to_string(), "b".to_string(), "c".to_string()]);
}

#[test]
fn is_wildcard_detection() {
    assert!(!Subject::new("a.b").unwrap().is_wildcard());
    assert!(Subject::new("a.*").unwrap().is_wildcard());
    assert!(Subject::new("a.>").unwrap().is_wildcard());
}

#[test]
fn display_roundtrip() {
    let s = Subject::new("foo.bar").unwrap();
    assert_eq!(s.to_string(), "foo.bar");
}

#[test]
fn rejection_reasons_name_the_first_broken_rule() {
    assert_eq!(reason(""), "subject cannot be empty");
    assert_eq!(reason(".a"), "subject cannot start or end with '.'");
    assert_eq!(reason("a."), "subject cannot start or end with '.'");
    assert_eq!(reason("a..b"), "subject cannot contain empty tokens (double dots)");
    assert_eq!(reason("a.>.b"), "'>' wildcard must be the last token");
    assert_eq!(reason("a.b*c"), "wildcard token 'b*c' must stand alone");
    assert_eq!(reason("a.>>"), "wildcard token '>>' must stand alone");
}

#[test]
fn length_limit_is_in_bytes() {
    let exact = "a".repeat(MAX_SUBJECT_LEN);
    assert!(Subject::new(&exact).is_ok());
    let long = "a".repeat(MAX_SUBJECT_LEN + 1);
    assert_eq!(
        reason(&long),
        "subject exceeds maximum length of 256 bytes (got 257)"
    );
    // 100 two-byte characters: 100 characters, 200 bytes.
    let wide = "é".repeat(100);
    assert!(Subject::new(&wide).is_ok());
    // 130 two-byte characters: 130 characters, 260 bytes.
    let wider = "é".repeat(130);
    assert_eq!(
        reason(&wider),
        "subject exceeds maximum length of 256 bytes (got 260)"
    );
}

#[test]
fn token_count_counts_segments() {
    assert_eq!(Subject::new("a").unwrap().token_count(), 1);
    assert_eq!(Subject::new("a.b.c").unwrap().token_count(), 3);
    assert_eq!(Subject::new("sensors.*.>").unwrap().token_count(), 3);
}

#[test]
fn as_str_gives_back_the_text() {
    assert_eq!(Subject::new("x.y.z").unwrap().as_str(), "x.y.z");
}

#[test]
fn split_tokens_keeps_empty_tokens() {
    assert_eq!(split_tokens(""), vec![String::new()]);
    assert_eq!(
        split_tokens("a..b."),
        vec!["a".to_string(), String::new(), "b".to_string(), String::new()]
    );
    assert_eq!(split_tokens("é.ü"), vec!["é".to_string(), "ü".to_string()]);
}

#[test]
fn longest_subject_has_at_most_128_tokens() {
    let text = vec!["a"; 128].join(".");
    assert_eq!(text.len(), 255);
    let s = Subject::new(&text).unwrap();
    assert_eq!(s.token_count(), 128);
    assert_eq!(s.tokens().join("."), text);
}
