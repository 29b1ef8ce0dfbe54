use passgen::pattern::{has_max_consecutive, parse_pattern, PatternElement};

#[test]
fn negated_block_then_wildcard() {
    let p = parse_pattern("(^digits){2,4}*").unwrap();
    assert_eq!(
        p,
        vec![
            PatternElement::SetBlock { name: "digits".to_string(), min: 2, max: 4, negate: true },
            PatternElement::Wildcard,
        ]
    );
}

#[test]
fn unterminated_block_fails() {
    assert_eq!(parse_pattern("(bad"), None);
    assert_eq!(parse_pattern("(upper){2}(bad"), None);
}

#[test]
fn quantity_forms() {
    let p = parse_pattern("  (upper){3}(lower){2,}(digits){1,5}  ").unwrap();
    assert_eq!(
        p,
        vec![
            PatternElement::SetBlock { name: "upper".to_string(), min: 3, max: 3, negate: false },
            PatternElement::SetBlock { name: "lower".to_string(), min: 2, max: 2, negate: false },
            PatternElement::SetBlock { name: "digits".to_string(), min: 1, max: 5, negate: false },
        ]
    );
}

#[test]
fn empty_pattern_is_empty() {
    assert_eq!(parse_pattern(""), Some(vec![]));
    assert_eq!(parse_pattern("   "), Some(vec![]));
}

#[test]
fn wildcards_anywhere() {
    assert_eq!(
        parse_pattern("**").unwrap(),
        vec![PatternElement::Wildcard, PatternElement::Wildcard]
    );
}

#[test]
fn malformed_blocks_fail() {
    assert_eq!(parse_pattern("(a){}"), None);
    assert_eq!(parse_pattern("(){2}"), None);
    assert_eq!(parse_pattern("(a,b){2}"), None);
    assert_eq!(parse_pattern("(a){2"), None);
    assert_eq!(parse_pattern("(a){99999999999999999999999}"), None);
    assert_eq!(parse_pattern("x"), None);
}

#[test]
fn caret_alone_is_a_name() {
    assert_eq!(
        parse_pattern("(^){1}").unwrap(),
        vec![PatternElement::SetBlock { name: "^".to_string(), min: 1, max: 1, negate: false }]
    );
}

#[test]
fn runs_longer_than_limit() {
    let aaab: Vec<char> = "aaab".chars().collect();
    let aabb: Vec<char> = "aabb".chars().collect();
    assert!(has_max_consecutive(&aaab, 2));
    assert!(!has_max_consecutive(&aabb, 2));
    assert!(!has_max_consecutive(&Vec::new(), 1));
    assert!(has_max_consecutive(&aabb, 1));
    assert!(!has_max_consecutive(&aaab, 3));
}
