use passgen::generators::{expand_captures, expand_unicode_sequences};

#[test]
fn expands_ranges_and_code_points() {
    let seqs = vec![
        "U+0041-U+0043".to_string(),
        "U+00F1".to_string(),
        "plain".to_string(),
        "x U+0031-U+0032 y".to_string(),
    ];
    assert_eq!(expand_unicode_sequences(&seqs), vec!['A', 'B', 'C', 'ñ', '1', '2']);
}

#[test]
fn expansion_skips_invalid_code_points() {
    let seqs = vec!["U+D800".to_string(), "U+D7FF-U+E000".to_string()];
    assert_eq!(expand_unicode_sequences(&seqs), vec!['\u{D7FF}', '\u{E000}']);
}

#[test]
fn expansion_of_nothing_is_empty() {
    assert_eq!(expand_unicode_sequences(&Vec::new()), Vec::<char>::new());
    assert_eq!(expand_unicode_sequences(&vec!["U+41".to_string()]), Vec::<char>::new());
}

#[test]
fn expansion_given_captures() {
    let range = Some(vec![
        Some("U+0061-U+0063".to_string()),
        Some("0061".to_string()),
        Some("0063".to_string()),
    ]);
    assert_eq!(expand_captures(&range, &None), vec!['a', 'b', 'c']);
    let single = Some(vec![Some("U+00E9".to_string()), Some("00E9".to_string())]);
    assert_eq!(expand_captures(&None, &single), vec!['é']);
    let bad = Some(vec![Some("x".to_string()), Some("zz".to_string())]);
    assert_eq!(expand_captures(&None, &bad), Vec::<char>::new());
    assert_eq!(expand_captures(&None, &None), Vec::<char>::new());
}
