use passgen::utils::{parse_unicode, parse_unicode_with, resolve_tokens, UtilsError};

#[test]
fn hex_range_resolves_ascending() {
    assert_eq!(parse_unicode("U+0041-U+0043").unwrap(), vec!['A', 'B', 'C']);
}

#[test]
fn letter_range_resolves_all_letters() {
    let v = parse_unicode("a-z").unwrap();
    let expected: Vec<char> = ('a'..='z').collect();
    assert_eq!(v.len(), 26);
    assert_eq!(v, expected);
}

#[test]
fn digit_range_resolves() {
    assert_eq!(parse_unicode("0-9").unwrap(), vec!['0', '1', '2', '3', '4', '5', '6', '7', '8', '9']);
}

#[test]
fn non_ascii_range_is_ascending_by_code_point() {
    let v = parse_unicode("Ñ-ß").unwrap();
    let expected: Vec<char> = (0xD1u32..=0xDF).map(|c| char::from_u32(c).unwrap()).collect();
    assert_eq!(v, expected);
    assert_eq!(v[0], 'Ñ');
    assert_eq!(*v.last().unwrap(), 'ß');
}

#[test]
fn two_cluster_side_is_literal() {
    assert_eq!(parse_unicode("AB-C").unwrap(), vec!['A', 'B', '-', 'C']);
}

#[test]
fn range_bounds_round_trip() {
    let v = parse_unicode("U+00E0-U+00E5").unwrap();
    assert_eq!(v[0] as u32, 0xE0);
    assert_eq!(*v.last().unwrap() as u32, 0xE5);
    let w = parse_unicode("k-q").unwrap();
    assert_eq!(w[0], 'k');
    assert_eq!(*w.last().unwrap(), 'q');
}

#[test]
fn hex_range_skips_surrogates() {
    let v = parse_unicode("U+D7FF-U+E000").unwrap();
    assert_eq!(v, vec!['\u{D7FF}', '\u{E000}']);
    assert_eq!(parse_unicode("U+D800-U+DFFF").unwrap(), Vec::<char>::new());
}

#[test]
fn single_code_point() {
    assert_eq!(parse_unicode("U+1F642").unwrap(), vec!['🙂']);
    assert_eq!(parse_unicode("U+00f1").unwrap(), vec!['ñ']);
}

#[test]
fn literal_text_keeps_every_char() {
    assert_eq!(parse_unicode("ABC").unwrap(), vec!['A', 'B', 'C']);
    assert_eq!(parse_unicode("e\u{301}x").unwrap(), vec!['e', '\u{301}', 'x']);
    assert_eq!(parse_unicode("").unwrap(), Vec::<char>::new());
}

#[test]
fn lone_hyphen_is_literal() {
    assert_eq!(parse_unicode("-").unwrap(), vec!['-']);
    assert_eq!(parse_unicode("a-b-c").unwrap(), vec!['a', '-', 'b', '-', 'c']);
}

#[test]
fn bad_hex_is_invalid_format() {
    assert_eq!(parse_unicode("U+ZZZZ"), Err(UtilsError::InvalidFormat("U+ZZZZ".to_string())));
    assert_eq!(parse_unicode("U+41"), Err(UtilsError::InvalidFormat("U+41".to_string())));
    assert_eq!(
        parse_unicode("U+0041-U+00G1"),
        Err(UtilsError::InvalidFormat("U+00G1".to_string()))
    );
}

#[test]
fn inverted_ranges_are_invalid() {
    assert_eq!(
        parse_unicode("U+0043-U+0041"),
        Err(UtilsError::InvalidRange("U+0043-U+0041".to_string()))
    );
    assert_eq!(parse_unicode("z-a"), Err(UtilsError::InvalidRange("z-a".to_string())));
}

#[test]
fn out_of_range_code_is_invalid() {
    assert_eq!(parse_unicode("U+D800"), Err(UtilsError::InvalidUnicodeCode("U+D800".to_string())));
    assert_eq!(parse_unicode("U+110000"), Err(UtilsError::InvalidUnicodeCode("U+110000".to_string())));
}

#[test]
fn token_lists_join_in_order_with_duplicates() {
    let items = vec!["a-c".to_string(), "U+0062".to_string(), "xy".to_string()];
    assert_eq!(resolve_tokens(&items).unwrap(), vec!['a', 'b', 'c', 'b', 'x', 'y']);
    let bad = vec!["ab".to_string(), "U+XYZW".to_string()];
    assert_eq!(resolve_tokens(&bad), Err(UtilsError::InvalidFormat("U+XYZW".to_string())));
}

#[test]
fn resolution_given_cluster_answer() {
    assert_eq!(parse_unicode_with("a-c", true).unwrap(), vec!['a', 'b', 'c']);
    assert_eq!(parse_unicode_with("a-c", false).unwrap(), vec!['a', '-', 'c']);
    assert_eq!(parse_unicode_with("-", true).unwrap(), vec!['-']);
    assert_eq!(parse_unicode_with("c-a", true), Err(UtilsError::InvalidRange("c-a".to_string())));
    assert_eq!(parse_unicode_with("U+0041-U+0042", false).unwrap(), vec!['A', 'B']);
    assert_eq!(parse_unicode_with("xyz", true).unwrap(), vec!['x', 'y', 'z']);
}

#[test]
fn reformatted_range_resolves_the_same() {
    for token in ["k-q", "U+00E0-U+00E5", "Ñ-ß", "U+D7FE-U+E001"] {
        let v = parse_unicode(token).unwrap();
        let again = format!("U+{:06X}-U+{:06X}", v[0] as u32, *v.last().unwrap() as u32);
        assert_eq!(parse_unicode(&again).unwrap(), v);
    }
}
