use passgen::config::{
    overlap, Charset, CharsetConstraint, Config, Constraint, Profile, Rules, RulesConstraint,
    Validator, Version,
};
use passgen::error::PasswordGenError;
use passgen::generators::{validate_config, Properties, ValidationError};
use passgen::utils::UtilsError;

fn profile(id: u128, name: &str) -> Profile {
    Profile { id, name: name.to_string() }
}

fn rules(length: Constraint) -> Rules {
    Rules {
        length,
        included: None,
        excluded: None,
        max_consecutive: None,
        min_entropy_bits: None,
        pattern: None,
        charsets_rules: Vec::new(),
    }
}

fn charset(entries: &[(&str, &str)]) -> Charset {
    Charset {
        charsets: entries
            .iter()
            .map(|(n, t)| (n.to_string(), CharsetConstraint::One(t.to_string())))
            .collect(),
    }
}

fn version(major: u64, minor: u64, patch: u64) -> Version {
    Version { major, minor, patch, pre: String::new(), build: String::new() }
}

fn config() -> Config {
    Config {
        version: version(0, 1, 0),
        profile: profile(7, "work"),
        rules: rules(Constraint::Range { min: 8, max: 16 }),
        charset: charset(&[("lower", "a-z"), ("digits", "0-9")]),
    }
}

fn is_invalid_config<T>(r: &Result<T, PasswordGenError>) -> bool {
    matches!(r, Err(PasswordGenError::InvalidConfig(_)))
}

#[test]
fn equal_bounds_become_exact() {
    assert_eq!(Constraint::Range { min: 5, max: 5 }.normalized(), Ok(Constraint::Exact(5)));
    assert_eq!(
        Constraint::Range { min: 5, max: 9 }.normalized(),
        Ok(Constraint::Range { min: 5, max: 9 })
    );
}

#[test]
fn inverted_and_zero_lengths_fail() {
    assert!(is_invalid_config(&Constraint::Range { min: 6, max: 5 }.normalized()));
    assert!(is_invalid_config(&Constraint::Exact(0).normalized()));
    assert!(is_invalid_config(&Constraint::Range { min: 0, max: 5 }.normalized()));
}

#[test]
fn profile_checks() {
    assert!(is_invalid_config(&profile(0, "work").check()));
    assert!(is_invalid_config(&profile(1, &"x".repeat(256)).check()));
    assert!(is_invalid_config(&profile(1, "").check()));
    assert!(is_invalid_config(&profile(1, " \t ").check()));
    assert_eq!(profile(1, &"x".repeat(255)).check(), Ok(()));
    assert_eq!(profile(1, "a").check(), Ok(()));
}

#[test]
fn empty_registry_fails() {
    let mut c = Charset { charsets: Vec::new() };
    assert!(is_invalid_config(&c.validate()));
}

#[test]
fn set_resolving_to_nothing_fails() {
    assert!(is_invalid_config(&charset(&[("none", "")]).check()));
    assert!(is_invalid_config(&charset(&[("surrogates", "U+D800-U+DFFF")]).check()));
    assert_eq!(charset(&[("lower", "a-z")]).check(), Ok(()));
}

#[test]
fn malformed_set_token_fails() {
    assert_eq!(
        charset(&[("bad", "z-a")]).check(),
        Err(PasswordGenError::InvalidToken(UtilsError::InvalidRange("z-a".to_string())))
    );
}

#[test]
fn duplicate_set_names_fail() {
    assert!(is_invalid_config(&charset(&[("x", "a"), ("x", "b")]).check()));
}

#[test]
fn resolve_set_joins_tokens_keeping_duplicates() {
    let c = Charset {
        charsets: vec![(
            "mix".to_string(),
            CharsetConstraint::Multiple(vec!["a-c".to_string(), "b".to_string()]),
        )],
    };
    assert_eq!(c.resolve_set(&"mix".to_string()).unwrap(), vec!['a', 'b', 'c', 'b']);
    assert!(is_invalid_config(&c.resolve_set(&"other".to_string())));
}

#[test]
fn rules_normalize_in_place() {
    let mut r = rules(Constraint::Range { min: 12, max: 12 });
    r.included = Some(Vec::new());
    r.excluded = Some(vec!["0-9".to_string()]);
    r.max_consecutive = Some(0);
    r.min_entropy_bits = Some(0);
    assert_eq!(r.validate(), Ok(()));
    assert_eq!(r.length, Constraint::Exact(12));
    assert_eq!(r.included, None);
    assert_eq!(r.excluded, Some(vec!["0-9".to_string()]));
    assert_eq!(r.max_consecutive, None);
    assert_eq!(r.min_entropy_bits, None);
}

#[test]
fn failed_rules_are_left_unchanged() {
    let mut r = rules(Constraint::Range { min: 6, max: 5 });
    r.max_consecutive = Some(0);
    assert!(is_invalid_config(&r.validate()));
    assert_eq!(r.length, Constraint::Range { min: 6, max: 5 });
    assert_eq!(r.max_consecutive, Some(0));
}

#[test]
fn bad_list_token_fails() {
    let mut r = rules(Constraint::Exact(8));
    r.included = Some(vec!["U+GGGG".to_string()]);
    assert!(is_invalid_config(&r.validate()));
}

#[test]
fn list_resolving_to_nothing_becomes_absent() {
    let mut r = rules(Constraint::Exact(8));
    r.included = Some(vec!["U+D800-U+DFFF".to_string()]);
    r.excluded = Some(vec!["".to_string()]);
    assert_eq!(r.validate(), Ok(()));
    assert_eq!(r.included, None);
    assert_eq!(r.excluded, None);
}

#[test]
fn repeated_rule_name_fails() {
    let mut r = rules(Constraint::Exact(8));
    r.charsets_rules = vec![
        ("digits".to_string(), RulesConstraint::Exact(1)),
        ("digits".to_string(), RulesConstraint::Exact(2)),
    ];
    assert!(is_invalid_config(&r.validate()));
}

#[test]
fn blank_name_with_ideographic_space_fails() {
    assert!(is_invalid_config(&profile(1, "\u{3000}\u{85}").check()));
    assert_eq!(profile(1, "\u{200B}").check(), Ok(()));
}

#[test]
fn incompatible_version_carries_version_and_range() {
    let mut c = config();
    c.version = version(2, 3, 4);
    assert_eq!(
        c.validate(),
        Err(PasswordGenError::IncompatibleVersion(version(2, 3, 4), ">=0.1.0, <1.0.0".to_string()))
    );
    assert_eq!(c.version.is_compatible(), Some(false));
    assert_eq!(version(0, 2, 0).is_compatible(), Some(true));
}

#[test]
fn profile_error_comes_before_charset_error() {
    let mut c = config();
    c.profile = profile(0, "work");
    c.charset = Charset { charsets: Vec::new() };
    assert_eq!(
        c.validate(),
        Err(PasswordGenError::InvalidConfig("Profile ID cannot be the nil UUID".to_string()))
    );
}

#[test]
fn charset_bad_token_is_reported() {
    let mut c = config();
    c.charset = charset(&[("lower", "a-z"), ("bad", "U+12")]);
    c.rules.charsets_rules = vec![("bad".to_string(), RulesConstraint::Exact(1))];
    assert_eq!(
        c.get_charset(),
        Err(PasswordGenError::InvalidToken(UtilsError::InvalidFormat("U+12".to_string())))
    );
}

#[test]
fn include_exclude_overlap_is_a_warning() {
    let mut r = rules(Constraint::Exact(8));
    r.included = Some(vec!["a-e".to_string()]);
    r.excluded = Some(vec!["d-h".to_string(), "a".to_string()]);
    assert_eq!(r.reintroduced_chars().unwrap(), vec!['a', 'd', 'e']);
    assert_eq!(r.validate(), Ok(()));
    assert_eq!(overlap(&vec!['x', 'x'], &vec!['x']), vec!['x']);
    assert_eq!(overlap(&vec!['x'], &vec!['y']), Vec::<char>::new());
}

#[test]
fn whole_config_validates() {
    let mut c = config();
    c.rules.pattern = Some("(^digits){2,4}(lower){3}*".to_string());
    c.rules.charsets_rules = vec![("lower".to_string(), RulesConstraint::Range { min: 1, max: None })];
    assert_eq!(c.validate(), Ok(()));
}

#[test]
fn incompatible_version_fails() {
    let mut c = config();
    c.version = version(1, 0, 0);
    assert!(matches!(c.validate(), Err(PasswordGenError::IncompatibleVersion(_, _))));
    let mut c = config();
    c.version = version(0, 0, 9);
    assert!(matches!(c.validate(), Err(PasswordGenError::IncompatibleVersion(_, _))));
    let mut c = config();
    c.version = Version { pre: "alpha".to_string(), ..version(0, 5, 0) };
    assert!(matches!(c.validate(), Err(PasswordGenError::IncompatibleVersion(_, _))));
    let mut c = config();
    c.version = version(0, 9, 3);
    assert_eq!(c.validate(), Ok(()));
}

#[test]
fn pattern_cross_reference() {
    let mut c = config();
    c.rules.pattern = Some("(bad".to_string());
    assert_eq!(c.validate(), Err(PasswordGenError::InvalidPattern("(bad".to_string())));
    let mut c = config();
    c.rules.pattern = Some("(symbols){2}".to_string());
    assert!(is_invalid_config(&c.validate()));
    let mut c = config();
    c.rules.pattern = Some("(digits){2}".to_string());
    c.rules.charsets_rules = vec![("digits".to_string(), RulesConstraint::Exact(3))];
    assert!(is_invalid_config(&c.validate()));
    c.rules.charsets_rules = vec![("digits".to_string(), RulesConstraint::Exact(2))];
    assert_eq!(c.validate(), Ok(()));
}

#[test]
fn failed_config_is_left_unchanged() {
    let mut c = config();
    c.rules.length = Constraint::Range { min: 9, max: 9 };
    c.rules.pattern = Some("(symbols){1}".to_string());
    assert!(is_invalid_config(&c.validate()));
    assert_eq!(c.rules.length, Constraint::Range { min: 9, max: 9 });
}

#[test]
fn charset_for_rules() {
    let mut c = config();
    c.rules.charsets_rules = vec![
        ("digits".to_string(), RulesConstraint::Exact(2)),
        ("lower".to_string(), RulesConstraint::Exact(1)),
    ];
    let v = c.get_charset().unwrap();
    assert_eq!(v.len(), 36);
    assert_eq!(v[0], '0');
    assert_eq!(v[10], 'a');
    c.rules.charsets_rules = vec![("nope".to_string(), RulesConstraint::Exact(2))];
    assert!(is_invalid_config(&c.get_charset()));
}

#[test]
fn generator_type_must_be_password() {
    let mut p = Properties {
        version: "0.1.0".to_string(),
        lang: vec!["en".to_string()],
        name: "demo".to_string(),
        generation_type: "password".to_string(),
    };
    assert_eq!(validate_config(&p), Ok(()));
    p.generation_type = "passphrase".to_string();
    assert_eq!(validate_config(&p), Err(ValidationError::InvalidFileType("passphrase".to_string())));
}
