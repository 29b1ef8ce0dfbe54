//! The generator-description format: properties, requirements and
//! language sets.

use vstd::prelude::*;

use crate::utils::{
    char_from_code, chars_between, codes, codes_between, hex_digits, is_scalar, parse_hex_digits,
    to_chars,
};

verus! {

/// What a generator description says of itself.
#[derive(Debug, PartialEq, Eq)]
pub struct Properties {
    pub version: String,
    pub lang: Vec<String>,
    pub name: String,
    /// The kind of generator described; only `password` is read.
    pub generation_type: String,
}

/// The required length of a generated password.
#[derive(Debug, PartialEq, Eq, Clone, Copy)]
pub enum LengthRequirement {
    Range { min: usize, max: usize },
    Exact(usize),
}

/// How many characters of a named set a password must hold.
#[derive(Debug, PartialEq, Eq, Clone, Copy)]
pub enum SetRequirement {
    Range { min: usize, max: Option<usize> },
    Exact(usize),
}

/// The length requirement and the per-set requirements, by set name.
#[derive(Debug, PartialEq, Eq)]
pub struct Requirements {
    pub length: LengthRequirement,
    pub sets: Vec<(String, SetRequirement)>,
}

/// Tokens whose characters are allowed.
#[derive(Debug, PartialEq, Eq)]
pub struct Allowed {
    pub tokens: Vec<String>,
}

/// Tokens whose characters are not allowed.
#[derive(Debug, PartialEq, Eq)]
pub struct NotAllowed {
    pub tokens: Vec<String>,
}

/// The named sets of one language, each a list of tokens.
#[derive(Debug, PartialEq, Eq)]
pub struct LanguageSets {
    pub sets: Vec<(String, Vec<String>)>,
}

/// Why a generator description was rejected.
#[derive(Debug, PartialEq, Eq)]
pub enum ValidationError {
    /// The description is of another kind than `password`; the kind found.
    InvalidFileType(String),
}

/// Checks that a generator description describes a password generator.
pub fn validate_config(properties: &Properties) -> (r: Result<(), ValidationError>)
    ensures
        r is Ok <==> properties.generation_type@ == "password"@,
        r matches Err(ValidationError::InvalidFileType(t)) ==> t@ == properties.generation_type@,
{
    let expected = "password".to_owned();
    if properties.generation_type == expected {
        Ok(())
    } else {
        Err(ValidationError::InvalidFileType(properties.generation_type.clone()))
    }
}


/// The capture groups of the leftmost match of a regular expression in a
/// text, group 0 first; `None` when the expression does not compile or does
/// not match.
pub uninterp spec fn regex_captures(pattern: Seq<char>, text: Seq<char>) -> Option<
    Seq<Option<Seq<char>>>,
>;

pub open spec fn group_views(v: Seq<Option<String>>) -> Seq<Option<Seq<char>>> {
    v.map_values(
        |g: Option<String>|
            match g {
                Some(s) => Some(s@),
                None => None,
            },
    )
}

/// Relies on `regex::Regex::new` and `Regex::captures`: the groups of the
/// leftmost match, each `None` where it took no part in it.
#[verifier::external_body]
fn captures_of(pattern: &str, text: &str) -> (r: Option<Vec<Option<String>>>)
    ensures
        r matches Some(v) ==> regex_captures(pattern@, text@) == Some(group_views(v@)),
        r is None ==> regex_captures(pattern@, text@) is None,
{
    let re = regex::Regex::new(pattern).ok()?;
    let caps = re.captures(text)?;
    Some(caps.iter().map(|m| m.map(|m| m.as_str().to_owned())).collect())
}

/// A `U+XXXX-U+YYYY` range anywhere in a text.
pub const RANGE_PATTERN: &'static str = r"U\+([0-9A-Fa-f]{4,6})-U\+([0-9A-Fa-f]{4,6})";

/// A `U+XXXX` code point anywhere in a text.
pub const SINGLE_PATTERN: &'static str = r"U\+([0-9A-Fa-f]{4,6})";

/// The value of capture group `i`, if it took part and holds four to six
/// hexadecimal digits.
pub open spec fn group_value(groups: Seq<Option<Seq<char>>>, i: int) -> Option<int> {
    if 0 <= i < groups.len() {
        match groups[i] {
            Some(d) => hex_digits(d),
            None => None,
        }
    } else {
        None
    }
}

/// The code points that one sequence contributes, given the groups of the
/// range expression's match and of the single code point expression's
/// match: the range if the first matched, else the code point, else none.
pub open spec fn expand_given(
    range: Option<Seq<Option<Seq<char>>>>,
    single: Option<Seq<Option<Seq<char>>>>,
) -> Seq<int> {
    match range {
        Some(g) => match (group_value(g, 1), group_value(g, 2)) {
            (Some(lo), Some(hi)) => codes_between(lo, hi),
            _ => Seq::empty(),
        },
        None => match single {
            Some(g) => match group_value(g, 1) {
                Some(v) => if is_scalar(v) {
                    seq![v]
                } else {
                    Seq::empty()
                },
                None => Seq::empty(),
            },
            None => Seq::empty(),
        },
    }
}

/// The code points that one sequence contributes: the first range written
/// in it, else the first code point written in it, else none.
pub open spec fn expand_one(s: Seq<char>) -> Seq<int> {
    expand_given(regex_captures(RANGE_PATTERN@, s), regex_captures(SINGLE_PATTERN@, s))
}

pub open spec fn opt_group_views(v: Option<Vec<Option<String>>>) -> Option<
    Seq<Option<Seq<char>>>,
> {
    match v {
        Some(g) => Some(group_views(g@)),
        None => None,
    }
}

pub open spec fn expand_all(ss: Seq<Seq<char>>) -> Seq<int>
    decreases ss.len(),
{
    if ss.len() == 0 {
        Seq::empty()
    } else {
        expand_all(ss.drop_last()) + expand_one(ss.last())
    }
}

/// The value of capture group `i` as the digits it holds.
fn group_code(groups: &Vec<Option<String>>, i: usize) -> (r: Option<u32>)
    ensures
        r is Some <==> group_value(group_views(groups@), i as int) is Some,
        r matches Some(v) ==> group_value(group_views(groups@), i as int) == Some(v as int) && v
            < 0x1000000,
{
    if i >= groups.len() {
        return None;
    }
    match &groups[i] {
        None => None,
        Some(g) => {
            let d = to_chars(g.as_str());
            assert(d@.skip(0) =~= d@);
            parse_hex_digits(&d, 0)
        },
    }
}

/// The characters one sequence contributes, given the capture groups of
/// [`RANGE_PATTERN`] and of [`SINGLE_PATTERN`] in it (`None` where the
/// expression did not match).
pub fn expand_captures(
    range: &Option<Vec<Option<String>>>,
    single: &Option<Vec<Option<String>>>,
) -> (r: Vec<char>)
    ensures
        codes(r@) == expand_given(opt_group_views(*range), opt_group_views(*single)),
{
    let empty: Vec<char> = Vec::new();
    assert(codes(empty@) =~= Seq::<int>::empty());
    match range {
        Some(groups) => match (group_code(groups, 1), group_code(groups, 2)) {
            (Some(lo), Some(hi)) => chars_between(lo, hi),
            _ => empty,
        },
        None => match single {
            Some(groups) => match group_code(groups, 1) {
                Some(code) => match char_from_code(code) {
                    Some(ch) => {
                        let v = vec![ch];
                        assert(codes(v@) =~= seq![code as int]);
                        v
                    },
                    None => empty,
                },
                None => empty,
            },
            None => empty,
        },
    }
}

/// The characters one sequence contributes.
fn expand_sequence(seq: &str) -> (r: Vec<char>)
    ensures
        codes(r@) == expand_one(seq@),
{
    let range = captures_of(RANGE_PATTERN, seq);
    if range.is_some() {
        expand_captures(&range, &None)
    } else {
        let single = captures_of(SINGLE_PATTERN, seq);
        expand_captures(&range, &single)
    }
}

/// Expands `U+XXXX-U+YYYY` ranges and `U+XXXX` code points found in each
/// sequence into characters, in order; a sequence holding neither adds
/// nothing.
pub fn expand_unicode_sequences(sequences: &Vec<String>) -> (r: Vec<char>)
    ensures
        codes(r@) == expand_all(crate::utils::string_views(sequences@)),
{
    let mut chars: Vec<char> = Vec::new();
    let mut j: usize = 0;
    assert(codes(chars@) =~= Seq::<int>::empty());
    assert(crate::utils::string_views(sequences@.take(0)) =~= Seq::<Seq<char>>::empty());
    while j < sequences.len()
        invariant
            j <= sequences@.len(),
            codes(chars@) == expand_all(crate::utils::string_views(sequences@.take(j as int))),
        decreases sequences@.len() - j,
    {
        let ghost prev = chars@;
        let mut more = expand_sequence(sequences[j].as_str());
        let ghost got = more@;
        chars.append(&mut more);
        proof {
            let ts = crate::utils::string_views(sequences@.take(j as int + 1));
            assert(ts.drop_last() =~= crate::utils::string_views(sequences@.take(j as int)));
            assert(ts.last() == sequences@[j as int]@);
            assert(codes(chars@) =~= codes(prev) + codes(got));
        }
        j = j + 1;
    }
    assert(sequences@.take(sequences@.len() as int) =~= sequences@);
    chars
}

} // verus!
