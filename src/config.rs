//! The configuration's data model and its validation.

use vstd::prelude::*;

use crate::error::PasswordGenError;
use crate::pattern::{parse_pattern, pattern_elements, ElementModel, PatternElement};
use crate::utils::{
    codes, is_white_space, resolve_list, resolve_tokens, string_views, white_space, TokenFault,
};

verus! {

/// A semantic version: `major.minor.patch`, with optional pre-release and
/// build identifiers (empty when absent).
#[derive(Debug, PartialEq, Eq)]
pub struct Version {
    pub major: u64,
    pub minor: u64,
    pub patch: u64,
    pub pre: String,
    pub build: String,
}

/// The required length of a password.
#[derive(Debug, PartialEq, Eq, Clone, Copy)]
pub enum Constraint {
    Range { min: usize, max: usize },
    Exact(usize),
}

/// How many characters of a named set a password must hold.
#[derive(Debug, PartialEq, Eq, Clone, Copy)]
pub enum RulesConstraint {
    Range { min: usize, max: Option<usize> },
    Exact(usize),
}

/// A named set's definition: one token or a list of tokens.
#[derive(Debug, PartialEq, Eq)]
pub enum CharsetConstraint {
    Multiple(Vec<String>),
    One(String),
}

/// Who a configuration belongs to. `id` is the profile's UUID as its 128-bit value.
#[derive(Debug, PartialEq, Eq)]
pub struct Profile {
    pub id: u128,
    pub name: String,
}

pub open spec fn all_white_space(s: Seq<char>) -> bool {
    forall|i: int| 0 <= i < s.len() ==> white_space(#[trigger] s[i])
}

pub const MIN_NAME_LENGTH: usize = 1;

pub const MAX_NAME_LENGTH: usize = 255;

/// A profile is valid when its id is not the nil UUID and its name, not
/// blank, has between one and 255 characters.
pub open spec fn profile_ok(id: u128, name: Seq<char>) -> bool {
    id != 0 && !all_white_space(name) && MIN_NAME_LENGTH <= name.len() <= MAX_NAME_LENGTH
}

fn is_blank(s: &str) -> (r: bool)
    ensures
        r == all_white_space(s@),
{
    let n = s.unicode_len();
    let mut i: usize = 0;
    while i < n
        invariant
            n == s@.len(),
            i <= n,
            forall|j: int| 0 <= j < i ==> white_space(#[trigger] s@[j]),
        decreases n - i,
    {
        if !is_white_space(s.get_char(i)) {
            return false;
        }
        i = i + 1;
    }
    true
}

impl Profile {
    /// Checks the profile's id and name.
    pub fn check(&self) -> (r: Result<(), PasswordGenError>)
        ensures
            r is Ok <==> profile_ok(self.id, self.name@),
            r matches Err(e) ==> e is InvalidConfig,
    {
        if self.id == 0 {
            return Err(PasswordGenError::InvalidConfig("Profile ID cannot be the nil UUID".to_owned()));
        }
        if is_blank(self.name.as_str()) {
            return Err(PasswordGenError::InvalidConfig("Profile name cannot be empty".to_owned()));
        }
        let len = self.name.as_str().unicode_len();
        if !(MIN_NAME_LENGTH <= len && len <= MAX_NAME_LENGTH) {
            return Err(
                PasswordGenError::InvalidConfig(
                    "Profile name must be between 1 and 255 characters".to_owned(),
                ),
            );
        }
        Ok(())
    }
}

/// The normal form of a length constraint, or `None` when it is rejected:
/// zero or inverted bounds fail, and a range with equal bounds becomes exact.
pub open spec fn normal_length(c: Constraint) -> Option<Constraint> {
    match c {
        Constraint::Range { min, max } => if min > max || min == 0 || max == 0 {
            None
        } else if min == max {
            Some(Constraint::Exact(min))
        } else {
            Some(c)
        },
        Constraint::Exact(n) => if n == 0 {
            None
        } else {
            Some(c)
        },
    }
}

impl Constraint {
    /// The constraint in normal form: equal bounds collapse to `Exact`; an
    /// inverted range or a zero bound is an error.
    pub fn normalized(&self) -> (r: Result<Constraint, PasswordGenError>)
        ensures
            r matches Ok(c) ==> normal_length(*self) == Some(c),
            r is Err <==> normal_length(*self) is None,
            r matches Err(e) ==> e is InvalidConfig,
    {
        match *self {
            Constraint::Range { min, max } => {
                if min > max {
                    Err(
                        PasswordGenError::InvalidConfig(
                            "Minimum length cannot be greater than maximum length".to_owned(),
                        ),
                    )
                } else if min == 0 || max == 0 {
                    Err(
                        PasswordGenError::InvalidConfig(
                            "Length constraints must be greater than zero".to_owned(),
                        ),
                    )
                } else if min == max {
                    Ok(Constraint::Exact(min))
                } else {
                    Ok(*self)
                }
            },
            Constraint::Exact(value) => {
                if value == 0 {
                    Err(PasswordGenError::InvalidConfig("Length must be greater than zero".to_owned()))
                } else {
                    Ok(*self)
                }
            },
        }
    }
}


/// A check that a configuration part performs on itself, normalizing it in
/// place only when it succeeds.
pub trait Validator: Sized {
    /// The part passes the check.
    spec fn accepted(&self) -> bool;

    /// The part after normalization.
    spec fn normal_form(&self) -> Self;

    /// The errors the check may give on this part.
    spec fn rejects_with(&self, e: PasswordGenError) -> bool;

    /// Checks the part; on success it takes its normal form, on failure it
    /// is left as it was.
    fn validate(&mut self) -> (r: Result<(), PasswordGenError>)
        ensures
            r is Ok <==> old(self).accepted(),
            r is Ok ==> *final(self) == old(self).normal_form(),
            r is Err ==> *final(self) == *old(self),
            r matches Err(e) ==> old(self).rejects_with(e),
    ;
}

impl Validator for Profile {
    open spec fn accepted(&self) -> bool {
        profile_ok(self.id, self.name@)
    }

    open spec fn normal_form(&self) -> Profile {
        *self
    }

    /// A rejected profile is an invalid configuration.
    open spec fn rejects_with(&self, e: PasswordGenError) -> bool {
        e is InvalidConfig
    }

    fn validate(&mut self) -> (r: Result<(), PasswordGenError>) {
        self.check()
    }
}

/// The registry of named character sets. Each name stands once.
#[derive(Debug, PartialEq, Eq)]
pub struct Charset {
    pub charsets: Vec<(String, CharsetConstraint)>,
}

/// The tokens of a set definition.
pub open spec fn definition_tokens(d: CharsetConstraint) -> Seq<Seq<char>> {
    match d {
        CharsetConstraint::Multiple(v) => string_views(v@),
        CharsetConstraint::One(s) => seq![s@],
    }
}

/// The first index at or after `i` of the set called `name`.
pub open spec fn index_of_set(
    entries: Seq<(String, CharsetConstraint)>,
    name: Seq<char>,
    i: int,
) -> Option<int>
    decreases entries.len() - i,
{
    if i < 0 || i >= entries.len() {
        None
    } else if entries[i].0@ == name {
        Some(i)
    } else {
        index_of_set(entries, name, i + 1)
    }
}

pub open spec fn set_names_distinct(entries: Seq<(String, CharsetConstraint)>) -> bool {
    forall|i: int, j: int|
        0 <= i < j < entries.len() ==> #[trigger] entries[i].0@ != #[trigger] entries[j].0@
}

/// A definition that resolves to at least one character.
pub open spec fn definition_ok(d: CharsetConstraint) -> bool {
    match resolve_list(definition_tokens(d)) {
        Ok(cs) => cs.len() > 0,
        Err(_) => false,
    }
}

/// A registry is valid when it names at least one set, each name once, and
/// every definition resolves to at least one character.
pub open spec fn charset_ok(entries: Seq<(String, CharsetConstraint)>) -> bool {
    &&& entries.len() > 0
    &&& set_names_distinct(entries)
    &&& forall|i: int| 0 <= i < entries.len() ==> definition_ok(#[trigger] entries[i].1)
}

/// Entry `i` repeats an earlier name, or its definition fails or resolves
/// to nothing.
pub open spec fn entry_fails(entries: Seq<(String, CharsetConstraint)>, i: int) -> bool {
    (exists|j: int| 0 <= j < i && #[trigger] entries[j].0@ == entries[i].0@) || !definition_ok(
        entries[i].1,
    )
}

/// The registry check stops at entry `i` on a token that does not resolve.
pub open spec fn token_fault_at(entries: Seq<(String, CharsetConstraint)>, i: int) -> bool {
    &&& 0 <= i < entries.len()
    &&& forall|k: int| 0 <= k < i ==> !#[trigger] entry_fails(entries, k)
    &&& forall|j: int| 0 <= j < i ==> #[trigger] entries[j].0@ != entries[i].0@
    &&& resolve_list(definition_tokens(entries[i].1)) is Err
}

/// Resolves a set definition, token by token.
pub fn resolve_definition(d: &CharsetConstraint) -> (r: Result<Vec<char>, crate::utils::UtilsError>)
    ensures
        match r {
            Ok(v) => resolve_list(definition_tokens(*d)) == Ok::<Seq<int>, TokenFault>(codes(v@)),
            Err(e) => resolve_list(definition_tokens(*d)) == Err::<Seq<int>, TokenFault>(e@),
        },
{
    match d {
        CharsetConstraint::Multiple(v) => resolve_tokens(v),
        CharsetConstraint::One(s) => {
            let v = vec![s.clone()];
            assert(string_views(v@) =~= seq![s@]);
            resolve_tokens(&v)
        },
    }
}

impl Charset {
    /// The position of the set called `name`.
    pub fn find_set(&self, name: &String) -> (r: Option<usize>)
        ensures
            match r {
                Some(i) => index_of_set(self.charsets@, name@, 0) == Some(i as int),
                None => index_of_set(self.charsets@, name@, 0) is None,
            },
            r matches Some(i) ==> i < self.charsets@.len(),
    {
        let mut i: usize = 0;
        while i < self.charsets.len()
            invariant
                i <= self.charsets@.len(),
                index_of_set(self.charsets@, name@, 0) == index_of_set(
                    self.charsets@,
                    name@,
                    i as int,
                ),
            decreases self.charsets@.len() - i,
        {
            if self.charsets[i].0 == *name {
                return Some(i);
            }
            i = i + 1;
        }
        None
    }

    /// The characters of the set called `name`: its tokens resolved and
    /// joined in order. An unknown name, or a set that resolves to nothing,
    /// is an invalid configuration; a malformed token is reported as such.
    pub fn resolve_set(&self, name: &String) -> (r: Result<Vec<char>, PasswordGenError>)
        ensures
            match index_of_set(self.charsets@, name@, 0) {
                None => r matches Err(e) && e is InvalidConfig,
                Some(i) => match resolve_list(definition_tokens(self.charsets@[i].1)) {
                    Ok(cs) => if cs.len() == 0 {
                        r matches Err(e) && e is InvalidConfig
                    } else {
                        r matches Ok(v) && codes(v@) == cs
                    },
                    Err(f) => r matches Err(PasswordGenError::InvalidToken(u)) && u@ == f,
                },
            },
    {
        match self.find_set(name) {
            None => Err(PasswordGenError::InvalidConfig("Unknown character set".to_owned())),
            Some(i) => match resolve_definition(&self.charsets[i].1) {
                Ok(v) => {
                    if v.len() == 0 {
                        Err(
                            PasswordGenError::InvalidConfig(
                                "Character set resolves to no characters".to_owned(),
                            ),
                        )
                    } else {
                        Ok(v)
                    }
                },
                Err(e) => Err(PasswordGenError::InvalidToken(e)),
            },
        }
    }

    /// Checks the registry: not empty, names distinct, every set resolvable
    /// to at least one character.
    pub fn check(&self) -> (r: Result<(), PasswordGenError>)
        ensures
            r is Ok <==> charset_ok(self.charsets@),
            r matches Err(e) ==> (e is InvalidConfig || e is InvalidToken),
            (r matches Err(e) && e is InvalidToken) <==> exists|i: int|
                token_fault_at(self.charsets@, i),
            self.charsets@.len() == 0 ==> (r matches Err(e) && e is InvalidConfig),
    {
        let n = self.charsets.len();
        if n == 0 {
            return Err(PasswordGenError::InvalidConfig("No character set has been specified.".to_owned()));
        }
        let mut i: usize = 0;
        while i < n
            invariant
                n == self.charsets@.len(),
                i <= n,
                forall|a: int, b: int|
                    0 <= a < b < i ==> #[trigger] self.charsets@[a].0@ != #[trigger] self.charsets@[b].0@,
                forall|a: int| 0 <= a < i ==> definition_ok(#[trigger] self.charsets@[a].1),
                forall|a: int| 0 <= a < i ==> !#[trigger] entry_fails(self.charsets@, a),
            decreases n - i,
        {
            let ghost es = self.charsets@;
            let mut j: usize = 0;
            while j < i
                invariant
                    n == self.charsets@.len(),
                    j <= i < n,
                    forall|a: int| 0 <= a < j ==> #[trigger] self.charsets@[a].0@ != self.charsets@[i as int].0@,
                    es == self.charsets@,
                    forall|a: int| 0 <= a < i ==> !#[trigger] entry_fails(es, a),
                decreases i - j,
            {
                if self.charsets[j].0 == self.charsets[i].0 {
                    proof {
                        assert(es[j as int].0@ == es[i as int].0@);
                        assert(entry_fails(es, i as int));
                        assert forall|t: int| !token_fault_at(es, t) by {
                            if token_fault_at(es, t) {
                                if t > i {
                                    assert(!entry_fails(es, i as int));
                                } else if t == i {
                                    assert(es[j as int].0@ != es[t].0@);
                                } else {
                                    assert(!entry_fails(es, t));
                                }
                            }
                        }
                    }
                    return Err(PasswordGenError::InvalidConfig("Character set named twice".to_owned()));
                }
                j = j + 1;
            }
            match resolve_definition(&self.charsets[i].1) {
                Ok(v) => {
                    if v.len() == 0 {
                        proof {
                            assert(!definition_ok(es[i as int].1));
                            assert(entry_fails(es, i as int));
                            assert forall|t: int| !token_fault_at(es, t) by {
                                if token_fault_at(es, t) {
                                    if t > i {
                                        assert(!entry_fails(es, i as int));
                                    } else if t < i {
                                        assert(!entry_fails(es, t));
                                    }
                                }
                            }
                        }
                        return Err(
                            PasswordGenError::InvalidConfig(
                                "Character set resolves to no characters".to_owned(),
                            ),
                        );
                    }
                },
                Err(e) => {
                    proof {
                        assert forall|k: int| 0 <= k < i implies !#[trigger] entry_fails(es, k) by {}
                        assert(token_fault_at(es, i as int));
                    }
                    return Err(PasswordGenError::InvalidToken(e));
                },
            }
            proof {
                assert(definition_ok(es[i as int].1));
                assert(!entry_fails(es, i as int));
            }
            i = i + 1;
        }
        Ok(())
    }
}

impl Validator for Charset {
    open spec fn accepted(&self) -> bool {
        charset_ok(self.charsets@)
    }

    open spec fn normal_form(&self) -> Charset {
        *self
    }

    open spec fn rejects_with(&self, e: PasswordGenError) -> bool {
        charset_rejects_with(self.charsets@, e)
    }

    fn validate(&mut self) -> (r: Result<(), PasswordGenError>) {
        self.check()
    }
}


/// The rules a generated password must follow.
#[derive(Debug, PartialEq, Eq)]
pub struct Rules {
    pub length: Constraint,
    pub included: Option<Vec<String>>,
    pub excluded: Option<Vec<String>>,
    pub max_consecutive: Option<u8>,
    pub min_entropy_bits: Option<u8>,
    pub pattern: Option<String>,
    /// Per-set quantity constraints, by set name.
    pub charsets_rules: Vec<(String, RulesConstraint)>,
}

pub open spec fn list_tokens(l: Option<Vec<String>>) -> Seq<Seq<char>> {
    match l {
        Some(v) => string_views(v@),
        None => Seq::empty(),
    }
}

/// The characters of an included or excluded list (none for an absent or
/// empty list), or `None` when a token fails.
pub open spec fn char_list(l: Option<Vec<String>>) -> Option<Seq<int>> {
    match resolve_list(list_tokens(l)) {
        Ok(cs) => Some(cs),
        Err(_) => None,
    }
}

/// A zero-valued tunable counts as absent.
pub open spec fn drop_zero(v: Option<u8>) -> Option<u8> {
    if v == Some(0u8) {
        None
    } else {
        v
    }
}

/// A list that yields no characters counts as absent.
pub open spec fn drop_if_empty(l: Option<Vec<String>>) -> Option<Vec<String>> {
    if char_list(l) == Some(Seq::<int>::empty()) {
        None
    } else {
        l
    }
}

/// Each per-set rule names its set once.
pub open spec fn rule_names_distinct(entries: Seq<(String, RulesConstraint)>) -> bool {
    forall|i: int, j: int|
        0 <= i < j < entries.len() ==> #[trigger] entries[i].0@ != #[trigger] entries[j].0@
}

pub open spec fn rules_ok(r: Rules) -> bool {
    &&& normal_length(r.length) is Some
    &&& rule_names_distinct(r.charsets_rules@)
    &&& char_list(r.included) is Some
    &&& char_list(r.excluded) is Some
}

pub open spec fn normal_rules(r: Rules) -> Rules {
    Rules {
        length: normal_length(r.length)->Some_0,
        included: drop_if_empty(r.included),
        excluded: drop_if_empty(r.excluded),
        max_consecutive: drop_zero(r.max_consecutive),
        min_entropy_bits: drop_zero(r.min_entropy_bits),
        pattern: r.pattern,
        charsets_rules: r.charsets_rules,
    }
}

/// The distinct characters that occur in both lists.
pub fn overlap(included: &Vec<char>, excluded: &Vec<char>) -> (r: Vec<char>)
    ensures
        forall|c: char| r@.contains(c) <==> (included@.contains(c) && excluded@.contains(c)),
        r@.no_duplicates(),
{
    let mut out: Vec<char> = Vec::new();
    let mut i: usize = 0;
    while i < included.len()
        invariant
            i <= included@.len(),
            forall|c: char|
                out@.contains(c) <==> (included@.take(i as int).contains(c) && excluded@.contains(c)),
            out@.no_duplicates(),
        decreases included@.len() - i,
    {
        let c = included[i];
        let in_excluded = contains_char(excluded, c);
        let seen = contains_char(&out, c);
        let ghost before = out@;
        let ghost t = included@.take(i as int);
        if in_excluded && !seen {
            out.push(c);
        }
        proof {
            assert forall|d: char|
                out@.contains(d) <==> (t.push(c).contains(d) && excluded@.contains(d)) by {
                if t.push(c).contains(d) && d != c {
                    let k = choose|k: int| 0 <= k < t.push(c).len() && t.push(c)[k] == d;
                    assert(t[k] == d);
                }
                if t.contains(d) {
                    let k = choose|k: int| 0 <= k < t.len() && t[k] == d;
                    assert(t.push(c)[k] == d);
                }
                assert(t.push(c)[t.len() as int] == c);
                if out@.contains(d) && d != c {
                    let k = choose|k: int| 0 <= k < out@.len() && out@[k] == d;
                    assert(before[k] == d);
                }
                if before.contains(d) {
                    let k = choose|k: int| 0 <= k < before.len() && before[k] == d;
                    assert(out@[k] == d);
                }
                if in_excluded && !seen {
                    assert(out@[before.len() as int] == c);
                }
            }
            assert(included@.take(i as int + 1) =~= t.push(c));
        }
        i = i + 1;
    }
    assert(included@.take(included@.len() as int) =~= included@);
    out
}

proof fn lemma_codes_contains(s: Seq<char>, c: char)
    ensures
        s.contains(c) <==> codes(s).contains(c as int),
{
    if s.contains(c) {
        let i = choose|i: int| 0 <= i < s.len() && s[i] == c;
        assert(codes(s)[i] == c as int);
    }
    if codes(s).contains(c as int) {
        let i = choose|i: int| 0 <= i < codes(s).len() && codes(s)[i] == c as int;
        assert(s[i] as int == c as int);
        vstd::utf8::char_u32_cast(s[i], s[i] as u32);
        vstd::utf8::char_u32_cast(c, c as u32);
    }
}

fn contains_char(v: &Vec<char>, c: char) -> (r: bool)
    ensures
        r == v@.contains(c),
{
    let mut i: usize = 0;
    while i < v.len()
        invariant
            i <= v@.len(),
            forall|j: int| 0 <= j < i ==> v@[j] != c,
        decreases v@.len() - i,
    {
        if v[i] == c {
            return true;
        }
        i = i + 1;
    }
    false
}

/// Whether each per-set rule names its set once.
fn distinct_rule_names(entries: &Vec<(String, RulesConstraint)>) -> (r: bool)
    ensures
        r == rule_names_distinct(entries@),
{
    let n = entries.len();
    let mut i: usize = 0;
    while i < n
        invariant
            n == entries@.len(),
            i <= n,
            forall|a: int, b: int|
                0 <= a < b < i ==> #[trigger] entries@[a].0@ != #[trigger] entries@[b].0@,
        decreases n - i,
    {
        let mut j: usize = 0;
        while j < i
            invariant
                n == entries@.len(),
                j <= i < n,
                forall|a: int| 0 <= a < j ==> #[trigger] entries@[a].0@ != entries@[i as int].0@,
            decreases i - j,
        {
            if entries[j].0 == entries[i].0 {
                assert(entries@[j as int].0@ == entries@[i as int].0@);
                return false;
            }
            j = j + 1;
        }
        i = i + 1;
    }
    true
}

impl Rules {
    /// Resolves an included or excluded list into characters. An absent or
    /// empty list gives none; a failing token makes the configuration
    /// invalid.
    pub fn validate_char_list(&self, list: &Option<Vec<String>>, list_name: &str) -> (r: Result<
        Vec<char>,
        PasswordGenError,
    >)
        ensures
            match char_list(*list) {
                Some(cs) => r matches Ok(v) && codes(v@) == cs,
                None => r matches Err(e) && e is InvalidConfig,
            },
    {
        match list {
            None => {
                let v: Vec<char> = Vec::new();
                assert(codes(v@) =~= Seq::<int>::empty());
                assert(list_tokens(*list) =~= Seq::<Seq<char>>::empty());
                Ok(v)
            },
            Some(items) => {
                match resolve_tokens(items) {
                    Ok(v) => Ok(v),
                    Err(_) => {
                        let mut msg = "Invalid token in ".to_owned();
                        msg.append(list_name);
                        Err(PasswordGenError::InvalidConfig(msg))
                    },
                }
            },
        }
    }

    /// Checks the rules without changing them: the normalized length, and
    /// whether the included and excluded lists yield characters.
    fn check(&self) -> (r: Result<(Constraint, bool, bool), PasswordGenError>)
        ensures
            r is Ok <==> rules_ok(*self),
            r matches Ok((c, inc, exc)) ==> (normal_length(self.length) == Some(c) && inc == (
            char_list(self.included) == Some(Seq::<int>::empty())) && exc == (char_list(
                self.excluded,
            ) == Some(Seq::<int>::empty()))),
            r matches Err(e) ==> e is InvalidConfig,
    {
        let length = match self.length.normalized() {
            Ok(c) => c,
            Err(e) => return Err(e),
        };
        if !distinct_rule_names(&self.charsets_rules) {
            return Err(PasswordGenError::InvalidConfig("Character set given two quantities".to_owned()));
        }
        let inc = match self.validate_char_list(&self.included, "included") {
            Ok(v) => v,
            Err(e) => return Err(e),
        };
        let exc = match self.validate_char_list(&self.excluded, "excluded") {
            Ok(v) => v,
            Err(e) => return Err(e),
        };
        proof {
            assert(codes(inc@).len() == inc@.len());
            assert(codes(exc@).len() == exc@.len());
            if inc@.len() == 0 {
                assert(codes(inc@) =~= Seq::<int>::empty());
            }
            if exc@.len() == 0 {
                assert(codes(exc@) =~= Seq::<int>::empty());
            }
        }
        Ok((length, inc.len() == 0, exc.len() == 0))
    }

    /// Takes the normal form that a successful check allows.
    fn apply(&mut self, length: Constraint, drop_include: bool, drop_exclude: bool)
        requires
            rules_ok(*old(self)),
            normal_length(old(self).length) == Some(length),
            drop_include == (char_list(old(self).included) == Some(Seq::<int>::empty())),
            drop_exclude == (char_list(old(self).excluded) == Some(Seq::<int>::empty())),
        ensures
            *final(self) == normal_rules(*old(self)),
    {
        self.length = length;
        if drop_include {
            self.included = None;
        }
        if drop_exclude {
            self.excluded = None;
        }
        if self.max_consecutive == Some(0u8) {
            self.max_consecutive = None;
        }
        if self.min_entropy_bits == Some(0u8) {
            self.min_entropy_bits = None;
        }
    }

    /// The characters that the excluded list removes and the included list
    /// brings back: a warning, not an error (included wins).
    pub fn reintroduced_chars(&self) -> (r: Result<Vec<char>, PasswordGenError>)
        ensures
            r is Ok <==> (char_list(self.included) is Some && char_list(self.excluded) is Some),
            r matches Ok(v) ==> (forall|c: char|
                v@.contains(c) <==> (char_list(self.included)->Some_0.contains(c as int)
                    && char_list(self.excluded)->Some_0.contains(c as int))),
    {
        let inc = match self.validate_char_list(&self.included, "included") {
            Ok(v) => v,
            Err(e) => return Err(e),
        };
        let exc = match self.validate_char_list(&self.excluded, "excluded") {
            Ok(v) => v,
            Err(e) => return Err(e),
        };
        let r = overlap(&inc, &exc);
        proof {
            assert forall|c: char| r@.contains(c) <==> (codes(inc@).contains(c as int) && codes(
                exc@,
            ).contains(c as int)) by {
                lemma_codes_contains(inc@, c);
                lemma_codes_contains(exc@, c);
            }
        }
        Ok(r)
    }
}

impl Validator for Rules {
    open spec fn accepted(&self) -> bool {
        rules_ok(*self)
    }

    open spec fn normal_form(&self) -> Rules {
        normal_rules(*self)
    }

    /// Rejected rules are an invalid configuration.
    open spec fn rejects_with(&self, e: PasswordGenError) -> bool {
        e is InvalidConfig
    }

    fn validate(&mut self) -> (r: Result<(), PasswordGenError>) {
        match self.check() {
            Ok((length, drop_include, drop_exclude)) => {
                self.apply(length, drop_include, drop_exclude);
                Ok(())
            },
            Err(e) => Err(e),
        }
    }
}


/// What semver makes of a version against a version requirement: whether
/// it satisfies it, or `None` when the requirement or the pre-release does
/// not parse.
pub uninterp spec fn req_outcome(
    req: Seq<char>,
    major: u64,
    minor: u64,
    patch: u64,
    pre: Seq<char>,
) -> Option<bool>;

/// Relies on semver's `VersionReq::parse`, `Prerelease::new` and
/// `VersionReq::matches`: `None` when the requirement or the pre-release
/// does not parse, else whether the version satisfies the requirement.
#[verifier::external_body]
fn version_req_matches(req: &str, v: &Version) -> (r: Option<bool>)
    ensures
        r == req_outcome(req@, v.major, v.minor, v.patch, v.pre@),
{
    let req = semver::VersionReq::parse(req).ok()?;
    let mut version = semver::Version::new(v.major, v.minor, v.patch);
    version.pre = semver::Prerelease::new(&v.pre).ok()?;
    Some(req.matches(&version))
}

/// The versions of the configuration format that this library reads.
pub const COMPATIBLE_VERSIONS: &'static str = ">=0.1.0, <1.0.0";

/// The position of the first per-set constraint for `name`, at or after `i`.
pub open spec fn index_of_rule(
    entries: Seq<(String, RulesConstraint)>,
    name: Seq<char>,
    i: int,
) -> Option<int>
    decreases entries.len() - i,
{
    if i < 0 || i >= entries.len() {
        None
    } else if entries[i].0@ == name {
        Some(i)
    } else {
        index_of_rule(entries, name, i + 1)
    }
}

/// A block's minimum agrees with the quantity declared for its set: equal
/// to an exact quantity, within the bounds of a range.
pub open spec fn quantity_admits(q: RulesConstraint, min: int) -> bool {
    match q {
        RulesConstraint::Exact(n) => min == n,
        RulesConstraint::Range { min: lo, max: None } => lo <= min,
        RulesConstraint::Range { min: lo, max: Some(hi) } => lo <= min <= hi,
    }
}

/// A pattern element names a declared set, with a minimum that agrees with
/// the set's declared quantity, if any.
pub open spec fn element_fits(c: Config, e: ElementModel) -> bool {
    match e {
        ElementModel::Wildcard => true,
        ElementModel::SetBlock { name, min, .. } => {
            &&& index_of_set(c.charset.charsets@, name, 0) is Some
            &&& match index_of_rule(c.rules.charsets_rules@, name, 0) {
                Some(k) => quantity_admits(c.rules.charsets_rules@[k].1, min),
                None => true,
            }
        },
    }
}

/// Every element of a parsed pattern fits the configuration.
pub open spec fn elements_fit(c: Config, es: Seq<ElementModel>) -> bool {
    forall|i: int| 0 <= i < es.len() ==> element_fits(c, #[trigger] es[i])
}

/// The configuration's pattern, if any, parses and agrees with its sets.
pub open spec fn pattern_ok(c: Config) -> bool {
    match c.rules.pattern {
        None => true,
        Some(p) => match pattern_elements(p@) {
            None => false,
            Some(es) => elements_fit(c, es),
        },
    }
}

/// Every part of a configuration is valid, apart from its version.
pub open spec fn config_ok(c: Config) -> bool {
    &&& profile_ok(c.profile.id, c.profile.name@)
    &&& charset_ok(c.charset.charsets@)
    &&& rules_ok(c.rules)
    &&& pattern_ok(c)
}

/// The error a failing registry check gives: `InvalidToken` exactly when it
/// stops on a token that does not resolve, else `InvalidConfig`.
pub open spec fn charset_rejects_with(
    entries: Seq<(String, CharsetConstraint)>,
    e: PasswordGenError,
) -> bool {
    &&& (e is InvalidConfig || e is InvalidToken)
    &&& (e is InvalidToken <==> exists|i: int| token_fault_at(entries, i))
}

/// The error a failing pattern check gives: `InvalidPattern` with the
/// pattern when it does not parse, else `InvalidConfig`.
pub open spec fn pattern_rejects_with(c: Config, e: PasswordGenError) -> bool {
    match c.rules.pattern {
        Some(p) => if pattern_elements(p@) is None {
            e matches PasswordGenError::InvalidPattern(q) && q@ == p@
        } else {
            e is InvalidConfig
        },
        None => false,
    }
}

/// The error that validation gives, checking in order the version, the
/// profile, the registry, the rules and the pattern.
pub open spec fn config_rejects_with(c: Config, compatible: bool, e: PasswordGenError) -> bool {
    if !compatible {
        e matches PasswordGenError::IncompatibleVersion(v, range) && v == c.version && range@
            == COMPATIBLE_VERSIONS@
    } else if !profile_ok(c.profile.id, c.profile.name@) {
        e is InvalidConfig
    } else if !charset_ok(c.charset.charsets@) {
        charset_rejects_with(c.charset.charsets@, e)
    } else if !rules_ok(c.rules) {
        e is InvalidConfig
    } else {
        pattern_rejects_with(c, e)
    }
}

/// A whole configuration.
#[derive(Debug, PartialEq, Eq)]
pub struct Config {
    pub version: Version,
    pub profile: Profile,
    pub rules: Rules,
    pub charset: Charset,
}

impl Config {
    fn find_rule(&self, name: &String) -> (r: Option<usize>)
        ensures
            match r {
                Some(k) => index_of_rule(self.rules.charsets_rules@, name@, 0) == Some(k as int),
                None => index_of_rule(self.rules.charsets_rules@, name@, 0) is None,
            },
            r matches Some(k) ==> k < self.rules.charsets_rules@.len(),
    {
        let mut i: usize = 0;
        while i < self.rules.charsets_rules.len()
            invariant
                i <= self.rules.charsets_rules@.len(),
                index_of_rule(self.rules.charsets_rules@, name@, 0) == index_of_rule(
                    self.rules.charsets_rules@,
                    name@,
                    i as int,
                ),
            decreases self.rules.charsets_rules@.len() - i,
        {
            if self.rules.charsets_rules[i].0 == *name {
                return Some(i);
            }
            i = i + 1;
        }
        None
    }

    /// Cross-references the pattern, if any, against the registry and the
    /// per-set quantities: every block must name a declared set, and its
    /// minimum must agree with that set's declared quantity.
    pub fn check_pattern(&self) -> (r: Result<(), PasswordGenError>)
        ensures
            r is Ok <==> pattern_ok(*self),
            r matches Err(e) ==> pattern_rejects_with(*self, e),
    {
        let p = match &self.rules.pattern {
            None => return Ok(()),
            Some(p) => p,
        };
        let elements = match parse_pattern(p.as_str()) {
            None => return Err(PasswordGenError::InvalidPattern(p.clone())),
            Some(es) => es,
        };
        let ghost es = crate::pattern::element_views(elements@);
        let mut i: usize = 0;
        while i < elements.len()
            invariant
                i <= elements@.len(),
                es == crate::pattern::element_views(elements@),
                self.rules.pattern == Some(*p),
                pattern_elements(p@) == Some(es),
                forall|j: int| 0 <= j < i ==> element_fits(*self, #[trigger] es[j]),
            decreases elements@.len() - i,
        {
            assert(es[i as int] == elements@[i as int]@);
            match &elements[i] {
                PatternElement::Wildcard => {},
                PatternElement::SetBlock { name, min, .. } => {
                    if self.charset.find_set(name).is_none() {
                        assert(!element_fits(*self, es[i as int]));
                        assert(!elements_fit(*self, es));

                        return Err(
                            PasswordGenError::InvalidConfig(
                                "Pattern names an unknown character set".to_owned(),
                            ),
                        );
                    }
                    match self.find_rule(name) {
                        None => {},
                        Some(k) => {
                            let fits = match self.rules.charsets_rules[k].1 {
                                RulesConstraint::Exact(n) => *min == n,
                                RulesConstraint::Range { min: lo, max: None } => lo <= *min,
                                RulesConstraint::Range { min: lo, max: Some(hi) } => lo <= *min
                                    && *min <= hi,
                            };
                            if !fits {
                                assert(!element_fits(*self, es[i as int]));
                                assert(!elements_fit(*self, es));
                                return Err(
                                    PasswordGenError::InvalidConfig(
                                        "Pattern block disagrees with its set's quantity".to_owned(),
                                    ),
                                );
                            }
                        },
                    }
                },
            }
            i = i + 1;
        }
        Ok(())
    }

    /// Validates the configuration once it is known whether its version is
    /// compatible: in order the version, the profile, the registry, the
    /// rules and the pattern, stopping at the first failure. On success the
    /// rules take their normal form; on failure nothing changes.
    pub fn validate_with(&mut self, compatible: bool) -> (r: Result<(), PasswordGenError>)
        ensures
            r is Ok <==> compatible && config_ok(*old(self)),
            r is Ok ==> *final(self) == (Config { rules: normal_rules(old(self).rules), ..*old(self) }),
            r is Err ==> *final(self) == *old(self),
            r matches Err(e) ==> config_rejects_with(*old(self), compatible, e),
    {
        if !compatible {
            return Err(
                PasswordGenError::IncompatibleVersion(
                    self.version.copy(),
                    COMPATIBLE_VERSIONS.to_owned(),
                ),
            );
        }
        match self.profile.check() {
            Ok(()) => {},
            Err(e) => return Err(e),
        }
        match self.charset.check() {
            Ok(()) => {},
            Err(e) => return Err(e),
        }
        let (length, drop_included, drop_excluded) = match self.rules.check() {
            Ok(t) => t,
            Err(e) => return Err(e),
        };
        match self.check_pattern() {
            Ok(()) => {},
            Err(e) => return Err(e),
        }
        self.rules.apply(length, drop_included, drop_excluded);
        Ok(())
    }

    /// The characters of every set that the rules give a quantity for,
    /// joined in the order of the rules. Fails as [`Charset::resolve_set`]
    /// fails on the first set that does not resolve.
    pub fn get_charset(&self) -> (r: Result<Vec<char>, PasswordGenError>)
        ensures
            r is Ok <==> rules_codes(*self, self.rules.charsets_rules@.len() as int) is Some,
            r matches Ok(v) ==> codes(v@) == rules_codes(
                *self,
                self.rules.charsets_rules@.len() as int,
            )->Some_0,
            r matches Err(e) ==> exists|k: int|
                0 <= k < self.rules.charsets_rules@.len() && rules_codes(*self, k) is Some
                    && set_codes(self.charset, (#[trigger] self.rules.charsets_rules@[k]).0@)
                    is None && set_rejects_with(self.charset, self.rules.charsets_rules@[k].0@, e),
    {
        let mut out: Vec<char> = Vec::new();
        let mut k: usize = 0;
        assert(codes(out@) =~= Seq::<int>::empty());
        while k < self.rules.charsets_rules.len()
            invariant
                k <= self.rules.charsets_rules@.len(),
                rules_codes(*self, k as int) == Some(codes(out@)),
            decreases self.rules.charsets_rules@.len() - k,
        {
            let ghost prev = out@;
            match self.charset.resolve_set(&self.rules.charsets_rules[k].0) {
                Ok(mut v) => {
                    let ghost got = v@;
                    out.append(&mut v);
                    assert(codes(out@) =~= codes(prev) + codes(got));
                },
                Err(e) => {
                    proof {
                        let name = self.rules.charsets_rules@[k as int].0@;
                        assert(set_codes(self.charset, name) is None);
                        assert(set_rejects_with(self.charset, name, e));
                        lemma_rules_codes_none_sticks(*self, k as int + 1);
                    }
                    return Err(e);
                },
            }
            k = k + 1;
        }
        Ok(out)
    }
}

/// The characters of the set called `name`, when it is declared and
/// resolves to at least one character.
pub open spec fn set_codes(c: Charset, name: Seq<char>) -> Option<Seq<int>> {
    match index_of_set(c.charsets@, name, 0) {
        None => None,
        Some(i) => match resolve_list(definition_tokens(c.charsets@[i].1)) {
            Ok(cs) => if cs.len() > 0 {
                Some(cs)
            } else {
                None
            },
            Err(_) => None,
        },
    }
}

/// The error resolving the set called `name` gives: `InvalidConfig` for an
/// unknown set or one that resolves to nothing, `InvalidToken` with the
/// resolver's fault for a token that does not resolve.
pub open spec fn set_rejects_with(c: Charset, name: Seq<char>, e: PasswordGenError) -> bool {
    match index_of_set(c.charsets@, name, 0) {
        None => e is InvalidConfig,
        Some(i) => match resolve_list(definition_tokens(c.charsets@[i].1)) {
            Ok(_) => e is InvalidConfig,
            Err(f) => e matches PasswordGenError::InvalidToken(u) && u@ == f,
        },
    }
}

/// The characters of the sets named by the first `k` per-set rules, joined.
pub open spec fn rules_codes(c: Config, k: int) -> Option<Seq<int>>
    decreases k,
{
    if k <= 0 {
        Some(Seq::empty())
    } else {
        match (rules_codes(c, k - 1), set_codes(c.charset, c.rules.charsets_rules@[k - 1].0@)) {
            (Some(a), Some(b)) => Some(a + b),
            _ => None,
        }
    }
}

proof fn lemma_rules_codes_none_sticks(c: Config, k: int)
    requires
        0 < k <= c.rules.charsets_rules@.len(),
        rules_codes(c, k) is None,
    ensures
        rules_codes(c, c.rules.charsets_rules@.len() as int) is None,
    decreases c.rules.charsets_rules@.len() - k,
{
    if k < c.rules.charsets_rules@.len() {
        lemma_rules_codes_none_sticks(c, k + 1);
    }
}

impl Version {
    /// A copy of the version.
    pub fn copy(&self) -> (r: Version)
        ensures
            r == *self,
    {
        Version {
            major: self.major,
            minor: self.minor,
            patch: self.patch,
            pre: self.pre.clone(),
            build: self.build.clone(),
        }
    }

    /// Whether this version lies in [`COMPATIBLE_VERSIONS`], as semver
    /// evaluates it; `None` when semver cannot read the pre-release.
    pub fn is_compatible(&self) -> (r: Option<bool>)
        ensures
            r == req_outcome(COMPATIBLE_VERSIONS@, self.major, self.minor, self.patch, self.pre@),
    {
        version_req_matches(COMPATIBLE_VERSIONS, self)
    }
}

/// semver reads the version and finds it within [`COMPATIBLE_VERSIONS`].
pub open spec fn version_accepted(v: Version) -> bool {
    req_outcome(COMPATIBLE_VERSIONS@, v.major, v.minor, v.patch, v.pre@) == Some(true)
}

impl Config {
    /// Validates the configuration, its version against
    /// [`COMPATIBLE_VERSIONS`] included. On success the rules take their
    /// normal form; on failure nothing changes. A version whose pre-release
    /// semver cannot read counts as incompatible.
    pub fn validate(&mut self) -> (r: Result<(), PasswordGenError>)
        ensures
            r is Ok <==> version_accepted(old(self).version) && config_ok(*old(self)),
            r is Ok ==> *final(self) == (Config { rules: normal_rules(old(self).rules), ..*old(self) }),
            r is Err ==> *final(self) == *old(self),
            r matches Err(e) ==> config_rejects_with(
                *old(self),
                version_accepted(old(self).version),
                e,
            ),
    {
        let compatible = match self.version.is_compatible() {
            Some(b) => b,
            None => false,
        };
        self.validate_with(compatible)
    }
}

} // verus!
