//! The ordering-pattern language, and checks on character runs.

use vstd::prelude::*;

use crate::utils::{copy_range, string_of, to_chars, trim_chars, trimmed};

verus! {

/// Every character of `s[a..b]` equals `s[a]`.
pub open spec fn all_equal(s: Seq<char>, a: int, b: int) -> bool {
    forall|j: int| a <= j < b ==> s[j] == s[a]
}

/// The shortest run of equal characters that exceeds a limit of `max`; a
/// single character is never a run.
pub open spec fn run_window(max: int) -> int {
    if max < 1 {
        2
    } else {
        max + 1
    }
}

/// `s` holds more than `max` equal characters in a row.
pub open spec fn has_run_longer_than(s: Seq<char>, max: int) -> bool {
    exists|a: int|
        0 <= a && a + run_window(max) <= s.len() && #[trigger] all_equal(s, a, a + run_window(max))
}

/// Whether some character repeats more than `max_consecutive` times in a row.
pub fn has_max_consecutive(chars: &Vec<char>, max_consecutive: usize) -> (r: bool)
    ensures
        r == has_run_longer_than(chars@, max_consecutive as int),
{
    let ghost s = chars@;
    let ghost w = run_window(max_consecutive as int);
    let n = chars.len();
    if n == 0 {
        return false;
    }
    let mut count: usize = 1;
    let mut i: usize = 1;
    while i < n
        invariant
            s == chars@,
            n == s.len(),
            w == run_window(max_consecutive as int),
            1 <= i <= n,
            1 <= count <= i,
            count < w,
            all_equal(s, i - count, i as int),
            i - count == 0 || s[i - count - 1] != s[i - 1],
            forall|a: int| 0 <= a && a + w <= i ==> !#[trigger] all_equal(s, a, a + w),
        decreases n - i,
    {
        if chars[i] == chars[i - 1] {
            count = count + 1;
            if count > max_consecutive {
                let ghost a = i + 1 - w;
                assert(all_equal(s, a, a + w)) by {
                    assert forall|j: int| a <= j < a + w implies s[j] == s[a] by {
                        assert(s[j] == s[i - 1]);
                        assert(s[a] == s[i - 1]);
                    }
                }
                return true;
            }
            proof {
                assert forall|a: int| 0 <= a && a + w <= i + 1 implies !#[trigger] all_equal(
                    s,
                    a,
                    a + w,
                ) by {
                    if a + w == i + 1 {
                        let k = i - count;
                        assert(a <= k);
                        assert(s[k] != s[i - 1]);
                        if all_equal(s, a, a + w) {
                            assert(s[k] == s[a]);
                            assert(s[i - 1] == s[a]);
                        }
                    }
                }
                assert forall|j: int| i + 1 - count <= j < i + 1 implies #[trigger] s[j] == s[i + 1 - count] by {
                    if j < i {
                        assert(s[j] == s[i - (count - 1)]);
                    }
                }
            }
        } else {
            count = 1;
            proof {
                assert forall|a: int| 0 <= a && a + w <= i + 1 implies !#[trigger] all_equal(
                    s,
                    a,
                    a + w,
                ) by {
                    if a + w == i + 1 && all_equal(s, a, a + w) {
                        assert(s[i - 1] == s[a]);
                        assert(s[i as int] == s[a]);
                    }
                }
            }
        }
        i = i + 1;
    }
    false
}


/// One element of an ordering pattern.
#[derive(Debug, PartialEq, Eq)]
pub enum PatternElement {
    /// A block of `min..=max` characters from the named set, or, when
    /// `negate` holds, a block that avoids it.
    SetBlock { name: String, min: usize, max: usize, negate: bool },
    /// Any allowed character, for the rest of the password's length.
    Wildcard,
}

/// The meaning of a [`PatternElement`].
pub enum ElementModel {
    SetBlock { name: Seq<char>, min: int, max: int, negate: bool },
    Wildcard,
}

impl View for PatternElement {
    type V = ElementModel;

    open spec fn view(&self) -> ElementModel {
        match self {
            PatternElement::SetBlock { name, min, max, negate } => ElementModel::SetBlock {
                name: name@,
                min: *min as int,
                max: *max as int,
                negate: *negate,
            },
            PatternElement::Wildcard => ElementModel::Wildcard,
        }
    }
}

pub open spec fn element_views(v: Seq<PatternElement>) -> Seq<ElementModel> {
    v.map_values(|e: PatternElement| e@)
}

/// A character that cannot stand in a set name.
pub open spec fn is_name_stop(c: char) -> bool {
    c == '(' || c == ')' || c == ',' || c == '{' || c == '}' || c == '*'
}

pub open spec fn is_ascii_digit(c: char) -> bool {
    0x30 <= c as int <= 0x39
}

/// Where the run of name characters that starts at `j` ends.
pub open spec fn name_end(s: Seq<char>, j: int) -> int
    decreases s.len() - j,
{
    if j < 0 || j >= s.len() || is_name_stop(s[j]) {
        j
    } else {
        name_end(s, j + 1)
    }
}

/// Where the run of ASCII digits that starts at `j` ends.
pub open spec fn digits_end(s: Seq<char>, j: int) -> int
    decreases s.len() - j,
{
    if j < 0 || j >= s.len() || !is_ascii_digit(s[j]) {
        j
    } else {
        digits_end(s, j + 1)
    }
}

/// The number written by a run of decimal digits.
pub open spec fn dec_value(s: Seq<char>) -> int
    decreases s.len(),
{
    if s.len() == 0 {
        0
    } else {
        dec_value(s.drop_last()) * 10 + (s.last() as int - 0x30)
    }
}

pub open spec fn number(s: Seq<char>, a: int, b: int) -> int {
    dec_value(s.subrange(a, b))
}

/// A set block named by `s[ns..ne]` that ends before `end`, unless a bound
/// does not fit in `usize`.
pub open spec fn set_block(
    s: Seq<char>,
    ns: int,
    ne: int,
    negate: bool,
    min: int,
    max: int,
    end: int,
) -> Option<(ElementModel, int)> {
    if min > usize::MAX || max > usize::MAX {
        None
    } else {
        Some((ElementModel::SetBlock { name: s.subrange(ns, ne), min, max, negate }, end))
    }
}

/// The block `(^name){N}`, `(^name){N,}` or `(^name){N,M}` (the `^` optional)
/// that starts at `i`, with the position after it.
pub open spec fn block_at(s: Seq<char>, i: int) -> Option<(ElementModel, int)> {
    if !(0 <= i < s.len() && s[i] == '(') {
        None
    } else {
        let negate = i + 1 < s.len() && s[i + 1] == '^' && name_end(s, i + 2) > i + 2;
        let ns = if negate {
            i + 2
        } else {
            i + 1
        };
        let ne = name_end(s, ns);
        if !(ne > ns && ne + 1 < s.len() && s[ne] == ')' && s[ne + 1] == '{') {
            None
        } else {
            let d0 = ne + 2;
            let d1 = digits_end(s, d0);
            if !(d1 > d0 && d1 < s.len()) {
                None
            } else if s[d1] == '}' {
                set_block(s, ns, ne, negate, number(s, d0, d1), number(s, d0, d1), d1 + 1)
            } else if s[d1] == ',' {
                let d2 = digits_end(s, d1 + 1);
                if d2 < s.len() && s[d2] == '}' {
                    let max = if d2 > d1 + 1 {
                        number(s, d1 + 1, d2)
                    } else {
                        number(s, d0, d1)
                    };
                    set_block(s, ns, ne, negate, number(s, d0, d1), max, d2 + 1)
                } else {
                    None
                }
            } else {
                None
            }
        }
    }
}

/// The elements of `s[i..]`, left to right, or `None` where some part of it
/// is neither `*` nor a block.
pub open spec fn parse_from(s: Seq<char>, i: int) -> Option<Seq<ElementModel>>
    decreases s.len() - i,
{
    if i < 0 || i >= s.len() {
        Some(Seq::empty())
    } else if s[i] == '*' {
        match parse_from(s, i + 1) {
            Some(rest) => Some(seq![ElementModel::Wildcard] + rest),
            None => None,
        }
    } else {
        match block_at(s, i) {
            Some((e, end)) => if i < end <= s.len() {
                match parse_from(s, end) {
                    Some(rest) => Some(seq![e] + rest),
                    None => None,
                }
            } else {
                None
            },
            None => None,
        }
    }
}

/// The elements of a pattern, read after trimming surrounding whitespace.
pub open spec fn pattern_elements(p: Seq<char>) -> Option<Seq<ElementModel>> {
    parse_from(trimmed(p), 0)
}

fn scan_name(s: &Vec<char>, j: usize) -> (r: usize)
    requires
        j <= s@.len(),
    ensures
        r as int == name_end(s@, j as int),
        j <= r <= s@.len(),
{
    let mut k = j;
    while k < s.len() && !(s[k] == '(' || s[k] == ')' || s[k] == ',' || s[k] == '{' || s[k] == '}'
        || s[k] == '*')
        invariant
            j <= k <= s@.len(),
            name_end(s@, j as int) == name_end(s@, k as int),
        decreases s@.len() - k,
    {
        k = k + 1;
    }
    k
}

fn scan_digits(s: &Vec<char>, j: usize) -> (r: usize)
    requires
        j <= s@.len(),
    ensures
        r as int == digits_end(s@, j as int),
        j <= r <= s@.len(),
        forall|k: int| j <= k < r ==> is_ascii_digit(#[trigger] s@[k]),
{
    let mut k = j;
    while k < s.len() && '0' <= s[k] && s[k] <= '9'
        invariant
            j <= k <= s@.len(),
            digits_end(s@, j as int) == digits_end(s@, k as int),
            forall|m: int| j <= m < k ==> is_ascii_digit(#[trigger] s@[m]),
        decreases s@.len() - k,
    {
        k = k + 1;
    }
    k
}

/// The number written by the digits `s[a..b]`, if it fits in `usize`.
fn read_number(s: &Vec<char>, a: usize, b: usize) -> (r: Option<usize>)
    requires
        a <= b <= s@.len(),
        forall|k: int| a <= k < b ==> is_ascii_digit(#[trigger] s@[k]),
    ensures
        r is Some <==> number(s@, a as int, b as int) <= usize::MAX,
        r matches Some(v) ==> v as int == number(s@, a as int, b as int),
        number(s@, a as int, b as int) >= 0,
{
    let mut v: usize = 0;
    let mut fits = true;
    let mut k = a;
    while k < b
        invariant
            a <= k <= b <= s@.len(),
            forall|m: int| a <= m < b ==> is_ascii_digit(#[trigger] s@[m]),
            number(s@, a as int, k as int) >= 0,
            fits ==> v as int == number(s@, a as int, k as int),
            !fits ==> number(s@, a as int, k as int) > usize::MAX,
        decreases b - k,
    {
        let c = s[k];
        assert(is_ascii_digit(s@[k as int]));
        let d = (c as u32 - 0x30) as usize;
        proof {
            assert(s@.subrange(a as int, k + 1).drop_last() =~= s@.subrange(a as int, k as int));
        }
        if fits {
            if v > (usize::MAX - d) / 10 {
                fits = false;
            } else {
                v = v * 10 + d;
            }
        }
        k = k + 1;
    }
    if fits {
        Some(v)
    } else {
        None
    }
}

/// The block that starts at `i`, with the position after it.
fn scan_block(s: &Vec<char>, i: usize) -> (r: Option<(PatternElement, usize)>)
    requires
        i < s@.len(),
    ensures
        match r {
            Some((e, end)) => block_at(s@, i as int) == Some((e@, end as int)),
            None => block_at(s@, i as int) is None,
        },
        r matches Some((_, end)) ==> i < end <= s@.len(),
{
    let n = s.len();
    if s[i] != '(' {
        return None;
    }
    let negate = i + 1 < n && s[i + 1] == '^' && scan_name(s, i + 2) > i + 2;
    let ns = if negate {
        i + 2
    } else {
        i + 1
    };
    let ne = scan_name(s, ns);
    if !(ne > ns && ne < n && ne + 1 < n && s[ne] == ')' && s[ne + 1] == '{') {
        return None;
    }
    let d0 = ne + 2;
    let d1 = scan_digits(s, d0);
    if !(d1 > d0 && d1 < n) {
        return None;
    }
    let min = read_number(s, d0, d1);
    let max: Option<usize>;
    let end: usize;
    if s[d1] == '}' {
        max = min;
        end = d1 + 1;
    } else if s[d1] == ',' {
        let d2 = scan_digits(s, d1 + 1);
        if !(d2 < n && s[d2] == '}') {
            return None;
        }
        if d2 > d1 + 1 {
            max = read_number(s, d1 + 1, d2);
        } else {
            max = min;
        }
        end = d2 + 1;
    } else {
        return None;
    }
    match (min, max) {
        (Some(lo), Some(hi)) => {
            let name = string_of(&copy_range(s, ns, ne));
            Some((PatternElement::SetBlock { name, min: lo, max: hi, negate }, end))
        },
        _ => None,
    }
}

/// Parses an ordering pattern: a sequence of `*` and blocks such as
/// `(^digits){2,4}`, read left to right after trimming surrounding
/// whitespace. `None` when any part of it fits neither form.
pub fn parse_pattern(pattern_str: &str) -> (r: Option<Vec<PatternElement>>)
    ensures
        match r {
            Some(v) => pattern_elements(pattern_str@) == Some(element_views(v@)),
            None => pattern_elements(pattern_str@) is None,
        },
{
    let s = trim_chars(&to_chars(pattern_str));
    let n = s.len();
    let mut elements: Vec<PatternElement> = Vec::new();
    let mut i: usize = 0;
    while i < n
        invariant
            n == s@.len(),
            i <= n,
            s@ == trimmed(pattern_str@),
            pattern_elements(pattern_str@) == match parse_from(s@, i as int) {
                Some(rest) => Some(element_views(elements@) + rest),
                None => None::<Seq<ElementModel>>,
            },
        decreases n - i,
    {
        let ghost before = element_views(elements@);
        if s[i] == '*' {
            elements.push(PatternElement::Wildcard);
            proof {
                assert(element_views(elements@) =~= before.push(ElementModel::Wildcard));
                match parse_from(s@, i + 1) {
                    Some(rest) => {
                        assert(before + (seq![ElementModel::Wildcard] + rest) =~= before.push(
                            ElementModel::Wildcard,
                        ) + rest);
                    },
                    None => {},
                }
            }
            i = i + 1;
        } else {
            match scan_block(&s, i) {
                Some((e, end)) => {
                    let ghost em = e@;
                    elements.push(e);
                    proof {
                        assert(element_views(elements@) =~= before.push(em));
                        match parse_from(s@, end as int) {
                            Some(rest) => {
                                assert(before + (seq![em] + rest) =~= before.push(em) + rest);
                            },
                            None => {},
                        }
                    }
                    i = end;
                },
                None => {
                    return None;
                },
            }
        }
    }
    assert(element_views(elements@) + Seq::<ElementModel>::empty() =~= element_views(elements@));
    Some(elements)
}

} // verus!
