//! Resolution of textual character tokens into sequences of characters.

use vstd::prelude::*;
use vstd::string::*;

verus! {

/// The largest Unicode scalar value.
pub const MAX_SCALAR: u32 = 0x10FFFF;

/// A code point that is a Unicode scalar value, i.e. a valid `char`.
pub open spec fn is_scalar(v: int) -> bool {
    (0 <= v < 0xD800) || (0xE000 <= v <= 0x10FFFF)
}

/// The code points of a character sequence.
pub open spec fn codes(s: Seq<char>) -> Seq<int> {
    s.map_values(|c: char| c as int)
}

/// Every scalar value in `lo..=hi`, ascending.
pub open spec fn codes_between(lo: int, hi: int) -> Seq<int>
    decreases hi - lo + 1,
{
    if hi < lo {
        Seq::empty()
    } else if is_scalar(hi) {
        codes_between(lo, hi - 1).push(hi)
    } else {
        codes_between(lo, hi - 1)
    }
}

/// Relies on `char::from_u32`: `Some` exactly for scalar values, holding that code point.
#[verifier::external_body]
pub(crate) fn char_from_code(v: u32) -> (r: Option<char>)
    ensures
        r is Some <==> is_scalar(v as int),
        r matches Some(c) ==> c as int == v as int,
{
    char::from_u32(v)
}

/// The characters of `lo..=hi` that are scalar values, ascending.
pub(crate) fn chars_between(lo: u32, hi: u32) -> (r: Vec<char>)
    requires
        hi <= 0xFFFFFF,
    ensures
        codes(r@) == codes_between(lo as int, hi as int),
{
    let mut out: Vec<char> = Vec::new();
    if lo > hi {
        assert(codes(out@) =~= codes_between(lo as int, hi as int));
        return out;
    }
    let mut code: u32 = lo;
    while code <= hi
        invariant
            lo <= code <= hi + 1,
            hi <= 0xFFFFFF,
            codes(out@) == codes_between(lo as int, code as int - 1),
        decreases hi + 1 - code,
    {
        let c = char_from_code(code);
        if let Some(ch) = c {
            out.push(ch);
        }
        assert(codes(out@) =~= codes_between(lo as int, code as int));
        code = code + 1;
    }
    out
}


/// A hexadecimal digit, in either case.
pub open spec fn is_hex_digit(c: char) -> bool {
    (0x30 <= c as int <= 0x39) || (0x41 <= c as int <= 0x46) || (0x61 <= c as int <= 0x66)
}

pub open spec fn hex_digit_value(c: char) -> int {
    if c as int <= 0x39 {
        c as int - 0x30
    } else if c as int <= 0x46 {
        c as int - 0x41 + 10
    } else {
        c as int - 0x61 + 10
    }
}

/// The number written by a run of hexadecimal digits, most significant first.
pub open spec fn hex_value(s: Seq<char>) -> int
    decreases s.len(),
{
    if s.len() == 0 {
        0
    } else {
        hex_value(s.drop_last()) * 16 + hex_digit_value(s.last())
    }
}

pub open spec fn pow16(n: nat) -> int
    decreases n,
{
    if n == 0 {
        1
    } else {
        16 * pow16((n - 1) as nat)
    }
}

/// The token begins with the code-point prefix `U+`.
pub open spec fn starts_with_u_plus(s: Seq<char>) -> bool {
    s.len() >= 2 && s[0] == 'U' && s[1] == '+'
}

/// The number written by four to six hexadecimal digits.
pub open spec fn hex_digits(d: Seq<char>) -> Option<int> {
    if 4 <= d.len() <= 6 && (forall|i: int| 0 <= i < d.len() ==> is_hex_digit(#[trigger] d[i])) {
        Some(hex_value(d))
    } else {
        None
    }
}

/// The code point that `s` denotes when written as `U+` followed by four to
/// six hexadecimal digits.
pub open spec fn hex_code(s: Seq<char>) -> Option<int> {
    if starts_with_u_plus(s) {
        hex_digits(s.skip(2))
    } else {
        None
    }
}

proof fn lemma_pow16_le(n: nat)
    requires
        n <= 6,
    ensures
        0 < pow16(n) <= 0x1000000,
    decreases 6 - n,
{
    reveal_with_fuel(pow16, 7);
    if n < 6 {
        lemma_pow16_le((n + 1) as nat);
    }
}

proof fn lemma_hex_value_bound(s: Seq<char>)
    requires
        forall|i: int| 0 <= i < s.len() ==> is_hex_digit(#[trigger] s[i]),
    ensures
        0 <= hex_value(s) < pow16(s.len()),
    decreases s.len(),
{
    if s.len() > 0 {
        let p = s.drop_last();
        assert forall|i: int| 0 <= i < p.len() implies is_hex_digit(#[trigger] p[i]) by {
            assert(p[i] == s[i]);
        }
        lemma_hex_value_bound(p);
        let v = hex_value(p);
        let d = hex_digit_value(s.last());
        assert(is_hex_digit(s[s.len() - 1]));
        assert(0 <= d < 16);
        let q = pow16(p.len());
        assert(0 <= v * 16 + d < 16 * q) by (nonlinear_arith)
            requires
                0 <= v < q,
                0 <= d < 16,
        ;
    }
}

/// Reads four to six hexadecimal digits, `t[from..]`.
pub(crate) fn parse_hex_digits(t: &Vec<char>, from: usize) -> (r: Option<u32>)
    requires
        from <= t@.len(),
    ensures
        r is Some <==> hex_digits(t@.skip(from as int)) is Some,
        r matches Some(v) ==> hex_digits(t@.skip(from as int)) == Some(v as int) && v < 0x1000000,
{
    let n = t.len();
    if n - from < 4 || n - from > 6 {
        return None;
    }
    let mut v: u32 = 0;
    let mut i: usize = from;
    while i < n
        invariant
            n == t@.len(),
            4 <= n - from <= 6,
            from <= i <= n,
            forall|j: int| from <= j < i ==> is_hex_digit(#[trigger] t@[j]),
            v as int == hex_value(t@.subrange(from as int, i as int)),
            v < pow16((i - from) as nat),
        decreases n - i,
    {
        let c = t[i];
        let d: u32;
        if '0' <= c && c <= '9' {
            d = (c as u32) - 0x30;
        } else if 'A' <= c && c <= 'F' {
            d = (c as u32) - 0x41 + 10;
        } else if 'a' <= c && c <= 'f' {
            d = (c as u32) - 0x61 + 10;
        } else {
            assert(t@.skip(from as int)[i - from] == t@[i as int]);
            assert(!is_hex_digit(t@[i as int]));
            return None;
        }
        proof {
            lemma_pow16_le((i - from) as nat);
            lemma_pow16_le((i - from + 1) as nat);
            let sub = t@.subrange(from as int, i as int + 1);
            assert(sub.drop_last() =~= t@.subrange(from as int, i as int));
            let q = pow16((i - from) as nat);
            assert(v * 16 + d < 16 * q) by (nonlinear_arith)
                requires
                    v < q,
                    d < 16,
            ;
        }
        v = v * 16 + d;
        i = i + 1;
    }
    proof {
        assert(t@.subrange(from as int, n as int) =~= t@.skip(from as int));
        lemma_pow16_le((n - from) as nat);
    }
    Some(v)
}

/// Reads a code point written as `U+` and four to six hexadecimal digits.
fn parse_single_unicode_hex(t: &Vec<char>) -> (r: Option<u32>)
    ensures
        r is Some <==> hex_code(t@) is Some,
        r matches Some(v) ==> hex_code(t@) == Some(v as int) && v < 0x1000000,
{
    if t.len() < 2 || t[0] != 'U' || t[1] != '+' {
        return None;
    }
    parse_hex_digits(t, 2)
}

/// The pieces of `s` between hyphens, as `str::split('-')` yields them.
pub open spec fn split_hyphen(s: Seq<char>) -> Seq<Seq<char>>
    decreases s.len(),
{
    if s.len() == 0 {
        seq![Seq::empty()]
    } else {
        let p = split_hyphen(s.drop_last());
        if s.last() == '-' {
            p.push(Seq::empty())
        } else {
            p.update(p.len() - 1, p.last().push(s.last()))
        }
    }
}

proof fn lemma_split_hyphen_nonempty(s: Seq<char>)
    ensures
        split_hyphen(s).len() >= 1,
    decreases s.len(),
{
    if s.len() > 0 {
        lemma_split_hyphen_nonempty(s.drop_last());
    }
}

pub open spec fn views(v: Seq<Vec<char>>) -> Seq<Seq<char>> {
    v.map_values(|x: Vec<char>| x@)
}

pub open spec fn string_views(v: Seq<String>) -> Seq<Seq<char>> {
    v.map_values(|x: String| x@)
}

/// The user-perceived characters (extended grapheme clusters) of a text.
pub uninterp spec fn grapheme_clusters(s: Seq<char>) -> Seq<Seq<char>>;

/// Relies on `UnicodeSegmentation::graphemes` (extended clusters): it yields
/// consecutive, non-empty slices of the text that together cover it.
#[verifier::external_body]
fn graphemes_of(s: &str) -> (r: Vec<String>)
    ensures
        string_views(r@) == grapheme_clusters(s@),
        string_views(r@).flatten() == s@,
        forall|i: int| 0 <= i < r@.len() ==> (#[trigger] r@[i])@.len() > 0,
{
    unicode_segmentation::UnicodeSegmentation::graphemes(s, true).map(|g| g.to_owned()).collect()
}

/// Relies on `String`'s `FromIterator<&char>`: the characters in order.
#[verifier::external_body]
pub(crate) fn string_of(v: &Vec<char>) -> (r: String)
    ensures
        r@ == v@,
{
    v.iter().collect()
}

/// The characters of a text, in order.
pub(crate) fn to_chars(s: &str) -> (r: Vec<char>)
    ensures
        r@ == s@,
{
    let n = s.unicode_len();
    let mut out: Vec<char> = Vec::new();
    let mut i: usize = 0;
    while i < n
        invariant
            n == s@.len(),
            i <= n,
            out@ == s@.take(i as int),
        decreases n - i,
    {
        out.push(s.get_char(i));
        i = i + 1;
        assert(out@ =~= s@.take(i as int));
    }
    assert(out@ =~= s@);
    out
}

/// Splits a character sequence on every hyphen.
fn split_on_hyphen(s: &Vec<char>) -> (r: Vec<Vec<char>>)
    ensures
        views(r@) == split_hyphen(s@),
{
    let mut done: Vec<Vec<char>> = Vec::new();
    let mut cur: Vec<char> = Vec::new();
    let mut i: usize = 0;
    assert(views(done@).push(cur@) =~= split_hyphen(s@.take(0)));
    while i < s.len()
        invariant
            i <= s@.len(),
            views(done@).push(cur@) == split_hyphen(s@.take(i as int)),
        decreases s@.len() - i,
    {
        let c = s[i];
        proof {
            let t = s@.take(i as int + 1);
            assert(t.drop_last() =~= s@.take(i as int));
            lemma_split_hyphen_nonempty(s@.take(i as int));
        }
        if c == '-' {
            done.push(cur);
            cur = Vec::new();
            assert(views(done@).push(cur@) =~= split_hyphen(s@.take(i as int + 1)));
        } else {
            cur.push(c);
            assert(views(done@).push(cur@) =~= split_hyphen(s@.take(i as int + 1)));
        }
        i = i + 1;
    }
    assert(s@.take(s@.len() as int) =~= s@);
    done.push(cur);
    done
}

/// The characters of every cluster, in order.
fn flatten_clusters(gs: &Vec<String>) -> (r: Vec<char>)
    ensures
        r@ == string_views(gs@).flatten(),
{
    let mut out: Vec<char> = Vec::new();
    let mut j: usize = 0;
    assert(string_views(gs@.take(0)) =~= Seq::<Seq<char>>::empty());
    while j < gs.len()
        invariant
            j <= gs@.len(),
            out@ == string_views(gs@.take(j as int)).flatten(),
        decreases gs@.len() - j,
    {
        let mut cs = to_chars(gs[j].as_str());
        proof {
            let prev = string_views(gs@.take(j as int));
            assert(string_views(gs@.take(j as int + 1)) =~= prev.push(gs@[j as int]@));
            prev.lemma_flatten_push(gs@[j as int]@);
        }
        out.append(&mut cs);
        j = j + 1;
    }
    assert(gs@.take(gs@.len() as int) =~= gs@);
    out
}


/// Why a token could not be resolved.
#[derive(Debug, PartialEq, Eq)]
pub enum UtilsError {
    /// A `U+` code point that is not four to six hexadecimal digits.
    InvalidFormat(String),
    /// A range whose start lies above its end.
    InvalidRange(String),
    /// A `U+` code point that is no Unicode scalar value.
    InvalidUnicodeCode(String),
}

/// The meaning of a [`UtilsError`]: its kind and the offending text.
pub enum TokenFault {
    Format(Seq<char>),
    Range(Seq<char>),
    Code(Seq<char>),
}

impl View for UtilsError {
    type V = TokenFault;

    open spec fn view(&self) -> TokenFault {
        match self {
            UtilsError::InvalidFormat(s) => TokenFault::Format(s@),
            UtilsError::InvalidRange(s) => TokenFault::Range(s@),
            UtilsError::InvalidUnicodeCode(s) => TokenFault::Code(s@),
        }
    }
}

/// A token of the form `U+XXXX-U+YYYY`: one hyphen, both sides prefixed by `U+`.
pub open spec fn is_hex_range_token(s: Seq<char>) -> bool {
    let parts = split_hyphen(s);
    parts.len() == 2 && starts_with_u_plus(parts[0]) && starts_with_u_plus(parts[1])
}

/// A token of the form `a-z`: one hyphen, one grapheme cluster on each side.
pub open spec fn is_grapheme_range_token(s: Seq<char>) -> bool {
    let parts = split_hyphen(s);
    single_cluster_sides(s, grapheme_clusters(parts[0]).len() == 1 && grapheme_clusters(
        parts[1],
    ).len() == 1)
}

/// One hyphen with a non-empty side on each hand, both sides being single
/// grapheme clusters when `single` holds.
pub open spec fn single_cluster_sides(s: Seq<char>, single: bool) -> bool {
    let parts = split_hyphen(s);
    single && parts.len() == 2 && parts[0].len() > 0 && parts[1].len() > 0
}

/// The inclusive range of scalar values between two bounds, or the fault
/// for an inverted range.
pub open spec fn range_or_fault(s: Seq<char>, lo: int, hi: int) -> Result<Seq<int>, TokenFault> {
    if lo > hi {
        Err(TokenFault::Range(s))
    } else {
        Ok(codes_between(lo, hi))
    }
}

/// What a token resolves to, as code points, or why it does not, given
/// whether each side of its hyphen is a single grapheme cluster.
pub open spec fn resolve_token_with(s: Seq<char>, single: bool) -> Result<Seq<int>, TokenFault> {
    let parts = split_hyphen(s);
    if parts.len() == 1 {
        if starts_with_u_plus(s) {
            match hex_code(s) {
                None => Err(TokenFault::Format(s)),
                Some(v) => if is_scalar(v) {
                    Ok(seq![v])
                } else {
                    Err(TokenFault::Code(s))
                },
            }
        } else {
            Ok(codes(s))
        }
    } else if is_hex_range_token(s) {
        hex_range_outcome(s)
    } else if single_cluster_sides(s, single) {
        char_range_outcome(s)
    } else {
        Ok(codes(s))
    }
}

/// The outcome of a `U+XXXX-U+YYYY` token.
pub open spec fn hex_range_outcome(s: Seq<char>) -> Result<Seq<int>, TokenFault> {
    let parts = split_hyphen(s);
    match (hex_code(parts[0]), hex_code(parts[1])) {
        (None, _) => Err(TokenFault::Format(parts[0])),
        (Some(_), None) => Err(TokenFault::Format(parts[1])),
        (Some(lo), Some(hi)) => range_or_fault(s, lo, hi),
    }
}

/// The outcome of an `a-z` token.
pub open spec fn char_range_outcome(s: Seq<char>) -> Result<Seq<int>, TokenFault> {
    let parts = split_hyphen(s);
    range_or_fault(s, parts[0][0] as int, parts[1][0] as int)
}

/// What a token resolves to, as code points, or why it does not. A literal
/// token is split into grapheme clusters whose characters are then taken in
/// order, which gives back the token's own characters.
pub open spec fn resolve_token(s: Seq<char>) -> Result<Seq<int>, TokenFault> {
    resolve_token_with(s, is_grapheme_range_token(s))
}

/// The meaning of an executable resolution result.
pub open spec fn outcome_of(r: Result<Vec<char>, UtilsError>) -> Result<Seq<int>, TokenFault> {
    match r {
        Ok(v) => Ok(codes(v@)),
        Err(e) => Err(e@),
    }
}

/// `resolve_token`'s statement about an executable result.
pub open spec fn resolves_to(s: Seq<char>, r: Result<Vec<char>, UtilsError>) -> bool {
    resolve_token(s) == outcome_of(r)
}

fn starts_with_prefix(t: &Vec<char>) -> (r: bool)
    ensures
        r == starts_with_u_plus(t@),
{
    t.len() >= 2 && t[0] == 'U' && t[1] == '+'
}

/// Resolves a token into characters: a `U+XXXX` code point, a `U+XXXX-U+YYYY`
/// or `a-z` range, or else the token's own characters, cluster by cluster.
pub fn parse_unicode(input: &str) -> (r: Result<Vec<char>, UtilsError>)
    ensures
        resolves_to(input@, r),
{
    let cs = to_chars(input);
    let parts = split_on_hyphen(&cs);
    if parts.len() == 1 && !is_single_unicode_hex(&cs) {
        return Ok(literal_chars(input));
    }
    let single = is_single_grapheme_range(&parts);
    proof {
        if parts@.len() == 2 {
            assert(parts@[0]@ == split_hyphen(input@)[0]);
            assert(parts@[1]@ == split_hyphen(input@)[1]);
        }
    }
    parse_unicode_with(input, single)
}

/// Resolves a token, given whether each side of its hyphen is a single
/// grapheme cluster (`single_clusters`), as `parse_unicode` does with the
/// clusters it finds.
pub fn parse_unicode_with(input: &str, single_clusters: bool) -> (r: Result<Vec<char>, UtilsError>)
    ensures
        outcome_of(r) == resolve_token_with(input@, single_clusters),
{
    let cs = to_chars(input);
    let parts = split_on_hyphen(&cs);
    proof {
        lemma_split_hyphen_nonempty(cs@);
    }
    if parts.len() == 1 {
        if is_single_unicode_hex(&cs) {
            match parse_single_unicode_hex(&cs) {
                None => Err(UtilsError::InvalidFormat(input.to_owned())),
                Some(code) => match char_from_code(code) {
                    Some(ch) => {
                        let v = vec![ch];
                        assert(codes(v@) =~= seq![code as int]);
                        Ok(v)
                    },
                    None => Err(UtilsError::InvalidUnicodeCode(input.to_owned())),
                },
            }
        } else {
            Ok(cs)
        }
    } else if is_unicode_hex_range(&parts) {
        parse_unicode_hex_range(input, &parts)
    } else if single_clusters && parts.len() == 2 && parts[0].len() > 0 && parts[1].len() > 0 {
        assert(parts@[0]@ == split_hyphen(input@)[0]);
        assert(parts@[1]@ == split_hyphen(input@)[1]);
        parse_single_char_range(input, &parts)
    } else {
        Ok(cs)
    }
}

/// The token's characters, cluster by cluster.
fn literal_chars(input: &str) -> (r: Vec<char>)
    ensures
        r@ == input@,
        codes(r@) == codes(input@),
{
    let gs = graphemes_of(input);
    flatten_clusters(&gs)
}

fn is_single_unicode_hex(cs: &Vec<char>) -> (r: bool)
    ensures
        r == starts_with_u_plus(cs@),
{
    starts_with_prefix(cs)
}

fn is_unicode_hex_range(parts: &Vec<Vec<char>>) -> (r: bool)
    ensures
        r == (parts@.len() == 2 && starts_with_u_plus(parts@[0]@) && starts_with_u_plus(
            parts@[1]@,
        )),
{
    parts.len() == 2 && starts_with_prefix(&parts[0]) && starts_with_prefix(&parts[1])
}

fn parse_unicode_hex_range(input: &str, parts: &Vec<Vec<char>>) -> (r: Result<Vec<char>, UtilsError>)
    requires
        views(parts@) == split_hyphen(input@),
        is_hex_range_token(input@),
    ensures
        outcome_of(r) == hex_range_outcome(input@),
{
    assert(parts@[0]@ == split_hyphen(input@)[0]);
    assert(parts@[1]@ == split_hyphen(input@)[1]);
    let start = match parse_single_unicode_hex(&parts[0]) {
        Some(v) => v,
        None => return Err(UtilsError::InvalidFormat(string_of(&parts[0]))),
    };
    let end = match parse_single_unicode_hex(&parts[1]) {
        Some(v) => v,
        None => return Err(UtilsError::InvalidFormat(string_of(&parts[1]))),
    };
    if start > end {
        return Err(UtilsError::InvalidRange(input.to_owned()));
    }
    Ok(chars_between(start, end))
}

fn is_single_grapheme_range(parts: &Vec<Vec<char>>) -> (r: bool)
    ensures
        r == (parts@.len() == 2 && grapheme_clusters(parts@[0]@).len() == 1 && grapheme_clusters(
            parts@[1]@,
        ).len() == 1),
        r ==> parts@[0]@.len() > 0 && parts@[1]@.len() > 0,
{
    if parts.len() != 2 {
        return false;
    }
    let left = string_of(&parts[0]);
    let right = string_of(&parts[1]);
    let gl = graphemes_of(left.as_str());
    let gr = graphemes_of(right.as_str());
    if gl.len() == 1 && gr.len() == 1 {
        proof {
            string_views(gl@).lemma_flatten_one_element();
            string_views(gr@).lemma_flatten_one_element();
            assert(gl@[0]@.len() > 0);
            assert(gr@[0]@.len() > 0);
        }
        true
    } else {
        false
    }
}

/// The code point of a character.
fn code_of(c: char) -> (r: u32)
    ensures
        r as int == c as int,
        is_scalar(r as int),
{
    c as u32
}

fn parse_single_char_range(input: &str, parts: &Vec<Vec<char>>) -> (r: Result<Vec<char>, UtilsError>)
    requires
        views(parts@) == split_hyphen(input@),
        parts@.len() == 2,
        parts@[0]@.len() > 0,
        parts@[1]@.len() > 0,
    ensures
        outcome_of(r) == char_range_outcome(input@),
{
    assert(parts@[0]@ == split_hyphen(input@)[0]);
    assert(parts@[1]@ == split_hyphen(input@)[1]);
    let first: char = parts[0][0];
    let last: char = parts[1][0];
    let start = code_of(first);
    let end = code_of(last);
    if start > end {
        return Err(UtilsError::InvalidRange(input.to_owned()));
    }
    Ok(chars_between(start, end))
}


proof fn lemma_codes_between_starts_at(lo: int, hi: int)
    requires
        is_scalar(lo),
        lo <= hi,
    ensures
        codes_between(lo, hi).len() > 0,
        codes_between(lo, hi)[0] == lo,
    decreases hi - lo,
{
    if hi > lo {
        lemma_codes_between_starts_at(lo, hi - 1);
        let prev = codes_between(lo, hi - 1);
        if is_scalar(hi) {
            assert(prev.push(hi)[0] == prev[0]);
        }
    } else {
        assert(codes_between(lo, hi - 1) =~= Seq::<int>::empty());
        assert(codes_between(lo, hi) == seq![lo]);
    }
}

/// A `U+XXXX-U+YYYY` token with bounds in order resolves to every scalar
/// value between them, strictly ascending.
pub proof fn lemma_hex_range_resolves(s: Seq<char>, lo: int, hi: int)
    requires
        is_hex_range_token(s),
        hex_code(split_hyphen(s)[0]) == Some(lo),
        hex_code(split_hyphen(s)[1]) == Some(hi),
        lo <= hi,
    ensures
        resolve_token(s) == Ok::<Seq<int>, TokenFault>(codes_between(lo, hi)),
        forall|i: int, j: int|
            0 <= i < j < codes_between(lo, hi).len() ==> #[trigger] codes_between(lo, hi)[i]
                < #[trigger] codes_between(lo, hi)[j],
        forall|v: int|
            #[trigger] codes_between(lo, hi).contains(v) <==> (lo <= v <= hi && is_scalar(v)),
{
    lemma_range_ascending_without_gaps(lo, hi);
}

/// A resolved range is strictly ascending and holds exactly the scalar
/// values between its bounds: nothing is skipped but code points that are
/// not characters.
pub proof fn lemma_range_ascending_without_gaps(lo: int, hi: int)
    ensures
        forall|i: int, j: int|
            0 <= i < j < codes_between(lo, hi).len() ==> #[trigger] codes_between(lo, hi)[i]
                < #[trigger] codes_between(lo, hi)[j],
        forall|v: int|
            #[trigger] codes_between(lo, hi).contains(v) <==> (lo <= v <= hi && is_scalar(v)),
    decreases hi - lo + 1,
{
    let r = codes_between(lo, hi);
    if hi < lo {
        assert(r =~= Seq::<int>::empty());
        assert forall|v: int| #[trigger] codes_between(lo, hi).contains(v) <==> (lo <= v <= hi && is_scalar(v)) by {
            if r.contains(v) {
                let k = choose|k: int| 0 <= k < r.len() && r[k] == v;
            }
        }
    } else {
        lemma_range_ascending_without_gaps(lo, hi - 1);
        let prev = codes_between(lo, hi - 1);
        assert forall|k: int| 0 <= k < prev.len() implies prev[k] <= hi - 1 by {
            assert(prev.contains(prev[k]));
        }
        if is_scalar(hi) {
            assert(r == prev.push(hi));
            assert forall|v: int| #[trigger] codes_between(lo, hi).contains(v) <==> (lo <= v <= hi && is_scalar(v)) by {
                if r.contains(v) && v != hi {
                    let k = choose|k: int| 0 <= k < r.len() && r[k] == v;
                    assert(prev[k] == v);
                    assert(prev.contains(v));
                }
                if lo <= v <= hi - 1 && is_scalar(v) {
                    assert(prev.contains(v));
                    let k = choose|k: int| 0 <= k < prev.len() && prev[k] == v;
                    assert(r[k] == v);
                }
                if v == hi {
                    assert(r[prev.len() as int] == hi);
                }
            }
            assert forall|i: int, j: int|
                0 <= i < j < r.len() implies #[trigger] codes_between(lo, hi)[i] < #[trigger] codes_between(
                lo,
                hi,
            )[j] by {
                if j == prev.len() {
                    assert(r[i] == prev[i]);
                } else {
                    assert(r[i] == prev[i] && r[j] == prev[j]);
                }
            }
        } else {
            assert(r == prev);
            assert forall|v: int| #[trigger] codes_between(lo, hi).contains(v) <==> (lo <= v <= hi && is_scalar(v)) by {
                if lo <= v <= hi - 1 && is_scalar(v) {
                    assert(prev.contains(v));
                }
            }
        }
    }
}

/// The upper-case hexadecimal digit for `d` in `0..16`.
pub open spec fn hex_char(d: int) -> char {
    if d == 0 { '0' } else if d == 1 { '1' } else if d == 2 { '2' } else if d == 3 { '3' }
    else if d == 4 { '4' } else if d == 5 { '5' } else if d == 6 { '6' } else if d == 7 { '7' }
    else if d == 8 { '8' } else if d == 9 { '9' } else if d == 10 { 'A' } else if d == 11 { 'B' }
    else if d == 12 { 'C' } else if d == 13 { 'D' } else if d == 14 { 'E' } else { 'F' }
}

/// `v` written with exactly `n` hexadecimal digits, most significant first.
pub open spec fn hex_text(v: nat, n: nat) -> Seq<char>
    decreases n,
{
    if n == 0 {
        Seq::empty()
    } else {
        hex_text(v / 16, (n - 1) as nat).push(hex_char((v % 16) as int))
    }
}

/// The range token `U+XXXXXX-U+YYYYYY` for two code points.
pub open spec fn hex_range_text(lo: nat, hi: nat) -> Seq<char> {
    seq!['U', '+'] + hex_text(lo, 6) + seq!['-', 'U', '+'] + hex_text(hi, 6)
}

proof fn lemma_hex_text(v: nat, n: nat)
    requires
        v < pow16(n),
    ensures
        hex_text(v, n).len() == n,
        forall|i: int| 0 <= i < n ==> is_hex_digit(#[trigger] hex_text(v, n)[i]),
        forall|i: int| 0 <= i < n ==> #[trigger] hex_text(v, n)[i] != '-',
        hex_value(hex_text(v, n)) == v,
    decreases n,
{
    if n > 0 {
        let q = pow16((n - 1) as nat);
        assert(v / 16 < q) by (nonlinear_arith)
            requires
                v < 16 * q,
                q > 0,
        ;
        assert(pow16(n) == 16 * q);
        lemma_pow16_pos((n - 1) as nat);
        lemma_hex_text(v / 16, (n - 1) as nat);
        let t = hex_text(v, n);
        let d = (v % 16) as int;
        assert(t.drop_last() =~= hex_text(v / 16, (n - 1) as nat));
        assert(is_hex_digit(hex_char(d)) && hex_digit_value(hex_char(d)) == d && hex_char(d) != '-');
        assert(v == (v / 16) * 16 + v % 16);
        assert forall|i: int| 0 <= i < n implies is_hex_digit(#[trigger] t[i]) && t[i] != '-' by {
            if i < n - 1 {
                assert(t[i] == hex_text(v / 16, (n - 1) as nat)[i]);
            }
        }
    }
}

proof fn lemma_pow16_pos(n: nat)
    ensures
        pow16(n) > 0,
    decreases n,
{
    if n > 0 {
        lemma_pow16_pos((n - 1) as nat);
    }
}

/// A text with no hyphen is one piece.
proof fn lemma_split_no_hyphen(a: Seq<char>)
    requires
        forall|i: int| 0 <= i < a.len() ==> #[trigger] a[i] != '-',
    ensures
        split_hyphen(a) == seq![a],
    decreases a.len(),
{
    if a.len() > 0 {
        let p = a.drop_last();
        assert forall|i: int| 0 <= i < p.len() implies #[trigger] p[i] != '-' by {
            assert(p[i] == a[i]);
        }
        lemma_split_no_hyphen(p);
        assert(a[a.len() - 1] != '-');
        assert(p.push(a.last()) =~= a);
        assert(seq![p].update(0, p.push(a.last())) =~= seq![a]);
    } else {
        assert(a =~= Seq::<char>::empty());
        assert(seq![Seq::<char>::empty()] =~= seq![a]);
    }
}

/// Text with one hyphen splits into what stands on either side.
proof fn lemma_split_one_hyphen(a: Seq<char>, b: Seq<char>)
    requires
        forall|i: int| 0 <= i < a.len() ==> #[trigger] a[i] != '-',
        forall|i: int| 0 <= i < b.len() ==> #[trigger] b[i] != '-',
    ensures
        split_hyphen(a + seq!['-'] + b) == seq![a, b],
    decreases b.len(),
{
    let s = a + seq!['-'] + b;
    if b.len() == 0 {
        lemma_split_no_hyphen(a);
        assert(s.drop_last() =~= a);
        assert(s.last() == '-');
        assert(b =~= Seq::<char>::empty());
        assert(seq![a].push(Seq::<char>::empty()) =~= seq![a, b]);
    } else {
        let b0 = b.drop_last();
        assert forall|i: int| 0 <= i < b0.len() implies #[trigger] b0[i] != '-' by {
            assert(b0[i] == b[i]);
        }
        lemma_split_one_hyphen(a, b0);
        assert(s.drop_last() =~= a + seq!['-'] + b0);
        assert(s.last() == b[b.len() - 1]);
        assert(b0.push(b.last()) =~= b);
        assert(seq![a, b0].update(1, b0.push(b.last())) =~= seq![a, b]);
    }
}

/// Writing two scalar values in order as a `U+XXXXXX-U+YYYYYY` token and
/// resolving it gives every scalar value between them.
pub proof fn lemma_hex_range_text_resolves(lo: int, hi: int)
    requires
        is_scalar(lo),
        is_scalar(hi),
        lo <= hi,
    ensures
        resolve_token(hex_range_text(lo as nat, hi as nat)) == Ok::<Seq<int>, TokenFault>(
            codes_between(lo, hi),
        ),
{
    reveal_with_fuel(pow16, 7);
    lemma_hex_text(lo as nat, 6);
    lemma_hex_text(hi as nat, 6);
    let a = seq!['U', '+'] + hex_text(lo as nat, 6);
    let b = seq!['U', '+'] + hex_text(hi as nat, 6);
    assert forall|i: int| 0 <= i < a.len() implies #[trigger] a[i] != '-' by {
        if i >= 2 {
            assert(a[i] == hex_text(lo as nat, 6)[i - 2]);
        }
    }
    assert forall|i: int| 0 <= i < b.len() implies #[trigger] b[i] != '-' by {
        if i >= 2 {
            assert(b[i] == hex_text(hi as nat, 6)[i - 2]);
        }
    }
    let s = hex_range_text(lo as nat, hi as nat);
    assert(s =~= a + seq!['-'] + b);
    lemma_split_one_hyphen(a, b);
    assert(a.skip(2) =~= hex_text(lo as nat, 6));
    assert(b.skip(2) =~= hex_text(hi as nat, 6));
    assert(hex_code(a) == Some(lo));
    assert(hex_code(b) == Some(hi));
}

/// Resolving a range token, writing the first and last code points of the
/// result as a `U+XXXXXX-U+YYYYYY` token and resolving that again gives the
/// same result, for every range whose bounds are characters.
pub proof fn lemma_range_reformat_round_trip(s: Seq<char>)
    requires
        split_hyphen(s).len() == 2,
        is_hex_range_token(s) || is_grapheme_range_token(s),
        resolve_token(s) is Ok,
        is_scalar(range_bounds(s).0),
        is_scalar(range_bounds(s).1),
    ensures
        resolve_token(
            hex_range_text(
                resolve_token(s)->Ok_0[0] as nat,
                resolve_token(s)->Ok_0.last() as nat,
            ),
        ) == resolve_token(s),
{
    lemma_range_round_trip(s);
    let (lo, hi) = range_bounds(s);
    assert(lo <= hi);
    lemma_hex_range_text_resolves(lo, hi);
}

/// The bounds of a range token (`U+XXXX-U+YYYY` or `a-z`) as code points.
pub open spec fn range_bounds(s: Seq<char>) -> (int, int) {
    let parts = split_hyphen(s);
    if is_hex_range_token(s) {
        (hex_code(parts[0])->Some_0, hex_code(parts[1])->Some_0)
    } else {
        (parts[0][0] as int, parts[1][0] as int)
    }
}

/// Resolving a range token and reading the bounds back from the first and
/// last characters of the result gives the token's own start and end, for
/// every range whose bounds are characters.
pub proof fn lemma_range_round_trip(s: Seq<char>)
    requires
        split_hyphen(s).len() == 2,
        is_hex_range_token(s) || is_grapheme_range_token(s),
        resolve_token(s) is Ok,
        is_scalar(range_bounds(s).0),
        is_scalar(range_bounds(s).1),
    ensures
        resolve_token(s)->Ok_0.len() > 0,
        resolve_token(s)->Ok_0[0] == range_bounds(s).0,
        resolve_token(s)->Ok_0.last() == range_bounds(s).1,
{
    let (lo, hi) = range_bounds(s);
    assert(resolve_token(s) == Ok::<Seq<int>, TokenFault>(codes_between(lo, hi)));
    lemma_codes_between_starts_at(lo, hi);
}


/// Unicode's `White_Space` property, as `char::is_whitespace` reads it.
pub open spec fn white_space(c: char) -> bool {
    let v = c as int;
    (0x09 <= v <= 0x0D) || v == 0x20 || v == 0x85 || v == 0xA0 || v == 0x1680 || (0x2000 <= v
        <= 0x200A) || v == 0x2028 || v == 0x2029 || v == 0x202F || v == 0x205F || v == 0x3000
}

/// Whether a character has Unicode's `White_Space` property.
pub(crate) fn is_white_space(c: char) -> (r: bool)
    ensures
        r == white_space(c),
{
    let v = code_of(c);
    (0x09 <= v && v <= 0x0D) || v == 0x20 || v == 0x85 || v == 0xA0 || v == 0x1680 || (0x2000 <= v
        && v <= 0x200A) || v == 0x2028 || v == 0x2029 || v == 0x202F || v == 0x205F || v == 0x3000
}

/// `s` without its leading whitespace.
pub open spec fn strip_front(s: Seq<char>) -> Seq<char>
    decreases s.len(),
{
    if s.len() > 0 && white_space(s[0]) {
        strip_front(s.skip(1))
    } else {
        s
    }
}

/// `s` without its trailing whitespace.
pub open spec fn strip_back(s: Seq<char>) -> Seq<char>
    decreases s.len(),
{
    if s.len() > 0 && white_space(s.last()) {
        strip_back(s.drop_last())
    } else {
        s
    }
}

/// `s` without leading and trailing whitespace, as `str::trim` leaves it.
pub open spec fn trimmed(s: Seq<char>) -> Seq<char> {
    strip_back(strip_front(s))
}

/// The characters of `s[a..b]`.
pub(crate) fn copy_range(s: &Vec<char>, a: usize, b: usize) -> (r: Vec<char>)
    requires
        a <= b <= s@.len(),
    ensures
        r@ == s@.subrange(a as int, b as int),
{
    let mut out: Vec<char> = Vec::new();
    let mut k: usize = a;
    while k < b
        invariant
            a <= k <= b <= s@.len(),
            out@ == s@.subrange(a as int, k as int),
        decreases b - k,
    {
        out.push(s[k]);
        k = k + 1;
        assert(out@ =~= s@.subrange(a as int, k as int));
    }
    out
}

/// `s` without leading and trailing whitespace.
pub(crate) fn trim_chars(s: &Vec<char>) -> (r: Vec<char>)
    ensures
        r@ == trimmed(s@),
{
    let n = s.len();
    let mut a: usize = 0;
    assert(s@.subrange(0, n as int) =~= s@);
    while a < n && is_white_space(s[a])
        invariant
            a <= n == s@.len(),
            strip_front(s@) == strip_front(s@.subrange(a as int, n as int)),
        decreases n - a,
    {
        assert(s@.subrange(a as int, n as int).skip(1) =~= s@.subrange(a as int + 1, n as int));
        a = a + 1;
    }
    let mut b: usize = n;
    while b > a && is_white_space(s[b - 1])
        invariant
            a <= b <= n == s@.len(),
            strip_front(s@) == s@.subrange(a as int, n as int),
            trimmed(s@) == strip_back(s@.subrange(a as int, b as int)),
        decreases b - a,
    {
        assert(s@.subrange(a as int, b as int).drop_last() =~= s@.subrange(a as int, b - 1));
        b = b - 1;
    }
    copy_range(s, a, b)
}


/// What a list of tokens resolves to: each token's characters, in order, or
/// the first token's fault.
pub open spec fn resolve_list(ts: Seq<Seq<char>>) -> Result<Seq<int>, TokenFault>
    decreases ts.len(),
{
    if ts.len() == 0 {
        Ok(Seq::empty())
    } else {
        match resolve_list(ts.drop_last()) {
            Err(e) => Err(e),
            Ok(a) => match resolve_token(ts.last()) {
                Err(e) => Err(e),
                Ok(b) => Ok(a + b),
            },
        }
    }
}

/// Resolves every token of a list and joins the results in order.
pub fn resolve_tokens(items: &Vec<String>) -> (r: Result<Vec<char>, UtilsError>)
    ensures
        match r {
            Ok(v) => resolve_list(string_views(items@)) == Ok::<Seq<int>, TokenFault>(codes(v@)),
            Err(e) => resolve_list(string_views(items@)) == Err::<Seq<int>, TokenFault>(e@),
        },
{
    let mut out: Vec<char> = Vec::new();
    let mut j: usize = 0;
    assert(string_views(items@.take(0)) =~= Seq::<Seq<char>>::empty());
    assert(codes(out@) =~= Seq::<int>::empty());
    while j < items.len()
        invariant
            j <= items@.len(),
            resolve_list(string_views(items@.take(j as int))) == Ok::<Seq<int>, TokenFault>(
                codes(out@),
            ),
        decreases items@.len() - j,
    {
        let ghost prev = out@;
        let res = parse_unicode(items[j].as_str());
        let ghost ts = string_views(items@.take(j as int + 1));
        assert(ts.drop_last() =~= string_views(items@.take(j as int)));
        assert(ts.last() == items@[j as int]@);
        match res {
            Ok(mut cs) => {
                let ghost got = cs@;
                out.append(&mut cs);
                assert(codes(out@) =~= codes(prev) + codes(got));
            },
            Err(e) => {
                proof {
                    assert(string_views(items@).take(j as int + 1) =~= ts);
                    assert(resolve_list(ts) == Err::<Seq<int>, TokenFault>(e@));
                    lemma_resolve_list_err_sticks(string_views(items@), j as int + 1);
                }
                return Err(e);
            },
        }
        j = j + 1;
    }
    assert(items@.take(items@.len() as int) =~= items@);
    Ok(out)
}

proof fn lemma_resolve_list_err_sticks(ts: Seq<Seq<char>>, k: int)
    requires
        0 <= k <= ts.len(),
        resolve_list(ts.take(k)) is Err,
    ensures
        resolve_list(ts) == resolve_list(ts.take(k)),
    decreases ts.len() - k,
{
    if k < ts.len() {
        assert(ts.take(k + 1).drop_last() =~= ts.take(k));
        lemma_resolve_list_err_sticks(ts, k + 1);
    } else {
        assert(ts.take(k) =~= ts);
    }
}

} // verus!
