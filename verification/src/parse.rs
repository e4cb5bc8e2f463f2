use vstd::prelude::*;

use crate::json::{
    lemma_members_view, lemma_values_view,
    members_view, values_view, JsonSpec, JsonValue, JsonNumber, NumberView, ParseError, ParseFailure, decimal_number,
};

verus! {

/// The characters with the Unicode `White_Space` property (as listed in the Unicode
/// Character Database, `PropList.txt`), which is what `char::is_whitespace` tests.
pub open spec fn unicode_white_space(c: char) -> bool {
    let u = c as u32;
    ||| 0x9 <= u && u <= 0xd
    ||| u == 0x20
    ||| u == 0x85
    ||| u == 0xa0
    ||| u == 0x1680
    ||| 0x2000 <= u && u <= 0x200a
    ||| u == 0x2028
    ||| u == 0x2029
    ||| u == 0x202f
    ||| u == 0x205f
    ||| u == 0x3000
}

/// An ASCII decimal digit.
pub open spec fn is_ascii_digit(c: char) -> bool {
    '0' <= c && c <= '9'
}

/// The value of an ASCII decimal digit.
pub open spec fn digit_of(c: char) -> u8 {
    (c as u32 - '0' as u32) as u8
}

/// The first position at or after `p` that does not hold a whitespace character.
pub open spec fn skip_ws(s: Seq<char>, p: int) -> int
    decreases s.len() - p,
{
    if 0 <= p < s.len() && unicode_white_space(s[p]) {
        skip_ws(s, p + 1)
    } else {
        p
    }
}

/// The first position at or after `p` that does not hold an ASCII digit.
pub open spec fn skip_digits(s: Seq<char>, p: int) -> int
    decreases s.len() - p,
{
    if 0 <= p < s.len() && is_ascii_digit(s[p]) {
        skip_digits(s, p + 1)
    } else {
        p
    }
}

/// The values of the ASCII digits in `s[from..to]`.
pub open spec fn digit_values(s: Seq<char>, from: int, to: int) -> Seq<u8> {
    s.subrange(from, to).map_values(|c: char| digit_of(c))
}

/// The character that a backslash followed by `c` stands for in a string: `"`, `\`, `/`,
/// and a newline, carriage return or tab character stand for themselves, and the letters
/// `n`, `r` and `t` for newline, carriage return and tab. `None` for every other character.
pub open spec fn escaped_char(c: char) -> Option<char> {
    if c == '"' || c == '\\' || c == '/' || c == '\n' || c == '\r' || c == '\t' {
        Some(c)
    } else if c == 'n' {
        Some('\n')
    } else if c == 'r' {
        Some('\r')
    } else if c == 't' {
        Some('\t')
    } else {
        None
    }
}

/// Whether `s[p..]` starts with `word`.
pub open spec fn starts_with_at(s: Seq<char>, p: int, word: Seq<char>) -> bool {
    0 <= p && p + word.len() <= s.len() && s.subrange(p, p + word.len()) == word
}

/// The body of a string from position `p` on, after `acc` has been read: the characters of
/// the string and the position just after its closing quote.
pub open spec fn spec_string_body(s: Seq<char>, p: int, acc: Seq<char>) -> Result<(Seq<char>, int), ParseFailure>
    decreases s.len() - p,
{
    if p < 0 || p >= s.len() {
        Err(ParseFailure::Error(ParseError::UnexpectedStringEnd))
    } else if s[p] == '"' {
        Ok((acc, p + 1))
    } else if s[p] == '\\' {
        if p + 1 >= s.len() {
            Err(ParseFailure::Error(ParseError::UnexpectedStringEnd))
        } else {
            match escaped_char(s[p + 1]) {
                Some(c) => spec_string_body(s, p + 2, acc.push(c)),
                None => Err(ParseFailure::Unsupported),
            }
        }
    } else {
        spec_string_body(s, p + 1, acc.push(s[p]))
    }
}

/// A string that starts at position `p` with its opening quote.
pub open spec fn spec_string(s: Seq<char>, p: int) -> Result<(Seq<char>, int), ParseFailure> {
    if p < 0 || p >= s.len() {
        Err(ParseFailure::Error(ParseError::UnexpectedJsonEnd))
    } else if s[p] != '"' {
        Err(ParseFailure::Error(ParseError::UnexpectedSymbol(s[p])))
    } else {
        spec_string_body(s, p + 1, Seq::empty())
    }
}

/// A number that starts at position `p`: an optional minus sign, then either `0` or a
/// nonzero digit followed by digits, then optionally a point followed by at least one digit.
pub open spec fn spec_number(s: Seq<char>, p: int) -> Result<(NumberView, int), ParseFailure> {
    let negative = 0 <= p < s.len() && s[p] == '-';
    let q = if negative { p + 1 } else { p };
    if q < 0 || q >= s.len() {
        Err(ParseFailure::Error(ParseError::UnexpectedNumberEnd))
    } else if !is_ascii_digit(s[q]) {
        Err(ParseFailure::Unsupported)
    } else {
        let e = if s[q] == '0' { q + 1 } else { skip_digits(s, q + 1) };
        let int_digits = digit_values(s, q, e);
        if e < s.len() && s[e] == '.' {
            if e + 1 >= s.len() {
                Err(ParseFailure::Error(ParseError::UnexpectedJsonEnd))
            } else if !is_ascii_digit(s[e + 1]) {
                Err(ParseFailure::Error(ParseError::UnexpectedSymbol(s[e + 1])))
            } else {
                let g = skip_digits(s, e + 1);
                Ok((decimal_number(negative, int_digits, digit_values(s, e + 1, g)), g))
            }
        } else {
            Ok((decimal_number(negative, int_digits, Seq::empty()), e))
        }
    }
}

/// The members of an object with `key` set to `value`: a member with that key has its
/// value replaced in place; otherwise the member is added at the end.
pub open spec fn spec_insert_member(
    members: Seq<(Seq<char>, JsonSpec)>,
    key: Seq<char>,
    value: JsonSpec,
) -> Seq<(Seq<char>, JsonSpec)> {
    if exists|i: int| 0 <= i < members.len() && #[trigger] members[i].0 == key {
        let i = choose|i: int| 0 <= i < members.len() && #[trigger] members[i].0 == key;
        members.update(i, (key, value))
    } else {
        members.push((key, value))
    }
}

/// A value, with the whitespace before and after it, starting at position `p`.
pub open spec fn spec_value(s: Seq<char>, p: int) -> Result<(JsonSpec, int), ParseFailure>
    decreases s.len() - p, 2nat,
{
    let q = skip_ws(s, p);
    proof {
        lemma_skip_ws(s, p);
    }
    let r = if q < 0 || q >= s.len() {
        Err(ParseFailure::Error(ParseError::UnexpectedJsonEnd))
    } else {
        let c = s[q];
        if c == '"' {
            match spec_string(s, q) {
                Ok((str, e)) => Ok((JsonSpec::Str(str), e)),
                Err(f) => Err(f),
            }
        } else if c == '-' || is_ascii_digit(c) {
            match spec_number(s, q) {
                Ok((n, e)) => Ok((JsonSpec::Number(n), e)),
                Err(f) => Err(f),
            }
        } else if c == '{' {
            spec_object(s, q)
        } else if c == '[' {
            spec_array(s, q)
        } else if c == 't' && starts_with_at(s, q, seq!['t', 'r', 'u', 'e']) {
            Ok((JsonSpec::Boolean(true), q + 4))
        } else if c == 'f' && starts_with_at(s, q, seq!['f', 'a', 'l', 's', 'e']) {
            Ok((JsonSpec::Boolean(false), q + 5))
        } else if c == 'n' && starts_with_at(s, q, seq!['n', 'u', 'l', 'l']) {
            Ok((JsonSpec::Null, q + 4))
        } else {
            Err(ParseFailure::Error(ParseError::UnexpectedSymbol(c)))
        }
    };
    match r {
        Ok((v, e)) => Ok((v, skip_ws(s, e))),
        Err(f) => Err(f),
    }
}

/// An object whose opening brace is at position `p`.
pub open spec fn spec_object(s: Seq<char>, p: int) -> Result<(JsonSpec, int), ParseFailure>
    decreases s.len() - p, 1nat,
{
    if 0 <= p < s.len() {
        let q = skip_ws(s, p + 1);
        proof {
            lemma_skip_ws(s, p + 1);
        }
        spec_members(s, q, true, Seq::empty())
    } else {
        Err(ParseFailure::Error(ParseError::UnexpectedJsonEnd))
    }
}

/// The rest of an object from position `p` on, after the members `acc` have been read.
pub open spec fn spec_members(
    s: Seq<char>,
    p: int,
    first: bool,
    acc: Seq<(Seq<char>, JsonSpec)>,
) -> Result<(JsonSpec, int), ParseFailure>
    decreases s.len() - p, 3nat,
{
    if p < 0 || p >= s.len() {
        Err(ParseFailure::Error(ParseError::UnexpectedJsonEnd))
    } else if s[p] == '"' && first {
        match spec_member(s, p, acc) {
            Ok((members, e)) => if e <= p || e > s.len() {
                Err(ParseFailure::Error(ParseError::UnexpectedJsonEnd))
            } else {
                spec_members(s, e, false, members)
            },
            Err(f) => Err(f),
        }
    } else if s[p] == ',' && !first {
        let q = skip_ws(s, p + 1);
        proof {
            lemma_skip_ws(s, p + 1);
        }
        match spec_member(s, q, acc) {
            Ok((members, e)) => if e <= p || e > s.len() {
                Err(ParseFailure::Error(ParseError::UnexpectedJsonEnd))
            } else {
                spec_members(s, e, false, members)
            },
            Err(f) => Err(f),
        }
    } else if s[p] == '}' {
        Ok((JsonSpec::Object(acc), p + 1))
    } else {
        Err(ParseFailure::Error(ParseError::UnexpectedSymbol(s[p])))
    }
}

/// A member `"key": value` starting at position `p`, added to `acc`.
pub open spec fn spec_member(s: Seq<char>, p: int, acc: Seq<(Seq<char>, JsonSpec)>) -> Result<
    (Seq<(Seq<char>, JsonSpec)>, int),
    ParseFailure,
>
    decreases s.len() - p, 2nat,
{
    match spec_string(s, p) {
        Ok((key, e)) => {
            let q = skip_ws(s, e);
            proof {
                lemma_skip_ws(s, e);
            }
            if q < 0 || q >= s.len() {
                Err(ParseFailure::Error(ParseError::UnexpectedJsonEnd))
            } else if s[q] != ':' {
                Err(ParseFailure::Error(ParseError::UnexpectedSymbol(s[q])))
            } else if q < p {
                Err(ParseFailure::Error(ParseError::UnexpectedJsonEnd))
            } else {
                match spec_value(s, q + 1) {
                    Ok((v, r)) => Ok((spec_insert_member(acc, key, v), r)),
                    Err(f) => Err(f),
                }
            }
        },
        Err(f) => Err(f),
    }
}

/// An array whose opening bracket is at position `p`.
pub open spec fn spec_array(s: Seq<char>, p: int) -> Result<(JsonSpec, int), ParseFailure>
    decreases s.len() - p, 1nat,
{
    if 0 <= p < s.len() {
        let q = skip_ws(s, p + 1);
        proof {
            lemma_skip_ws(s, p + 1);
        }
        spec_items(s, q, true, Seq::empty())
    } else {
        Err(ParseFailure::Error(ParseError::UnexpectedJsonEnd))
    }
}

/// The rest of an array from position `p` on, after the elements `acc` have been read.
pub open spec fn spec_items(s: Seq<char>, p: int, first: bool, acc: Seq<JsonSpec>) -> Result<
    (JsonSpec, int),
    ParseFailure,
>
    decreases s.len() - p, 3nat,
{
    if p < 0 || p >= s.len() {
        Err(ParseFailure::Error(ParseError::UnexpectedJsonEnd))
    } else if s[p] == ']' {
        Ok((JsonSpec::Array(acc), p + 1))
    } else if first {
        match spec_value(s, p) {
            Ok((v, e)) => if e <= p || e > s.len() {
                Err(ParseFailure::Error(ParseError::UnexpectedJsonEnd))
            } else {
                spec_items(s, e, false, acc.push(v))
            },
            Err(f) => Err(f),
        }
    } else if s[p] == ',' {
        match spec_value(s, p + 1) {
            Ok((v, e)) => if e <= p || e > s.len() {
                Err(ParseFailure::Error(ParseError::UnexpectedJsonEnd))
            } else {
                spec_items(s, e, false, acc.push(v))
            },
            Err(f) => Err(f),
        }
    } else {
        Err(ParseFailure::Error(ParseError::UnexpectedSymbol(s[p])))
    }
}

/// A whole text: one value, with nothing but whitespace around it.
pub open spec fn spec_parse_json(s: Seq<char>) -> Result<JsonSpec, ParseFailure> {
    match spec_value(s, 0) {
        Ok((v, e)) => if e < s.len() {
            Err(ParseFailure::Error(ParseError::UnexpectedSymbol(s[e])))
        } else {
            Ok(v)
        },
        Err(f) => Err(f),
    }
}

pub proof fn lemma_skip_ws(s: Seq<char>, p: int)
    ensures
        p <= skip_ws(s, p),
        0 <= p <= s.len() ==> skip_ws(s, p) <= s.len(),
        forall|i: int| p <= i < skip_ws(s, p) ==> unicode_white_space(#[trigger] s[i]),
        0 <= skip_ws(s, p) < s.len() ==> !unicode_white_space(s[skip_ws(s, p)]),
        p < 0 ==> skip_ws(s, p) == p,
    decreases s.len() - p,
{
    if 0 <= p < s.len() && unicode_white_space(s[p]) {
        lemma_skip_ws(s, p + 1);
    }
}

/// Whether a parse outcome agrees with the model: a value and end position where the model
/// has them, and the same failure where it fails.
pub open spec fn value_outcome(
    r: Result<JsonValue, ParseFailure>,
    start: int,
    end: int,
    expected: Result<(JsonSpec, int), ParseFailure>,
) -> bool {
    match expected {
        Ok((v, e)) => r is Ok && r->Ok_0@ == v && end == e && start < e,
        Err(f) => r == Err::<JsonValue, ParseFailure>(f),
    }
}

/// Whether `c` has the Unicode `White_Space` property, as [`unicode_white_space`] lists its
/// characters (the property that `char::is_whitespace` tests).
fn char_is_whitespace(c: char) -> (r: bool)
    ensures
        r == unicode_white_space(c),
{
    let u = c as u32;
    (0x9 <= u && u <= 0xd) || u == 0x20 || u == 0x85 || u == 0xa0 || u == 0x1680 || (0x2000 <= u
        && u <= 0x200a) || u == 0x2028 || u == 0x2029 || u == 0x202f || u == 0x205f || u == 0x3000
}

/// `String::push`: appends `c` to the end of `s`.
#[verifier::external_body]
pub(crate) fn push_char(s: &mut String, c: char)
    ensures
        final(s)@ == old(s)@.push(c),
{
    s.push(c)
}

/// The characters of a text, in order.
pub fn chars_of(text: &str) -> (v: Vec<char>)
    ensures
        v@ == text@,
{
    let n = text.unicode_len();
    let mut v: Vec<char> = Vec::new();
    let mut i: usize = 0;
    while i < n
        invariant
            n == text@.len(),
            i <= n,
            v@ == text@.subrange(0, i as int),
        decreases n - i,
    {
        v.push(text.get_char(i));
        i += 1;
    }
    v
}

/// Moves the position past the whitespace characters that follow it.
pub fn trim_whitespaces(string: &[char], pos: &mut usize)
    requires
        *old(pos) <= string@.len(),
    ensures
        *final(pos) == skip_ws(string@, *old(pos) as int),
        *final(pos) <= string@.len(),
{
    proof {
        lemma_skip_ws(string@, *pos as int);
    }
    while *pos < string.len() && char_is_whitespace(string[*pos])
        invariant
            *pos <= string@.len(),
            skip_ws(string@, *pos as int) == skip_ws(string@, *old(pos) as int),
        decreases string@.len() - *pos,
    {
        *pos = *pos + 1;
    }
}

/// Moves the position `by` characters forward.
pub fn advance_by(string: &[char], pos: &mut usize, by: usize)
    requires
        *old(pos) + by <= string.len(),
    ensures
        *final(pos) == *old(pos) + by,
{
    *pos = *pos + by;
}

fn is_digit_char(c: char) -> (r: bool)
    ensures
        r == is_ascii_digit(c),
{
    '0' <= c && c <= '9'
}

fn digit_value(c: char) -> (d: u8)
    requires
        is_ascii_digit(c),
    ensures
        d == digit_of(c),
        d < 10,
{
    (c as u32 - '0' as u32) as u8
}

/// Reads a string that starts at the position with its opening quote, and moves the
/// position past its closing quote.
fn parse_json_string(string: &Vec<char>, pos: &mut usize) -> (r: Result<String, ParseFailure>)
    requires
        *old(pos) <= string@.len(),
    ensures
        match spec_string(string@, *old(pos) as int) {
            Ok((text, e)) => r is Ok && r->Ok_0@ == text && *final(pos) == e && *old(pos) + 2
                <= e <= string@.len(),
            Err(f) => r == Err::<String, ParseFailure>(f) && *final(pos) == *old(pos),
        },
        *final(pos) <= string@.len(),
{
    let start = *pos;
    if start >= string.len() {
        return Err(ParseFailure::Error(ParseError::UnexpectedJsonEnd));
    }
    if string[start] != '"' {
        return Err(ParseFailure::Error(ParseError::UnexpectedSymbol(string[start])));
    }
    let mut container = String::new();
    let mut i: usize = start + 1;
    while i < string.len()
        invariant
            start < i <= string@.len(),
            start < string@.len(),
            *pos == start,
            start == *old(pos),
            string@[start as int] == '"',
            spec_string(string@, start as int) == spec_string_body(string@, i as int, container@),
        decreases string@.len() - i,
    {
        let c = string[i];
        if c == '"' {
            assert(spec_string_body(string@, i as int, container@) == Ok::<(Seq<char>, int), ParseFailure>((container@, i + 1)));
            advance_by(string, pos, i + 1 - start);
            return Ok(container);
        } else if c == '\\' {
            if i + 1 >= string.len() {
                assert(spec_string_body(string@, i as int, container@) == Err::<(Seq<char>, int), ParseFailure>(ParseFailure::Error(ParseError::UnexpectedStringEnd)));
                return Err(ParseFailure::Error(ParseError::UnexpectedStringEnd));
            }
            let escaped = string[i + 1];
            let decoded = if escaped == '"' || escaped == '\\' || escaped == '/' || escaped == '\n'
                || escaped == '\r' || escaped == '\t' {
                escaped
            } else if escaped == 'n' {
                '\n'
            } else if escaped == 'r' {
                '\r'
            } else if escaped == 't' {
                '\t'
            } else {
                return Err(ParseFailure::Unsupported);
            };
            push_char(&mut container, decoded);
            i = i + 2;
        } else {
            push_char(&mut container, c);
            i = i + 1;
        }
    }
    Err(ParseFailure::Error(ParseError::UnexpectedStringEnd))
}

/// Reads a number at the position and moves the position past it. A `-` followed by a
/// character other than a digit is left out.
fn parse_json_number(string: &Vec<char>, pos: &mut usize) -> (r: Result<JsonNumber, ParseFailure>)
    requires
        *old(pos) <= string@.len(),
        spec_number(string@, *old(pos) as int) != Err::<(NumberView, int), ParseFailure>(
            ParseFailure::Unsupported,
        ),
    ensures
        match spec_number(string@, *old(pos) as int) {
            Ok((n, e)) => r is Ok && r->Ok_0@ == n && *final(pos) == e && *old(pos) < e <= string@.len(),
            Err(f) => r == Err::<JsonNumber, ParseFailure>(f),
        },
        *final(pos) <= string@.len(),
{
    let ghost s = string@;
    let start = *pos;
    let negative = start < string.len() && string[start] == '-';
    if negative {
        advance_by(string, pos, 1);
    }
    let q = *pos;
    if q >= string.len() {
        return Err(ParseFailure::Error(ParseError::UnexpectedNumberEnd));
    }
    let first = string[q];
    assert(is_ascii_digit(first));
    let mut int_digits: Vec<u8> = Vec::new();
    int_digits.push(digit_value(first));
    let mut i: usize = q + 1;
    assert(int_digits@ =~= digit_values(s, q as int, i as int));
    if first != '0' {
        while i < string.len() && is_digit_char(string[i])
            invariant
                q < i <= s.len(),
                s == string@,
                int_digits@ == digit_values(s, q as int, i as int),
                skip_digits(s, i as int) == skip_digits(s, q + 1),
                forall|k: int| 0 <= k < int_digits@.len() ==> #[trigger] int_digits@[k] < 10,
            decreases s.len() - i,
        {
            int_digits.push(digit_value(string[i]));
            i += 1;
            assert(int_digits@ =~= digit_values(s, q as int, i as int));
        }
    }
    let mut frac_digits: Vec<u8> = Vec::new();
    if i < string.len() && string[i] == '.' {
        if i + 1 >= string.len() {
            return Err(ParseFailure::Error(ParseError::UnexpectedJsonEnd));
        }
        if !is_digit_char(string[i + 1]) {
            return Err(ParseFailure::Error(ParseError::UnexpectedSymbol(string[i + 1])));
        }
        let f = i + 1;
        let mut j: usize = f;
        assert(frac_digits@ =~= digit_values(s, f as int, j as int));
        while j < string.len() && is_digit_char(string[j])
            invariant
                f <= j <= s.len(),
                s == string@,
                frac_digits@ == digit_values(s, f as int, j as int),
                skip_digits(s, j as int) == skip_digits(s, f as int),
                forall|k: int| 0 <= k < frac_digits@.len() ==> #[trigger] frac_digits@[k] < 10,
            decreases s.len() - j,
        {
            frac_digits.push(digit_value(string[j]));
            j += 1;
            assert(frac_digits@ =~= digit_values(s, f as int, j as int));
        }
        i = j;
    }
    *pos = i;
    Ok(JsonNumber::from_parts(negative, int_digits, frac_digits))
}

/// Whether no two members share a key.
pub open spec fn unique_keys(members: Seq<(Seq<char>, JsonSpec)>) -> bool {
    forall|i: int, j: int|
        0 <= i < j < members.len() ==> #[trigger] members[i].0 != #[trigger] members[j].0
}

/// Whether every object in the value, at any depth, has distinct keys.
pub open spec fn distinct_keys(v: JsonSpec) -> bool
    decreases v,
{
    match v {
        JsonSpec::Object(m) => unique_keys(m) && forall|i: int|
            0 <= i < m.len() ==> distinct_keys(#[trigger] m[i].1),
        JsonSpec::Array(a) => forall|i: int| 0 <= i < a.len() ==> distinct_keys(#[trigger] a[i]),
        _ => true,
    }
}

/// Whether every member value has distinct keys at any depth.
pub open spec fn member_values_distinct(members: Seq<(Seq<char>, JsonSpec)>) -> bool {
    forall|i: int| 0 <= i < members.len() ==> distinct_keys(#[trigger] members[i].1)
}

proof fn lemma_insert_member_distinct(members: Seq<(Seq<char>, JsonSpec)>, key: Seq<char>, value: JsonSpec)
    requires
        member_values_distinct(members),
        distinct_keys(value),
    ensures
        member_values_distinct(spec_insert_member(members, key, value)),
{
    let after = spec_insert_member(members, key, value);
    if exists|i: int| 0 <= i < members.len() && #[trigger] members[i].0 == key {
        assert forall|j: int| 0 <= j < after.len() implies distinct_keys(#[trigger] after[j].1) by {
            if after[j].1 != value {
                assert(after[j] == members[j]);
            }
        }
    } else {
        assert forall|j: int| 0 <= j < after.len() implies distinct_keys(#[trigger] after[j].1) by {
            if j < members.len() {
                assert(after[j] == members[j]);
            }
        }
    }
}

pub proof fn lemma_insert_member_unique(
    members: Seq<(Seq<char>, JsonSpec)>,
    key: Seq<char>,
    value: JsonSpec,
)
    requires
        unique_keys(members),
    ensures
        unique_keys(spec_insert_member(members, key, value)),
{
}

/// Sets `key` to `value` in the members of an object, as `spec_insert_member` says.
fn insert_member(obj: &mut Vec<(String, JsonValue)>, key: String, value: JsonValue)
    requires
        unique_keys(members_view(old(obj)@)),
    ensures
        members_view(final(obj)@) == spec_insert_member(members_view(old(obj)@), key@, value@),
        unique_keys(members_view(final(obj)@)),
        member_values_distinct(members_view(old(obj)@)) && distinct_keys(value@)
            ==> member_values_distinct(members_view(final(obj)@)),
{
    proof {
        if member_values_distinct(members_view(obj@)) && distinct_keys(value@) {
            lemma_insert_member_distinct(members_view(obj@), key@, value@);
        }
    }
    let ghost before = members_view(obj@);
    proof {
        lemma_members_view(obj@);
        lemma_insert_member_unique(before, key@, value@);
    }
    let mut i: usize = 0;
    while i < obj.len()
        invariant
            i <= obj@.len(),
            before == members_view(obj@),
            before.len() == obj@.len(),
            forall|j: int| 0 <= j < i ==> #[trigger] before[j].0 != key@,
            unique_keys(before),
            before == members_view(old(obj)@),
            unique_keys(spec_insert_member(before, key@, value@)),
            forall|j: int| 0 <= j < obj@.len() ==> #[trigger] before[j] == (obj@[j].0@, obj@[j].1@),
        decreases obj@.len() - i,
    {
        if obj[i].0 == key {
            assert(before[i as int].0 == key@);
            let ghost k = choose|k: int| 0 <= k < before.len() && #[trigger] before[k].0 == key@;
            assert(k == i) by {
                if k != i {
                    assert(unique_keys(before));
                    if k < i {
                        assert(before[k].0 != before[i as int].0);
                    } else {
                        assert(before[i as int].0 != before[k].0);
                    }
                }
            }
            assert(spec_insert_member(before, key@, value@) == before.update(i as int, (key@, value@)));
            obj.set(i, (key, value));
            proof {
                lemma_members_view(obj@);
                assert(members_view(obj@) =~= before.update(i as int, (key@, value@)));
            }
            return;
        }
        i += 1;
    }
    assert(spec_insert_member(before, key@, value@) == before.push((key@, value@)));
    obj.push((key, value));
    proof {
        lemma_members_view(obj@);
        assert(members_view(obj@) =~= before.push((key@, value@)));
    }
}

/// Reads a value, with the whitespace around it, and moves the position past it.
fn parse_json_value(string: &Vec<char>, pos: &mut usize) -> (r: Result<JsonValue, ParseFailure>)
    requires
        *old(pos) <= string@.len(),
    ensures
        value_outcome(r, *old(pos) as int, *final(pos) as int, spec_value(string@, *old(pos) as int)),
        r matches Ok(v) ==> distinct_keys(v@),
        *final(pos) <= string@.len(),
    decreases string@.len() - *old(pos), 2nat,
{
    let ghost s = string@;
    let ghost p = *pos as int;
    trim_whitespaces(string, pos);
    proof {
        lemma_skip_ws(s, p);
    }
    let q = *pos;
    if q >= string.len() {
        return Err(ParseFailure::Error(ParseError::UnexpectedJsonEnd));
    }
    let c = string[q];
    let ret: JsonValue;
    if c == '"' {
        match parse_json_string(string, pos) {
            Ok(text) => {
                ret = JsonValue::String(text);
            },
            Err(f) => {
                return Err(f);
            },
        }
    } else if c == '-' || is_digit_char(c) {
        if c == '-' && q + 1 < string.len() && !is_digit_char(string[q + 1]) {
            return Err(ParseFailure::Unsupported);
        }
        match parse_json_number(string, pos) {
            Ok(n) => {
                ret = JsonValue::Number(n);
            },
            Err(f) => {
                return Err(f);
            },
        }
    } else if c == '{' {
        match parse_json_object(string, pos) {
            Ok(v) => {
                ret = v;
            },
            Err(f) => {
                return Err(f);
            },
        }
    } else if c == '[' {
        match parse_json_array(string, pos) {
            Ok(v) => {
                ret = v;
            },
            Err(f) => {
                return Err(f);
            },
        }
    } else if c == 't' && 4 <= string.len() - q && string[q + 1] == 'r' && string[q + 2] == 'u'
        && string[q + 3] == 'e' {
        assert(s.subrange(q as int, q + 4) =~= seq!['t', 'r', 'u', 'e']);
        advance_by(string, pos, 4);
        ret = JsonValue::Boolean(true);
    } else if c == 'f' && 5 <= string.len() - q && string[q + 1] == 'a' && string[q + 2] == 'l'
        && string[q + 3] == 's' && string[q + 4] == 'e' {
        assert(s.subrange(q as int, q + 5) =~= seq!['f', 'a', 'l', 's', 'e']);
        advance_by(string, pos, 5);
        ret = JsonValue::Boolean(false);
    } else if c == 'n' && 4 <= string.len() - q && string[q + 1] == 'u' && string[q + 2] == 'l'
        && string[q + 3] == 'l' {
        assert(s.subrange(q as int, q + 4) =~= seq!['n', 'u', 'l', 'l']);
        advance_by(string, pos, 4);
        ret = JsonValue::Null;
    } else {
        proof {
            if c == 't' && starts_with_at(s, q as int, seq!['t', 'r', 'u', 'e']) {
                assert(s.subrange(q as int, q + 4)[1] == 'r');
                assert(s.subrange(q as int, q + 4)[2] == 'u');
                assert(s.subrange(q as int, q + 4)[3] == 'e');
            }
            if c == 'f' && starts_with_at(s, q as int, seq!['f', 'a', 'l', 's', 'e']) {
                assert(s.subrange(q as int, q + 5)[1] == 'a');
                assert(s.subrange(q as int, q + 5)[2] == 'l');
                assert(s.subrange(q as int, q + 5)[3] == 's');
                assert(s.subrange(q as int, q + 5)[4] == 'e');
            }
            if c == 'n' && starts_with_at(s, q as int, seq!['n', 'u', 'l', 'l']) {
                assert(s.subrange(q as int, q + 4)[1] == 'u');
                assert(s.subrange(q as int, q + 4)[2] == 'l');
                assert(s.subrange(q as int, q + 4)[3] == 'l');
            }
        }
        return Err(ParseFailure::Error(ParseError::UnexpectedSymbol(c)));
    }
    let e = *pos;
    trim_whitespaces(string, pos);
    proof {
        lemma_skip_ws(s, e as int);
    }
    Ok(ret)
}

/// Reads an object whose opening brace is at the position, and moves the position past its
/// closing brace.
fn parse_json_object(string: &Vec<char>, pos: &mut usize) -> (r: Result<JsonValue, ParseFailure>)
    requires
        *old(pos) < string@.len(),
    ensures
        value_outcome(r, *old(pos) as int, *final(pos) as int, spec_object(string@, *old(pos) as int)),
        r matches Ok(v) ==> distinct_keys(v@),
        *final(pos) <= string@.len(),
    decreases string@.len() - *old(pos), 1nat,
{
    let ghost s = string@;
    let start = *pos;
    let mut obj: Vec<(String, JsonValue)> = Vec::new();
    advance_by(string, pos, 1);
    trim_whitespaces(string, pos);
    proof {
        lemma_skip_ws(s, start + 1);
        assert(members_view(obj@) =~= Seq::<(Seq<char>, JsonSpec)>::empty());
    }
    let mut first_key = true;
    loop
        invariant
            s == string@,
            start < string@.len(),
            start == *old(pos),
            start < *pos <= string@.len(),
            spec_members(s, *pos as int, first_key, members_view(obj@)) == spec_object(s, start as int),
            unique_keys(members_view(obj@)),
            member_values_distinct(members_view(obj@)),
        decreases string@.len() - *pos,
    {
        let p = *pos;
        if p >= string.len() {
            return Err(ParseFailure::Error(ParseError::UnexpectedJsonEnd));
        }
        let c = string[p];
        if c == '"' && first_key {
            first_key = false;
            match parse_json_key_value_pair(string, pos, &mut obj) {
                Ok(()) => {},
                Err(f) => {
                    return Err(f);
                },
            }
        } else if c == ',' && !first_key {
            advance_by(string, pos, 1);
            trim_whitespaces(string, pos);
            proof {
                lemma_skip_ws(s, p + 1);
            }
            match parse_json_key_value_pair(string, pos, &mut obj) {
                Ok(()) => {},
                Err(f) => {
                    return Err(f);
                },
            }
        } else if c == '}' {
            advance_by(string, pos, 1);
            proof {
                lemma_members_view(obj@);
                let m = members_view(obj@);
                assert(JsonValue::Object(obj)@ == JsonSpec::Object(m));
            }
            return Ok(JsonValue::Object(obj));
        } else {
            return Err(ParseFailure::Error(ParseError::UnexpectedSymbol(c)));
        }
    }
}

/// Reads a member `"key": value` at the position into `obj`, and moves the position past it.
fn parse_json_key_value_pair(
    string: &Vec<char>,
    pos: &mut usize,
    obj: &mut Vec<(String, JsonValue)>,
) -> (r: Result<(), ParseFailure>)
    requires
        *old(pos) <= string@.len(),
        unique_keys(members_view(old(obj)@)),
        member_values_distinct(members_view(old(obj)@)),
    ensures
        member_values_distinct(members_view(final(obj)@)),
        match spec_member(string@, *old(pos) as int, members_view(old(obj)@)) {
            Ok((members, e)) => r is Ok && members_view(final(obj)@) == members && *final(pos) == e
                && *old(pos) < e <= string@.len(),
            Err(f) => r == Err::<(), ParseFailure>(f) && final(obj)@ == old(obj)@,
        },
        unique_keys(members_view(final(obj)@)),
        *final(pos) <= string@.len(),
    decreases string@.len() - *old(pos), 2nat,
{
    let ghost s = string@;
    let start = *pos;
    let key = match parse_json_string(string, pos) {
        Ok(k) => k,
        Err(f) => {
            return Err(f);
        },
    };
    let e = *pos;
    trim_whitespaces(string, pos);
    proof {
        lemma_skip_ws(s, e as int);
    }
    let q = *pos;
    if q >= string.len() {
        return Err(ParseFailure::Error(ParseError::UnexpectedJsonEnd));
    }
    if string[q] != ':' {
        return Err(ParseFailure::Error(ParseError::UnexpectedSymbol(string[q])));
    }
    advance_by(string, pos, 1);
    let val = match parse_json_value(string, pos) {
        Ok(v) => v,
        Err(f) => {
            return Err(f);
        },
    };
    insert_member(obj, key, val);
    Ok(())
}

/// Reads an array whose opening bracket is at the position, and moves the position past its
/// closing bracket.
fn parse_json_array(string: &Vec<char>, pos: &mut usize) -> (r: Result<JsonValue, ParseFailure>)
    requires
        *old(pos) < string@.len(),
    ensures
        value_outcome(r, *old(pos) as int, *final(pos) as int, spec_array(string@, *old(pos) as int)),
        r matches Ok(v) ==> distinct_keys(v@),
        *final(pos) <= string@.len(),
    decreases string@.len() - *old(pos), 1nat,
{
    let ghost s = string@;
    let start = *pos;
    let mut arr: Vec<JsonValue> = Vec::new();
    advance_by(string, pos, 1);
    trim_whitespaces(string, pos);
    proof {
        lemma_skip_ws(s, start + 1);
        assert(values_view(arr@) =~= Seq::<JsonSpec>::empty());
    }
    let mut first_element = true;
    loop
        invariant
            s == string@,
            start < string@.len(),
            start == *old(pos),
            start < *pos <= string@.len(),
            spec_items(s, *pos as int, first_element, values_view(arr@)) == spec_array(s, start as int),
            forall|k: int| 0 <= k < arr@.len() ==> distinct_keys(#[trigger] arr@[k]@),
        decreases string@.len() - *pos,
    {
        let p = *pos;
        if p >= string.len() {
            return Err(ParseFailure::Error(ParseError::UnexpectedJsonEnd));
        }
        let c = string[p];
        if c == ']' {
            advance_by(string, pos, 1);
            proof {
                lemma_values_view(arr@);
                let a = values_view(arr@);
                assert forall|k: int| 0 <= k < a.len() implies distinct_keys(#[trigger] a[k]) by {
                    assert(a[k] == arr@[k]@);
                }
                assert(JsonValue::Array(arr)@ == JsonSpec::Array(a));
            }
            return Ok(JsonValue::Array(arr));
        } else if first_element {
            first_element = false;
            match parse_json_value(string, pos) {
                Ok(v) => {
                    proof {
                        assert(arr@.push(v).drop_last() =~= arr@);
                    }
                    arr.push(v);
                },
                Err(f) => {
                    return Err(f);
                },
            }
        } else if c == ',' {
            advance_by(string, pos, 1);
            match parse_json_value(string, pos) {
                Ok(v) => {
                    proof {
                        assert(arr@.push(v).drop_last() =~= arr@);
                    }
                    arr.push(v);
                },
                Err(f) => {
                    return Err(f);
                },
            }
        } else {
            return Err(ParseFailure::Error(ParseError::UnexpectedSymbol(c)));
        }
    }
}

/// Parses a whole text as one JSON value. Every outcome of the model comes out as it is,
/// including `ParseFailure::Unsupported` for the texts that this parser does not handle.
pub fn parse_json_checked(string: &str) -> (r: Result<JsonValue, ParseFailure>)
    ensures
        match spec_parse_json(string@) {
            Ok(v) => r is Ok && r->Ok_0@ == v,
            Err(f) => r == Err::<JsonValue, ParseFailure>(f),
        },
        r matches Ok(v) ==> distinct_keys(v@),
{
    let chars = chars_of(string);
    let mut pos: usize = 0;
    let v = match parse_json_value(&chars, &mut pos) {
        Ok(v) => v,
        Err(f) => {
            return Err(f);
        },
    };
    if pos < chars.len() {
        Err(ParseFailure::Error(ParseError::UnexpectedSymbol(chars[pos])))
    } else {
        Ok(v)
    }
}

/// Parses a whole text as one JSON value: the value, with nothing but whitespace around it,
/// or the error that the model gives. The texts that this parser does not handle (see
/// [`ParseFailure::Unsupported`]) are left out.
pub fn parse_json(string: &str) -> (r: Result<JsonValue, ParseError>)
    requires
        spec_parse_json(string@) != Err::<JsonSpec, ParseFailure>(ParseFailure::Unsupported),
    ensures
        match spec_parse_json(string@) {
            Ok(v) => r is Ok && r->Ok_0@ == v,
            Err(ParseFailure::Error(e)) => r == Err::<JsonValue, ParseError>(e),
            Err(ParseFailure::Unsupported) => false,
        },
        r matches Ok(v) ==> distinct_keys(v@),
{
    match parse_json_checked(string) {
        Ok(v) => Ok(v),
        Err(ParseFailure::Error(e)) => Err(e),
        Err(ParseFailure::Unsupported) => {
            proof {
                assert(false);
            }
            Err(ParseError::UnexpectedJsonEnd)
        },
    }
}

} // verus!
