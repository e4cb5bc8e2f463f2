use vstd::prelude::*;

use crate::json::{JsonSpec, ParseFailure};
use crate::parse::{
    digit_values, escaped_char, is_ascii_digit, lemma_skip_ws, skip_digits, skip_ws, spec_array,
    spec_items, spec_member, spec_members, spec_number, spec_object, spec_parse_json,
    spec_string, spec_string_body, spec_value, starts_with_at, unicode_white_space,
};

verus! {

/// Whether every character of `w` is whitespace.
pub open spec fn all_white(w: Seq<char>) -> bool {
    forall|i: int| 0 <= i < w.len() ==> unicode_white_space(#[trigger] w[i])
}

/// A parse outcome with its end position moved by `k`.
pub open spec fn shifted<T>(r: Result<(T, int), ParseFailure>, k: int) -> Result<(T, int), ParseFailure> {
    match r {
        Ok((v, e)) => Ok((v, e + k)),
        Err(f) => Err(f),
    }
}

/// Whether a successful outcome ends after position `p`.
pub open spec fn ends_after<T>(r: Result<(T, int), ParseFailure>, p: int) -> bool {
    r matches Ok((_, e)) ==> p < e
}

proof fn lemma_prefix_char(pre: Seq<char>, s: Seq<char>, i: int)
    requires
        0 <= i < s.len(),
    ensures
        (pre + s)[i + pre.len()] == s[i],
{
}

proof fn lemma_shift_skip_ws(pre: Seq<char>, s: Seq<char>, p: int)
    requires
        0 <= p,
    ensures
        skip_ws(pre + s, p + pre.len()) == skip_ws(s, p) + pre.len(),
    decreases s.len() - p,
{
    if p < s.len() {
        lemma_prefix_char(pre, s, p);
        if unicode_white_space(s[p]) {
            lemma_shift_skip_ws(pre, s, p + 1);
        }
    }
}

proof fn lemma_shift_skip_digits(pre: Seq<char>, s: Seq<char>, p: int)
    requires
        0 <= p,
    ensures
        skip_digits(pre + s, p + pre.len()) == skip_digits(s, p) + pre.len(),
    decreases s.len() - p,
{
    if p < s.len() {
        lemma_prefix_char(pre, s, p);
        if is_ascii_digit(s[p]) {
            lemma_shift_skip_digits(pre, s, p + 1);
        }
    }
}

proof fn lemma_skip_digits_bounds(s: Seq<char>, p: int)
    requires
        0 <= p <= s.len(),
    ensures
        p <= skip_digits(s, p) <= s.len(),
    decreases s.len() - p,
{
    if p < s.len() && is_ascii_digit(s[p]) {
        lemma_skip_digits_bounds(s, p + 1);
    }
}

proof fn lemma_shift_digit_values(pre: Seq<char>, s: Seq<char>, a: int, b: int)
    requires
        0 <= a <= b <= s.len(),
    ensures
        digit_values(pre + s, a + pre.len(), b + pre.len()) == digit_values(s, a, b),
{
    assert((pre + s).subrange(a + pre.len(), b + pre.len()) =~= s.subrange(a, b));
}

proof fn lemma_shift_starts_with(pre: Seq<char>, s: Seq<char>, q: int, word: Seq<char>)
    requires
        0 <= q,
    ensures
        starts_with_at(pre + s, q + pre.len(), word) == starts_with_at(s, q, word),
{
    if q + word.len() <= s.len() {
        assert((pre + s).subrange(q + pre.len(), q + pre.len() + word.len()) =~= s.subrange(
            q,
            q + word.len(),
        ));
    }
}

proof fn lemma_shift_string_body(pre: Seq<char>, s: Seq<char>, p: int, acc: Seq<char>)
    requires
        0 <= p,
    ensures
        spec_string_body(pre + s, p + pre.len(), acc) == shifted(spec_string_body(s, p, acc), pre.len() as int),
        ends_after(spec_string_body(s, p, acc), p),
    decreases s.len() - p,
{
    if p < s.len() {
        lemma_prefix_char(pre, s, p);
        if s[p] == '\\' {
            if p + 1 < s.len() {
                lemma_prefix_char(pre, s, p + 1);
                match escaped_char(s[p + 1]) {
                    Some(c) => {
                        lemma_shift_string_body(pre, s, p + 2, acc.push(c));
                    },
                    None => {},
                }
            }
        } else if s[p] != '"' {
            lemma_shift_string_body(pre, s, p + 1, acc.push(s[p]));
        }
    }
}

proof fn lemma_shift_string(pre: Seq<char>, s: Seq<char>, p: int)
    requires
        0 <= p,
    ensures
        spec_string(pre + s, p + pre.len()) == shifted(spec_string(s, p), pre.len() as int),
        ends_after(spec_string(s, p), p),
{
    if p < s.len() {
        lemma_prefix_char(pre, s, p);
        lemma_shift_string_body(pre, s, p + 1, Seq::empty());
    }
}

proof fn lemma_shift_number(pre: Seq<char>, s: Seq<char>, p: int)
    requires
        0 <= p,
    ensures
        spec_number(pre + s, p + pre.len()) == shifted(spec_number(s, p), pre.len() as int),
        ends_after(spec_number(s, p), p),
{
    let k = pre.len() as int;
    if p < s.len() {
        lemma_prefix_char(pre, s, p);
    }
    let q = if p < s.len() && s[p] == '-' {
        p + 1
    } else {
        p
    };
    if q < s.len() {
        lemma_prefix_char(pre, s, q);
        if is_ascii_digit(s[q]) {
            lemma_shift_skip_digits(pre, s, q + 1);
            lemma_skip_digits_bounds(s, q + 1);
            let e = if s[q] == '0' {
                q + 1
            } else {
                skip_digits(s, q + 1)
            };
            lemma_shift_digit_values(pre, s, q, e);
            if e < s.len() {
                lemma_prefix_char(pre, s, e);
                if s[e] == '.' && e + 1 < s.len() {
                    lemma_prefix_char(pre, s, e + 1);
                    lemma_shift_skip_digits(pre, s, e + 1);
                    lemma_skip_digits_bounds(s, e + 1);
                    lemma_shift_digit_values(pre, s, e + 1, skip_digits(s, e + 1));
                }
            }
        }
    }
}

proof fn lemma_shift_value(pre: Seq<char>, s: Seq<char>, p: int)
    requires
        0 <= p,
    ensures
        spec_value(pre + s, p + pre.len()) == shifted(spec_value(s, p), pre.len() as int),
        ends_after(spec_value(s, p), p),
    decreases s.len() - p, 2nat,
{
    let k = pre.len() as int;
    let q = skip_ws(s, p);
    lemma_skip_ws(s, p);
    lemma_shift_skip_ws(pre, s, p);
    if q < s.len() {
        lemma_prefix_char(pre, s, q);
        let c = s[q];
        let raw: Result<(JsonSpec, int), ParseFailure> = if c == '"' {
            lemma_shift_string(pre, s, q);
            match spec_string(s, q) {
                Ok((text, e)) => Ok((JsonSpec::Str(text), e)),
                Err(f) => Err(f),
            }
        } else if c == '-' || is_ascii_digit(c) {
            lemma_shift_number(pre, s, q);
            match spec_number(s, q) {
                Ok((n, e)) => Ok((JsonSpec::Number(n), e)),
                Err(f) => Err(f),
            }
        } else if c == '{' {
            lemma_shift_object(pre, s, q);
            spec_object(s, q)
        } else if c == '[' {
            lemma_shift_array(pre, s, q);
            spec_array(s, q)
        } else {
            lemma_shift_starts_with(pre, s, q, seq!['t', 'r', 'u', 'e']);
            lemma_shift_starts_with(pre, s, q, seq!['f', 'a', 'l', 's', 'e']);
            lemma_shift_starts_with(pre, s, q, seq!['n', 'u', 'l', 'l']);
            if c == 't' && starts_with_at(s, q, seq!['t', 'r', 'u', 'e']) {
                Ok((JsonSpec::Boolean(true), q + 4))
            } else if c == 'f' && starts_with_at(s, q, seq!['f', 'a', 'l', 's', 'e']) {
                Ok((JsonSpec::Boolean(false), q + 5))
            } else if c == 'n' && starts_with_at(s, q, seq!['n', 'u', 'l', 'l']) {
                Ok((JsonSpec::Null, q + 4))
            } else {
                Err(ParseFailure::Error(crate::json::ParseError::UnexpectedSymbol(c)))
            }
        };
        match raw {
            Ok((v, e)) => {
                lemma_shift_skip_ws(pre, s, e);
                lemma_skip_ws(s, e);
            },
            Err(_) => {},
        }
    }
}

proof fn lemma_shift_object(pre: Seq<char>, s: Seq<char>, p: int)
    requires
        0 <= p,
    ensures
        spec_object(pre + s, p + pre.len()) == shifted(spec_object(s, p), pre.len() as int),
        ends_after(spec_object(s, p), p),
    decreases s.len() - p, 1nat,
{
    if p < s.len() {
        lemma_skip_ws(s, p + 1);
        lemma_shift_skip_ws(pre, s, p + 1);
        lemma_shift_members(pre, s, skip_ws(s, p + 1), true, Seq::empty());
    }
}

proof fn lemma_shift_members(
    pre: Seq<char>,
    s: Seq<char>,
    p: int,
    first: bool,
    acc: Seq<(Seq<char>, JsonSpec)>,
)
    requires
        0 <= p,
    ensures
        spec_members(pre + s, p + pre.len(), first, acc) == shifted(
            spec_members(s, p, first, acc),
            pre.len() as int,
        ),
        ends_after(spec_members(s, p, first, acc), p),
    decreases s.len() - p, 3nat,
{
    if p < s.len() {
        lemma_prefix_char(pre, s, p);
        if s[p] == '"' && first {
            lemma_shift_member(pre, s, p, acc);
            match spec_member(s, p, acc) {
                Ok((members, e)) => {
                    if p < e && e <= s.len() {
                        lemma_shift_members(pre, s, e, false, members);
                    }
                },
                Err(_) => {},
            }
        } else if s[p] == ',' && !first {
            lemma_skip_ws(s, p + 1);
            lemma_shift_skip_ws(pre, s, p + 1);
            let q = skip_ws(s, p + 1);
            lemma_shift_member(pre, s, q, acc);
            match spec_member(s, q, acc) {
                Ok((members, e)) => {
                    if p < e && e <= s.len() {
                        lemma_shift_members(pre, s, e, false, members);
                    }
                },
                Err(_) => {},
            }
        }
    }
}

proof fn lemma_shift_member(pre: Seq<char>, s: Seq<char>, p: int, acc: Seq<(Seq<char>, JsonSpec)>)
    requires
        0 <= p,
    ensures
        spec_member(pre + s, p + pre.len(), acc) == shifted(spec_member(s, p, acc), pre.len() as int),
        ends_after(spec_member(s, p, acc), p),
    decreases s.len() - p, 2nat,
{
    lemma_shift_string(pre, s, p);
    match spec_string(s, p) {
        Ok((key, e)) => {
            lemma_skip_ws(s, e);
            lemma_shift_skip_ws(pre, s, e);
            let q = skip_ws(s, e);
            if q < s.len() {
                lemma_prefix_char(pre, s, q);
                if s[q] == ':' && p <= q {
                    lemma_shift_value(pre, s, q + 1);
                }
            }
        },
        Err(_) => {},
    }
}

proof fn lemma_shift_array(pre: Seq<char>, s: Seq<char>, p: int)
    requires
        0 <= p,
    ensures
        spec_array(pre + s, p + pre.len()) == shifted(spec_array(s, p), pre.len() as int),
        ends_after(spec_array(s, p), p),
    decreases s.len() - p, 1nat,
{
    if p < s.len() {
        lemma_skip_ws(s, p + 1);
        lemma_shift_skip_ws(pre, s, p + 1);
        lemma_shift_items(pre, s, skip_ws(s, p + 1), true, Seq::empty());
    }
}

proof fn lemma_shift_items(pre: Seq<char>, s: Seq<char>, p: int, first: bool, acc: Seq<JsonSpec>)
    requires
        0 <= p,
    ensures
        spec_items(pre + s, p + pre.len(), first, acc) == shifted(
            spec_items(s, p, first, acc),
            pre.len() as int,
        ),
        ends_after(spec_items(s, p, first, acc), p),
    decreases s.len() - p, 3nat,
{
    if p < s.len() {
        lemma_prefix_char(pre, s, p);
        if s[p] != ']' {
            if first {
                lemma_shift_value(pre, s, p);
                match spec_value(s, p) {
                    Ok((v, e)) => {
                        if p < e && e <= s.len() {
                            lemma_shift_items(pre, s, e, false, acc.push(v));
                        }
                    },
                    Err(_) => {},
                }
            } else if s[p] == ',' {
                lemma_shift_value(pre, s, p + 1);
                match spec_value(s, p + 1) {
                    Ok((v, e)) => {
                        if p < e && e <= s.len() {
                            lemma_shift_items(pre, s, e, false, acc.push(v));
                        }
                    },
                    Err(_) => {},
                }
            }
        }
    }
}

/// The end position `e` of a parse of `s` as an end position in `s + w`, where `w` is all
/// whitespace that a final whitespace skip runs through: the end of `s` becomes the end of
/// `s + w`.
pub open spec fn extended_end(e: int, s: Seq<char>, w: Seq<char>) -> int {
    if e == s.len() {
        (s + w).len() as int
    } else {
        e
    }
}

proof fn lemma_suffix_char(s: Seq<char>, w: Seq<char>, i: int)
    requires
        all_white(w),
        0 <= i < (s + w).len(),
    ensures
        i < s.len() ==> (s + w)[i] == s[i],
        i >= s.len() ==> unicode_white_space((s + w)[i]),
{
    if i >= s.len() {
        assert((s + w)[i] == w[i - s.len()]);
    }
}

proof fn lemma_white_char(c: char)
    requires
        unicode_white_space(c),
    ensures
        !is_ascii_digit(c),
        c != '.',
{
}

proof fn lemma_white_tail_skip(s: Seq<char>, w: Seq<char>, p: int)
    requires
        all_white(w),
        s.len() <= p <= (s + w).len(),
    ensures
        skip_ws(s + w, p) == (s + w).len(),
    decreases (s + w).len() - p,
{
    if p < (s + w).len() {
        lemma_suffix_char(s, w, p);
        lemma_white_tail_skip(s, w, p + 1);
    }
}

proof fn lemma_suffix_skip_ws(s: Seq<char>, w: Seq<char>, p: int)
    requires
        all_white(w),
        0 <= p <= s.len(),
    ensures
        skip_ws(s + w, p) == extended_end(skip_ws(s, p), s, w),
        p <= skip_ws(s, p) <= s.len(),
    decreases s.len() - p,
{
    lemma_skip_ws(s, p);
    if p < s.len() {
        lemma_suffix_char(s, w, p);
        if unicode_white_space(s[p]) {
            lemma_suffix_skip_ws(s, w, p + 1);
        }
    } else {
        lemma_white_tail_skip(s, w, p);
    }
}

proof fn lemma_suffix_skip_digits(s: Seq<char>, w: Seq<char>, p: int)
    requires
        all_white(w),
        0 <= p <= s.len(),
    ensures
        skip_digits(s + w, p) == skip_digits(s, p),
    decreases s.len() - p,
{
    if p < s.len() {
        lemma_suffix_char(s, w, p);
        if is_ascii_digit(s[p]) {
            lemma_suffix_skip_digits(s, w, p + 1);
        }
    } else if p < (s + w).len() {
        lemma_suffix_char(s, w, p);
        lemma_white_char((s + w)[p]);
    }
}

proof fn lemma_suffix_digit_values(s: Seq<char>, w: Seq<char>, a: int, b: int)
    requires
        0 <= a <= b <= s.len(),
    ensures
        digit_values(s + w, a, b) == digit_values(s, a, b),
{
    assert((s + w).subrange(a, b) =~= s.subrange(a, b));
}

proof fn lemma_suffix_starts_with(s: Seq<char>, w: Seq<char>, q: int, word: Seq<char>)
    requires
        starts_with_at(s, q, word),
    ensures
        starts_with_at(s + w, q, word),
{
    assert((s + w).subrange(q, q + word.len()) =~= s.subrange(q, q + word.len()));
}

proof fn lemma_suffix_string_body(s: Seq<char>, w: Seq<char>, p: int, acc: Seq<char>)
    requires
        all_white(w),
        0 <= p,
    ensures
        spec_string_body(s, p, acc) matches Ok((_, e)) ==> spec_string_body(s + w, p, acc)
            == spec_string_body(s, p, acc) && p < e <= s.len(),
    decreases s.len() - p,
{
    if p < s.len() {
        lemma_suffix_char(s, w, p);
        if s[p] == '\\' {
            if p + 1 < s.len() {
                lemma_suffix_char(s, w, p + 1);
                match escaped_char(s[p + 1]) {
                    Some(c) => {
                        lemma_suffix_string_body(s, w, p + 2, acc.push(c));
                    },
                    None => {},
                }
            }
        } else if s[p] != '"' {
            lemma_suffix_string_body(s, w, p + 1, acc.push(s[p]));
        }
    }
}

proof fn lemma_suffix_string(s: Seq<char>, w: Seq<char>, p: int)
    requires
        all_white(w),
        0 <= p,
    ensures
        spec_string(s, p) matches Ok((_, e)) ==> spec_string(s + w, p) == spec_string(s, p) && p
            < e <= s.len(),
{
    if p < s.len() {
        lemma_suffix_char(s, w, p);
        lemma_suffix_string_body(s, w, p + 1, Seq::empty());
    }
}

proof fn lemma_suffix_number(s: Seq<char>, w: Seq<char>, p: int)
    requires
        all_white(w),
        0 <= p,
    ensures
        spec_number(s, p) matches Ok((_, e)) ==> spec_number(s + w, p) == spec_number(s, p) && p
            < e <= s.len(),
{
    if p < s.len() {
        lemma_suffix_char(s, w, p);
        let q = if s[p] == '-' {
            p + 1
        } else {
            p
        };
        if q < s.len() {
            lemma_suffix_char(s, w, q);
            if is_ascii_digit(s[q]) {
                lemma_suffix_skip_digits(s, w, q + 1);
                lemma_skip_digits_bounds(s, q + 1);
                let e = if s[q] == '0' {
                    q + 1
                } else {
                    skip_digits(s, q + 1)
                };
                lemma_suffix_digit_values(s, w, q, e);
                if e < s.len() {
                    lemma_suffix_char(s, w, e);
                    if s[e] == '.' && e + 1 < s.len() {
                        lemma_suffix_char(s, w, e + 1);
                        lemma_suffix_skip_digits(s, w, e + 1);
                        lemma_skip_digits_bounds(s, e + 1);
                        lemma_suffix_digit_values(s, w, e + 1, skip_digits(s, e + 1));
                    }
                } else if e < (s + w).len() {
                    lemma_suffix_char(s, w, e);
                    lemma_white_char((s + w)[e]);
                }
            }
        }
    }
}

proof fn lemma_suffix_value(s: Seq<char>, w: Seq<char>, p: int)
    requires
        all_white(w),
        0 <= p,
    ensures
        spec_value(s, p) matches Ok((v, e)) ==> spec_value(s + w, p) == Ok::<(JsonSpec, int), ParseFailure>(
            (v, extended_end(e, s, w)),
        ) && p < e <= s.len(),
    decreases s.len() - p, 2nat,
{
    let q = skip_ws(s, p);
    lemma_skip_ws(s, p);
    if p <= s.len() {
        lemma_suffix_skip_ws(s, w, p);
    }
    if q < s.len() {
        lemma_suffix_char(s, w, q);
        let c = s[q];
        let raw: Result<(JsonSpec, int), ParseFailure> = if c == '"' {
            lemma_suffix_string(s, w, q);
            match spec_string(s, q) {
                Ok((text, e)) => Ok((JsonSpec::Str(text), e)),
                Err(f) => Err(f),
            }
        } else if c == '-' || is_ascii_digit(c) {
            lemma_suffix_number(s, w, q);
            match spec_number(s, q) {
                Ok((n, e)) => Ok((JsonSpec::Number(n), e)),
                Err(f) => Err(f),
            }
        } else if c == '{' {
            lemma_suffix_object(s, w, q);
            spec_object(s, q)
        } else if c == '[' {
            lemma_suffix_array(s, w, q);
            spec_array(s, q)
        } else if c == 't' && starts_with_at(s, q, seq!['t', 'r', 'u', 'e']) {
            lemma_suffix_starts_with(s, w, q, seq!['t', 'r', 'u', 'e']);
            Ok((JsonSpec::Boolean(true), q + 4))
        } else if c == 'f' && starts_with_at(s, q, seq!['f', 'a', 'l', 's', 'e']) {
            lemma_suffix_starts_with(s, w, q, seq!['f', 'a', 'l', 's', 'e']);
            Ok((JsonSpec::Boolean(false), q + 5))
        } else if c == 'n' && starts_with_at(s, q, seq!['n', 'u', 'l', 'l']) {
            lemma_suffix_starts_with(s, w, q, seq!['n', 'u', 'l', 'l']);
            Ok((JsonSpec::Null, q + 4))
        } else {
            Err(ParseFailure::Error(crate::json::ParseError::UnexpectedSymbol(c)))
        };
        match raw {
            Ok((v, e)) => {
                if e <= s.len() {
                    lemma_suffix_skip_ws(s, w, e);
                }
            },
            Err(_) => {},
        }
    }
}

proof fn lemma_suffix_object(s: Seq<char>, w: Seq<char>, p: int)
    requires
        all_white(w),
        0 <= p,
    ensures
        spec_object(s, p) matches Ok((_, e)) ==> spec_object(s + w, p) == spec_object(s, p) && p
            < e <= s.len(),
    decreases s.len() - p, 1nat,
{
    if p < s.len() {
        lemma_suffix_skip_ws(s, w, p + 1);
        lemma_suffix_members(s, w, skip_ws(s, p + 1), true, Seq::empty());
    }
}

proof fn lemma_suffix_members(
    s: Seq<char>,
    w: Seq<char>,
    p: int,
    first: bool,
    acc: Seq<(Seq<char>, JsonSpec)>,
)
    requires
        all_white(w),
        0 <= p,
    ensures
        spec_members(s, p, first, acc) matches Ok((_, e)) ==> spec_members(s + w, p, first, acc)
            == spec_members(s, p, first, acc) && p < e <= s.len() && p < s.len(),
    decreases s.len() - p, 3nat,
{
    if p < s.len() {
        lemma_suffix_char(s, w, p);
        if s[p] == '"' && first {
            lemma_suffix_member(s, w, p, acc);
            match spec_member(s, p, acc) {
                Ok((members, e)) => {
                    if p < e && e <= s.len() {
                        lemma_suffix_members(s, w, e, false, members);
                    }
                },
                Err(_) => {},
            }
        } else if s[p] == ',' && !first {
            lemma_suffix_skip_ws(s, w, p + 1);
            let q = skip_ws(s, p + 1);
            lemma_suffix_member(s, w, q, acc);
            match spec_member(s, q, acc) {
                Ok((members, e)) => {
                    if p < e && e <= s.len() {
                        lemma_suffix_members(s, w, e, false, members);
                    }
                },
                Err(_) => {},
            }
        }
    }
}

proof fn lemma_suffix_member(s: Seq<char>, w: Seq<char>, p: int, acc: Seq<(Seq<char>, JsonSpec)>)
    requires
        all_white(w),
        0 <= p,
    ensures
        spec_member(s, p, acc) matches Ok((m, e)) ==> spec_member(s + w, p, acc) == Ok::<
            (Seq<(Seq<char>, JsonSpec)>, int),
            ParseFailure,
        >((m, extended_end(e, s, w))) && p < e <= s.len() && p < s.len(),
    decreases s.len() - p, 2nat,
{
    lemma_suffix_string(s, w, p);
    match spec_string(s, p) {
        Ok((key, e)) => {
            if e <= s.len() {
                lemma_suffix_skip_ws(s, w, e);
                let q = skip_ws(s, e);
                if q < s.len() {
                    lemma_suffix_char(s, w, q);
                    if s[q] == ':' && p <= q {
                        lemma_suffix_value(s, w, q + 1);
                    }
                }
            }
        },
        Err(_) => {},
    }
}

proof fn lemma_suffix_array(s: Seq<char>, w: Seq<char>, p: int)
    requires
        all_white(w),
        0 <= p,
    ensures
        spec_array(s, p) matches Ok((_, e)) ==> spec_array(s + w, p) == spec_array(s, p) && p < e
            <= s.len(),
    decreases s.len() - p, 1nat,
{
    if p < s.len() {
        lemma_suffix_skip_ws(s, w, p + 1);
        lemma_suffix_items(s, w, skip_ws(s, p + 1), true, Seq::empty());
    }
}

proof fn lemma_suffix_items(s: Seq<char>, w: Seq<char>, p: int, first: bool, acc: Seq<JsonSpec>)
    requires
        all_white(w),
        0 <= p,
    ensures
        spec_items(s, p, first, acc) matches Ok((_, e)) ==> spec_items(s + w, p, first, acc)
            == spec_items(s, p, first, acc) && p < e <= s.len() && p < s.len(),
    decreases s.len() - p, 3nat,
{
    if p < s.len() {
        lemma_suffix_char(s, w, p);
        if s[p] != ']' {
            if first {
                lemma_suffix_value(s, w, p);
                match spec_value(s, p) {
                    Ok((v, e)) => {
                        if p < e && e <= s.len() {
                            lemma_suffix_items(s, w, e, false, acc.push(v));
                        }
                    },
                    Err(_) => {},
                }
            } else if s[p] == ',' {
                lemma_suffix_value(s, w, p + 1);
                match spec_value(s, p + 1) {
                    Ok((v, e)) => {
                        if p < e && e <= s.len() {
                            lemma_suffix_items(s, w, e, false, acc.push(v));
                        }
                    },
                    Err(_) => {},
                }
            }
        }
    }
}

proof fn lemma_white_prefix_skip(pre: Seq<char>, s: Seq<char>, i: int)
    requires
        all_white(pre),
        0 <= i <= pre.len(),
    ensures
        skip_ws(pre + s, i) == skip_ws(pre + s, pre.len() as int),
    decreases pre.len() - i,
{
    if i < pre.len() {
        assert((pre + s)[i] == pre[i]);
        lemma_white_prefix_skip(pre, s, i + 1);
    }
}

/// Whitespace before and after a text that parses changes nothing: the text with the
/// whitespace parses to the same value.
pub proof fn lemma_parse_ignores_surrounding_whitespace(w1: Seq<char>, s: Seq<char>, w2: Seq<char>)
    requires
        all_white(w1),
        all_white(w2),
        spec_parse_json(s) is Ok,
    ensures
        spec_parse_json(w1 + s + w2) == spec_parse_json(s),
{
    let u = s + w2;
    let t = w1 + u;
    assert(w1 + s + w2 =~= t);
    lemma_suffix_value(s, w2, 0);
    lemma_shift_value(w1, u, 0);
    lemma_white_prefix_skip(w1, u, 0);
    assert(spec_value(t, 0) == spec_value(t, w1.len() as int));
}

} // verus!
