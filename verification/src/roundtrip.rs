use vstd::prelude::*;

use crate::json::{
    canonical_number, decimal_number, strip_leading_zeros, strip_trailing_zeros, JsonSpec,
    NumberView,
};
use crate::parse::{
    digit_of, digit_values, is_ascii_digit, lemma_skip_ws, skip_digits, skip_ws, spec_array,
    spec_insert_member, spec_items, spec_member, spec_members, spec_number, spec_object,
    spec_parse_json, spec_string, spec_string_body, spec_value, starts_with_at,
    unicode_white_space, unique_keys,
};
use crate::text::{
    digit_char, digits_text, items_text, json_text, member_text, members_text, number_text,
    zeros_text,
};

verus! {

/// A text that a string can hold and print as it is: no double quote and no backslash.
pub open spec fn plain_text(s: Seq<char>) -> bool {
    forall|i: int| 0 <= i < s.len() ==> #[trigger] s[i] != '"' && s[i] != '\\'
}

/// Whether the character at position `e`, if any, cannot continue a number.
pub open spec fn ends_number(s: Seq<char>, e: int) -> bool {
    e >= s.len() || !(is_ascii_digit(s[e]) || s[e] == '.')
}

proof fn lemma_string_body_text(s: Seq<char>, q: int, acc: Seq<char>, text: Seq<char>, i: int)
    requires
        0 <= i <= text.len(),
        0 <= q,
        q + text.len() - i < s.len(),
        forall|k: int| i <= k < text.len() ==> s[q + k - i] == #[trigger] text[k],
        s[q + text.len() - i] == '"',
        plain_text(text),
    ensures
        spec_string_body(s, q, acc) == Ok::<(Seq<char>, int), crate::json::ParseFailure>(
            (acc + text.subrange(i, text.len() as int), q + text.len() - i + 1),
        ),
    decreases text.len() - i,
{
    if i < text.len() {
        assert(s[q] == text[i]);
        lemma_string_body_text(s, q + 1, acc.push(text[i]), text, i + 1);
        assert(acc.push(text[i]) + text.subrange(i + 1, text.len() as int) =~= acc + text.subrange(
            i,
            text.len() as int,
        ));
    } else {
        assert(acc + text.subrange(i, text.len() as int) =~= acc);
    }
}

/// A string printed between double quotes reads back as itself.
pub proof fn lemma_string_text(s: Seq<char>, p: int, text: Seq<char>)
    requires
        0 <= p,
        p + text.len() + 2 <= s.len(),
        s.subrange(p, p + text.len() + 2) == seq!['"'] + text + seq!['"'],
        plain_text(text),
    ensures
        spec_string(s, p) == Ok::<(Seq<char>, int), crate::json::ParseFailure>(
            (text, p + text.len() + 2),
        ),
{
    let t = seq!['"'] + text + seq!['"'];
    assert(s[p] == t[0]);
    assert forall|k: int| 0 <= k < text.len() implies s[p + 1 + k - 0] == #[trigger] text[k] by {
        assert(s[p + 1 + k] == s.subrange(p, p + text.len() + 2)[1 + k]);
        assert(t[1 + k] == text[k]);
    }
    assert(s[p + 1 + text.len()] == s.subrange(p, p + text.len() + 2)[text.len() + 1int]);
    assert(s[p + 1 + text.len()] == t[text.len() + 1int]);
    lemma_string_body_text(s, p + 1, Seq::empty(), text, 0);
    assert(Seq::<char>::empty() + text.subrange(0, text.len() as int) =~= text);
}

proof fn lemma_digit_char(d: u8)
    requires
        d < 10,
    ensures
        is_ascii_digit(digit_char(d)),
        digit_of(digit_char(d)) == d,
        digit_char(d) != '.',
        digit_char(d) != '-',
        (digit_char(d) == '0') == (d == 0),
{
}

proof fn lemma_digit_run(s: Seq<char>, a: int, d: Seq<u8>)
    requires
        0 <= a,
        a + d.len() <= s.len(),
        s.subrange(a, a + d.len()) == digits_text(d),
        forall|k: int| 0 <= k < d.len() ==> #[trigger] d[k] < 10,
    ensures
        digit_values(s, a, a + d.len()) == d,
        forall|k: int| a <= k < a + d.len() ==> is_ascii_digit(#[trigger] s[k]),
        forall|k: int| 0 <= k < d.len() ==> #[trigger] s[a + k] == digit_char(d[k]),
{
    assert forall|k: int| 0 <= k < d.len() implies #[trigger] s[a + k] == digit_char(d[k]) by {
        assert(s[a + k] == s.subrange(a, a + d.len())[k]);
        assert(digits_text(d)[k] == digit_char(d[k]));
    }
    assert forall|k: int| a <= k < a + d.len() implies is_ascii_digit(#[trigger] s[k]) by {
        assert(s[a + (k - a)] == digit_char(d[k - a]));
        lemma_digit_char(d[k - a]);
    }
    assert forall|k: int| 0 <= k < d.len() implies #[trigger] digit_values(s, a, a + d.len())[k] == d[k] by {
        assert(s[a + k] == digit_char(d[k]));
        lemma_digit_char(d[k]);
    }
    assert(digit_values(s, a, a + d.len()) =~= d);
}

proof fn lemma_skip_digits_run(s: Seq<char>, a: int, b: int)
    requires
        0 <= a <= b <= s.len(),
        forall|k: int| a <= k < b ==> is_ascii_digit(#[trigger] s[k]),
        b >= s.len() || !is_ascii_digit(s[b]),
    ensures
        skip_digits(s, a) == b,
    decreases b - a,
{
    if a < b {
        lemma_skip_digits_run(s, a + 1, b);
    }
}

proof fn lemma_strip_leading_nonzero(d: Seq<u8>)
    requires
        d.len() == 0 || d[0] != 0,
    ensures
        strip_leading_zeros(d) == d,
{
}

proof fn lemma_strip_leading_zero_prefix(z: nat, d: Seq<u8>)
    requires
        d.len() == 0 || d[0] != 0,
    ensures
        strip_leading_zeros(Seq::new(z, |i: int| 0u8) + d) == d,
    decreases z,
{
    if z > 0 {
        let all = Seq::new(z, |i: int| 0u8) + d;
        assert(all.drop_first() =~= Seq::new((z - 1) as nat, |i: int| 0u8) + d);
        lemma_strip_leading_zero_prefix((z - 1) as nat, d);
    } else {
        assert(Seq::new(z, |i: int| 0u8) + d =~= d);
    }
}

proof fn lemma_strip_trailing_nonzero(d: Seq<u8>)
    requires
        d.len() == 0 || d.last() != 0,
    ensures
        strip_trailing_zeros(d) == d,
{
}

/// A canonical number printed in decimal notation reads back as itself.
#[verifier::spinoff_prover]
#[verifier::rlimit(40)]
pub proof fn lemma_number_text(s: Seq<char>, p: int, n: NumberView)
    requires
        canonical_number(n),
        0 <= p,
        p + number_text(n).len() <= s.len(),
        s.subrange(p, p + number_text(n).len()) == number_text(n),
        ends_number(s, p + number_text(n).len()),
    ensures
        spec_number(s, p) == Ok::<(NumberView, int), crate::json::ParseFailure>((n, p + number_text(n).len())),
{
    let t = number_text(n);
    let end = p + t.len();
    let d = n.digits;
    let len = d.len();
    let q = if n.negative { p + 1 } else { p };
    let body = t.subrange(q - p, t.len() as int);
    assert(s.subrange(q, end) =~= body);
    if n.negative {
        assert(s[p] == t[0]);
    }
    if n.scale == 0 {
        if len == 0 {
            assert(body =~= seq!['0']);
            assert(s[q] == body[0]);
            assert(digit_values(s, q, q + 1) =~= seq![0u8]);
            assert(strip_trailing_zeros(Seq::<u8>::empty()) =~= Seq::<u8>::empty());
            assert(seq![0u8] + Seq::<u8>::empty() =~= seq![0u8]);
            assert(seq![0u8].drop_first() =~= Seq::<u8>::empty());
            assert(strip_leading_zeros(seq![0u8]) == strip_leading_zeros(Seq::<u8>::empty()));
            assert(strip_leading_zeros(Seq::<u8>::empty()) =~= Seq::<u8>::empty());
            assert(n.digits =~= Seq::<u8>::empty());
            assert(decimal_number(false, seq![0u8], Seq::empty()) == n);
        } else {
            assert(body =~= digits_text(d));
            lemma_digit_run(s, q, d);
            assert(s[q] == digit_char(d[0]));
            lemma_digit_char(d[0]);
            lemma_skip_digits_run(s, q + 1, q + len);
            if !n.negative {
                assert(s[p] != '-');
            }
            assert(strip_trailing_zeros(Seq::<u8>::empty()) =~= Seq::<u8>::empty());
            assert(d + Seq::<u8>::empty() =~= d);
            lemma_strip_leading_nonzero(d);
            assert(decimal_number(n.negative, d, Seq::empty()) =~= n);
        }
    } else if n.scale >= len {
        let z = (n.scale - len) as nat;
        assert(body =~= seq!['0', '.'] + zeros_text(z) + digits_text(d));
        assert(s[q] == s.subrange(q, end)[0]);
        assert(s[q + 1] == s.subrange(q, end)[1]);
        assert(body[0] == '0');
        assert(body[1] == '.');
        assert(s.subrange(q + 2, end) =~= body.skip(2));
        let frac = Seq::new(z, |i: int| 0u8) + d;
        assert(digits_text(frac) =~= zeros_text(z) + digits_text(d));
        assert(s.subrange(q + 2, end) =~= digits_text(frac));
        assert forall|k: int| 0 <= k < frac.len() implies #[trigger] frac[k] < 10 by {
            if k >= z {
                assert(frac[k] == d[k - z]);
            }
        }
        lemma_digit_run(s, q + 2, frac);
        assert(frac.len() > 0);
        lemma_skip_digits_run(s, q + 2, end);
        if !n.negative {
            assert(s[p] != '-');
        }
        assert(digit_values(s, q, q + 1) =~= seq![0u8]);
        assert(frac.last() == d.last());
        lemma_strip_trailing_nonzero(frac);
        lemma_strip_leading_zero_prefix(z + 1, d);
        assert(seq![0u8] + frac =~= Seq::new(z + 1, |i: int| 0u8) + d);
        assert(decimal_number(n.negative, seq![0u8], frac) =~= n);
    } else {
        let split = len - n.scale;
        let int_part = d.take(split);
        let frac = d.skip(split);
        assert(body =~= digits_text(int_part) + seq!['.'] + digits_text(frac));
        let a = digits_text(int_part);
        let b = digits_text(frac);
        assert(a.len() == split);
        assert(s.subrange(q, q + split) =~= a) by {
            assert forall|k: int| 0 <= k < split implies s.subrange(q, q + split)[k] == a[k] by {
                assert(s[q + k] == s.subrange(q, end)[k]);
                assert(body[k] == a[k]);
            }
        }
        assert(s.subrange(q + split + 1, end) =~= b) by {
            assert forall|k: int| 0 <= k < b.len() implies s.subrange(q + split + 1, end)[k] == b[k] by {
                assert(s[q + split + 1 + k] == s.subrange(q, end)[split + 1 + k]);
                assert(body[split + 1 + k] == b[k]);
            }
        }
        assert(s[q + split] == s.subrange(q, end)[split]);
        assert(body[split] == '.');
        lemma_digit_run(s, q, int_part);
        lemma_digit_run(s, q + split + 1, frac);
        assert(int_part[0] == d[0]);
        lemma_digit_char(d[0]);
        lemma_skip_digits_run(s, q + 1, q + split);
        lemma_skip_digits_run(s, q + split + 1, end);
        if !n.negative {
            assert(s[p] != '-');
        }
        assert(frac.last() == d.last());
        lemma_strip_trailing_nonzero(frac);
        assert(int_part + frac =~= d);
        lemma_strip_leading_nonzero(d);
        assert(decimal_number(n.negative, int_part, frac) =~= n);
    }
}

/// A value whose text reads back as itself: its strings and keys are plain texts, its
/// objects have distinct keys, and its numbers are in canonical form.
pub open spec fn printable(v: JsonSpec) -> bool
    decreases v,
{
    match v {
        JsonSpec::Object(m) => unique_keys(m) && forall|i: int|
            0 <= i < m.len() ==> plain_text(#[trigger] m[i].0) && printable(m[i].1),
        JsonSpec::Array(a) => forall|i: int| 0 <= i < a.len() ==> printable(#[trigger] a[i]),
        JsonSpec::Str(text) => plain_text(text),
        JsonSpec::Number(n) => canonical_number(n),
        _ => true,
    }
}

proof fn lemma_sub_index(s: Seq<char>, a: int, t: Seq<char>)
    requires
        0 <= a,
        a + t.len() <= s.len(),
        s.subrange(a, a + t.len()) == t,
    ensures
        forall|j: int| 0 <= j < t.len() ==> #[trigger] t[j] == s[a + j],
{
    assert forall|j: int| 0 <= j < t.len() implies #[trigger] t[j] == s[a + j] by {
        assert(s.subrange(a, a + t.len())[j] == s[a + j]);
    }
}

proof fn lemma_sub_split(s: Seq<char>, a: int, t1: Seq<char>, t2: Seq<char>)
    requires
        0 <= a,
        a + t1.len() + t2.len() <= s.len(),
        s.subrange(a, a + t1.len() + t2.len()) == t1 + t2,
    ensures
        s.subrange(a, a + t1.len()) == t1,
        s.subrange(a + t1.len(), a + t1.len() + t2.len()) == t2,
{
    lemma_sub_index(s, a, t1 + t2);
    assert(s.subrange(a, a + t1.len()) =~= t1) by {
        assert forall|j: int| 0 <= j < t1.len() implies s.subrange(a, a + t1.len())[j] == t1[j] by {
            assert((t1 + t2)[j] == s[a + j]);
        }
    }
    assert(s.subrange(a + t1.len(), a + t1.len() + t2.len()) =~= t2) by {
        assert forall|j: int| 0 <= j < t2.len() implies s.subrange(a + t1.len(), a + t1.len() + t2.len())[j] == t2[j] by {
            assert((t1 + t2)[t1.len() + j] == s[a + t1.len() + j]);
        }
    }
}

/// The text of a value is not empty and does not start with whitespace, a comma or a
/// closing bracket or brace.
proof fn lemma_text_start(v: JsonSpec)
    requires
        printable(v),
    ensures
        json_text(v).len() > 0,
        !unicode_white_space(json_text(v)[0]),
        json_text(v)[0] != ',' && json_text(v)[0] != ']' && json_text(v)[0] != '}',
        json_text(v)[0] == '"' <==> v is Str,
        json_text(v)[0] == '{' <==> v is Object,
        json_text(v)[0] == '[' <==> v is Array,
        (json_text(v)[0] == '-' || is_ascii_digit(json_text(v)[0])) <==> v is Number,
{
    match v {
        JsonSpec::Number(n) => {
            let t = number_text(n);
            if n.negative {
                assert(t[0] == '-');
            } else if n.scale == 0 && n.digits.len() > 0 {
                assert(t[0] == digits_text(n.digits)[0]);
                lemma_digit_char(n.digits[0]);
            } else if n.scale > 0 && n.scale < n.digits.len() {
                let split = n.digits.len() - n.scale;
                assert(t[0] == digits_text(n.digits.take(split))[0]);
                assert(n.digits.take(split)[0] == n.digits[0]);
                lemma_digit_char(n.digits[0]);
            } else {
                assert(t[0] == '0');
            }
        },
        JsonSpec::Boolean(b) => {},
        _ => {},
    }
}

/// The text of the elements from the `k`-th on, with the comma before each one after the
/// first element of the array.
pub open spec fn items_suffix(a: Seq<JsonSpec>, k: int) -> Seq<char>
    decreases a.len() - k,
{
    if k < 0 || k >= a.len() {
        Seq::empty()
    } else {
        (if k == 0 {
            Seq::empty()
        } else {
            seq![',']
        }) + json_text(a[k]) + items_suffix(a, k + 1)
    }
}

/// The text of the members from the `k`-th on, with the comma before each one after the
/// first member of the object.
pub open spec fn members_suffix(m: Seq<(Seq<char>, JsonSpec)>, k: int) -> Seq<char>
    decreases m.len() - k,
{
    if k < 0 || k >= m.len() {
        Seq::empty()
    } else {
        (if k == 0 {
            Seq::empty()
        } else {
            seq![',']
        }) + member_text(m[k].0, m[k].1) + members_suffix(m, k + 1)
    }
}

proof fn lemma_items_prefix(a: Seq<JsonSpec>, k: int)
    requires
        0 <= k <= a.len(),
    ensures
        items_text(a) == items_text(a.take(k)) + items_suffix(a, k),
    decreases a.len() - k,
{
    if k == a.len() {
        assert(a.take(k) =~= a);
        assert(items_text(a) + Seq::<char>::empty() =~= items_text(a));
    } else {
        lemma_items_prefix(a, k + 1);
        let t = a.take(k + 1);
        assert(t.drop_last() =~= a.take(k));
        assert(t.last() == a[k]);
        if k == 0 {
            assert(items_text(t) == json_text(a[0]));
            assert(a.take(0) =~= Seq::<JsonSpec>::empty());
            assert(items_text(a.take(0)) =~= Seq::<char>::empty());
            assert(items_text(a) =~= items_text(a.take(k)) + items_suffix(a, k));
        } else {
            assert(items_text(t) == items_text(a.take(k)) + seq![','] + json_text(a[k]));
            assert(items_text(a) =~= items_text(a.take(k)) + items_suffix(a, k));
        }
    }
}

proof fn lemma_members_prefix(m: Seq<(Seq<char>, JsonSpec)>, k: int)
    requires
        0 <= k <= m.len(),
    ensures
        members_text(m) == members_text(m.take(k)) + members_suffix(m, k),
    decreases m.len() - k,
{
    if k == m.len() {
        assert(m.take(k) =~= m);
        assert(members_text(m) + Seq::<char>::empty() =~= members_text(m));
    } else {
        lemma_members_prefix(m, k + 1);
        let t = m.take(k + 1);
        assert(t.drop_last() =~= m.take(k));
        assert(t.last() == m[k]);
        if k == 0 {
            assert(t[0] == m[0]);
            assert(members_text(t) == member_text(m[0].0, m[0].1));
            assert(m.take(0) =~= Seq::<(Seq<char>, JsonSpec)>::empty());
            assert(members_text(m.take(0)) =~= Seq::<char>::empty());
            assert(members_text(m) =~= members_text(m.take(k)) + members_suffix(m, k));
        } else {
            assert(members_text(t) == members_text(m.take(k)) + seq![','] + member_text(m[k].0, m[k].1));
            assert(members_text(m) =~= members_text(m.take(k)) + members_suffix(m, k));
        }
    }
}

/// Whether the character at position `e`, if any, is not whitespace.
pub open spec fn no_ws_at(s: Seq<char>, e: int) -> bool {
    e >= s.len() || !unicode_white_space(s[e])
}

proof fn lemma_skip_ws_none(s: Seq<char>, e: int)
    requires
        0 <= e,
        no_ws_at(s, e),
    ensures
        skip_ws(s, e) == e,
{
}

/// The text of a printable value, in a text where it is followed by nothing that can
/// continue a number, reads back as the value, with the whitespace after it.
pub proof fn lemma_value_text(s: Seq<char>, p: int, v: JsonSpec)
    requires
        printable(v),
        0 <= p,
        p + json_text(v).len() <= s.len(),
        s.subrange(p, p + json_text(v).len()) == json_text(v),
        ends_number(s, p + json_text(v).len()),
    ensures
        spec_value(s, p) == Ok::<(JsonSpec, int), crate::json::ParseFailure>((v, skip_ws(s, p + json_text(v).len()))),
    decreases v, 0nat, 0int,
{
    let t = json_text(v);
    let e = p + t.len();
    lemma_text_start(v);
    lemma_sub_index(s, p, t);
    assert(s[p] == t[0]);
    lemma_skip_ws_none(s, p);
    match v {
        JsonSpec::Str(text) => {
            lemma_string_text(s, p, text);
        },
        JsonSpec::Number(n) => {
            lemma_number_text(s, p, n);
        },
        JsonSpec::Object(m) => {
            lemma_object_text(s, p, m);
        },
        JsonSpec::Array(a) => {
            lemma_array_text(s, p, a);
        },
        JsonSpec::Boolean(b) => {
            if b {
                assert(starts_with_at(s, p, seq!['t', 'r', 'u', 'e']));
            } else {
                assert(starts_with_at(s, p, seq!['f', 'a', 'l', 's', 'e']));
            }
        },
        JsonSpec::Null => {
            assert(starts_with_at(s, p, seq!['n', 'u', 'l', 'l']));
        },
    }
}

/// The text of a printable array reads back as the array.
proof fn lemma_array_text(s: Seq<char>, p: int, a: Seq<JsonSpec>)
    requires
        printable(JsonSpec::Array(a)),
        0 <= p,
        p + json_text(JsonSpec::Array(a)).len() <= s.len(),
        s.subrange(p, p + json_text(JsonSpec::Array(a)).len()) == json_text(JsonSpec::Array(a)),
    ensures
        spec_array(s, p) == Ok::<(JsonSpec, int), crate::json::ParseFailure>((JsonSpec::Array(a), p + json_text(JsonSpec::Array(a)).len())),
    decreases a, 2nat, 0int,
{
    let t = json_text(JsonSpec::Array(a));
    let body = items_text(a);
    assert(seq!['['] + (body + seq![']']) =~= t);
    lemma_sub_split(s, p, seq!['['], body + seq![']']);
    lemma_sub_index(s, p + 1, body + seq![']']);
    if a.len() > 0 {
        lemma_items_prefix(a, 0);
        assert(a.take(0) =~= Seq::<JsonSpec>::empty());
        assert(items_text(a.take(0)) =~= Seq::<char>::empty());
        assert(body =~= json_text(a[0]) + items_suffix(a, 1));
        lemma_text_start(a[0]);
        assert(s[p + 1] == (body + seq![']'])[0]);
        assert(body[0] == json_text(a[0])[0]);
    } else {
        assert(body =~= Seq::<char>::empty());
        assert(s[p + 1] == (body + seq![']'])[0]);
    }
    lemma_skip_ws_none(s, p + 1);
    lemma_items_text(s, p + 1, a, 0);
    assert(a.take(0) =~= Seq::<JsonSpec>::empty());
    assert(items_text(a.take(0)) =~= Seq::<char>::empty());
}

/// The elements of a printable array from the `k`-th on read back as the array.
proof fn lemma_items_text(s: Seq<char>, start: int, a: Seq<JsonSpec>, k: int)
    requires
        forall|i: int| 0 <= i < a.len() ==> printable(#[trigger] a[i]),
        0 <= k <= a.len(),
        0 <= start,
        start + items_text(a).len() + 1 <= s.len(),
        s.subrange(start, start + items_text(a).len() + 1) == items_text(a) + seq![']'],
    ensures
        spec_items(s, start + items_text(a.take(k)).len(), k == 0, a.take(k)) == Ok::<(JsonSpec, int), crate::json::ParseFailure>((JsonSpec::Array(a), start + items_text(a).len() + 1)),
    decreases a, 1nat, a.len() - k,
{
    let body = items_text(a);
    let end = start + body.len();
    let pk = start + items_text(a.take(k)).len();
    lemma_items_prefix(a, k);
    lemma_sub_index(s, start, body + seq![']']);
    assert(s[end] == (body + seq![']'])[body.len() as int]);
    if k == a.len() {
        assert(a.take(k) =~= a);
        assert(s[pk] == ']');
    } else {
        let pre = items_text(a.take(k));
        let suf = items_suffix(a, k);
        let sep: Seq<char> = if k == 0 {
            Seq::empty()
        } else {
            seq![',']
        };
        let el = json_text(a[k]);
        assert(suf == sep + el + items_suffix(a, k + 1));
        let q = pk + sep.len();
        let next = q + el.len();
        lemma_items_prefix(a, k + 1);
        let t1 = a.take(k + 1);
        assert(t1.drop_last() =~= a.take(k));
        assert(t1.last() == a[k]);
        if k == 0 {
            assert(t1[0] == a[0]);
            assert(items_text(t1) == el);
            assert(a.take(0) =~= Seq::<JsonSpec>::empty());
            assert(items_text(a.take(0)) =~= Seq::<char>::empty());
        } else {
            assert(items_text(t1) == pre + seq![','] + el);
        }
        assert(items_text(t1).len() == pre.len() + sep.len() + el.len());
        assert(next == start + items_text(t1).len());
        assert forall|j: int| 0 <= j < el.len() implies #[trigger] el[j] == s[q + j] by {
            assert(body[(pre.len() + sep.len() + j) as int] == el[j]);
            assert((body + seq![']'])[(pre.len() + sep.len() + j) as int] == s[start + pre.len() + sep.len() + j]);
        }
        assert(s.subrange(q, next) =~= el);
        if k > 0 {
            assert(body[pre.len() as int] == ',');
            assert((body + seq![']'])[pre.len() as int] == s[pk]);
        }
        if k + 1 < a.len() {
            let rest = items_suffix(a, k + 1);
            assert(rest == seq![','] + json_text(a[k + 1]) + items_suffix(a, k + 2));
            assert(body[(pre.len() + sep.len() + el.len()) as int] == rest[0]);
            assert((body + seq![']'])[(pre.len() + sep.len() + el.len()) as int] == s[next]);
            assert(s[next] == ',');
        } else {
            assert(items_suffix(a, k + 1) =~= Seq::<char>::empty());
            assert(next == end);
        }
        lemma_text_start(a[k]);
        assert(s[q] == el[0]);
        lemma_value_text(s, q, a[k]);
        lemma_skip_ws_none(s, next);
        lemma_items_text(s, start, a, k + 1);
        assert(a.take(k).push(a[k]) =~= t1);
    }
}

/// The text of a printable object reads back as the object.
proof fn lemma_object_text(s: Seq<char>, p: int, m: Seq<(Seq<char>, JsonSpec)>)
    requires
        printable(JsonSpec::Object(m)),
        0 <= p,
        p + json_text(JsonSpec::Object(m)).len() <= s.len(),
        s.subrange(p, p + json_text(JsonSpec::Object(m)).len()) == json_text(JsonSpec::Object(m)),
    ensures
        spec_object(s, p) == Ok::<(JsonSpec, int), crate::json::ParseFailure>((JsonSpec::Object(m), p + json_text(JsonSpec::Object(m)).len())),
    decreases m, 2nat, 0int,
{
    let t = json_text(JsonSpec::Object(m));
    let body = members_text(m);
    assert(seq!['{'] + (body + seq!['}']) =~= t);
    lemma_sub_split(s, p, seq!['{'], body + seq!['}']);
    lemma_sub_index(s, p + 1, body + seq!['}']);
    if m.len() > 0 {
        lemma_members_prefix(m, 0);
        assert(m.take(0) =~= Seq::<(Seq<char>, JsonSpec)>::empty());
        assert(members_text(m.take(0)) =~= Seq::<char>::empty());
        assert(body =~= member_text(m[0].0, m[0].1) + members_suffix(m, 1));
        assert(s[p + 1] == (body + seq!['}'])[0]);
        assert(body[0] == '"');
    } else {
        assert(body =~= Seq::<char>::empty());
        assert(s[p + 1] == (body + seq!['}'])[0]);
    }
    lemma_skip_ws_none(s, p + 1);
    lemma_members_text(s, p + 1, m, 0);
    assert(m.take(0) =~= Seq::<(Seq<char>, JsonSpec)>::empty());
    assert(members_text(m.take(0)) =~= Seq::<char>::empty());
}

/// The members of a printable object from the `k`-th on read back as the object.
proof fn lemma_members_text(s: Seq<char>, start: int, m: Seq<(Seq<char>, JsonSpec)>, k: int)
    requires
        unique_keys(m),
        forall|i: int| 0 <= i < m.len() ==> plain_text(#[trigger] m[i].0) && printable(m[i].1),
        0 <= k <= m.len(),
        0 <= start,
        start + members_text(m).len() + 1 <= s.len(),
        s.subrange(start, start + members_text(m).len() + 1) == members_text(m) + seq!['}'],
    ensures
        spec_members(s, start + members_text(m.take(k)).len(), k == 0, m.take(k)) == Ok::<(JsonSpec, int), crate::json::ParseFailure>((JsonSpec::Object(m), start + members_text(m).len() + 1)),
    decreases m, 1nat, m.len() - k,
{
    let body = members_text(m);
    let end = start + body.len();
    let pk = start + members_text(m.take(k)).len();
    lemma_members_prefix(m, k);
    lemma_sub_index(s, start, body + seq!['}']);
    assert(s[end] == (body + seq!['}'])[body.len() as int]);
    if k == m.len() {
        assert(m.take(k) =~= m);
        assert(s[pk] == '}');
    } else {
        let pre = members_text(m.take(k));
        let sep: Seq<char> = if k == 0 {
            Seq::empty()
        } else {
            seq![',']
        };
        let el = member_text(m[k].0, m[k].1);
        assert(members_suffix(m, k) == sep + el + members_suffix(m, k + 1));
        let q = pk + sep.len();
        let next = q + el.len();
        lemma_members_prefix(m, k + 1);
        let t1 = m.take(k + 1);
        assert(t1.drop_last() =~= m.take(k));
        assert(t1.last() == m[k]);
        if k == 0 {
            assert(t1[0] == m[0]);
            assert(members_text(t1) == el);
            assert(m.take(0) =~= Seq::<(Seq<char>, JsonSpec)>::empty());
            assert(members_text(m.take(0)) =~= Seq::<char>::empty());
        } else {
            assert(members_text(t1) == pre + seq![','] + el);
        }
        assert(members_text(t1).len() == pre.len() + sep.len() + el.len());
        assert(next == start + members_text(t1).len());
        assert forall|j: int| 0 <= j < el.len() implies #[trigger] el[j] == s[q + j] by {
            assert(body[(pre.len() + sep.len() + j) as int] == el[j]);
            assert((body + seq!['}'])[(pre.len() + sep.len() + j) as int] == s[start + pre.len() + sep.len() + j]);
        }
        assert(s.subrange(q, next) =~= el);
        if k > 0 {
            assert(body[pre.len() as int] == ',');
            assert((body + seq!['}'])[pre.len() as int] == s[pk]);
        }
        if k + 1 < m.len() {
            let rest = members_suffix(m, k + 1);
            assert(rest == seq![','] + member_text(m[k + 1].0, m[k + 1].1) + members_suffix(m, k + 2));
            assert(body[(pre.len() + sep.len() + el.len()) as int] == rest[0]);
            assert((body + seq!['}'])[(pre.len() + sep.len() + el.len()) as int] == s[next]);
            assert(s[next] == ',');
        } else {
            assert(members_suffix(m, k + 1) =~= Seq::<char>::empty());
            assert(next == end);
        }
        assert(s[q] == el[0]);
        assert(el[0] == '"');
        if k > 0 {
            lemma_skip_ws_none(s, pk + 1);
        }
        assert forall|i: int| 0 <= i < m.take(k).len() implies #[trigger] m.take(k)[i].0 != m[k].0 by {
            assert(m.take(k)[i] == m[i]);
        }
        lemma_member_text(s, q, m[k].0, m[k].1, m.take(k));
        assert forall|i: int| 0 <= i < m.len() implies plain_text(#[trigger] m[i].0) && printable(m[i].1) by {
            let pair = m[i];
            assert(plain_text(pair.0) && printable(pair.1));
        }
        lemma_members_text(s, start, m, k + 1);
        assert(m.take(k).push(m[k]) =~= t1);
    }
}

/// A printable member `"key":value` reads back, added to members that lack its key.
proof fn lemma_member_text(s: Seq<char>, p: int, key: Seq<char>, v: JsonSpec, acc: Seq<(Seq<char>, JsonSpec)>)
    requires
        plain_text(key),
        printable(v),
        forall|i: int| 0 <= i < acc.len() ==> #[trigger] acc[i].0 != key,
        0 <= p,
        p + member_text(key, v).len() <= s.len(),
        s.subrange(p, p + member_text(key, v).len()) == member_text(key, v),
        ends_number(s, p + member_text(key, v).len()),
        no_ws_at(s, p + member_text(key, v).len()),
    ensures
        spec_member(s, p, acc) == Ok::<(Seq<(Seq<char>, JsonSpec)>, int), crate::json::ParseFailure>((acc.push((key, v)), p + member_text(key, v).len())),
    decreases v, 3nat, 0int,
{
    let quoted = seq!['"'] + key + seq!['"'];
    let t = member_text(key, v);
    let vt = json_text(v);
    assert(t =~= quoted + (seq![':'] + vt));
    lemma_sub_split(s, p, quoted, seq![':'] + vt);
    lemma_string_text(s, p, key);
    let e = p + key.len() + 2;
    lemma_sub_split(s, e, seq![':'], vt);
    assert(s[e] == seq![':'][0]) by {
        lemma_sub_index(s, e, seq![':']);
    }
    lemma_skip_ws_none(s, e);
    lemma_value_text(s, e + 1, v);
    lemma_skip_ws_none(s, p + t.len());
    assert(spec_insert_member(acc, key, v) == acc.push((key, v)));
}

/// The text of a printable value (see [`printable`]) parses back as that value.
pub proof fn lemma_parse_printed_value(v: JsonSpec)
    requires
        printable(v),
    ensures
        spec_parse_json(json_text(v)) == Ok::<JsonSpec, crate::json::ParseFailure>(v),
{
    let t = json_text(v);
    assert(t.subrange(0, t.len() as int) =~= t);
    lemma_value_text(t, 0, v);
    lemma_skip_ws_none(t, t.len() as int);
}

proof fn lemma_skip_white_run(t: Seq<char>, a: int, b: int)
    requires
        0 <= a <= b <= t.len(),
        forall|i: int| a <= i < b ==> unicode_white_space(#[trigger] t[i]),
        b < t.len() ==> !unicode_white_space(t[b]),
    ensures
        skip_ws(t, a) == b,
    decreases b - a,
{
    if a < b {
        lemma_skip_white_run(t, a + 1, b);
    }
}

/// The text of a member with the whitespace `w` before and after its colon.
pub open spec fn spaced_member_text(key: Seq<char>, v: JsonSpec, w: Seq<char>) -> Seq<char> {
    seq!['"'] + key + seq!['"'] + w + seq![':'] + w + json_text(v)
}

#[verifier::spinoff_prover]
proof fn lemma_spaced_member_text(
    s: Seq<char>,
    p: int,
    key: Seq<char>,
    v: JsonSpec,
    w: Seq<char>,
    acc: Seq<(Seq<char>, JsonSpec)>,
)
    requires
        plain_text(key),
        printable(v),
        forall|i: int| 0 <= i < w.len() ==> unicode_white_space(#[trigger] w[i]),
        forall|i: int| 0 <= i < acc.len() ==> #[trigger] acc[i].0 != key,
        0 <= p,
        p + spaced_member_text(key, v, w).len() <= s.len(),
        s.subrange(p, p + spaced_member_text(key, v, w).len()) == spaced_member_text(key, v, w),
        ends_number(s, p + spaced_member_text(key, v, w).len()),
        no_ws_at(s, p + spaced_member_text(key, v, w).len()),
    ensures
        spec_member(s, p, acc) == Ok::<(Seq<(Seq<char>, JsonSpec)>, int), crate::json::ParseFailure>(
            (acc.push((key, v)), p + spaced_member_text(key, v, w).len()),
        ),
{
    let quoted = seq!['"'] + key + seq!['"'];
    let t = spaced_member_text(key, v, w);
    let vt = json_text(v);
    let tail = w + seq![':'] + w + vt;
    assert(t =~= quoted + tail);
    lemma_sub_split(s, p, quoted, tail);
    lemma_string_text(s, p, key);
    let e: int = p + key.len() + 2;
    let c: int = e + w.len();
    let pv: int = c + 1 + w.len();
    let end: int = pv + vt.len();
    assert(end == p + t.len());
    lemma_sub_index(s, e, tail);
    assert(skip_ws(s, e) == c) by {
        assert forall|j: int| e <= j < c implies unicode_white_space(#[trigger] s[j]) by {
            assert(tail[j - e] == w[j - e]);
        }
        assert(tail[c - e] == ':');
        lemma_skip_white_run(s, e, c);
    }
    assert(s[c] == ':') by {
        assert(tail[c - e] == ':');
    }
    assert(skip_ws(s, c + 1) == skip_ws(s, pv)) by {
        assert forall|j: int| c + 1 <= j < pv implies unicode_white_space(#[trigger] s[j]) by {
            assert(tail[j - e] == w[j - c - 1]);
        }
        lemma_text_start(v);
        assert(tail[pv - e] == vt[0]);
        assert(s[pv] == vt[0]);
        lemma_skip_white_run(s, c + 1, pv);
        lemma_skip_ws_none(s, pv);
    }
    assert(s.subrange(pv, end) =~= vt) by {
        assert forall|i: int| 0 <= i < vt.len() implies s.subrange(pv, end)[i] == vt[i] by {
            assert(tail[pv - e + i] == vt[i]);
        }
    }
    lemma_value_text(s, pv, v);
    assert(spec_value(s, c + 1) == spec_value(s, pv));
    lemma_skip_ws_none(s, end);
    assert(spec_insert_member(acc, key, v) == acc.push((key, v)));
}

/// The text of the members of `m` from the `k`-th on, each after a comma and the whitespace
/// `w`, with `w` around its colon, then the closing brace.
pub open spec fn spaced_members_rest(m: Seq<(Seq<char>, JsonSpec)>, k: int, w: Seq<char>) -> Seq<char>
    decreases m.len() - k,
{
    if k < 0 || k >= m.len() {
        seq!['}']
    } else {
        seq![','] + w + spaced_member_text(m[k].0, m[k].1, w) + spaced_members_rest(m, k + 1, w)
    }
}

/// The text of an object with the whitespace `w` after each comma between its members and
/// before and after each colon.
pub open spec fn spaced_object_text(m: Seq<(Seq<char>, JsonSpec)>, w: Seq<char>) -> Seq<char> {
    if m.len() == 0 {
        seq!['{', '}']
    } else {
        seq!['{'] + spaced_member_text(m[0].0, m[0].1, w) + spaced_members_rest(m, 1, w)
    }
}

#[verifier::spinoff_prover]
proof fn lemma_spaced_rest(
    t: Seq<char>,
    p: int,
    m: Seq<(Seq<char>, JsonSpec)>,
    k: int,
    w: Seq<char>,
)
    requires
        unique_keys(m),
        forall|i: int| 0 <= i < m.len() ==> plain_text(#[trigger] m[i].0) && printable(m[i].1),
        forall|i: int| 0 <= i < w.len() ==> unicode_white_space(#[trigger] w[i]),
        1 <= k <= m.len(),
        0 <= p,
        p + spaced_members_rest(m, k, w).len() <= t.len(),
        t.subrange(p, p + spaced_members_rest(m, k, w).len()) == spaced_members_rest(m, k, w),
    ensures
        spec_members(t, p, false, m.take(k)) == Ok::<(JsonSpec, int), crate::json::ParseFailure>(
            (JsonSpec::Object(m), p + spaced_members_rest(m, k, w).len()),
        ),
    decreases m.len() - k,
{
    let rest = spaced_members_rest(m, k, w);
    lemma_sub_index(t, p, rest);
    if k == m.len() {
        assert(rest == seq!['}']);
        assert(rest[0] == '}');
        assert(t[p] == '}');
        assert(m.take(k) =~= m);
    } else {
        let mt = spaced_member_text(m[k].0, m[k].1, w);
        let next = spaced_members_rest(m, k + 1, w);
        assert(rest == seq![','] + w + mt + next);
        let q: int = p + 1 + w.len();
        let e: int = q + mt.len();
        assert(t[p] == ',') by {
            assert(rest[0] == ',');
        }
        assert(skip_ws(t, p + 1) == q) by {
            assert forall|j: int| p + 1 <= j < q implies unicode_white_space(#[trigger] t[j]) by {
                assert(rest[j - p] == w[j - p - 1]);
            }
            assert(rest[q - p] == mt[0]);
            lemma_skip_white_run(t, p + 1, q);
        }
        assert(t.subrange(q, e) =~= mt) by {
            assert forall|i: int| 0 <= i < mt.len() implies t.subrange(q, e)[i] == mt[i] by {
                assert(rest[q - p + i] == mt[i]);
            }
        }
        assert(t.subrange(e, e + next.len()) =~= next) by {
            assert forall|i: int| 0 <= i < next.len() implies t.subrange(e, e + next.len())[i]
                == next[i] by {
                assert(rest[e - p + i] == next[i]);
            }
        }
        let acc = m.take(k);
        assert forall|i: int| 0 <= i < acc.len() implies #[trigger] acc[i].0 != m[k].0 by {
            assert(acc[i] == m[i]);
        }
        assert(t[e] == ',' || t[e] == '}') by {
            assert(rest[e - p] == next[0]);
            if k + 1 < m.len() {
                assert(next[0] == ',');
            } else {
                assert(next[0] == '}');
            }
        }
        let pair = m[k];
        assert(plain_text(pair.0) && printable(pair.1));
        lemma_spaced_member_text(t, q, m[k].0, m[k].1, w, acc);
        assert(acc.push((m[k].0, m[k].1)) =~= m.take(k + 1));
        lemma_spaced_rest(t, e, m, k + 1, w);
    }
}

/// Whitespace after the commas between the members of an object, and around their colons,
/// is insignificant: for any object whose keys are distinct plain texts and whose values are
/// printable, and any whitespace `w`, the object's text with `w` after each comma between
/// members and on both sides of each colon parses back as the object.
#[verifier::spinoff_prover]
pub proof fn lemma_object_space_after_commas(m: Seq<(Seq<char>, JsonSpec)>, w: Seq<char>)
    requires
        printable(JsonSpec::Object(m)),
        forall|i: int| 0 <= i < w.len() ==> unicode_white_space(#[trigger] w[i]),
    ensures
        spec_parse_json(spaced_object_text(m, w)) == Ok::<JsonSpec, crate::json::ParseFailure>(
            JsonSpec::Object(m),
        ),
{
    let t = spaced_object_text(m, w);
    let v = JsonSpec::Object(m);
    assert(t[0] == '{');
    lemma_skip_ws_none(t, 0);
    if m.len() == 0 {
        assert(t[1] == '}');
        lemma_skip_ws_none(t, 1);
        assert(m =~= Seq::<(Seq<char>, JsonSpec)>::empty());
        assert(spec_members(t, 1, true, Seq::empty()) == Ok::<(JsonSpec, int), crate::json::ParseFailure>((v, 2)));
        assert(spec_object(t, 0) == Ok::<(JsonSpec, int), crate::json::ParseFailure>((v, 2)));
        assert(spec_value(t, 0) == Ok::<(JsonSpec, int), crate::json::ParseFailure>((v, 2)));
    } else {
        let mt = spaced_member_text(m[0].0, m[0].1, w);
        let rest = spaced_members_rest(m, 1, w);
        let e: int = (1 + mt.len()) as int;
        assert(t == seq!['{'] + mt + rest);
        assert(t.len() == e + rest.len());
        assert(t.subrange(1, e) =~= mt);
        assert(t.subrange(e, e + rest.len()) =~= rest);
        assert(t[1] == '"') by {
            assert(t[1] == mt[0]);
        }
        assert(t[e] == ',' || t[e] == '}') by {
            assert(t[e] == rest[0]);
        }
        let empty = Seq::<(Seq<char>, JsonSpec)>::empty();
        let pair = m[0];
        assert(plain_text(pair.0) && printable(pair.1));
        lemma_spaced_member_text(t, 1, m[0].0, m[0].1, w, empty);
        assert(empty.push((m[0].0, m[0].1)) =~= m.take(1));
        assert forall|i: int| 0 <= i < m.len() implies plain_text(#[trigger] m[i].0) && printable(m[i].1) by {
            let pi = m[i];
            assert(plain_text(pi.0) && printable(pi.1));
        }
        lemma_spaced_rest(t, e, m, 1, w);
        lemma_skip_ws_none(t, 1);
        assert(spec_members(t, 1, true, empty) == Ok::<(JsonSpec, int), crate::json::ParseFailure>((v, t.len() as int)));
        assert(spec_object(t, 0) == Ok::<(JsonSpec, int), crate::json::ParseFailure>((v, t.len() as int)));
        assert(spec_value(t, 0) == Ok::<(JsonSpec, int), crate::json::ParseFailure>((v, t.len() as int)));
    }
}

} // verus!
