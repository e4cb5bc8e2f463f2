use vstd::prelude::*;

use crate::json::{
    lemma_members_view, lemma_values_view, members_view, values_view, JsonNumber, JsonSpec,
    JsonValue, NumberView,
};

verus! {

/// The character of a decimal digit.
pub open spec fn digit_char(d: u8) -> char {
    (d + 48) as char
}

/// The characters of a sequence of decimal digits.
pub open spec fn digits_text(d: Seq<u8>) -> Seq<char> {
    d.map_values(|x: u8| digit_char(x))
}

/// `n` zero characters.
pub open spec fn zeros_text(n: nat) -> Seq<char> {
    Seq::new(n, |i: int| '0')
}

/// A number in decimal notation: an optional minus sign, the digits before the point (at
/// least `0`), and, when the scale is positive, a point and exactly `scale` digits.
pub open spec fn number_text(n: NumberView) -> Seq<char> {
    let len = n.digits.len();
    let body = if n.scale == 0 {
        if len == 0 {
            seq!['0']
        } else {
            digits_text(n.digits)
        }
    } else if n.scale >= len {
        seq!['0', '.'] + zeros_text((n.scale - len) as nat) + digits_text(n.digits)
    } else {
        digits_text(n.digits.take(len - n.scale)) + seq!['.'] + digits_text(
            n.digits.skip(len - n.scale),
        )
    };
    if n.negative {
        seq!['-'] + body
    } else {
        body
    }
}

/// The text of a value: objects as `{"key":value,...}`, arrays as `[value,...]`, strings
/// between double quotes with their characters as they are, numbers in decimal notation,
/// and `true`, `false`, `null`. No whitespace is added.
pub open spec fn json_text(v: JsonSpec) -> Seq<char>
    decreases v, 0nat,
{
    match v {
        JsonSpec::Object(m) => seq!['{'] + members_text(m) + seq!['}'],
        JsonSpec::Array(a) => seq!['['] + items_text(a) + seq![']'],
        JsonSpec::Str(s) => seq!['"'] + s + seq!['"'],
        JsonSpec::Number(n) => number_text(n),
        JsonSpec::Boolean(b) => if b {
            seq!['t', 'r', 'u', 'e']
        } else {
            seq!['f', 'a', 'l', 's', 'e']
        },
        JsonSpec::Null => seq!['n', 'u', 'l', 'l'],
    }
}

/// The texts of values, separated by commas.
pub open spec fn items_text(a: Seq<JsonSpec>) -> Seq<char>
    decreases a, 1nat,
{
    if a.len() == 0 {
        Seq::empty()
    } else if a.len() == 1 {
        json_text(a[0])
    } else {
        items_text(a.drop_last()) + seq![','] + json_text(a.last())
    }
}

/// The text of one member: `"key":value`.
pub open spec fn member_text(key: Seq<char>, v: JsonSpec) -> Seq<char>
    decreases v, 1nat,
{
    seq!['"'] + key + seq!['"', ':'] + json_text(v)
}

/// The texts of members, separated by commas.
pub open spec fn members_text(m: Seq<(Seq<char>, JsonSpec)>) -> Seq<char>
    decreases m, 2nat,
{
    if m.len() == 0 {
        Seq::empty()
    } else {
        proof {
            assert(decreases_to!(m => m.last()));
        }
        if m.len() == 1 {
            member_text(m[0].0, m[0].1)
        } else {
            members_text(m.drop_last()) + seq![','] + member_text(m.last().0, m.last().1)
        }
    }
}

fn push_digit_chars(out: &mut String, digits: &Vec<u8>, from: usize, to: usize)
    requires
        from <= to <= digits@.len(),
        forall|i: int| 0 <= i < digits@.len() ==> #[trigger] digits@[i] < 10,
    ensures
        final(out)@ == old(out)@ + digits_text(digits@.subrange(from as int, to as int)),
{
    let ghost start = out@;
    let mut i = from;
    while i < to
        invariant
            from <= i <= to <= digits@.len(),
            forall|k: int| 0 <= k < digits@.len() ==> #[trigger] digits@[k] < 10,
            out@ == start + digits_text(digits@.subrange(from as int, i as int)),
        decreases to - i,
    {
        let c = (digits[i] + 48) as char;
        crate::parse::push_char(out, c);
        i += 1;
        assert(digits_text(digits@.subrange(from as int, i as int)) =~= digits_text(
            digits@.subrange(from as int, i - 1),
        ).push(c));
    }
}

impl JsonNumber {
    /// The number in decimal notation.
    pub fn to_text(&self) -> (r: String)
        ensures
            r@ == number_text(self@),
    {
        let digits = self.digits();
        let negative = self.negative();
        let scale = self.scale();
        let mut out = String::new();
        if negative {
            crate::parse::push_char(&mut out, '-');
        }
        let ghost prefix = out@;
        let len = digits.len();
        if scale == 0 {
            if len == 0 {
                crate::parse::push_char(&mut out, '0');
            } else {
                push_digit_chars(&mut out, digits, 0, len);
                assert(digits@.subrange(0, len as int) =~= digits@);
            }
        } else if scale >= len {
            crate::parse::push_char(&mut out, '0');
            crate::parse::push_char(&mut out, '.');
            let mut k: usize = 0;
            while k < scale - len
                invariant
                    k <= scale - len,
                    len == digits@.len(),
                    scale >= len,
                    out@ == prefix + seq!['0', '.'] + zeros_text(k as nat),
                decreases scale - len - k,
            {
                crate::parse::push_char(&mut out, '0');
                k += 1;
                assert(zeros_text(k as nat) =~= zeros_text((k - 1) as nat).push('0'));
            }
            push_digit_chars(&mut out, digits, 0, len);
            assert(digits@.subrange(0, len as int) =~= digits@);
        } else {
            let split = len - scale;
            push_digit_chars(&mut out, digits, 0, split);
            crate::parse::push_char(&mut out, '.');
            push_digit_chars(&mut out, digits, split, len);
            assert(digits@.subrange(0, split as int) =~= digits@.take(split as int));
            assert(digits@.subrange(split as int, len as int) =~= digits@.skip(split as int));
        }
        assert(out@ =~= number_text(self@));
        out
    }
}

impl JsonValue {
    /// The text of the value, as [`json_text`] gives it.
    pub fn to_string(&self) -> (r: String)
        ensures
            r@ == json_text(self@),
        decreases self,
    {
        match self {
            JsonValue::Object(members) => {
                let ghost m = members_view(members@);
                proof {
                    lemma_members_view(members@);
                }
                let mut out = String::new();
                crate::parse::push_char(&mut out, '{');
                let mut i: usize = 0;
                while i < members.len()
                    invariant
                        i <= members@.len(),
                        m == members_view(members@),
                        m.len() == members@.len(),
                        forall|k: int| 0 <= k < members@.len() ==> #[trigger] m[k] == (members@[k].0@, members@[k].1@),
                        out@ == seq!['{'] + members_text(m.take(i as int)),
                        *self == JsonValue::Object(*members),
                    decreases members@.len() - i,
                {
                    let ghost before = out@;
                    if i > 0 {
                        crate::parse::push_char(&mut out, ',');
                    }
                    crate::parse::push_char(&mut out, '"');
                    out.append(members[i].0.as_str());
                    crate::parse::push_char(&mut out, '"');
                    crate::parse::push_char(&mut out, ':');
                    proof {
                        assert(decreases_to!(*self => (*self)->Object_0));
                        assert((*self)->Object_0 == *members);
                        assert(decreases_to!(*members => members@));
                        assert(decreases_to!(members@ => members@[i as int]));
                        assert(decreases_to!(members@[i as int] => members@[i as int].1));
                        assert(decreases_to!(*self => members@[i as int].1));
                    }
                    let inner = members[i].1.to_string();
                    out.append(inner.as_str());
                    proof {
                        let mt = member_text(m[i as int].0, m[i as int].1);
                        assert(mt == seq!['"'] + members@[i as int].0@ + seq!['"', ':'] + inner@);
                        assert(m.take(i + 1).drop_last() =~= m.take(i as int));
                        assert(m.take(i + 1).last() == m[i as int]);
                        if i == 0 {
                            assert(m.take(1)[0] == m[0]);
                            assert(members_text(m.take(1)) == mt);
                            assert(m.take(0) =~= Seq::<(Seq<char>, JsonSpec)>::empty());
                            assert(out@ =~= seq!['{'] + mt);
                        } else {
                            assert(members_text(m.take(i + 1)) == members_text(m.take(i as int)) + seq![','] + mt);
                            assert(out@ =~= before + seq![','] + mt);
                        }
                    }
                    i += 1;
                    assert(out@ =~= seq!['{'] + members_text(m.take(i as int)));
                }
                crate::parse::push_char(&mut out, '}');
                assert(m.take(members@.len() as int) =~= m);
                out
            },
            JsonValue::Array(items) => {
                let ghost a = values_view(items@);
                proof {
                    lemma_values_view(items@);
                }
                let mut out = String::new();
                crate::parse::push_char(&mut out, '[');
                let mut i: usize = 0;
                while i < items.len()
                    invariant
                        i <= items@.len(),
                        a == values_view(items@),
                        a.len() == items@.len(),
                        forall|k: int| 0 <= k < items@.len() ==> #[trigger] a[k] == items@[k]@,
                        out@ == seq!['['] + items_text(a.take(i as int)),
                        *self == JsonValue::Array(*items),
                    decreases items@.len() - i,
                {
                    if i > 0 {
                        crate::parse::push_char(&mut out, ',');
                    }
                    proof {
                        assert(decreases_to!(*self => (*self)->Array_0));
                        assert((*self)->Array_0 == *items);
                        assert(decreases_to!(*items => items@));
                        assert(decreases_to!(items@ => items@[i as int]));
                        assert(decreases_to!(*self => items@[i as int]));
                    }
                    let inner = items[i].to_string();
                    out.append(inner.as_str());
                    proof {
                        assert(a.take(i + 1).drop_last() =~= a.take(i as int));
                        assert(a.take(i + 1).last() == a[i as int]);
                    }
                    i += 1;
                    assert(out@ =~= seq!['['] + items_text(a.take(i as int)));
                }
                crate::parse::push_char(&mut out, ']');
                assert(a.take(items@.len() as int) =~= a);
                out
            },
            JsonValue::String(text) => {
                let mut out = String::new();
                crate::parse::push_char(&mut out, '"');
                out.append(text.as_str());
                crate::parse::push_char(&mut out, '"');
                out
            },
            JsonValue::Number(n) => n.to_text(),
            JsonValue::Boolean(b) => {
                let mut out = String::new();
                if *b {
                    out.append("true");
                    proof {
                        reveal_strlit("true");
                    }
                } else {
                    out.append("false");
                    proof {
                        reveal_strlit("false");
                    }
                }
                assert(out@ =~= json_text(self@));
                out
            },
            JsonValue::Null => {
                let mut out = String::new();
                out.append("null");
                proof {
                    reveal_strlit("null");
                }
                assert(out@ =~= json_text(self@));
                out
            },
        }
    }
}

} // verus!
