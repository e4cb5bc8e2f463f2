use vstd::prelude::*;

verus! {

/// A JSON number, held exactly as a canonical decimal: its value is
/// `(-1)^negative * digits / 10^scale`, where `digits` are read as a decimal integer.
/// Canonical means: no leading zero digit, no trailing zero digit after the point
/// (when `scale > 0`), and zero is written with no digits, not negative and scale 0.
#[derive(Debug, PartialEq)]
pub struct JsonNumber {
    negative: bool,
    digits: Vec<u8>,
    scale: usize,
}

/// A JSON value. An object keeps its members in the order in which their keys first
/// appeared; a later member with a key that is already present replaces that member's value.
#[derive(Debug, PartialEq)]
pub enum JsonValue {
    Object(Vec<(String, JsonValue)>),
    Array(Vec<JsonValue>),
    String(String),
    Number(JsonNumber),
    Boolean(bool),
    Null,
}

/// Why a text is not accepted as JSON.
#[derive(Debug, PartialEq, Eq)]
pub enum ParseError {
    UnexpectedJsonEnd,
    UnexpectedSymbol(char),
    UnexpectedStringEnd,
    UnexpectedNumberEnd,
}

/// The outcome of a parse that did not produce a value: either a [`ParseError`], or a text
/// that this parser does not handle: an escape sequence other than a backslash followed by
/// one of `"`, `\`, `/`, `n`, `r`, `t`, or a newline, carriage return or tab character (so
/// `\b`, `\f` and `\u`), or a `-` not followed by a digit.
#[derive(Debug, PartialEq, Eq)]
pub enum ParseFailure {
    Error(ParseError),
    Unsupported,
}

/// The mathematical model of a [`JsonNumber`].
pub struct NumberView {
    pub negative: bool,
    pub digits: Seq<u8>,
    pub scale: nat,
}

/// The mathematical model of a [`JsonValue`].
pub enum JsonSpec {
    Object(Seq<(Seq<char>, JsonSpec)>),
    Array(Seq<JsonSpec>),
    Str(Seq<char>),
    Number(NumberView),
    Boolean(bool),
    Null,
}

impl View for JsonNumber {
    type V = NumberView;

    closed spec fn view(&self) -> NumberView {
        NumberView { negative: self.negative, digits: self.digits@, scale: self.scale as nat }
    }
}

impl View for JsonValue {
    type V = JsonSpec;

    open spec fn view(&self) -> JsonSpec {
        value_view(*self)
    }
}

/// The view of a value.
pub open spec fn value_view(v: JsonValue) -> JsonSpec
    decreases v, 0nat,
{
        match v {
            JsonValue::Object(members) => {
                proof {
                    assert(decreases_to!(members => members@));
                }
                JsonSpec::Object(members_view(members@))
            },
            JsonValue::Array(items) => {
                proof {
                    assert(decreases_to!(items => items@));
                }
                JsonSpec::Array(values_view(items@))
            },
            JsonValue::String(s) => JsonSpec::Str(s@),
            JsonValue::Number(n) => JsonSpec::Number(n@),
            JsonValue::Boolean(b) => JsonSpec::Boolean(b),
            JsonValue::Null => JsonSpec::Null,
        }
}

/// The view of a sequence of values, element by element.
pub open spec fn values_view(items: Seq<JsonValue>) -> Seq<JsonSpec>
    decreases items, 1nat,
{
    if items.len() == 0 {
        Seq::empty()
    } else {
        values_view(items.drop_last()).push(value_view(items.last()))
    }
}

/// The view of a sequence of object members, member by member.
pub open spec fn members_view(members: Seq<(String, JsonValue)>) -> Seq<(Seq<char>, JsonSpec)>
    decreases members, 1nat,
{
    if members.len() == 0 {
        Seq::empty()
    } else {
        proof {
            assert(decreases_to!(members => members.last()));
        }
        members_view(members.drop_last()).push((members.last().0@, value_view(members.last().1)))
    }
}

pub proof fn lemma_values_view(items: Seq<JsonValue>)
    ensures
        values_view(items).len() == items.len(),
        forall|i: int| 0 <= i < items.len() ==> #[trigger] values_view(items)[i] == items[i]@,
    decreases items.len(),
{
    if items.len() > 0 {
        lemma_values_view(items.drop_last());
    }
}

pub proof fn lemma_members_view(members: Seq<(String, JsonValue)>)
    ensures
        members_view(members).len() == members.len(),
        forall|i: int|
            0 <= i < members.len() ==> #[trigger] members_view(members)[i] == (
                members[i].0@,
                members[i].1@,
            ),
    decreases members.len(),
{
    if members.len() > 0 {
        lemma_members_view(members.drop_last());
    }
}

/// A decimal digit, as a value in 0..10.
pub open spec fn is_digit_value(d: u8) -> bool {
    d < 10
}

/// Whether a number model is in canonical form.
pub open spec fn canonical_number(n: NumberView) -> bool {
    &&& forall|i: int| 0 <= i < n.digits.len() ==> is_digit_value(#[trigger] n.digits[i])
    &&& n.digits.len() > 0 ==> n.digits[0] != 0
    &&& n.scale > 0 ==> n.digits.len() > 0 && n.digits.last() != 0
    &&& n.digits.len() == 0 ==> !n.negative && n.scale == 0
}

/// The digits of a sequence with its leading zeros removed.
pub open spec fn strip_leading_zeros(d: Seq<u8>) -> Seq<u8>
    decreases d.len(),
{
    if d.len() > 0 && d[0] == 0 {
        strip_leading_zeros(d.drop_first())
    } else {
        d
    }
}

/// The digits of a sequence with its trailing zeros removed.
pub open spec fn strip_trailing_zeros(d: Seq<u8>) -> Seq<u8>
    decreases d.len(),
{
    if d.len() > 0 && d.last() == 0 {
        strip_trailing_zeros(d.drop_last())
    } else {
        d
    }
}

/// The canonical number written with a sign, the digits before the point and the digits
/// after it.
pub open spec fn decimal_number(negative: bool, int_digits: Seq<u8>, frac_digits: Seq<u8>) -> NumberView {
    let frac = strip_trailing_zeros(frac_digits);
    let digits = strip_leading_zeros(int_digits + frac);
    if digits.len() == 0 {
        NumberView { negative: false, digits: Seq::empty(), scale: 0 }
    } else {
        NumberView { negative, digits, scale: frac.len() }
    }
}

/// The index of the last digit of `d`, if any, that is not zero, plus one.
fn trailing_zeros_start(d: &Vec<u8>) -> (n: usize)
    ensures
        n <= d@.len(),
        strip_trailing_zeros(d@) == d@.subrange(0, n as int),
{
    let mut n = d.len();
    assert(d@.subrange(0, n as int) =~= d@);
    while n > 0 && d[n - 1] == 0
        invariant
            n <= d@.len(),
            strip_trailing_zeros(d@) == strip_trailing_zeros(d@.subrange(0, n as int)),
        decreases n,
    {
        assert(d@.subrange(0, n as int).drop_last() =~= d@.subrange(0, n - 1));
        n = n - 1;
    }
    n
}


/// The decimal digits of a natural number, most significant first, without leading zeros
/// (none for zero).
pub open spec fn nat_digits(n: nat) -> Seq<u8>
    decreases n,
{
    if n == 0 {
        Seq::empty()
    } else {
        nat_digits(n / 10).push((n % 10) as u8)
    }
}

pub proof fn lemma_nat_digits(n: nat)
    ensures
        forall|i: int| 0 <= i < nat_digits(n).len() ==> #[trigger] nat_digits(n)[i] < 10,
        n > 0 ==> nat_digits(n).len() > 0 && nat_digits(n)[0] != 0,
        n == 0 ==> nat_digits(n).len() == 0,
    decreases n,
{
    if n > 0 {
        lemma_nat_digits(n / 10);
        if n / 10 == 0 {
            assert(nat_digits(n / 10).len() == 0);
        }
    }
}

proof fn lemma_strip_leading_zeros(d: Seq<u8>)
    ensures
        exists|k: int| 0 <= k <= d.len() && strip_leading_zeros(d) == #[trigger] d.skip(k),
        strip_leading_zeros(d).len() > 0 ==> strip_leading_zeros(d)[0] != 0,
        strip_leading_zeros(d).len() <= d.len(),
        d.len() > 0 && d.last() != 0 ==> strip_leading_zeros(d).len() > 0
            && strip_leading_zeros(d).last() == d.last(),
    decreases d.len(),
{
    if d.len() > 0 && d[0] == 0 {
        lemma_strip_leading_zeros(d.drop_first());
        let k = choose|k: int|
            0 <= k <= d.drop_first().len() && strip_leading_zeros(d.drop_first())
                == #[trigger] d.drop_first().skip(k);
        assert(d.drop_first().skip(k) =~= d.skip(k + 1));
    } else {
        assert(d.skip(0) =~= d);
    }
}

proof fn lemma_strip_trailing_zeros(d: Seq<u8>)
    ensures
        exists|k: int| 0 <= k <= d.len() && strip_trailing_zeros(d) == #[trigger] d.take(k),
        strip_trailing_zeros(d).len() > 0 ==> strip_trailing_zeros(d).last() != 0,
    decreases d.len(),
{
    if d.len() > 0 && d.last() == 0 {
        lemma_strip_trailing_zeros(d.drop_last());
        let k = choose|k: int|
            0 <= k <= d.drop_last().len() && strip_trailing_zeros(d.drop_last())
                == #[trigger] d.drop_last().take(k);
        assert(d.drop_last().take(k) =~= d.take(k));
    } else {
        assert(d.take(d.len() as int) =~= d);
    }
}

/// A number built from digit sequences is in canonical form.
pub proof fn lemma_decimal_number_canonical(negative: bool, int_digits: Seq<u8>, frac_digits: Seq<u8>)
    requires
        forall|i: int| 0 <= i < int_digits.len() ==> #[trigger] int_digits[i] < 10,
        forall|i: int| 0 <= i < frac_digits.len() ==> #[trigger] frac_digits[i] < 10,
    ensures
        canonical_number(decimal_number(negative, int_digits, frac_digits)),
{
    let frac = strip_trailing_zeros(frac_digits);
    lemma_strip_trailing_zeros(frac_digits);
    let all = int_digits + frac;
    let digits = strip_leading_zeros(all);
    lemma_strip_leading_zeros(all);
    let k = choose|k: int| 0 <= k <= all.len() && digits == #[trigger] all.skip(k);
    assert forall|i: int| 0 <= i < digits.len() implies #[trigger] digits[i] < 10 by {
        assert(digits[i] == all[i + k]);
        if i + k < int_digits.len() {
        } else {
            let j = choose|j: int| 0 <= j <= frac_digits.len() && frac == #[trigger] frac_digits.take(j);
            assert(frac[i + k - int_digits.len()] == frac_digits[i + k - int_digits.len()]);
        }
    }
    if frac.len() > 0 {
        assert(all.last() == frac.last());
    }
}

impl JsonNumber {
    #[verifier::type_invariant]
    spec fn well_formed(self) -> bool {
        canonical_number(self@)
    }

    /// Whether the number is below zero.
    pub fn negative(&self) -> (r: bool)
        ensures
            r == self@.negative,
    {
        self.negative
    }

    /// The number of digits after the decimal point.
    pub fn scale(&self) -> (r: usize)
        ensures
            r == self@.scale,
    {
        self.scale
    }

    /// The decimal digits, most significant first.
    pub fn digits(&self) -> (r: &Vec<u8>)
        ensures
            r@ == self@.digits,
            canonical_number(self@),
    {
        proof {
            use_type_invariant(self);
        }
        &self.digits
    }

    /// The number that a natural number is.
    pub fn from_u64(value: u64) -> (n: JsonNumber)
        ensures
            n@ == (NumberView { negative: false, digits: nat_digits(value as nat), scale: 0 }),
    {
        let mut digits: Vec<u8> = Vec::new();
        push_nat_digits(&mut digits, value);
        proof {
            assert(digits@ =~= nat_digits(value as nat));
            lemma_nat_digits(value as nat);
        }
        JsonNumber { negative: false, digits, scale: 0 }
    }

    /// The number written with the given sign, digits before the point and digits after it,
    /// in canonical form.
    pub fn from_parts(negative: bool, int_digits: Vec<u8>, frac_digits: Vec<u8>) -> (n: JsonNumber)
        requires
            forall|i: int| 0 <= i < int_digits@.len() ==> #[trigger] int_digits@[i] < 10,
            forall|i: int| 0 <= i < frac_digits@.len() ==> #[trigger] frac_digits@[i] < 10,
        ensures
            n@ == decimal_number(negative, int_digits@, frac_digits@),
    {
        let frac_len = trailing_zeros_start(&frac_digits);
        let ghost frac = frac_digits@.subrange(0, frac_len as int);
        let mut all: Vec<u8> = Vec::new();
        let mut i: usize = 0;
        while i < int_digits.len()
            invariant
                i <= int_digits@.len(),
                all@ == int_digits@.subrange(0, i as int),
            decreases int_digits@.len() - i,
        {
            all.push(int_digits[i]);
            i += 1;
        }
        let mut j: usize = 0;
        while j < frac_len
            invariant
                j <= frac_len <= frac_digits@.len(),
                all@ == int_digits@ + frac_digits@.subrange(0, j as int),
            decreases frac_len - j,
        {
            all.push(frac_digits[j]);
            j += 1;
        }
        assert(all@ == int_digits@ + frac);
        let mut k: usize = 0;
        assert(all@.subrange(0, all@.len() as int) =~= all@);
        while k < all.len() && all[k] == 0
            invariant
                k <= all@.len(),
                strip_leading_zeros(all@) == strip_leading_zeros(all@.subrange(k as int, all@.len() as int)),
            decreases all@.len() - k,
        {
            assert(all@.subrange(k as int, all@.len() as int).drop_first() =~= all@.subrange(k + 1, all@.len() as int));
            k += 1;
        }
        let mut digits: Vec<u8> = Vec::new();
        let mut m: usize = k;
        while m < all.len()
            invariant
                k <= m <= all@.len(),
                digits@ == all@.subrange(k as int, m as int),
            decreases all@.len() - m,
        {
            digits.push(all[m]);
            m += 1;
        }
        assert(strip_leading_zeros(all@) == digits@);
        assert(frac.len() == frac_len);
        proof {
            lemma_decimal_number_canonical(negative, int_digits@, frac_digits@);
        }
        if digits.len() == 0 {
            assert(digits@ =~= Seq::<u8>::empty());
            JsonNumber { negative: false, digits, scale: 0 }
        } else {
            JsonNumber { negative, digits, scale: frac_len }
        }
    }

}

fn push_nat_digits(out: &mut Vec<u8>, n: u64)
    ensures
        final(out)@ == old(out)@ + nat_digits(n as nat),
    decreases n,
{
    if n > 0 {
        push_nat_digits(out, n / 10);
        out.push((n % 10) as u8);
        proof {
            assert(old(out)@ + nat_digits(n as nat) =~= old(out)@ + nat_digits((n / 10) as nat) + seq![(n % 10) as u8]);
        }
    } else {
        assert(old(out)@ + nat_digits(0) =~= old(out)@);
    }
}

} // verus!

verus! {

impl JsonNumber {
    /// A copy of the number.
    pub fn copy(&self) -> (r: JsonNumber)
        ensures
            r@ == self@,
    {
        proof {
            use_type_invariant(self);
        }
        let mut digits: Vec<u8> = Vec::new();
        let mut i: usize = 0;
        while i < self.digits.len()
            invariant
                i <= self.digits@.len(),
                digits@ == self.digits@.subrange(0, i as int),
            decreases self.digits@.len() - i,
        {
            digits.push(self.digits[i]);
            i += 1;
        }
        assert(digits@ =~= self.digits@);
        JsonNumber { negative: self.negative, digits, scale: self.scale }
    }
}

impl Clone for JsonValue {
    /// A copy of the value, with the same model.
    fn clone(&self) -> (r: JsonValue)
        ensures
            r@ == self@,
        decreases self,
    {
        match self {
            JsonValue::Object(members) => {
                let mut out: Vec<(String, JsonValue)> = Vec::new();
                let mut i: usize = 0;
                while i < members.len()
                    invariant
                        i <= members@.len(),
                        out@.len() == i,
                        forall|k: int| 0 <= k < i ==> #[trigger] out@[k].0@ == members@[k].0@ && out@[k].1@ == members@[k].1@,
                        *self == JsonValue::Object(*members),
                    decreases members@.len() - i,
                {
                    proof {
                        assert(decreases_to!(*self => (*self)->Object_0));
                        assert(decreases_to!(*members => members@));
                        assert(decreases_to!(members@ => members@[i as int]));
                        assert(decreases_to!(members@[i as int] => members@[i as int].1));
                    }
                    let key = members[i].0.clone();
                    let value = members[i].1.clone();
                    out.push((key, value));
                    i += 1;
                }
                proof {
                    lemma_members_view(out@);
                    lemma_members_view(members@);
                    assert(members_view(out@) =~= members_view(members@));
                }
                JsonValue::Object(out)
            },
            JsonValue::Array(items) => {
                let mut out: Vec<JsonValue> = Vec::new();
                let mut i: usize = 0;
                while i < items.len()
                    invariant
                        i <= items@.len(),
                        out@.len() == i,
                        forall|k: int| 0 <= k < i ==> #[trigger] out@[k]@ == items@[k]@,
                        *self == JsonValue::Array(*items),
                    decreases items@.len() - i,
                {
                    proof {
                        assert(decreases_to!(*self => (*self)->Array_0));
                        assert(decreases_to!(*items => items@));
                        assert(decreases_to!(items@ => items@[i as int]));
                    }
                    let value = items[i].clone();
                    out.push(value);
                    i += 1;
                }
                proof {
                    lemma_values_view(out@);
                    lemma_values_view(items@);
                    assert(values_view(out@) =~= values_view(items@));
                }
                JsonValue::Array(out)
            },
            JsonValue::String(s) => JsonValue::String(s.clone()),
            JsonValue::Number(n) => JsonValue::Number(n.copy()),
            JsonValue::Boolean(b) => JsonValue::Boolean(*b),
            JsonValue::Null => JsonValue::Null,
        }
    }
}

} // verus!
