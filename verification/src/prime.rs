use vstd::prelude::*;

use crate::json::{JsonNumber, JsonSpec, JsonValue, members_view, lemma_members_view};
use crate::parse::push_char;
use crate::text::json_text;

verus! {

/// Primality of an integer: at least two, and no integer from two up to it divides it.
pub open spec fn spec_is_prime(n: int) -> bool {
    n >= 2 && forall|d: int| 2 <= d < n ==> #[trigger] (n % d) != 0
}

proof fn lemma_no_small_divisor(n: int, d: int, k: int)
    requires
        2 <= d,
        n < d * d,
        d <= k < n,
        n % k == 0,
    ensures
        2 <= n / k < d,
        n % (n / k) == 0,
{
    let m = n / k;
    assert(n == k * m) by (nonlinear_arith)
        requires
            n % k == 0,
            k >= 2,
            m == n / k,
    ;
    assert(m < d) by (nonlinear_arith)
        requires
            n == k * m,
            n < d * d,
            d <= k,
            2 <= d,
    ;
    assert(m >= 2) by (nonlinear_arith)
        requires
            n == k * m,
            k < n,
            k >= 2,
    ;
    assert(n % m == 0) by (nonlinear_arith)
        requires
            n == k * m,
            m >= 2,
    ;
}

/// Whether an integer is prime: it is tried against every divisor from two up to its square
/// root.
pub fn is_prime_integer(num: i64) -> (r: bool)
    ensures
        r == spec_is_prime(num as int),
{
    if num < 2 {
        return false;
    }
    if num == 2 {
        return true;
    }
    let mut d: i64 = 2;
    while d <= num / d
        invariant
            2 <= d,
            3 <= num,
            forall|k: int| 2 <= k < d ==> #[trigger] (num as int % k) != 0,
        decreases num - d,
    {
        assert(d * d <= num) by (nonlinear_arith)
            requires
                d <= num / d,
                d >= 2,
                num >= 3,
        ;
        assert(d < num) by (nonlinear_arith)
            requires
                d * d <= num,
                d >= 2,
        ;
        if num % d == 0 {
            assert((num as int % d as int) == 0);
            assert(!spec_is_prime(num as int));
            return false;
        }
        d = d + 1;
    }
    assert(num < d * d) by (nonlinear_arith)
        requires
            d > num / d,
            d >= 2,
            num >= 3,
    ;
    assert forall|k: int| 2 <= k < num implies #[trigger] (num as int % k) != 0 by {
        if k >= d && num as int % k == 0 {
            lemma_no_small_divisor(num as int, d as int, k);
            let m = num as int / k;
            assert(num as int % m != 0);
        }
    }
    true
}

/// The first member of an object with the given key, if any.
pub open spec fn member_value(m: Seq<(Seq<char>, JsonSpec)>, key: Seq<char>) -> Option<JsonSpec>
    decreases m.len(),
{
    if m.len() == 0 {
        None
    } else if m[0].0 == key {
        Some(m[0].1)
    } else {
        member_value(m.drop_first(), key)
    }
}

/// The number of a well-formed primality request: an object whose `method` is the string
/// `isPrime` and whose `number` is a number.
pub open spec fn spec_request_number(v: JsonSpec) -> Option<crate::json::NumberView> {
    match v {
        JsonSpec::Object(m) => if member_value(m, "method"@) == Some(JsonSpec::Str("isPrime"@)) {
            match member_value(m, "number"@) {
                Some(JsonSpec::Number(n)) => Some(n),
                _ => None,
            }
        } else {
            None
        },
        _ => None,
    }
}

/// The member of `members` with the given key, if any.
pub fn get_member<'a>(members: &'a Vec<(String, JsonValue)>, key: &str) -> (r: Option<&'a JsonValue>)
    ensures
        match member_value(members_view(members@), key@) {
            Some(v) => r is Some && r->Some_0@ == v,
            None => r is None,
        },
{
    proof {
        lemma_members_view(members@);
    }
    let ghost m = members_view(members@);
    let mut i: usize = 0;
    assert(m.skip(0) =~= m);
    while i < members.len()
        invariant
            i <= members@.len(),
            m == members_view(members@),
            m.len() == members@.len(),
            forall|k: int| 0 <= k < members@.len() ==> #[trigger] m[k] == (members@[k].0@, members@[k].1@),
            member_value(m, key@) == member_value(m.skip(i as int), key@),
        decreases members@.len() - i,
    {
        assert(m.skip(i as int).drop_first() =~= m.skip(i + 1));
        if str_eq(members[i].0.as_str(), key) {
            return Some(&members[i].1);
        }
        i += 1;
    }
    None
}

/// Whether two texts are equal: the same characters in the same order.
pub(crate) fn str_eq(a: &str, b: &str) -> (r: bool)
    ensures
        r == (a@ == b@),
{
    let n = a.unicode_len();
    if n != b.unicode_len() {
        return false;
    }
    let mut i: usize = 0;
    while i < n
        invariant
            i <= n,
            n == a@.len(),
            n == b@.len(),
            forall|k: int| 0 <= k < i ==> a@[k] == b@[k],
        decreases n - i,
    {
        if a.get_char(i) != b.get_char(i) {
            return false;
        }
        i += 1;
    }
    assert(a@ =~= b@);
    true
}

/// The number of a primality request, as [`spec_request_number`] says; `None` for a text
/// that did not parse.
pub fn extract_number<E>(json_result: &Result<JsonValue, E>) -> (r: Option<JsonNumber>)
    ensures
        match json_result {
            Ok(v) => match spec_request_number(v@) {
                Some(n) => r is Some && r->Some_0@ == n,
                None => r is None,
            },
            Err(_) => r is None,
        },
{
    match json_result {
        Err(_) => None,
        Ok(json) => {
            if let JsonValue::Object(obj) = json {
                let method = get_member(obj, "method");
                let is_prime_method = match method {
                    Some(JsonValue::String(m)) => str_eq(m.as_str(), "isPrime"),
                    _ => false,
                };
                if !is_prime_method {
                    return None;
                }
                match get_member(obj, "number") {
                    Some(JsonValue::Number(n)) => Some(n.copy()),
                    _ => None,
                }
            } else {
                None
            }
        },
    }
}

/// The model of a primality response.
pub open spec fn prime_response_value(prime: bool) -> JsonSpec {
    JsonSpec::Object(
        seq![("method"@, JsonSpec::Str("isPrime"@)), ("prime"@, JsonSpec::Boolean(prime))],
    )
}

/// The response to a well-formed primality request: `{"method":"isPrime","prime":...}` and a
/// newline.
pub fn prime_response(prime: bool) -> (r: String)
    ensures
        r@ == json_text(prime_response_value(prime)).push('\n'),
{
    let mut members: Vec<(String, JsonValue)> = Vec::new();
    members.push((String::from_str("method"), JsonValue::String(String::from_str("isPrime"))));
    members.push((String::from_str("prime"), JsonValue::Boolean(prime)));
    proof {
        lemma_members_view(members@);
        assert(members_view(members@) =~= seq![
            ("method"@, JsonSpec::Str("isPrime"@)),
            ("prime"@, JsonSpec::Boolean(prime)),
        ]);
    }
    let value = JsonValue::Object(members);
    let mut out = value.to_string();
    push_char(&mut out, '\n');
    out
}

/// The response to a malformed request.
pub fn malformed_response() -> (r: String)
    ensures
        r@ == seq!['{', '\n'],
{
    let mut out = String::new();
    push_char(&mut out, '{');
    push_char(&mut out, '\n');
    out
}

} // verus!
