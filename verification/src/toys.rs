use vstd::prelude::*;

use crate::parse::{chars_of, push_char};

verus! {

/// The number of characters of `s` before the first `c` (all of them when there is none).
pub open spec fn prefix_len(s: Seq<char>, c: char) -> nat
    decreases s.len(),
{
    if s.len() == 0 || s[0] == c {
        0
    } else {
        1 + prefix_len(s.drop_first(), c)
    }
}

/// The pieces of `s` between the occurrences of `sep`, as `str::split` gives them: one
/// piece more than there are separators, empty pieces included.
pub open spec fn split_on(s: Seq<char>, sep: char) -> Seq<Seq<char>>
    decreases s.len(),
{
    let k = prefix_len(s, sep);
    if k >= s.len() {
        seq![s]
    } else {
        seq![s.take(k as int)] + split_on(s.skip(k + 1 as int), sep)
    }
}

/// What `str::parse::<i32>` gives for a text: an optional `+` or `-`, then one or more ASCII
/// digits and nothing else, whose value fits in an `i32`.
pub open spec fn spec_parse_i32(s: Seq<char>) -> Option<i32> {
    let negative = s.len() > 0 && s[0] == '-';
    let body = if s.len() > 0 && (s[0] == '-' || s[0] == '+') {
        s.skip(1)
    } else {
        s
    };
    if body.len() == 0 || exists|i: int| 0 <= i < body.len() && !('0' <= #[trigger] body[i] <= '9') {
        None
    } else {
        let magnitude = decimal_value(body);
        let value = if negative {
            -magnitude
        } else {
            magnitude
        };
        if i32::MIN <= value <= i32::MAX {
            Some(value as i32)
        } else {
            None
        }
    }
}

/// The value of a sequence of ASCII digits.
pub open spec fn decimal_value(s: Seq<char>) -> int
    decreases s.len(),
{
    if s.len() == 0 {
        0
    } else {
        decimal_value(s.drop_last()) * 10 + (s.last() as int - '0' as int)
    }
}

/// The amount that a request names: the number before the first `x` of the piece.
pub open spec fn toy_amount(piece: Seq<char>) -> Option<i32> {
    spec_parse_i32(piece.take(prefix_len(piece, 'x') as int))
}

/// Among the pieces that name an amount, the one with the largest amount, the last of them
/// on a tie, with that amount.
pub open spec fn best_toy(pieces: Seq<Seq<char>>) -> Option<(i32, Seq<char>)>
    decreases pieces.len(),
{
    if pieces.len() == 0 {
        None
    } else {
        let prev = best_toy(pieces.drop_last());
        match toy_amount(pieces.last()) {
            None => prev,
            Some(a) => match prev {
                Some((b, t)) => if a >= b {
                    Some((a, pieces.last()))
                } else {
                    prev
                },
                None => Some((a, pieces.last())),
            },
        }
    }
}

/// The reply to a line of a toy request: the piece, among those separated by commas, that
/// names the largest amount, followed by a newline; `None` when no piece names an amount.
pub open spec fn spec_toy_reply(line: Seq<char>) -> Option<Seq<char>> {
    match best_toy(split_on(line, ',')) {
        Some((_, toy)) => Some(toy.push('\n')),
        None => None,
    }
}

/// `str::parse::<i32>`: the integer that the text writes, if it is one.
#[verifier::external_body]
fn parse_i32(s: &str) -> (r: Option<i32>)
    ensures
        r == spec_parse_i32(s@),
{
    s.parse::<i32>().ok()
}

proof fn lemma_prefix_len(s: Seq<char>, c: char, k: int)
    requires
        0 <= k <= s.len(),
        forall|j: int| 0 <= j < k ==> s[j] != c,
        k == s.len() || s[k] == c,
    ensures
        prefix_len(s, c) == k,
    decreases k,
{
    if k > 0 {
        lemma_prefix_len(s.drop_first(), c, k - 1);
    }
}

fn string_of(chars: &Vec<char>, from: usize, to: usize) -> (r: String)
    requires
        from <= to <= chars@.len(),
    ensures
        r@ == chars@.subrange(from as int, to as int),
{
    let mut out = String::new();
    let mut i = from;
    while i < to
        invariant
            from <= i <= to <= chars@.len(),
            out@ == chars@.subrange(from as int, i as int),
        decreases to - i,
    {
        push_char(&mut out, chars[i]);
        i += 1;
        assert(out@ =~= chars@.subrange(from as int, i as int));
    }
    out
}

/// The amount that the piece `chars[from..to]` names.
fn piece_amount(chars: &Vec<char>, from: usize, to: usize) -> (r: Option<i32>)
    requires
        from <= to <= chars@.len(),
    ensures
        r == toy_amount(chars@.subrange(from as int, to as int)),
{
    let ghost piece = chars@.subrange(from as int, to as int);
    let mut k = from;
    while k < to && chars[k] != 'x'
        invariant
            from <= k <= to <= chars@.len(),
            forall|j: int| from <= j < k ==> chars@[j] != 'x',
        decreases to - k,
    {
        k += 1;
    }
    proof {
        lemma_prefix_len(piece, 'x', k - from);
        assert(piece.take(k - from) =~= chars@.subrange(from as int, k as int));
    }
    let text = string_of(chars, from, k);
    parse_i32(text.as_str())
}

/// The reply to one line of a toy request, as [`spec_toy_reply`] says.
pub fn toy_reply(line: &str) -> (r: Option<String>)
    ensures
        match spec_toy_reply(line@) {
            Some(reply) => r is Some && r->Some_0@ == reply,
            None => r is None,
        },
{
    let chars = chars_of(line);
    let ghost s = chars@;
    let ghost mut done: Seq<Seq<char>> = Seq::empty();
    let mut best: Option<(i32, usize, usize)> = None;
    let mut start: usize = 0;
    let mut i: usize = 0;
    assert(s.skip(0) =~= s);
    loop
        invariant_except_break
            split_on(s, ',') == done + split_on(s.skip(start as int), ','),
        invariant
            s == chars@,
            start <= i <= s.len(),
            forall|j: int| start <= j < i ==> s[j] != ',',
            match best {
                Some((a, f, t)) => f <= t <= s.len() && best_toy(done) == Some(
                    (a, s.subrange(f as int, t as int)),
                ),
                None => best_toy(done) is None,
            },
        ensures
            start <= s.len(),
            split_on(s, ',') == done,
            match best {
                Some((a, f, t)) => f <= t <= s.len() && best_toy(done) == Some(
                    (a, s.subrange(f as int, t as int)),
                ),
                None => best_toy(done) is None,
            },
        decreases s.len() - i,
    {
        let at_end = i == chars.len();
        if at_end || chars[i] == ',' {
            let ghost rest = s.skip(start as int);
            proof {
                lemma_prefix_len(rest, ',', i - start);
                assert(rest.take(i - start) =~= s.subrange(start as int, i as int));
                if i < s.len() {
                    assert(rest.skip(i - start + 1) =~= s.skip(i + 1));
                } else {
                    assert(rest =~= s.subrange(start as int, i as int));
                }
            }
            let amount = piece_amount(&chars, start, i);
            let ghost piece = s.subrange(start as int, i as int);
            proof {
                assert((done.push(piece)).drop_last() =~= done);
                assert(done.push(piece).last() == piece);
            }
            match amount {
                Some(a) => {
                    match best {
                        Some((b, _, _)) => {
                            if a >= b {
                                best = Some((a, start, i));
                            }
                        },
                        None => {
                            best = Some((a, start, i));
                        },
                    }
                },
                None => {},
            }
            proof {
                if i < s.len() {
                    assert(done + split_on(rest, ',') =~= done.push(piece) + split_on(s.skip(i + 1), ','));
                } else {
                    assert(done + split_on(rest, ',') =~= done.push(piece));
                }
                done = done.push(piece);
            }
            if at_end {
                break;
            }
            start = i + 1;
        }
        i += 1;
    }
    match best {
        Some((_, f, t)) => {
            let mut reply = string_of(&chars, f, t);
            push_char(&mut reply, '\n');
            Some(reply)
        },
        None => None,
    }
}

} // verus!
