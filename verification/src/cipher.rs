use vstd::prelude::*;

verus! {

/// One operation of a cipher spec. The operations are applied to each byte in order; `Pos`
/// stands for the byte's position in the stream, counted from zero, modulo 256.
#[derive(Debug, Clone, Copy, PartialEq, Eq)]
pub enum CipherOp {
    ReverseBits,
    Xor(u8),
    XorPos,
    Add(u8),
    AddPos,
}

/// The bits of `b` in reverse order: bit `i` of the result is bit `7 - i` of `b`.
pub open spec fn reverse_bits_u8(b: u8) -> u8 {
    ((b & 1) << 7u8) | ((b & 2) << 5u8) | ((b & 4) << 3u8) | ((b & 8) << 1u8) | ((b & 16) >> 1u8) | (
    (b & 32) >> 3u8) | ((b & 64) >> 5u8) | ((b & 128) >> 7u8)
}

/// The position `pos` in the stream as the byte that the cipher uses.
pub open spec fn pos_byte(pos: int) -> u8 {
    (pos % 256) as u8
}

/// One operation applied to the byte at stream position `pos`.
pub open spec fn apply_op(b: u8, op: CipherOp, pos: int) -> u8 {
    match op {
        CipherOp::ReverseBits => reverse_bits_u8(b),
        CipherOp::Xor(n) => b ^ n,
        CipherOp::XorPos => b ^ pos_byte(pos),
        CipherOp::Add(n) => ((b + n) % 256) as u8,
        CipherOp::AddPos => ((b + pos_byte(pos)) % 256) as u8,
    }
}

/// The inverse of one operation at stream position `pos`.
pub open spec fn undo_op(b: u8, op: CipherOp, pos: int) -> u8 {
    match op {
        CipherOp::ReverseBits => reverse_bits_u8(b),
        CipherOp::Xor(n) => b ^ n,
        CipherOp::XorPos => b ^ pos_byte(pos),
        CipherOp::Add(n) => ((b - n + 256) % 256) as u8,
        CipherOp::AddPos => ((b - pos_byte(pos) + 256) % 256) as u8,
    }
}

/// The operations of a spec applied, first to last, to the byte at stream position `pos`.
pub open spec fn apply_ops(b: u8, ops: Seq<CipherOp>, pos: int) -> u8
    decreases ops.len(),
{
    if ops.len() == 0 {
        b
    } else {
        apply_op(apply_ops(b, ops.drop_last(), pos), ops.last(), pos)
    }
}

/// The inverses of the operations of a spec applied, last to first, to the byte at stream
/// position `pos`.
pub open spec fn undo_ops(b: u8, ops: Seq<CipherOp>, pos: int) -> u8
    decreases ops.len(),
{
    if ops.len() == 0 {
        b
    } else {
        undo_ops(undo_op(b, ops.last(), pos), ops.drop_last(), pos)
    }
}

/// The spec that a sequence of bytes describes, read until a zero byte, an unknown byte or
/// the end; `None` where an operation that takes an argument is the last byte.
pub open spec fn spec_parse_cipher(cipher: Seq<u8>) -> Option<Seq<CipherOp>>
    decreases cipher.len(),
{
    if cipher.len() == 0 {
        Some(Seq::empty())
    } else {
        let n = cipher[0];
        let (op, used): (Option<CipherOp>, int) = if n == 1 {
            (Some(CipherOp::ReverseBits), 1)
        } else if n == 2 && cipher.len() >= 2 {
            (Some(CipherOp::Xor(cipher[1])), 2)
        } else if n == 3 {
            (Some(CipherOp::XorPos), 1)
        } else if n == 4 && cipher.len() >= 2 {
            (Some(CipherOp::Add(cipher[1])), 2)
        } else if n == 5 {
            (Some(CipherOp::AddPos), 1)
        } else {
            (None, 0)
        };
        if n == 2 || n == 4 {
            if cipher.len() < 2 {
                None
            } else {
                match spec_parse_cipher(cipher.skip(2)) {
                    Some(rest) => Some(seq![op.unwrap()] + rest),
                    None => None,
                }
            }
        } else if 1 <= n <= 5 {
            match spec_parse_cipher(cipher.skip(1)) {
                Some(rest) => Some(seq![op.unwrap()] + rest),
                None => None,
            }
        } else {
            Some(Seq::empty())
        }
    }
}

/// The no-op test on a spec: it has no `AddPos`, and maps each byte value, at the stream
/// position equal to that value, to itself.
pub open spec fn spec_is_noop(ops: Seq<CipherOp>) -> bool {
    &&& forall|i: int| 0 <= i < ops.len() ==> ops[i] != CipherOp::AddPos
    &&& forall|v: int| 0 <= v < 256 ==> #[trigger] apply_ops(v as u8, ops, v) == v as u8
}

/// The bits of `b` in reverse order.
fn reverse_bits(b: u8) -> (r: u8)
    ensures
        r == reverse_bits_u8(b),
{
    ((b & 1) << 7u8) | ((b & 2) << 5u8) | ((b & 4) << 3u8) | ((b & 8) << 1u8) | ((b & 16) >> 1u8) | (
    (b & 32) >> 3u8) | ((b & 64) >> 5u8) | ((b & 128) >> 7u8)
}

proof fn lemma_reverse_bits_involution(b: u8)
    ensures
        reverse_bits_u8(reverse_bits_u8(b)) == b,
{
    assert(reverse_bits_u8(reverse_bits_u8(b)) == b) by (bit_vector);
}

proof fn lemma_xor_involution(b: u8, n: u8)
    ensures
        (b ^ n) ^ n == b,
{
    assert((b ^ n) ^ n == b) by (bit_vector);
}

/// Undoing an operation gives back the byte, and so does doing it after undoing it.
pub proof fn lemma_undo_op(b: u8, op: CipherOp, pos: int)
    ensures
        undo_op(apply_op(b, op, pos), op, pos) == b,
        apply_op(undo_op(b, op, pos), op, pos) == b,
{
    match op {
        CipherOp::ReverseBits => {
            lemma_reverse_bits_involution(b);
        },
        CipherOp::Xor(n) => {
            lemma_xor_involution(b, n);
        },
        CipherOp::XorPos => {
            lemma_xor_involution(b, pos_byte(pos));
        },
        CipherOp::Add(n) => {
            lemma_add_sub(b, n);
        },
        CipherOp::AddPos => {
            lemma_add_sub(b, pos_byte(pos));
        },
    }
}

proof fn lemma_add_sub(b: u8, n: u8)
    ensures
        ((((b + n) % 256) as u8 - n + 256) % 256) as u8 == b,
        ((((b - n + 256) % 256) as u8 + n) % 256) as u8 == b,
{
    if b + n < 256 {
        assert((b + n) % 256 == b + n);
    } else {
        assert((b + n) % 256 == b + n - 256);
    }
    if b >= n {
        assert((b - n + 256) % 256 == b - n);
    } else {
        assert((b - n + 256) % 256 == b - n + 256);
    }
}

/// Decrypting what a spec encrypted gives back the byte, at any stream position.
pub proof fn lemma_undo_ops_apply_ops(b: u8, ops: Seq<CipherOp>, pos: int)
    ensures
        undo_ops(apply_ops(b, ops, pos), ops, pos) == b,
    decreases ops.len(),
{
    if ops.len() > 0 {
        lemma_undo_op(apply_ops(b, ops.drop_last(), pos), ops.last(), pos);
        lemma_undo_ops_apply_ops(b, ops.drop_last(), pos);
    }
}

/// Encrypting what a spec decrypted gives back the byte, at any stream position.
pub proof fn lemma_apply_ops_undo_ops(b: u8, ops: Seq<CipherOp>, pos: int)
    ensures
        apply_ops(undo_ops(b, ops, pos), ops, pos) == b,
    decreases ops.len(),
{
    if ops.len() > 0 {
        let c = undo_op(b, ops.last(), pos);
        lemma_apply_ops_undo_ops(c, ops.drop_last(), pos);
        lemma_undo_op(b, ops.last(), pos);
    }
}

/// Positions that differ by 256 encrypt a byte alike, and decrypt it alike.
pub proof fn lemma_position_period(b: u8, ops: Seq<CipherOp>, pos: int)
    ensures
        apply_ops(b, ops, pos + 256) == apply_ops(b, ops, pos),
        undo_ops(b, ops, pos + 256) == undo_ops(b, ops, pos),
    decreases ops.len(),
{
    assert(pos_byte(pos + 256) == pos_byte(pos));
    if ops.len() > 0 {
        lemma_position_period(b, ops.drop_last(), pos);
        lemma_position_period(undo_op(b, ops.last(), pos), ops.drop_last(), pos);
    }
}

/// The bytes that write one operation: its code, then its argument where it has one.
pub open spec fn encode_op(op: CipherOp) -> Seq<u8> {
    match op {
        CipherOp::ReverseBits => seq![1u8],
        CipherOp::Xor(n) => seq![2u8, n],
        CipherOp::XorPos => seq![3u8],
        CipherOp::Add(n) => seq![4u8, n],
        CipherOp::AddPos => seq![5u8],
    }
}

/// The bytes that write a spec: its operations, one after another.
pub open spec fn encode_cipher(ops: Seq<CipherOp>) -> Seq<u8>
    decreases ops.len(),
{
    if ops.len() == 0 {
        Seq::empty()
    } else {
        encode_op(ops[0]) + encode_cipher(ops.drop_first())
    }
}

/// A spec written out and ended by a zero byte reads back as itself, whatever follows.
pub proof fn lemma_parse_encoded_cipher(ops: Seq<CipherOp>, tail: Seq<u8>)
    ensures
        spec_parse_cipher(encode_cipher(ops) + seq![0u8] + tail) == Some(ops),
    decreases ops.len(),
{
    let s = encode_cipher(ops) + seq![0u8] + tail;
    if ops.len() == 0 {
        assert(s[0] == 0u8);
        assert(ops =~= Seq::<CipherOp>::empty());
    } else {
        let e = encode_op(ops[0]);
        let rest = encode_cipher(ops.drop_first()) + seq![0u8] + tail;
        assert(s =~= e + rest);
        assert(s.skip(e.len() as int) =~= rest);
        assert(s[0] == e[0]);
        if e.len() == 2 {
            assert(s[1] == e[1]);
        }
        lemma_parse_encoded_cipher(ops.drop_first(), tail);
        assert(seq![ops[0]] + ops.drop_first() =~= ops);
    }
}

/// Whether no operation of a spec depends on the stream position.
pub open spec fn position_free(ops: Seq<CipherOp>) -> bool {
    forall|i: int| 0 <= i < ops.len() ==> ops[i] != CipherOp::AddPos && ops[i] != CipherOp::XorPos
}

proof fn lemma_position_free_same(b: u8, ops: Seq<CipherOp>, p: int, q: int)
    requires
        position_free(ops),
    ensures
        apply_ops(b, ops, p) == apply_ops(b, ops, q),
    decreases ops.len(),
{
    if ops.len() > 0 {
        assert(position_free(ops.drop_last())) by {
            assert forall|i: int| 0 <= i < ops.drop_last().len() implies ops.drop_last()[i]
                != CipherOp::AddPos && ops.drop_last()[i] != CipherOp::XorPos by {
                assert(ops.drop_last()[i] == ops[i]);
            }
        }
        lemma_position_free_same(b, ops.drop_last(), p, q);
        assert(ops.last() == ops[ops.len() - 1]);
    }
}

/// A spec without `AddPos` that leaves every byte at every stream position as it is passes
/// the no-op test; and for a spec whose operations do not depend on the position, passing
/// the test means leaving every byte at every position as it is.
pub proof fn lemma_noop_test(ops: Seq<CipherOp>)
    ensures
        (forall|i: int| 0 <= i < ops.len() ==> ops[i] != CipherOp::AddPos) && (forall|b: u8, pos: int|
            #[trigger] apply_ops(b, ops, pos) == b) ==> spec_is_noop(ops),
        position_free(ops) && spec_is_noop(ops) ==> forall|b: u8, pos: int|
            #[trigger] apply_ops(b, ops, pos) == b,
{
    if (forall|i: int| 0 <= i < ops.len() ==> ops[i] != CipherOp::AddPos) && (forall|b: u8, pos: int|
        #[trigger] apply_ops(b, ops, pos) == b) {
        assert forall|v: int| 0 <= v < 256 implies #[trigger] apply_ops(v as u8, ops, v) == v as u8 by {
            assert(apply_ops(v as u8, ops, v) == v as u8);
        }
    }
    if position_free(ops) && spec_is_noop(ops) {
        assert forall|b: u8, pos: int| #[trigger] apply_ops(b, ops, pos) == b by {
            lemma_position_free_same(b, ops, pos, b as int);
            assert(apply_ops((b as int) as u8, ops, b as int) == (b as int) as u8);
        }
    }
}

fn apply_one(b: u8, op: &CipherOp, pos: usize) -> (r: u8)
    ensures
        r == apply_op(b, *op, pos as int),
{
    match op {
        CipherOp::ReverseBits => reverse_bits(b),
        CipherOp::Xor(n) => b ^ *n,
        CipherOp::XorPos => b ^ (pos % 256) as u8,
        CipherOp::Add(n) => b.wrapping_add(*n),
        CipherOp::AddPos => b.wrapping_add((pos % 256) as u8),
    }
}

fn undo_one(b: u8, op: &CipherOp, pos: usize) -> (r: u8)
    ensures
        r == undo_op(b, *op, pos as int),
{
    match op {
        CipherOp::ReverseBits => reverse_bits(b),
        CipherOp::Xor(n) => b ^ *n,
        CipherOp::XorPos => b ^ (pos % 256) as u8,
        CipherOp::Add(n) => b.wrapping_sub(*n),
        CipherOp::AddPos => b.wrapping_sub((pos % 256) as u8),
    }
}

/// Reads the cipher spec at the start of `cipher`, as [`spec_parse_cipher`] says; `None`
/// where an operation that takes an argument is the last byte.
pub fn parse_cipher_spec_checked(cipher: &[u8]) -> (r: Option<Vec<CipherOp>>)
    ensures
        match spec_parse_cipher(cipher@) {
            Some(ops) => r is Some && r->Some_0@ == ops,
            None => r is None,
        },
{
    let mut cipher_spec: Vec<CipherOp> = Vec::new();
    let mut i: usize = 0;
    proof {
        assert(cipher@.skip(0) =~= cipher@);
        assert forall|rest: Seq<CipherOp>| true implies cipher_spec@ + rest =~= rest by {}
    }
    while i < cipher.len()
        invariant
            i <= cipher@.len(),
            spec_parse_cipher(cipher@) == match spec_parse_cipher(cipher@.skip(i as int)) {
                Some(rest) => Some(cipher_spec@ + rest),
                None => None,
            },
        decreases cipher@.len() - i,
    {
        let ghost tail = cipher@.skip(i as int);
        let n = cipher[i];
        let op;
        if n == 1 {
            op = CipherOp::ReverseBits;
            i += 1;
        } else if n == 2 {
            if i + 1 >= cipher.len() {
                return None;
            }
            op = CipherOp::Xor(cipher[i + 1]);
            i += 2;
        } else if n == 3 {
            op = CipherOp::XorPos;
            i += 1;
        } else if n == 4 {
            if i + 1 >= cipher.len() {
                return None;
            }
            op = CipherOp::Add(cipher[i + 1]);
            i += 2;
        } else if n == 5 {
            op = CipherOp::AddPos;
            i += 1;
        } else {
            assert(cipher_spec@ + Seq::<CipherOp>::empty() =~= cipher_spec@);
            return Some(cipher_spec);
        }
        proof {
            assert(tail.skip((i - (cipher@.len() - tail.len())) as int) =~= cipher@.skip(i as int));
            assert(cipher_spec@.push(op) + Seq::<CipherOp>::empty() =~= cipher_spec@.push(op));
            assert forall|rest: Seq<CipherOp>| true implies cipher_spec@ + (seq![op] + rest) =~= cipher_spec@.push(op) + rest by {}
        }
        cipher_spec.push(op);
    }
    assert(cipher@.skip(i as int) =~= Seq::<u8>::empty());
    assert(cipher_spec@ + Seq::<CipherOp>::empty() =~= cipher_spec@);
    Some(cipher_spec)
}

/// Reads the cipher spec at the start of `cipher`, as [`spec_parse_cipher`] says. The byte
/// sequences where an operation that takes an argument is the last byte are left out.
pub fn parse_cipher_spec(cipher: &[u8]) -> (r: Vec<CipherOp>)
    requires
        spec_parse_cipher(cipher@) is Some,
    ensures
        r@ == spec_parse_cipher(cipher@)->Some_0,
{
    match parse_cipher_spec_checked(cipher) {
        Some(ops) => ops,
        None => Vec::new(),
    }
}

fn apply_all(b: u8, cipher_spec: &[CipherOp], pos: usize) -> (r: u8)
    ensures
        r == apply_ops(b, cipher_spec@, pos as int),
{
    let mut x = b;
    let mut j: usize = 0;
    while j < cipher_spec.len()
        invariant
            j <= cipher_spec@.len(),
            x == apply_ops(b, cipher_spec@.take(j as int), pos as int),
        decreases cipher_spec@.len() - j,
    {
        assert(cipher_spec@.take(j + 1).drop_last() =~= cipher_spec@.take(j as int));
        x = apply_one(x, &cipher_spec[j], pos);
        j += 1;
    }
    assert(cipher_spec@.take(cipher_spec@.len() as int) =~= cipher_spec@);
    x
}

fn undo_all(b: u8, cipher_spec: &[CipherOp], pos: usize) -> (r: u8)
    ensures
        r == undo_ops(b, cipher_spec@, pos as int),
{
    let mut x = b;
    let mut j: usize = cipher_spec.len();
    assert(cipher_spec@.take(j as int) =~= cipher_spec@);
    while j > 0
        invariant
            j <= cipher_spec@.len(),
            undo_ops(b, cipher_spec@, pos as int) == undo_ops(x, cipher_spec@.take(j as int), pos as int),
        decreases j,
    {
        assert(cipher_spec@.take(j as int).drop_last() =~= cipher_spec@.take(j - 1));
        x = undo_one(x, &cipher_spec[j - 1], pos);
        j -= 1;
    }
    x
}

/// Encrypts `buf`, whose first byte is at position `stream_pos` of the stream: each byte
/// goes through the operations of the spec, first to last.
pub fn apply_cipher_spec(buf: &mut [u8], cipher_spec: &[CipherOp], stream_pos: usize)
    requires
        stream_pos + old(buf)@.len() <= usize::MAX + 1,
    ensures
        final(buf)@.len() == old(buf)@.len(),
        forall|i: int|
            0 <= i < old(buf)@.len() ==> #[trigger] final(buf)@[i] == apply_ops(
                old(buf)@[i],
                cipher_spec@,
                stream_pos + i,
            ),
{
    let mut idx: usize = 0;
    while idx < buf.len()
        invariant
            stream_pos + old(buf)@.len() <= usize::MAX + 1,
            buf@.len() == old(buf)@.len(),
            idx <= buf@.len(),
            forall|i: int|
                0 <= i < idx ==> #[trigger] buf@[i] == apply_ops(old(buf)@[i], cipher_spec@, stream_pos + i),
            forall|i: int| idx <= i < buf@.len() ==> #[trigger] buf@[i] == old(buf)@[i],
        decreases buf@.len() - idx,
    {
        let v = apply_all(buf[idx], cipher_spec, stream_pos + idx);
        buf[idx] = v;
        idx += 1;
    }
}

/// Decrypts `buf`, whose first byte is at position `stream_pos` of the stream: each byte
/// goes through the inverses of the operations of the spec, last to first.
pub fn apply_cipher_spec_reverse(buf: &mut [u8], cipher_spec: &[CipherOp], stream_pos: usize)
    requires
        stream_pos + old(buf)@.len() <= usize::MAX + 1,
    ensures
        final(buf)@.len() == old(buf)@.len(),
        forall|i: int|
            0 <= i < old(buf)@.len() ==> #[trigger] final(buf)@[i] == undo_ops(
                old(buf)@[i],
                cipher_spec@,
                stream_pos + i,
            ),
{
    let mut idx: usize = 0;
    while idx < buf.len()
        invariant
            stream_pos + old(buf)@.len() <= usize::MAX + 1,
            buf@.len() == old(buf)@.len(),
            idx <= buf@.len(),
            forall|i: int|
                0 <= i < idx ==> #[trigger] buf@[i] == undo_ops(old(buf)@[i], cipher_spec@, stream_pos + i),
            forall|i: int| idx <= i < buf@.len() ==> #[trigger] buf@[i] == old(buf)@[i],
        decreases buf@.len() - idx,
    {
        let v = undo_all(buf[idx], cipher_spec, stream_pos + idx);
        buf[idx] = v;
        idx += 1;
    }
}

/// Whether the spec leaves every stream as it is, as [`spec_is_noop`] says.
pub fn is_noop_cipher_spec(cipher_spec: &[CipherOp]) -> (r: bool)
    ensures
        r == spec_is_noop(cipher_spec@),
{
    let mut k: usize = 0;
    while k < cipher_spec.len()
        invariant
            k <= cipher_spec@.len(),
            forall|i: int| 0 <= i < k ==> cipher_spec@[i] != CipherOp::AddPos,
        decreases cipher_spec@.len() - k,
    {
        if let CipherOp::AddPos = cipher_spec[k] {
            return false;
        }
        k += 1;
    }
    let mut before_buf: Vec<u8> = Vec::new();
    let mut v: usize = 0;
    while v < 256
        invariant
            v <= 256,
            before_buf@.len() == v,
            forall|i: int| 0 <= i < v ==> #[trigger] before_buf@[i] == i as u8,
        decreases 256 - v,
    {
        before_buf.push(v as u8);
        v += 1;
    }
    let mut buf: Vec<u8> = Vec::new();
    let mut w: usize = 0;
    while w < 256
        invariant
            w <= 256,
            before_buf@.len() == 256,
            buf@ == before_buf@.take(w as int),
        decreases 256 - w,
    {
        buf.push(before_buf[w]);
        w += 1;
    }
    assert(buf@ =~= before_buf@);
    apply_cipher_spec(buf.as_mut_slice(), cipher_spec, 0);
    let mut j: usize = 0;
    while j < 256
        invariant
            j <= 256,
            buf@.len() == 256,
            before_buf@.len() == 256,
            forall|i: int| 0 <= i < 256 ==> #[trigger] before_buf@[i] == i as u8,
            forall|i: int| 0 <= i < 256 ==> #[trigger] buf@[i] == apply_ops(i as u8, cipher_spec@, i),
            forall|i: int| 0 <= i < j ==> #[trigger] apply_ops(i as u8, cipher_spec@, i) == i as u8,
        decreases 256 - j,
    {
        if buf[j] != before_buf[j] {
            return false;
        }
        j += 1;
    }
    assert forall|x: int| 0 <= x < 256 implies #[trigger] apply_ops(x as u8, cipher_spec@, x) == x as u8 by {
        assert(apply_ops(x as u8, cipher_spec@, x) == x as u8);
    }
    true
}

} // verus!
