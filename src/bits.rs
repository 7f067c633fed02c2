use vstd::prelude::*;

verus! {

/// A bit vector: one `u8` per bit, most significant bit first.
pub type Bits = Vec<u8>;

/// A bit is 0 or 1.
pub open spec fn is_bit(b: u8) -> bool {
    b == 0 || b == 1
}

/// Every element of `s` is a bit.
pub open spec fn valid_bits(s: Seq<u8>) -> bool {
    forall|i: int| 0 <= i < s.len() ==> is_bit(#[trigger] s[i])
}

/// The weight of an element in a numeral: an element counts as set exactly when it is 1.
pub open spec fn bit_val(b: u8) -> nat {
    if b == 1 {
        1
    } else {
        0
    }
}

/// Two to the power `k`.
pub open spec fn pow2(k: nat) -> nat
    decreases k,
{
    if k == 0 {
        1
    } else {
        2 * pow2((k - 1) as nat)
    }
}

/// The unsigned integer that `s` denotes as a big-endian binary numeral.
pub open spec fn value(s: Seq<u8>) -> nat
    decreases s.len(),
{
    if s.len() == 0 {
        0
    } else {
        2 * value(s.drop_last()) + bit_val(s.last())
    }
}

/// The shortest big-endian numeral of `n`; zero is the single bit `[0]`.
pub open spec fn bits_of(n: nat) -> Seq<u8>
    decreases n,
{
    if n < 2 {
        seq![n as u8]
    } else {
        bits_of(n / 2).push((n % 2) as u8)
    }
}

pub proof fn lemma_value_push(s: Seq<u8>, b: u8)
    ensures
        value(s.push(b)) == 2 * value(s) + bit_val(b),
{
    assert(s.push(b).drop_last() =~= s);
}

/// A prefix of a numeral never denotes more than the whole.
pub proof fn lemma_value_prefix(s: Seq<u8>, k: int)
    requires
        0 <= k <= s.len(),
    ensures
        value(s.take(k)) <= value(s),
    decreases s.len(),
{
    if k < s.len() {
        assert(s.drop_last().take(k) =~= s.take(k));
        lemma_value_prefix(s.drop_last(), k);
    } else {
        assert(s.take(k) =~= s);
    }
}

/// Reads `bits` as a big-endian binary numeral; an element counts as set exactly when it is 1.
pub fn bits_to_number(bits: Bits) -> (r: u32)
    requires
        value(bits@) <= u32::MAX,
    ensures
        r == value(bits@),
{
    let mut acc: u32 = 0;
    let mut i: usize = 0;
    while i < bits.len()
        invariant
            i <= bits.len(),
            value(bits@) <= u32::MAX,
            acc == value(bits@.take(i as int)),
        decreases bits.len() - i,
    {
        proof {
            assert(bits@.take(i + 1) =~= bits@.take(i as int).push(bits@[i as int]));
            lemma_value_push(bits@.take(i as int), bits@[i as int]);
            lemma_value_prefix(bits@, i + 1);
        }
        if bits[i] == 1 {
            acc = 2 * acc + 1;
        } else {
            acc = 2 * acc;
        }
        i += 1;
    }
    assert(bits@.take(i as int) =~= bits@);
    acc
}

/// The numeral `a` followed by `b` denotes `a` shifted left by `b.len()` plus `b`.
pub proof fn lemma_value_concat(a: Seq<u8>, b: Seq<u8>)
    ensures
        value(a + b) == value(a) * pow2(b.len()) + value(b),
    decreases b.len(),
{
    if b.len() == 0 {
        assert(a + b =~= a);
        let w = pow2(b.len());
        assert(w == 1);
        assert(value(a) * w == value(a)) by (nonlinear_arith)
            requires
                w == 1,
        ;
    } else {
        let b0 = b.drop_last();
        assert((a + b).drop_last() =~= a + b0);
        assert((a + b).last() == b.last());
        lemma_value_concat(a, b0);
        let (va, vb0, pw) = (value(a) as int, value(b0) as int, pow2(b0.len()) as int);
        assert(pow2(b.len()) == 2 * pw);
        assert(value(a + b) == 2 * value(a + b0) + bit_val(b.last()));
        assert(value(b) == 2 * vb0 + bit_val(b.last()));
        assert(va * (2 * pw) == 2 * (va * pw)) by (nonlinear_arith);
    }
}

/// A numeral that starts with the bit `x`.
proof fn lemma_value_cons(x: u8, s: Seq<u8>)
    ensures
        value(seq![x] + s) == bit_val(x) * pow2(s.len()) + value(s),
{
    lemma_value_concat(seq![x], s);
    lemma_value_push(Seq::empty(), x);
    assert(Seq::<u8>::empty().push(x) =~= seq![x]);
}

/// One column of a ripple-carry addition, in weights: the column's bits and the
/// incoming carry become the sum bit at this weight and the carry at the next one.
proof fn lemma_carry_step(a: int, b: int, c: int, bit: int, carry: int, w: int, vp: int, vq: int, vs: int)
    requires
        a + b + c == bit + 2 * carry,
        vp + vq == c * w + vs,
    ensures
        (a * w + vp) + (b * w + vq) == carry * (2 * w) + (bit * w + vs),
{
    assert((a + b + c) * w == carry * (2 * w) + bit * w) by (nonlinear_arith)
        requires
            a + b + c == bit + 2 * carry,
    ;
    assert((a + b + c) * w == a * w + b * w + c * w) by (nonlinear_arith);
}

/// The shortest big-endian numeral of `number`: its bits are the remainders of
/// repeated halving, the last remainder leftmost; zero gives `[0]`.
pub fn number_to_bits(number: u32) -> (r: Bits)
    ensures
        r@ == bits_of(number as nat),
    decreases number,
{
    let quot = number / 2u32;
    let rem = number % 2u32;
    if quot == 0 {
        vec![rem as u8]
    } else {
        let mut high = number_to_bits(quot);
        high.push(rem as u8);
        high
    }
}

/// Element-wise AND.
pub open spec fn and_bits(l: Seq<u8>, r: Seq<u8>) -> Seq<u8> {
    Seq::new(l.len(), |i: int| l[i] & r[i])
}

/// Element-wise OR.
pub open spec fn or_bits(l: Seq<u8>, r: Seq<u8>) -> Seq<u8> {
    Seq::new(l.len(), |i: int| l[i] | r[i])
}

/// Element-wise XOR.
pub open spec fn xor_bits(l: Seq<u8>, r: Seq<u8>) -> Seq<u8> {
    Seq::new(l.len(), |i: int| l[i] ^ r[i])
}

/// Element-wise negation: 1 becomes 0, anything else becomes 1.
pub open spec fn not_bits(s: Seq<u8>) -> Seq<u8> {
    Seq::new(s.len(), |i: int| if s[i] == 1 { 0u8 } else { 1u8 })
}

/// The two operands of a binary operator had different lengths.
#[derive(Debug, Clone, Copy, PartialEq, Eq, Structural)]
pub struct LengthMismatch {
    pub left: usize,
    pub right: usize,
}

/// Whether `left` and `right` have the same number of bits.
pub fn assert_same_number_of_bits(left: Bits, right: Bits) -> (r: bool)
    ensures
        r == (left.len() == right.len()),
{
    left.len() == right.len()
}

/// Pairs the bits of `left` and `right` position by position and combines each
/// pair with `apply`. Operands of different lengths give `LengthMismatch` with
/// both lengths, and no bits.
pub fn apply_both_bits<F: Fn(u8, u8) -> u8>(left: Bits, right: Bits, apply: F) -> (r: Result<Bits, LengthMismatch>)
    requires
        forall|i: int|
            0 <= i < left.len() && 0 <= i < right.len() ==> call_requires(apply, (left@[i], right@[i])),
    ensures
        match r {
            Ok(v) => left.len() == right.len() && v.len() == left.len() && forall|i: int|
                0 <= i < v.len() ==> call_ensures(apply, (left@[i], right@[i]), #[trigger] v@[i]),
            Err(e) => left.len() != right.len() && e == (LengthMismatch {
                left: left.len(),
                right: right.len(),
            }),
        },
{
    if !assert_same_number_of_bits(left.clone(), right.clone()) {
        return Err(LengthMismatch { left: left.len(), right: right.len() });
    }
    let mut out: Bits = Vec::new();
    let mut i: usize = 0;
    while i < left.len()
        invariant
            left.len() == right.len(),
            i <= left.len(),
            out.len() == i,
            forall|j: int|
                0 <= j < left.len() && 0 <= j < right.len() ==> call_requires(apply, (left@[j], right@[j])),
            forall|j: int| 0 <= j < i ==> call_ensures(apply, (left@[j], right@[j]), #[trigger] out@[j]),
        decreases left.len() - i,
    {
        let bit = apply(left[i], right[i]);
        out.push(bit);
        i += 1;
    }
    Ok(out)
}

fn and_bit(a: u8, b: u8) -> (r: u8)
    ensures
        r == a & b,
{
    a & b
}

fn or_bit(a: u8, b: u8) -> (r: u8)
    ensures
        r == a | b,
{
    a | b
}

fn xor_bit(a: u8, b: u8) -> (r: u8)
    ensures
        r == a ^ b,
{
    a ^ b
}

/// Bitwise AND of two vectors of equal length.
pub fn and(left: Bits, right: Bits) -> (r: Bits)
    requires
        left.len() == right.len(),
    ensures
        r@ == and_bits(left@, right@),
{
    let r = apply_both_bits(left, right, and_bit).unwrap();
    assert(r@ =~= and_bits(left@, right@));
    r
}

/// Bitwise OR of two vectors of equal length.
pub fn or(left: Bits, right: Bits) -> (r: Bits)
    requires
        left.len() == right.len(),
    ensures
        r@ == or_bits(left@, right@),
{
    let r = apply_both_bits(left, right, or_bit).unwrap();
    assert(r@ =~= or_bits(left@, right@));
    r
}

/// Bitwise XOR of two vectors of equal length.
pub fn xor(left: Bits, right: Bits) -> (r: Bits)
    requires
        left.len() == right.len(),
    ensures
        r@ == xor_bits(left@, right@),
{
    let r = apply_both_bits(left, right, xor_bit).unwrap();
    assert(r@ =~= xor_bits(left@, right@));
    r
}

/// Flips every bit: 1 becomes 0, anything else becomes 1.
pub fn not(bits: Bits) -> (r: Bits)
    ensures
        r@ == not_bits(bits@),
{
    let mut out: Bits = Vec::new();
    let mut i: usize = 0;
    while i < bits.len()
        invariant
            i <= bits.len(),
            out@ == not_bits(bits@).take(i as int),
        decreases bits.len() - i,
    {
        if bits[i] == 1u8 {
            out.push(0);
        } else {
            out.push(1);
        }
        i += 1;
        assert(out@ =~= not_bits(bits@).take(i as int));
    }
    assert(not_bits(bits@).take(i as int) =~= not_bits(bits@));
    out
}

/// `n` zero bits.
pub open spec fn zeros(n: nat) -> Seq<u8> {
    Seq::new(n, |i: int| 0u8)
}

proof fn lemma_value_zeros(n: nat)
    ensures
        value(zeros(n)) == 0,
    decreases n,
{
    if n > 0 {
        assert(zeros(n).drop_last() =~= zeros((n - 1) as nat));
        lemma_value_zeros((n - 1) as nat);
    }
}

/// How many bits `left` has beyond `right`, or 0 when it has no more.
fn size_diff_bits(left: &Bits, right: &Bits) -> (r: usize)
    ensures
        r == if left.len() > right.len() {
            left.len() - right.len()
        } else {
            0
        },
{
    if left.len() > right.len() {
        left.len() - right.len()
    } else {
        0
    }
}

/// `bits` with `size` zero bits put in front of it.
pub fn zero_extend_size(bits: &Bits, size: usize) -> (r: Bits)
    requires
        size + bits.len() <= usize::MAX,
    ensures
        r@ == zeros(size as nat) + bits@,
{
    let mut r: Bits = Vec::new();
    let mut i: usize = 0;
    while i < size
        invariant
            i <= size,
            r@ == zeros(i as nat),
        decreases size - i,
    {
        r.push(0);
        i += 1;
        assert(r@ =~= zeros(i as nat));
    }
    let mut j: usize = 0;
    while j < bits.len()
        invariant
            i == size,
            j <= bits.len(),
            r@ == zeros(size as nat) + bits@.take(j as int),
        decreases bits.len() - j,
    {
        r.push(bits[j]);
        j += 1;
        assert(r@ =~= zeros(size as nat) + bits@.take(j as int));
    }
    assert(bits@.take(j as int) =~= bits@);
    r
}

/// The sum of `left` and `right` as a numeral one bit longer than the longer of the two.
#[verifier::rlimit(30)]
pub fn add(left: Bits, right: Bits) -> (r: Bits)
    requires
        valid_bits(left@),
        valid_bits(right@),
    ensures
        r.len() == if left.len() >= right.len() {
            left.len() + 1
        } else {
            right.len() + 1
        },
        valid_bits(r@),
        value(r@) == value(left@) + value(right@),
{
    let zero_fill_left = zero_extend_size(&left, size_diff_bits(&right, &left));
    let zero_fill_right = zero_extend_size(&right, size_diff_bits(&left, &right));
    proof {
        lemma_value_concat(zeros((zero_fill_left.len() - left.len()) as nat), left@);
        lemma_value_concat(zeros((zero_fill_right.len() - right.len()) as nat), right@);
        lemma_value_zeros((zero_fill_left.len() - left.len()) as nat);
        lemma_value_zeros((zero_fill_right.len() - right.len()) as nat);
    }
    let n = zero_fill_left.len();
    let ghost p = zero_fill_left@;
    let ghost q = zero_fill_right@;
    let mut sum: Bits = zero_extend_size(&Vec::new(), n);
    let mut carry: u8 = 0;
    let mut i: usize = n;
    assert(p.subrange(n as int, n as int) =~= Seq::<u8>::empty());
    assert(q.subrange(n as int, n as int) =~= Seq::<u8>::empty());
    assert(sum@.subrange(n as int, n as int) =~= Seq::<u8>::empty());
    while i > 0
        invariant
            n == zero_fill_left.len(),
            n == zero_fill_right.len(),
            p == zero_fill_left@,
            q == zero_fill_right@,
            valid_bits(p),
            valid_bits(q),
            i <= n,
            sum.len() == n,
            is_bit(carry),
            valid_bits(sum@),
            value(p.subrange(i as int, n as int)) + value(q.subrange(i as int, n as int))
                == carry * pow2((n - i) as nat) + value(sum@.subrange(i as int, n as int)),
        decreases i,
    {
        i -= 1;
        let a = zero_fill_left[i];
        let b = zero_fill_right[i];
        let lr_sum = a ^ b;
        let lr_carry = a & b;
        let bit = lr_sum ^ carry;
        let lr_sum_carry = lr_sum & carry;
        let ghost c = carry;
        carry = lr_carry | lr_sum_carry;
        assert(is_bit(bit) && is_bit(carry) && a + b + c == bit + 2 * carry) by (bit_vector)
            requires
                a == 0 || a == 1,
                b == 0 || b == 1,
                c == 0 || c == 1,
                bit == (a ^ b) ^ c,
                carry == (a & b) | ((a ^ b) & c),
        ;
        let ghost old_sum = sum@;
        sum.set(i, bit);
        proof {
            let k = (n - i - 1) as nat;
            let pt = p.subrange(i + 1, n as int);
            let qt = q.subrange(i + 1, n as int);
            let st = old_sum.subrange(i + 1, n as int);
            assert(p.subrange(i as int, n as int) =~= seq![a] + pt);
            assert(q.subrange(i as int, n as int) =~= seq![b] + qt);
            assert(sum@.subrange(i as int, n as int) =~= seq![bit] + st);
            lemma_value_cons(a, pt);
            lemma_value_cons(b, qt);
            lemma_value_cons(bit, st);
            assert(pow2(k + 1) == 2 * pow2(k));
            lemma_carry_step(a as int, b as int, c as int, bit as int, carry as int, pow2(k) as int,
                value(pt) as int, value(qt) as int, value(st) as int);
        }
    }
    let ghost low = sum@;
    sum.insert(0, carry);
    proof {
        assert(p.subrange(0, n as int) =~= p);
        assert(q.subrange(0, n as int) =~= q);
        assert(sum@ =~= seq![carry] + sum@.subrange(1, n + 1));
        assert(sum@.subrange(1, n + 1) =~= low.subrange(0, n as int));
        lemma_value_cons(carry, low);
        assert(low.subrange(0, n as int) =~= low);
        assert(bit_val(carry) == carry);
        assert(value(p) == value(left@));
        assert(value(q) == value(right@));
    }
    sum
}

} // verus!
