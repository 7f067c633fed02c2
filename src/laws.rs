//! Algebraic laws of the bit-vector operations, stated over their models.
use vstd::prelude::*;
use crate::bits::{and_bits, bit_val, bits_of, is_bit, lemma_value_push, not_bits, or_bits, valid_bits, value, xor_bits, zeros};

verus! {

/// Converting a number to bits and reading those bits back gives the number:
/// `bits_to_number(number_to_bits(n)) == n`. The numeral is made of bits, is
/// never empty, and so fits the reader's precondition.
pub proof fn lemma_round_trip(n: u32)
    ensures
        value(bits_of(n as nat)) == n,
        valid_bits(bits_of(n as nat)),
        bits_of(n as nat).len() >= 1,
{
    lemma_bits_of(n as nat);
}

proof fn lemma_bits_of(n: nat)
    ensures
        value(bits_of(n)) == n,
        valid_bits(bits_of(n)),
        bits_of(n).len() >= 1,
    decreases n,
{
    if n < 2 {
        lemma_value_push(Seq::empty(), n as u8);
        assert(Seq::<u8>::empty().push(n as u8) =~= bits_of(n));
    } else {
        lemma_bits_of(n / 2);
        lemma_value_push(bits_of(n / 2), (n % 2) as u8);
        assert(bit_val((n % 2) as u8) == n % 2);
        let s = bits_of(n);
        assert forall|i: int| 0 <= i < s.len() implies is_bit(#[trigger] s[i]) by {
            if i < s.len() - 1 {
                assert(s[i] == bits_of(n / 2)[i]);
            }
        }
    }
}

/// Negating a vector of bits twice gives it back.
pub proof fn lemma_double_not(v: Seq<u8>)
    requires
        valid_bits(v),
    ensures
        not_bits(not_bits(v)) == v,
{
    assert forall|i: int| 0 <= i < v.len() implies not_bits(not_bits(v))[i] == v[i] by {
        assert(is_bit(v[i]));
    }
    assert(not_bits(not_bits(v)) =~= v);
}

/// AND, OR and XOR do not depend on the order of their operands.
pub proof fn lemma_commutative(l: Seq<u8>, r: Seq<u8>)
    requires
        l.len() == r.len(),
    ensures
        and_bits(l, r) == and_bits(r, l),
        or_bits(l, r) == or_bits(r, l),
        xor_bits(l, r) == xor_bits(r, l),
{
    assert forall|i: int| 0 <= i < l.len() implies and_bits(l, r)[i] == and_bits(r, l)[i]
        && or_bits(l, r)[i] == or_bits(r, l)[i] && xor_bits(l, r)[i] == xor_bits(r, l)[i] by {
        let (x, y) = (l[i], r[i]);
        assert(x & y == y & x && x | y == y | x && x ^ y == y ^ x) by (bit_vector);
    }
    assert(and_bits(l, r) =~= and_bits(r, l));
    assert(or_bits(l, r) =~= or_bits(r, l));
    assert(xor_bits(l, r) =~= xor_bits(r, l));
}

/// AND, OR and XOR group freely over vectors of one length.
pub proof fn lemma_associative(a: Seq<u8>, b: Seq<u8>, c: Seq<u8>)
    requires
        a.len() == b.len(),
        b.len() == c.len(),
    ensures
        and_bits(and_bits(a, b), c) == and_bits(a, and_bits(b, c)),
        or_bits(or_bits(a, b), c) == or_bits(a, or_bits(b, c)),
        xor_bits(xor_bits(a, b), c) == xor_bits(a, xor_bits(b, c)),
{
    assert forall|i: int| 0 <= i < a.len() implies and_bits(and_bits(a, b), c)[i] == and_bits(a, and_bits(b, c))[i]
        && or_bits(or_bits(a, b), c)[i] == or_bits(a, or_bits(b, c))[i]
        && xor_bits(xor_bits(a, b), c)[i] == xor_bits(a, xor_bits(b, c))[i] by {
        let (x, y, z) = (a[i], b[i], c[i]);
        assert((x & y) & z == x & (y & z) && (x | y) | z == x | (y | z) && (x ^ y) ^ z == x ^ (y ^ z))
            by (bit_vector);
    }
    assert(and_bits(and_bits(a, b), c) =~= and_bits(a, and_bits(b, c)));
    assert(or_bits(or_bits(a, b), c) =~= or_bits(a, or_bits(b, c)));
    assert(xor_bits(xor_bits(a, b), c) =~= xor_bits(a, xor_bits(b, c)));
}

/// A vector combined with itself: XOR clears every bit, AND and OR give it back.
pub proof fn lemma_self_combine(v: Seq<u8>)
    ensures
        xor_bits(v, v) == zeros(v.len()),
        and_bits(v, v) == v,
        or_bits(v, v) == v,
{
    assert forall|i: int| 0 <= i < v.len() implies xor_bits(v, v)[i] == 0 && and_bits(v, v)[i] == v[i]
        && or_bits(v, v)[i] == v[i] by {
        let x = v[i];
        assert(x ^ x == 0 && x & x == x && x | x == x) by (bit_vector);
    }
    assert(xor_bits(v, v) =~= zeros(v.len()));
    assert(and_bits(v, v) =~= v);
    assert(or_bits(v, v) =~= v);
}

} // verus!
