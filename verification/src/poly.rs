//! Polynomials over GF(2^8), coefficients listed from the highest power down,
//! and the facts about evaluation that the Reed-Solomon codec relies on.
use vstd::prelude::*;

use crate::gf::{
    apow, gmul, lemma_gmul_assoc, lemma_gmul_comm, lemma_gmul_distrib, lemma_gmul_one,
    lemma_gmul_zero,
};

verus! {

/// Horner evaluation of `p` (highest power first) at `a`.
pub open spec fn poly_eval(p: Seq<u8>, a: u8) -> u8
    decreases p.len(),
{
    if p.len() == 0 {
        0
    } else {
        gmul(poly_eval(p.drop_last(), a), a) ^ p.last()
    }
}

/// `n` zero bytes.
pub open spec fn zeros(n: nat) -> Seq<u8> {
    Seq::new(n, |i: int| 0u8)
}

/// Coefficient-wise sum of two polynomials of the same length.
pub open spec fn xor_seq(s: Seq<u8>, t: Seq<u8>) -> Seq<u8> {
    Seq::new(s.len(), |i: int| s[i] ^ t[i])
}

/// Every coefficient of `s` multiplied by `c`.
pub open spec fn scale(s: Seq<u8>, c: u8) -> Seq<u8> {
    Seq::new(s.len(), |i: int| gmul(s[i], c))
}

/// The coefficient of index `m` of `p * q`, summed over the rows `0..n` of `p`.
pub open spec fn conv(p: Seq<u8>, q: Seq<u8>, m: int, n: int) -> u8
    decreases n,
{
    if n <= 0 {
        0
    } else {
        conv(p, q, m, n - 1) ^ (if 0 <= m - (n - 1) < q.len() {
            gmul(p[n - 1], q[m - (n - 1)])
        } else {
            0
        })
    }
}

/// The product of two nonempty polynomials.
pub open spec fn poly_mul(p: Seq<u8>, q: Seq<u8>) -> Seq<u8> {
    Seq::new((p.len() + q.len() - 1) as nat, |m: int| conv(p, q, m, p.len() as int))
}

/// A word whose polynomial vanishes at `2^0, ..., 2^(k-1)`: a Reed-Solomon codeword with `k`
/// parity symbols.
pub open spec fn is_codeword(w: Seq<u8>, k: nat) -> bool {
    forall|t: nat| t < k ==> #[trigger] poly_eval(w, apow(t)) == 0
}

/// Addition (xor) has 0 as unit, every byte as its own inverse, and is commutative and
/// associative.
pub proof fn lemma_xor_facts(a: u8, b: u8, c: u8, d: u8)
    ensures
        a ^ 0 == a,
        0 ^ a == a,
        a ^ a == 0,
        a ^ b == b ^ a,
        (a ^ b) ^ c == a ^ (b ^ c),
        (a ^ b) ^ (c ^ d) == (a ^ c) ^ (b ^ d),
{
    assert(a ^ 0 == a) by (bit_vector);
    assert(0 ^ a == a) by (bit_vector);
    assert(a ^ a == 0) by (bit_vector);
    assert(a ^ b == b ^ a) by (bit_vector);
    assert((a ^ b) ^ c == a ^ (b ^ c)) by (bit_vector);
    assert((a ^ b) ^ (c ^ d) == (a ^ c) ^ (b ^ d)) by (bit_vector);
}

/// Evaluation distributes over the coefficient-wise sum.
pub proof fn lemma_eval_xor(s: Seq<u8>, t: Seq<u8>, a: u8)
    requires
        s.len() == t.len(),
    ensures
        poly_eval(xor_seq(s, t), a) == poly_eval(s, a) ^ poly_eval(t, a),
    decreases s.len(),
{
    lemma_xor_facts(0, 0, 0, 0);
    if s.len() > 0 {
        let x = xor_seq(s, t);
        assert(x.drop_last() =~= xor_seq(s.drop_last(), t.drop_last()));
        lemma_eval_xor(s.drop_last(), t.drop_last(), a);
        let es = poly_eval(s.drop_last(), a);
        let et = poly_eval(t.drop_last(), a);
        lemma_gmul_distrib(a, es, et);
        lemma_xor_facts(gmul(es, a), gmul(et, a), s.last(), t.last());
    }
}

/// The zero polynomial evaluates to zero.
pub proof fn lemma_eval_zeros(n: nat, a: u8)
    ensures
        poly_eval(zeros(n), a) == 0,
    decreases n,
{
    if n > 0 {
        assert(zeros(n).drop_last() =~= zeros((n - 1) as nat));
        lemma_eval_zeros((n - 1) as nat, a);
        lemma_gmul_zero(a);
        lemma_xor_facts(0, 0, 0, 0);
    }
}

/// Leading zero coefficients do not change the value.
pub proof fn lemma_eval_zeros_prefix(n: nat, s: Seq<u8>, a: u8)
    ensures
        poly_eval(zeros(n) + s, a) == poly_eval(s, a),
    decreases s.len(),
{
    if s.len() == 0 {
        assert(zeros(n) + s =~= zeros(n));
        lemma_eval_zeros(n, a);
    } else {
        assert((zeros(n) + s).drop_last() =~= zeros(n) + s.drop_last());
        lemma_eval_zeros_prefix(n, s.drop_last(), a);
    }
}

/// Trailing zero coefficients keep a root a root.
pub proof fn lemma_eval_zeros_suffix(s: Seq<u8>, n: nat, a: u8)
    requires
        poly_eval(s, a) == 0,
    ensures
        poly_eval(s + zeros(n), a) == 0,
    decreases n,
{
    if n == 0 {
        assert(s + zeros(n) =~= s);
    } else {
        assert((s + zeros(n)).drop_last() =~= s + zeros((n - 1) as nat));
        lemma_eval_zeros_suffix(s, (n - 1) as nat, a);
        lemma_gmul_zero(a);
        lemma_xor_facts(0, 0, 0, 0);
    }
}

/// Scaling every coefficient scales the value.
pub proof fn lemma_eval_scale(s: Seq<u8>, c: u8, a: u8)
    ensures
        poly_eval(scale(s, c), a) == gmul(poly_eval(s, a), c),
    decreases s.len(),
{
    if s.len() == 0 {
        lemma_gmul_zero(c);
    } else {
        assert(scale(s, c).drop_last() =~= scale(s.drop_last(), c));
        lemma_eval_scale(s.drop_last(), c, a);
        let e = poly_eval(s.drop_last(), a);
        lemma_gmul_assoc(e, c, a);
        lemma_gmul_comm(c, a);
        lemma_gmul_assoc(e, a, c);
        lemma_gmul_distrib(c, gmul(e, a), s.last());
    }
}

/// A shifted multiple of a polynomial with root `a` still has root `a`.
pub proof fn lemma_eval_shifted_multiple(i: nat, g: Seq<u8>, c: u8, rest: nat, a: u8)
    requires
        poly_eval(g, a) == 0,
    ensures
        poly_eval(zeros(i) + scale(g, c) + zeros(rest), a) == 0,
{
    lemma_eval_scale(g, c, a);
    lemma_gmul_zero(c);
    lemma_eval_zeros_suffix(scale(g, c), rest, a);
    assert(zeros(i) + scale(g, c) + zeros(rest) =~= zeros(i) + (scale(g, c) + zeros(rest)));
    lemma_eval_zeros_prefix(i, scale(g, c) + zeros(rest), a);
}

proof fn lemma_conv_linear_factor(p: Seq<u8>, r: u8, m: int, n: int)
    requires
        0 <= n <= p.len(),
        0 <= m,
    ensures
        conv(p, seq![1u8, r], m, n) == (if m < n { p[m] } else { 0u8 }) ^ (if 1 <= m <= n {
            gmul(p[m - 1], r)
        } else {
            0u8
        }),
    decreases n,
{
    let q = seq![1u8, r];
    lemma_xor_facts(0, 0, 0, 0);
    if n > 0 {
        lemma_conv_linear_factor(p, r, m, n - 1);
        let k = n - 1;
        if m == k {
            // the new row contributes p[m] * 1
            lemma_gmul_one(p[k]);
            let s = if 1 <= m <= k { gmul(p[m - 1], r) } else { 0u8 };
            lemma_xor_facts(s, p[k], 0, 0);
        } else if m == k + 1 {
            let s = gmul(p[k], r);
            lemma_xor_facts(0u8, s, 0, 0);
        } else {
            let prev = conv(p, q, m, n - 1);
            lemma_xor_facts(prev, 0, 0, 0);
        }
    }
}

/// Multiplying by `x + r` appends a zero and adds `r` times the polynomial shifted by one.
pub proof fn lemma_mul_linear_factor(p: Seq<u8>, r: u8)
    requires
        p.len() > 0,
    ensures
        poly_mul(p, seq![1u8, r]) =~= xor_seq(p.push(0u8), seq![0u8] + scale(p, r)),
{
    let lhs = poly_mul(p, seq![1u8, r]);
    let rhs = xor_seq(p.push(0u8), seq![0u8] + scale(p, r));
    assert forall|m: int| 0 <= m < lhs.len() implies lhs[m] == rhs[m] by {
        lemma_conv_linear_factor(p, r, m, p.len() as int);
    }
}

/// The value of `p * (x + r)` at `a` is the value of `p` times `a + r`.
pub proof fn lemma_eval_mul_linear_factor(p: Seq<u8>, r: u8, a: u8)
    requires
        p.len() > 0,
    ensures
        poly_eval(poly_mul(p, seq![1u8, r]), a) == gmul(poly_eval(p, a), a ^ r),
{
    lemma_mul_linear_factor(p, r);
    let e = poly_eval(p, a);
    lemma_eval_xor(p.push(0u8), seq![0u8] + scale(p, r), a);
    assert(p.push(0u8).drop_last() =~= p);
    lemma_xor_facts(gmul(e, a), 0, 0, 0);
    lemma_eval_zeros_prefix(1, scale(p, r), a);
    assert(zeros(1) =~= seq![0u8]);
    lemma_eval_scale(p, r, a);
    lemma_gmul_distrib(e, a, r);
}

} // verus!
