//! Hamming weight and distance of words over GF(2^8), and the minimum distance of the
//! Reed-Solomon code: a nonzero codeword with `k` parity symbols has more than `k` nonzero
//! symbols, so a word lies within `k / 2` symbols of at most one codeword.
use vstd::prelude::*;

use crate::gf::{
    apow, glog, gmul, lemma_apow_add, lemma_apow_nonzero, lemma_apow_period, lemma_glog,
    lemma_gmul_assoc, lemma_gmul_comm, lemma_gmul_distrib, lemma_gmul_one, lemma_gmul_zero,
};
use crate::poly::{is_codeword, lemma_eval_scale, lemma_eval_xor, lemma_xor_facts, poly_eval, scale, xor_seq};

verus! {

/// The number of nonzero symbols of `s`.
pub open spec fn weight(s: Seq<u8>) -> nat
    decreases s.len(),
{
    if s.len() == 0 {
        0
    } else {
        weight(s.drop_last()) + if s.last() != 0 {
            1nat
        } else {
            0nat
        }
    }
}

/// The number of positions at which `a` and `b` differ.
pub open spec fn distance(a: Seq<u8>, b: Seq<u8>) -> nat {
    weight(xor_seq(a, b))
}

/// Whether no power `2^d` with `1 <= d <= n` is 1.
spec fn order_exceeds(n: nat) -> bool
    decreases n,
{
    if n == 0 {
        true
    } else {
        apow(n) != 1 && order_exceeds((n - 1) as nat)
    }
}

proof fn lemma_order_table()
    ensures
        order_exceeds(254),
{
    assert(order_exceeds(254)) by (bit_vector);
}

proof fn lemma_order_below(n: nat, d: nat)
    requires
        order_exceeds(n),
        1 <= d <= n,
    ensures
        apow(d) != 1,
    decreases n,
{
    if d < n {
        lemma_order_below((n - 1) as nat, d);
    }
}

/// 2 has order 255: its powers with exponents below 255 are distinct.
pub proof fn lemma_apow_injective(i: nat, j: nat)
    requires
        i < 255,
        j < 255,
        apow(i) == apow(j),
    ensures
        i == j,
{
    if i != j {
        let (lo, hi) = if i < j {
            (i, j)
        } else {
            (j, i)
        };
        let d = (hi - lo) as nat;
        lemma_apow_add(lo, d);
        let inv = apow((255 - lo) as nat);
        lemma_apow_add((255 - lo) as nat, lo);
        lemma_apow_period(0);
        assert(apow(0) == 1);
        lemma_gmul_assoc(inv, apow(lo), apow(d));
        lemma_gmul_comm(1, apow(d));
        lemma_gmul_one(apow(d));
        lemma_gmul_one(inv);
        assert(gmul(inv, apow(lo)) == 1);
        assert(gmul(inv, apow(hi)) == gmul(1, apow(d)));
        lemma_order_table();
        lemma_order_below(254, d);
    }
}

/// GF(2^8) has no zero divisors.
pub proof fn lemma_no_zero_divisors(a: u8, b: u8)
    requires
        a != 0,
        b != 0,
    ensures
        gmul(a, b) != 0,
{
    lemma_glog(a);
    lemma_glog(b);
    lemma_apow_add(glog(a), glog(b));
    lemma_apow_nonzero(glog(a) + glog(b));
}

/// Words with nonzero symbols at the same positions have the same weight.
pub proof fn lemma_weight_same_support(a: Seq<u8>, b: Seq<u8>)
    requires
        a.len() == b.len(),
        forall|i: int| 0 <= i < a.len() ==> (a[i] != 0 <==> b[i] != 0),
    ensures
        weight(a) == weight(b),
    decreases a.len(),
{
    if a.len() > 0 {
        lemma_weight_same_support(a.drop_last(), b.drop_last());
        assert(a.last() != 0 <==> b.last() != 0);
    }
}

/// Clearing a nonzero symbol lowers the weight by one.
pub proof fn lemma_weight_clear(s: Seq<u8>, j: int)
    requires
        0 <= j < s.len(),
        s[j] != 0,
    ensures
        weight(s.update(j, 0u8)) + 1 == weight(s),
    decreases s.len(),
{
    let u = s.update(j, 0u8);
    if j == s.len() - 1 {
        assert(u.drop_last() =~= s.drop_last());
    } else {
        assert(u.drop_last() =~= s.drop_last().update(j, 0u8));
        lemma_weight_clear(s.drop_last(), j);
    }
}

/// A word of weight zero is all zeros.
pub proof fn lemma_weight_zero(s: Seq<u8>, i: int)
    requires
        weight(s) == 0,
        0 <= i < s.len(),
    ensures
        s[i] == 0,
{
    if s[i] != 0 {
        lemma_weight_clear(s, i);
    }
}

/// Two bytes are equal exactly when their sum (xor) is zero; adding one of them to the sum
/// gives the other.
pub proof fn lemma_xor_equal(p: u8, q: u8)
    ensures
        (p ^ q == 0) <==> (p == q),
        p ^ (p ^ q) == q,
        q ^ (p ^ q) == p,
{
    assert(((p ^ q == 0) <==> (p == q)) && p ^ (p ^ q) == q && q ^ (p ^ q) == p) by (bit_vector);
}

/// Words at distance zero are equal.
pub proof fn lemma_distance_zero(a: Seq<u8>, b: Seq<u8>)
    requires
        a.len() == b.len(),
        distance(a, b) == 0,
    ensures
        a == b,
{
    assert forall|i: int| 0 <= i < a.len() implies a[i] == b[i] by {
        lemma_weight_zero(xor_seq(a, b), i);
        let p = a[i];
        let q = b[i];
        lemma_xor_equal(p, q);
    }
    assert(a =~= b);
}

/// The distance is symmetric.
pub proof fn lemma_distance_symmetric(a: Seq<u8>, b: Seq<u8>)
    requires
        a.len() == b.len(),
    ensures
        distance(a, b) == distance(b, a),
{
    assert forall|i: int| 0 <= i < a.len() implies #[trigger] xor_seq(a, b)[i] == xor_seq(b, a)[i] by {
        lemma_xor_facts(a[i], b[i], 0, 0);
    }
    assert(xor_seq(a, b) =~= xor_seq(b, a));
}

/// The distance obeys the triangle inequality.
pub proof fn lemma_distance_triangle(a: Seq<u8>, b: Seq<u8>, c: Seq<u8>)
    requires
        a.len() == b.len(),
        b.len() == c.len(),
    ensures
        distance(a, c) <= distance(a, b) + distance(b, c),
    decreases a.len(),
{
    if a.len() > 0 {
        assert(xor_seq(a, c).drop_last() =~= xor_seq(a.drop_last(), c.drop_last()));
        assert(xor_seq(a, b).drop_last() =~= xor_seq(a.drop_last(), b.drop_last()));
        assert(xor_seq(b, c).drop_last() =~= xor_seq(b.drop_last(), c.drop_last()));
        lemma_distance_triangle(a.drop_last(), b.drop_last(), c.drop_last());
        let x = a.last();
        let y = b.last();
        let z = c.last();
        assert(x ^ z != 0 ==> x ^ y != 0 || y ^ z != 0) by (bit_vector);
    }
}

/// Every symbol multiplied by the power of 2 of its degree.
pub open spec fn degree_scaled(v: Seq<u8>) -> Seq<u8> {
    Seq::new(v.len(), |i: int| gmul(v[i], apow((v.len() - 1 - i) as nat)))
}

/// Scaling each symbol by `2^degree` evaluates as the word does at the next power of 2.
pub proof fn lemma_eval_degree_scaled(v: Seq<u8>, t: nat)
    ensures
        poly_eval(degree_scaled(v), apow(t)) == poly_eval(v, apow(t + 1)),
    decreases v.len(),
{
    if v.len() > 0 {
        let n = v.len();
        let w = degree_scaled(v);
        let w1 = degree_scaled(v.drop_last());
        assert forall|i: int| 0 <= i < n - 1 implies #[trigger] w.drop_last()[i] == scale(
            w1,
            apow(1),
        )[i] by {
            let d = (n - 2 - i) as nat;
            lemma_gmul_assoc(v[i], apow(d), apow(1));
            lemma_apow_add(d, 1);
        }
        assert(w.drop_last() =~= scale(w1, apow(1)));
        lemma_gmul_one(v.last());
        assert(w.last() == v.last());
        lemma_eval_degree_scaled(v.drop_last(), t);
        lemma_eval_scale(w1, apow(1), apow(t));
        let e = poly_eval(v.drop_last(), apow(t + 1));
        lemma_gmul_assoc(e, apow(1), apow(t));
        lemma_apow_add(1, t);
    }
}

/// A word that is zero but at `j` evaluates at 1 to its symbol at `j`.
pub proof fn lemma_eval_one_single(v: Seq<u8>, j: int)
    requires
        0 <= j < v.len(),
        forall|i: int| 0 <= i < v.len() && i != j ==> v[i] == 0,
    ensures
        poly_eval(v, 1) == v[j],
    decreases v.len(),
{
    lemma_xor_facts(v[j], 0, 0, 0);
    lemma_gmul_one(poly_eval(v.drop_last(), 1));
    if j == v.len() - 1 {
        lemma_zero_word_eval(v.drop_last());
    } else {
        lemma_eval_one_single(v.drop_last(), j);
    }
}

proof fn lemma_zero_word_eval(v: Seq<u8>)
    requires
        forall|i: int| 0 <= i < v.len() ==> v[i] == 0,
    ensures
        poly_eval(v, 1) == 0,
    decreases v.len(),
{
    if v.len() > 0 {
        lemma_zero_word_eval(v.drop_last());
        lemma_gmul_zero(1);
        lemma_xor_facts(0, 0, 0, 0);
    }
}

/// A codeword of at most 255 symbols with `k` parity symbols and at most `k` nonzero symbols
/// is zero.
pub proof fn lemma_light_codeword_is_zero(v: Seq<u8>, k: nat)
    requires
        v.len() <= 255,
        is_codeword(v, k),
        weight(v) <= k,
    ensures
        forall|i: int| 0 <= i < v.len() ==> v[i] == 0,
    decreases k,
{
    if exists|j: int| 0 <= j < v.len() && v[j] != 0 {
        let j = choose|j: int| 0 <= j < v.len() && v[j] != 0;
        let n = v.len();
        lemma_weight_clear(v, j);
        let z = apow((n - 1 - j) as nat);
        let w = xor_seq(degree_scaled(v), scale(v, z));
        let u = v.update(j, 0u8);
        assert forall|i: int| 0 <= i < n implies (#[trigger] w[i] != 0 <==> u[i] != 0) by {
            let x = apow((n - 1 - i) as nat);
            lemma_gmul_distrib(v[i], x, z);
            lemma_gmul_zero(v[i]);
            lemma_gmul_zero(x ^ z);
            lemma_xor_facts(x, z, 0, 0);
            assert(degree_scaled(v)[i] == gmul(v[i], x));
            assert(scale(v, z)[i] == gmul(v[i], z));
            assert(w[i] == gmul(v[i], x ^ z));
            if i == j {
                assert(x ^ z == 0);
            } else {
                assert(u[i] == v[i]);
                if x == z {
                    lemma_apow_injective((n - 1 - i) as nat, (n - 1 - j) as nat);
                }
                lemma_xor_equal(x, z);
                if v[i] != 0 {
                    lemma_no_zero_divisors(v[i], x ^ z);
                }
            }
        }
        lemma_weight_same_support(w, u);
        if k == 0 {
        } else {
            let k1 = (k - 1) as nat;
            assert forall|t: nat| t < k1 implies #[trigger] poly_eval(w, apow(t)) == 0 by {
                lemma_eval_xor(degree_scaled(v), scale(v, z), apow(t));
                lemma_eval_degree_scaled(v, t);
                lemma_eval_scale(v, z, apow(t));
                assert(poly_eval(v, apow(t)) == 0);
                assert(poly_eval(v, apow(t + 1)) == 0);
                lemma_gmul_zero(z);
                lemma_xor_facts(0, 0, 0, 0);
            }
            lemma_light_codeword_is_zero(w, k1);
            assert forall|i: int| 0 <= i < n && i != j implies v[i] == 0 by {
                assert(w[i] == 0);
            }
            lemma_eval_one_single(v, j);
            assert(poly_eval(v, apow(0)) == 0);
        }
    }
}

/// Two codewords of at most 255 symbols with `k` parity symbols that differ in at most `k`
/// positions are equal.
pub proof fn lemma_codewords_apart(a: Seq<u8>, b: Seq<u8>, k: nat)
    requires
        a.len() == b.len(),
        a.len() <= 255,
        is_codeword(a, k),
        is_codeword(b, k),
        distance(a, b) <= k,
    ensures
        a == b,
{
    let x = xor_seq(a, b);
    assert forall|t: nat| t < k implies #[trigger] poly_eval(x, apow(t)) == 0 by {
        lemma_eval_xor(a, b, apow(t));
        lemma_xor_facts(0, 0, 0, 0);
    }
    lemma_light_codeword_is_zero(x, k);
    assert forall|i: int| 0 <= i < a.len() implies a[i] == b[i] by {
        let p = a[i];
        let q = b[i];
        assert(x[i] == p ^ q);
        lemma_xor_equal(p, q);
    }
    assert(a =~= b);
}

/// A word lies within `k / 2` symbols of at most one codeword with `k` parity symbols.
pub proof fn lemma_nearest_codeword_unique(r: Seq<u8>, c1: Seq<u8>, c2: Seq<u8>, k: nat)
    requires
        r.len() == c1.len(),
        r.len() == c2.len(),
        r.len() <= 255,
        is_codeword(c1, k),
        is_codeword(c2, k),
        2 * distance(r, c1) <= k,
        2 * distance(r, c2) <= k,
    ensures
        c1 == c2,
{
    lemma_distance_symmetric(r, c1);
    lemma_distance_triangle(c1, r, c2);
    lemma_codewords_apart(c1, c2, k);
}

/// `a` raised to the power `m`.
pub open spec fn power(a: u8, m: nat) -> u8
    decreases m,
{
    if m == 0 {
        1
    } else {
        gmul(power(a, (m - 1) as nat), a)
    }
}

/// The powers of 2 are `apow`; the powers of 1 are 1.
pub proof fn lemma_power_of_two(m: nat)
    ensures
        power(apow(1), m) == apow(m),
        power(1, m) == 1,
    decreases m,
{
    if m > 0 {
        lemma_power_of_two((m - 1) as nat);
        lemma_apow_add((m - 1) as nat, 1);
        lemma_gmul_one(1);
    }
}

/// A word of zeros has weight zero.
pub proof fn lemma_weight_all_zero(s: Seq<u8>)
    requires
        forall|i: int| 0 <= i < s.len() ==> s[i] == 0,
    ensures
        weight(s) == 0,
    decreases s.len(),
{
    if s.len() > 0 {
        lemma_weight_all_zero(s.drop_last());
    }
}

/// A word that is zero but at `j` evaluates at `a` to its symbol at `j` times `a` to the
/// degree of `j`.
pub proof fn lemma_eval_single(v: Seq<u8>, j: int, a: u8)
    requires
        0 <= j < v.len(),
        forall|i: int| 0 <= i < v.len() && i != j ==> v[i] == 0,
    ensures
        poly_eval(v, a) == gmul(v[j], power(a, (v.len() - 1 - j) as nat)),
    decreases v.len(),
{
    let n = v.len();
    if j == n - 1 {
        lemma_weight_all_zero(v.drop_last());
        assert(v.drop_last() =~= crate::poly::zeros((n - 1) as nat));
        crate::poly::lemma_eval_zeros((n - 1) as nat, a);
        lemma_gmul_zero(a);
        lemma_gmul_one(v[j]);
        lemma_xor_facts(v[j], 0, 0, 0);
    } else {
        lemma_eval_single(v.drop_last(), j, a);
        let m = (n - 2 - j) as nat;
        lemma_gmul_assoc(v[j], power(a, m), a);
        lemma_xor_facts(gmul(poly_eval(v.drop_last(), a), a), 0, 0, 0);
    }
}

/// Multiplication by a nonzero element cancels.
pub proof fn lemma_gmul_cancel(y: u8, a: u8, b: u8)
    requires
        y != 0,
        gmul(a, y) == gmul(b, y),
    ensures
        a == b,
{
    lemma_gmul_distrib(y, a, b);
    lemma_xor_facts(gmul(a, y), 0, 0, 0);
    if a ^ b != 0 {
        lemma_no_zero_divisors(a ^ b, y);
    }
    lemma_xor_equal(a, b);
}

} // verus!
