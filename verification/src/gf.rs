//! Arithmetic in GF(2^8) with the reduction polynomial x^8 + x^4 + x^3 + x^2 + 1,
//! stated without tables, and the facts about it that the codec relies on.
use vstd::prelude::*;

verus! {

/// Multiplication by x (the element 2), reduced modulo the field polynomial.
pub open spec fn xtime(a: u8) -> u8 {
    if a & 0x80u8 == 0 {
        a << 1u8
    } else {
        (a << 1u8) ^ 0x1du8
    }
}

/// The exclusive-or of those of `t0..t7` that the bits of `b` select, bit k selecting `tk`.
pub open spec fn sel(b: u8, t0: u8, t1: u8, t2: u8, t3: u8, t4: u8, t5: u8, t6: u8, t7: u8) -> u8 {
    (if b & 1u8 != 0 { t0 } else { 0u8 }) ^ (if b & 2u8 != 0 { t1 } else { 0u8 }) ^ (if b & 4u8
        != 0 {
        t2
    } else {
        0u8
    }) ^ (if b & 8u8 != 0 { t3 } else { 0u8 }) ^ (if b & 16u8 != 0 { t4 } else { 0u8 }) ^ (if b
        & 32u8 != 0 {
        t5
    } else {
        0u8
    }) ^ (if b & 64u8 != 0 { t6 } else { 0u8 }) ^ (if b & 128u8 != 0 { t7 } else { 0u8 })
}

/// `a` multiplied by x^k.
pub open spec fn xpow(a: u8, k: nat) -> u8
    decreases k,
{
    if k == 0 {
        a
    } else {
        xtime(xpow(a, (k - 1) as nat))
    }
}

/// Carry-less product of `a` and `b` reduced modulo the field polynomial.
pub open spec fn gmul(a: u8, b: u8) -> u8 {
    sel(
        b,
        xpow(a, 0),
        xpow(a, 1),
        xpow(a, 2),
        xpow(a, 3),
        xpow(a, 4),
        xpow(a, 5),
        xpow(a, 6),
        xpow(a, 7),
    )
}

/// The powers of the generator element 2.
pub open spec fn apow(n: nat) -> u8
    decreases n,
{
    if n == 0 {
        1u8
    } else {
        xtime(apow((n - 1) as nat))
    }
}

proof fn lemma_xpow_unfold(a: u8)
    ensures
        xpow(a, 0) == a,
        xpow(a, 1) == xtime(a),
        xpow(a, 2) == xtime(xtime(a)),
        xpow(a, 3) == xtime(xtime(xtime(a))),
        xpow(a, 4) == xtime(xtime(xtime(xtime(a)))),
        xpow(a, 5) == xtime(xtime(xtime(xtime(xtime(a))))),
        xpow(a, 6) == xtime(xtime(xtime(xtime(xtime(xtime(a)))))),
        xpow(a, 7) == xtime(xtime(xtime(xtime(xtime(xtime(xtime(a))))))),
        xpow(a, 8) == xtime(xtime(xtime(xtime(xtime(xtime(xtime(xtime(a)))))))),
{
    reveal_with_fuel(xpow, 9);
}

proof fn lemma_xtime_linear(a: u8, b: u8)
    ensures
        xtime(a ^ b) == xtime(a) ^ xtime(b),
        xtime(0) == 0,
{
    assert(xtime(a ^ b) == xtime(a) ^ xtime(b)) by (bit_vector);
    assert(xtime(0) == 0) by (bit_vector);
}

proof fn lemma_xpow_linear(a: u8, b: u8, k: nat)
    ensures
        xpow(a ^ b, k) == xpow(a, k) ^ xpow(b, k),
    decreases k,
{
    if k > 0 {
        lemma_xpow_linear(a, b, (k - 1) as nat);
        lemma_xtime_linear(xpow(a, (k - 1) as nat), xpow(b, (k - 1) as nat));
    }
}

proof fn lemma_sel_linear(
    b: u8,
    u0: u8, u1: u8, u2: u8, u3: u8, u4: u8, u5: u8, u6: u8, u7: u8,
    v0: u8, v1: u8, v2: u8, v3: u8, v4: u8, v5: u8, v6: u8, v7: u8,
)
    ensures
        sel(b, u0 ^ v0, u1 ^ v1, u2 ^ v2, u3 ^ v3, u4 ^ v4, u5 ^ v5, u6 ^ v6, u7 ^ v7) == sel(
            b, u0, u1, u2, u3, u4, u5, u6, u7) ^ sel(b, v0, v1, v2, v3, v4, v5, v6, v7),
{
    assert(sel(b, u0 ^ v0, u1 ^ v1, u2 ^ v2, u3 ^ v3, u4 ^ v4, u5 ^ v5, u6 ^ v6, u7 ^ v7) == sel(
        b, u0, u1, u2, u3, u4, u5, u6, u7) ^ sel(b, v0, v1, v2, v3, v4, v5, v6, v7)) by (bit_vector);
}

proof fn lemma_sel_xtime(b: u8, t0: u8, t1: u8, t2: u8, t3: u8, t4: u8, t5: u8, t6: u8, t7: u8)
    ensures
        xtime(sel(b, t0, t1, t2, t3, t4, t5, t6, t7)) == sel(
            b, xtime(t0), xtime(t1), xtime(t2), xtime(t3), xtime(t4), xtime(t5), xtime(t6), xtime(t7)),
{
    assert(xtime(sel(b, t0, t1, t2, t3, t4, t5, t6, t7)) == sel(
        b, xtime(t0), xtime(t1), xtime(t2), xtime(t3), xtime(t4), xtime(t5), xtime(t6), xtime(t7)))
        by (bit_vector);
}

proof fn lemma_sel_shift(b: u8, t0: u8, t1: u8, t2: u8, t3: u8, t4: u8, t5: u8, t6: u8, t7: u8, t8: u8)
    requires
        t8 == t0 ^ t2 ^ t3 ^ t4,
    ensures
        sel(xtime(b), t0, t1, t2, t3, t4, t5, t6, t7) == sel(b, t1, t2, t3, t4, t5, t6, t7, t8),
{
    assert(sel(xtime(b), t0, t1, t2, t3, t4, t5, t6, t7) == sel(b, t1, t2, t3, t4, t5, t6, t7, t8))
        by (bit_vector)
        requires
            t8 == t0 ^ t2 ^ t3 ^ t4,
    ;
}

proof fn lemma_x8(a: u8)
    ensures
        xpow(a, 8) == xpow(a, 0) ^ xpow(a, 2) ^ xpow(a, 3) ^ xpow(a, 4),
{
    lemma_xpow_unfold(a);
    assert(xtime(xtime(xtime(xtime(xtime(xtime(xtime(xtime(a)))))))) == a ^ xtime(xtime(a)) ^ xtime(
        xtime(xtime(a)),
    ) ^ xtime(xtime(xtime(xtime(a))))) by (bit_vector);
}

proof fn lemma_sel_consts(b: u8, t0: u8, t1: u8, t2: u8, t3: u8, t4: u8, t5: u8, t6: u8, t7: u8)
    ensures
        sel(0u8, t0, t1, t2, t3, t4, t5, t6, t7) == 0u8,
        sel(1u8, t0, t1, t2, t3, t4, t5, t6, t7) == t0,
        sel(b, 0u8, 0u8, 0u8, 0u8, 0u8, 0u8, 0u8, 0u8) == 0u8,
{
    assert(sel(0u8, t0, t1, t2, t3, t4, t5, t6, t7) == 0u8) by (bit_vector);
    assert(sel(1u8, t0, t1, t2, t3, t4, t5, t6, t7) == t0) by (bit_vector);
    assert(sel(b, 0u8, 0u8, 0u8, 0u8, 0u8, 0u8, 0u8, 0u8) == 0u8) by (bit_vector);
}

/// Zero absorbs: `a * 0 == 0 * a == 0`.
pub proof fn lemma_gmul_zero(a: u8)
    ensures
        gmul(a, 0) == 0,
        gmul(0, a) == 0,
{
    lemma_xpow_unfold(0);
    lemma_xtime_linear(0, 0);
    lemma_sel_consts(a, xpow(a, 0), xpow(a, 1), xpow(a, 2), xpow(a, 3), xpow(a, 4), xpow(a, 5), xpow(a, 6), xpow(a, 7));
}

/// One is the unit: `a * 1 == a`.
pub proof fn lemma_gmul_one(a: u8)
    ensures
        gmul(a, 1) == a,
{
    lemma_xpow_unfold(a);
    lemma_sel_consts(1, xpow(a, 0), xpow(a, 1), xpow(a, 2), xpow(a, 3), xpow(a, 4), xpow(a, 5), xpow(a, 6), xpow(a, 7));
}

/// Multiplying by `2 * b` is doubling the product with `b`.
pub proof fn lemma_gmul_xtime(a: u8, b: u8)
    ensures
        gmul(a, xtime(b)) == xtime(gmul(a, b)),
{
    lemma_xpow_unfold(a);
    lemma_x8(a);
    lemma_sel_xtime(b, xpow(a, 0), xpow(a, 1), xpow(a, 2), xpow(a, 3), xpow(a, 4), xpow(a, 5), xpow(a, 6), xpow(a, 7));
    lemma_sel_shift(b, xpow(a, 0), xpow(a, 1), xpow(a, 2), xpow(a, 3), xpow(a, 4), xpow(a, 5), xpow(a, 6), xpow(a, 7), xpow(a, 8));
}

/// Multiplication distributes over addition (xor), on either side.
pub proof fn lemma_gmul_distrib(a: u8, b: u8, c: u8)
    ensures
        gmul(a, b ^ c) == gmul(a, b) ^ gmul(a, c),
        gmul(b ^ c, a) == gmul(b, a) ^ gmul(c, a),
{
    let (t0, t1, t2, t3, t4, t5, t6, t7) = (xpow(a, 0), xpow(a, 1), xpow(a, 2), xpow(a, 3), xpow(a, 4), xpow(a, 5), xpow(a, 6), xpow(a, 7));
    assert(sel(b ^ c, t0, t1, t2, t3, t4, t5, t6, t7) == sel(b, t0, t1, t2, t3, t4, t5, t6, t7) ^ sel(c, t0, t1, t2, t3, t4, t5, t6, t7)) by (bit_vector);
    lemma_xpow_linear(b, c, 0);
    lemma_xpow_linear(b, c, 1);
    lemma_xpow_linear(b, c, 2);
    lemma_xpow_linear(b, c, 3);
    lemma_xpow_linear(b, c, 4);
    lemma_xpow_linear(b, c, 5);
    lemma_xpow_linear(b, c, 6);
    lemma_xpow_linear(b, c, 7);
    lemma_sel_linear(a, xpow(b, 0), xpow(b, 1), xpow(b, 2), xpow(b, 3), xpow(b, 4), xpow(b, 5), xpow(b, 6), xpow(b, 7), xpow(c, 0), xpow(c, 1), xpow(c, 2), xpow(c, 3), xpow(c, 4), xpow(c, 5), xpow(c, 6), xpow(c, 7));
}

/// Whether `v` is one of `apow(0)`, ..., `apow(n - 1)`.
pub open spec fn is_low_power(v: u8, n: nat) -> bool
    decreases n,
{
    if n == 0 {
        false
    } else {
        apow((n - 1) as nat) == v || is_low_power(v, (n - 1) as nat)
    }
}

proof fn lemma_cycle()
    ensures
        apow(255) == 1,
{
    assert(apow(255) == 1) by (bit_vector);
}

proof fn lemma_generates(v: u8)
    requires
        v != 0,
    ensures
        is_low_power(v, 255),
{
    assert(v != 0 ==> is_low_power(v, 255)) by (bit_vector);
}

/// The exponent of a nonzero element: the least `j` with `apow(j) == v`.
pub open spec fn glog(v: u8) -> nat {
    choose|j: nat| j < 255 && apow(j) == v
}

proof fn lemma_low_power_witness(v: u8, n: nat)
    requires
        is_low_power(v, n),
    ensures
        exists|j: nat| j < n && apow(j) == v,
    decreases n,
{
    if n > 0 && apow((n - 1) as nat) != v {
        lemma_low_power_witness(v, (n - 1) as nat);
    }
}

/// Every nonzero element is a power of 2 with exponent below 255.
pub proof fn lemma_glog(v: u8)
    requires
        v != 0,
    ensures
        glog(v) < 255,
        apow(glog(v)) == v,
{
    lemma_generates(v);
    lemma_low_power_witness(v, 255);
}

/// `2^i * 2^j == 2^(i + j)`.
pub proof fn lemma_apow_add(i: nat, j: nat)
    ensures
        gmul(apow(i), apow(j)) == apow(i + j),
    decreases j,
{
    if j == 0 {
        lemma_gmul_one(apow(i));
    } else {
        lemma_apow_add(i, (j - 1) as nat);
        lemma_gmul_xtime(apow(i), apow((j - 1) as nat));
        assert(apow(i + j) == xtime(apow((i + j - 1) as nat)));
    }
}

/// Powers of 2 repeat with period 255.
pub proof fn lemma_apow_period(i: nat)
    ensures
        apow(i + 255) == apow(i),
{
    lemma_cycle();
    lemma_apow_add(i, 255);
    lemma_gmul_one(apow(i));
}

/// No power of 2 is zero.
pub proof fn lemma_apow_nonzero(i: nat)
    ensures
        apow(i) != 0,
    decreases i,
{
    if i > 0 {
        lemma_apow_nonzero((i - 1) as nat);
        let p = apow((i - 1) as nat);
        assert(p != 0 ==> xtime(p) != 0) by (bit_vector);
    }
}

/// Multiplication is commutative.
pub proof fn lemma_gmul_comm(a: u8, b: u8)
    ensures
        gmul(a, b) == gmul(b, a),
{
    lemma_gmul_zero(a);
    lemma_gmul_zero(b);
    if a != 0 && b != 0 {
        lemma_glog(a);
        lemma_glog(b);
        lemma_apow_add(glog(a), glog(b));
        lemma_apow_add(glog(b), glog(a));
    }
}

/// Multiplication is associative.
pub proof fn lemma_gmul_assoc(a: u8, b: u8, c: u8)
    ensures
        gmul(gmul(a, b), c) == gmul(a, gmul(b, c)),
{
    lemma_gmul_zero(a);
    lemma_gmul_zero(b);
    lemma_gmul_zero(c);
    if a != 0 && b != 0 && c != 0 {
        lemma_glog(a);
        lemma_glog(b);
        lemma_glog(c);
        let (i, j, k) = (glog(a), glog(b), glog(c));
        lemma_apow_add(i, j);
        lemma_apow_add(j, k);
        lemma_apow_add(i + j, k);
        lemma_apow_add(i, j + k);
        assert(i + j + k == i + (j + k));
    } else if a != 0 && b != 0 {
        lemma_glog(a);
        lemma_glog(b);
        lemma_apow_add(glog(a), glog(b));
        lemma_gmul_zero(gmul(a, b));
    } else {
        lemma_gmul_zero(gmul(a, b));
        lemma_gmul_zero(gmul(b, c));
    }
}

/// The product is the carry-less product reduced modulo `x^8 + x^4 + x^3 + x^2 + 1` (0x11d):
/// `2 * 128 == 0x1d` (the reduction) and `3 * 2 == 6` (no reduction).
pub proof fn lemma_gmul_examples()
    ensures
        gmul(2, 128) == 0x1d,
        gmul(3, 2) == 6,
{
    assert(gmul(2, 128) == 0x1d && gmul(3, 2) == 6) by (bit_vector);
}

} // verus!
