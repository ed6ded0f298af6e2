//! Reed-Solomon coding over GF(2^8) in blocks of at most 255 bytes.
use vstd::prelude::*;
use vstd::slice::{slice_subrange, slice_to_vec};

use crate::error::TSpineError;
use crate::gf::{
    apow, glog, gmul, lemma_apow_add, lemma_apow_nonzero, lemma_apow_period, lemma_glog,
    lemma_gmul_comm, lemma_gmul_one, lemma_gmul_zero, xtime,
};
use crate::distance::{
    distance, lemma_apow_injective, lemma_codewords_apart, lemma_distance_symmetric,
    lemma_eval_single, lemma_gmul_cancel, lemma_nearest_codeword_unique, lemma_no_zero_divisors,
    lemma_distance_zero, lemma_power_of_two, lemma_weight_all_zero, lemma_xor_equal, lemma_weight_clear, lemma_weight_zero, weight,
};
use crate::poly::{
    conv, is_codeword, lemma_eval_mul_linear_factor, lemma_eval_shifted_multiple, lemma_eval_xor,
    lemma_mul_linear_factor, lemma_xor_facts, poly_eval, poly_mul, scale, xor_seq, zeros,
};

verus! {

/// `out` is the block-wise systematic encoding of `data` with `k` parity bytes per block:
/// `data` is cut into pieces of `255 - k` bytes (the last may be shorter), and each piece is
/// followed by the `k` bytes that make piece and parity a codeword.
pub open spec fn is_rs_encoding(data: Seq<u8>, out: Seq<u8>, k: nat) -> bool
    decreases data.len(),
{
    if k == 0 {
        out == data
    } else if k >= 255 {
        false
    } else if data.len() == 0 {
        out.len() == 0
    } else {
        let n: nat = if data.len() < 255 - k {
            data.len()
        } else {
            (255 - k) as nat
        };
        &&& out.len() >= n + k
        &&& out.take(n as int) == data.take(n as int)
        &&& is_codeword(out.take((n + k) as int), k)
        &&& is_rs_encoding(data.skip(n as int), out.skip((n + k) as int), k)
    }
}

/// The length of the first block of an encoded stream.
pub open spec fn first_block_len(enc: Seq<u8>) -> nat {
    if enc.len() < 255 {
        enc.len()
    } else {
        255nat
    }
}

/// Every 255-byte block of `enc` (the last may be shorter) is a codeword with `k` parity bytes.
pub open spec fn blocks_are_codewords(enc: Seq<u8>, k: nat) -> bool
    decreases enc.len(),
{
    if enc.len() == 0 {
        true
    } else {
        let m = first_block_len(enc);
        &&& m >= k
        &&& is_codeword(enc.take(m as int), k)
        &&& blocks_are_codewords(enc.skip(m as int), k)
    }
}

/// `cw` has the length of `enc`, and each block of `cw` is a codeword with `k` parity bytes
/// that differs from the same block of `enc` in at most `k / 2` bytes.
pub open spec fn blocks_near(enc: Seq<u8>, cw: Seq<u8>, k: nat) -> bool
    decreases enc.len(),
{
    if enc.len() == 0 {
        cw.len() == 0
    } else {
        let m = first_block_len(enc);
        &&& cw.len() == enc.len()
        &&& is_codeword(cw.take(m as int), k)
        &&& 2 * distance(enc.take(m as int), cw.take(m as int)) <= k
        &&& blocks_near(enc.skip(m as int), cw.skip(m as int), k)
    }
}

/// `cw` has the length of `enc`, and each block of `cw` is a codeword with `k` parity bytes
/// that differs from the same block of `enc` in at most one byte.
pub open spec fn blocks_one_off(enc: Seq<u8>, cw: Seq<u8>, k: nat) -> bool
    decreases enc.len(),
{
    if enc.len() == 0 {
        cw.len() == 0
    } else {
        let m = first_block_len(enc);
        &&& cw.len() == enc.len()
        &&& is_codeword(cw.take(m as int), k)
        &&& distance(enc.take(m as int), cw.take(m as int)) <= 1
        &&& blocks_one_off(enc.skip(m as int), cw.skip(m as int), k)
    }
}

/// Near streams concatenate: a stream of whole blocks near `ac` followed by one near `bc` is
/// near `ac + bc`, whose data bytes are those of `ac` then those of `bc`.
pub proof fn lemma_blocks_near_append(a: Seq<u8>, ac: Seq<u8>, b: Seq<u8>, bc: Seq<u8>, k: nat)
    requires
        k <= 255,
        a.len() % 255 == 0,
        blocks_near(a, ac, k),
        blocks_near(b, bc, k),
    ensures
        blocks_near(a + b, ac + bc, k),
        data_part(ac + bc, k) == data_part(ac, k) + data_part(bc, k),
    decreases a.len(),
{
    if a.len() == 0 {
        assert(a + b =~= b);
        assert(ac + bc =~= bc);
        assert(data_part(ac, k) =~= seq![]);
        assert(data_part(ac, k) + data_part(bc, k) =~= data_part(bc, k));
    } else {
        vstd::arithmetic::div_mod::lemma_mod_is_zero(a.len() as nat, 255);
        let a2 = a.skip(255);
        let ac2 = ac.skip(255);
        assert(first_block_len(a) == 255);
        assert(a2.len() % 255 == 0) by {
            vstd::arithmetic::div_mod::lemma_mod_sub_multiples_vanish(a.len() as int, 255);
        }
        lemma_blocks_near_append(a2, ac2, b, bc, k);
        assert((a + b).take(255) =~= a.take(255));
        assert((ac + bc).take(255) =~= ac.take(255));
        assert((a + b).skip(255) =~= a2 + b);
        assert((ac + bc).skip(255) =~= ac2 + bc);
        assert(first_block_len(ac) == 255);
        assert(first_block_len(ac + bc) == 255);
        assert(data_part(ac + bc, k) =~= (ac + bc).take(255 - k) + data_part(ac2 + bc, k));
        assert((ac + bc).take(255 - k) =~= ac.take(255 - k));
        assert(data_part(ac, k) =~= ac.take(255 - k) + data_part(ac2, k));
        assert(data_part(ac + bc, k) =~= data_part(ac, k) + data_part(bc, k));
    }
}

/// A block of at most 255 bytes near a codeword is a stream of one block near it.
pub proof fn lemma_block_near(r: Seq<u8>, c: Seq<u8>, k: nat)
    requires
        1 <= r.len() <= 255,
        c.len() == r.len(),
        k <= r.len(),
        is_codeword(c, k),
        2 * distance(r, c) <= k,
    ensures
        blocks_near(r, c, k),
        data_part(c, k) == c.take(c.len() - k),
{
    assert(r.take(r.len() as int) =~= r);
    assert(c.take(c.len() as int) =~= c);
    assert(r.skip(r.len() as int) =~= seq![]);
    assert(c.skip(c.len() as int) =~= seq![]);
    assert(blocks_near(seq![], seq![], k));
    assert(data_part(seq![], k) =~= seq![]);
    assert(data_part(c, k) =~= c.take(c.len() - k) + data_part(seq![], k));
}

/// The data bytes of an encoded stream: each block without its last `k` bytes.
pub open spec fn data_part(enc: Seq<u8>, k: nat) -> Seq<u8>
    decreases enc.len(),
{
    if enc.len() == 0 {
        seq![]
    } else {
        let m = first_block_len(enc);
        enc.take(m - k) + data_part(enc.skip(m as int), k)
    }
}

/// Every block of a stream of length `len` holds at least `k` bytes.
pub open spec fn blocks_hold_parity(len: nat, k: nat) -> bool {
    len == 0 || k == 0 || (k <= 255 && (len % 255 == 0 || len % 255 >= k))
}

/// The length of the block-wise encoding of `n` data bytes with `k` parity bytes per block:
/// `k` more bytes for every started run of `255 - k` data bytes.
pub open spec fn rs_encoded_len(n: nat, k: nat) -> nat {
    if k == 0 || k >= 255 {
        n
    } else {
        let cd = (255 - k) as nat;
        (n / cd) * 255 + if n % cd > 0 {
            n % cd + k
        } else {
            0
        }
    }
}

/// A block-wise encoding has the length `rs_encoded_len` gives.
pub proof fn lemma_rs_encoding_len(data: Seq<u8>, out: Seq<u8>, k: nat)
    requires
        k < 255,
        is_rs_encoding(data, out, k),
    ensures
        out.len() == rs_encoded_len(data.len(), k),
    decreases data.len(),
{
    if k > 0 && data.len() == 0 {
        vstd::arithmetic::div_mod::lemma_fundamental_div_mod_converse(0, (255 - k) as int, 0, 0);
    }
    if k > 0 && data.len() > 0 {
        let cd = (255 - k) as nat;
        let n: nat = if data.len() < cd {
            data.len()
        } else {
            cd
        };
        lemma_rs_encoding_len(data.skip(n as int), out.skip((n + k) as int), k);
        assert(out.len() == n + k + out.skip((n + k) as int).len());
        assert(data.skip(n as int).len() == data.len() - n);
        if data.len() < cd {
            vstd::arithmetic::div_mod::lemma_fundamental_div_mod_converse(
                data.len() as int,
                cd as int,
                0,
                data.len() as int,
            );
            vstd::arithmetic::div_mod::lemma_fundamental_div_mod_converse(0, cd as int, 0, 0);
            assert(rs_encoded_len(0, k) == 0);
        } else {
            let m = (data.len() - cd) as nat;
            let q = m / cd;
            let r = m % cd;
            vstd::arithmetic::div_mod::lemma_fundamental_div_mod(m as int, cd as int);
            assert(data.len() == (q + 1) * cd + r) by (nonlinear_arith)
                requires
                    m == cd * q + r,
                    data.len() == m + cd,
            ;
            vstd::arithmetic::div_mod::lemma_fundamental_div_mod_converse(
                data.len() as int,
                cd as int,
                (q + 1) as int,
                r as int,
            );
            assert((q + 1) * 255 == q * 255 + 255) by (nonlinear_arith);
            assert(data.len() / cd == q + 1);
            assert(data.len() % cd == r);
            assert(rs_encoded_len(m, k) == q * 255 + if r > 0 {
                r + k
            } else {
                0
            });
        }
    }
}

/// Every block of an encoding of that length holds its parity bytes.
pub proof fn lemma_rs_encoded_len_blocks(n: nat, k: nat)
    requires
        k < 255,
    ensures
        blocks_hold_parity(rs_encoded_len(n, k), k),
{
    if k > 0 {
        let cd = (255 - k) as nat;
        let x: nat = if n % cd > 0 {
            n % cd + k
        } else {
            0
        };
        assert(x < 255);
        vstd::arithmetic::div_mod::lemma_fundamental_div_mod_converse(
            ((n / cd) * 255 + x) as int,
            255,
            (n / cd) as int,
            x as int,
        );
    }
}

/// Decoding undoes encoding: the blocks of a block-wise encoding with `k` parity bytes are all
/// codewords, every block holds its parity, and their data bytes are the data that was encoded. With
/// the contracts of `ReedSolomon::encode` and `ReedSolomon::decode` this gives
/// `decode(encode(data)) == Ok(data)`.
pub proof fn lemma_decode_inverts_encode(data: Seq<u8>, out: Seq<u8>, k: nat)
    requires
        1 <= k < 255,
        is_rs_encoding(data, out, k),
    ensures
        blocks_hold_parity(out.len(), k),
        blocks_are_codewords(out, k),
        data_part(out, k) == data,
    decreases data.len(),
{
    if data.len() == 0 {
        assert(data_part(out, k) =~= data);
    } else {
        let cd = (255 - k) as nat;
        let n: nat = if data.len() < cd {
            data.len()
        } else {
            cd
        };
        let rest = out.skip((n + k) as int);
        lemma_decode_inverts_encode(data.skip(n as int), rest, k);
        if data.len() >= cd {
            assert(first_block_len(out) == 255);
            assert(out.skip(255) == rest);
            assert(out.take(255).take(cd as int) =~= out.take(cd as int));
            assert(data_part(out, k) =~= out.take(cd as int) + data_part(rest, k));
            assert(data.take(cd as int) + data.skip(cd as int) =~= data);
            assert(out.len() == 255 + rest.len());
            vstd::arithmetic::div_mod::lemma_mod_add_multiples_vanish(rest.len() as int, 255);
        } else {
            assert(data.skip(n as int).len() == 0);
            assert(is_rs_encoding(data.skip(n as int), rest, k));
            assert(rest.len() == 0);
            assert(first_block_len(out) == n + k);
            assert(out.take((n + k) as int) =~= out);
            assert(out.skip((n + k) as int) =~= rest);
            assert(data_part(rest, k) =~= seq![]);
            assert(data_part(out, k) =~= out.take(n as int) + data_part(rest, k));
            assert(data.take(n as int) =~= data);
            vstd::arithmetic::div_mod::lemma_small_mod(out.len() as nat, 255);
        }
    }
}

/// A Reed-Solomon codec with a fixed number of parity bytes per block.
pub struct ReedSolomon {
    ecc_bytes: usize,
    exp: Vec<u8>,
    log: Vec<u8>,
}

impl ReedSolomon {
    /// The number of parity bytes per block.
    pub closed spec fn ecc(&self) -> nat {
        self.ecc_bytes as nat
    }

    #[verifier::type_invariant]
    closed spec fn tables_ok(&self) -> bool {
        &&& self.exp@.len() == 512
        &&& self.log@.len() == 256
        &&& forall|i: int| 0 <= i < 255 ==> #[trigger] self.exp@[i] == apow(i as nat)
        &&& forall|i: int| 255 <= i < 510 ==> #[trigger] self.exp@[i] == apow((i - 255) as nat)
        &&& forall|v: int|
            1 <= v < 256 ==> (#[trigger] self.log@[v] as nat) < 255 && apow(self.log@[v] as nat)
                == v as u8
    }

    proof fn lemma_shift_reduce(x: usize)
        requires
            x < 256,
        ensures
            ({
                let y = x << 1usize;
                if y >= 256 {
                    y ^ 0x11dusize
                } else {
                    y
                }
            }) == xtime(x as u8) as usize,
    {
        assert(({
            let y = x << 1usize;
            if y >= 256 {
                y ^ 0x11dusize
            } else {
                y
            }
        }) == xtime(x as u8) as usize) by (bit_vector)
            requires
                x < 256,
        ;
    }

    /// The exponent table.
    pub closed spec fn exp_table(&self) -> Seq<u8> {
        self.exp@
    }

    /// The logarithm table.
    pub closed spec fn log_table(&self) -> Seq<u8> {
        self.log@
    }

    /// Builds the exponent and logarithm tables of GF(2^8) for generator 2: entry `i` of the
    /// exponent table is `2^i`, written twice over (entries `i` and `i + 255`); its first 255
    /// entries are the 255 nonzero bytes, each once (distinct, nonzero, and every nonzero byte
    /// is the entry at its logarithm); the logarithm of `2^i` is `i`.
    pub fn new(ecc_bytes: usize) -> (rs: Self)
        ensures
            rs.ecc() == ecc_bytes,
            rs.exp_table().len() == 512,
            rs.log_table().len() == 256,
            forall|i: int| 0 <= i < 255 ==> #[trigger] rs.exp_table()[i] == apow(i as nat),
            forall|i: int| 0 <= i < 255 ==> #[trigger] rs.exp_table()[i + 255] == rs.exp_table()[i],
            forall|i: int| 0 <= i < 255 ==> rs.exp_table()[i] != 0,
            forall|i: int, j: int|
                0 <= i < j < 255 ==> #[trigger] rs.exp_table()[i] != #[trigger] rs.exp_table()[j],
            forall|i: int| 0 <= i < 255 ==> rs.log_table()[#[trigger] apow(i as nat) as int] == i,
            forall|v: int|
                1 <= v < 256 ==> (#[trigger] rs.log_table()[v] as int) < 255 && rs.exp_table()[rs.log_table()[v] as int]
                    == v,
    {
        let mut exp: Vec<u8> = vec![0u8; 512];
        let mut log: Vec<u8> = vec![0u8; 256];
        let mut x: usize = 1;
        let mut i: usize = 0;
        while i < 255
            invariant
                exp@.len() == 512,
                log@.len() == 256,
                i <= 255,
                x < 256,
                x == apow(i as nat) as usize,
                forall|j: int| 0 <= j < i ==> #[trigger] exp@[j] == apow(j as nat),
                forall|j: int| 255 <= j < i + 255 ==> #[trigger] exp@[j] == apow((j - 255) as nat),
                forall|j: int|
                    0 <= j < i ==> (log@[#[trigger] apow(j as nat) as int] as nat) < i && apow(
                        log@[apow(j as nat) as int] as nat,
                    ) == apow(j as nat),
            decreases 255 - i,
        {
            let ghost old_exp = exp@;
            let ghost old_log = log@;
            exp.set(i, x as u8);
            exp.set(i + 255, x as u8);
            log.set(x, i as u8);
            proof {
                assert forall|j: int| 0 <= j < i + 1 implies #[trigger] exp@[j] == apow(j as nat) by {
                    if j < i {
                        assert(old_exp[j] == apow(j as nat));
                    }
                }
                assert forall|j: int| 255 <= j < i + 1 + 255 implies #[trigger] exp@[j] == apow(
                    (j - 255) as nat,
                ) by {
                    if j < i + 255 {
                        assert(old_exp[j] == apow((j - 255) as nat));
                    }
                }
                assert forall|j: int| 0 <= j < i + 1 implies (log@[#[trigger] apow(
                    j as nat,
                ) as int] as nat) < i + 1 && apow(log@[apow(j as nat) as int] as nat) == apow(
                    j as nat,
                ) by {
                    if j < i && apow(j as nat) as int != x as int {
                        assert(old_log[apow(j as nat) as int] == log@[apow(j as nat) as int]);
                    }
                }
                Self::lemma_shift_reduce(x);
            }
            x = x << 1;
            if x >= 256 {
                x = x ^ 0x11d;
            }
            i += 1;
        }
        proof {
            assert forall|v: int| 1 <= v < 256 implies (#[trigger] log@[v] as nat) < 255 && apow(
                log@[v] as nat,
            ) == v as u8 by {
                lemma_glog(v as u8);
                let j = glog(v as u8) as int;
                assert(apow(j as nat) as int == v);
            }
            assert forall|i: int| 0 <= i < 255 implies exp@[i] != 0 by {
                lemma_apow_nonzero(i as nat);
            }
            assert forall|i: int, j: int| 0 <= i < j < 255 implies #[trigger] exp@[i] != #[trigger] exp@[j] by {
                if exp@[i] == exp@[j] {
                    lemma_apow_injective(i as nat, j as nat);
                }
            }
            assert forall|i: int| 0 <= i < 255 implies log@[#[trigger] apow(i as nat) as int] == i by {
                lemma_apow_nonzero(i as nat);
                let v = apow(i as nat) as int;
                assert(1 <= v < 256);
                assert(apow(log@[v] as nat) == apow(i as nat));
                lemma_apow_injective(log@[v] as nat, i as nat);
            }
        }
        ReedSolomon { ecc_bytes, exp, log }
    }

    /// Field multiplication through the tables.
    fn gf_mul(&self, x: u8, y: u8) -> (r: u8)
        ensures
            r == gmul(x, y),
    {
        proof {
            use_type_invariant(self);
            lemma_gmul_zero(x);
            lemma_gmul_zero(y);
        }
        if x == 0 || y == 0 {
            0
        } else {
            let lx = self.log[x as usize] as usize;
            let ly = self.log[y as usize] as usize;
            proof {
                assert(self.log@[x as int] == lx);
                assert(self.log@[y as int] == ly);
                lemma_apow_add(lx as nat, ly as nat);
                if lx + ly >= 255 {
                    lemma_apow_period((lx + ly - 255) as nat);
                    assert(self.exp@[(lx + ly) as int] == apow((lx + ly - 255) as nat));
                } else {
                    assert(self.exp@[(lx + ly) as int] == apow((lx + ly) as nat));
                }
            }
            self.exp[lx + ly]
        }
    }

    /// Field division through the tables; dividing zero gives zero.
    fn gf_div(&self, x: u8, y: u8) -> (r: u8)
        requires
            x == 0 || y != 0,
        ensures
            x == 0 ==> r == 0,
            x != 0 ==> r != 0 && gmul(r, y) == x,
    {
        proof {
            use_type_invariant(self);
        }
        if x == 0 {
            0
        } else {
            let lx = self.log[x as usize] as usize;
            let ly = self.log[y as usize] as usize;
            let idx = (lx + 255) - ly;
            proof {
                assert(self.log@[x as int] == lx);
                assert(self.log@[y as int] == ly);
                let e: nat = if idx >= 255 {
                    (idx - 255) as nat
                } else {
                    idx as nat
                };
                if idx >= 255 {
                    assert(self.exp@[idx as int] == apow(e));
                } else {
                    assert(self.exp@[idx as int] == apow(e));
                }
                lemma_apow_add(e, ly as nat);
                lemma_apow_nonzero(e);
                if idx >= 255 {
                    assert(e + ly == lx);
                } else {
                    assert(e + ly == lx + 255);
                    lemma_apow_period(lx as nat);
                }
            }
            self.exp[idx]
        }
    }

    /// The product of two polynomials.
    fn gf_poly_mul(&self, p: &[u8], q: &[u8]) -> (r: Vec<u8>)
        requires
            p@.len() + q@.len() >= 1,
            p@.len() + q@.len() <= usize::MAX,
        ensures
            r@ == poly_mul(p@, q@),
    {
        let mut r: Vec<u8> = vec![0u8; p.len() + q.len() - 1];
        let mut i: usize = 0;
        while i < p.len()
            invariant
                r@.len() == p@.len() + q@.len() - 1,
                p@.len() + q@.len() <= usize::MAX,
                i <= p@.len(),
                forall|m: int| 0 <= m < r@.len() ==> #[trigger] r@[m] == conv(p@, q@, m, i as int),
            decreases p@.len() - i,
        {
            let mut j: usize = 0;
            proof {
                assert forall|m: int| 0 <= m < r@.len() implies #[trigger] r@[m] == conv(
                    p@,
                    q@,
                    m,
                    i as int,
                ) ^ (if i <= m < i + j {
                    gmul(p@[i as int], q@[m - i])
                } else {
                    0u8
                }) by {
                    lemma_xor_facts(r@[m], 0, 0, 0);
                }
            }
            while j < q.len()
                invariant
                    r@.len() == p@.len() + q@.len() - 1,
                    p@.len() + q@.len() <= usize::MAX,
                    i < p@.len(),
                    j <= q@.len(),
                    forall|m: int|
                        0 <= m < r@.len() ==> #[trigger] r@[m] == conv(p@, q@, m, i as int) ^ (
                        if i <= m < i + j {
                            gmul(p@[i as int], q@[m - i])
                        } else {
                            0u8
                        }),
                decreases q@.len() - j,
            {
                let v = self.gf_mul(p[i], q[j]);
                let ghost old_r = r@;
                let cur = r[i + j];
                r.set(i + j, cur ^ v);
                proof {
                    assert forall|m: int| 0 <= m < r@.len() implies #[trigger] r@[m] == conv(
                        p@,
                        q@,
                        m,
                        i as int,
                    ) ^ (if i <= m < i + j + 1 {
                        gmul(p@[i as int], q@[m - i])
                    } else {
                        0u8
                    }) by {
                        if m == i + j {
                            lemma_xor_facts(conv(p@, q@, m, i as int), 0, v, 0);
                        } else {
                            assert(r@[m] == old_r[m]);
                        }
                    }
                }
                j += 1;
            }
            i += 1;
        }
        r
    }

    /// The generator polynomial: the product of `x + 2^t` for `t < ecc`.
    fn generator_poly(&self) -> (g: Vec<u8>)
        requires
            self.ecc() < 255,
        ensures
            g@.len() == self.ecc() + 1,
            g@[0] == 1,
            forall|t: nat| t < self.ecc() ==> #[trigger] poly_eval(g@, apow(t)) == 0,
    {
        proof {
            use_type_invariant(self);
        }
        let mut g: Vec<u8> = Vec::new();
        g.push(1u8);
        let mut i: usize = 0;
        while i < self.ecc_bytes
            invariant
                self.ecc() < 255,
                i <= self.ecc(),
                g@.len() == i + 1,
                g@[0] == 1,
                forall|t: nat| t < i ==> #[trigger] poly_eval(g@, apow(t)) == 0,
            decreases self.ecc() - i,
        {
            proof {
                use_type_invariant(self);
            }
            let root = self.exp[i];
            let mut pair: Vec<u8> = Vec::new();
            pair.push(1u8);
            pair.push(root);
            let ng = self.gf_poly_mul(g.as_slice(), pair.as_slice());
            proof {
                assert(pair@ =~= seq![1u8, root]);
                assert(root == apow(i as nat));
                lemma_mul_linear_factor(g@, root);
                lemma_xor_facts(1u8, 0, 0, 0);
                assert(ng@[0] == xor_seq(g@.push(0u8), seq![0u8] + scale(g@, root))[0]);
                assert forall|t: nat| t < i + 1 implies #[trigger] poly_eval(ng@, apow(t)) == 0 by {
                    lemma_eval_mul_linear_factor(g@, root, apow(t));
                    let e = poly_eval(g@, apow(t));
                    lemma_gmul_zero(apow(t) ^ root);
                    lemma_gmul_zero(e);
                    if t == i {
                        lemma_xor_facts(root, 0, 0, 0);
                    }
                }
            }
            g = ng;
            i += 1;
        }
        g
    }

    proof fn lemma_lfsr_step(before: Seq<u8>, after: Seq<u8>, i: int, g: Seq<u8>, coef: u8, a: u8)
        requires
            before.len() == after.len(),
            0 <= i,
            g.len() >= 1,
            i + g.len() <= before.len(),
            before[i] == coef,
            g[0] == 1,
            forall|p: int|
                0 <= p < after.len() ==> #[trigger] after[p] == if i < p < i + g.len() {
                    before[p] ^ gmul(g[p - i], coef)
                } else {
                    before[p]
                },
            poly_eval(g, a) == 0,
        ensures
            poly_eval(zeros((i + 1) as nat) + after.skip(i + 1), a) == poly_eval(
                zeros(i as nat) + before.skip(i),
                a,
            ),
    {
        let n = before.len();
        let h0 = zeros(i as nat) + before.skip(i);
        let h1 = zeros((i + 1) as nat) + after.skip(i + 1);
        let rest = (n - i - g.len()) as nat;
        let d = zeros(i as nat) + scale(g, coef) + zeros(rest);
        assert(d.len() == n);
        assert forall|p: int| 0 <= p < n implies #[trigger] h1[p] == xor_seq(h0, d)[p] by {
            lemma_xor_facts(0, 0, 0, 0);
            if p < i {
            } else if p == i {
                lemma_gmul_comm(1, coef);
                lemma_gmul_one(coef);
                lemma_xor_facts(coef, 0, 0, 0);
                assert(d[p] == gmul(g[0], coef));
            } else if p < i + g.len() {
                assert(d[p] == scale(g, coef)[p - i]);
            } else {
                lemma_xor_facts(before[p], 0, 0, 0);
            }
        }
        assert(h1 =~= xor_seq(h0, d));
        lemma_eval_xor(h0, d, a);
        lemma_eval_shifted_multiple(i as nat, g, coef, rest, a);
        lemma_xor_facts(poly_eval(h0, a), 0, 0, 0);
    }

    /// Appends the parity bytes of one block to its data bytes.
    fn encode_block(&self, chunk: &[u8], gen: &Vec<u8>) -> (block: Vec<u8>)
        requires
            1 <= self.ecc() < 255,
            1 <= chunk@.len() <= 255 - self.ecc(),
            gen@.len() == self.ecc() + 1,
            gen@[0] == 1,
            forall|t: nat| t < self.ecc() ==> #[trigger] poly_eval(gen@, apow(t)) == 0,
        ensures
            block@.len() == chunk@.len() + self.ecc(),
            block@.take(chunk@.len() as int) == chunk@,
            is_codeword(block@, self.ecc()),
    {
        let k = self.ecc_bytes;
        let n = chunk.len();
        let mut msg = slice_to_vec(chunk);
        let mut feedback: Vec<u8> = vec![0u8; n + k];
        let mut p: usize = 0;
        while p < n
            invariant
                feedback@.len() == n + k,
                p <= n,
                n == chunk@.len(),
                forall|q: int| 0 <= q < p ==> #[trigger] feedback@[q] == chunk@[q],
                forall|q: int| n <= q < n + k ==> #[trigger] feedback@[q] == 0u8,
            decreases n - p,
        {
            feedback.set(p, chunk[p]);
            p += 1;
        }
        let ghost base = chunk@ + zeros(k as nat);
        assert(feedback@ =~= base);
        assert(zeros(0) + feedback@.skip(0) =~= base);
        let mut i: usize = 0;
        while i < n
            invariant
                k == self.ecc(),
                1 <= k < 255,
                n == chunk@.len(),
                n + k <= 255,
                feedback@.len() == n + k,
                gen@.len() == k + 1,
                gen@[0] == 1,
                forall|t: nat| t < k ==> #[trigger] poly_eval(gen@, apow(t)) == 0,
                i <= n,
                forall|t: nat|
                    t < k ==> poly_eval(zeros(i as nat) + feedback@.skip(i as int), #[trigger] apow(t))
                        == poly_eval(base, apow(t)),
            decreases n - i,
        {
            let coef = feedback[i];
            let ghost before = feedback@;
            if coef != 0 {
                let mut j: usize = 1;
                while j < gen.len()
                    invariant
                        feedback@.len() == n + k,
                        gen@.len() == k + 1,
                        n + k <= 255,
                        i < n,
                        1 <= j <= gen@.len(),
                        forall|q: int|
                            0 <= q < n + k ==> #[trigger] feedback@[q] == if i < q < i + j {
                                before[q] ^ gmul(gen@[q - i], coef)
                            } else {
                                before[q]
                            },
                    decreases gen@.len() - j,
                {
                    let v = self.gf_mul(gen[j], coef);
                    let cur = feedback[i + j];
                    feedback.set(i + j, cur ^ v);
                    j += 1;
                }
                proof {
                    assert forall|t: nat| t < k implies poly_eval(
                        zeros((i + 1) as nat) + feedback@.skip(i + 1),
                        #[trigger] apow(t),
                    ) == poly_eval(base, apow(t)) by {
                        Self::lemma_lfsr_step(before, feedback@, i as int, gen@, coef, apow(t));
                    }
                }
            } else {
                proof {
                    assert(zeros((i + 1) as nat) + feedback@.skip(i + 1) =~= zeros(i as nat)
                        + feedback@.skip(i as int));
                }
            }
            i += 1;
        }
        let mut tail = slice_to_vec(slice_subrange(feedback.as_slice(), n, n + k));
        msg.append(&mut tail);
        proof {
            let h = zeros(n as nat) + feedback@.skip(n as int);
            assert forall|q: int| 0 <= q < n + k implies #[trigger] msg@[q] == xor_seq(base, h)[q] by {
                if q < n {
                    lemma_xor_facts(chunk@[q], 0, 0, 0);
                } else {
                    lemma_xor_facts(feedback@[q], 0, 0, 0);
                }
            }
            assert(msg@ =~= xor_seq(base, h));
            assert forall|t: nat| t < k implies #[trigger] poly_eval(msg@, apow(t)) == 0 by {
                lemma_eval_xor(base, h, apow(t));
                lemma_xor_facts(poly_eval(base, apow(t)), 0, 0, 0);
            }
            assert(msg@.take(n as int) =~= chunk@);
        }
        msg
    }

    proof fn lemma_encoding_extend(d: Seq<u8>, o: Seq<u8>, c: Seq<u8>, b: Seq<u8>, k: nat)
        requires
            1 <= k < 255,
            is_rs_encoding(d, o, k),
            d.len() % (255 - k) as nat == 0,
            1 <= c.len() <= 255 - k,
            b.len() == c.len() + k,
            b.take(c.len() as int) == c,
            is_codeword(b, k),
        ensures
            is_rs_encoding(d + c, o + b, k),
        decreases d.len(),
    {
        let cd = (255 - k) as nat;
        if d.len() == 0 {
            assert(d + c =~= c);
            assert(o + b =~= b);
            assert(b.take(b.len() as int) =~= b);
            assert(c.take(c.len() as int) =~= c);
            assert(c.skip(c.len() as int) =~= seq![]);
            assert(b.skip(b.len() as int) =~= seq![]);
            assert(is_rs_encoding(c.skip(c.len() as int), b.skip(b.len() as int), k));
            assert(is_rs_encoding(c, b, k));
        } else {
            assert(d.len() >= cd) by {
                vstd::arithmetic::div_mod::lemma_mod_is_zero(d.len() as nat, cd);
            }
            let d2 = d.skip(cd as int);
            let o2 = o.skip((cd + k) as int);
            assert(d2.len() % cd == 0) by {
                vstd::arithmetic::div_mod::lemma_mod_sub_multiples_vanish(d.len() as int, cd as int);
            }
            assert(o.len() >= cd + k);
            assert(is_rs_encoding(d2, o2, k));
            Self::lemma_encoding_extend(d2, o2, c, b, k);
            assert((d + c).take(cd as int) =~= d.take(cd as int));
            assert((o + b).take(cd as int) =~= o.take(cd as int));
            assert((o + b).take((cd + k) as int) =~= o.take((cd + k) as int));
            assert((d + c).skip(cd as int) =~= d2 + c);
            assert((o + b).skip((cd + k) as int) =~= o2 + b);
            assert(is_rs_encoding(d2 + c, o2 + b, k));
        }
    }

    /// Encodes `data` block by block: each run of at most `255 - ecc` bytes is followed by its
    /// `ecc` parity bytes. With no parity bytes the data comes back unchanged.
    pub fn encode(&self, data: &[u8]) -> (out: Vec<u8>)
        requires
            self.ecc() < 255,
        ensures
            is_rs_encoding(data@, out@, self.ecc()),
    {
        if self.ecc_bytes == 0 {
            return slice_to_vec(data);
        }
        let k = self.ecc_bytes;
        let chunk_data_len = 255 - k;
        let mut out: Vec<u8> = Vec::new();
        let gen = self.generator_poly();
        let mut start: usize = 0;
        proof {
            assert(data@.take(0) =~= seq![]);
        }
        while start < data.len()
            invariant
                k == self.ecc(),
                1 <= k < 255,
                chunk_data_len == 255 - k,
                start <= data@.len(),
                start as nat % chunk_data_len as nat == 0 || start == data@.len(),
                is_rs_encoding(data@.take(start as int), out@, k as nat),
                gen@.len() == k + 1,
                gen@[0] == 1,
                forall|t: nat| t < k ==> #[trigger] poly_eval(gen@, apow(t)) == 0,
            decreases data@.len() - start,
        {
            let end = if data.len() - start < chunk_data_len {
                data.len()
            } else {
                start + chunk_data_len
            };
            let chunk = slice_subrange(data, start, end);
            let mut block = self.encode_block(chunk, &gen);
            let ghost old_out = out@;
            let ghost blk = block@;
            out.append(&mut block);
            proof {
                Self::lemma_encoding_extend(data@.take(start as int), old_out, chunk@, blk, k as nat);
                assert(data@.take(start as int) + chunk@ =~= data@.take(end as int));
                if end < data.len() {
                    vstd::arithmetic::div_mod::lemma_mod_add_multiples_vanish(
                        start as int,
                        chunk_data_len as int,
                    );
                }
            }
            start = end;
        }
        proof {
            assert(data@.take(data@.len() as int) =~= data@);
        }
        out
    }

    /// Decodes a stream of blocks of 255 bytes (the last may be shorter), correcting errors
    /// where it can. A stream whose every block is a codeword gives back its data bytes; so
    /// does, with at least two parity bytes, one whose every block has at most one wrong byte.
    /// A stream whose every block lies within half the parity count of a codeword decodes, if
    /// it decodes, to the data bytes of those codewords.
    #[verifier::spinoff_prover]
    #[verifier::rlimit(50)]
    pub fn decode(&self, encoded: &[u8]) -> (res: Result<Vec<u8>, TSpineError>)
        requires
            blocks_hold_parity(encoded@.len(), self.ecc()),
        ensures
            self.ecc() == 0 ==> (res matches Ok(v) && v@ == encoded@),
            self.ecc() > 0 && blocks_are_codewords(encoded@, self.ecc()) ==> (res matches Ok(v)
                && v@ == data_part(encoded@, self.ecc())),
            self.ecc() > 0 ==> (res matches Ok(v) ==> v@.len() == data_part(
                encoded@,
                self.ecc(),
            ).len()),
            self.ecc() > 0 ==> forall|cw: Seq<u8>|
                #[trigger] blocks_near(encoded@, cw, self.ecc()) ==> (res matches Ok(v) ==> v@
                    == data_part(cw, self.ecc())),
            2 <= self.ecc() ==> forall|cw: Seq<u8>|
                #[trigger] blocks_one_off(encoded@, cw, self.ecc()) ==> (res matches Ok(v) && v@
                    == data_part(cw, self.ecc())),
            self.ecc() > 0 ==> (res matches Ok(v) ==> exists|cw: Seq<u8>|
                #[trigger] blocks_near(encoded@, cw, self.ecc()) && v@ == data_part(cw, self.ecc())),
            res matches Err(e) ==> e is ReedSolomon,
    {
        if self.ecc_bytes == 0 {
            return Ok(slice_to_vec(encoded));
        }
        let ghost k = self.ecc();
        let mut decoded: Vec<u8> = Vec::new();
        let mut pos: usize = 0;
        let ghost mut acc: Seq<u8> = seq![];
        proof {
            assert(encoded@.take(0) =~= seq![]);
            assert(data_part(seq![], k) =~= decoded@);
            assert(encoded@.skip(0) =~= encoded@);
            assert(decoded@ + data_part(encoded@, k) =~= data_part(encoded@, k));
            assert forall|cw: Seq<u8>| #[trigger] blocks_near(encoded@, cw, k) implies blocks_near(
                encoded@.skip(0),
                cw.skip(0),
                k,
            ) && decoded@ + data_part(cw.skip(0), k) == data_part(cw, k) by {
                assert(cw.skip(0) =~= cw);
                assert(decoded@ + data_part(cw, k) =~= data_part(cw, k));
            }
            assert forall|cw: Seq<u8>| #[trigger] blocks_one_off(encoded@, cw, k) implies blocks_one_off(
                encoded@.skip(0),
                cw.skip(0),
                k,
            ) && decoded@ + data_part(cw.skip(0), k) == data_part(cw, k) by {
                assert(cw.skip(0) =~= cw);
                assert(decoded@ + data_part(cw, k) =~= data_part(cw, k));
            }
        }
        while pos < encoded.len()
            invariant
                k == self.ecc(),
                k > 0,
                pos <= encoded@.len(),
                blocks_hold_parity(encoded@.len(), k),
                pos % 255 == 0 || pos == encoded@.len(),
                acc.len() == pos,
                blocks_near(encoded@.take(pos as int), acc, k),
                decoded@ == data_part(acc, k),
                decoded@.len() + data_part(encoded@.skip(pos as int), k).len() == data_part(
                    encoded@,
                    k,
                ).len(),
                blocks_are_codewords(encoded@, k) ==> blocks_are_codewords(
                    encoded@.skip(pos as int),
                    k,
                ) && decoded@ + data_part(encoded@.skip(pos as int), k) == data_part(encoded@, k),
                forall|cw: Seq<u8>|
                    #[trigger] blocks_near(encoded@, cw, k) ==> blocks_near(
                        encoded@.skip(pos as int),
                        cw.skip(pos as int),
                        k,
                    ) && decoded@ + data_part(cw.skip(pos as int), k) == data_part(cw, k),
                k >= 2 ==> forall|cw: Seq<u8>|
                    #[trigger] blocks_one_off(encoded@, cw, k) ==> blocks_one_off(
                        encoded@.skip(pos as int),
                        cw.skip(pos as int),
                        k,
                    ) && decoded@ + data_part(cw.skip(pos as int), k) == data_part(cw, k),
            decreases encoded@.len() - pos,
        {
            let end = if encoded.len() - pos < 255 {
                encoded.len()
            } else {
                pos + 255
            };
            let chunk = slice_subrange(encoded, pos, end);
            let ghost rest = encoded@.skip(pos as int);
            proof {
                assert(chunk@ =~= rest.take(first_block_len(rest) as int));
                assert(rest.skip(first_block_len(rest) as int) =~= encoded@.skip(end as int));
                if end < encoded.len() {
                    vstd::arithmetic::div_mod::lemma_mod_add_multiples_vanish(pos as int, 255);
                } else if end - pos < 255 {
                    assert(encoded@.len() % 255 == end - pos) by {
                        vstd::arithmetic::div_mod::lemma_fundamental_div_mod(pos as int, 255);
                        vstd::arithmetic::div_mod::lemma_mod_multiples_vanish(
                            (pos / 255) as int,
                            (end - pos) as int,
                            255,
                        );
                        vstd::arithmetic::div_mod::lemma_small_mod((end - pos) as nat, 255);
                    }
                }
            }
            let dc = self.decode_chunk(chunk);
            proof {
                if k >= 2 {
                    assert forall|cw: Seq<u8>| #[trigger] blocks_one_off(encoded@, cw, k) implies dc is Ok by {
                        let cr = cw.skip(pos as int);
                        let m = first_block_len(rest);
                        assert(blocks_one_off(rest, cr, k));
                        assert(rest.take(m as int) =~= chunk@);
                        assert(is_codeword(cr.take(m as int), k));
                    }
                }
            }
            let corrected = match dc {
                Ok(v) => v,
                Err(e) => {
                    return Err(e);
                },
            };
            proof {
                let c = choose|c: Seq<u8>|
                    #[trigger] is_codeword(c, k) && c.len() == chunk@.len() && 2 * distance(
                        chunk@,
                        c,
                    ) <= k && corrected@ == c.take(chunk@.len() - k);
                lemma_block_near(chunk@, c, k);
                lemma_blocks_near_append(encoded@.take(pos as int), acc, chunk@, c, k);
                assert(encoded@.take(pos as int) + chunk@ =~= encoded@.take(end as int));
                acc = acc + c;
            }
            let ghost old_decoded = decoded@;
            let mut c = corrected;
            decoded.append(&mut c);
            proof {
                assert(data_part(rest, k) =~= rest.take(first_block_len(rest) - k) + data_part(
                    encoded@.skip(end as int),
                    k,
                ));
                if blocks_are_codewords(encoded@, k) {
                    assert(decoded@ + data_part(encoded@.skip(end as int), k) =~= old_decoded
                        + data_part(rest, k));
                }
                assert(k >= 2 ==> forall|cw: Seq<u8>| #[trigger] blocks_one_off(encoded@, cw, k) ==> blocks_one_off(
                    encoded@.skip(end as int),
                    cw.skip(end as int),
                    k,
                ) && decoded@ + data_part(cw.skip(end as int), k) == data_part(cw, k)) by {
                    if k >= 2 {
                        assert forall|cw: Seq<u8>| #[trigger] blocks_one_off(encoded@, cw, k) implies blocks_one_off(
                            encoded@.skip(end as int),
                            cw.skip(end as int),
                            k,
                        ) && decoded@ + data_part(cw.skip(end as int), k) == data_part(cw, k) by {
                            let cr = cw.skip(pos as int);
                            let m = first_block_len(rest);
                            assert(blocks_one_off(rest, cr, k));
                            assert(first_block_len(cr) == m);
                            assert(cr.skip(m as int) =~= cw.skip(end as int));
                            assert(rest.take(m as int) =~= chunk@);
                            assert(data_part(cr, k) =~= cr.take(m - k) + data_part(cw.skip(end as int), k));
                            assert(cr.take(m as int).take(m - k) =~= cr.take(m - k));
                            assert(decoded@ + data_part(cw.skip(end as int), k) =~= old_decoded + data_part(
                                cr,
                                k,
                            ));
                        }
                    }
                }
                assert forall|cw: Seq<u8>| #[trigger] blocks_near(encoded@, cw, k) implies blocks_near(
                    encoded@.skip(end as int),
                    cw.skip(end as int),
                    k,
                ) && decoded@ + data_part(cw.skip(end as int), k) == data_part(cw, k) by {
                    let cr = cw.skip(pos as int);
                    let m = first_block_len(rest);
                    assert(blocks_near(rest, cr, k));
                    assert(first_block_len(cr) == m);
                    assert(cr.skip(m as int) =~= cw.skip(end as int));
                    assert(rest.take(m as int) =~= chunk@);
                    assert(data_part(cr, k) =~= cr.take(m - k) + data_part(cw.skip(end as int), k));
                    assert(cr.take(m as int).take(m - k) =~= cr.take(m - k));
                    assert(decoded@ + data_part(cw.skip(end as int), k) =~= old_decoded + data_part(
                        cr,
                        k,
                    ));
                }
                if end < encoded.len() {
                }
            }
            pos = end;
        }
        proof {
            assert(encoded@.take(pos as int) =~= encoded@);
            assert(blocks_near(encoded@, acc, k));
            assert(encoded@.skip(pos as int) =~= seq![]);
            assert(decoded@ + data_part(seq![], k) =~= decoded@);
            assert forall|cw: Seq<u8>| #[trigger] blocks_near(encoded@, cw, k) implies decoded@
                == data_part(cw, k) by {
                assert(blocks_near(encoded@.skip(pos as int), cw.skip(pos as int), k));
                assert(cw.skip(pos as int).len() == 0);
                assert(cw.skip(pos as int) =~= seq![]);
            }
            assert forall|cw: Seq<u8>| #[trigger] blocks_one_off(encoded@, cw, k) && k >= 2 implies decoded@
                == data_part(cw, k) by {
                assert(blocks_one_off(encoded@.skip(pos as int), cw.skip(pos as int), k));
                assert(cw.skip(pos as int).len() == 0);
                assert(cw.skip(pos as int) =~= seq![]);
            }
        }
        Ok(decoded)
    }

    /// Computes the syndromes of one block and, where some is nonzero, corrects a single wrong
    /// byte directly, or else locates and corrects errors with the Berlekamp-Massey, Chien and
    /// Forney procedures.
    fn decode_chunk(&self, chunk: &[u8]) -> (res: Result<Vec<u8>, TSpineError>)
        requires
            1 <= self.ecc(),
            self.ecc() <= chunk@.len(),
            chunk@.len() <= 255,
        ensures
            is_codeword(chunk@, self.ecc()) ==> (res matches Ok(v) && v@ == chunk@.take(
                chunk@.len() - self.ecc(),
            )),
            res matches Ok(v) ==> v@.len() == chunk@.len() - self.ecc(),
            res matches Ok(v) ==> exists|c: Seq<u8>|
                #[trigger] is_codeword(c, self.ecc()) && c.len() == chunk@.len() && 2 * distance(
                    chunk@,
                    c,
                ) <= self.ecc() && v@ == c.take(chunk@.len() - self.ecc()),
            forall|c: Seq<u8>|
                #[trigger] is_codeword(c, self.ecc()) && c.len() == chunk@.len() && 2 * distance(
                    chunk@,
                    c,
                ) <= self.ecc() ==> (res matches Ok(v) ==> v@ == c.take(chunk@.len() - self.ecc())),
            2 <= self.ecc() ==> forall|c: Seq<u8>|
                #[trigger] is_codeword(c, self.ecc()) && c.len() == chunk@.len() && distance(
                    chunk@,
                    c,
                ) <= 1 ==> (res matches Ok(v) && v@ == c.take(chunk@.len() - self.ecc())),
            res matches Err(e) ==> e is ReedSolomon,
    {
        proof {
            use_type_invariant(self);
        }
        let k = self.ecc_bytes;
        let mut msg = slice_to_vec(chunk);
        let mut synd: Vec<u8> = vec![0u8; k];
        let mut has_errors = false;
        let mut i: usize = 0;
        while i < k
            invariant
                k == self.ecc(),
                k <= chunk@.len(),
                chunk@.len() <= 255,
                msg@ == chunk@,
                synd@.len() == k,
                i <= k,
                forall|t: int| 0 <= t < i ==> #[trigger] synd@[t] == poly_eval(chunk@, apow(t as nat)),
                !has_errors ==> forall|t: int| 0 <= t < i ==> #[trigger] synd@[t] == 0,
                has_errors ==> exists|t: int| 0 <= t < i && #[trigger] synd@[t] != 0,
            decreases k - i,
        {
            proof {
                use_type_invariant(self);
            }
            let root = self.exp[i];
            let mut eval: u8 = 0;
            let mut j: usize = 0;
            proof {
                assert(msg@.take(0) =~= seq![]);
            }
            while j < msg.len()
                invariant
                    msg@ == chunk@,
                    j <= msg@.len(),
                    eval == poly_eval(msg@.take(j as int), root),
                decreases msg@.len() - j,
            {
                let prod = self.gf_mul(eval, root);
                proof {
                    assert(msg@.take(j + 1).drop_last() =~= msg@.take(j as int));
                }
                eval = prod ^ msg[j];
                j += 1;
            }
            proof {
                assert(msg@.take(msg@.len() as int) =~= msg@);
                assert(root == apow(i as nat));
            }
            let ghost old_synd = synd@;
            synd.set(i, eval);
            proof {
                if has_errors {
                    let t = choose|t: int| 0 <= t < i && #[trigger] old_synd[t] != 0;
                    assert(synd@[t] != 0);
                }
                if eval != 0 {
                    assert(synd@[i as int] != 0);
                }
            }
            if eval != 0 {
                has_errors = true;
            }
            i += 1;
        }
        if !has_errors {
            proof {
                assert forall|t: nat| t < k implies #[trigger] poly_eval(chunk@, apow(t)) == 0 by {
                    assert(synd@[t as int] == poly_eval(chunk@, apow(t)));
                }
                assert(is_codeword(chunk@, k as nat));
                Self::lemma_self_distance(chunk@);
                Self::lemma_unique_correction(chunk@, chunk@, k as nat);
            }
            let data_len = msg.len() - k;
            return Ok(slice_to_vec(slice_subrange(msg.as_slice(), 0, data_len)));
        }
        proof {
            let t = choose|t: int| 0 <= t < k && #[trigger] synd@[t] != 0;
            assert(poly_eval(chunk@, apow(t as nat)) != 0);
            assert(!is_codeword(chunk@, k as nat));
        }
        if k >= 2 {
            match self.correct_single(chunk, &synd) {
                Some(w) => {
                    proof {
                        Self::lemma_unique_correction(chunk@, w@, k as nat);
                    }
                    let data_len = w.len() - k;
                    return Ok(slice_to_vec(slice_subrange(w.as_slice(), 0, data_len)));
                },
                None => {},
            }
        }
        proof {
            assert forall|c: Seq<u8>|
                #[trigger] is_codeword(c, k as nat) && c.len() == chunk@.len() && distance(chunk@, c)
                    <= 1 implies k < 2 by {
                if distance(chunk@, c) == 0 {
                    lemma_distance_zero(chunk@, c);
                }
            }
        }
        self.correct_bm(chunk, synd)
    }

    /// Locates and corrects the errors of a block that is not a codeword with the
    /// Berlekamp-Massey, Chien and Forney procedures, from its syndromes; gives its data
    /// bytes when the corrected word is a codeword within half the parity count of the block.
    fn correct_bm(&self, chunk: &[u8], synd: Vec<u8>) -> (res: Result<Vec<u8>, TSpineError>)
        requires
            1 <= self.ecc(),
            self.ecc() <= chunk@.len(),
            chunk@.len() <= 255,
            synd@.len() == self.ecc(),
            !is_codeword(chunk@, self.ecc()),
        ensures
            res matches Ok(v) ==> v@.len() == chunk@.len() - self.ecc(),
            res matches Ok(v) ==> exists|c: Seq<u8>|
                #[trigger] is_codeword(c, self.ecc()) && c.len() == chunk@.len() && 2 * distance(
                    chunk@,
                    c,
                ) <= self.ecc() && v@ == c.take(chunk@.len() - self.ecc()),
            forall|c: Seq<u8>|
                #[trigger] is_codeword(c, self.ecc()) && c.len() == chunk@.len() && 2 * distance(
                    chunk@,
                    c,
                ) <= self.ecc() ==> (res matches Ok(v) ==> v@ == c.take(chunk@.len() - self.ecc())),
            res matches Err(e) ==> e is ReedSolomon,
    {
        proof {
            use_type_invariant(self);
        }
        let k = self.ecc_bytes;
        let mut msg = slice_to_vec(chunk);
        // Berlekamp-Massey: the error locator polynomial.
        let mut sigma: Vec<u8> = Vec::new();
        sigma.push(1u8);
        let mut b: Vec<u8> = Vec::new();
        b.push(1u8);
        let mut l: usize = 0;
        let mut m: usize = 1;
        let mut kk: usize = 0;
        while kk < k
            invariant
                k == self.ecc(),
                k <= chunk@.len(),
                k <= 255,
                synd@.len() == k,
                msg@.len() == chunk@.len(),
                kk <= k,
                !is_codeword(chunk@, k as nat),
                1 <= sigma@.len() <= kk + 1,
                1 <= m,
                b@.len() + m <= kk + 2,
                l <= kk,
            decreases k - kk,
        {
            let s_k = synd[kk];
            let mut d = s_k;
            let mut ii: usize = 1;
            while ii <= l
                invariant
                    1 <= ii <= l + 1,
                    l <= kk,
                    kk < k,
                    synd@.len() == k,
                decreases l + 1 - ii,
            {
                if ii < sigma.len() && kk >= ii {
                    let v = self.gf_mul(sigma[ii], synd[kk - ii]);
                    d = d ^ v;
                }
                ii += 1;
            }
            if d == 0 {
                m += 1;
            } else {
                let temp = sigma.clone();
                let scale_d = d;
                let mut b_shifted: Vec<u8> = vec![0u8; m];
                b_shifted.extend_from_slice(b.as_slice());
                while sigma.len() < b_shifted.len()
                    invariant
                        b_shifted@.len() == m + b@.len(),
                        1 <= sigma@.len() <= kk + 2,
                        b@.len() + m <= kk + 2,
                    decreases b_shifted@.len() - sigma@.len(),
                {
                    sigma.push(0u8);
                }
                let mut ii: usize = 0;
                while ii < b_shifted.len()
                    invariant
                        sigma@.len() >= b_shifted@.len(),
                        1 <= sigma@.len() <= kk + 2,
                    decreases b_shifted@.len() - ii,
                {
                    let v = self.gf_mul(scale_d, b_shifted[ii]);
                    let cur = sigma[ii];
                    sigma.set(ii, cur ^ v);
                    ii += 1;
                }
                if 2 * l <= kk {
                    l = kk + 1 - l;
                    b = vec![0u8; temp.len()];
                    let mut ii: usize = 0;
                    while ii < temp.len()
                        invariant
                            b@.len() == temp@.len(),
                            scale_d != 0,
                        decreases temp@.len() - ii,
                    {
                        let v = self.gf_div(temp[ii], scale_d);
                        b.set(ii, v);
                        ii += 1;
                    }
                    m = 1;
                } else {
                    m += 1;
                }
            }
            kk += 1;
        }
        // Chien search: the positions of the errors.
        let err_count = sigma.len() - 1;
        let mut err_pos: Vec<usize> = Vec::new();
        let n = msg.len();
        let mut i: usize = 0;
        while i < n
            invariant
                n == msg@.len(),
                !is_codeword(chunk@, self.ecc()),
                i <= n,
                1 <= sigma@.len() <= 256,
                err_pos@.len() <= i,
                forall|q: int| 0 <= q < err_pos@.len() ==> #[trigger] err_pos@[q] < n,
            decreases n - i,
        {
            proof {
                use_type_invariant(self);
            }
            let x = self.exp[(255 - (i % 255)) % 255];
            let lx = self.log[x as usize] as usize;
            let mut eval: u8 = 0;
            let mut j: usize = 0;
            while j < sigma.len()
                invariant
                    sigma@.len() <= 256,
                    lx < 256,
                decreases sigma@.len() - j,
            {
                proof {
                    use_type_invariant(self);
                }
                assert(lx * j < 65536) by (nonlinear_arith)
                    requires
                        lx < 256,
                        j < 256,
                ;
                let v = self.gf_mul(sigma[j], self.exp[(lx * j) % 255]);
                eval = eval ^ v;
                j += 1;
            }
            if eval == 0 {
                err_pos.push(n - 1 - i);
            }
            i += 1;
        }
        if err_pos.len() != err_count {
            return Err(TSpineError::ReedSolomon("Uncorrectable error in block".to_owned()));
        }
        // Forney: the error magnitudes.
        let mut omega = self.gf_poly_mul(synd.as_slice(), sigma.as_slice());
        omega.truncate(k);
        let msg_len = msg.len();
        let mut e: usize = 0;
        while e < err_pos.len()
            invariant
                msg@.len() == msg_len,
                msg_len == chunk@.len(),
                k == self.ecc(),
                !is_codeword(chunk@, self.ecc()),
                1 <= sigma@.len() <= 256,
                omega@.len() <= k,
                k <= 255,
                forall|q: int| 0 <= q < err_pos@.len() ==> #[trigger] err_pos@[q] < msg_len,
            decreases err_pos@.len() - e,
        {
            proof {
                use_type_invariant(self);
            }
            let pos = err_pos[e];
            let degree = msg_len - 1 - pos;
            let xi = self.exp[degree % 255];
            let xi_inv = self.exp[(255 - degree % 255) % 255];
            let lxi = self.log[xi_inv as usize] as usize;
            let mut num: u8 = 0;
            let mut j: usize = 0;
            while j < omega.len()
                invariant
                    omega@.len() <= 255,
                    lxi < 256,
                decreases omega@.len() - j,
            {
                proof {
                    use_type_invariant(self);
                }
                assert(lxi * j < 65536) by (nonlinear_arith)
                    requires
                        lxi < 256,
                        j < 256,
                ;
                let v = self.gf_mul(omega[j], self.exp[(lxi * j) % 255]);
                num = num ^ v;
                j += 1;
            }
            let mut den: u8 = 0;
            let mut j: usize = 1;
            while j < sigma.len()
                invariant
                    sigma@.len() <= 256,
                    1 <= j <= sigma@.len() + 1,
                    lxi < 256,
                decreases sigma@.len() + 1 - j,
            {
                proof {
                    use_type_invariant(self);
                }
                assert(lxi * (j - 1) < 65536) by (nonlinear_arith)
                    requires
                        lxi < 256,
                        j - 1 < 256,
                ;
                let v = self.gf_mul(sigma[j], self.exp[(lxi * (j - 1)) % 255]);
                den = den ^ v;
                j += 2;
            }
            if num != 0 && den == 0 {
                return Err(TSpineError::ReedSolomon("Uncorrectable error in block".to_owned()));
            }
            let quotient = self.gf_div(num, den);
            let magnitude = self.gf_mul(xi, quotient);
            let cur = msg[pos];
            msg.set(pos, cur ^ magnitude);
            e += 1;
        }
        // The corrected word must be a codeword within half the parity count of the block.
        let diff = Self::count_differences(msg.as_slice(), chunk);
        if diff > k / 2 {
            return Err(TSpineError::ReedSolomon("Uncorrectable error in block".to_owned()));
        }
        let mut t: usize = 0;
        while t < k
            invariant
                k == self.ecc(),
                k <= 255,
                t <= k,
                msg@.len() == chunk@.len(),
                chunk@.len() <= 255,
                !is_codeword(chunk@, self.ecc()),
                forall|u: nat| u < t ==> #[trigger] poly_eval(msg@, apow(u)) == 0,
            decreases k - t,
        {
            let s = self.eval_at_power(msg.as_slice(), t);
            if s != 0 {
                return Err(TSpineError::ReedSolomon("Uncorrectable error in block".to_owned()));
            }
            t += 1;
        }
        proof {
            assert(is_codeword(msg@, k as nat));
            lemma_distance_symmetric(chunk@, msg@);
            Self::lemma_unique_correction(chunk@, msg@, k as nat);
        }
        let data_len = msg.len() - k;
        Ok(slice_to_vec(slice_subrange(msg.as_slice(), 0, data_len)))
    }

    /// The value of `w` at `2^t`.
    fn eval_at_power(&self, w: &[u8], t: usize) -> (r: u8)
        requires
            t < 255,
        ensures
            r == poly_eval(w@, apow(t as nat)),
    {
        proof {
            use_type_invariant(self);
        }
        let root = self.exp[t];
        let mut eval: u8 = 0;
        let mut j: usize = 0;
        proof {
            assert(w@.take(0) =~= seq![]);
        }
        while j < w.len()
            invariant
                j <= w@.len(),
                root == apow(t as nat),
                eval == poly_eval(w@.take(j as int), root),
            decreases w@.len() - j,
        {
            let prod = self.gf_mul(eval, root);
            proof {
                assert(w@.take(j + 1).drop_last() =~= w@.take(j as int));
            }
            eval = prod ^ w[j];
            j += 1;
        }
        proof {
            assert(w@.take(w@.len() as int) =~= w@);
        }
        eval
    }

    /// The number of positions at which two words of the same length differ.
    fn count_differences(a: &[u8], b: &[u8]) -> (n: usize)
        requires
            a@.len() == b@.len(),
        ensures
            n == distance(a@, b@),
    {
        let mut n: usize = 0;
        let mut q: usize = 0;
        proof {
            assert(xor_seq(a@.take(0), b@.take(0)) =~= seq![]);
        }
        while q < a.len()
            invariant
                a@.len() == b@.len(),
                q <= a@.len(),
                n <= q,
                n == distance(a@.take(q as int), b@.take(q as int)),
            decreases a@.len() - q,
        {
            proof {
                let x = xor_seq(a@.take(q + 1), b@.take(q + 1));
                assert(x.drop_last() =~= xor_seq(a@.take(q as int), b@.take(q as int)));
                let p = a@[q as int];
                let r = b@[q as int];
                assert(x.last() == p ^ r);
                lemma_xor_equal(p, r);
            }
            if a[q] != b[q] {
                n += 1;
            }
            q += 1;
        }
        proof {
            assert(a@.take(a@.len() as int) =~= a@);
            assert(b@.take(b@.len() as int) =~= b@);
        }
        n
    }

    /// A codeword within half the parity count of a block is the only one: any codeword that
    /// near has the same data.
    proof fn lemma_unique_correction(r: Seq<u8>, w: Seq<u8>, k: nat)
        requires
            r.len() == w.len(),
            r.len() <= 255,
            k <= r.len(),
            is_codeword(w, k),
            2 * distance(r, w) <= k,
        ensures
            forall|c: Seq<u8>|
                #[trigger] is_codeword(c, k) && c.len() == r.len() && 2 * distance(r, c) <= k
                    ==> w.take(r.len() - k) == c.take(r.len() - k),
    {
        assert forall|c: Seq<u8>|
            #[trigger] is_codeword(c, k) && c.len() == r.len() && 2 * distance(r, c) <= k implies w.take(
            r.len() - k,
        ) == c.take(r.len() - k) by {
            lemma_nearest_codeword_unique(r, w, c, k);
        }
    }

    /// A block one byte away from a codeword: the codeword is the block with that byte fixed,
    /// and the first two syndromes are the error and the error times `2^degree`.
    proof fn lemma_single_error(r: Seq<u8>, c: Seq<u8>, k: nat, j: int)
        requires
            2 <= k,
            r.len() == c.len(),
            r.len() <= 255,
            is_codeword(c, k),
            distance(r, c) == 1,
            0 <= j < r.len(),
            r[j] != c[j],
        ensures
            r[j] ^ c[j] != 0,
            poly_eval(r, apow(0)) == r[j] ^ c[j],
            poly_eval(r, apow(1)) == gmul(r[j] ^ c[j], apow((r.len() - 1 - j) as nat)),
            r.update(j, r[j] ^ (r[j] ^ c[j])) == c,
    {
        let n = r.len();
        let x = xor_seq(r, c);
        let y = r[j] ^ c[j];
        let p = r[j];
        let q = c[j];
        lemma_xor_equal(p, q);
        assert(x[j] == y);
        lemma_weight_clear(x, j);
        assert forall|i: int| 0 <= i < n && i != j implies x[i] == 0 by {
            lemma_weight_zero(x.update(j, 0u8), i);
        }
        assert forall|i: int| 0 <= i < n implies #[trigger] xor_seq(c, x)[i] == r[i] by {
            lemma_xor_facts(c[i], r[i], c[i], 0);
            let a = r[i];
            let b = c[i];
            lemma_xor_equal(a, b);
        }
        assert(xor_seq(c, x) =~= r);
        lemma_eval_xor(c, x, apow(0));
        lemma_eval_xor(c, x, apow(1));
        assert(poly_eval(c, apow(0)) == 0);
        assert(poly_eval(c, apow(1)) == 0);
        lemma_xor_facts(poly_eval(x, apow(0)), 0, 0, 0);
        lemma_xor_facts(poly_eval(x, apow(1)), 0, 0, 0);
        lemma_eval_single(x, j, apow(0));
        lemma_eval_single(x, j, apow(1));
        lemma_power_of_two((n - 1 - j) as nat);
        assert(apow(0) == 1);
        lemma_gmul_one(y);

        assert forall|i: int| 0 <= i < n implies #[trigger] r.update(j, r[j] ^ y)[i] == c[i] by {
            if i != j {
                let a = r[i];
                let b = c[i];
                assert(x[i] == a ^ b);
                lemma_xor_equal(a, b);
            }
        }
        assert(r.update(j, r[j] ^ y) =~= c);
    }

    /// Corrects a block with a single wrong byte from its first two syndromes: the error is
    /// the first, its position the logarithm of the second over the first. Gives the corrected
    /// word when it is a codeword within half the parity count of the block.
    fn correct_single(&self, chunk: &[u8], synd: &Vec<u8>) -> (r: Option<Vec<u8>>)
        requires
            2 <= self.ecc(),
            self.ecc() <= chunk@.len(),
            chunk@.len() <= 255,
            synd@.len() == self.ecc(),
            forall|t: int| 0 <= t < self.ecc() ==> #[trigger] synd@[t] == poly_eval(chunk@, apow(t as nat)),
        ensures
            r matches Some(w) ==> w@.len() == chunk@.len() && is_codeword(w@, self.ecc()) && 2
                * distance(chunk@, w@) <= self.ecc(),
            forall|c: Seq<u8>|
                #[trigger] is_codeword(c, self.ecc()) && c.len() == chunk@.len() && distance(
                    chunk@,
                    c,
                ) == 1 ==> (r matches Some(w) && w@ == c),
    {
        proof {
            use_type_invariant(self);
        }
        let k = self.ecc_bytes;
        let n = chunk.len();
        let ghost good = exists|c: Seq<u8>|
            #[trigger] is_codeword(c, k as nat) && c.len() == n && distance(chunk@, c) == 1;
        let ghost cw = choose|c: Seq<u8>|
            #[trigger] is_codeword(c, k as nat) && c.len() == n && distance(chunk@, c) == 1;
        let ghost j0: int = choose|j: int| 0 <= j < n && chunk@[j] != cw[j];
        proof {
            assert(good ==> 0 <= j0 < n && chunk@[j0] != cw[j0]) by {
                if good {
                    if forall|j: int| 0 <= j < n ==> !(chunk@[j] != cw[j]) {
                        assert forall|i: int| 0 <= i < n implies #[trigger] xor_seq(chunk@, cw)[i] == 0 by {
                            assert(chunk@[i] == cw[i]);
                            lemma_xor_facts(chunk@[i], 0, 0, 0);
                        }
                        lemma_weight_all_zero(xor_seq(chunk@, cw));
                    }
                }
            }
            assert(good ==> {
                let y = chunk@[j0] ^ cw[j0];
                &&& y != 0
                &&& synd@[0] == y
                &&& synd@[1] == gmul(y, apow((n - 1 - j0) as nat))
                &&& chunk@.update(j0, chunk@[j0] ^ y) == cw
            }) by {
                if good {
                    Self::lemma_single_error(chunk@, cw, k as nat, j0);
                    assert(synd@[0] == poly_eval(chunk@, apow(0)));
                    assert(synd@[1] == poly_eval(chunk@, apow(1)));
                }
            }
            assert forall|c: Seq<u8>|
                #[trigger] is_codeword(c, k as nat) && c.len() == n && distance(chunk@, c) == 1 implies c
                == cw by {
                lemma_distance_symmetric(chunk@, cw);
                crate::distance::lemma_distance_triangle(c, chunk@, cw);
                lemma_distance_symmetric(chunk@, c);
                lemma_codewords_apart(c, cw, k as nat);
            }
        }
        let s0 = synd[0];
        let s1 = synd[1];
        if s0 == 0 || s1 == 0 {
            proof {
                if good {
                    crate::gf::lemma_apow_nonzero((n - 1 - j0) as nat);
                    lemma_no_zero_divisors(chunk@[j0] ^ cw[j0], apow((n - 1 - j0) as nat));
                }
            }
            return None;
        }
        let ratio = self.gf_div(s1, s0);
        let d = self.log[ratio as usize] as usize;
        proof {
            assert(apow(d as nat) == ratio && d < 255);
            if good {
                let y = chunk@[j0] ^ cw[j0];
                lemma_gmul_comm(apow((n - 1 - j0) as nat), y);
                lemma_gmul_cancel(y, ratio, apow((n - 1 - j0) as nat));
                lemma_apow_injective(d as nat, (n - 1 - j0) as nat);
                assert(d == n - 1 - j0);
            }
        }
        if d >= n {
            return None;
        }
        let idx = n - 1 - d;
        let mut w = slice_to_vec(chunk);
        let cur = w[idx];
        w.set(idx, cur ^ s0);
        proof {
            if good {
                assert(idx == j0);
                assert(w@ =~= chunk@.update(j0, chunk@[j0] ^ (chunk@[j0] ^ cw[j0])));
                assert(w@ == cw);
            }
        }
        let diff = Self::count_differences(w.as_slice(), chunk);
        if diff > k / 2 {
            proof {
                if good {
                    lemma_distance_symmetric(chunk@, cw);
                }
            }
            return None;
        }
        let mut t: usize = 0;
        while t < k
            invariant
                k == self.ecc(),
                k <= 255,
                t <= k,
                w@.len() == chunk@.len(),
                chunk@.len() <= 255,
                forall|c: Seq<u8>|
                    #[trigger] is_codeword(c, k as nat) && c.len() == chunk@.len() && distance(
                        chunk@,
                        c,
                    ) == 1 ==> w@ == c,
                forall|u: nat| u < t ==> #[trigger] poly_eval(w@, apow(u)) == 0,
            decreases k - t,
        {
            let sv = self.eval_at_power(w.as_slice(), t);
            if sv != 0 {
                return None;
            }
            t += 1;
        }
        proof {
            assert(is_codeword(w@, k as nat));
            lemma_distance_symmetric(chunk@, w@);
        }
        Some(w)
    }

    proof fn lemma_self_distance(r: Seq<u8>)
        ensures
            distance(r, r) == 0,
        decreases r.len(),
    {
        if r.len() > 0 {
            assert(xor_seq(r, r).drop_last() =~= xor_seq(r.drop_last(), r.drop_last()));
            Self::lemma_self_distance(r.drop_last());
            lemma_xor_facts(r.last(), 0, 0, 0);
        }
    }
}

} // verus!
