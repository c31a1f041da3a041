//! What the credential circuit's constraints mean: they hold for the
//! witness that the circuit allocates when the credential hashes to the
//! public hash and its holder is old enough, and, in a prime field, they
//! hold only when the private fields hash to the public hash and the
//! current year is at least the year of birth plus `MIN_AGE`.

use vstd::prelude::*;
use vstd::arithmetic::div_mod::{lemma_small_mod, lemma_mod_multiples_vanish, lemma_mod_bound};
use vstd::arithmetic::power2::{pow2, lemma2_to64, lemma_pow2_pos, lemma_pow2_unfold, lemma_pow2_strictly_increases};
use vstd::bits::lemma_u32_shr_is_div;
use crate::arith::{is_prime, lemma_lc_sum_append, lemma_lc_sum_push};
use crate::r1cs::{Var, lc_eval, lc_sum, row_holds, rows_hold, unit_lc, var_value};
use crate::gadgets::{
    bit_val, bits_of, bool_rows, pack_row, weighted_sum, witness_vars, lemma_rows_hold_append,
    lemma_rows_hold_single,
    lemma_unit_lc_eval, lemma_bool_rows, lemma_pack_row, lemma_values_of_witness_vars,
    lemma_weighted_sum_bound, lemma_bits_unique, lemma_bits_of_small,
};
use crate::credential::{
    IV, MIN_AGE, spec_xor_hash, wvar, iv_bit, z1_lc, z2_lc, round2_row, round3_row, hash_terms,
    hash_lc, age_lc, f1_at, f2_at, f3_at, m2_at, m3_at, issuer_at, holder_at, dob_at, diff_at,
    dbits_at, credential_rows, hash_part_rows, age_part_rows, credential_witness,
    hash_part_witness, m2_val, m3_val,
};

verus! {

/// The XOR of two bits.
pub open spec fn xor_bit(a: nat, b: nat) -> nat {
    if a == b { 0 } else { 1 }
}

/// On bits, AND is the product, XOR is `a + b - 2 * (a AND b)` and NOT is
/// `1 - a`: XOR and NOT are linear once the AND is known.
pub proof fn lemma_bit_gates(a: nat, b: nat)
    requires
        a <= 1,
        b <= 1,
    ensures
        (a * b == 1) == (a == 1 && b == 1),
        a * b <= 1,
        xor_bit(a, b) == a + b - 2 * (a * b),
        xor_bit(1, a) == 1 - a,
{
    if a == 0 {
        assert(a * b == 0);
    } else {
        assert(a * b == b);
    }
}

/// Bit `i` of a 32-bit number, by shifting and masking.
pub proof fn lemma_u32_bit(x: u32, i: nat)
    requires
        i < 32,
    ensures
        bit_val(x as nat, i) == ((x >> (i as u32)) & 1u32) as nat,
{
    lemma_u32_shr_is_div(x, i as u32);
    let y = x >> (i as u32);
    assert(y & 1u32 == y % 2) by (bit_vector);
}

/// Bit `i` of `u ^ v` is the XOR of bit `i` of `u` and of `v`.
pub proof fn lemma_u32_xor_bit(u: u32, v: u32, i: nat)
    requires
        i < 32,
    ensures
        bit_val((u ^ v) as nat, i) == xor_bit(bit_val(u as nat, i), bit_val(v as nat, i)),
{
    lemma_u32_bit(u, i);
    lemma_u32_bit(v, i);
    lemma_u32_bit(u ^ v, i);
    let s = i as u32;
    assert(((u ^ v) >> s) & 1u32 == ((u >> s) & 1u32) ^ ((v >> s) & 1u32)) by (bit_vector);
    assert((u >> s) & 1u32 <= 1u32) by (bit_vector);
    assert((v >> s) & 1u32 <= 1u32) by (bit_vector);
    let p = (u >> s) & 1u32;
    let r = (v >> s) & 1u32;
    assert(p <= 1 && r <= 1 ==> (p ^ r == if p == r { 0u32 } else { 1u32 })) by (bit_vector);
}

/// Bit `i` of the hash is the XOR of bit `i` of `IV` and of the three fields.
pub proof fn lemma_hash_bit(x1: u32, x2: u32, x3: u32, i: nat)
    requires
        i < 32,
    ensures
        bit_val(spec_xor_hash(x1, x2, x3) as nat, i) == xor_bit(
            xor_bit(xor_bit(bit_val(IV as nat, i), bit_val(x1 as nat, i)), bit_val(x2 as nat, i)),
            bit_val(x3 as nat, i),
        ),
{
    lemma_u32_xor_bit(IV, x1, i);
    lemma_u32_xor_bit(IV ^ x1, x2, i);
    lemma_u32_xor_bit((IV ^ x1) ^ x2, x3, i);
}

/// The value of bit `i` of `IV ^ issuer` as a linear expression of the bit of the issuer.
pub open spec fn zlin(a: nat, i: nat) -> int {
    if iv_bit(i) { 1 - a } else { a as int }
}

/// The multiple of the modulus that the combination of `z1[i]` carries.
pub open spec fn z1_carry(a: nat, i: nat) -> int {
    if iv_bit(i) { a as int } else { 0 }
}

/// The combination of `z1[i]` sums to its linear expression plus a multiple of `q`.
pub proof fn lemma_z1_sum(q: nat, w: nat, i: nat, inst: Seq<nat>, wit: Seq<nat>)
    requires
        q >= 1,
    ensures
        lc_sum(z1_lc(q, w, i), inst, wit) == zlin(var_value(wvar(w, f1_at() + i), inst, wit), i)
            + q * z1_carry(var_value(wvar(w, f1_at() + i), inst, wit), i),
{
    let a = var_value(wvar(w, f1_at() + i), inst, wit);
    let e = Seq::<(nat, Var)>::empty();
    assert(lc_sum(e, inst, wit) == 0);
    assert(var_value(Var::One, inst, wit) == 1);
    if iv_bit(i) {
        let k = (q - 1) as nat;
        let t0 = (1nat, Var::One);
        let t1 = (k, wvar(w, f1_at() + i));
        assert(seq![t0] =~= e.push(t0));
        assert(z1_lc(q, w, i) =~= seq![t0].push(t1));
        lemma_lc_sum_push(e, 1nat, Var::One, inst, wit);
        lemma_lc_sum_push(seq![t0], k, wvar(w, f1_at() + i), inst, wit);
        assert(lc_sum(z1_lc(q, w, i), inst, wit) == 1 + k * a);
        assert(1 + k * a == (1 - a) + q * a) by (nonlinear_arith)
            requires
                k == q - 1,
        ;
    } else {
        let t0 = (1nat, wvar(w, f1_at() + i));
        assert(z1_lc(q, w, i) =~= e.push(t0));
        lemma_lc_sum_push(e, 1nat, wvar(w, f1_at() + i), inst, wit);
        assert(q * z1_carry(a, i) == 0) by (nonlinear_arith)
            requires
                z1_carry(a, i) == 0,
        ;
    }
}

/// The value of witness variable `k` of the circuit.
pub open spec fn wval(w: nat, k: nat, inst: Seq<nat>, wit: Seq<nat>) -> nat {
    var_value(wvar(w, k), inst, wit)
}

/// The combination of `z2[i]` sums to `z1 + f2 - 2 * m2` plus a multiple of `q`.
pub proof fn lemma_z2_sum(q: nat, w: nat, i: nat, inst: Seq<nat>, wit: Seq<nat>)
    requires
        q >= 2,
    ensures
        lc_sum(z2_lc(q, w, i), inst, wit) == zlin(wval(w, f1_at() + i, inst, wit), i)
            + wval(w, f2_at() + i, inst, wit) - 2 * wval(w, m2_at() + i, inst, wit)
            + q * (z1_carry(wval(w, f1_at() + i, inst, wit), i) + wval(w, m2_at() + i, inst, wit)),
{
    let a = wval(w, f1_at() + i, inst, wit);
    let b = wval(w, f2_at() + i, inst, wit);
    let m = wval(w, m2_at() + i, inst, wit);
    let k = (q - 2) as nat;
    let e = Seq::<(nat, Var)>::empty();
    let t0 = (1nat, wvar(w, f2_at() + i));
    let tail = seq![t0, (k, wvar(w, m2_at() + i))];
    assert(lc_sum(e, inst, wit) == 0);
    assert(seq![t0] =~= e.push(t0));
    assert(tail =~= seq![t0].push((k, wvar(w, m2_at() + i))));
    lemma_lc_sum_push(e, 1nat, wvar(w, f2_at() + i), inst, wit);
    lemma_lc_sum_push(seq![t0], k, wvar(w, m2_at() + i), inst, wit);
    assert(z2_lc(q, w, i) =~= z1_lc(q, w, i) + tail);
    lemma_lc_sum_append(z1_lc(q, w, i), tail, inst, wit);
    lemma_z1_sum(q, w, i, inst, wit);
    let c = z1_carry(a, i);
    assert(k * m == q * m - 2 * m) by (nonlinear_arith)
        requires
            k == q - 2,
    ;
    assert(q * c + q * m == q * (c + m)) by (nonlinear_arith);
}

/// The value that the terms of hash bit `i` stand for: `z2 + f3 - 2 * m3`
/// with `z2` written out.
pub open spec fn bit_expr(w: nat, i: nat, inst: Seq<nat>, wit: Seq<nat>) -> int {
    zlin(wval(w, f1_at() + i, inst, wit), i) + wval(w, f2_at() + i, inst, wit)
        - 2 * wval(w, m2_at() + i, inst, wit) + wval(w, f3_at() + i, inst, wit)
        - 2 * wval(w, m3_at() + i, inst, wit)
}

/// The multiple of the modulus that the terms of hash bit `i` carry.
pub open spec fn bit_carry(w: nat, i: nat, inst: Seq<nat>, wit: Seq<nat>) -> int {
    z1_carry(wval(w, f1_at() + i, inst, wit), i) + wval(w, m2_at() + i, inst, wit)
        + wval(w, m3_at() + i, inst, wit)
}

/// `sum 2^i * bit_expr(i)` over the `n` low bits.
pub open spec fn hash_sum(w: nat, n: nat, inst: Seq<nat>, wit: Seq<nat>) -> int
    decreases n,
{
    if n == 0 {
        0
    } else {
        hash_sum(w, (n - 1) as nat, inst, wit) + pow2((n - 1) as nat) * bit_expr(w, (n - 1) as nat, inst, wit)
    }
}

/// `sum bit_carry(i)` over the `n` low bits.
pub open spec fn hash_carry(w: nat, n: nat, inst: Seq<nat>, wit: Seq<nat>) -> int
    decreases n,
{
    if n == 0 {
        0
    } else {
        hash_carry(w, (n - 1) as nat, inst, wit) + bit_carry(w, (n - 1) as nat, inst, wit)
    }
}

/// The terms of hash bit `i` sum to `2^i * bit_expr(i)` plus a multiple of `q`.
pub proof fn lemma_hash_terms_sum(q: nat, w: nat, i: nat, inst: Seq<nat>, wit: Seq<nat>)
    requires
        q >= 2 * pow2(i),
    ensures
        lc_sum(hash_terms(q, w, i), inst, wit) == pow2(i) * bit_expr(w, i, inst, wit)
            + q * bit_carry(w, i, inst, wit),
{
    let c = pow2(i);
    let c2 = 2 * pow2(i);
    let kc = (q - c) as nat;
    let kc2 = (q - c2) as nat;
    let a = wval(w, f1_at() + i, inst, wit);
    let b = wval(w, f2_at() + i, inst, wit);
    let m2 = wval(w, m2_at() + i, inst, wit);
    let cc = wval(w, f3_at() + i, inst, wit);
    let m3 = wval(w, m3_at() + i, inst, wit);
    let e = Seq::<(nat, Var)>::empty();
    assert(lc_sum(e, inst, wit) == 0);
    assert(var_value(Var::One, inst, wit) == 1);
    let head: Seq<(nat, Var)> = if iv_bit(i) {
        seq![(c, Var::One), (kc, wvar(w, f1_at() + i))]
    } else {
        seq![(c, wvar(w, f1_at() + i))]
    };
    let h0 = pow2(i) * zlin(a, i) + q * z1_carry(a, i);
    if iv_bit(i) {
        let t0 = (c, Var::One);
        assert(seq![t0] =~= e.push(t0));
        assert(head =~= seq![t0].push((kc, wvar(w, f1_at() + i))));
        lemma_lc_sum_push(e, c, Var::One, inst, wit);
        lemma_lc_sum_push(seq![t0], kc, wvar(w, f1_at() + i), inst, wit);
        assert(lc_sum(head, inst, wit) == c * 1 + kc * a);
        assert(c * 1 + kc * a == c * (1 - a) + q * a) by (nonlinear_arith)
            requires
                kc == q - c,
        ;
    } else {
        assert(head =~= e.push((c, wvar(w, f1_at() + i))));
        lemma_lc_sum_push(e, c, wvar(w, f1_at() + i), inst, wit);
        assert(q * z1_carry(a, i) == 0) by (nonlinear_arith)
            requires
                z1_carry(a, i) == 0,
        ;
    }
    assert(lc_sum(head, inst, wit) == h0);
    let t1 = (c, wvar(w, f2_at() + i));
    let s1 = seq![t1];
    let s2 = s1.push((kc2, wvar(w, m2_at() + i)));
    let s3 = s2.push((c, wvar(w, f3_at() + i)));
    let s4 = s3.push((kc2, wvar(w, m3_at() + i)));
    assert(s1 =~= e.push(t1));
    lemma_lc_sum_push(e, c, wvar(w, f2_at() + i), inst, wit);
    lemma_lc_sum_push(s1, kc2, wvar(w, m2_at() + i), inst, wit);
    lemma_lc_sum_push(s2, c, wvar(w, f3_at() + i), inst, wit);
    lemma_lc_sum_push(s3, kc2, wvar(w, m3_at() + i), inst, wit);
    assert(lc_sum(s4, inst, wit) == c * b + kc2 * m2 + c * cc + kc2 * m3);
    assert(hash_terms(q, w, i) =~= head + s4);
    lemma_lc_sum_append(head, s4, inst, wit);
    assert(h0 + (c * b + kc2 * m2 + c * cc + kc2 * m3)
        == c * (zlin(a, i) + b - 2 * m2 + cc - 2 * m3) + q * (z1_carry(a, i) + m2 + m3)) by (nonlinear_arith)
        requires
            kc2 == q - 2 * c,
            h0 == c * zlin(a, i) + q * z1_carry(a, i),
    ;
}

/// The packing of the `n` low hash bits sums to `hash_sum` plus a multiple of `q`.
pub proof fn lemma_hash_lc_sum(q: nat, w: nat, n: nat, inst: Seq<nat>, wit: Seq<nat>)
    requires
        q >= pow2(n),
    ensures
        lc_sum(hash_lc(q, w, n), inst, wit) == hash_sum(w, n, inst, wit) + q * hash_carry(w, n, inst, wit),
    decreases n,
{
    if n > 0 {
        let m = (n - 1) as nat;
        lemma_pow2_unfold(n);
        lemma_pow2_strictly_increases(m, n);
        lemma_hash_lc_sum(q, w, m, inst, wit);
        lemma_hash_terms_sum(q, w, m, inst, wit);
        lemma_lc_sum_append(hash_lc(q, w, m), hash_terms(q, w, m), inst, wit);
        let x = hash_carry(w, m, inst, wit);
        let y = bit_carry(w, m, inst, wit);
        assert(q * x + q * y == q * (x + y)) by (nonlinear_arith);
    }
}

/// The XOR chain that bit `i` of the hash is, over bits of the three fields.
pub open spec fn hash_bit(i: nat, a: nat, b: nat, c: nat) -> nat {
    xor_bit(xor_bit(xor_bit(bit_val(IV as nat, i), a), b), c)
}

/// For a bit of the issuer, the linear expression of `z1[i]` is the XOR with the bit of `IV`.
proof fn lemma_zlin(a: nat, i: nat)
    requires
        a <= 1,
    ensures
        zlin(a, i) == xor_bit(bit_val(IV as nat, i), a) as int,
        bit_val(IV as nat, i) <= 1,
{
    lemma_pow2_pos(i);
    lemma_mod_bound((IV as nat / pow2(i)) as int, 2);
}

/// The value of `x + q * k` in the field, for `0 <= x < q`.
proof fn lemma_mod_carry(q: nat, x: int, k: int)
    requires
        q > 0,
        0 <= x < q,
    ensures
        (x + q * k) % (q as int) == x,
{
    lemma_mod_multiples_vanish(k, x, q as int);
    lemma_small_mod(x as nat, q);
}

/// With bits for the issuer and holder and `m2[i]` their AND after `IV`,
/// the combinations of round two and three evaluate to `z1[i]` and `z2[i]`.
proof fn lemma_round_evals(q: nat, w: nat, i: nat, inst: Seq<nat>, wit: Seq<nat>)
    requires
        q > 4,
        wval(w, f1_at() + i, inst, wit) <= 1,
        wval(w, f2_at() + i, inst, wit) <= 1,
    ensures
        lc_eval(q, z1_lc(q, w, i), inst, wit) == zlin(wval(w, f1_at() + i, inst, wit), i),
        wval(w, m2_at() + i, inst, wit) == zlin(wval(w, f1_at() + i, inst, wit), i) * wval(w, f2_at() + i, inst, wit)
            ==> lc_eval(q, z2_lc(q, w, i), inst, wit) == xor_bit(
                zlin(wval(w, f1_at() + i, inst, wit), i) as nat, wval(w, f2_at() + i, inst, wit)),
{
    let a = wval(w, f1_at() + i, inst, wit);
    let b = wval(w, f2_at() + i, inst, wit);
    let m = wval(w, m2_at() + i, inst, wit);
    lemma_zlin(a, i);
    lemma_z1_sum(q, w, i, inst, wit);
    lemma_mod_carry(q, zlin(a, i), z1_carry(a, i));
    lemma_z2_sum(q, w, i, inst, wit);
    if m == zlin(a, i) * b {
        let z = zlin(a, i) as nat;
        lemma_bit_gates(z, b);
        lemma_mod_carry(q, xor_bit(z, b) as int, z1_carry(a, i) + m);
    }
}

/// Soundness of one bit: where the bits of the three fields are bits and
/// the two AND constraints of bit `i` hold, the hash bit that the final
/// packing reads is the XOR of bit `i` of `IV` and of the three fields.
pub proof fn lemma_bit_round_sound(q: nat, w: nat, i: nat, inst: Seq<nat>, wit: Seq<nat>)
    requires
        q > 4,
        wval(w, f1_at() + i, inst, wit) <= 1,
        wval(w, f2_at() + i, inst, wit) <= 1,
        wval(w, f3_at() + i, inst, wit) <= 1,
        wval(w, m2_at() + i, inst, wit) < q,
        wval(w, m3_at() + i, inst, wit) < q,
        row_holds(q, round2_row(q, w, i), inst, wit),
        row_holds(q, round3_row(q, w, i), inst, wit),
    ensures
        bit_expr(w, i, inst, wit) == hash_bit(i, wval(w, f1_at() + i, inst, wit),
            wval(w, f2_at() + i, inst, wit), wval(w, f3_at() + i, inst, wit)) as int,
{
    let a = wval(w, f1_at() + i, inst, wit);
    let b = wval(w, f2_at() + i, inst, wit);
    let c = wval(w, f3_at() + i, inst, wit);
    let m2 = wval(w, m2_at() + i, inst, wit);
    let m3 = wval(w, m3_at() + i, inst, wit);
    lemma_zlin(a, i);
    let z = zlin(a, i) as nat;
    lemma_round_evals(q, w, i, inst, wit);
    lemma_unit_lc_eval(q, wvar(w, f2_at() + i), inst, wit);
    lemma_unit_lc_eval(q, wvar(w, m2_at() + i), inst, wit);
    lemma_unit_lc_eval(q, wvar(w, f3_at() + i), inst, wit);
    lemma_unit_lc_eval(q, wvar(w, m3_at() + i), inst, wit);
    lemma_bit_gates(z, b);
    lemma_small_mod(z * b, q);
    assert(m2 == z * b);
    let y = xor_bit(z, b);
    lemma_bit_gates(y, c);
    lemma_small_mod(y * c, q);
    assert(m3 == y * c);
}

/// Completeness of one bit: with the values that the circuit assigns, the
/// two AND constraints of bit `i` hold, and the hash bit that the final
/// packing reads is the XOR of bit `i` of `IV` and of the three fields.
pub proof fn lemma_bit_round_complete(q: nat, w: nat, i: nat, inst: Seq<nat>, wit: Seq<nat>, x1: nat, x2: nat, x3: nat)
    requires
        q > 4,
        wval(w, f1_at() + i, inst, wit) == bit_val(x1, i),
        wval(w, f2_at() + i, inst, wit) == bit_val(x2, i),
        wval(w, f3_at() + i, inst, wit) == bit_val(x3, i),
        wval(w, m2_at() + i, inst, wit) == crate::credential::m2_val(q, x1, x2, i),
        wval(w, m3_at() + i, inst, wit) == crate::credential::m3_val(q, x1, x2, x3, i),
    ensures
        row_holds(q, round2_row(q, w, i), inst, wit),
        row_holds(q, round3_row(q, w, i), inst, wit),
        bit_expr(w, i, inst, wit) == hash_bit(i, bit_val(x1, i), bit_val(x2, i), bit_val(x3, i)) as int,
{
    let a = bit_val(x1, i);
    let b = bit_val(x2, i);
    let c = bit_val(x3, i);
    lemma_pow2_pos(i);
    lemma_mod_bound((x1 / pow2(i)) as int, 2);
    lemma_mod_bound((x2 / pow2(i)) as int, 2);
    lemma_mod_bound((x3 / pow2(i)) as int, 2);
    lemma_zlin(a, i);
    let z = zlin(a, i) as nat;
    if iv_bit(i) {
        lemma_mod_carry(q, 1 - a, 1);
    } else {
        lemma_small_mod(a, q);
    }
    assert(crate::credential::z1_val(q, x1, i) == z);
    lemma_bit_gates(z, b);
    lemma_small_mod(z * b, q);
    let m2 = z * b;
    assert(crate::credential::m2_val(q, x1, x2, i) == m2);
    let y = xor_bit(z, b);
    lemma_small_mod(z + b, q);
    lemma_small_mod(2 * m2, q);
    lemma_mod_carry(q, y as int, 1);
    assert(crate::credential::z2_val(q, x1, x2, i) == y);
    lemma_bit_gates(y, c);
    lemma_small_mod(y * c, q);
    assert(crate::credential::m3_val(q, x1, x2, x3, i) == y * c);
    lemma_round_evals(q, w, i, inst, wit);
    lemma_unit_lc_eval(q, wvar(w, f2_at() + i), inst, wit);
    lemma_unit_lc_eval(q, wvar(w, m2_at() + i), inst, wit);
    lemma_unit_lc_eval(q, wvar(w, f3_at() + i), inst, wit);
    lemma_unit_lc_eval(q, wvar(w, m3_at() + i), inst, wit);
}

/// Where every hash bit expression is an entry of `s`, `hash_sum` is the weighted sum of `s`.
proof fn lemma_hash_sum_weighted(w: nat, n: nat, s: Seq<nat>, inst: Seq<nat>, wit: Seq<nat>)
    requires
        n <= s.len(),
        forall|i: nat| i < n ==> #[trigger] bit_expr(w, i, inst, wit) == s[i as int] as int,
    ensures
        hash_sum(w, n, inst, wit) == weighted_sum(s.take(n as int)) as int,
    decreases n,
{
    if n > 0 {
        let m = (n - 1) as nat;
        lemma_hash_sum_weighted(w, m, s, inst, wit);
        assert(s.take(n as int).drop_last() =~= s.take(m as int));
        assert(bit_expr(w, m, inst, wit) == s[m as int] as int);
    }
}

/// The constraints of the circuit hold exactly when each of its parts does.
pub proof fn lemma_credential_rows_parts(q: nat, i0: nat, w: nat, inst: Seq<nat>, wit: Seq<nat>)
    ensures
        rows_hold(q, credential_rows(q, i0, w), inst, wit) <==> {
            &&& row_holds(q, pack_row(witness_vars(w + f1_at(), 32), wvar(w, issuer_at())), inst, wit)
            &&& row_holds(q, pack_row(witness_vars(w + f2_at(), 32), wvar(w, holder_at())), inst, wit)
            &&& row_holds(q, pack_row(witness_vars(w + f3_at(), 32), wvar(w, dob_at())), inst, wit)
            &&& rows_hold(q, bool_rows(q, witness_vars(w + f1_at(), 32)), inst, wit)
            &&& rows_hold(q, bool_rows(q, witness_vars(w + f2_at(), 32)), inst, wit)
            &&& rows_hold(q, bool_rows(q, witness_vars(w + f3_at(), 32)), inst, wit)
            &&& (forall|i: nat| i < 32 ==> #[trigger] row_holds(q, round2_row(q, w, i), inst, wit))
            &&& (forall|i: nat| i < 32 ==> #[trigger] row_holds(q, round3_row(q, w, i), inst, wit))
            &&& row_holds(q, (hash_lc(q, w, 32), unit_lc(Var::One), unit_lc(Var::Instance(i0 as usize))), inst, wit)
            &&& row_holds(q, (age_lc(w), unit_lc(Var::One), unit_lc(Var::Instance((i0 + 1) as usize))), inst, wit)
            &&& row_holds(q, pack_row(witness_vars(w + dbits_at(), 7), wvar(w, diff_at())), inst, wit)
            &&& rows_hold(q, bool_rows(q, witness_vars(w + dbits_at(), 7)), inst, wit)
        },
{
    let packs = seq![
        pack_row(witness_vars(w + f1_at(), 32), wvar(w, issuer_at())),
        pack_row(witness_vars(w + f2_at(), 32), wvar(w, holder_at())),
        pack_row(witness_vars(w + f3_at(), 32), wvar(w, dob_at())),
    ];
    let b1 = bool_rows(q, witness_vars(w + f1_at(), 32));
    let b2 = bool_rows(q, witness_vars(w + f2_at(), 32));
    let b3 = bool_rows(q, witness_vars(w + f3_at(), 32));
    let r2 = Seq::new(32, |i: int| round2_row(q, w, i as nat));
    let r3 = Seq::new(32, |i: int| round3_row(q, w, i as nat));
    let hrow = (hash_lc(q, w, 32), unit_lc(Var::One), unit_lc(Var::Instance(i0 as usize)));
    let arows = seq![
        (age_lc(w), unit_lc(Var::One), unit_lc(Var::Instance((i0 + 1) as usize))),
        pack_row(witness_vars(w + dbits_at(), 7), wvar(w, diff_at())),
    ];
    let bd = bool_rows(q, witness_vars(w + dbits_at(), 7));
    lemma_rows_hold_append(q, hash_part_rows(q, i0, w), age_part_rows(q, i0, w), inst, wit);
    lemma_rows_hold_append(q, packs + b1 + b2 + b3 + r2 + r3, seq![hrow], inst, wit);
    lemma_rows_hold_append(q, packs + b1 + b2 + b3 + r2, r3, inst, wit);
    lemma_rows_hold_append(q, packs + b1 + b2 + b3, r2, inst, wit);
    lemma_rows_hold_append(q, packs + b1 + b2, b3, inst, wit);
    lemma_rows_hold_append(q, packs + b1, b2, inst, wit);
    lemma_rows_hold_append(q, packs, b1, inst, wit);
    lemma_rows_hold_append(q, arows, bd, inst, wit);
    assert(rows_hold(q, packs, inst, wit) <==> (row_holds(q, packs[0], inst, wit)
        && row_holds(q, packs[1], inst, wit) && row_holds(q, packs[2], inst, wit)));
    assert(rows_hold(q, arows, inst, wit) <==> (row_holds(q, arows[0], inst, wit)
        && row_holds(q, arows[1], inst, wit)));
    lemma_rows_hold_single(q, hrow, inst, wit);
    assert(rows_hold(q, r2, inst, wit) <==> (forall|i: nat| i < 32 ==> #[trigger] row_holds(q, round2_row(q, w, i), inst, wit))) by {
        if rows_hold(q, r2, inst, wit) {
            assert forall|i: nat| i < 32 implies #[trigger] row_holds(q, round2_row(q, w, i), inst, wit) by {
                assert(row_holds(q, r2[i as int], inst, wit));
            }
        }
        if forall|i: nat| i < 32 ==> #[trigger] row_holds(q, round2_row(q, w, i), inst, wit) {
            assert forall|i: int| 0 <= i < r2.len() implies #[trigger] row_holds(q, r2[i], inst, wit) by {
                assert(row_holds(q, round2_row(q, w, i as nat), inst, wit));
            }
        }
    }
    assert(rows_hold(q, r3, inst, wit) <==> (forall|i: nat| i < 32 ==> #[trigger] row_holds(q, round3_row(q, w, i), inst, wit))) by {
        if rows_hold(q, r3, inst, wit) {
            assert forall|i: nat| i < 32 implies #[trigger] row_holds(q, round3_row(q, w, i), inst, wit) by {
                assert(row_holds(q, r3[i as int], inst, wit));
            }
        }
        if forall|i: nat| i < 32 ==> #[trigger] row_holds(q, round3_row(q, w, i), inst, wit) {
            assert forall|i: int| 0 <= i < r3.len() implies #[trigger] row_holds(q, r3[i], inst, wit) by {
                assert(row_holds(q, round3_row(q, w, i as nat), inst, wit));
            }
        }
    }
}

/// `dob_year + MIN_AGE + diff` sums to what it says.
proof fn lemma_age_lc_sum(w: nat, inst: Seq<nat>, wit: Seq<nat>)
    ensures
        lc_sum(age_lc(w), inst, wit) == wval(w, dob_at(), inst, wit) + MIN_AGE + wval(w, diff_at(), inst, wit),
{
    let e = Seq::<(nat, Var)>::empty();
    let t0 = (1nat, wvar(w, dob_at()));
    let s1 = e.push(t0);
    let s2 = s1.push((MIN_AGE as nat, Var::One));
    assert(age_lc(w) =~= s2.push((1nat, wvar(w, diff_at()))));
    assert(lc_sum(e, inst, wit) == 0);
    lemma_lc_sum_push(e, 1nat, wvar(w, dob_at()), inst, wit);
    lemma_lc_sum_push(s1, 20nat, Var::One, inst, wit);
    lemma_lc_sum_push(s2, 1nat, wvar(w, diff_at()), inst, wit);
}

/// Bits of a field packed into its witness variable: the bits are the
/// binary expansion of the value, which is below `2^n`.
proof fn lemma_packed_bits(q: nat, base: nat, n: nat, target: nat, inst: Seq<nat>, wit: Seq<nat>)
    requires
        is_prime(q),
        pow2(n) < q,
        base + n <= wit.len(),
        target < wit.len(),
        wit.len() <= usize::MAX,
        forall|i: int| 0 <= i < wit.len() ==> #[trigger] wit[i] < q,
        rows_hold(q, bool_rows(q, witness_vars(base, n)), inst, wit),
        row_holds(q, pack_row(witness_vars(base, n), Var::Witness(target as usize)), inst, wit),
    ensures
        wit[target as int] < pow2(n),
        wit.subrange(base as int, (base + n) as int) == bits_of(wit[target as int], n),
{
    let vars = witness_vars(base, n);
    let s = wit.subrange(base as int, (base + n) as int);
    lemma_values_of_witness_vars(base, n, inst, wit);
    assert forall|i: int| 0 <= i < vars.len() implies #[trigger] var_value(vars[i], inst, wit) < q by {
        assert(var_value(vars[i], inst, wit) == wit[base + i]);
    }
    lemma_bool_rows(q, vars, inst, wit);
    lemma_pack_row(q, vars, Var::Witness(target as usize), inst, wit);
    lemma_weighted_sum_bound(s);
    lemma_bits_unique(s);
}

/// Soundness: in a prime field of order above `2^33`, an assignment that
/// satisfies the circuit's constraints holds three 32-bit fields whose
/// simple XOR hash is the public hash, and a seven-bit margin with
/// `dob_year + MIN_AGE + margin` the public current year, so that the
/// current year is at least `dob_year + MIN_AGE`.
pub proof fn lemma_credential_sound(q: nat, i0: nat, w: nat, inst: Seq<nat>, wit: Seq<nat>)
    requires
        is_prime(q),
        q > 0x2_0000_0000,
        i0 + 2 <= inst.len(),
        w + 171 <= wit.len(),
        inst.len() <= usize::MAX,
        wit.len() <= usize::MAX,
        forall|i: int| 0 <= i < inst.len() ==> #[trigger] inst[i] < q,
        forall|i: int| 0 <= i < wit.len() ==> #[trigger] wit[i] < q,
        rows_hold(q, credential_rows(q, i0, w), inst, wit),
    ensures
        wit[w as int] < 0x1_0000_0000,
        wit[w as int + 1] < 0x1_0000_0000,
        wit[w as int + 2] < 0x1_0000_0000,
        wit[w as int + 163] < 128,
        inst[i0 as int] == spec_xor_hash(wit[w as int] as u32, wit[w as int + 1] as u32, wit[w as int + 2] as u32) as nat,
        inst[i0 as int + 1] == wit[w as int + 2] + MIN_AGE + wit[w as int + 163],
        inst[i0 as int + 1] >= wit[w as int + 2] + MIN_AGE,
{
    lemma2_to64();
    lemma_pow2_strictly_increases(32, 33);
    lemma_credential_rows_parts(q, i0, w, inst, wit);
    lemma_packed_bits(q, w + f1_at(), 32, w, inst, wit);
    lemma_packed_bits(q, w + f2_at(), 32, w + 1, inst, wit);
    lemma_packed_bits(q, w + f3_at(), 32, w + 2, inst, wit);
    lemma_packed_bits(q, w + dbits_at(), 7, w + diff_at(), inst, wit);
    let x1 = wit[w as int] as u32;
    let x2 = wit[w as int + 1] as u32;
    let x3 = wit[w as int + 2] as u32;
    let h = spec_xor_hash(x1, x2, x3);
    let hb = bits_of(h as nat, 32);
    assert forall|i: nat| i < 32 implies #[trigger] bit_expr(w, i, inst, wit) == hb[i as int] as int by {
        assert(wval(w, f1_at() + i, inst, wit) == wit.subrange((w + f1_at()) as int, (w + f1_at() + 32) as int)[i as int]);
        assert(wval(w, f2_at() + i, inst, wit) == wit.subrange((w + f2_at()) as int, (w + f2_at() + 32) as int)[i as int]);
        assert(wval(w, f3_at() + i, inst, wit) == wit.subrange((w + f3_at()) as int, (w + f3_at() + 32) as int)[i as int]);
        assert(bits_of(wit[w as int], 32)[i as int] == bit_val(x1 as nat, i));
        assert(bits_of(wit[w as int + 1], 32)[i as int] == bit_val(x2 as nat, i));
        assert(bits_of(wit[w as int + 2], 32)[i as int] == bit_val(x3 as nat, i));
        lemma_pow2_pos(i);
        lemma_mod_bound((x1 as nat / pow2(i)) as int, 2);
        lemma_mod_bound((x2 as nat / pow2(i)) as int, 2);
        lemma_mod_bound((x3 as nat / pow2(i)) as int, 2);
        assert(wval(w, m2_at() + i, inst, wit) == wit[w as int + m2_at() + i]);
        assert(wval(w, m3_at() + i, inst, wit) == wit[w as int + m3_at() + i]);
        lemma_bit_round_sound(q, w, i, inst, wit);
        lemma_hash_bit(x1, x2, x3, i);
    }
    lemma_hash_sum_weighted(w, 32, hb, inst, wit);
    assert(hb.take(32) =~= hb);
    lemma_bits_of_small(h as nat, 32);
    lemma_hash_lc_sum(q, w, 32, inst, wit);
    lemma_mod_carry(q, h as int, hash_carry(w, 32, inst, wit));
    lemma_unit_lc_eval(q, Var::One, inst, wit);
    lemma_unit_lc_eval(q, Var::Instance(i0 as usize), inst, wit);
    assert(lc_eval(q, hash_lc(q, w, 32), inst, wit) == h);
    lemma_small_mod(h as nat, q);
    let e1 = lc_eval(q, unit_lc(Var::One), inst, wit);
    assert(h * e1 == h) by (nonlinear_arith)
        requires
            e1 == 1,
    ;
    lemma_age_lc_sum(w, inst, wit);
    let age = (wit[w as int + 2] + MIN_AGE + wit[w as int + 163]) as nat;
    lemma_small_mod(age, q);
    lemma_unit_lc_eval(q, Var::Instance((i0 + 1) as usize), inst, wit);
    assert(age * e1 == age) by (nonlinear_arith)
        requires
            e1 == 1,
    ;
}

/// The bits of a value that is below `2^n`, allocated after it, satisfy
/// its packing and boolean constraints.
proof fn lemma_packed_bits_complete(q: nat, base: nat, n: nat, target: nat, inst: Seq<nat>, wit: Seq<nat>)
    requires
        q > 1,
        pow2(n) < q,
        base + n <= wit.len(),
        target < wit.len(),
        wit.len() <= usize::MAX,
        wit[target as int] < pow2(n),
        wit.subrange(base as int, (base + n) as int) == bits_of(wit[target as int], n),
    ensures
        rows_hold(q, bool_rows(q, witness_vars(base, n)), inst, wit),
        row_holds(q, pack_row(witness_vars(base, n), Var::Witness(target as usize)), inst, wit),
{
    let vars = witness_vars(base, n);
    let x = wit[target as int];
    lemma_values_of_witness_vars(base, n, inst, wit);
    lemma_bits_of_small(x, n);
    assert forall|i: int| 0 <= i < vars.len() implies #[trigger] var_value(vars[i], inst, wit) < q by {
        assert(var_value(vars[i], inst, wit) == bits_of(x, n)[i]);
    }
    lemma_bool_rows(q, vars, inst, wit);
    lemma_pack_row(q, vars, Var::Witness(target as usize), inst, wit);
}

/// The hash bits that the circuit reads hold the simple XOR hash, and the
/// rounds' constraints hold, for the witness that the circuit allocates.
proof fn lemma_rounds_complete(q: nat, w: nat, inst: Seq<nat>, wit: Seq<nat>, x1: u32, x2: u32, x3: u32)
    requires
        q > 0x2_0000_0000,
        w + 171 <= wit.len(),
        wit.len() <= usize::MAX,
        wit.subrange((w + f1_at()) as int, (w + f1_at() + 32) as int) == bits_of(x1 as nat, 32),
        wit.subrange((w + f2_at()) as int, (w + f2_at() + 32) as int) == bits_of(x2 as nat, 32),
        wit.subrange((w + f3_at()) as int, (w + f3_at() + 32) as int) == bits_of(x3 as nat, 32),
        wit.subrange((w + m2_at()) as int, (w + m2_at() + 32) as int)
            == Seq::new(32, |i: int| m2_val(q, x1 as nat, x2 as nat, i as nat)),
        wit.subrange((w + m3_at()) as int, (w + m3_at() + 32) as int)
            == Seq::new(32, |i: int| m3_val(q, x1 as nat, x2 as nat, x3 as nat, i as nat)),
    ensures
        forall|i: nat| i < 32 ==> #[trigger] row_holds(q, round2_row(q, w, i), inst, wit),
        forall|i: nat| i < 32 ==> #[trigger] row_holds(q, round3_row(q, w, i), inst, wit),
        hash_sum(w, 32, inst, wit) == spec_xor_hash(x1, x2, x3) as int,
{
    lemma2_to64();
    let h = spec_xor_hash(x1, x2, x3);
    let hb = bits_of(h as nat, 32);
    assert forall|i: nat|
        #![trigger round2_row(q, w, i)]
        #![trigger round3_row(q, w, i)]
        #![trigger bit_expr(w, i, inst, wit)]
        i < 32 implies {
        &&& row_holds(q, round2_row(q, w, i), inst, wit)
        &&& row_holds(q, round3_row(q, w, i), inst, wit)
        &&& bit_expr(w, i, inst, wit) == hb[i as int] as int
    } by {
        assert(wval(w, f1_at() + i, inst, wit) == bits_of(x1 as nat, 32)[i as int]);
        assert(wval(w, f2_at() + i, inst, wit) == bits_of(x2 as nat, 32)[i as int]);
        assert(wval(w, f3_at() + i, inst, wit) == bits_of(x3 as nat, 32)[i as int]);
        assert(wit.subrange((w + m2_at()) as int, (w + m2_at() + 32) as int)[i as int]
            == Seq::new(32, |j: int| m2_val(q, x1 as nat, x2 as nat, j as nat))[i as int]);
        assert(wit.subrange((w + m3_at()) as int, (w + m3_at() + 32) as int)[i as int]
            == Seq::new(32, |j: int| m3_val(q, x1 as nat, x2 as nat, x3 as nat, j as nat))[i as int]);
        assert(Seq::new(32, |j: int| m2_val(q, x1 as nat, x2 as nat, j as nat))[i as int]
            == m2_val(q, x1 as nat, x2 as nat, i));
        assert(Seq::new(32, |j: int| m3_val(q, x1 as nat, x2 as nat, x3 as nat, j as nat))[i as int]
            == m3_val(q, x1 as nat, x2 as nat, x3 as nat, i));
        assert(wval(w, m2_at() + i, inst, wit) == wit[(w + m2_at() + i) as int]);
        assert(wval(w, m3_at() + i, inst, wit) == wit[(w + m3_at() + i) as int]);
        assert(wval(w, m2_at() + i, inst, wit) == m2_val(q, x1 as nat, x2 as nat, i));
        assert(wval(w, m3_at() + i, inst, wit) == m3_val(q, x1 as nat, x2 as nat, x3 as nat, i));
        lemma_bit_round_complete(q, w, i, inst, wit, x1 as nat, x2 as nat, x3 as nat);
        lemma_hash_bit(x1, x2, x3, i);
    }
    assert forall|i: nat| i < 32 implies #[trigger] row_holds(q, round2_row(q, w, i), inst, wit) by {}
    assert forall|i: nat| i < 32 implies #[trigger] row_holds(q, round3_row(q, w, i), inst, wit) by {}
    assert forall|i: nat| i < 32 implies #[trigger] bit_expr(w, i, inst, wit) == hb[i as int] as int by {}
    lemma_hash_sum_weighted(w, 32, hb, inst, wit);
    assert(hb.take(32) =~= hb);
    lemma_bits_of_small(h as nat, 32);
}

/// Completeness: for 32-bit fields, a seven-bit margin and the current year
/// `dob_year + MIN_AGE + margin`, the witness that the circuit allocates
/// satisfies its constraints with the simple XOR hash and the current year
/// as the public inputs, in any field of order above `2^33`.
#[verifier::rlimit(40)]
pub proof fn lemma_credential_complete(
    q: nat,
    inst0: Seq<nat>,
    wit0: Seq<nat>,
    x1: u32,
    x2: u32,
    x3: u32,
    d: nat,
    year: nat,
)
    requires
        q > 0x2_0000_0000,
        d < 128,
        year == x3 + MIN_AGE + d,
        inst0.len() + 2 <= usize::MAX,
        wit0.len() + 171 <= usize::MAX,
    ensures
        rows_hold(
            q,
            credential_rows(q, inst0.len(), wit0.len()),
            inst0 + seq![spec_xor_hash(x1, x2, x3) as nat, year],
            wit0 + credential_witness(q, x1 as nat, x2 as nat, x3 as nat, d),
        ),
{
    lemma2_to64();
    lemma_pow2_strictly_increases(32, 33);
    let w = wit0.len();
    let i0 = inst0.len();
    let h = spec_xor_hash(x1, x2, x3);
    let inst = inst0 + seq![h as nat, year];
    let wit = wit0 + credential_witness(q, x1 as nat, x2 as nat, x3 as nat, d);
    assert(wit.len() == w + 171);
    assert(wit[w as int] == x1 as nat);
    assert(wit[w as int + 1] == x2 as nat);
    assert(wit[w as int + 2] == x3 as nat);
    assert(wit[w as int + 163] == d);
    assert(wit.subrange((w + f1_at()) as int, (w + f1_at() + 32) as int) =~= bits_of(x1 as nat, 32));
    assert(wit.subrange((w + f2_at()) as int, (w + f2_at() + 32) as int) =~= bits_of(x2 as nat, 32));
    assert(wit.subrange((w + f3_at()) as int, (w + f3_at() + 32) as int) =~= bits_of(x3 as nat, 32));
    assert(wit.subrange((w + m2_at()) as int, (w + m2_at() + 32) as int)
        =~= Seq::new(32, |i: int| m2_val(q, x1 as nat, x2 as nat, i as nat)));
    assert(wit.subrange((w + m3_at()) as int, (w + m3_at() + 32) as int)
        =~= Seq::new(32, |i: int| m3_val(q, x1 as nat, x2 as nat, x3 as nat, i as nat)));
    assert(wit.subrange((w + dbits_at()) as int, (w + dbits_at() + 7) as int) =~= bits_of(d, 7));
    lemma_packed_bits_complete(q, w + f1_at(), 32, w, inst, wit);
    lemma_packed_bits_complete(q, w + f2_at(), 32, w + 1, inst, wit);
    lemma_packed_bits_complete(q, w + f3_at(), 32, w + 2, inst, wit);
    lemma_packed_bits_complete(q, w + dbits_at(), 7, w + diff_at(), inst, wit);
    lemma_rounds_complete(q, w, inst, wit, x1, x2, x3);
    lemma_bits_of_small(h as nat, 32);
    lemma_hash_lc_sum(q, w, 32, inst, wit);
    lemma_mod_carry(q, h as int, hash_carry(w, 32, inst, wit));
    lemma_small_mod(1, q);
    lemma_unit_lc_eval(q, Var::One, inst, wit);
    assert(var_value(Var::Instance(i0 as usize), inst, wit) == h);
    lemma_unit_lc_eval(q, Var::Instance(i0 as usize), inst, wit);
    lemma_small_mod(h as nat, q);
    let e1 = lc_eval(q, unit_lc(Var::One), inst, wit);
    assert(h * e1 == h) by (nonlinear_arith)
        requires
            e1 == 1,
    ;
    lemma_age_lc_sum(w, inst, wit);
    lemma_small_mod(year, q);
    assert(var_value(Var::Instance((i0 + 1) as usize), inst, wit) == year);
    lemma_unit_lc_eval(q, Var::Instance((i0 + 1) as usize), inst, wit);
    assert(year * e1 == year) by (nonlinear_arith)
        requires
            e1 == 1,
    ;
    lemma_credential_rows_parts(q, i0, w, inst, wit);
}

/// The simple XOR hash is not collision resistant: swapping the issuer and
/// the holder, or moving bits between any two fields, keeps the hash.
pub proof fn lemma_xor_hash_collisions(a: u32, b: u32, c: u32, t: u32)
    ensures
        spec_xor_hash(a, b, c) == spec_xor_hash(b, a, c),
        spec_xor_hash(a, b, c) == spec_xor_hash(a ^ t, b ^ t, c),
{
    assert(((IV ^ a) ^ b) ^ c == ((IV ^ b) ^ a) ^ c) by (bit_vector);
    assert(((IV ^ a) ^ b) ^ c == ((IV ^ (a ^ t)) ^ (b ^ t)) ^ c) by (bit_vector);
}

/// The circuit enforces 173 constraints: 164 for the hash (3 packings, 96
/// boolean checks, 32 ANDs in each of rounds two and three, and the final
/// packing, with none for the XOR with the constant `IV`) and 9 for the age
/// (the sum, the packing of the margin, and its 7 boolean checks); and it
/// allocates 171 witness variables.
pub proof fn lemma_credential_counts(q: nat, i0: nat, w: nat, x1: nat, x2: nat, x3: nat, d: nat)
    ensures
        hash_part_rows(q, i0, w).len() == 164,
        age_part_rows(q, i0, w).len() == 9,
        credential_rows(q, i0, w).len() == 173,
        hash_part_witness(q, x1, x2, x3).len() == 163,
        credential_witness(q, x1, x2, x3, d).len() == 171,
{
}

} // verus!
