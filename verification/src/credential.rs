//! The credential circuit. A credential is three 32-bit fields: the issuer,
//! the holder's name and the year of birth. Its simple XOR hash is
//! `((IV ^ issuer) ^ holder) ^ dob_year`. The circuit shows, with the
//! hash and the current year public and the fields private, that the prover
//! knows a credential with that hash whose holder is at least `MIN_AGE`
//! years old: `dob_year + MIN_AGE + diff = current_year` for a seven-bit
//! `diff`.

use vstd::prelude::*;
use vstd::arithmetic::div_mod::{lemma_small_mod, lemma_add_mod_noop, lemma_mod_bound};
use vstd::arithmetic::power2::{pow2, lemma2_to64, lemma_pow2_pos, lemma_pow2_strictly_increases};
use crate::field::{Fe, modulus};
use crate::arith::is_prime;
use crate::r1cs::{
    rows_compact,
    Lc, R1cs, Row, SynthesisError, Var, lc_in_range, r1cs_constraints, r1cs_instance, r1cs_witness,
    rows_hold, unit_lc, var_in_range, lemma_rows_in_range_grow, lemma_rows_hold_same_evals,
    r1cs_num_instance, r1cs_num_witness,
};
use crate::gadgets::{
    alloc_bits, bit_val, bits_of, bool_rows, enforce_booleans, enforce_pack, pack_row,
    witness_vars,
};

verus! {

broadcast use Fe::lemma_value_canonical;

/// The public initial value of the hash.
pub const IV: u32 = 0xA5A5A5A5;

/// The least age, in years, that the circuit accepts.
pub const MIN_AGE: u64 = 20;

/// The simple XOR hash of a credential.
pub open spec fn spec_xor_hash(issuer_id: u32, holder_name: u32, dob_year: u32) -> u32 {
    ((IV ^ issuer_id) ^ holder_name) ^ dob_year
}

/// Computes the simple XOR hash of a credential off the circuit.
pub fn xor_hash_offchain(issuer_id: u32, holder_name: u32, dob_year: u32) -> (h: u32)
    ensures
        h == spec_xor_hash(issuer_id, holder_name, dob_year),
{
    let z1 = IV ^ issuer_id;
    let z2 = z1 ^ holder_name;
    z2 ^ dob_year
}

// Where the circuit puts its witness variables, counted from the first
// witness variable that it allocates.
pub open spec fn issuer_at() -> nat { 0 }
pub open spec fn holder_at() -> nat { 1 }
pub open spec fn dob_at() -> nat { 2 }
pub open spec fn f1_at() -> nat { 3 }
pub open spec fn f2_at() -> nat { 35 }
pub open spec fn f3_at() -> nat { 67 }
pub open spec fn m2_at() -> nat { 99 }
pub open spec fn m3_at() -> nat { 131 }
pub open spec fn diff_at() -> nat { 163 }
pub open spec fn dbits_at() -> nat { 164 }

/// The number of witness variables that the circuit allocates.
pub open spec fn credential_witness_len() -> nat { 171 }

/// Witness variable `k` of the circuit, whose witness starts at `w`.
pub open spec fn wvar(w: nat, k: nat) -> Var {
    Var::Witness((w + k) as usize)
}

/// Whether bit `i` of `IV` is set.
pub open spec fn iv_bit(i: nat) -> bool {
    bit_val(IV as nat, i) == 1
}

/// The linear combination of bit `i` of `IV ^ issuer`: `1 - f1[i]` where
/// the bit of `IV` is set, `f1[i]` where it is not.
pub open spec fn z1_lc(q: nat, w: nat, i: nat) -> Seq<(nat, Var)> {
    if iv_bit(i) {
        seq![(1nat, Var::One), ((q - 1) as nat, wvar(w, f1_at() + i))]
    } else {
        seq![(1nat, wvar(w, f1_at() + i))]
    }
}

/// `z1[i] * f2[i] = m2[i]`: the AND of round two.
pub open spec fn round2_row(q: nat, w: nat, i: nat) -> Row {
    (z1_lc(q, w, i), unit_lc(wvar(w, f2_at() + i)), unit_lc(wvar(w, m2_at() + i)))
}

/// The linear combination of bit `i` of `(IV ^ issuer) ^ holder`:
/// `z1[i] + f2[i] - 2 * m2[i]`.
pub open spec fn z2_lc(q: nat, w: nat, i: nat) -> Seq<(nat, Var)> {
    z1_lc(q, w, i) + seq![(1nat, wvar(w, f2_at() + i)), ((q - 2) as nat, wvar(w, m2_at() + i))]
}

/// `z2[i] * f3[i] = m3[i]`: the AND of round three.
pub open spec fn round3_row(q: nat, w: nat, i: nat) -> Row {
    (z2_lc(q, w, i), unit_lc(wvar(w, f3_at() + i)), unit_lc(wvar(w, m3_at() + i)))
}

/// The terms of bit `i` of the hash, `2^i * (z2[i] + f3[i] - 2 * m3[i])`.
pub open spec fn hash_terms(q: nat, w: nat, i: nat) -> Seq<(nat, Var)> {
    let c = pow2(i);
    let c2 = 2 * pow2(i);
    (if iv_bit(i) {
        seq![(c, Var::One), ((q - c) as nat, wvar(w, f1_at() + i))]
    } else {
        seq![(c, wvar(w, f1_at() + i))]
    }) + seq![
        (c, wvar(w, f2_at() + i)),
        ((q - c2) as nat, wvar(w, m2_at() + i)),
        (c, wvar(w, f3_at() + i)),
        ((q - c2) as nat, wvar(w, m3_at() + i)),
    ]
}

/// The packing of the `n` low bits of the hash.
pub open spec fn hash_lc(q: nat, w: nat, n: nat) -> Seq<(nat, Var)>
    decreases n,
{
    if n == 0 {
        Seq::empty()
    } else {
        hash_lc(q, w, (n - 1) as nat) + hash_terms(q, w, (n - 1) as nat)
    }
}

/// `dob_year + MIN_AGE + diff`.
pub open spec fn age_lc(w: nat) -> Seq<(nat, Var)> {
    seq![(1nat, wvar(w, dob_at())), (MIN_AGE as nat, Var::One), (1nat, wvar(w, diff_at()))]
}

/// The constraints of the circuit, in the order it enforces them, for its
/// instance starting at `i0` and its witness starting at `w`.
pub open spec fn credential_rows(q: nat, i0: nat, w: nat) -> Seq<Row> {
    hash_part_rows(q, i0, w) + age_part_rows(q, i0, w)
}

/// The constraints that tie the credential to its hash.
pub open spec fn hash_part_rows(q: nat, i0: nat, w: nat) -> Seq<Row> {
    seq![
        pack_row(witness_vars(w + f1_at(), 32), wvar(w, issuer_at())),
        pack_row(witness_vars(w + f2_at(), 32), wvar(w, holder_at())),
        pack_row(witness_vars(w + f3_at(), 32), wvar(w, dob_at())),
    ]
        + bool_rows(q, witness_vars(w + f1_at(), 32))
        + bool_rows(q, witness_vars(w + f2_at(), 32))
        + bool_rows(q, witness_vars(w + f3_at(), 32))
        + Seq::new(32, |i: int| round2_row(q, w, i as nat))
        + Seq::new(32, |i: int| round3_row(q, w, i as nat))
        + seq![(hash_lc(q, w, 32), unit_lc(Var::One), unit_lc(Var::Instance(i0 as usize)))]
}

/// The constraints of the age condition.
pub open spec fn age_part_rows(q: nat, i0: nat, w: nat) -> Seq<Row> {
    seq![
        (age_lc(w), unit_lc(Var::One), unit_lc(Var::Instance((i0 + 1) as usize))),
        pack_row(witness_vars(w + dbits_at(), 7), wvar(w, diff_at())),
    ]
        + bool_rows(q, witness_vars(w + dbits_at(), 7))
}

/// The value of `z1[i]` that the circuit assigns.
pub open spec fn z1_val(q: nat, x1: nat, i: nat) -> nat {
    if iv_bit(i) {
        (1 + q - bit_val(x1, i)) as nat % q
    } else {
        bit_val(x1, i)
    }
}

/// The value of `m2[i]` that the circuit assigns.
pub open spec fn m2_val(q: nat, x1: nat, x2: nat, i: nat) -> nat {
    (z1_val(q, x1, i) * bit_val(x2, i)) % q
}

/// The value of `z2[i]` that the circuit computes.
pub open spec fn z2_val(q: nat, x1: nat, x2: nat, i: nat) -> nat {
    ((z1_val(q, x1, i) + bit_val(x2, i)) % q + q - (2 * m2_val(q, x1, x2, i)) % q) as nat % q
}

/// The value of `m3[i]` that the circuit assigns.
pub open spec fn m3_val(q: nat, x1: nat, x2: nat, x3: nat, i: nat) -> nat {
    (z2_val(q, x1, x2, i) * bit_val(x3, i)) % q
}

/// The witness that the circuit allocates for the issuer `x1`, the holder
/// `x2`, the year of birth `x3` and the margin `d`.
pub open spec fn credential_witness(q: nat, x1: nat, x2: nat, x3: nat, d: nat) -> Seq<nat> {
    hash_part_witness(q, x1, x2, x3) + age_part_witness(d)
}

/// The witness of the hash part: the fields, their bits, and the ANDs.
pub open spec fn hash_part_witness(q: nat, x1: nat, x2: nat, x3: nat) -> Seq<nat> {
    seq![x1, x2, x3] + bits_of(x1, 32) + bits_of(x2, 32) + bits_of(x3, 32)
        + Seq::new(32, |i: int| m2_val(q, x1, x2, i as nat))
        + Seq::new(32, |i: int| m3_val(q, x1, x2, x3, i as nat))
}

/// The witness of the age part: the margin and its bits.
pub open spec fn age_part_witness(d: nat) -> Seq<nat> {
    seq![d] + bits_of(d, 7)
}

/// The credential circuit with its optional public and private values.
#[derive(Clone, Debug)]
pub struct XorAgeCheckCircuit {
    pub xor_hash: Option<Fe>,
    pub current_year: Option<Fe>,
    pub issuer_id: Option<Fe>,
    pub holder_name: Option<Fe>,
    pub dob_year: Option<Fe>,
    pub diff: Option<Fe>,
}

/// The bits of `IV`, least significant first.
fn iv_bits() -> (r: Vec<bool>)
    ensures
        r@.len() == 32,
        forall|i: int| 0 <= i < 32 ==> #[trigger] r@[i] == iv_bit(i as nat),
{
    let mut r: Vec<bool> = Vec::new();
    let mut i: u32 = 0;
    while i < 32
        invariant
            i <= 32,
            r@.len() == i,
            forall|j: int| 0 <= j < i ==> #[trigger] r@[j] == iv_bit(j as nat),
        decreases 32 - i,
    {
        proof {
            crate::credential_proof::lemma_u32_bit(IV, i as nat);
        }
        r.push((IV >> i) & 1 == 1);
        i = i + 1;
    }
    r
}

/// `z1[i]`: the bit of `IV ^ issuer`, computed in the field.
fn z1_value(x1: &Fe, i: usize, iv: bool) -> (r: Fe)
    requires
        iv == iv_bit(i as nat),
    ensures
        r.value() == z1_val(modulus(), x1.value(), i as nat),
{
    let b = crate::gadgets::bit_of(x1, i);
    if iv {
        Fe::from_u64(1).sub(&b)
    } else {
        b
    }
}

/// Allocates `m2[i] = z1[i] * f2[i]` for the 32 bits.
fn alloc_round2(cs: &mut R1cs, x1: &Fe, x2: &Fe, iv: &Vec<bool>) -> (vars: Vec<Var>)
    requires
        old(cs).wf(),
        iv@.len() == 32,
        forall|i: int| 0 <= i < 32 ==> #[trigger] iv@[i] == iv_bit(i as nat),
    ensures
        final(cs).wf(),
        vars@ == witness_vars(r1cs_witness(*old(cs)).len(), 32),
        r1cs_witness(*final(cs)) == r1cs_witness(*old(cs))
            + Seq::new(32, |i: int| m2_val(modulus(), x1.value(), x2.value(), i as nat)),
        r1cs_instance(*final(cs)) == r1cs_instance(*old(cs)),
        r1cs_constraints(*final(cs)) == r1cs_constraints(*old(cs)),
{
    let ghost w0 = r1cs_witness(*cs);
    let ghost n_inst = r1cs_instance(*cs).len();
    let mut vars: Vec<Var> = Vec::new();
    let mut i: usize = 0;
    while i < 32
        invariant
            i <= 32,
            cs.wf(),
            iv@.len() == 32,
            forall|j: int| 0 <= j < 32 ==> #[trigger] iv@[j] == iv_bit(j as nat),
            vars@ == witness_vars(w0.len(), i as nat),
            r1cs_witness(*cs) == w0 + Seq::new(i as nat, |j: int| m2_val(modulus(), x1.value(), x2.value(), j as nat)),
            r1cs_instance(*cs) == r1cs_instance(*old(cs)),
            r1cs_constraints(*cs) == r1cs_constraints(*old(cs)),
            n_inst == r1cs_instance(*cs).len(),
        decreases 32 - i,
    {
        let z1 = z1_value(x1, i, iv[i]);
        let m = z1.mul(&crate::gadgets::bit_of(x2, i));
        let ghost before = *cs;
        let v = match cs.new_witness(Some(m)) {
            Ok(v) => v,
            Err(_) => unreached(),
        };
        proof {
            lemma_rows_in_range_grow(r1cs_constraints(*cs), n_inst, r1cs_witness(before).len(),
                n_inst, r1cs_witness(*cs).len());
            assert(r1cs_witness(*cs) =~= w0 + Seq::new((i + 1) as nat, |j: int| m2_val(modulus(), x1.value(), x2.value(), j as nat)));
        }
        vars.push(v);
        i = i + 1;
        proof {
            assert(vars@ =~= witness_vars(w0.len(), i as nat));
        }
    }
    vars
}

/// Allocates `m3[i] = z2[i] * f3[i]` for the 32 bits.
fn alloc_round3(cs: &mut R1cs, x1: &Fe, x2: &Fe, x3: &Fe, iv: &Vec<bool>) -> (vars: Vec<Var>)
    requires
        old(cs).wf(),
        iv@.len() == 32,
        forall|i: int| 0 <= i < 32 ==> #[trigger] iv@[i] == iv_bit(i as nat),
    ensures
        final(cs).wf(),
        vars@ == witness_vars(r1cs_witness(*old(cs)).len(), 32),
        r1cs_witness(*final(cs)) == r1cs_witness(*old(cs))
            + Seq::new(32, |i: int| m3_val(modulus(), x1.value(), x2.value(), x3.value(), i as nat)),
        r1cs_instance(*final(cs)) == r1cs_instance(*old(cs)),
        r1cs_constraints(*final(cs)) == r1cs_constraints(*old(cs)),
{
    let ghost w0 = r1cs_witness(*cs);
    let ghost n_inst = r1cs_instance(*cs).len();
    let mut vars: Vec<Var> = Vec::new();
    let mut i: usize = 0;
    while i < 32
        invariant
            i <= 32,
            cs.wf(),
            iv@.len() == 32,
            forall|j: int| 0 <= j < 32 ==> #[trigger] iv@[j] == iv_bit(j as nat),
            vars@ == witness_vars(w0.len(), i as nat),
            r1cs_witness(*cs) == w0 + Seq::new(i as nat, |j: int| m3_val(modulus(), x1.value(), x2.value(), x3.value(), j as nat)),
            r1cs_instance(*cs) == r1cs_instance(*old(cs)),
            r1cs_constraints(*cs) == r1cs_constraints(*old(cs)),
            n_inst == r1cs_instance(*cs).len(),
        decreases 32 - i,
    {
        let z1 = z1_value(x1, i, iv[i]);
        let b2 = crate::gadgets::bit_of(x2, i);
        let m2 = z1.mul(&b2);
        let z2 = z1.add(&b2).sub(&Fe::from_u64(2).mul(&m2));
        let m = z2.mul(&crate::gadgets::bit_of(x3, i));
        let ghost before = *cs;
        let v = match cs.new_witness(Some(m)) {
            Ok(v) => v,
            Err(_) => unreached(),
        };
        proof {
            assert(z2.value() == z2_val(modulus(), x1.value(), x2.value(), i as nat));
            lemma_rows_in_range_grow(r1cs_constraints(*cs), n_inst, r1cs_witness(before).len(),
                n_inst, r1cs_witness(*cs).len());
            assert(r1cs_witness(*cs) =~= w0 + Seq::new((i + 1) as nat, |j: int| m3_val(modulus(), x1.value(), x2.value(), x3.value(), j as nat)));
        }
        vars.push(v);
        i = i + 1;
        proof {
            assert(vars@ =~= witness_vars(w0.len(), i as nat));
        }
    }
    vars
}

/// Enforces `z1[i] * f2[i] = m2[i]` for the 32 bits.
fn enforce_round2(cs: &mut R1cs, f1: &Vec<Var>, f2: &Vec<Var>, m2: &Vec<Var>, iv: &Vec<bool>, Ghost(w): Ghost<nat>)
    requires
        old(cs).wf(),
        iv@.len() == 32,
        forall|i: int| 0 <= i < 32 ==> #[trigger] iv@[i] == iv_bit(i as nat),
        f1@ == witness_vars(w + f1_at(), 32),
        f2@ == witness_vars(w + f2_at(), 32),
        m2@ == witness_vars(w + m2_at(), 32),
        w + m2_at() + 32 <= r1cs_witness(*old(cs)).len(),
        r1cs_witness(*old(cs)).len() <= usize::MAX,
    ensures
        final(cs).wf(),
        r1cs_constraints(*final(cs)) == r1cs_constraints(*old(cs))
            + Seq::new(32, |i: int| round2_row(modulus(), w, i as nat)),
        r1cs_instance(*final(cs)) == r1cs_instance(*old(cs)),
        r1cs_witness(*final(cs)) == r1cs_witness(*old(cs)),
{
    let ghost rows0 = r1cs_constraints(*cs);
    let ghost n_inst = r1cs_instance(*cs).len();
    let ghost n_wit = r1cs_witness(*cs).len();
    let mut i: usize = 0;
    while i < 32
        invariant
            i <= 32,
            cs.wf(),
            iv@.len() == 32,
            forall|j: int| 0 <= j < 32 ==> #[trigger] iv@[j] == iv_bit(j as nat),
            f1@ == witness_vars(w + f1_at(), 32),
            f2@ == witness_vars(w + f2_at(), 32),
            m2@ == witness_vars(w + m2_at(), 32),
            w + m2_at() + 32 <= n_wit,
            n_wit <= usize::MAX,
            r1cs_instance(*cs) == r1cs_instance(*old(cs)),
            r1cs_witness(*cs) == r1cs_witness(*old(cs)),
            r1cs_instance(*cs).len() == n_inst,
            r1cs_witness(*cs).len() == n_wit,
            r1cs_constraints(*cs) == rows0 + Seq::new(i as nat, |j: int| round2_row(modulus(), w, j as nat)),
        decreases 32 - i,
    {
        let one = Fe::from_u64(1);
        let mut la = Lc::new();
        if iv[i] {
            la.add_term(one, Var::One);
            let minus_one = one.neg();
            proof {
                lemma_small_mod((modulus() - 1) as nat, modulus());
            }
            la.add_term(minus_one, f1[i]);
        } else {
            la.add_term(one, f1[i]);
        }
        let mut lb = Lc::new();
        lb.add_term(one, f2[i]);
        let mut lc = Lc::new();
        lc.add_term(one, m2[i]);
        proof {
            assert(la@ =~= z1_lc(modulus(), w, i as nat));
            assert(lc_in_range(la@, n_inst, n_wit));
            assert(lc_in_range(lb@, n_inst, n_wit));
            assert(lc_in_range(lc@, n_inst, n_wit));
            assert((la@, lb@, lc@) == round2_row(modulus(), w, i as nat));
        }
        crate::gadgets::enforce_in_range(cs, la, lb, lc);
        i = i + 1;
        proof {
            assert(r1cs_constraints(*cs) =~= rows0 + Seq::new(i as nat, |j: int| round2_row(modulus(), w, j as nat)));
        }
    }
}

/// Enforces `z2[i] * f3[i] = m3[i]` for the 32 bits.
fn enforce_round3(
    cs: &mut R1cs,
    f1: &Vec<Var>,
    f2: &Vec<Var>,
    f3: &Vec<Var>,
    m2: &Vec<Var>,
    m3: &Vec<Var>,
    iv: &Vec<bool>,
    Ghost(w): Ghost<nat>,
)
    requires
        old(cs).wf(),
        iv@.len() == 32,
        forall|i: int| 0 <= i < 32 ==> #[trigger] iv@[i] == iv_bit(i as nat),
        f1@ == witness_vars(w + f1_at(), 32),
        f2@ == witness_vars(w + f2_at(), 32),
        f3@ == witness_vars(w + f3_at(), 32),
        m2@ == witness_vars(w + m2_at(), 32),
        m3@ == witness_vars(w + m3_at(), 32),
        w + m3_at() + 32 <= r1cs_witness(*old(cs)).len(),
        r1cs_witness(*old(cs)).len() <= usize::MAX,
    ensures
        final(cs).wf(),
        r1cs_constraints(*final(cs)) == r1cs_constraints(*old(cs))
            + Seq::new(32, |i: int| round3_row(modulus(), w, i as nat)),
        r1cs_instance(*final(cs)) == r1cs_instance(*old(cs)),
        r1cs_witness(*final(cs)) == r1cs_witness(*old(cs)),
{
    let ghost rows0 = r1cs_constraints(*cs);
    let ghost n_inst = r1cs_instance(*cs).len();
    let ghost n_wit = r1cs_witness(*cs).len();
    let mut i: usize = 0;
    while i < 32
        invariant
            i <= 32,
            cs.wf(),
            iv@.len() == 32,
            forall|j: int| 0 <= j < 32 ==> #[trigger] iv@[j] == iv_bit(j as nat),
            f1@ == witness_vars(w + f1_at(), 32),
            f2@ == witness_vars(w + f2_at(), 32),
            f3@ == witness_vars(w + f3_at(), 32),
            m2@ == witness_vars(w + m2_at(), 32),
            m3@ == witness_vars(w + m3_at(), 32),
            w + m3_at() + 32 <= n_wit,
            n_wit <= usize::MAX,
            r1cs_instance(*cs) == r1cs_instance(*old(cs)),
            r1cs_witness(*cs) == r1cs_witness(*old(cs)),
            r1cs_instance(*cs).len() == n_inst,
            r1cs_witness(*cs).len() == n_wit,
            r1cs_constraints(*cs) == rows0 + Seq::new(i as nat, |j: int| round3_row(modulus(), w, j as nat)),
        decreases 32 - i,
    {
        let one = Fe::from_u64(1);
        let minus_two = Fe::from_u64(2).neg();
        proof {
            lemma_small_mod((modulus() - 1) as nat, modulus());
            lemma_small_mod((modulus() - 2) as nat, modulus());
        }
        let mut la = Lc::new();
        if iv[i] {
            la.add_term(one, Var::One);
            la.add_term(one.neg(), f1[i]);
        } else {
            la.add_term(one, f1[i]);
        }
        let ghost z1 = la@;
        la.add_term(one, f2[i]);
        la.add_term(minus_two, m2[i]);
        let mut lb = Lc::new();
        lb.add_term(one, f3[i]);
        let mut lc = Lc::new();
        lc.add_term(one, m3[i]);
        proof {
            assert(z1 =~= z1_lc(modulus(), w, i as nat));
            assert(la@ =~= z2_lc(modulus(), w, i as nat));
            assert(lc_in_range(la@, n_inst, n_wit));
            assert(lc_in_range(lb@, n_inst, n_wit));
            assert(lc_in_range(lc@, n_inst, n_wit));
            assert((la@, lb@, lc@) == round3_row(modulus(), w, i as nat));
        }
        crate::gadgets::enforce_in_range(cs, la, lb, lc);
        i = i + 1;
        proof {
            assert(r1cs_constraints(*cs) =~= rows0 + Seq::new(i as nat, |j: int| round3_row(modulus(), w, j as nat)));
        }
    }
}

/// Enforces `(sum 2^i * (z2[i] + f3[i] - 2 * m3[i])) * 1 = hash`.
fn enforce_hash(
    cs: &mut R1cs,
    f1: &Vec<Var>,
    f2: &Vec<Var>,
    f3: &Vec<Var>,
    m2: &Vec<Var>,
    m3: &Vec<Var>,
    iv: &Vec<bool>,
    hash: Var,
    Ghost(w): Ghost<nat>,
)
    requires
        old(cs).wf(),
        iv@.len() == 32,
        forall|i: int| 0 <= i < 32 ==> #[trigger] iv@[i] == iv_bit(i as nat),
        f1@ == witness_vars(w + f1_at(), 32),
        f2@ == witness_vars(w + f2_at(), 32),
        f3@ == witness_vars(w + f3_at(), 32),
        m2@ == witness_vars(w + m2_at(), 32),
        m3@ == witness_vars(w + m3_at(), 32),
        w + m3_at() + 32 <= r1cs_witness(*old(cs)).len(),
        r1cs_witness(*old(cs)).len() <= usize::MAX,
        var_in_range(hash, r1cs_instance(*old(cs)).len(), r1cs_witness(*old(cs)).len()),
    ensures
        final(cs).wf(),
        r1cs_constraints(*final(cs)) == r1cs_constraints(*old(cs))
            .push((hash_lc(modulus(), w, 32), unit_lc(Var::One), unit_lc(hash))),
        r1cs_instance(*final(cs)) == r1cs_instance(*old(cs)),
        r1cs_witness(*final(cs)) == r1cs_witness(*old(cs)),
{
    let ghost n_inst = r1cs_instance(*cs).len();
    let ghost n_wit = r1cs_witness(*cs).len();
    let mut lh = Lc::new();
    let mut i: usize = 0;
    while i < 32
        invariant
            i <= 32,
            iv@.len() == 32,
            forall|j: int| 0 <= j < 32 ==> #[trigger] iv@[j] == iv_bit(j as nat),
            f1@ == witness_vars(w + f1_at(), 32),
            f2@ == witness_vars(w + f2_at(), 32),
            f3@ == witness_vars(w + f3_at(), 32),
            m2@ == witness_vars(w + m2_at(), 32),
            m3@ == witness_vars(w + m3_at(), 32),
            w + m3_at() + 32 <= n_wit,
            n_wit <= usize::MAX,
            lh@ == hash_lc(modulus(), w, i as nat),
            lc_in_range(lh@, n_inst, n_wit),
        decreases 32 - i,
    {
        let c = crate::gadgets::pow2_fe(i);
        let c2 = Fe::from_u64(2).mul(&c);
        proof {
            lemma2_to64();
            lemma_pow2_strictly_increases(i as nat, 32);
            lemma_pow2_pos(i as nat);
            lemma_small_mod(2 * pow2(i as nat), modulus());
            lemma_small_mod((modulus() - pow2(i as nat)) as nat, modulus());
            lemma_small_mod((modulus() - 2 * pow2(i as nat)) as nat, modulus());
        }
        let minus_c = c.neg();
        let minus_c2 = c2.neg();
        let ghost before = lh@;
        if iv[i] {
            lh.add_term(c, Var::One);
            lh.add_term(minus_c, f1[i]);
        } else {
            lh.add_term(c, f1[i]);
        }
        lh.add_term(c, f2[i]);
        lh.add_term(minus_c2, m2[i]);
        lh.add_term(c, f3[i]);
        lh.add_term(minus_c2, m3[i]);
        proof {
            assert(lh@ =~= before + hash_terms(modulus(), w, i as nat));
            assert(hash_lc(modulus(), w, (i + 1) as nat) == hash_lc(modulus(), w, i as nat) + hash_terms(modulus(), w, i as nat));
            assert forall|k: int| 0 <= k < lh@.len() implies var_in_range(#[trigger] lh@[k].1, n_inst, n_wit) by {
                if k < before.len() {
                    assert(lh@[k] == before[k]);
                }
            }
        }
        i = i + 1;
    }
    let one = Fe::from_u64(1);
    let mut lb = Lc::new();
    lb.add_term(one, Var::One);
    let mut lc = Lc::new();
    lc.add_term(one, hash);
    proof {
        assert(lc_in_range(lb@, n_inst, n_wit));
        assert(lc_in_range(lc@, n_inst, n_wit));
    }
    crate::gadgets::enforce_in_range(cs, lh, lb, lc);
}

impl XorAgeCheckCircuit {
    /// Allocates the public hash and current year, the three private
    /// fields, their 32 bits each, the ANDs of rounds two and three, the
    /// private margin and its seven bits, and enforces: each field packs its
    /// bits; every bit is a bit; the ANDs of rounds two and three; the hash
    /// bits pack to the public hash; `dob_year + MIN_AGE + diff = current_year`;
    /// the margin packs its bits. A missing value ends the synthesis with
    /// `AssignmentMissing`; the variable that could not be assigned stays
    /// allocated, as does what was allocated and enforced before it.
    pub fn generate_constraints(self, cs: &mut R1cs) -> (r: Result<(), SynthesisError>)
        requires
            old(cs).wf(),
            r1cs_instance(*old(cs)).len() + 2 <= usize::MAX,
            r1cs_witness(*old(cs)).len() + credential_witness_len() <= usize::MAX,
        ensures
            final(cs).valid(),
            r is Ok ==> final(cs).wf(),
            r is Ok <==> (self.xor_hash is Some && self.current_year is Some && self.issuer_id is Some
                && self.holder_name is Some && self.dob_year is Some && self.diff is Some),
            r is Err ==> r == Err::<(), SynthesisError>(SynthesisError::AssignmentMissing),
            r is Ok ==> {
                &&& r1cs_instance(*final(cs)) == r1cs_instance(*old(cs))
                    + seq![self.xor_hash->0.value(), self.current_year->0.value()]
                &&& r1cs_witness(*final(cs)) == r1cs_witness(*old(cs)) + credential_witness(modulus(),
                    self.issuer_id->0.value(), self.holder_name->0.value(), self.dob_year->0.value(),
                    self.diff->0.value())
                &&& r1cs_constraints(*final(cs)) == r1cs_constraints(*old(cs)) + credential_rows(modulus(),
                    r1cs_instance(*old(cs)).len(), r1cs_witness(*old(cs)).len())
            },
            self.xor_hash is None ==> {
                &&& r1cs_instance(*final(cs)) == r1cs_instance(*old(cs))
                &&& r1cs_witness(*final(cs)) == r1cs_witness(*old(cs))
                &&& r1cs_constraints(*final(cs)) == r1cs_constraints(*old(cs))
                &&& r1cs_num_instance(*final(cs)) == r1cs_instance(*old(cs)).len() + 1
                &&& r1cs_num_witness(*final(cs)) == r1cs_witness(*old(cs)).len()
            },
            self.xor_hash is Some && self.current_year is None ==> {
                &&& r1cs_instance(*final(cs)) == r1cs_instance(*old(cs)).push(self.xor_hash->0.value())
                &&& r1cs_witness(*final(cs)) == r1cs_witness(*old(cs))
                &&& r1cs_constraints(*final(cs)) == r1cs_constraints(*old(cs))
                &&& r1cs_num_instance(*final(cs)) == r1cs_instance(*old(cs)).len() + 2
                &&& r1cs_num_witness(*final(cs)) == r1cs_witness(*old(cs)).len()
            },
            self.xor_hash is Some && self.current_year is Some && r is Err ==> {
                &&& r1cs_instance(*final(cs))
                    == r1cs_instance(*old(cs)) + seq![self.xor_hash->0.value(), self.current_year->0.value()]
                &&& r1cs_num_instance(*final(cs)) == r1cs_instance(*old(cs)).len() + 2
            },
            self.xor_hash is Some && self.current_year is Some && self.issuer_id is None ==> {
                &&& r1cs_witness(*final(cs)) == r1cs_witness(*old(cs))
                &&& r1cs_constraints(*final(cs)) == r1cs_constraints(*old(cs))
                &&& r1cs_num_witness(*final(cs)) == r1cs_witness(*old(cs)).len() + 1
            },
            self.xor_hash is Some && self.current_year is Some && self.issuer_id is Some
                && self.holder_name is None ==> {
                &&& r1cs_witness(*final(cs)) == r1cs_witness(*old(cs)).push(self.issuer_id->0.value())
                &&& r1cs_constraints(*final(cs)) == r1cs_constraints(*old(cs))
                &&& r1cs_num_witness(*final(cs)) == r1cs_witness(*old(cs)).len() + 2
            },
            self.xor_hash is Some && self.current_year is Some && self.issuer_id is Some
                && self.holder_name is Some && self.dob_year is None ==> {
                &&& r1cs_witness(*final(cs)) == r1cs_witness(*old(cs))
                    + seq![self.issuer_id->0.value(), self.holder_name->0.value()]
                &&& r1cs_constraints(*final(cs)) == r1cs_constraints(*old(cs))
                &&& r1cs_num_witness(*final(cs)) == r1cs_witness(*old(cs)).len() + 3
            },
            self.xor_hash is Some && self.current_year is Some && self.issuer_id is Some
                && self.holder_name is Some && self.dob_year is Some && self.diff is None ==> {
                &&& r1cs_witness(*final(cs)) == r1cs_witness(*old(cs)) + hash_part_witness(modulus(),
                    self.issuer_id->0.value(), self.holder_name->0.value(), self.dob_year->0.value())
                &&& r1cs_constraints(*final(cs)) == r1cs_constraints(*old(cs)) + hash_part_rows(modulus(),
                    r1cs_instance(*old(cs)).len(), r1cs_witness(*old(cs)).len())
                &&& r1cs_num_witness(*final(cs)) == r1cs_witness(*old(cs)).len() + diff_at() + 1
            },
    {
        let ghost inst0 = r1cs_instance(*cs);
        let ghost wit0 = r1cs_witness(*cs);
        let ghost rows0 = r1cs_constraints(*cs);
        let ghost i0 = inst0.len();
        let ghost w = wit0.len();
        let diff_val = match self.diff {
            Some(v) => v,
            None => Fe::from_u64(0),
        };
        let hash_var = match cs.new_input(self.xor_hash) {
            Ok(v) => v,
            Err(_) => return Err(SynthesisError::AssignmentMissing),
        };
        let h = self.xor_hash.unwrap();
        proof {
            lemma_rows_in_range_grow(rows0, i0, w, i0 + 1, w);
        }
        let year_var = match cs.new_input(self.current_year) {
            Ok(v) => v,
            Err(_) => return Err(SynthesisError::AssignmentMissing),
        };
        let y = self.current_year.unwrap();
        proof {
            lemma_rows_in_range_grow(rows0, i0, w, i0 + 2, w);
            assert(r1cs_instance(*cs) =~= inst0 + seq![h.value(), y.value()]);
        }
        let issuer_var = match cs.new_witness(self.issuer_id) {
            Ok(v) => v,
            Err(_) => return Err(SynthesisError::AssignmentMissing),
        };
        let x1 = self.issuer_id.unwrap();
        proof {
            lemma_rows_in_range_grow(rows0, i0, w, i0 + 2, w + 1);
        }
        let holder_var = match cs.new_witness(self.holder_name) {
            Ok(v) => v,
            Err(_) => return Err(SynthesisError::AssignmentMissing),
        };
        let x2 = self.holder_name.unwrap();
        proof {
            lemma_rows_in_range_grow(rows0, i0, w, i0 + 2, w + 2);
            assert(r1cs_witness(*cs) =~= wit0 + seq![x1.value(), x2.value()]);
        }
        let dob_var = match cs.new_witness(self.dob_year) {
            Ok(v) => v,
            Err(_) => return Err(SynthesisError::AssignmentMissing),
        };
        let x3 = self.dob_year.unwrap();
        proof {
            lemma_rows_in_range_grow(rows0, i0, w, i0 + 2, w + 3);
        }
        let f1 = alloc_bits(cs, &x1, 32);
        let f2 = alloc_bits(cs, &x2, 32);
        let f3 = alloc_bits(cs, &x3, 32);
        proof {
            assert(crate::gadgets::vars_in_range(f1@, i0 + 2, w + f3_at() + 32));
            assert(crate::gadgets::vars_in_range(f2@, i0 + 2, w + f3_at() + 32));
            assert(crate::gadgets::vars_in_range(f3@, i0 + 2, w + f3_at() + 32));
        }
        enforce_pack(cs, &f1, issuer_var);
        enforce_pack(cs, &f2, holder_var);
        enforce_pack(cs, &f3, dob_var);
        enforce_booleans(cs, &f1);
        enforce_booleans(cs, &f2);
        enforce_booleans(cs, &f3);
        let iv = iv_bits();
        let m2 = alloc_round2(cs, &x1, &x2, &iv);
        enforce_round2(cs, &f1, &f2, &m2, &iv, Ghost(w));
        let m3 = alloc_round3(cs, &x1, &x2, &x3, &iv);
        enforce_round3(cs, &f1, &f2, &f3, &m2, &m3, &iv, Ghost(w));
        enforce_hash(cs, &f1, &f2, &f3, &m2, &m3, &iv, hash_var, Ghost(w));
        proof {
            assert(r1cs_witness(*cs) =~= wit0 + hash_part_witness(modulus(), x1.value(), x2.value(), x3.value()));
            assert(r1cs_constraints(*cs) =~= rows0 + hash_part_rows(modulus(), i0, w));
        }
        let diff_var = match cs.new_witness(self.diff) {
            Ok(v) => v,
            Err(_) => return Err(SynthesisError::AssignmentMissing),
        };
        let d = self.diff.unwrap();
        proof {
            lemma_rows_in_range_grow(r1cs_constraints(*cs), i0 + 2, w + diff_at(), i0 + 2, w + diff_at() + 1);
        }
        let dbits = alloc_bits(cs, &diff_val, 7);
        let one = Fe::from_u64(1);
        let mut la = Lc::new();
        la.add_term(one, dob_var);
        la.add_term(Fe::from_u64(MIN_AGE), Var::One);
        la.add_term(one, diff_var);
        let mut lb = Lc::new();
        lb.add_term(one, Var::One);
        let mut lc = Lc::new();
        lc.add_term(one, year_var);
        proof {
            let n_wit = w + credential_witness_len();
            assert(la@ =~= age_lc(w));
            assert(lc_in_range(la@, i0 + 2, n_wit));
            assert(lc_in_range(lb@, i0 + 2, n_wit));
            assert(lc_in_range(lc@, i0 + 2, n_wit));
            assert(crate::gadgets::vars_in_range(dbits@, i0 + 2, n_wit));
        }
        crate::gadgets::enforce_in_range(cs, la, lb, lc);
        enforce_pack(cs, &dbits, diff_var);
        enforce_booleans(cs, &dbits);
        proof {
            assert(r1cs_witness(*cs) =~= wit0 + credential_witness(modulus(), x1.value(), x2.value(),
                x3.value(), d.value()));
            assert(r1cs_constraints(*cs) =~= rows0 + credential_rows(modulus(), i0, w));
        }
        Ok(())
    }
}

/// A 32-bit code for a holder's name: its first four bytes, little-endian
/// (`u32::from_le_bytes` of `name[..4]`).
pub fn name_code(name: &[u8]) -> (r: u32)
    requires
        name.len() >= 4,
    ensures
        r == name[0] as nat + 0x100 * name[1] as nat + 0x1_0000 * name[2] as nat + 0x100_0000 * name[3] as nat,
{
    name[0] as u32 + 0x100 * name[1] as u32 + 0x1_0000 * name[2] as u32 + 0x100_0000 * name[3] as u32
}

/// The holder's age in the current year, and how far it is above
/// `MIN_AGE`, both with 64-bit wrap-around: when the holder is younger the
/// margin wraps to a huge number, which no seven-bit witness can match.
pub fn age_margin(current_year: u64, dob_year: u32) -> (r: (u64, u64))
    ensures
        r.0 as int == (current_year as int - dob_year as int) % 0x1_0000_0000_0000_0000,
        r.1 as int == (current_year as int - dob_year as int - MIN_AGE as int) % 0x1_0000_0000_0000_0000,
{
    let age = current_year.wrapping_sub(dob_year as u64);
    let diff = age.wrapping_sub(MIN_AGE);
    proof {
        let m = 0x1_0000_0000_0000_0000int;
        let a = current_year as int - dob_year as int;
        lemma_small_mod(age as nat, m as nat);
        lemma_add_mod_noop(a, -(MIN_AGE as int), m);
    }
    (age, diff)
}

/// Synthesises the credential circuit into a fresh system, with no
/// optimisation, and finalises it. The system that comes out has the hash
/// and the current year as its public inputs, the witness of
/// `credential_witness`, and 173 constraints, which any assignment satisfies
/// exactly when it satisfies the circuit's constraints; its own assignment
/// does when the hash is the simple XOR hash of the fields and
/// `current_year = dob_year + MIN_AGE + diff` with `diff` below 128.
pub fn synthesize_credential(
    xor_hash: u32,
    current_year: u64,
    issuer_id: u32,
    holder_name: u32,
    dob_year: u32,
    diff: u64,
) -> (cs: R1cs)
    ensures
        cs.wf(),
        r1cs_instance(cs) == seq![1nat, xor_hash as nat, current_year as nat],
        r1cs_witness(cs) == credential_witness(modulus(), issuer_id as nat, holder_name as nat,
            dob_year as nat, diff as nat),
        r1cs_constraints(cs).len() == 173,
        forall|inst: Seq<nat>, wit: Seq<nat>|
            #[trigger] rows_hold(modulus(), r1cs_constraints(cs), inst, wit)
                == rows_hold(modulus(), credential_rows(modulus(), 1, 0), inst, wit),
        rows_compact(modulus(), r1cs_constraints(cs), credential_rows(modulus(), 1, 0)),
        xor_hash == spec_xor_hash(issuer_id, holder_name, dob_year)
            && current_year == dob_year + MIN_AGE + diff && diff < 128
            ==> rows_hold(modulus(), r1cs_constraints(cs), r1cs_instance(cs), r1cs_witness(cs)),
        is_prime(modulus()) ==> (rows_hold(modulus(), r1cs_constraints(cs), r1cs_instance(cs), r1cs_witness(cs))
            <==> (xor_hash == spec_xor_hash(issuer_id, holder_name, dob_year)
                && current_year == dob_year + MIN_AGE + diff && diff < 128)),
{
    let mut cs = R1cs::new_unoptimized();
    let circuit = XorAgeCheckCircuit {
        xor_hash: Some(Fe::from_u64(xor_hash as u64)),
        current_year: Some(Fe::from_u64(current_year)),
        issuer_id: Some(Fe::from_u64(issuer_id as u64)),
        holder_name: Some(Fe::from_u64(holder_name as u64)),
        dob_year: Some(Fe::from_u64(dob_year as u64)),
        diff: Some(Fe::from_u64(diff)),
    };
    let _ = circuit.generate_constraints(&mut cs);
    let ghost before = r1cs_constraints(cs);
    let ghost inst = r1cs_instance(cs);
    let ghost wit = r1cs_witness(cs);
    proof {
        assert(before =~= credential_rows(modulus(), 1, 0));
        assert(inst =~= seq![1nat, xor_hash as nat, current_year as nat]);
        assert(wit =~= Seq::<nat>::empty() + credential_witness(modulus(), issuer_id as nat,
            holder_name as nat, dob_year as nat, diff as nat));
        if xor_hash == spec_xor_hash(issuer_id, holder_name, dob_year)
            && current_year == dob_year + MIN_AGE + diff && diff < 128 {
            crate::credential_proof::lemma_credential_complete(modulus(), seq![1nat], Seq::<nat>::empty(),
                issuer_id, holder_name, dob_year, diff as nat, current_year as nat);
            assert(seq![1nat] + seq![xor_hash as nat, current_year as nat] =~= inst);
        }
    }
    cs.finalize();
    proof {
        assert forall|inst2: Seq<nat>, wit2: Seq<nat>|
            #[trigger] rows_hold(modulus(), r1cs_constraints(cs), inst2, wit2)
                == rows_hold(modulus(), before, inst2, wit2) by {
            lemma_rows_hold_same_evals(modulus(), r1cs_constraints(cs), before, inst2, wit2);
        }
        if is_prime(modulus()) && rows_hold(modulus(), before, inst, wit) {
            lemma_credential_witness_canonical(modulus(), issuer_id as nat, holder_name as nat,
                dob_year as nat, diff as nat);
            crate::credential_proof::lemma_credential_sound(modulus(), 1, 0, inst, wit);
        }
    }
    cs
}

/// The witness that the circuit allocates for 32-bit fields and a 64-bit
/// margin is made of field elements.
proof fn lemma_credential_witness_canonical(q: nat, x1: nat, x2: nat, x3: nat, d: nat)
    requires
        q > 0x1_0000_0000_0000_0000,
        x1 < 0x1_0000_0000,
        x2 < 0x1_0000_0000,
        x3 < 0x1_0000_0000,
        d < 0x1_0000_0000_0000_0000,
    ensures
        forall|i: int| 0 <= i < credential_witness(q, x1, x2, x3, d).len()
            ==> #[trigger] credential_witness(q, x1, x2, x3, d)[i] < q,
{
    let wit = credential_witness(q, x1, x2, x3, d);
    assert forall|i: int| 0 <= i < wit.len() implies #[trigger] wit[i] < q by {
        if (3 <= i < 99) || 164 <= i {
            let x = if i < 35 { x1 } else if i < 67 { x2 } else if i < 99 { x3 } else { d };
            let k = if i < 35 { i - 3 } else if i < 67 { i - 35 } else if i < 99 { i - 67 } else { i - 164 };
            lemma_pow2_pos(k as nat);
            lemma_mod_bound((x / pow2(k as nat)) as int, 2);
        }
    }
}

} // verus!
