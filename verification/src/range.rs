//! The range circuit: private `in` and `d` with `in = d + 10`, where both
//! are four-bit numbers, which shows `10 <= in <= 15` without revealing `in`.

use vstd::prelude::*;
use vstd::arithmetic::div_mod::{lemma_small_mod, lemma_mod_bound};
use vstd::arithmetic::power2::{pow2, lemma2_to64, lemma_pow2_pos};
use crate::field::{Fe, modulus};
use crate::arith::{is_prime, lemma_lc_sum_append, lemma_lc_sum_single};
use crate::r1cs::{
    rows_compact,
    Lc, R1cs, Row, SynthesisError, Var, lc_eval, lc_in_range, r1cs_constraints, r1cs_instance,
    r1cs_witness, row_holds, rows_hold, unit_lc, var_value, lemma_rows_in_range_grow,
    lemma_rows_hold_same_evals, r1cs_num_instance, r1cs_num_witness,
};
use crate::gadgets::{
    alloc_bits, bits_of, bool_rows, enforce_booleans, enforce_pack, is_bits, pack_row,
    values_of, weighted_sum, witness_vars, lemma_bits_of_small, lemma_bool_rows, lemma_pack_row,
    lemma_rows_hold_append, lemma_rows_hold_single, lemma_unit_lc_eval, lemma_values_of_witness_vars,
};

verus! {

broadcast use Fe::lemma_value_canonical;

/// The least value that the circuit accepts.
pub const THRESHOLD: u64 = 10;

/// The range circuit with its optional private values.
#[derive(Clone, Debug)]
pub struct GreaterThanTenCircuit {
    pub in_: Option<Fe>,
    pub d: Option<Fe>,
}

/// The linear combination `d + 10`.
pub open spec fn offset_lc(d: Var) -> Seq<(nat, Var)> {
    seq![(1nat, d), (10nat, Var::One)]
}

/// The constraints of the circuit, for `in` at witness index `w` and `d` at
/// `w + 1`, with the bits of `d` at `w + 2 .. w + 6` and those of `in` at
/// `w + 6 .. w + 10`.
pub open spec fn range_rows(q: nat, w: nat) -> Seq<Row> {
    let in_var = Var::Witness(w as usize);
    let d_var = Var::Witness((w + 1) as usize);
    seq![(offset_lc(d_var), unit_lc(Var::One), unit_lc(in_var)), pack_row(witness_vars(w + 2, 4), d_var)]
        + bool_rows(q, witness_vars(w + 2, 4))
        + seq![pack_row(witness_vars(w + 6, 4), in_var)]
        + bool_rows(q, witness_vars(w + 6, 4))
}

/// The witness that the circuit allocates for `in` and `d`.
pub open spec fn range_witness(in_: nat, d: nat) -> Seq<nat> {
    seq![in_, d] + bits_of(d, 4) + bits_of(in_, 4)
}

/// The circuit enforces 11 constraints over 10 witness variables.
pub proof fn lemma_range_counts(q: nat, w: nat, in_: nat, d: nat)
    ensures
        range_rows(q, w).len() == 11,
        range_witness(in_, d).len() == 10,
{
}

/// Splits satisfaction of the circuit's constraints into its parts.
proof fn lemma_range_rows_parts(q: nat, w: nat, inst: Seq<nat>, wit: Seq<nat>)
    ensures
        rows_hold(q, range_rows(q, w), inst, wit) <==> {
            let in_var = Var::Witness(w as usize);
            let d_var = Var::Witness((w + 1) as usize);
            &&& row_holds(q, (offset_lc(d_var), unit_lc(Var::One), unit_lc(in_var)), inst, wit)
            &&& row_holds(q, pack_row(witness_vars(w + 2, 4), d_var), inst, wit)
            &&& rows_hold(q, bool_rows(q, witness_vars(w + 2, 4)), inst, wit)
            &&& row_holds(q, pack_row(witness_vars(w + 6, 4), in_var), inst, wit)
            &&& rows_hold(q, bool_rows(q, witness_vars(w + 6, 4)), inst, wit)
        },
{
    let in_var = Var::Witness(w as usize);
    let d_var = Var::Witness((w + 1) as usize);
    let r0 = (offset_lc(d_var), unit_lc(Var::One), unit_lc(in_var));
    let r1 = pack_row(witness_vars(w + 2, 4), d_var);
    let b1 = bool_rows(q, witness_vars(w + 2, 4));
    let r6 = pack_row(witness_vars(w + 6, 4), in_var);
    let b2 = bool_rows(q, witness_vars(w + 6, 4));
    lemma_rows_hold_append(q, seq![r0, r1] + b1 + seq![r6], b2, inst, wit);
    lemma_rows_hold_append(q, seq![r0, r1] + b1, seq![r6], inst, wit);
    lemma_rows_hold_append(q, seq![r0, r1], b1, inst, wit);
    lemma_rows_hold_append(q, seq![r0], seq![r1], inst, wit);
    assert(seq![r0, r1] =~= seq![r0] + seq![r1]);
    lemma_rows_hold_single(q, r0, inst, wit);
    lemma_rows_hold_single(q, r1, inst, wit);
    lemma_rows_hold_single(q, r6, inst, wit);
}

/// `d + 10` evaluates to `d + 10` in a field larger than it.
proof fn lemma_offset_lc(q: nat, d: Var, inst: Seq<nat>, wit: Seq<nat>)
    requires
        var_value(d, inst, wit) + 10 < q,
    ensures
        lc_eval(q, offset_lc(d), inst, wit) == var_value(d, inst, wit) + 10,
{
    assert(offset_lc(d) =~= seq![(1nat, d)] + seq![(10nat, Var::One)]);
    lemma_lc_sum_append(seq![(1nat, d)], seq![(10nat, Var::One)], inst, wit);
    lemma_lc_sum_single(1nat, d, inst, wit);
    lemma_lc_sum_single(10nat, Var::One, inst, wit);
    lemma_small_mod(var_value(d, inst, wit) + 10, q);
}

/// Soundness: in a prime field of order above 32, any assignment that
/// satisfies the circuit's constraints has `in = d + 10` with `in` at most
/// 15, so `10 <= in <= 15`.
pub proof fn lemma_range_sound(q: nat, w: nat, inst: Seq<nat>, wit: Seq<nat>)
    requires
        is_prime(q),
        q > 32,
        w + 10 <= wit.len(),
        wit.len() <= usize::MAX,
        forall|i: int| 0 <= i < wit.len() ==> #[trigger] wit[i] < q,
        rows_hold(q, range_rows(q, w), inst, wit),
    ensures
        wit[w as int] == wit[(w + 1) as int] + 10,
        10 <= wit[w as int] <= 15,
{
    let in_var = Var::Witness(w as usize);
    let d_var = Var::Witness((w + 1) as usize);
    let dv = witness_vars(w + 2, 4);
    let iv = witness_vars(w + 6, 4);
    lemma2_to64();
    lemma_range_rows_parts(q, w, inst, wit);
    lemma_values_of_witness_vars(w + 2, 4, inst, wit);
    lemma_values_of_witness_vars(w + 6, 4, inst, wit);
    assert forall|i: int| 0 <= i < dv.len() implies #[trigger] var_value(dv[i], inst, wit) < q by {}
    assert forall|i: int| 0 <= i < iv.len() implies #[trigger] var_value(iv[i], inst, wit) < q by {}
    lemma_bool_rows(q, dv, inst, wit);
    lemma_bool_rows(q, iv, inst, wit);
    lemma_pack_row(q, dv, d_var, inst, wit);
    lemma_pack_row(q, iv, in_var, inst, wit);
    crate::gadgets::lemma_weighted_sum_bound(values_of(dv, inst, wit));
    crate::gadgets::lemma_weighted_sum_bound(values_of(iv, inst, wit));
    let dval = var_value(d_var, inst, wit);
    let inval = var_value(in_var, inst, wit);
    assert(dval == wit[(w + 1) as int]);
    assert(inval == wit[w as int]);
    assert(is_bits(values_of(dv, inst, wit)));
    assert(dval == weighted_sum(values_of(dv, inst, wit)));
    assert(inval == weighted_sum(values_of(iv, inst, wit)));
    assert(dval < 16 && inval < 16);
    lemma_offset_lc(q, d_var, inst, wit);
    lemma_unit_lc_eval(q, Var::One, inst, wit);
    lemma_unit_lc_eval(q, in_var, inst, wit);
    let e0 = lc_eval(q, offset_lc(d_var), inst, wit);
    let e1 = lc_eval(q, unit_lc(Var::One), inst, wit);
    assert(e1 == 1);
    assert(e0 * e1 == e0) by (nonlinear_arith)
        requires
            e1 == 1,
    ;
    lemma_small_mod(dval + 10, q);
    assert(row_holds(q, (offset_lc(d_var), unit_lc(Var::One), unit_lc(in_var)), inst, wit));
    assert(inval == dval + 10);
}

/// Completeness: for `10 <= in <= 15` and `d = in - 10`, the witness that
/// the circuit allocates satisfies its constraints, in any field of order
/// above 32.
pub proof fn lemma_range_complete(q: nat, inst: Seq<nat>, wit0: Seq<nat>, in_: nat, d: nat)
    requires
        q > 32,
        in_ == d + 10,
        in_ <= 15,
        wit0.len() + 10 <= usize::MAX,
    ensures
        rows_hold(q, range_rows(q, wit0.len()), inst, wit0 + range_witness(in_, d)),
{
    let w = wit0.len();
    let wit = wit0 + range_witness(in_, d);
    let in_var = Var::Witness(w as usize);
    let d_var = Var::Witness((w + 1) as usize);
    let dv = witness_vars(w + 2, 4);
    let iv = witness_vars(w + 6, 4);
    lemma2_to64();
    lemma_range_rows_parts(q, w, inst, wit);
    lemma_values_of_witness_vars(w + 2, 4, inst, wit);
    lemma_values_of_witness_vars(w + 6, 4, inst, wit);
    assert(wit.subrange((w + 2) as int, (w + 6) as int) =~= bits_of(d, 4));
    assert(wit.subrange((w + 6) as int, (w + 10) as int) =~= bits_of(in_, 4));
    lemma_bits_of_small(d, 4);
    lemma_bits_of_small(in_, 4);
    assert forall|i: int| 0 <= i < dv.len() implies #[trigger] var_value(dv[i], inst, wit) < q by {
        assert(values_of(dv, inst, wit)[i] <= 1);
    }
    assert forall|i: int| 0 <= i < iv.len() implies #[trigger] var_value(iv[i], inst, wit) < q by {
        assert(values_of(iv, inst, wit)[i] <= 1);
    }
    lemma_bool_rows(q, dv, inst, wit);
    lemma_bool_rows(q, iv, inst, wit);
    assert(var_value(d_var, inst, wit) == d);
    assert(var_value(in_var, inst, wit) == in_);
    lemma_pack_row(q, dv, d_var, inst, wit);
    lemma_pack_row(q, iv, in_var, inst, wit);
    lemma_offset_lc(q, d_var, inst, wit);
    lemma_unit_lc_eval(q, Var::One, inst, wit);
    lemma_unit_lc_eval(q, in_var, inst, wit);
    let e0 = lc_eval(q, offset_lc(d_var), inst, wit);
    let e1 = lc_eval(q, unit_lc(Var::One), inst, wit);
    assert(e0 * e1 == e0) by (nonlinear_arith)
        requires
            e1 == 1,
    ;
    lemma_small_mod(in_, q);
    assert(row_holds(q, (offset_lc(d_var), unit_lc(Var::One), unit_lc(in_var)), inst, wit));
    assert(row_holds(q, pack_row(dv, d_var), inst, wit));
    assert(row_holds(q, pack_row(iv, in_var), inst, wit));
    assert(rows_hold(q, bool_rows(q, dv), inst, wit));
    assert(rows_hold(q, bool_rows(q, iv), inst, wit));
}

impl GreaterThanTenCircuit {
    /// Allocates `in` and `d` and the four low bits of each as witness
    /// variables, and enforces `(d + 10) * 1 = in`, that the bits of `d` and
    /// of `in` are bits, and that they pack to `d` and to `in`. A missing
    /// value ends the synthesis with `AssignmentMissing`; the variable that
    /// could not be assigned stays allocated, as do those before it.
    pub fn generate_constraints(self, cs: &mut R1cs) -> (r: Result<(), SynthesisError>)
        requires
            old(cs).wf(),
            r1cs_witness(*old(cs)).len() + 10 <= usize::MAX,
        ensures
            final(cs).valid(),
            r is Ok ==> final(cs).wf(),
            r1cs_instance(*final(cs)) == r1cs_instance(*old(cs)),
            r1cs_num_instance(*final(cs)) == r1cs_instance(*old(cs)).len(),
            match (self.in_, self.d) {
                (Some(i), Some(d)) => {
                    &&& r is Ok
                    &&& r1cs_witness(*final(cs)) == r1cs_witness(*old(cs)) + range_witness(i.value(), d.value())
                    &&& r1cs_constraints(*final(cs)) == r1cs_constraints(*old(cs))
                        + range_rows(modulus(), r1cs_witness(*old(cs)).len())
                },
                (Some(i), None) => {
                    &&& r == Err::<(), SynthesisError>(SynthesisError::AssignmentMissing)
                    &&& r1cs_witness(*final(cs)) == r1cs_witness(*old(cs)).push(i.value())
                    &&& r1cs_constraints(*final(cs)) == r1cs_constraints(*old(cs))
                    &&& r1cs_num_witness(*final(cs)) == r1cs_witness(*old(cs)).len() + 2
                },
                (None, _) => {
                    &&& r == Err::<(), SynthesisError>(SynthesisError::AssignmentMissing)
                    &&& r1cs_witness(*final(cs)) == r1cs_witness(*old(cs))
                    &&& r1cs_constraints(*final(cs)) == r1cs_constraints(*old(cs))
                    &&& r1cs_num_witness(*final(cs)) == r1cs_witness(*old(cs)).len() + 1
                },
            },
    {
        let ghost w0 = r1cs_witness(*cs);
        let ghost rows0 = r1cs_constraints(*cs);
        let ghost n_inst = r1cs_instance(*cs).len();
        let ghost w = w0.len();
        let in_val = match self.in_ {
            Some(v) => v,
            None => Fe::from_u64(0),
        };
        let d_val = match self.d {
            Some(v) => v,
            None => Fe::from_u64(0),
        };
        let in_var = match cs.new_witness(self.in_) {
            Ok(v) => v,
            Err(_) => return Err(SynthesisError::AssignmentMissing),
        };
        let in_v = self.in_.unwrap();
        proof {
            lemma_rows_in_range_grow(rows0, n_inst, w, n_inst, w + 1);
        }
        let d_var = match cs.new_witness(self.d) {
            Ok(v) => v,
            Err(_) => return Err(SynthesisError::AssignmentMissing),
        };
        let d_v = self.d.unwrap();
        proof {
            lemma_rows_in_range_grow(rows0, n_inst, w, n_inst, w + 2);
        }
        let d_bits = alloc_bits(cs, &d_val, 4);
        let in_bits = alloc_bits(cs, &in_val, 4);
        proof {
            assert(r1cs_witness(*cs) =~= w0 + range_witness(in_v.value(), d_v.value()));
            assert(r1cs_witness(*cs).len() == w + 10);
        }
        let mut la = Lc::new();
        la.add_term(Fe::from_u64(1), d_var);
        la.add_term(Fe::from_u64(THRESHOLD), Var::One);
        let mut lb = Lc::new();
        lb.add_term(Fe::from_u64(1), Var::One);
        let mut lc = Lc::new();
        lc.add_term(Fe::from_u64(1), in_var);
        let ghost r0 = (la@, lb@, lc@);
        proof {
            assert(lc_in_range(la@, n_inst, w + 10));
            assert(lc_in_range(lb@, n_inst, w + 10));
            assert(lc_in_range(lc@, n_inst, w + 10));
        }
        crate::gadgets::enforce_in_range(cs, la, lb, lc);
        proof {
            assert(crate::gadgets::vars_in_range(d_bits@, n_inst, w + 10));
            assert(crate::gadgets::vars_in_range(in_bits@, n_inst, w + 10));
        }
        enforce_pack(cs, &d_bits, d_var);
        enforce_booleans(cs, &d_bits);
        enforce_pack(cs, &in_bits, in_var);
        enforce_booleans(cs, &in_bits);
        proof {
            let in_var_s = Var::Witness(w as usize);
            let d_var_s = Var::Witness((w + 1) as usize);
            assert(r0 == (offset_lc(d_var_s), unit_lc(Var::One), unit_lc(in_var_s)));
            assert(r1cs_constraints(*cs) =~= rows0 + range_rows(modulus(), w));
        }
        Ok(())
    }
}

/// Synthesises the range circuit for `in` and `d` into a fresh system, with
/// no optimisation, and finalises it. The system that comes out has no
/// public input, the witness of `range_witness`, and eleven constraints,
/// which any assignment satisfies exactly when it satisfies the circuit's
/// constraints; its own assignment does when `in = d + 10 <= 15`.
pub fn synthesize_greater_than(in_: Fe, d: Fe) -> (cs: R1cs)
    ensures
        cs.wf(),
        r1cs_instance(cs) == seq![1nat],
        r1cs_witness(cs) == range_witness(in_.value(), d.value()),
        r1cs_constraints(cs).len() == 11,
        forall|inst: Seq<nat>, wit: Seq<nat>|
            #[trigger] rows_hold(modulus(), r1cs_constraints(cs), inst, wit)
                == rows_hold(modulus(), range_rows(modulus(), 0), inst, wit),
        rows_compact(modulus(), r1cs_constraints(cs), range_rows(modulus(), 0)),
        in_.value() == d.value() + 10 && in_.value() <= 15
            ==> rows_hold(modulus(), r1cs_constraints(cs), r1cs_instance(cs), r1cs_witness(cs)),
        is_prime(modulus()) ==> (rows_hold(modulus(), r1cs_constraints(cs), r1cs_instance(cs), r1cs_witness(cs))
            <==> (in_.value() == d.value() + 10 && in_.value() <= 15)),
{
    let mut cs = R1cs::new_unoptimized();
    let circuit = GreaterThanTenCircuit { in_: Some(in_), d: Some(d) };
    let _ = circuit.generate_constraints(&mut cs);
    let ghost before = r1cs_constraints(cs);
    let ghost inst = r1cs_instance(cs);
    let ghost wit = r1cs_witness(cs);
    proof {
        assert(before =~= range_rows(modulus(), 0));
        assert(wit =~= Seq::<nat>::empty() + range_witness(in_.value(), d.value()));
        if in_.value() == d.value() + 10 && in_.value() <= 15 {
            lemma_range_complete(modulus(), inst, Seq::<nat>::empty(), in_.value(), d.value());
        }
    }
    cs.finalize();
    proof {
        assert forall|inst2: Seq<nat>, wit2: Seq<nat>|
            #[trigger] rows_hold(modulus(), r1cs_constraints(cs), inst2, wit2)
                == rows_hold(modulus(), before, inst2, wit2) by {
            lemma_rows_hold_same_evals(modulus(), r1cs_constraints(cs), before, inst2, wit2);
        }
        assert(wit =~= range_witness(in_.value(), d.value()));
        if is_prime(modulus()) && rows_hold(modulus(), before, inst, wit) {
            assert forall|i: int| 0 <= i < wit.len() implies #[trigger] wit[i] < modulus() by {
                if 2 <= i {
                    let x = if i < 6 { d.value() } else { in_.value() };
                    let k = if i < 6 { i - 2 } else { i - 6 };
                    lemma_pow2_pos(k as nat);
                    lemma_mod_bound((x / pow2(k as nat)) as int, 2);
                }
            }
            lemma_range_sound(modulus(), 0, inst, wit);
        }
    }
    cs
}

} // verus!
