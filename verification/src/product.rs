//! The product circuit: a public `c` together with private `a` and `b`
//! such that `a * b = c`.

use vstd::prelude::*;
use crate::field::{Fe, modulus};
use crate::r1cs::{
    rows_compact,
    Lc, R1cs, Row, SynthesisError, Var, r1cs_constraints, r1cs_instance, r1cs_witness, unit_lc,
    r1cs_num_instance, r1cs_num_witness,
    row_holds, rows_hold, var_value, lemma_rows_in_range_grow, lemma_rows_hold_same_evals,
    lemma_rows_push_in_range, lc_in_range, lemma_rows_hold_extend,
};
use crate::gadgets::{lemma_unit_lc_eval, lemma_rows_hold_append};

verus! {

broadcast use Fe::lemma_value_canonical;

/// The product circuit with its optional private factors.
#[derive(Clone, Debug)]
pub struct MyCircuit {
    pub a: Option<Fe>,
    pub b: Option<Fe>,
}

/// The single constraint `a * b = c`.
pub open spec fn product_row(a: Var, b: Var, c: Var) -> Row {
    (unit_lc(a), unit_lc(b), unit_lc(c))
}

/// The constraint `a * b = c` holds exactly when the value of `c` is the
/// product of the values of `a` and `b` in the field.
pub proof fn lemma_product_row(q: nat, a: Var, b: Var, c: Var, inst: Seq<nat>, wit: Seq<nat>)
    requires
        var_value(a, inst, wit) < q,
        var_value(b, inst, wit) < q,
        var_value(c, inst, wit) < q,
    ensures
        row_holds(q, product_row(a, b, c), inst, wit)
            <==> var_value(c, inst, wit) == (var_value(a, inst, wit) * var_value(b, inst, wit)) % q,
{
    lemma_unit_lc_eval(q, a, inst, wit);
    lemma_unit_lc_eval(q, b, inst, wit);
    lemma_unit_lc_eval(q, c, inst, wit);
}

impl MyCircuit {
    /// Allocates `a` and `b` as witness variables and `c = a * b` as an
    /// instance variable, and enforces `a * b = c`. A missing factor ends
    /// the synthesis with `AssignmentMissing`; the variable that could not
    /// be assigned stays allocated, as do those before it. With both
    /// factors given, a system whose assignment satisfies it stays
    /// satisfied.
    pub fn generate_constraints(self, cs: &mut R1cs) -> (r: Result<(), SynthesisError>)
        requires
            old(cs).wf(),
            r1cs_instance(*old(cs)).len() + 1 <= usize::MAX,
            r1cs_witness(*old(cs)).len() + 2 <= usize::MAX,
        ensures
            final(cs).valid(),
            r is Ok ==> final(cs).wf(),
            self.a is Some && self.b is Some
                && rows_hold(modulus(), r1cs_constraints(*old(cs)), r1cs_instance(*old(cs)), r1cs_witness(*old(cs)))
                ==> rows_hold(modulus(), r1cs_constraints(*final(cs)), r1cs_instance(*final(cs)), r1cs_witness(*final(cs))),
            match (self.a, self.b) {
                (Some(a), Some(b)) => {
                    &&& r is Ok
                    &&& r1cs_witness(*final(cs)) == r1cs_witness(*old(cs)).push(a.value()).push(b.value())
                    &&& r1cs_instance(*final(cs)) == r1cs_instance(*old(cs)).push((a.value() * b.value()) % modulus())
                    &&& r1cs_constraints(*final(cs)) == r1cs_constraints(*old(cs)).push(product_row(
                        Var::Witness(r1cs_witness(*old(cs)).len() as usize),
                        Var::Witness((r1cs_witness(*old(cs)).len() + 1) as usize),
                        Var::Instance(r1cs_instance(*old(cs)).len() as usize),
                    ))
                },
                (Some(a), None) => {
                    &&& r == Err::<(), SynthesisError>(SynthesisError::AssignmentMissing)
                    &&& r1cs_witness(*final(cs)) == r1cs_witness(*old(cs)).push(a.value())
                    &&& r1cs_instance(*final(cs)) == r1cs_instance(*old(cs))
                    &&& r1cs_constraints(*final(cs)) == r1cs_constraints(*old(cs))
                    &&& r1cs_num_witness(*final(cs)) == r1cs_witness(*old(cs)).len() + 2
                    &&& r1cs_num_instance(*final(cs)) == r1cs_instance(*old(cs)).len()
                },
                (None, _) => {
                    &&& r == Err::<(), SynthesisError>(SynthesisError::AssignmentMissing)
                    &&& r1cs_witness(*final(cs)) == r1cs_witness(*old(cs))
                    &&& r1cs_instance(*final(cs)) == r1cs_instance(*old(cs))
                    &&& r1cs_constraints(*final(cs)) == r1cs_constraints(*old(cs))
                    &&& r1cs_num_witness(*final(cs)) == r1cs_witness(*old(cs)).len() + 1
                    &&& r1cs_num_instance(*final(cs)) == r1cs_instance(*old(cs)).len()
                },
            },
    {
        let ghost n_inst = r1cs_instance(*cs).len();
        let ghost n_wit = r1cs_witness(*cs).len();
        let ghost cs0 = *cs;
        let a_var = match cs.new_witness(self.a) {
            Ok(v) => v,
            Err(_) => return Err(SynthesisError::AssignmentMissing),
        };
        proof {
            lemma_rows_in_range_grow(r1cs_constraints(*cs), n_inst, n_wit, n_inst, n_wit + 1);
        }
        let b_var = match cs.new_witness(self.b) {
            Ok(v) => v,
            Err(_) => return Err(SynthesisError::AssignmentMissing),
        };
        let a = self.a.unwrap();
        let b = self.b.unwrap();
        let c = a.mul(&b);
        let c_var = match cs.new_input(Some(c)) {
            Ok(v) => v,
            Err(_) => unreached(),
        };
        proof {
            lemma_rows_in_range_grow(r1cs_constraints(*cs), n_inst, n_wit, n_inst + 1, n_wit + 2);
        }
        let mut la = Lc::new();
        la.add_term(Fe::from_u64(1), a_var);
        let mut lb = Lc::new();
        lb.add_term(Fe::from_u64(1), b_var);
        let mut lc = Lc::new();
        lc.add_term(Fe::from_u64(1), c_var);
        let ghost rows = r1cs_constraints(*cs);
        let ghost row = (la@, lb@, lc@);
        proof {
            assert(lc_in_range(row.0, n_inst + 1, n_wit + 2));
            assert(lc_in_range(row.1, n_inst + 1, n_wit + 2));
            assert(lc_in_range(row.2, n_inst + 1, n_wit + 2));
            lemma_rows_push_in_range(rows, row, n_inst + 1, n_wit + 2);
        }
        cs.enforce(la, lb, lc);
        proof {
            let q = modulus();
            let inst = r1cs_instance(*cs);
            let wit = r1cs_witness(*cs);
            if rows_hold(q, r1cs_constraints(cs0), r1cs_instance(cs0), r1cs_witness(cs0)) {
                lemma_rows_hold_extend(q, rows, r1cs_instance(cs0), r1cs_witness(cs0), inst, wit);
                assert(row == product_row(a_var, b_var, c_var));
                lemma_product_row(q, a_var, b_var, c_var, inst, wit);
                assert(row_holds(q, row, inst, wit));
                assert(rows_hold(q, seq![row], inst, wit));
                lemma_rows_hold_append(q, rows, seq![row], inst, wit);
                assert(rows + seq![row] =~= r1cs_constraints(*cs));
            }
        }
        Ok(())
    }
}

/// Synthesises the product circuit for `a` and `b` into a fresh system,
/// with no optimisation, and finalises it. The system that comes out has
/// `c = a * b` as its one public input, `a` and `b` as its witness, one
/// constraint, which any assignment satisfies exactly when it satisfies
/// `a * b = c`, and its own assignment satisfies it.
pub fn synthesize_product(a: Fe, b: Fe) -> (cs: R1cs)
    ensures
        cs.wf(),
        r1cs_instance(cs) == seq![1nat, (a.value() * b.value()) % modulus()],
        r1cs_witness(cs) == seq![a.value(), b.value()],
        r1cs_constraints(cs).len() == 1,
        forall|inst: Seq<nat>, wit: Seq<nat>|
            #[trigger] rows_hold(modulus(), r1cs_constraints(cs), inst, wit)
                == rows_hold(modulus(), seq![product_row(Var::Witness(0), Var::Witness(1), Var::Instance(1))], inst, wit),
        rows_compact(modulus(), r1cs_constraints(cs), seq![product_row(Var::Witness(0), Var::Witness(1), Var::Instance(1))]),
        rows_hold(modulus(), r1cs_constraints(cs), r1cs_instance(cs), r1cs_witness(cs)),
{
    let mut cs = R1cs::new_unoptimized();
    let circuit = MyCircuit { a: Some(a), b: Some(b) };
    let _ = circuit.generate_constraints(&mut cs);
    let ghost before = r1cs_constraints(cs);
    let ghost inst = r1cs_instance(cs);
    let ghost wit = r1cs_witness(cs);
    proof {
        let row = product_row(Var::Witness(0), Var::Witness(1), Var::Instance(1));
        assert(before == seq![row]);
        lemma_product_row(modulus(), Var::Witness(0), Var::Witness(1), Var::Instance(1), inst, wit);
        assert(row_holds(modulus(), before[0], inst, wit));
    }
    cs.finalize();
    proof {
        assert forall|inst2: Seq<nat>, wit2: Seq<nat>|
            #[trigger] rows_hold(modulus(), r1cs_constraints(cs), inst2, wit2)
                == rows_hold(modulus(), before, inst2, wit2) by {
            lemma_rows_hold_same_evals(modulus(), r1cs_constraints(cs), before, inst2, wit2);
        }
        assert(rows_hold(modulus(), r1cs_constraints(cs), inst, wit));
        assert(seq![1nat].push(a.value()) =~= seq![1nat, a.value()]);
    }
    cs
}

} // verus!
