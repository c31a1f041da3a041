//! A rank-1 constraint system, kept by `ark_relations`. Its contents are named
//! by `r1cs_constraints`, `r1cs_instance` and `r1cs_witness`, and its counts
//! of allocated variables by `r1cs_num_instance` and `r1cs_num_witness`;
//! every method says what it does to them.

use vstd::prelude::*;
use crate::field::{Fe, modulus};
use ark_ff::{BigInt, PrimeField};
use ark_relations::r1cs::{ConstraintSystem, ConstraintSystemRef, LinearCombination, OptimizationGoal, Variable};
use ark_relations::r1cs::SynthesisError as ArkSynthesisError;

verus! {

/// A variable of a constraint system: the constant one, a public instance
/// variable or a private witness variable, each by its index.
#[derive(Clone, Copy, Debug, PartialEq, Eq)]
pub enum Var {
    One,
    Instance(usize),
    Witness(usize),
}

/// Why a circuit could not be synthesised.
#[derive(Clone, Copy, Debug, PartialEq, Eq)]
pub enum SynthesisError {
    /// A value that the circuit needs was not given.
    AssignmentMissing,
}

/// A linear combination: the sum of `coefficient * variable` over its terms.
#[derive(Debug)]
pub struct Lc {
    pub terms: Vec<(Fe, Var)>,
}

/// The terms of a linear combination, each coefficient by its value.
pub open spec fn terms_view(terms: Seq<(Fe, Var)>) -> Seq<(nat, Var)> {
    terms.map_values(|t: (Fe, Var)| (t.0.value(), t.1))
}

impl Lc {
    pub open spec fn view(&self) -> Seq<(nat, Var)> {
        terms_view(self.terms@)
    }

    /// The empty linear combination, which stands for zero.
    pub fn new() -> (r: Lc)
        ensures
            r@ == Seq::<(nat, Var)>::empty(),
    {
        let r = Lc { terms: Vec::new() };
        assert(r@ =~= Seq::<(nat, Var)>::empty());
        r
    }

    /// Adds the term `coeff * var`.
    pub fn add_term(&mut self, coeff: Fe, var: Var)
        ensures
            final(self)@ == old(self)@.push((coeff.value(), var)),
    {
        self.terms.push((coeff, var));
        assert(self@ =~= old(self)@.push((coeff.value(), var)));
    }
}

/// The value of a variable under an assignment of the instance and the
/// witness variables; an index beyond the assignment reads as zero.
pub open spec fn var_value(v: Var, inst: Seq<nat>, wit: Seq<nat>) -> nat {
    match v {
        Var::One => 1,
        Var::Instance(i) => if i < inst.len() { inst[i as int] } else { 0 },
        Var::Witness(i) => if i < wit.len() { wit[i as int] } else { 0 },
    }
}

/// The integer sum of `coefficient * value` over the terms.
pub open spec fn lc_sum(lc: Seq<(nat, Var)>, inst: Seq<nat>, wit: Seq<nat>) -> nat
    decreases lc.len(),
{
    if lc.len() == 0 {
        0
    } else {
        lc_sum(lc.drop_last(), inst, wit) + lc.last().0 * var_value(lc.last().1, inst, wit)
    }
}

/// The value of a linear combination in the field of order `q`.
pub open spec fn lc_eval(q: nat, lc: Seq<(nat, Var)>, inst: Seq<nat>, wit: Seq<nat>) -> nat {
    lc_sum(lc, inst, wit) % q
}

/// A constraint `<a, z> * <b, z> = <c, z>`.
pub type Row = (Seq<(nat, Var)>, Seq<(nat, Var)>, Seq<(nat, Var)>);

/// Whether one constraint holds in the field of order `q`.
pub open spec fn row_holds(q: nat, row: Row, inst: Seq<nat>, wit: Seq<nat>) -> bool {
    (lc_eval(q, row.0, inst, wit) * lc_eval(q, row.1, inst, wit)) % q == lc_eval(q, row.2, inst, wit)
}

/// Whether every constraint holds in the field of order `q`.
pub open spec fn rows_hold(q: nat, rows: Seq<Row>, inst: Seq<nat>, wit: Seq<nat>) -> bool {
    forall|i: int| 0 <= i < rows.len() ==> #[trigger] row_holds(q, rows[i], inst, wit)
}

/// Whether a variable is among `n_inst` instance and `n_wit` witness variables.
pub open spec fn var_in_range(v: Var, n_inst: nat, n_wit: nat) -> bool {
    match v {
        Var::One => true,
        Var::Instance(i) => i < n_inst,
        Var::Witness(i) => i < n_wit,
    }
}

pub open spec fn lc_in_range(lc: Seq<(nat, Var)>, n_inst: nat, n_wit: nat) -> bool {
    forall|k: int| 0 <= k < lc.len() ==> var_in_range(#[trigger] lc[k].1, n_inst, n_wit)
}

/// Whether every constraint speaks only of allocated variables.
pub open spec fn rows_in_range(rows: Seq<Row>, n_inst: nat, n_wit: nat) -> bool {
    forall|i: int|
        0 <= i < rows.len() ==> {
            &&& lc_in_range(#[trigger] rows[i].0, n_inst, n_wit)
            &&& lc_in_range(rows[i].1, n_inst, n_wit)
            &&& lc_in_range(rows[i].2, n_inst, n_wit)
        }
}

/// Whether every assigned value is a field element.
pub open spec fn values_canonical(vals: Seq<nat>) -> bool {
    forall|i: int| 0 <= i < vals.len() ==> #[trigger] vals[i] < modulus()
}

/// The linear combination `1 * v`.
pub open spec fn unit_lc(v: Var) -> Seq<(nat, Var)> {
    seq![(1nat, v)]
}

/// Enlarging the variable counts keeps constraints in range.
#[verifier::spinoff_prover]
pub proof fn lemma_rows_in_range_grow(rows: Seq<Row>, n_inst: nat, n_wit: nat, n_inst2: nat, n_wit2: nat)
    requires
        rows_in_range(rows, n_inst, n_wit),
        n_inst <= n_inst2,
        n_wit <= n_wit2,
    ensures
        rows_in_range(rows, n_inst2, n_wit2),
{
    assert forall|i: int| 0 <= i < rows.len() implies {
        &&& lc_in_range(#[trigger] rows[i].0, n_inst2, n_wit2)
        &&& lc_in_range(rows[i].1, n_inst2, n_wit2)
        &&& lc_in_range(rows[i].2, n_inst2, n_wit2)
    } by {
        lemma_lc_in_range_grow(rows[i].0, n_inst, n_wit, n_inst2, n_wit2);
        lemma_lc_in_range_grow(rows[i].1, n_inst, n_wit, n_inst2, n_wit2);
        lemma_lc_in_range_grow(rows[i].2, n_inst, n_wit, n_inst2, n_wit2);
    }
}

/// Enlarging the variable counts keeps a linear combination in range.
proof fn lemma_lc_in_range_grow(lc: Seq<(nat, Var)>, n_inst: nat, n_wit: nat, n_inst2: nat, n_wit2: nat)
    requires
        lc_in_range(lc, n_inst, n_wit),
        n_inst <= n_inst2,
        n_wit <= n_wit2,
    ensures
        lc_in_range(lc, n_inst2, n_wit2),
{
    assert forall|k: int| 0 <= k < lc.len() implies var_in_range(#[trigger] lc[k].1, n_inst2, n_wit2) by {
        assert(var_in_range(lc[k].1, n_inst, n_wit));
    }
}

/// Appending an in-range constraint keeps constraints in range.
#[verifier::spinoff_prover]
pub proof fn lemma_rows_push_in_range(rows: Seq<Row>, row: Row, n_inst: nat, n_wit: nat)
    requires
        rows_in_range(rows, n_inst, n_wit),
        lc_in_range(row.0, n_inst, n_wit),
        lc_in_range(row.1, n_inst, n_wit),
        lc_in_range(row.2, n_inst, n_wit),
    ensures
        rows_in_range(rows.push(row), n_inst, n_wit),
{
    assert forall|i: int| 0 <= i < rows.push(row).len() implies {
        &&& lc_in_range(#[trigger] rows.push(row)[i].0, n_inst, n_wit)
        &&& lc_in_range(rows.push(row)[i].1, n_inst, n_wit)
        &&& lc_in_range(rows.push(row)[i].2, n_inst, n_wit)
    } by {
        if i < rows.len() {
            assert(rows.push(row)[i] == rows[i]);
            assert(lc_in_range(rows[i].0, n_inst, n_wit));
        }
    }
}

/// Whether `long` begins with `short`.
pub open spec fn extends(long: Seq<nat>, short: Seq<nat>) -> bool {
    &&& short.len() <= long.len()
    &&& forall|i: int| 0 <= i < short.len() ==> #[trigger] long[i] == short[i]
}

/// A linear combination over assigned variables keeps its sum when more
/// variables are assigned.
pub proof fn lemma_lc_sum_extend(lc: Seq<(nat, Var)>, inst: Seq<nat>, wit: Seq<nat>, inst2: Seq<nat>, wit2: Seq<nat>)
    requires
        lc_in_range(lc, inst.len(), wit.len()),
        extends(inst2, inst),
        extends(wit2, wit),
    ensures
        lc_sum(lc, inst2, wit2) == lc_sum(lc, inst, wit),
    decreases lc.len(),
{
    if lc.len() > 0 {
        let v = lc.last().1;
        assert(var_in_range(lc[lc.len() - 1].1, inst.len(), wit.len()));
        assert(var_value(v, inst2, wit2) == var_value(v, inst, wit));
        assert(lc_in_range(lc.drop_last(), inst.len(), wit.len())) by {
            assert forall|k: int| 0 <= k < lc.drop_last().len() implies
                var_in_range(#[trigger] lc.drop_last()[k].1, inst.len(), wit.len()) by {
                assert(lc.drop_last()[k] == lc[k]);
            }
        }
        lemma_lc_sum_extend(lc.drop_last(), inst, wit, inst2, wit2);
    }
}

/// Constraints over assigned variables hold alike when more variables are
/// assigned.
pub proof fn lemma_rows_hold_extend(q: nat, rows: Seq<Row>, inst: Seq<nat>, wit: Seq<nat>, inst2: Seq<nat>, wit2: Seq<nat>)
    requires
        rows_in_range(rows, inst.len(), wit.len()),
        extends(inst2, inst),
        extends(wit2, wit),
    ensures
        rows_hold(q, rows, inst2, wit2) == rows_hold(q, rows, inst, wit),
{
    assert forall|i: int| 0 <= i < rows.len() implies
        #[trigger] row_holds(q, rows[i], inst2, wit2) == row_holds(q, rows[i], inst, wit) by {
        lemma_lc_sum_extend(rows[i].0, inst, wit, inst2, wit2);
        lemma_lc_sum_extend(rows[i].1, inst, wit, inst2, wit2);
        lemma_lc_sum_extend(rows[i].2, inst, wit, inst2, wit2);
    }
    if rows_hold(q, rows, inst, wit) {
        assert forall|i: int| 0 <= i < rows.len() implies #[trigger] row_holds(q, rows[i], inst2, wit2) by {
            assert(row_holds(q, rows[i], inst, wit));
        }
    }
    if rows_hold(q, rows, inst2, wit2) {
        assert forall|i: int| 0 <= i < rows.len() implies #[trigger] row_holds(q, rows[i], inst, wit) by {
            assert(row_holds(q, rows[i], inst2, wit2));
        }
    }
}

/// Constraints whose linear combinations evaluate alike hold alike.
pub proof fn lemma_rows_hold_same_evals(q: nat, rows1: Seq<Row>, rows2: Seq<Row>, inst: Seq<nat>, wit: Seq<nat>)
    requires
        rows1.len() == rows2.len(),
        forall|i: int| 0 <= i < rows1.len() ==> #[trigger] lc_eval(q, rows1[i].0, inst, wit) == lc_eval(q, rows2[i].0, inst, wit),
        forall|i: int| 0 <= i < rows1.len() ==> #[trigger] lc_eval(q, rows1[i].1, inst, wit) == lc_eval(q, rows2[i].1, inst, wit),
        forall|i: int| 0 <= i < rows1.len() ==> #[trigger] lc_eval(q, rows1[i].2, inst, wit) == lc_eval(q, rows2[i].2, inst, wit),
    ensures
        rows_hold(q, rows1, inst, wit) == rows_hold(q, rows2, inst, wit),
{
    assert forall|i: int| 0 <= i < rows1.len() implies
        #[trigger] row_holds(q, rows1[i], inst, wit) == row_holds(q, rows2[i], inst, wit) by {
        assert(lc_eval(q, rows1[i].0, inst, wit) == lc_eval(q, rows2[i].0, inst, wit));
        assert(lc_eval(q, rows1[i].1, inst, wit) == lc_eval(q, rows2[i].1, inst, wit));
        assert(lc_eval(q, rows1[i].2, inst, wit) == lc_eval(q, rows2[i].2, inst, wit));
    }
    if rows_hold(q, rows1, inst, wit) {
        assert forall|i: int| 0 <= i < rows2.len() implies #[trigger] row_holds(q, rows2[i], inst, wit) by {
            assert(row_holds(q, rows1[i], inst, wit));
        }
    }
    if rows_hold(q, rows2, inst, wit) {
        assert forall|i: int| 0 <= i < rows1.len() implies #[trigger] row_holds(q, rows1[i], inst, wit) by {
            assert(row_holds(q, rows2[i], inst, wit));
        }
    }
}

/// The order of the variables in a compact linear combination: the constant
/// one first, then the instance variables by index, then the witness
/// variables by index.
pub open spec fn var_before(u: Var, v: Var) -> bool {
    match (u, v) {
        (Var::One, Var::One) => false,
        (Var::One, _) => true,
        (Var::Instance(i), Var::Instance(j)) => i < j,
        (Var::Instance(_), Var::Witness(_)) => true,
        (Var::Witness(i), Var::Witness(j)) => i < j,
        _ => false,
    }
}

/// Whether a variable occurs in a linear combination.
pub open spec fn has_var(lc: Seq<(nat, Var)>, v: Var) -> bool {
    exists|k: int| 0 <= k < lc.len() && lc[k].1 == v
}

/// The integer sum of the coefficients of `v` in a linear combination.
pub open spec fn coeff_sum(lc: Seq<(nat, Var)>, v: Var) -> nat
    decreases lc.len(),
{
    if lc.len() == 0 {
        0
    } else {
        coeff_sum(lc.drop_last(), v) + if lc.last().1 == v { lc.last().0 } else { 0 }
    }
}

/// Whether `lc` is the compact form of `orig` in the field of order `q`:
/// the variables of `orig`, each once and in order, each with the sum of
/// its coefficients in `orig`.
pub open spec fn is_compact_form(q: nat, lc: Seq<(nat, Var)>, orig: Seq<(nat, Var)>) -> bool {
    &&& forall|i: int, j: int| 0 <= i < j < lc.len() ==> var_before(#[trigger] lc[i].1, #[trigger] lc[j].1)
    &&& forall|v: Var| #[trigger] has_var(lc, v) == has_var(orig, v)
    &&& forall|k: int| 0 <= k < lc.len() ==> #[trigger] lc[k].0 == coeff_sum(orig, lc[k].1) % q
}

/// Whether each linear combination of `rows` is the compact form of the
/// matching one of `orig`.
pub open spec fn rows_compact(q: nat, rows: Seq<Row>, orig: Seq<Row>) -> bool {
    &&& rows.len() == orig.len()
    &&& forall|i: int|
        0 <= i < rows.len() ==> {
            &&& is_compact_form(q, #[trigger] rows[i].0, orig[i].0)
            &&& is_compact_form(q, rows[i].1, orig[i].1)
            &&& is_compact_form(q, rows[i].2, orig[i].2)
        }
}

/// The column of a variable in the matrices, where the witness columns
/// follow the `n_inst` instance columns and column 0 is the constant one.
pub open spec fn var_column(v: Var, n_inst: nat) -> nat {
    match v {
        Var::One => 0,
        Var::Instance(i) => i as nat,
        Var::Witness(i) => n_inst + i as nat,
    }
}

/// The matrix row of a linear combination: its terms with a nonzero
/// coefficient, each variable by its column.
pub open spec fn lc_row(lc: Seq<(nat, Var)>, n_inst: nat) -> Seq<(nat, nat)> {
    lc.filter(|t: (nat, Var)| t.0 != 0).map_values(|t: (nat, Var)| (t.0, var_column(t.1, n_inst)))
}

/// A matrix row given as field elements and columns.
pub open spec fn row_view(row: Seq<(Fe, usize)>) -> Seq<(nat, nat)> {
    row.map_values(|t: (Fe, usize)| (t.0.value(), t.1 as nat))
}

/// The A, B and C matrices of a constraint system, row by row.
pub struct Matrices {
    pub num_instance_variables: usize,
    pub num_witness_variables: usize,
    pub num_constraints: usize,
    pub a: Vec<Vec<(Fe, usize)>>,
    pub b: Vec<Vec<(Fe, usize)>>,
    pub c: Vec<Vec<(Fe, usize)>>,
}

impl Matrices {
    /// Whether these are the matrices of the constraints `rows` over
    /// `n_inst` instance and `n_wit` witness variables: row `i` of each
    /// holds the nonzero terms of the matching linear combination of
    /// constraint `i`, each variable by its column.
    pub open spec fn describes(&self, rows: Seq<Row>, n_inst: nat, n_wit: nat) -> bool {
        &&& self.num_instance_variables == n_inst
        &&& self.num_witness_variables == n_wit
        &&& self.num_constraints == rows.len()
        &&& self.a.len() == rows.len()
        &&& self.b.len() == rows.len()
        &&& self.c.len() == rows.len()
        &&& forall|i: int|
            0 <= i < rows.len() ==> {
                &&& row_view(#[trigger] self.a[i]@) == lc_row(rows[i].0, n_inst)
                &&& row_view(self.b[i]@) == lc_row(rows[i].1, n_inst)
                &&& row_view(self.c[i]@) == lc_row(rows[i].2, n_inst)
            }
    }
}

/// What a synthesised constraint system comes to: whether its assignment
/// satisfies it, its number of constraints, the values of its instance
/// variables (the constant one first) and of its witness variables, and its
/// matrices.
pub struct Synthesis {
    pub satisfied: bool,
    pub num_constraints: usize,
    pub public_inputs: Vec<Fe>,
    pub private_inputs: Vec<Fe>,
    pub matrices: Matrices,
}

/// A constraint system over the BN254 scalar field in proving mode, held in
/// an `ark_relations::r1cs::ConstraintSystemRef`.
#[verifier::external_body]
pub struct R1cs {
    cs: ConstraintSystemRef<ark_bn254::Fr>,
}

/// The constraints that a constraint system holds, in the order they were
/// enforced, each linear combination as the system now keeps it.
pub uninterp spec fn r1cs_constraints(cs: R1cs) -> Seq<(Seq<(nat, Var)>, Seq<(nat, Var)>, Seq<(nat, Var)>)>;

/// The values of the instance variables of a constraint system; index 0 is the constant one.
pub uninterp spec fn r1cs_instance(cs: R1cs) -> Seq<nat>;

/// The values of the witness variables of a constraint system.
pub uninterp spec fn r1cs_witness(cs: R1cs) -> Seq<nat>;

/// What a constraint system aims to minimise when it is finalised.
#[derive(Clone, Copy, Debug, PartialEq, Eq)]
pub enum OptGoal {
    /// No optimisation.
    Nothing,
    /// The number of constraints.
    Constraints,
    /// The total weight of the constraints.
    Weight,
}

/// The optimisation goal of a constraint system (`optimization_goal`).
pub uninterp spec fn r1cs_goal(cs: R1cs) -> OptGoal;

/// How many instance variables a constraint system has allocated, the
/// constant one among them (`num_instance_variables`). An allocation counts
/// even when its value could not be had.
pub uninterp spec fn r1cs_num_instance(cs: R1cs) -> nat;

/// How many witness variables a constraint system has allocated
/// (`num_witness_variables`). An allocation counts even when its value could
/// not be had.
pub uninterp spec fn r1cs_num_witness(cs: R1cs) -> nat;

/// The error type of `ark_relations`, handed back when a variable's value
/// cannot be had.
#[verifier::external_type_specification]
#[verifier::external_body]
pub struct ExArkSynthesisError(ArkSynthesisError);

impl R1cs {
    /// What every constraint system of this library keeps: the constraints
    /// speak only of variables that hold values, and every value is a field
    /// element.
    pub open spec fn valid(self) -> bool {
        &&& r1cs_instance(self).len() >= 1
        &&& r1cs_instance(self)[0] == 1
        &&& values_canonical(r1cs_instance(self))
        &&& values_canonical(r1cs_witness(self))
        &&& rows_in_range(r1cs_constraints(self), r1cs_instance(self).len(), r1cs_witness(self).len())
    }

    /// Valid, and every allocated variable holds a value: the state in which
    /// a circuit can be synthesised into the system. A failed allocation
    /// leaves a valid system that is no longer well-formed.
    pub open spec fn wf(self) -> bool {
        &&& self.valid()
        &&& r1cs_num_instance(self) == r1cs_instance(self).len()
        &&& r1cs_num_witness(self) == r1cs_witness(self).len()
    }

    /// A fresh constraint system (`ConstraintSystem::new_ref`): no constraints,
    /// no witness, and the instance holding only the constant one.
    #[verifier::external_body]
    pub(crate) fn new() -> (r: R1cs)
        ensures
            r1cs_goal(r) == OptGoal::Constraints,
            r1cs_constraints(r) == Seq::<Row>::empty(),
            r1cs_instance(r) == seq![1nat],
            r1cs_witness(r) == Seq::<nat>::empty(),
            r1cs_num_instance(r) == 1,
            r1cs_num_witness(r) == 0,
    {
        R1cs { cs: ConstraintSystem::<ark_bn254::Fr>::new_ref() }
    }

    /// Asks for no optimisation when the system is finalised
    /// (`set_optimization_goal(OptimizationGoal::None)`), which is allowed
    /// only while the system is fresh.
    #[verifier::external_body]
    pub(crate) fn set_no_optimization(&mut self)
        requires
            r1cs_constraints(*old(self)).len() == 0,
            r1cs_num_instance(*old(self)) == 1,
            r1cs_num_witness(*old(self)) == 0,
        ensures
            r1cs_goal(*final(self)) == OptGoal::Nothing,
            r1cs_constraints(*final(self)) == r1cs_constraints(*old(self)),
            r1cs_instance(*final(self)) == r1cs_instance(*old(self)),
            r1cs_witness(*final(self)) == r1cs_witness(*old(self)),
            r1cs_num_instance(*final(self)) == r1cs_num_instance(*old(self)),
            r1cs_num_witness(*final(self)) == r1cs_num_witness(*old(self)),
    {
        self.cs.set_optimization_goal(OptimizationGoal::None)
    }

    /// Allocates a public instance variable (`new_input_variable`) whose
    /// value is `value`. The variable is counted whether or not the value is
    /// there; only a present value is assigned, and a missing one is an error.
    #[verifier::external_body]
    pub(crate) fn new_input(&mut self, value: Option<Fe>) -> (r: Result<Var, ArkSynthesisError>)
        ensures
            r is Ok <==> value is Some,
            r is Ok ==> r == Ok::<Var, ArkSynthesisError>(Var::Instance(r1cs_num_instance(*old(self)) as usize)),
            r1cs_num_instance(*final(self)) == r1cs_num_instance(*old(self)) + 1,
            r1cs_num_witness(*final(self)) == r1cs_num_witness(*old(self)),
            r1cs_instance(*final(self)) == match value {
                Some(x) => r1cs_instance(*old(self)).push(x.value()),
                None => r1cs_instance(*old(self)),
            },
            r1cs_witness(*final(self)) == r1cs_witness(*old(self)),
            r1cs_constraints(*final(self)) == r1cs_constraints(*old(self)),
    {
        let x = value.map(|v| ark_bn254::Fr::from_bigint(BigInt::new(v.limbs())).unwrap())
            .ok_or(ArkSynthesisError::AssignmentMissing);
        self.cs.new_input_variable(move || x).map(|v| match v {
            Variable::Instance(i) => Var::Instance(i),
            _ => Var::One,
        })
    }

    /// Allocates a private witness variable (`new_witness_variable`) whose
    /// value is `value`. The variable is counted whether or not the value is
    /// there; only a present value is assigned, and a missing one is an error.
    #[verifier::external_body]
    pub(crate) fn new_witness(&mut self, value: Option<Fe>) -> (r: Result<Var, ArkSynthesisError>)
        ensures
            r is Ok <==> value is Some,
            r is Ok ==> r == Ok::<Var, ArkSynthesisError>(Var::Witness(r1cs_num_witness(*old(self)) as usize)),
            r1cs_num_witness(*final(self)) == r1cs_num_witness(*old(self)) + 1,
            r1cs_num_instance(*final(self)) == r1cs_num_instance(*old(self)),
            r1cs_witness(*final(self)) == match value {
                Some(x) => r1cs_witness(*old(self)).push(x.value()),
                None => r1cs_witness(*old(self)),
            },
            r1cs_instance(*final(self)) == r1cs_instance(*old(self)),
            r1cs_constraints(*final(self)) == r1cs_constraints(*old(self)),
    {
        let x = value.map(|v| ark_bn254::Fr::from_bigint(BigInt::new(v.limbs())).unwrap())
            .ok_or(ArkSynthesisError::AssignmentMissing);
        self.cs.new_witness_variable(move || x).map(|v| match v {
            Variable::Witness(i) => Var::Witness(i),
            _ => Var::One,
        })
    }

    /// Enforces the constraint `<a, z> * <b, z> = <c, z>` (`enforce_constraint`).
    #[verifier::external_body]
    pub(crate) fn enforce(&mut self, a: Lc, b: Lc, c: Lc)
        ensures
            r1cs_constraints(*final(self)) == r1cs_constraints(*old(self)).push((a@, b@, c@)),
            r1cs_instance(*final(self)) == r1cs_instance(*old(self)),
            r1cs_witness(*final(self)) == r1cs_witness(*old(self)),
            r1cs_num_instance(*final(self)) == r1cs_num_instance(*old(self)),
            r1cs_num_witness(*final(self)) == r1cs_num_witness(*old(self)),
    {
        let conv = |lc: Lc| LinearCombination(lc.terms.iter().map(|(f, v)| (
            ark_bn254::Fr::from_bigint(BigInt::new(f.limbs())).unwrap(),
            match v {
                Var::One => Variable::One,
                Var::Instance(i) => Variable::Instance(*i),
                Var::Witness(i) => Variable::Witness(*i),
            },
        )).collect());
        self.cs.enforce_constraint(conv(a), conv(b), conv(c)).unwrap()
    }

    /// Whether the assignment satisfies every constraint (`is_satisfied`).
    #[verifier::external_body]
    pub(crate) fn is_satisfied(&self) -> (r: bool)
        requires
            self.valid(),
        ensures
            r == rows_hold(modulus(), r1cs_constraints(*self), r1cs_instance(*self), r1cs_witness(*self)),
    {
        self.cs.is_satisfied().unwrap()
    }

    /// The number of constraints (`num_constraints`).
    #[verifier::external_body]
    pub(crate) fn num_constraints(&self) -> (r: usize)
        ensures
            r == r1cs_constraints(*self).len(),
    {
        self.cs.num_constraints()
    }

    /// The values of the instance variables (`instance_assignment`).
    #[verifier::external_body]
    pub(crate) fn instance_assignment(&self) -> (r: Vec<Fe>)
        ensures
            r@.map_values(|f: Fe| f.value()) == r1cs_instance(*self),
    {
        let cs = self.cs.borrow().unwrap();
        cs.instance_assignment.iter().map(|x| Fe { limbs: x.into_bigint().0 }).collect()
    }

    /// The values of the witness variables (`witness_assignment`).
    #[verifier::external_body]
    pub(crate) fn witness_assignment(&self) -> (r: Vec<Fe>)
        ensures
            r@.map_values(|f: Fe| f.value()) == r1cs_witness(*self),
    {
        let cs = self.cs.borrow().unwrap();
        cs.witness_assignment.iter().map(|x| Fe { limbs: x.into_bigint().0 }).collect()
    }

    /// Finalises the system (`finalize`): each linear combination is brought
    /// to its compact form, sorted by variable with the terms of a variable
    /// merged into one; its value under any assignment stays the same, and
    /// no variable is added.
    #[verifier::external_body]
    pub(crate) fn finalize(&mut self)
        ensures
            r1cs_instance(*final(self)) == r1cs_instance(*old(self)),
            r1cs_witness(*final(self)) == r1cs_witness(*old(self)),
            r1cs_num_instance(*final(self)) == r1cs_num_instance(*old(self)),
            r1cs_num_witness(*final(self)) == r1cs_num_witness(*old(self)),
            r1cs_constraints(*final(self)).len() == r1cs_constraints(*old(self)).len(),
            rows_compact(modulus(), r1cs_constraints(*final(self)), r1cs_constraints(*old(self))),
            forall|i: int, inst: Seq<nat>, wit: Seq<nat>|
                0 <= i < r1cs_constraints(*old(self)).len() ==>
                    #[trigger] lc_eval(modulus(), r1cs_constraints(*final(self))[i].0, inst, wit)
                        == lc_eval(modulus(), r1cs_constraints(*old(self))[i].0, inst, wit),
            forall|i: int, inst: Seq<nat>, wit: Seq<nat>|
                0 <= i < r1cs_constraints(*old(self)).len() ==>
                    #[trigger] lc_eval(modulus(), r1cs_constraints(*final(self))[i].1, inst, wit)
                        == lc_eval(modulus(), r1cs_constraints(*old(self))[i].1, inst, wit),
            forall|i: int, inst: Seq<nat>, wit: Seq<nat>|
                0 <= i < r1cs_constraints(*old(self)).len() ==>
                    #[trigger] lc_eval(modulus(), r1cs_constraints(*final(self))[i].2, inst, wit)
                        == lc_eval(modulus(), r1cs_constraints(*old(self))[i].2, inst, wit),
            rows_in_range(r1cs_constraints(*old(self)), r1cs_instance(*old(self)).len(), r1cs_witness(*old(self)).len())
                ==> rows_in_range(r1cs_constraints(*final(self)), r1cs_instance(*old(self)).len(), r1cs_witness(*old(self)).len()),
    {
        self.cs.finalize()
    }

    /// The A, B and C matrices (`to_matrices`): row `i` of each holds the
    /// nonzero terms of the matching linear combination of constraint `i`,
    /// each variable by its column.
    #[verifier::external_body]
    pub(crate) fn to_matrices(&self) -> (m: Matrices)
        ensures
            m.describes(r1cs_constraints(*self), r1cs_num_instance(*self), r1cs_num_witness(*self)),
    {
        let m = self.cs.to_matrices().unwrap();
        let conv = |rows: Vec<Vec<(ark_bn254::Fr, usize)>>| -> Vec<Vec<(Fe, usize)>> {
            rows.into_iter().map(|row| row.into_iter().map(|(f, i)| (Fe { limbs: f.into_bigint().0 }, i)).collect()).collect()
        };
        Matrices {
            num_instance_variables: m.num_instance_variables,
            num_witness_variables: m.num_witness_variables,
            num_constraints: m.num_constraints,
            a: conv(m.a), b: conv(m.b), c: conv(m.c),
        }
    }

    /// A fresh system that asks for no optimisation when it is finalised:
    /// no constraints, no witness, and the instance holding only the
    /// constant one.
    pub fn new_unoptimized() -> (r: R1cs)
        ensures
            r.wf(),
            r1cs_goal(r) == OptGoal::Nothing,
            r1cs_constraints(r) == Seq::<Row>::empty(),
            r1cs_instance(r) == seq![1nat],
            r1cs_witness(r) == Seq::<nat>::empty(),
            r1cs_num_instance(r) == 1,
            r1cs_num_witness(r) == 0,
    {
        let mut r = R1cs::new();
        r.set_no_optimization();
        r
    }

    /// What the system comes to: whether it is satisfied, its number of
    /// constraints, its assignment and its matrices.
    pub fn summarize(&self) -> (s: Synthesis)
        requires
            self.valid(),
        ensures
            s.satisfied == rows_hold(modulus(), r1cs_constraints(*self), r1cs_instance(*self), r1cs_witness(*self)),
            s.num_constraints == r1cs_constraints(*self).len(),
            s.public_inputs@.map_values(|f: Fe| f.value()) == r1cs_instance(*self),
            s.private_inputs@.map_values(|f: Fe| f.value()) == r1cs_witness(*self),
            s.matrices.describes(r1cs_constraints(*self), r1cs_num_instance(*self), r1cs_num_witness(*self)),
    {
        Synthesis {
            satisfied: self.is_satisfied(),
            num_constraints: self.num_constraints(),
            public_inputs: self.instance_assignment(),
            private_inputs: self.witness_assignment(),
            matrices: self.to_matrices(),
        }
    }
}

} // verus!
