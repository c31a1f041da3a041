//! The building blocks that the circuits share: allocating the bits of a
//! value, packing bits into a value, and forcing variables to be bits.

use vstd::prelude::*;
use vstd::arithmetic::div_mod::*;
use vstd::arithmetic::mul::*;
use vstd::arithmetic::power2::*;
use vstd::bits::{lemma_u64_shl_is_mul, lemma_u64_pow2_no_overflow};
use crate::field::{Fe, modulus};
use crate::arith::{is_prime, lemma_boolean_root, minus_one, lemma_lc_sum_append, lemma_lc_sum_single};
use crate::r1cs::{
    Lc, R1cs, Row, Var, lc_eval, lc_in_range, lc_sum, r1cs_constraints, r1cs_instance,
    r1cs_witness, row_holds, rows_hold, unit_lc, var_in_range, var_value,
    lemma_rows_in_range_grow, lemma_rows_push_in_range,
};

verus! {

broadcast use Fe::lemma_value_canonical;

/// `n` consecutive witness variables from index `base` on.
pub open spec fn witness_vars(base: nat, n: nat) -> Seq<Var> {
    Seq::new(n, |i: int| Var::Witness((base + i) as usize))
}

/// `sum 2^i * vars[i]`.
pub open spec fn pack_lc(vars: Seq<Var>) -> Seq<(nat, Var)> {
    Seq::new(vars.len(), |i: int| (pow2(i as nat), vars[i]))
}

/// The constraint `(sum 2^i * vars[i]) * 1 = target`.
pub open spec fn pack_row(vars: Seq<Var>, target: Var) -> Row {
    (pack_lc(vars), unit_lc(Var::One), unit_lc(target))
}

/// The constraint `v * (v - 1) = 0`.
pub open spec fn bool_row(q: nat, v: Var) -> Row {
    (unit_lc(v), seq![(1nat, v), ((q - 1) as nat, Var::One)], Seq::<(nat, Var)>::empty())
}

/// `v * (v - 1) = 0` for each variable in turn.
pub open spec fn bool_rows(q: nat, vars: Seq<Var>) -> Seq<Row> {
    Seq::new(vars.len(), |i: int| bool_row(q, vars[i]))
}

/// Bit `i` of `x`.
pub open spec fn bit_val(x: nat, i: nat) -> nat {
    (x / pow2(i)) % 2
}

/// The `n` low bits of `x`, least significant first.
pub open spec fn bits_of(x: nat, n: nat) -> Seq<nat> {
    Seq::new(n, |i: int| bit_val(x, i as nat))
}

/// `sum 2^i * s[i]`.
pub open spec fn weighted_sum(s: Seq<nat>) -> nat
    decreases s.len(),
{
    if s.len() == 0 {
        0
    } else {
        weighted_sum(s.drop_last()) + pow2((s.len() - 1) as nat) * s.last()
    }
}

/// Whether every entry is 0 or 1.
pub open spec fn is_bits(s: Seq<nat>) -> bool {
    forall|i: int| 0 <= i < s.len() ==> #[trigger] s[i] <= 1
}

/// The values of the variables under an assignment.
pub open spec fn values_of(vars: Seq<Var>, inst: Seq<nat>, wit: Seq<nat>) -> Seq<nat> {
    vars.map_values(|v: Var| var_value(v, inst, wit))
}

/// Whether every variable is among `n_inst` instance and `n_wit` witness variables.
pub open spec fn vars_in_range(vars: Seq<Var>, n_inst: nat, n_wit: nat) -> bool {
    forall|i: int| 0 <= i < vars.len() ==> var_in_range(#[trigger] vars[i], n_inst, n_wit)
}

/// Every constraint of a concatenation holds exactly when those of both parts do.
pub proof fn lemma_rows_hold_append(q: nat, a: Seq<Row>, b: Seq<Row>, inst: Seq<nat>, wit: Seq<nat>)
    ensures
        rows_hold(q, a + b, inst, wit) <==> rows_hold(q, a, inst, wit) && rows_hold(q, b, inst, wit),
{
    if rows_hold(q, a + b, inst, wit) {
        assert forall|i: int| 0 <= i < a.len() implies #[trigger] row_holds(q, a[i], inst, wit) by {
            assert((a + b)[i] == a[i]);
            assert(row_holds(q, (a + b)[i], inst, wit));
        }
        assert forall|i: int| 0 <= i < b.len() implies #[trigger] row_holds(q, b[i], inst, wit) by {
            assert((a + b)[a.len() + i] == b[i]);
            assert(row_holds(q, (a + b)[a.len() + i], inst, wit));
        }
    }
    if rows_hold(q, a, inst, wit) && rows_hold(q, b, inst, wit) {
        assert forall|i: int| 0 <= i < (a + b).len() implies #[trigger] row_holds(q, (a + b)[i], inst, wit) by {
            if i < a.len() {
                assert(row_holds(q, a[i], inst, wit));
            } else {
                assert(row_holds(q, b[i - a.len()], inst, wit));
            }
        }
    }
}

/// A single constraint holds as a list exactly when it holds.
pub proof fn lemma_rows_hold_single(q: nat, r: Row, inst: Seq<nat>, wit: Seq<nat>)
    ensures
        rows_hold(q, seq![r], inst, wit) <==> row_holds(q, r, inst, wit),
{
    if row_holds(q, r, inst, wit) {
        assert forall|i: int| 0 <= i < 1 implies #[trigger] row_holds(q, seq![r][i], inst, wit) by {}
    }
    if rows_hold(q, seq![r], inst, wit) {
        assert(row_holds(q, seq![r][0], inst, wit));
    }
}

/// The sum of a packing combination is the weighted sum of the values packed.
pub proof fn lemma_pack_lc_sum(vars: Seq<Var>, inst: Seq<nat>, wit: Seq<nat>)
    ensures
        lc_sum(pack_lc(vars), inst, wit) == weighted_sum(values_of(vars, inst, wit)),
    decreases vars.len(),
{
    if vars.len() > 0 {
        assert(pack_lc(vars).drop_last() =~= pack_lc(vars.drop_last()));
        assert(values_of(vars, inst, wit).drop_last() =~= values_of(vars.drop_last(), inst, wit));
        lemma_pack_lc_sum(vars.drop_last(), inst, wit);
    }
}

/// `n` bits weigh less than `2^n`.
pub proof fn lemma_weighted_sum_bound(s: Seq<nat>)
    requires
        is_bits(s),
    ensures
        weighted_sum(s) < pow2(s.len()),
    decreases s.len(),
{
    if s.len() == 0 {
        lemma2_to64();
    } else {
        let n = (s.len() - 1) as nat;
        assert(is_bits(s.drop_last())) by {
            assert forall|i: int| 0 <= i < s.drop_last().len() implies #[trigger] s.drop_last()[i] <= 1 by {
                assert(s[i] <= 1);
            }
        }
        lemma_weighted_sum_bound(s.drop_last());
        lemma_pow2_unfold(s.len());
        assert(s[n as int] <= 1);
        lemma_mul_inequality(s.last() as int, 1, pow2(n) as int);
        lemma_mul_is_commutative(s.last() as int, pow2(n) as int);
    }
}

/// The `n` low bits of `x` weigh `x mod 2^n`.
pub proof fn lemma_bits_of_sum(x: nat, n: nat)
    ensures
        weighted_sum(bits_of(x, n)) == x % pow2(n),
    decreases n,
{
    if n == 0 {
        lemma2_to64();
    } else {
        let m = (n - 1) as nat;
        assert(bits_of(x, n).drop_last() =~= bits_of(x, m));
        lemma_bits_of_sum(x, m);
        lemma_pow2_unfold(n);
        lemma_pow2_pos(m);
        lemma_breakdown(x as int, pow2(m) as int, 2);
        lemma_mul_is_commutative(2, pow2(m) as int);
    }
}

/// Adding a multiple of `2^n` leaves the bits below `n` alone.
pub proof fn lemma_bit_val_add_high(y: nat, k: nat, n: nat, i: nat)
    requires
        i < n,
    ensures
        bit_val(y + pow2(n) * k, i) == bit_val(y, i),
{
    let d = (n - i) as nat;
    lemma_pow2_adds(i, d);
    lemma_pow2_unfold(d);
    lemma_pow2_pos(i);
    let j = pow2((d - 1) as nat) * k;
    assert(pow2(n) * k == (2 * j) * pow2(i)) by {
        lemma_mul_is_associative(2, pow2((d - 1) as nat) as int, k as int);
        lemma_mul_is_commutative(pow2(i) as int, pow2(d) as int);
        lemma_mul_is_associative(pow2(d) as int, pow2(i) as int, k as int);
        lemma_mul_is_commutative(pow2(i) as int, k as int);
        lemma_mul_is_associative(pow2(d) as int, k as int, pow2(i) as int);
    }
    lemma_hoist_over_denominator(y as int, (2 * j) as int, pow2(i));
    lemma_mod_multiples_vanish(j as int, (y / pow2(i)) as int, 2);
}

/// Bits are the binary expansion of their weighted sum.
pub proof fn lemma_bits_unique(s: Seq<nat>)
    requires
        is_bits(s),
    ensures
        bits_of(weighted_sum(s), s.len()) == s,
    decreases s.len(),
{
    if s.len() > 0 {
        let n = (s.len() - 1) as nat;
        let t = s.drop_last();
        let y = weighted_sum(t);
        let b = s.last();
        assert(is_bits(t)) by {
            assert forall|i: int| 0 <= i < t.len() implies #[trigger] t[i] <= 1 by {
                assert(s[i] <= 1);
            }
        }
        lemma_bits_unique(t);
        lemma_weighted_sum_bound(t);
        assert(s[n as int] <= 1);
        let x = weighted_sum(s);
        assert(x == y + pow2(n) * b);
        assert forall|i: int| 0 <= i < s.len() implies #[trigger] bits_of(x, s.len())[i] == s[i] by {
            if i < n {
                lemma_bit_val_add_high(y, b, n, i as nat);
                assert(bits_of(y, n)[i] == t[i]);
            } else {
                lemma_pow2_pos(n);
                lemma_div_multiples_vanish_fancy(b as int, y as int, pow2(n) as int);
                lemma_mul_is_commutative(b as int, pow2(n) as int);
            }
        }
        assert(bits_of(x, s.len()) =~= s);
    }
}

/// `1 * v` evaluates to the value of `v`.
pub proof fn lemma_unit_lc_eval(q: nat, v: Var, inst: Seq<nat>, wit: Seq<nat>)
    requires
        var_value(v, inst, wit) < q,
    ensures
        lc_eval(q, unit_lc(v), inst, wit) == var_value(v, inst, wit),
{
    assert(unit_lc(v).drop_last() =~= Seq::<(nat, Var)>::empty());
    assert(lc_sum(unit_lc(v).drop_last(), inst, wit) == 0);
    assert(lc_sum(unit_lc(v), inst, wit) == var_value(v, inst, wit));
    lemma_small_mod(var_value(v, inst, wit), q);
}

/// A packing constraint over bits holds exactly when the target is the
/// weighted sum of the bits, provided the field is larger than `2^n`.
pub proof fn lemma_pack_row(q: nat, vars: Seq<Var>, target: Var, inst: Seq<nat>, wit: Seq<nat>)
    requires
        is_bits(values_of(vars, inst, wit)),
        pow2(vars.len()) < q,
        var_value(target, inst, wit) < q,
    ensures
        row_holds(q, pack_row(vars, target), inst, wit)
            <==> var_value(target, inst, wit) == weighted_sum(values_of(vars, inst, wit)),
{
    lemma_pow2_pos(vars.len());
    lemma_pack_lc_sum(vars, inst, wit);
    lemma_weighted_sum_bound(values_of(vars, inst, wit));
    let ws = weighted_sum(values_of(vars, inst, wit));
    lemma_small_mod(ws, q);
    assert(ws * 1 == ws);
    lemma_unit_lc_eval(q, Var::One, inst, wit);
    lemma_unit_lc_eval(q, target, inst, wit);
}

/// A boolean constraint holds for a bit; in a prime field it holds only for a bit.
pub proof fn lemma_bool_row(q: nat, v: Var, inst: Seq<nat>, wit: Seq<nat>)
    requires
        q > 1,
        var_value(v, inst, wit) < q,
    ensures
        var_value(v, inst, wit) <= 1 ==> row_holds(q, bool_row(q, v), inst, wit),
        is_prime(q) && row_holds(q, bool_row(q, v), inst, wit) ==> var_value(v, inst, wit) <= 1,
{
    let x = var_value(v, inst, wit);
    let b: Seq<(nat, Var)> = seq![(1nat, v), ((q - 1) as nat, Var::One)];
    lemma_unit_lc_eval(q, v, inst, wit);
    assert(b =~= seq![(1nat, v)] + seq![((q - 1) as nat, Var::One)]);
    lemma_lc_sum_append(seq![(1nat, v)], seq![((q - 1) as nat, Var::One)], inst, wit);
    lemma_lc_sum_single(1nat, v, inst, wit);
    lemma_lc_sum_single((q - 1) as nat, Var::One, inst, wit);
    assert(var_value(Var::One, inst, wit) == 1);
    assert(((q - 1) as nat) * var_value(Var::One, inst, wit) == q - 1) by (nonlinear_arith)
        requires
            var_value(Var::One, inst, wit) == 1,
            q >= 1,
    ;
    assert(lc_sum(seq![(1nat, v)], inst, wit) == x);
    assert(lc_sum(b, inst, wit) == x + (q - 1));
    assert(lc_eval(q, b, inst, wit) == minus_one(q, x));
    assert(lc_sum(Seq::<(nat, Var)>::empty(), inst, wit) == 0);
    lemma_small_mod(0, q);
    if x == 0 {
        assert(x * minus_one(q, x) == 0) by (nonlinear_arith)
            requires
                x == 0,
        ;
    }
    if x == 1 {
        lemma_mod_self_0(q as int);
        assert(minus_one(q, x) == 0);
        assert(x * minus_one(q, x) == 0) by (nonlinear_arith)
            requires
                minus_one(q, x) == 0,
        ;
    }
    if is_prime(q) && row_holds(q, bool_row(q, v), inst, wit) {
        lemma_boolean_root(q, x);
    }
}

/// Boolean constraints on variables hold for bits; in a prime field they hold only for bits.
pub proof fn lemma_bool_rows(q: nat, vars: Seq<Var>, inst: Seq<nat>, wit: Seq<nat>)
    requires
        q > 1,
        forall|i: int| 0 <= i < vars.len() ==> #[trigger] var_value(vars[i], inst, wit) < q,
    ensures
        is_bits(values_of(vars, inst, wit)) ==> rows_hold(q, bool_rows(q, vars), inst, wit),
        is_prime(q) && rows_hold(q, bool_rows(q, vars), inst, wit) ==> is_bits(values_of(vars, inst, wit)),
{
    if is_bits(values_of(vars, inst, wit)) {
        assert forall|i: int| 0 <= i < bool_rows(q, vars).len() implies
            #[trigger] row_holds(q, bool_rows(q, vars)[i], inst, wit) by {
            assert(values_of(vars, inst, wit)[i] <= 1);
            lemma_bool_row(q, vars[i], inst, wit);
        }
    }
    if is_prime(q) && rows_hold(q, bool_rows(q, vars), inst, wit) {
        assert forall|i: int| 0 <= i < values_of(vars, inst, wit).len() implies
            #[trigger] values_of(vars, inst, wit)[i] <= 1 by {
            assert(row_holds(q, bool_rows(q, vars)[i], inst, wit));
            lemma_bool_row(q, vars[i], inst, wit);
        }
    }
}

/// Bit `i` of `x` as a field element (`F::from(x.into_bigint().get_bit(i) as u64)`).
pub(crate) fn bit_of(x: &Fe, i: usize) -> (r: Fe)
    ensures
        r.value() == bit_val(x.value(), i as nat),
{
    let b = x.get_bit(i);
    let r = Fe::from_u64(if b { 1 } else { 0 });
    proof {
        lemma_mod_bound((x.value() / pow2(i as nat)) as int, 2);
    }
    r
}

/// The field element `2^i` (`F::from(1u64 << i)`).
pub(crate) fn pow2_fe(i: usize) -> (r: Fe)
    requires
        i < 64,
    ensures
        r.value() == pow2(i as nat),
{
    proof {
        lemma_u64_pow2_no_overflow(i as nat);
        lemma_u64_shl_is_mul(1u64, i as u64);
    }
    Fe::from_u64(1u64 << (i as u64))
}

/// Allocates the `n` low bits of `x` as fresh witness variables.
pub(crate) fn alloc_bits(cs: &mut R1cs, x: &Fe, n: usize) -> (vars: Vec<Var>)
    requires
        old(cs).wf(),
    ensures
        final(cs).wf(),
        vars@ == witness_vars(r1cs_witness(*old(cs)).len(), n as nat),
        r1cs_witness(*final(cs)) == r1cs_witness(*old(cs)) + bits_of(x.value(), n as nat),
        r1cs_instance(*final(cs)) == r1cs_instance(*old(cs)),
        r1cs_constraints(*final(cs)) == r1cs_constraints(*old(cs)),
{
    let ghost w0 = r1cs_witness(*cs);
    let ghost n_inst = r1cs_instance(*cs).len();
    let mut vars: Vec<Var> = Vec::new();
    let mut i: usize = 0;
    while i < n
        invariant
            i <= n,
            cs.wf(),
            vars@ == witness_vars(w0.len(), i as nat),
            r1cs_witness(*cs) == w0 + bits_of(x.value(), i as nat),
            r1cs_instance(*cs) == r1cs_instance(*old(cs)),
            r1cs_constraints(*cs) == r1cs_constraints(*old(cs)),
            n_inst == r1cs_instance(*cs).len(),
        decreases n - i,
    {
        let b = bit_of(x, i);
        let ghost before = *cs;
        let v = match cs.new_witness(Some(b)) {
            Ok(v) => v,
            Err(_) => unreached(),
        };
        proof {
            lemma_rows_in_range_grow(r1cs_constraints(*cs), n_inst, r1cs_witness(before).len(),
                n_inst, r1cs_witness(*cs).len());
            assert(bits_of(x.value(), (i + 1) as nat) =~= bits_of(x.value(), i as nat).push(bit_val(x.value(), i as nat)));
            assert(r1cs_witness(*cs) =~= w0 + bits_of(x.value(), (i + 1) as nat));
        }
        vars.push(v);
        i = i + 1;
        proof {
            assert(vars@ =~= witness_vars(w0.len(), i as nat));
        }
    }
    vars
}

/// Enforces `(sum 2^i * vars[i]) * 1 = target`.
pub(crate) fn enforce_pack(cs: &mut R1cs, vars: &Vec<Var>, target: Var)
    requires
        old(cs).wf(),
        vars.len() <= 64,
        vars_in_range(vars@, r1cs_instance(*old(cs)).len(), r1cs_witness(*old(cs)).len()),
        var_in_range(target, r1cs_instance(*old(cs)).len(), r1cs_witness(*old(cs)).len()),
    ensures
        final(cs).wf(),
        r1cs_constraints(*final(cs)) == r1cs_constraints(*old(cs)).push(pack_row(vars@, target)),
        r1cs_instance(*final(cs)) == r1cs_instance(*old(cs)),
        r1cs_witness(*final(cs)) == r1cs_witness(*old(cs)),
{
    let ghost n_inst = r1cs_instance(*cs).len();
    let ghost n_wit = r1cs_witness(*cs).len();
    let mut la = Lc::new();
    let mut i: usize = 0;
    while i < vars.len()
        invariant
            i <= vars.len(),
            vars.len() <= 64,
            la@ == pack_lc(vars@.take(i as int)),
        decreases vars.len() - i,
    {
        let c = pow2_fe(i);
        la.add_term(c, vars[i]);
        i = i + 1;
        proof {
            assert(la@ =~= pack_lc(vars@.take(i as int)));
        }
    }
    assert(vars@.take(vars.len() as int) =~= vars@);
    let mut lb = Lc::new();
    lb.add_term(Fe::from_u64(1), Var::One);
    let mut lc = Lc::new();
    lc.add_term(Fe::from_u64(1), target);
    proof {
        let row = pack_row(vars@, target);
        assert(lc_in_range(row.0, n_inst, n_wit)) by {
            assert forall|k: int| 0 <= k < row.0.len() implies var_in_range(#[trigger] row.0[k].1, n_inst, n_wit) by {
                assert(var_in_range(vars@[k], n_inst, n_wit));
            }
        }
        assert(lc_in_range(row.1, n_inst, n_wit));
        assert(lc_in_range(row.2, n_inst, n_wit));
        lemma_rows_push_in_range(r1cs_constraints(*cs), row, n_inst, n_wit);
    }
    cs.enforce(la, lb, lc);
}

/// Enforces `a * b = c` on linear combinations of allocated variables.
pub(crate) fn enforce_in_range(cs: &mut R1cs, a: Lc, b: Lc, c: Lc)
    requires
        old(cs).wf(),
        lc_in_range(a@, r1cs_instance(*old(cs)).len(), r1cs_witness(*old(cs)).len()),
        lc_in_range(b@, r1cs_instance(*old(cs)).len(), r1cs_witness(*old(cs)).len()),
        lc_in_range(c@, r1cs_instance(*old(cs)).len(), r1cs_witness(*old(cs)).len()),
    ensures
        final(cs).wf(),
        r1cs_constraints(*final(cs)) == r1cs_constraints(*old(cs)).push((a@, b@, c@)),
        r1cs_instance(*final(cs)) == r1cs_instance(*old(cs)),
        r1cs_witness(*final(cs)) == r1cs_witness(*old(cs)),
{
    proof {
        lemma_rows_push_in_range(r1cs_constraints(*cs), (a@, b@, c@), r1cs_instance(*cs).len(), r1cs_witness(*cs).len());
    }
    cs.enforce(a, b, c);
}

/// Enforces `v * (v - 1) = 0` for each of the variables in turn.
pub(crate) fn enforce_booleans(cs: &mut R1cs, vars: &Vec<Var>)
    requires
        old(cs).wf(),
        vars_in_range(vars@, r1cs_instance(*old(cs)).len(), r1cs_witness(*old(cs)).len()),
    ensures
        final(cs).wf(),
        r1cs_constraints(*final(cs)) == r1cs_constraints(*old(cs)) + bool_rows(modulus(), vars@),
        r1cs_instance(*final(cs)) == r1cs_instance(*old(cs)),
        r1cs_witness(*final(cs)) == r1cs_witness(*old(cs)),
{
    let ghost n_inst = r1cs_instance(*cs).len();
    let ghost n_wit = r1cs_witness(*cs).len();
    let ghost rows0 = r1cs_constraints(*cs);
    let mut i: usize = 0;
    while i < vars.len()
        invariant
            i <= vars.len(),
            cs.wf(),
            vars_in_range(vars@, n_inst, n_wit),
            r1cs_instance(*cs).len() == n_inst,
            r1cs_witness(*cs).len() == n_wit,
            r1cs_instance(*cs) == r1cs_instance(*old(cs)),
            r1cs_witness(*cs) == r1cs_witness(*old(cs)),
            r1cs_constraints(*cs) == rows0 + bool_rows(modulus(), vars@.take(i as int)),
        decreases vars.len() - i,
    {
        let v = vars[i];
        let mut la = Lc::new();
        la.add_term(Fe::from_u64(1), v);
        let mut lb = Lc::new();
        lb.add_term(Fe::from_u64(1), v);
        let minus = Fe::from_u64(1).neg();
        proof {
            lemma_small_mod((modulus() - 1) as nat, modulus());
        }
        lb.add_term(minus, Var::One);
        let lc = Lc::new();
        proof {
            let row = (la@, lb@, lc@);
            assert(var_in_range(vars@[i as int], n_inst, n_wit));
            assert(lc_in_range(row.0, n_inst, n_wit));
            assert(lc_in_range(row.1, n_inst, n_wit));
            assert(lc_in_range(row.2, n_inst, n_wit));
            lemma_rows_push_in_range(r1cs_constraints(*cs), row, n_inst, n_wit);
            assert(row == bool_row(modulus(), v));
        }
        cs.enforce(la, lb, lc);
        i = i + 1;
        proof {
            assert(bool_rows(modulus(), vars@.take(i as int)) =~= bool_rows(modulus(), vars@.take((i - 1) as int)).push(bool_row(modulus(), v)));
            assert(r1cs_constraints(*cs) =~= rows0 + bool_rows(modulus(), vars@.take(i as int)));
        }
    }
    assert(vars@.take(vars.len() as int) =~= vars@);
}

/// The values of consecutive witness variables are a slice of the witness.
pub proof fn lemma_values_of_witness_vars(base: nat, n: nat, inst: Seq<nat>, wit: Seq<nat>)
    requires
        base + n <= wit.len(),
        wit.len() <= usize::MAX,
    ensures
        values_of(witness_vars(base, n), inst, wit) == wit.subrange(base as int, (base + n) as int),
{
    assert(values_of(witness_vars(base, n), inst, wit) =~= wit.subrange(base as int, (base + n) as int));
}

/// The low bits of a number are bits.
pub proof fn lemma_bits_of_is_bits(x: nat, n: nat)
    ensures
        is_bits(bits_of(x, n)),
{
    assert forall|i: int| 0 <= i < n implies #[trigger] bits_of(x, n)[i] <= 1 by {
        lemma_mod_bound((x / pow2(i as nat)) as int, 2);
    }
}

/// A number below `2^n` is the weighted sum of its `n` low bits.
pub proof fn lemma_bits_of_small(x: nat, n: nat)
    requires
        x < pow2(n),
    ensures
        weighted_sum(bits_of(x, n)) == x,
        is_bits(bits_of(x, n)),
{
    lemma_bits_of_sum(x, n);
    lemma_small_mod(x, pow2(n));
    lemma_bits_of_is_bits(x, n);
}

} // verus!
