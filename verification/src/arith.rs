//! Facts of integer arithmetic that the circuits' proofs rest on: sums of
//! linear combinations, prime moduli, and binary expansions.

use vstd::prelude::*;
use vstd::arithmetic::div_mod::*;
use vstd::arithmetic::mul::*;
use vstd::arithmetic::power2::*;
use crate::r1cs::{Var, lc_sum, var_value};

verus! {

/// Whether `q` is a prime number.
pub open spec fn is_prime(q: nat) -> bool {
    &&& q > 1
    &&& forall|d: nat| 1 < d < q ==> #[trigger] (q % d) != 0
}

/// In a prime field, a product of two nonzero elements is nonzero.
pub proof fn lemma_no_zero_divisors(q: nat, a: nat, b: nat)
    requires
        is_prime(q),
        0 < a < q,
        0 < b < q,
    ensures
        (a * b) % q != 0,
    decreases a,
{
    if a == 1 {
        lemma_small_mod(b, q);
    } else {
        let r = q % a;
        let k = q / a;
        assert(q % a != 0);
        lemma_fundamental_div_mod(q as int, a as int);
        lemma_mod_bound(q as int, a as int);
        lemma_no_zero_divisors(q, r, b);
        if (a * b) % q == 0 {
            let m = (a * b) / q;
            lemma_fundamental_div_mod((a * b) as int, q as int);
            assert(r * b == q * (b - k * m)) by (nonlinear_arith)
                requires
                    q == a * k + r,
                    a * b == q * m,
            ;
            assert(b - k * m >= 0) by (nonlinear_arith)
                requires
                    r * b == q * (b - k * m),
                    q > 0,
                    r * b >= 0,
            ;
            lemma_mod_multiples_basic(b - k * m, q as int);
            lemma_mul_is_commutative(b - k * m, q as int);
        }
    }
}

/// The value of `x - 1` in the field of order `q`.
pub open spec fn minus_one(q: nat, x: nat) -> nat {
    (x + (q - 1)) as nat % q
}

/// In a prime field, `x * (x - 1) = 0` only for `x` zero or one.
pub proof fn lemma_boolean_root(q: nat, x: nat)
    requires
        is_prime(q),
        x < q,
        (x * minus_one(q, x)) % q == 0,
    ensures
        x == 0 || x == 1,
{
    if x != 0 && x != 1 {
        lemma_mod_self_0(q as int);
        assert(minus_one(q, x) == x - 1) by {
            lemma_mod_add_multiples_vanish((x - 1) as int, q as int);
            lemma_small_mod((x - 1) as nat, q);
        }
        lemma_no_zero_divisors(q, x, (x - 1) as nat);
    }
}

/// The sum of a concatenation of linear combinations is the sum of the sums.
pub proof fn lemma_lc_sum_append(a: Seq<(nat, Var)>, b: Seq<(nat, Var)>, inst: Seq<nat>, wit: Seq<nat>)
    ensures
        lc_sum(a + b, inst, wit) == lc_sum(a, inst, wit) + lc_sum(b, inst, wit),
    decreases b.len(),
{
    if b.len() == 0 {
        assert(a + b =~= a);
    } else {
        assert((a + b).drop_last() =~= a + b.drop_last());
        lemma_lc_sum_append(a, b.drop_last(), inst, wit);
    }
}

/// The sum of a one-term linear combination.
pub proof fn lemma_lc_sum_single(c: nat, v: Var, inst: Seq<nat>, wit: Seq<nat>)
    ensures
        lc_sum(seq![(c, v)], inst, wit) == c * var_value(v, inst, wit),
{
    assert(seq![(c, v)].drop_last() =~= Seq::<(nat, Var)>::empty());
    assert(lc_sum(Seq::<(nat, Var)>::empty(), inst, wit) == 0);
}

/// The sum of a linear combination with one more term.
pub proof fn lemma_lc_sum_push(s: Seq<(nat, Var)>, c: nat, v: Var, inst: Seq<nat>, wit: Seq<nat>)
    ensures
        lc_sum(s.push((c, v)), inst, wit) == lc_sum(s, inst, wit) + c * var_value(v, inst, wit),
{
    assert(s.push((c, v)).drop_last() =~= s);
}

} // verus!
