//! Elements of the BN254 scalar field, held as canonical little-endian limbs.
//! The arithmetic itself is done by `ark_bn254::Fr`.

use vstd::prelude::*;
use vstd::arithmetic::power2::pow2;
use vstd::arithmetic::div_mod::lemma_small_mod;
use ark_ff::{BigInt, BigInteger, PrimeField};

verus! {

/// The order of the BN254 scalar field.
pub open spec fn modulus() -> nat {
    21888242871839275222246405745257275088548364400416034343698204186575808495617nat
}

/// The integer that four little-endian 64-bit limbs stand for.
pub open spec fn limbs_value(l: [u64; 4]) -> nat {
    l[0] as nat + l[1] as nat * 0x1_0000_0000_0000_0000nat
        + l[2] as nat * 0x1_0000_0000_0000_0000_0000_0000_0000_0000nat
        + l[3] as nat * 0x1_0000_0000_0000_0000_0000_0000_0000_0000_0000_0000_0000_0000nat
}

/// A field element, kept as its canonical representative in `[0, modulus())`.
#[derive(Clone, Copy, Debug)]
pub struct Fe {
    pub(crate) limbs: [u64; 4],
}

impl Fe {
    /// The element's representative in `[0, modulus())`; since the limbs are
    /// kept canonical, this is the integer that the limbs stand for.
    pub closed spec fn value(self) -> nat {
        limbs_value(self.limbs) % modulus()
    }

    /// Every element lies in `[0, modulus())`.
    pub broadcast proof fn lemma_value_canonical(self)
        ensures
            #[trigger] self.value() < modulus(),
    {
    }

    #[verifier::type_invariant]
    closed spec fn canonical(self) -> bool {
        limbs_value(self.limbs) < modulus()
    }

    /// The canonical little-endian limbs of the element.
    pub fn limbs(&self) -> (r: [u64; 4])
        ensures
            limbs_value(r) == self.value(),
    {
        proof {
            use_type_invariant(self);
        }
        self.limbs
    }

    /// The element `x`, as `Fp::from(u64)` makes it: a 64-bit number is
    /// below the modulus, so its limbs are `[x, 0, 0, 0]`.
    pub fn from_u64(x: u64) -> (r: Fe)
        ensures
            r.value() == x as nat,
    {
        let r = Fe { limbs: [x, 0, 0, 0] };
        proof {
            assert(limbs_value(r.limbs) == x as nat);
            lemma_small_mod(x as nat, modulus());
        }
        r
    }

    /// Field addition (`Add` of `ark_bn254::Fr`).
    #[verifier::external_body]
    pub(crate) fn add(&self, other: &Fe) -> (r: Fe)
        ensures
            r.value() == (self.value() + other.value()) % modulus(),
    {
        let a = ark_bn254::Fr::from_bigint(BigInt::new(self.limbs)).unwrap();
        let b = ark_bn254::Fr::from_bigint(BigInt::new(other.limbs)).unwrap();
        Fe { limbs: (a + b).into_bigint().0 }
    }

    /// Field subtraction (`Sub` of `ark_bn254::Fr`).
    #[verifier::external_body]
    pub(crate) fn sub(&self, other: &Fe) -> (r: Fe)
        ensures
            r.value() == (self.value() + modulus() - other.value()) as nat % modulus(),
    {
        let a = ark_bn254::Fr::from_bigint(BigInt::new(self.limbs)).unwrap();
        let b = ark_bn254::Fr::from_bigint(BigInt::new(other.limbs)).unwrap();
        Fe { limbs: (a - b).into_bigint().0 }
    }

    /// Field multiplication (`Mul` of `ark_bn254::Fr`).
    #[verifier::external_body]
    pub(crate) fn mul(&self, other: &Fe) -> (r: Fe)
        ensures
            r.value() == (self.value() * other.value()) % modulus(),
    {
        let a = ark_bn254::Fr::from_bigint(BigInt::new(self.limbs)).unwrap();
        let b = ark_bn254::Fr::from_bigint(BigInt::new(other.limbs)).unwrap();
        Fe { limbs: (a * b).into_bigint().0 }
    }

    /// Additive inverse (`Neg` of `ark_bn254::Fr`).
    #[verifier::external_body]
    pub(crate) fn neg(&self) -> (r: Fe)
        ensures
            r.value() == (modulus() - self.value()) as nat % modulus(),
    {
        let a = ark_bn254::Fr::from_bigint(BigInt::new(self.limbs)).unwrap();
        Fe { limbs: (-a).into_bigint().0 }
    }

    /// Bit `i` of the canonical representative (`BigInteger::get_bit`).
    #[verifier::external_body]
    pub(crate) fn get_bit(&self, i: usize) -> (b: bool)
        ensures
            b == ((self.value() / pow2(i as nat)) % 2 == 1),
    {
        BigInt::new(self.limbs).get_bit(i)
    }
}

} // verus!
