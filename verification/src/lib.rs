//! Rank-1 constraint systems over the BN254 scalar field, and the circuits
//! that are synthesised into them: a product circuit, a "greater than ten"
//! range circuit, and a credential circuit that checks a simple XOR hash of
//! three 32-bit fields together with a minimum-age condition.

pub mod field;
pub mod r1cs;
pub mod arith;
pub mod product;
pub mod gadgets;
pub mod range;
pub mod credential;
pub mod credential_proof;
