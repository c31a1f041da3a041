# zk_credential

Rank-1 constraint systems over the BN254 scalar field, built with
`ark_relations` and `ark_bn254`, and three circuits synthesised into them,
with their meaning proved in Verus.

- `src/field.rs`: field elements as canonical limbs; arithmetic by `ark_bn254::Fr`.
- `src/r1cs.rs`: the constraint system (`ark_relations::r1cs::ConstraintSystemRef`),
  what its contents are, and what satisfaction means.
- `src/gadgets.rs`: bit allocation, bit packing and boolean constraints.
- `src/product.rs`: `a * b = c`.
- `src/range.rs`: `in = d + 10` with four-bit `in` and `d`, i.e. `10 <= in <= 15`.
- `src/credential.rs`, `src/credential_proof.rs`: a credential of three 32-bit
  fields, its simple XOR hash `((IV ^ issuer) ^ holder) ^ dob_year` and a
  minimum-age check; the constraints hold for the witness the circuit assigns,
  and, over any prime field larger than `2^33`, only for fields that hash to the
  public hash with `current_year >= dob_year + 20`.
- `app/`: the program that synthesises the circuits and runs Groth16 on them.

The simple XOR hash is not collision resistant; it is for teaching and
prototypes only.
