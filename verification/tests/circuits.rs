use zk_credential::credential::{
    age_margin, name_code, synthesize_credential, xor_hash_offchain, XorAgeCheckCircuit, IV, MIN_AGE,
};
use zk_credential::field::Fe;
use zk_credential::product::{synthesize_product, MyCircuit};
use zk_credential::r1cs::{R1cs, Synthesis, SynthesisError};
use zk_credential::range::{synthesize_greater_than, GreaterThanTenCircuit};

const MINUS_ONE: [u64; 4] = [
    4891460686036598784,
    2896914383306846353,
    13281191951274694749,
    3486998266802970665,
];

fn values(v: &[Fe]) -> Vec<[u64; 4]> {
    v.iter().map(|f| f.limbs()).collect()
}

fn small(x: u64) -> [u64; 4] {
    [x, 0, 0, 0]
}

fn row(r: &[(Fe, usize)]) -> Vec<([u64; 4], usize)> {
    r.iter().map(|(f, i)| (f.limbs(), *i)).collect()
}

fn credential(hash: u32, year: u64, issuer: u32, holder: u32, dob: u32, diff: u64) -> Synthesis {
    synthesize_credential(hash, year, issuer, holder, dob, diff).summarize()
}

#[test]
fn product_circuit_is_satisfied_by_a_times_b() {
    let s = synthesize_product(Fe::from_u64(5), Fe::from_u64(7)).summarize();
    assert!(s.satisfied);
    assert_eq!(s.num_constraints, 1);
    assert_eq!(values(&s.public_inputs), vec![small(1), small(35)]);
    assert_eq!(values(&s.private_inputs), vec![small(5), small(7)]);
}

#[test]
fn product_circuit_matrices() {
    let m = synthesize_product(Fe::from_u64(5), Fe::from_u64(7)).summarize().matrices;
    assert_eq!(m.num_instance_variables, 2);
    assert_eq!(m.num_witness_variables, 2);
    assert_eq!(m.num_constraints, 1);
    assert_eq!(row(&m.a[0]), vec![(small(1), 2)]);
    assert_eq!(row(&m.b[0]), vec![(small(1), 3)]);
    assert_eq!(row(&m.c[0]), vec![(small(1), 1)]);
}

#[test]
fn product_circuit_in_the_field() {
    let big = Fe::from_u64(u64::MAX);
    let s = synthesize_product(big, big).summarize();
    assert!(s.satisfied);
    assert_eq!(values(&s.public_inputs)[1], [1, u64::MAX - 1, 0, 0]);
}

#[test]
fn product_circuit_missing_factor() {
    let mut cs = R1cs::new_unoptimized();
    let r = MyCircuit { a: None, b: Some(Fe::from_u64(7)) }.generate_constraints(&mut cs);
    assert_eq!(r, Err(SynthesisError::AssignmentMissing));
    let s = cs.summarize();
    assert_eq!(s.private_inputs.len(), 0);
    assert_eq!(s.num_constraints, 0);
    // the witness variable of `a` was allocated before its value failed
    assert_eq!(s.matrices.num_witness_variables, 1);
    assert_eq!(s.matrices.num_instance_variables, 1);

    let mut cs = R1cs::new_unoptimized();
    let r = MyCircuit { a: Some(Fe::from_u64(5)), b: None }.generate_constraints(&mut cs);
    assert_eq!(r, Err(SynthesisError::AssignmentMissing));
    let s = cs.summarize();
    assert_eq!(values(&s.private_inputs), vec![small(5)]);
    assert_eq!(values(&s.public_inputs), vec![small(1)]);
    assert_eq!(s.num_constraints, 0);
    assert_eq!(s.matrices.num_witness_variables, 2);
    assert_eq!(s.matrices.num_instance_variables, 1);
    assert!(s.satisfied);
}

#[test]
fn product_circuit_on_a_used_system() {
    let mut cs = R1cs::new_unoptimized();
    assert_eq!(MyCircuit { a: Some(Fe::from_u64(2)), b: Some(Fe::from_u64(3)) }.generate_constraints(&mut cs), Ok(()));
    assert_eq!(MyCircuit { a: Some(Fe::from_u64(4)), b: Some(Fe::from_u64(5)) }.generate_constraints(&mut cs), Ok(()));
    let s = cs.summarize();
    assert!(s.satisfied);
    assert_eq!(values(&s.public_inputs), vec![small(1), small(6), small(20)]);
    assert_eq!(values(&s.private_inputs), vec![small(2), small(3), small(4), small(5)]);
    assert_eq!(row(&s.matrices.a[1]), vec![(small(1), 5)]);
    assert_eq!(row(&s.matrices.c[1]), vec![(small(1), 2)]);
}

#[test]
fn greater_than_ten_accepts_ten_to_fifteen() {
    for x in 10..=15u64 {
        let s = synthesize_greater_than(Fe::from_u64(x), Fe::from_u64(x - 10)).summarize();
        assert!(s.satisfied, "in = {}", x);
        assert_eq!(s.num_constraints, 11);
        assert_eq!(s.private_inputs.len(), 10);
        assert_eq!(s.public_inputs.len(), 1);
    }
}

#[test]
fn greater_than_ten_witness_layout() {
    let s = synthesize_greater_than(Fe::from_u64(15), Fe::from_u64(5)).summarize();
    assert_eq!(
        values(&s.private_inputs),
        vec![small(15), small(5), small(1), small(0), small(1), small(0), small(1), small(1), small(1), small(1)]
    );
}

#[test]
fn greater_than_ten_matrices() {
    let m = synthesize_greater_than(Fe::from_u64(15), Fe::from_u64(5)).summarize().matrices;
    // (d + 10) * 1 = in: witness columns follow the one instance column,
    // and finalising sorts each row by variable.
    assert_eq!(row(&m.a[0]), vec![(small(10), 0), (small(1), 2)]);
    assert_eq!(row(&m.c[0]), vec![(small(1), 1)]);
    // d = d0 + 2 d1 + 4 d2 + 8 d3
    assert_eq!(row(&m.a[1]), vec![(small(1), 3), (small(2), 4), (small(4), 5), (small(8), 6)]);
    // d0 * (d0 - 1) = 0
    assert_eq!(row(&m.a[2]), vec![(small(1), 3)]);
    assert_eq!(row(&m.b[2]), vec![(MINUS_ONE, 0), (small(1), 3)]);
    assert_eq!(row(&m.c[2]), vec![]);
}

#[test]
fn greater_than_ten_rejects_out_of_range() {
    assert!(!synthesize_greater_than(Fe::from_u64(9), Fe::from_u64(0)).summarize().satisfied);
    assert!(!synthesize_greater_than(Fe::from_u64(16), Fe::from_u64(6)).summarize().satisfied);
    assert!(!synthesize_greater_than(Fe::from_u64(14), Fe::from_u64(5)).summarize().satisfied);
    assert!(!synthesize_greater_than(Fe::from_u64(0), Fe::from_u64(0)).summarize().satisfied);
}

#[test]
fn greater_than_ten_missing_value() {
    let mut cs = R1cs::new_unoptimized();
    let r = GreaterThanTenCircuit { in_: Some(Fe::from_u64(15)), d: None }.generate_constraints(&mut cs);
    assert_eq!(r, Err(SynthesisError::AssignmentMissing));
    let s = cs.summarize();
    assert_eq!(values(&s.private_inputs), vec![small(15)]);
    assert_eq!(s.num_constraints, 0);
    assert_eq!(s.matrices.num_witness_variables, 2);
    let mut cs = R1cs::new_unoptimized();
    let r = GreaterThanTenCircuit { in_: None, d: Some(Fe::from_u64(5)) }.generate_constraints(&mut cs);
    assert_eq!(r, Err(SynthesisError::AssignmentMissing));
    let s = cs.summarize();
    assert_eq!(s.private_inputs.len(), 0);
    assert_eq!(s.matrices.num_witness_variables, 1);
    assert_eq!(s.matrices.num_instance_variables, 1);
}

#[test]
fn xor_hash_values() {
    assert_eq!(IV, 0xA5A5A5A5);
    assert_eq!(xor_hash_offchain(0, 0, 0), 0xA5A5A5A5);
    assert_eq!(xor_hash_offchain(1, 0x696F6843, 2007), 0xCCCACA30);
    assert_eq!(xor_hash_offchain(1, 0x696F6843, 2000), 0xCCCACA37);
}

#[test]
fn xor_hash_has_collisions() {
    assert_eq!(xor_hash_offchain(1, 2, 3), xor_hash_offchain(2, 1, 3));
    assert_eq!(xor_hash_offchain(5, 0, 0), xor_hash_offchain(0, 0, 5));
    assert_eq!(xor_hash_offchain(7, 9, 11), xor_hash_offchain(7 ^ 6, 9 ^ 6, 11));
}

#[test]
fn name_code_is_little_endian() {
    assert_eq!(name_code(b"ChoiWonHyeok"), 0x696F6843);
    assert_eq!(name_code(&[1, 0, 0, 0]), 1);
    assert_eq!(name_code(&[0, 0, 0, 0x80]), 0x8000_0000);
    assert_eq!(name_code(&[0xff, 0xff, 0xff, 0xff, 7]), u32::MAX);
}

#[test]
fn age_margin_values() {
    assert_eq!(MIN_AGE, 20);
    assert_eq!(age_margin(2026, 2000), (26, 6));
    assert_eq!(age_margin(2026, 2006), (20, 0));
    assert_eq!(age_margin(2026, 2007), (19, u64::MAX));
    assert_eq!(age_margin(2000, 2026), (u64::MAX - 25, u64::MAX - 45));
}

#[test]
fn credential_circuit_accepts_an_adult() {
    let holder = name_code(b"ChoiWonHyeok");
    let hash = xor_hash_offchain(1, holder, 2000);
    let s = credential(hash, 2026, 1, holder, 2000, 6);
    assert!(s.satisfied);
    assert_eq!(s.num_constraints, 173);
    assert_eq!(s.private_inputs.len(), 171);
    assert_eq!(values(&s.public_inputs), vec![small(1), small(hash as u64), small(2026)]);
    let w = values(&s.private_inputs);
    assert_eq!(w[0], small(1));
    assert_eq!(w[1], small(holder as u64));
    assert_eq!(w[2], small(2000));
    assert_eq!(w[163], small(6));
    // the bits of the issuer, then of the holder
    assert_eq!(w[3], small(1));
    assert_eq!(w[4], small(0));
    assert_eq!(w[35], small(1));
    assert_eq!(w[36], small(1));
    // the bits of the margin
    assert_eq!(w[164..171].to_vec(), vec![small(0), small(1), small(1), small(0), small(0), small(0), small(0)]);
}

#[test]
fn credential_circuit_and_gates() {
    // holder and year of birth all ones: m2[i] is bit i of IV ^ issuer,
    // and m3[i] its complement.
    let issuer = 1u32;
    let hash = xor_hash_offchain(issuer, u32::MAX, u32::MAX);
    let s = credential(hash, u32::MAX as u64 + 20, issuer, u32::MAX, u32::MAX, 0);
    assert!(s.satisfied);
    let w = values(&s.private_inputs);
    let z1 = IV ^ issuer;
    for i in 0..32 {
        let b = ((z1 >> i) & 1) as u64;
        assert_eq!(w[99 + i], small(b), "m2[{}]", i);
        assert_eq!(w[131 + i], small(1 - b), "m3[{}]", i);
    }
}

#[test]
fn credential_circuit_accepts_margin_up_to_127() {
    let hash = xor_hash_offchain(7, 8, 1900);
    assert!(credential(hash, 1900 + 20 + 127, 7, 8, 1900, 127).satisfied);
    assert!(!credential(hash, 1900 + 20 + 128, 7, 8, 1900, 128).satisfied);
}

#[test]
fn credential_circuit_rejects_a_minor() {
    let holder = name_code(b"ChoiWonHyeok");
    let hash = xor_hash_offchain(1, holder, 2007);
    let (age, diff) = age_margin(2026, 2007);
    assert_eq!(age, 19);
    let s = credential(hash, 2026, 1, holder, 2007, diff);
    assert_eq!(s.num_constraints, 173);
    assert!(!s.satisfied);
}

#[test]
fn credential_circuit_rejects_a_wrong_hash_or_year() {
    let hash = xor_hash_offchain(1, 2, 2000);
    assert!(!credential(hash ^ 1, 2026, 1, 2, 2000, 6).satisfied);
    assert!(!credential(hash, 2026, 1, 3, 2000, 6).satisfied);
    assert!(!credential(hash, 2027, 1, 2, 2000, 6).satisfied);
}

#[test]
fn credential_circuit_missing_margin() {
    let mut cs = R1cs::new_unoptimized();
    let c = XorAgeCheckCircuit {
        xor_hash: Some(Fe::from_u64(xor_hash_offchain(1, 2, 3) as u64)),
        current_year: Some(Fe::from_u64(2026)),
        issuer_id: Some(Fe::from_u64(1)),
        holder_name: Some(Fe::from_u64(2)),
        dob_year: Some(Fe::from_u64(3)),
        diff: None,
    };
    assert_eq!(c.generate_constraints(&mut cs), Err(SynthesisError::AssignmentMissing));
    let s = cs.summarize();
    assert_eq!(s.num_constraints, 164);
    assert_eq!(s.private_inputs.len(), 163);
    assert_eq!(s.public_inputs.len(), 3);
    assert_eq!(s.matrices.num_witness_variables, 164);
    assert_eq!(s.matrices.num_instance_variables, 3);
    assert!(s.satisfied);
}

#[test]
fn credential_circuit_missing_values() {
    let full = || XorAgeCheckCircuit {
        xor_hash: Some(Fe::from_u64(9)),
        current_year: Some(Fe::from_u64(2026)),
        issuer_id: Some(Fe::from_u64(1)),
        holder_name: Some(Fe::from_u64(2)),
        dob_year: Some(Fe::from_u64(3)),
        diff: Some(Fe::from_u64(3)),
    };
    // the values assigned, and the variables allocated: the one whose
    // value is missing counts among the latter
    let cases: Vec<(XorAgeCheckCircuit, usize, usize, usize, usize)> = vec![
        (XorAgeCheckCircuit { xor_hash: None, ..full() }, 1, 0, 2, 0),
        (XorAgeCheckCircuit { current_year: None, ..full() }, 2, 0, 3, 0),
        (XorAgeCheckCircuit { issuer_id: None, ..full() }, 3, 0, 3, 1),
        (XorAgeCheckCircuit { holder_name: None, ..full() }, 3, 1, 3, 2),
        (XorAgeCheckCircuit { dob_year: None, ..full() }, 3, 2, 3, 3),
    ];
    for (c, n_inst, n_wit, alloc_inst, alloc_wit) in cases {
        let mut cs = R1cs::new_unoptimized();
        assert_eq!(c.generate_constraints(&mut cs), Err(SynthesisError::AssignmentMissing));
        let s = cs.summarize();
        assert_eq!(s.public_inputs.len(), n_inst);
        assert_eq!(s.private_inputs.len(), n_wit);
        assert_eq!(s.num_constraints, 0);
        assert_eq!(s.matrices.num_instance_variables, alloc_inst);
        assert_eq!(s.matrices.num_witness_variables, alloc_wit);
    }
}

#[test]
fn credential_rows_are_compact_after_finalising() {
    let hash = xor_hash_offchain(1, 2, 2000);
    let m = credential(hash, 2026, 1, 2, 2000, 6).matrices;
    for rows in [&m.a, &m.b, &m.c] {
        for r in rows.iter() {
            for k in 1..r.len() {
                assert!(r[k - 1].1 < r[k].1, "columns in order, each once");
            }
        }
    }
    // the hash row: its constant terms merged into one entry on column 0,
    // then the bits and gate outputs of the fields in column order
    let h = &m.a[163];
    assert_eq!(h.iter().filter(|(_, i)| *i == 0).count(), 1);
    assert_eq!(h[0].1, 0);
    assert_eq!(h.len(), 1 + 32 * 5);
    assert_eq!(row(&m.c[163]), vec![(small(1), 1)]);
}

#[test]
fn circuits_clone() {
    let c = MyCircuit { a: Some(Fe::from_u64(2)), b: None };
    let mut cs = R1cs::new_unoptimized();
    assert_eq!(c.clone().generate_constraints(&mut cs), Err(SynthesisError::AssignmentMissing));
    let mut cs = R1cs::new_unoptimized();
    assert_eq!(c.generate_constraints(&mut cs), Err(SynthesisError::AssignmentMissing));
    let g = GreaterThanTenCircuit { in_: Some(Fe::from_u64(12)), d: Some(Fe::from_u64(2)) };
    let mut cs = R1cs::new_unoptimized();
    assert_eq!(g.clone().generate_constraints(&mut cs), Ok(()));
    assert!(cs.summarize().satisfied);
}
