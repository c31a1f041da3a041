use zk_credential::field::Fe;

#[test]
fn from_u64_keeps_the_value() {
    assert_eq!(Fe::from_u64(0).limbs(), [0, 0, 0, 0]);
    assert_eq!(Fe::from_u64(35).limbs(), [35, 0, 0, 0]);
    assert_eq!(Fe::from_u64(u64::MAX).limbs(), [u64::MAX, 0, 0, 0]);
}
