use num_bigint_dig::BigUint;
use wnfs_core::accumulator::{AccumulatorSetup, Name, NameAccumulator, NameSegment};

fn setup() -> AccumulatorSetup {
    AccumulatorSetup::from_rsa_2048(&[5, 1, 9])
}

#[test]
fn accumulator_adds_commute() {
    let setup = setup();
    let s1 = NameSegment::from_seed(b"first").unwrap();
    let s2 = NameSegment::from_seed(b"second").unwrap();
    let mut a = NameAccumulator::empty(&setup);
    a.add(&s1, &setup);
    a.add(&s2, &setup);
    let mut b = NameAccumulator::empty(&setup);
    b.add(&s2, &setup);
    b.add(&s1, &setup);
    assert!(a.same_as(&b));
    assert_eq!(a.as_bytes(), b.as_bytes());
    let mut c = NameAccumulator::empty(&setup);
    c.add(&s1, &setup);
    assert!(!a.same_as(&c));
}

#[test]
fn accumulator_add_is_modular_exponentiation() {
    let setup = setup();
    let modulus = BigUint::from_bytes_le(&wnfs_core::accumulator::rsa_2048_modulus_bytes());
    let generator = BigUint::from_bytes_le(&[5, 1, 9]).modpow(&BigUint::from(2u8), &modulus);
    let empty = NameAccumulator::empty(&setup);
    assert_eq!(BigUint::from_bytes_le(empty.as_bytes()), generator);
    let segment = NameSegment::from_le_bytes(&[17]).unwrap();
    let mut acc = NameAccumulator::empty(&setup);
    acc.add(&segment, &setup);
    assert_eq!(acc.as_bytes().len(), 256);
    assert_eq!(BigUint::from_bytes_le(acc.as_bytes()), generator.modpow(&BigUint::from(17u8), &modulus));
}

#[test]
fn name_segment_from_seed_is_a_deterministic_prime() {
    let a = NameSegment::from_seed(b"seed").unwrap();
    let b = NameSegment::from_seed(b"seed").unwrap();
    let c = NameSegment::from_seed(b"other seed").unwrap();
    assert_eq!(a.as_bytes(), b.as_bytes());
    assert_ne!(a.as_bytes(), c.as_bytes());
    assert_eq!(a.as_bytes().len(), 32);
    let value = BigUint::from_bytes_le(a.as_bytes());
    assert!(num_bigint_dig::prime::probably_prime(&value, 20));
}

#[test]
fn accumulator_parse_bytes_round_trip() {
    let setup = setup();
    let mut acc = NameAccumulator::empty(&setup);
    acc.add(&NameSegment::from_seed(b"x").unwrap(), &setup);
    let parsed = NameAccumulator::parse_bytes(acc.as_bytes()).unwrap();
    assert!(parsed.same_as(&acc));
    assert!(NameAccumulator::parse_bytes(&[1, 2, 3]).is_none());
    assert!(NameSegment::from_le_bytes(&[1u8; 33]).is_none());
}

#[test]
fn name_folds_its_segments_into_its_base() {
    let setup = setup();
    let s1 = NameSegment::from_seed(b"docs").unwrap();
    let s2 = NameSegment::from_seed(b"notes").unwrap();
    let mut name = Name::empty(&setup);
    assert!(name.is_root());
    assert!(name.parent().is_none());
    name.add_segments(vec![s1.duplicate(), s2.duplicate()]);
    assert!(!name.is_root());
    let mut expected = NameAccumulator::empty(&setup);
    expected.add(&s1, &setup);
    expected.add(&s2, &setup);
    assert!(name.as_accumulator(&setup).same_as(&expected));
    let parent = name.parent().unwrap();
    let mut parent_expected = NameAccumulator::empty(&setup);
    parent_expected.add(&s1, &setup);
    assert!(parent.as_accumulator(&setup).same_as(&parent_expected));
}

#[test]
fn setup_refuses_a_zero_modulus() {
    assert!(AccumulatorSetup::with_random_generator(vec![0u8; 256], &[3]).is_none());
    assert!(AccumulatorSetup::with_random_generator(vec![7u8; 255], &[3]).is_none());
    assert!(AccumulatorSetup::with_random_generator(vec![7u8; 256], &[3]).is_some());
}
