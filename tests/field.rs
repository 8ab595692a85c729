use square_reed_solomon::field::Scalar;
use square_reed_solomon::poly::{EvalDomain, Poly};
use square_reed_solomon::rs_square::is_power_of_two;

fn minus_one() -> Scalar {
    Scalar {
        l0: 0xffff_ffff_0000_0000,
        l1: 0x53bd_a402_fffe_5bfe,
        l2: 0x3339_d808_09a1_d805,
        l3: 0x73ed_a753_299d_7d48,
    }
}

#[test]
fn multiplication_is_modular() {
    assert_eq!(Scalar::from_u64(3).mul(&Scalar::from_u64(5)), Scalar::from_u64(15));
    assert_eq!(minus_one().mul(&minus_one()), Scalar::one());
    assert_eq!(minus_one().mul(&Scalar::from_u64(2)).mul(&minus_one()), Scalar::from_u64(2));
    let big = Scalar::from_u64(u64::MAX).mul(&Scalar::from_u64(u64::MAX));
    assert_eq!(big, Scalar { l0: 1, l1: u64::MAX - 1, l2: 0, l3: 0 });
}

#[test]
fn domain_generators_have_the_right_order() {
    let one = EvalDomain::new(1).unwrap();
    assert_eq!(one.group_gen, Scalar::one());
    let two = EvalDomain::new(2).unwrap();
    assert_eq!(two.group_gen, minus_one());
    let four = EvalDomain::new(4).unwrap();
    let g = four.group_gen;
    assert_ne!(g, Scalar::one());
    assert_eq!(g.mul(&g), minus_one());
    let sixteen = EvalDomain::new(16).unwrap();
    let h = sixteen.group_gen;
    let h4 = h.mul(&h).mul(&h).mul(&h);
    assert_eq!(h4, g);
    assert_eq!(sixteen.size, 16);
}

#[test]
fn domain_beyond_two_adicity_is_unavailable() {
    assert!(EvalDomain::new(1usize << 32).is_some());
    assert!(EvalDomain::new(1usize << 33).is_none());
}

#[test]
fn interpolation_then_evaluation_gives_the_values_back() {
    let d = EvalDomain::new(4).unwrap();
    let vals = vec![Scalar::from_u64(4), Scalar::from_u64(8), Scalar::from_u64(15), Scalar::from_u64(16)];
    let p = d.interpolate(&vals);
    assert!(p.coeffs.len() <= 4);
    let mut x = Scalar::one();
    for v in &vals {
        assert_eq!(p.evaluate(&x), *v);
        x = x.mul(&d.group_gen);
    }
}

#[test]
fn evaluation_uses_every_coefficient() {
    // 1 + 2x + 3x^2 at 10 is 321
    let p = Poly { coeffs: vec![Scalar::from_u64(1), Scalar::from_u64(2), Scalar::from_u64(3)] };
    assert_eq!(p.evaluate(&Scalar::from_u64(10)), Scalar::from_u64(321));
    let constant = EvalDomain::new(2).unwrap().interpolate(&vec![Scalar::from_u64(7), Scalar::from_u64(7)]);
    assert_eq!(constant.coeffs, vec![Scalar::from_u64(7)]);
}

#[test]
fn powers_of_two_are_recognised() {
    assert!(!is_power_of_two(0));
    assert!(is_power_of_two(1));
    assert!(is_power_of_two(2));
    assert!(!is_power_of_two(3));
    assert!(is_power_of_two(4));
    assert!(!is_power_of_two(6));
    assert!(is_power_of_two(1 << 40));
    assert!(!is_power_of_two(usize::MAX));
    assert!(is_power_of_two(1usize << (usize::BITS - 1)));
}
