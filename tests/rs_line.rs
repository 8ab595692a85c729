use square_reed_solomon::error::CodingError;
use square_reed_solomon::field::Scalar;
use square_reed_solomon::poly::EvalDomain;
use square_reed_solomon::rs_line::RsLine;

fn fr(v: u64) -> Scalar {
    Scalar::from_u64(v)
}

#[test]
fn basic_reed_solomon_line_extend() {
    let shares = vec![fr(1), fr(2)];
    let small_domain = EvalDomain::new(2).unwrap();
    let large_domain = EvalDomain::new(4).unwrap();
    let mut rs_line = RsLine::new(&shares, 2).unwrap();
    rs_line.extend(&small_domain, &large_domain);
    assert_eq!(shares.to_owned(), rs_line.compressed_vals());
}

#[test]
fn new_line_places_shares_at_stride() {
    let shares = vec![fr(5), fr(6), fr(7), fr(8)];
    let line = RsLine::new(&shares, 2).unwrap();
    assert_eq!(line.length(), 8);
    for idx in 0..8 {
        let expected = if idx % 2 == 0 { shares[idx / 2] } else { Scalar::zero() };
        assert_eq!(line.get_element_at(idx), expected);
    }
    assert_eq!(line.compressed_vals(), shares);
}

#[test]
fn new_line_rejects_non_powers_of_two() {
    let three = vec![fr(1), fr(2), fr(3)];
    assert_eq!(RsLine::new(&three, 2).unwrap_err(), CodingError::InvalidDimension);
    let two = vec![fr(1), fr(2)];
    assert_eq!(RsLine::new(&two, 3).unwrap_err(), CodingError::InvalidDimension);
    assert_eq!(RsLine::new(&[], 2).unwrap_err(), CodingError::InvalidDimension);
    assert_eq!(RsLine::new(&two, 0).unwrap_err(), CodingError::InvalidDimension);
}

#[test]
fn extension_keeps_samples_for_several_sizes() {
    for &(k, scale) in &[(1usize, 1usize), (1, 8), (2, 1), (4, 4), (8, 2), (4, 8)] {
        let shares: Vec<Scalar> = (0..k).map(|i| fr(3 * i as u64 + 11)).collect();
        let small = EvalDomain::new(k).unwrap();
        let large = EvalDomain::new(k * scale).unwrap();
        let mut line = RsLine::new(&shares, scale).unwrap();
        line.extend(&small, &large);
        assert_eq!(line.length(), k * scale);
        assert_eq!(line.compressed_vals(), shares);
    }
}

#[test]
fn extension_fills_the_gaps() {
    // a constant stays constant on the larger domain
    let shares = vec![fr(9), fr(9)];
    let small = EvalDomain::new(2).unwrap();
    let large = EvalDomain::new(8).unwrap();
    let mut line = RsLine::new(&shares, 4).unwrap();
    line.extend(&small, &large);
    for idx in 0..8 {
        assert_eq!(line.get_element_at(idx), fr(9));
    }
    let shares = vec![fr(1), fr(2)];
    let mut line = RsLine::new(&shares, 2).unwrap();
    line.extend(&EvalDomain::new(2).unwrap(), &EvalDomain::new(4).unwrap());
    // through (1, 1) and (-1, 2) runs 3/2 - x/2, which differs at i and -i
    assert_ne!(line.get_element_at(1), Scalar::zero());
    assert_ne!(line.get_element_at(3), Scalar::zero());
    assert_ne!(line.get_element_at(1), line.get_element_at(3));
}

#[test]
fn set_element_replaces_one_position() {
    let mut line = RsLine::new(&[fr(1), fr(2)], 2).unwrap();
    line.set_element_at(1, fr(42));
    assert_eq!(line.get_element_at(1), fr(42));
    assert_eq!(line.get_element_at(0), fr(1));
    assert_eq!(line.get_element_at(2), fr(2));
    assert_eq!(line.get_element_at(3), Scalar::zero());
}
