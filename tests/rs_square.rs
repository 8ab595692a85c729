use square_reed_solomon::error::CodingError;
use square_reed_solomon::field::Scalar;
use square_reed_solomon::poly::EvalDomain;
use square_reed_solomon::rs_line::RsLine;
use square_reed_solomon::rs_square::RsSquare;

fn fr(v: u64) -> Scalar {
    Scalar::from_u64(v)
}

fn grid(n: usize) -> Vec<Vec<Scalar>> {
    (0..n).map(|r| (0..n).map(|c| fr((r * n + c) as u64)).collect()).collect()
}

fn extended(shares: &[Vec<Scalar>], scale: usize) -> RsSquare {
    let lines: Vec<RsLine> = shares.iter().map(|share| RsLine::new(share, scale).unwrap()).collect();
    let mut square = RsSquare::new(lines.as_slice(), scale).unwrap();
    square.extend();
    square
}

#[test]
fn basic_square() {
    let shares = vec![
        vec![fr(0), fr(1), fr(2), fr(3)],
        vec![fr(4), fr(5), fr(6), fr(7)],
        vec![fr(8), fr(9), fr(10), fr(11)],
        vec![fr(12), fr(13), fr(14), fr(15)],
    ];

    let scale = 4;
    let lines: Vec<RsLine> = shares
        .clone()
        .into_iter()
        .map(|share| RsLine::new(&share, scale).unwrap())
        .collect();

    let mut square = RsSquare::new(lines.as_slice(), scale).unwrap();
    square.extend();

    // square should now be 4*4 x 4*4 and should contain original entries at (x,y) coords
    // with x and y divisible by 4.
    for rid in 0..4 {
        for cid in 0..4 {
            assert_eq!(square.val_at(rid * scale, cid * scale), shares[rid][cid]);
        }
    }
}

#[test]
fn new_square_interleaves_zero_rows() {
    let shares = grid(2);
    let lines: Vec<RsLine> = shares.iter().map(|share| RsLine::new(share, 2).unwrap()).collect();
    let square = RsSquare::new(lines.as_slice(), 2).unwrap();
    for rid in 0..4 {
        for cid in 0..4 {
            let expected = if rid % 2 == 0 && cid % 2 == 0 { shares[rid / 2][cid / 2] } else { Scalar::zero() };
            assert_eq!(square.val_at(rid, cid), expected);
        }
    }
}

#[test]
fn new_square_rejects_bad_dimensions() {
    let shares = grid(4);
    let lines: Vec<RsLine> = shares.iter().map(|share| RsLine::new(share, 2).unwrap()).collect();
    assert_eq!(RsSquare::new(&lines[..3], 2).unwrap_err(), CodingError::InvalidDimension);
    assert_eq!(RsSquare::new(lines.as_slice(), 3).unwrap_err(), CodingError::InvalidDimension);
    // rows of length 8 do not fit a side of 16
    assert_eq!(RsSquare::new(lines.as_slice(), 4).unwrap_err(), CodingError::InvalidDimension);
    let short: Vec<RsLine> = grid(2).iter().map(|share| RsLine::new(share, 2).unwrap()).collect();
    assert_eq!(RsSquare::new(short.as_slice(), 4).unwrap_err(), CodingError::InvalidDimension);

    assert_eq!(RsSquare::new(&[], 2).unwrap_err(), CodingError::InvalidDimension);
}

#[test]
fn rows_of_the_right_length_are_read_at_the_square_scale() {
    // two rows of length 4 laid out at scale 1 fit a 2 x 2 grid at scale 2
    let data = grid(4);
    let unscaled: Vec<RsLine> = data.iter().take(2).map(|share| RsLine::new(share, 1).unwrap()).collect();
    let mut square = RsSquare::new(unscaled.as_slice(), 2).unwrap();
    for rid in 0..4 {
        for cid in 0..4 {
            let expected = if rid % 2 == 0 { data[rid / 2][cid] } else { Scalar::zero() };
            assert_eq!(square.val_at(rid, cid), expected);
        }
    }
    square.extend();
    for k in 0..2 {
        for c in 0..2 {
            assert_eq!(square.val_at(k * 2, c * 2), data[k][c * 2]);
        }
    }
}

#[test]
fn new_square_reports_a_missing_domain() {
    let line = RsLine::new(&[fr(1)], 1).unwrap();
    assert_eq!(RsSquare::new(&[line], 1usize << 33).unwrap_err(), CodingError::DomainUnavailable);
}

#[test]
fn extension_keeps_the_original_grid() {
    for &(n, scale) in &[(1usize, 1usize), (1, 4), (2, 2), (4, 1), (4, 2), (2, 8)] {
        let shares = grid(n);
        let square = extended(&shares, scale);
        for rid in 0..n {
            for cid in 0..n {
                assert_eq!(square.val_at(rid * scale, cid * scale), shares[rid][cid]);
            }
        }
    }
}

#[test]
fn every_row_and_column_is_low_degree() {
    let n = 4;
    let scale = 2;
    let side = n * scale;
    let shares = grid(n);
    let square = extended(&shares, scale);
    let small = EvalDomain::new(n).unwrap();
    let large = EvalDomain::new(side).unwrap();
    for rid in 0..side {
        let row: Vec<Scalar> = (0..n).map(|c| square.val_at(rid, c * scale)).collect();
        let mut line = RsLine::new(&row, scale).unwrap();
        line.extend(&small, &large);
        for cid in 0..side {
            assert_eq!(line.get_element_at(cid), square.val_at(rid, cid));
        }
    }
    for cid in 0..side {
        let col: Vec<Scalar> = (0..n).map(|r| square.val_at(r * scale, cid)).collect();
        let mut line = RsLine::new(&col, scale).unwrap();
        line.extend(&small, &large);
        for rid in 0..side {
            assert_eq!(line.get_element_at(rid), square.val_at(rid, cid));
        }
    }
}

#[test]
fn scale_one_leaves_the_grid_unchanged() {
    let shares = grid(4);
    let square = extended(&shares, 1);
    for rid in 0..4 {
        for cid in 0..4 {
            assert_eq!(square.val_at(rid, cid), shares[rid][cid]);
        }
    }
}

#[test]
fn single_share_fills_the_whole_grid() {
    let square = extended(&[vec![fr(7)]], 4);
    for rid in 0..4 {
        for cid in 0..4 {
            assert_eq!(square.val_at(rid, cid), fr(7));
        }
    }
}

#[test]
fn polynomials_pass_through_the_data() {
    let shares = grid(4);
    let scale = 2;
    let square = extended(&shares, scale);
    let small = EvalDomain::new(4).unwrap();
    let row = square.row_poly(2);
    let col = square.col_poly(6);
    let mut x = Scalar::one();
    for k in 0..4 {
        assert_eq!(row.evaluate(&x), square.val_at(2, k * scale));
        assert_eq!(col.evaluate(&x), square.val_at(k * scale, 6));
        x = x.mul(&small.group_gen);
    }
}
