use square_reed_solomon::error::CodingError;
use square_reed_solomon::field::Scalar;
use square_reed_solomon::prover::RsSquareProver;

fn fr(v: u64) -> Scalar {
    Scalar::from_u64(v)
}

fn shares() -> Vec<Vec<Scalar>> {
    // arrange data shares into n by n grid (n must be power of 2)
    vec![
        vec![fr(0), fr(1), fr(2), fr(3)],
        vec![fr(4), fr(5), fr(6), fr(7)],
        vec![fr(8), fr(9), fr(10), fr(11)],
        vec![fr(12), fr(13), fr(14), fr(15)],
    ]
}

#[test]
fn lib_basic_rs_prover() {
    let shares = shares();
    // scale factor to dilate original shares (must be a power of 2)
    let scale: usize = 2;
    let prover = RsSquareProver::new(&shares, scale);
    assert!(prover.is_ok());
}

#[test]
fn prover_basic_rs_prover() {
    let shares = shares();
    // scale factor to dilate original shares (must be a power of 2)
    let scale: usize = 2;
    let prover = RsSquareProver::new(&shares, scale);
    assert!(prover.is_ok());
}

#[test]
fn root_is_reproducible() {
    let prover = RsSquareProver::new(&shares(), 4).unwrap();
    let first = prover.root().unwrap();
    let second = prover.root().unwrap();
    assert_eq!(first, second);
    assert_eq!(prover.row_root().unwrap(), prover.row_root().unwrap());
    assert_eq!(prover.col_root().unwrap(), prover.col_root().unwrap());
    assert_ne!(first, prover.row_root().unwrap());
    assert_ne!(prover.row_root().unwrap(), prover.col_root().unwrap());
}

#[test]
fn same_grid_and_parameters_give_the_same_roots() {
    let a = RsSquareProver::new(&shares(), 2).unwrap();
    let b = RsSquareProver::with_params(&shares(), 2, a.public_params().clone()).unwrap();
    assert_eq!(a.root().unwrap(), b.root().unwrap());
    for i in 0..8 {
        assert_eq!(a.commit_to_row(i).unwrap().bytes, b.commit_to_row(i).unwrap().bytes);
        assert_eq!(a.commit_to_col(i).unwrap().bytes, b.commit_to_col(i).unwrap().bytes);
    }
}

#[test]
fn changing_one_share_changes_commitments_and_root() {
    let a = RsSquareProver::new(&shares(), 2).unwrap();
    let mut changed = shares();
    changed[1][2] = fr(99);
    let b = RsSquareProver::with_params(&changed, 2, a.public_params().clone()).unwrap();
    let rows_differ = (0..8).any(|i| a.commit_to_row(i).unwrap().bytes != b.commit_to_row(i).unwrap().bytes);
    let cols_differ = (0..8).any(|i| a.commit_to_col(i).unwrap().bytes != b.commit_to_col(i).unwrap().bytes);
    assert!(rows_differ);
    assert!(cols_differ);
    assert_ne!(a.root().unwrap(), b.root().unwrap());
}

#[test]
fn commitments_are_group_element_encodings() {
    let prover = RsSquareProver::new(&shares(), 2).unwrap();
    let c = prover.commit_to_row(0).unwrap();
    assert_eq!(c.bytes.len(), 96);
    assert_ne!(c.bytes, prover.commit_to_row(1).unwrap().bytes);
}

#[test]
fn prover_rejects_bad_grids() {
    let mut ragged = shares();
    ragged[3].pop();
    assert_eq!(RsSquareProver::new(&ragged, 2).err(), Some(CodingError::InvalidDimension));
    let three: Vec<Vec<Scalar>> = shares().into_iter().take(3).collect();
    assert_eq!(RsSquareProver::new(&three, 2).err(), Some(CodingError::InvalidDimension));
    assert_eq!(RsSquareProver::new(&shares(), 3).err(), Some(CodingError::InvalidDimension));
    let wide: Vec<Vec<Scalar>> = shares().into_iter().take(2).collect();
    assert_eq!(RsSquareProver::new(&wide, 2).err(), Some(CodingError::InvalidDimension));
}

#[test]
fn boundary_sizes_build() {
    let one = RsSquareProver::new(&vec![vec![fr(5)]], 1).unwrap();
    assert!(one.root().is_ok());
    let unscaled = RsSquareProver::new(&shares(), 1).unwrap();
    assert!(unscaled.root().is_ok());
}

#[test]
fn transposed_grid_swaps_row_and_column_commitments() {
    let a = RsSquareProver::new(&shares(), 2).unwrap();
    let g = shares();
    let gt: Vec<Vec<Scalar>> = (0..4).map(|i| (0..4).map(|j| g[j][i]).collect()).collect();
    let b = RsSquareProver::with_params(&gt, 2, a.public_params().clone()).unwrap();
    for k in 0..8 {
        assert_eq!(b.commit_to_col(k).unwrap().bytes, a.commit_to_row(k).unwrap().bytes);
        assert_eq!(b.commit_to_row(k).unwrap().bytes, a.commit_to_col(k).unwrap().bytes);
    }
    assert_eq!(b.col_root().unwrap(), a.row_root().unwrap());
    assert_eq!(b.row_root().unwrap(), a.col_root().unwrap());
}

#[test]
fn commitments_never_fail_after_setup() {
    for &(n, scale) in &[(1usize, 1usize), (1, 4), (2, 1), (2, 4), (4, 2)] {
        let grid: Vec<Vec<Scalar>> = (0..n).map(|r| (0..n).map(|c| fr((r * n + c) as u64 + 1)).collect()).collect();
        let p = RsSquareProver::new(&grid, scale).unwrap();
        for i in 0..n * scale {
            assert!(p.commit_to_row(i).is_ok());
            assert!(p.commit_to_col(i).is_ok());
        }
        assert!(p.root().is_ok());
    }
}
