use vstd::prelude::*;
use ark_ff::{BigInt, PrimeField};
use ark_poly::DenseUVPolynomial;
use ark_poly::univariate::DensePolynomial;
use ark_poly_commit::kzg10::{Powers, UniversalParams, KZG10};
use ark_serialize::{CanonicalDeserialize, CanonicalSerialize};
use ark_test_curves::bls12_381::{Bls12_381, Fr};
use rand::rngs::OsRng;
use rs_merkle::algorithms::Sha256;
use rs_merkle::{Hasher, MerkleTree};
use crate::error::CodingError;
use crate::field::{lemma_value_injective, Scalar};
use crate::poly::{
    all_wf, extension_values, extends, interpolation_of, is_pow2, lemma_extension_of_one_sample, lemma_stride,
    max_domain_size, root_of_unity, values, Poly,
};
use crate::rs_line::{compressed_of, spread, RsLine};
use crate::rs_square::{column, encoded, real_samples, value_grid, RsSquare};

verus! {

/// The uncompressed encoding of the KZG commitment (a BLS12-381 G1 point) to the
/// polynomial with coefficients `coeffs`, under the public parameters encoded by
/// `params`.
pub uninterp spec fn commitment_of(params: Seq<u8>, coeffs: Seq<int>) -> Seq<u8>;

/// The number of powers of `G` in the KZG public parameters that `params` decodes
/// to (uncompressed, unchecked), or `None` where the bytes decode to none.
pub uninterp spec fn powers_of_g_count(params: Seq<u8>) -> Option<nat>;

/// The SHA-256 digest of `data`.
pub uninterp spec fn sha256_of(data: Seq<u8>) -> Seq<u8>;

/// The root of the SHA-256 Merkle tree over `leaves`, as `rs_merkle` builds it.
pub uninterp spec fn merkle_root_of(leaves: Seq<Seq<u8>>) -> Seq<u8>;

/// The byte sequences of a list of digests.
pub open spec fn digests(leaves: Seq<[u8; 32]>) -> Seq<Seq<u8>> {
    leaves.map_values(|h: [u8; 32]| h@)
}

/// A polynomial commitment, held as the uncompressed encoding of its group element.
#[derive(Clone, Debug)]
pub struct Commitment {
    pub bytes: Vec<u8>,
}

/// Relies on `KZG10::<Bls12_381, _>::setup`, which fails only for a degree of zero
/// (`Error::DegreeIsZero`), and on `CanonicalSerialize::serialize_uncompressed`
/// into a `Vec`, which does not fail. The parameters themselves are random, but
/// every outcome holds `max_degree + 1` powers of `G` (the powers of `beta` from
/// `0` to `max_degree`), which `deserialize_uncompressed_unchecked` reads back.
#[verifier::external_body]
fn kzg_setup(max_degree: usize) -> (r: Option<Vec<u8>>)
    ensures
        r is Some <==> max_degree >= 1,
        r matches Some(b) ==> powers_of_g_count(b@) == Some((max_degree + 1) as nat),
{
    let pp = KZG10::<Bls12_381, DensePolynomial<Fr>>::setup(max_degree, false, &mut OsRng).ok()?;
    let mut bytes: Vec<u8> = Vec::new();
    pp.serialize_uncompressed(&mut bytes).ok()?;
    Some(bytes)
}

/// Relies on `KZG10::<Bls12_381, _>::commit` without hiding (so the powers of
/// `gamma * G` are not used), on the powers of `G` that
/// `deserialize_uncompressed_unchecked` reads back from `params`, and on the
/// coefficients of `poly`: a deterministic multi-scalar multiplication, whose point
/// is then encoded by `serialize_uncompressed`. Without hiding, `commit` fails only
/// in `check_degree_is_too_large`, when the polynomial has more coefficients (its
/// degree plus one, trailing zeros dropped) than there are powers of `G`.
#[verifier::external_body]
fn kzg_commit(params: &Vec<u8>, poly: &Poly) -> (r: Option<Commitment>)
    requires
        poly.wf(),
    ensures
        r matches Some(c) ==> c.bytes@ == commitment_of(params@, poly.coeff_values()),
        powers_of_g_count(params@) matches Some(k) && 1 <= k && poly.coeffs@.len() <= k ==> r is Some,
{
    let pp = UniversalParams::<Bls12_381>::deserialize_uncompressed_unchecked(&params[..]).ok()?;
    let powers = Powers::<Bls12_381> { powers_of_g: pp.powers_of_g.into(), powers_of_gamma_g: Vec::new().into() };
    let coeffs = poly.coeffs.iter().map(|s| Fr::from_bigint(BigInt::new([s.l0, s.l1, s.l2, s.l3])).unwrap()).collect();
    let (com, _) = KZG10::commit(&powers, &DensePolynomial::from_coefficients_vec(coeffs), None, None).ok()?;
    let mut bytes = Vec::new();
    com.0.serialize_uncompressed(&mut bytes).ok()?;
    Some(Commitment { bytes })
}

/// Relies on `<rs_merkle::algorithms::Sha256 as Hasher>::hash`: the SHA-256 digest.
#[verifier::external_body]
fn sha256(data: &Vec<u8>) -> (r: [u8; 32])
    ensures
        r@ == sha256_of(data@),
{
    Sha256::hash(data.as_slice())
}

/// Relies on `MerkleTree::<Sha256>::from_leaves` and `root`, which has a root as
/// soon as there is a leaf.
#[verifier::external_body]
fn merkle_root(leaves: &Vec<[u8; 32]>) -> (r: Option<[u8; 32]>)
    ensures
        leaves@.len() > 0 ==> r is Some,
        r matches Some(h) ==> h@ == merkle_root_of(digests(leaves@)),
{
    MerkleTree::<Sha256>::from_leaves(leaves.as_slice()).root()
}

/// A grid side made of two powers of two is not empty.
proof fn lemma_side_positive(n: nat, s: nat)
    requires
        is_pow2(n),
        is_pow2(s),
    ensures
        n * s > 0,
{
    assert(n * s > 0) by (nonlinear_arith)
        requires
            n >= 1,
            s >= 1,
    ;
}

/// The roots are functions of the extended grid and the public parameters alone:
/// two provers that agree on those agree on the row root, the column root and the
/// combined root, and so does one prover asked twice.
pub proof fn lemma_roots_determined(a: &RsSquareProver, b: &RsSquareProver)
    requires
        a.grid() == b.grid(),
        a.spec_n_rows() == b.spec_n_rows(),
        a.spec_scale() == b.spec_scale(),
        a.params() == b.params(),
    ensures
        a.spec_row_root() == b.spec_row_root(),
        a.spec_col_root() == b.spec_col_root(),
        a.spec_root() == b.spec_root(),
{
    assert(Seq::new(a.side(), |i: int| sha256_of(commitment_of(a.params(), a.row_coeffs(i)))) =~= Seq::new(
        b.side(),
        |i: int| sha256_of(commitment_of(b.params(), b.row_coeffs(i))),
    ));
    assert(Seq::new(a.side(), |i: int| sha256_of(commitment_of(a.params(), a.col_coeffs(i)))) =~= Seq::new(
        b.side(),
        |i: int| sha256_of(commitment_of(b.params(), b.col_coeffs(i))),
    ));
}

/// Two provers that encode the same shares at the same scale under the same
/// public parameters hold the same grid, and so have the same row root, column
/// root and combined root.
pub proof fn lemma_same_shares_same_roots(
    a: &RsSquareProver,
    b: &RsSquareProver,
    shares: Seq<Vec<Scalar>>,
    scale: nat,
)
    requires
        a.encodes(shares, scale),
        b.encodes(shares, scale),
        a.params() == b.params(),
    ensures
        a.grid() == b.grid(),
        a.spec_row_root() == b.spec_row_root(),
        a.spec_col_root() == b.spec_col_root(),
        a.spec_root() == b.spec_root(),
{
    a.square.lemma_wf();
    b.square.lemma_wf();
    assert(a.grid() =~= b.grid()) by {
        assert forall|r: int| 0 <= r < a.side() implies #[trigger] a.grid()[r] =~= b.grid()[r] by {
            assert forall|c: int| 0 <= c < a.side() implies #[trigger] a.grid()[r][c] == b.grid()[r][c] by {
                assert(value_grid(a.grid())[r][c] == value_grid(b.grid())[r][c]);
                lemma_value_injective(a.grid()[r][c], b.grid()[r][c]);
            }
        }
    }
    lemma_roots_determined(a, b);
}

/// Encoding the transposed grid swaps rows and columns: under the same public
/// parameters, row `k` of one prover and column `k` of the other have the same
/// polynomial, so their commitments agree, and the row root of one is the column
/// root of the other.
pub proof fn lemma_transpose_swaps_roots(
    p: &RsSquareProver,
    q: &RsSquareProver,
    g: Seq<Vec<Scalar>>,
    gt: Seq<Vec<Scalar>>,
    scale: nat,
)
    requires
        p.encodes(g, scale),
        q.encodes(gt, scale),
        gt.len() == g.len(),
        forall|i: int, j: int| 0 <= i < g.len() && 0 <= j < g.len() ==> #[trigger] gt[i]@[j] == g[j]@[i],
        p.params() == q.params(),
    ensures
        forall|k: int| 0 <= k < p.side() ==> #[trigger] q.col_coeffs(k) == p.row_coeffs(k),
        forall|k: int| 0 <= k < p.side() ==> #[trigger] q.row_coeffs(k) == p.col_coeffs(k),
        q.spec_col_root() == p.spec_row_root(),
        q.spec_row_root() == p.spec_col_root(),
{
    let n = g.len() as int;
    let s = scale as int;
    let side = p.side() as int;
    p.square.lemma_wf();
    q.square.lemma_wf();
    vstd::arithmetic::div_mod::lemma_div_multiples_vanish(n, s);
    vstd::arithmetic::mul::lemma_mul_is_commutative(n, s);
    assert(side == n * s);
    assert forall|c: int| 0 <= c < n implies #[trigger] values(gt[c]@) =~= values(share_column(g, c)) by {
        assert(gt[c]@.len() == n);
    }
    assert forall|c: int| 0 <= c < n implies #[trigger] values(g[c]@) =~= values(share_column(gt, c)) by {
        assert(g[c]@.len() == n);
    }
    assert forall|k: int| 0 <= k < side implies #[trigger] q.col_coeffs(k) == p.row_coeffs(k) by {
        assert(values(real_samples(q.grid(), scale, n as nat, k)) =~= values(
            compressed_of(p.grid()[k], scale),
        )) by {
            assert forall|c: int| 0 <= c < n implies #[trigger] values(real_samples(q.grid(), scale, n as nat, k))[c]
                == values(compressed_of(p.grid()[k], scale))[c] by {
                lemma_stride(c, n, s);
                assert(value_grid(q.grid())[c * s][k] == extension_values(values(gt[c]@), q.side())[k]);
                assert(value_grid(p.grid())[k][c * s] == extension_values(values(share_column(g, c)), p.side())[k]);
            }
        }
    }
    assert forall|k: int| 0 <= k < side implies #[trigger] q.row_coeffs(k) == p.col_coeffs(k) by {
        assert(values(real_samples(p.grid(), scale, n as nat, k)) =~= values(
            compressed_of(q.grid()[k], scale),
        )) by {
            assert forall|c: int| 0 <= c < n implies #[trigger] values(real_samples(p.grid(), scale, n as nat, k))[c]
                == values(compressed_of(q.grid()[k], scale))[c] by {
                lemma_stride(c, n, s);
                assert(value_grid(p.grid())[c * s][k] == extension_values(values(g[c]@), p.side())[k]);
                assert(value_grid(q.grid())[k][c * s] == extension_values(values(share_column(gt, c)), q.side())[k]);
            }
        }
    }
    assert(Seq::new(q.side(), |i: int| sha256_of(commitment_of(q.params(), q.col_coeffs(i)))) =~= Seq::new(
        p.side(),
        |i: int| sha256_of(commitment_of(p.params(), p.row_coeffs(i))),
    ));
    assert(Seq::new(q.side(), |i: int| sha256_of(commitment_of(q.params(), q.row_coeffs(i)))) =~= Seq::new(
        p.side(),
        |i: int| sha256_of(commitment_of(p.params(), p.col_coeffs(i))),
    ));
}

/// Two digests with the same bytes are the same array, so two successful calls
/// whose results have the same specified bytes (one prover's `root` asked twice,
/// or provers that agree on grid and parameters) return equal values.
pub proof fn lemma_digest_determined(a: [u8; 32], b: [u8; 32])
    requires
        a@ == b@,
    ensures
        a == b,
{
    assert forall|i: int| 0 <= i < 32 implies a[i] == b[i] by {
        vstd::array::lemma_array_index(a, i);
        vstd::array::lemma_array_index(b, i);
    }
    assert(a =~= b);
}

/// Each share row can be laid out as a line: its length and the scale are powers
/// of two whose product fits in `usize`.
pub open spec fn lines_ok(shares: Seq<Vec<Scalar>>, scale: nat) -> bool {
    forall|i: int|
        0 <= i < shares.len() ==> is_pow2(#[trigger] shares[i]@.len()) && is_pow2(scale) && shares[i]@.len()
            * scale <= usize::MAX
}

/// Every row can be laid out and the side `n * scale` is a valid size, but the
/// field has no subgroup of that order.
pub open spec fn domain_missing(shares: Seq<Vec<Scalar>>, scale: nat) -> bool {
    &&& lines_ok(shares, scale)
    &&& is_pow2(shares.len())
    &&& is_pow2(scale)
    &&& shares.len() * scale <= usize::MAX
    &&& shares.len() * scale > max_domain_size()
}

/// The shares form an `n x n` grid, `n` and `scale` are powers of two, and the
/// extended side fits the field's largest subgroup.
pub open spec fn grid_ok(shares: Seq<Vec<Scalar>>, scale: nat) -> bool {
    &&& is_pow2(shares.len())
    &&& is_pow2(scale)
    &&& forall|i: int| 0 <= i < shares.len() ==> (#[trigger] shares[i]@.len()) == shares.len()
    &&& shares.len() * scale <= max_domain_size()
    &&& shares.len() * scale <= usize::MAX
}

/// The `n x n` share grid laid out on a side of `n * scale`: each share at its
/// real row and real column, zeros elsewhere.
pub open spec fn laid_out(shares: Seq<Vec<Scalar>>, scale: nat) -> Seq<Seq<int>> {
    let side = shares.len() * scale;
    Seq::new(
        side,
        |r: int|
            Seq::new(
                side,
                |c: int|
                    if r % (scale as int) == 0 && c % (scale as int) == 0 {
                        shares[r / (scale as int)]@[c / (scale as int)].value()
                    } else {
                        0
                    },
            ),
    )
}

/// Column `c` of the share grid.
pub open spec fn share_column(shares: Seq<Vec<Scalar>>, c: int) -> Seq<Scalar> {
    Seq::new(shares.len(), |k: int| shares[k]@[c])
}

/// Holds the extended grid of a block of shares and the public parameters that
/// every row and column is committed under.
pub struct RsSquareProver {
    /// Scale used to extend shares to create square
    scale: usize,
    /// Reed-Solomon Encoded square of data
    square: RsSquare,
    /// Degree bound of the commitment parameters: the side length of the square
    max_degree: usize,
    /// The KZG public parameters, in their uncompressed encoding
    params: Vec<u8>,
}

impl RsSquareProver {
    /// The extended grid.
    pub closed spec fn grid(&self) -> Seq<Seq<Scalar>> {
        self.square.grid()
    }

    /// The number of original rows.
    pub closed spec fn spec_n_rows(&self) -> nat {
        self.square.spec_n_rows()
    }

    pub closed spec fn spec_scale(&self) -> nat {
        self.square.spec_scale()
    }

    /// The side of the extended grid, which is also the degree bound of the
    /// commitment parameters.
    pub open spec fn side(&self) -> nat {
        self.spec_n_rows() * self.spec_scale()
    }

    /// The encoded public parameters.
    pub closed spec fn params(&self) -> Seq<u8> {
        self.params@
    }

    pub closed spec fn wf(&self) -> bool {
        &&& self.square.wf()
        &&& self.max_degree == self.square.side()
        &&& self.scale == self.square.spec_scale()
    }

    /// Lays the shares out as lines, builds and extends the square, and sets up
    /// fresh commitment parameters for the degree bound `n * scale`.
    pub fn new(shares: &Vec<Vec<Scalar>>, scale: usize) -> (r: Result<RsSquareProver, CodingError>)
        requires
            forall|i: int| 0 <= i < shares@.len() ==> all_wf(#[trigger] shares@[i]@),
        ensures
            r is Ok <==> grid_ok(shares@, scale as nat),
            r matches Err(e) ==> e == CodingError::InvalidDimension || e == CodingError::DomainUnavailable,
            r == Err::<RsSquareProver, CodingError>(CodingError::DomainUnavailable) <==> domain_missing(
                shares@,
                scale as nat,
            ),
            r matches Ok(p) ==> p.encodes(shares@, scale as nat) && p.can_commit(),
    {
        let mut p = match Self::with_params(shares, scale, Vec::new()) {
            Ok(p) => p,
            Err(e) => return Err(e),
        };
        proof {
            p.square.lemma_wf();
            lemma_side_positive(p.square.spec_n_rows(), p.square.spec_scale());
        }
        let params = match kzg_setup(p.max_degree) {
            Some(b) => b,
            None => return Err(CodingError::CommitmentSetupFailure),
        };
        p.params = params;
        Ok(p)
    }

    /// The encoded public parameters that every commitment is made under.
    pub fn public_params(&self) -> (r: &Vec<u8>)
        ensures
            r@ == self.params(),
    {
        &self.params
    }

    /// Lays the shares out as lines and builds and extends the square, to be
    /// committed under the given encoded public parameters.
    pub fn with_params(shares: &Vec<Vec<Scalar>>, scale: usize, params: Vec<u8>) -> (r: Result<RsSquareProver, CodingError>)
        requires
            forall|i: int| 0 <= i < shares@.len() ==> all_wf(#[trigger] shares@[i]@),
        ensures
            r is Ok <==> grid_ok(shares@, scale as nat),
            r matches Err(e) ==> e == CodingError::InvalidDimension || e == CodingError::DomainUnavailable,
            r == Err::<RsSquareProver, CodingError>(CodingError::DomainUnavailable) <==> domain_missing(
                shares@,
                scale as nat,
            ),
            r matches Ok(p) ==> p.encodes(shares@, scale as nat) && p.params() == params@,
    {
        let n = shares.len();
        let mut lines: Vec<RsLine> = Vec::new();
        let mut i: usize = 0;
        while i < n
            invariant
                n == shares@.len(),
                i <= n,
                forall|j: int| 0 <= j < n ==> all_wf(#[trigger] shares@[j]@),
                lines@.len() == i,
                forall|j: int|
                    0 <= j < i ==> is_pow2(shares@[j]@.len()) && is_pow2(scale as nat) && shares@[j]@.len()
                        * scale <= usize::MAX,
                forall|j: int|
                    0 <= j < i ==> {
                        &&& (#[trigger] lines@[j]).wf()
                        &&& lines@[j].spec_scale() == scale
                        &&& lines@[j].view().len() == shares@[j]@.len() * scale
                        &&& lines@[j].compressed() == shares@[j]@
                        &&& forall|c: int|
                            0 <= c < lines@[j].view().len() ==> #[trigger] lines@[j].view()[c] == spread(
                                shares@[j]@,
                                scale as nat,
                                c,
                            )
                    },
            decreases n - i,
        {
            match RsLine::new(shares[i].as_slice(), scale) {
                Ok(l) => lines.push(l),
                Err(e) => {
                    proof {
                        if grid_ok(shares@, scale as nat) {
                            assert(shares@[i as int]@.len() == n);
                        }
                    }
                    return Err(e);
                },
            }
            i = i + 1;
        }
        let mut square = match RsSquare::new(lines.as_slice(), scale) {
            Ok(sq) => sq,
            Err(e) => {
                proof {
                    if grid_ok(shares@, scale as nat) {
                        assert forall|j: int| 0 <= j < n implies (#[trigger] lines@[j]).view().len() == n
                            * scale && lines@[j].spec_scale() == scale by {
                            assert(shares@[j]@.len() == n);
                        }
                    }
                }
                return Err(e);
            },
        };
        proof {
            if !grid_ok(shares@, scale as nat) {
                assert forall|j: int| 0 <= j < n implies (#[trigger] shares@[j]@).len() == n by {
                    assert(lines@[j].view().len() == n * scale);
                    vstd::arithmetic::mul::lemma_mul_is_commutative(n as int, scale as int);
                    vstd::arithmetic::div_mod::lemma_div_multiples_vanish(n as int, scale as int);
                    vstd::arithmetic::div_mod::lemma_div_multiples_vanish(shares@[j]@.len() as int, scale as int);
                    vstd::arithmetic::mul::lemma_mul_is_commutative(shares@[j]@.len() as int, scale as int);
                }
            }
        }
        let ghost g0 = square.grid();
        proof {
            square.lemma_wf();
            let s = scale as int;
            assert(value_grid(g0) =~= laid_out(shares@, scale as nat)) by {
                assert forall|r: int| 0 <= r < n * s implies #[trigger] value_grid(g0)[r] =~= laid_out(
                    shares@,
                    scale as nat,
                )[r] by {
                    assert forall|c: int| 0 <= c < n * s implies #[trigger] value_grid(g0)[r][c] == laid_out(
                        shares@,
                        scale as nat,
                    )[r][c] by {
                        if r % s == 0 {
                            assert(r / s < n) by (nonlinear_arith)
                                requires
                                    0 <= r < n * s,
                                    s > 0,
                            ;
                            assert(g0[r] == lines@[r / s].view());
                            if c % s == 0 {
                                assert(c / s < n) by (nonlinear_arith)
                                    requires
                                        0 <= c < n * s,
                                        s > 0,
                                ;
                            }
                        }
                    }
                }
            }
        }
        // prover encodes shares to respond to queries
        square.extend();
        let max_degree = n * scale;
        let p = RsSquareProver { scale, square, max_degree, params };
        proof {
            square.lemma_wf();
            let s = scale as int;
            assert forall|k: int, c: int| 0 <= k < n && 0 <= c < n implies #[trigger] p.grid()[k * s][c * s]
                == shares@[k]@[c] by {
                lemma_stride(k, n as int, s);
                lemma_stride(c, n as int, s);
                assert(g0[k * s] == lines@[k].view());
                assert(lines@[k].compressed()[c] == shares@[k]@[c]);
            }
            assert forall|c: int| 0 <= c < n implies extends(
                values(column(p.grid(), #[trigger] (c * s))),
                values(share_column(shares@, c)),
                root_of_unity(n as nat),
                root_of_unity(p.side()),
            ) by {
                lemma_stride(c, n as int, s);
                assert(real_samples(g0, scale as nat, n as nat, c * s) =~= share_column(shares@, c)) by {
                    assert forall|k: int| 0 <= k < n implies #[trigger] g0[k * s][c * s] == shares@[k]@[c] by {
                        lemma_stride(k, n as int, s);
                        assert(g0[k * s] == lines@[k].view());
                        assert(lines@[k].compressed()[c] == shares@[k]@[c]);
                    }
                }
            }
            assert forall|k: int, c: int| 0 <= k < n && 0 <= c < p.side() implies #[trigger] value_grid(
                p.grid(),
            )[k * s][c] == extension_values(values(shares@[k]@), p.side())[c] by {
                lemma_stride(k, n as int, s);
                assert(g0[k * s] == lines@[k].view());
            }
            assert forall|r: int, c: int| 0 <= r < p.side() && 0 <= c < n implies #[trigger] value_grid(
                p.grid(),
            )[r][c * s] == extension_values(values(share_column(shares@, c)), p.side())[r] by {
                lemma_stride(c, n as int, s);
                assert(real_samples(g0, scale as nat, n as nat, c * s) =~= share_column(shares@, c)) by {
                    assert forall|k: int| 0 <= k < n implies #[trigger] g0[k * s][c * s] == shares@[k]@[c] by {
                        lemma_stride(k, n as int, s);
                        assert(g0[k * s] == lines@[k].view());
                        assert(lines@[k].compressed()[c] == shares@[k]@[c]);
                    }
                }
            }
            if scale == 1 {
                assert forall|k: int, c: int| 0 <= k < n && 0 <= c < n implies #[trigger] p.grid()[k][c]
                    == shares@[k]@[c] by {
                    assert(p.grid()[k * s][c * s] == shares@[k]@[c]);
                }
            }
            if n == 1 {
                let side = p.side() as int;
                assert(p.spec_n_rows() == 1 && p.spec_scale() == s);
                assert(side == s) by (nonlinear_arith)
                    requires
                        side == p.spec_n_rows() * p.spec_scale(),
                        p.spec_n_rows() == 1,
                        p.spec_scale() == s,
                ;
                let col0 = values(column(p.grid(), 0 * s));
                assert(values(share_column(shares@, 0)) =~= seq![shares@[0]@[0].value()]);
                assert(all_wf(shares@[0]@));
                assert(shares@[0]@[0].wf());
                lemma_extension_of_one_sample(
                    col0,
                    values(share_column(shares@, 0)),
                    root_of_unity(1),
                    root_of_unity(p.side()),
                );
                assert forall|i: int, c: int| 0 <= i < side && 0 <= c < side implies #[trigger] p.grid()[i][c]
                    == shares@[0]@[0] by {
                    let row = p.grid()[i];
                    assert(all_wf(row));
                    vstd::arithmetic::div_mod::lemma_div_multiples_vanish(1, s);
                    assert(compressed_of(row, scale as nat).len() == 1);
                    assert(row[0 * s].wf());
                    lemma_extension_of_one_sample(
                        values(row),
                        values(compressed_of(row, scale as nat)),
                        root_of_unity(1),
                        root_of_unity(p.side()),
                    );
                    assert(values(row)[c] == row[0].value());
                    lemma_value_injective(row[c], row[0]);
                    assert(col0[i] == shares@[0]@[0].value());
                    lemma_value_injective(row[0], shares@[0]@[0]);
                }
            }
        }
        Ok(p)
    }

    /// Commits to the polynomial of degree below `n` through row `rid`.
    pub fn commit_to_row(&self, rid: usize) -> (r: Result<Commitment, CodingError>)
        requires
            self.wf(),
            rid < self.side(),
        ensures
            r matches Ok(c) ==> c.bytes@ == commitment_of(self.params(), self.row_coeffs(rid as int)),
            r matches Err(e) ==> e == CodingError::CommitmentFailure,
            self.can_commit() ==> r is Ok,
    {
        proof {
            self.lemma_rows_fit();
        }
        self.commit_to_poly(&self.square.row_poly(rid))
    }

    /// Commits to the polynomial of degree below `n` through column `cid` on the
    /// real rows.
    pub fn commit_to_col(&self, cid: usize) -> (r: Result<Commitment, CodingError>)
        requires
            self.wf(),
            cid < self.side(),
        ensures
            r matches Ok(c) ==> c.bytes@ == commitment_of(self.params(), self.col_coeffs(cid as int)),
            r matches Err(e) ==> e == CodingError::CommitmentFailure,
            self.can_commit() ==> r is Ok,
    {
        proof {
            self.lemma_rows_fit();
        }
        self.commit_to_poly(&self.square.col_poly(cid))
    }

    /// A row or column polynomial has at most `n` coefficients, fewer than the
    /// powers of `G` when the prover can commit.
    proof fn lemma_rows_fit(&self)
        requires
            self.wf(),
        ensures
            self.spec_n_rows() <= self.side(),
            self.side() >= 1,
    {
        self.square.lemma_wf();
        lemma_side_positive(self.spec_n_rows(), self.spec_scale());
        assert(self.spec_n_rows() <= self.side()) by (nonlinear_arith)
            requires
                self.side() == self.spec_n_rows() * self.spec_scale(),
                self.spec_scale() >= 1,
        ;
    }

    fn commit_to_poly(&self, poly: &Poly) -> (r: Result<Commitment, CodingError>)
        requires
            poly.wf(),
        ensures
            r matches Ok(c) ==> c.bytes@ == commitment_of(self.params(), poly.coeff_values()),
            r matches Err(e) ==> e == CodingError::CommitmentFailure,
            powers_of_g_count(self.params()) matches Some(k) && 1 <= k && poly.coeffs@.len() <= k ==> r is Ok,
    {
        // not a hiding commitment, so no hiding bound and no randomness
        match kzg_commit(&self.params, poly) {
            Some(com) => Ok(com),
            None => Err(CodingError::CommitmentFailure),
        }
    }

    fn hash_commitment(&self, com: &Commitment) -> (r: [u8; 32])
        ensures
            r@ == sha256_of(com.bytes@),
    {
        sha256(&com.bytes)
    }

    /// The Merkle root over the digests of the commitments to every row.
    pub fn row_root(&self) -> (r: Result<[u8; 32], CodingError>)
        requires
            self.wf(),
        ensures
            r matches Ok(h) ==> h@ == self.spec_row_root(),
            r matches Err(e) ==> e == CodingError::CommitmentFailure,
            self.can_commit() ==> r is Ok,
    {
        let ghost want = Seq::new(
            self.side(),
            |i: int| sha256_of(commitment_of(self.params(), self.row_coeffs(i))),
        );
        let mut leaves: Vec<[u8; 32]> = Vec::new();
        let mut rid: usize = 0;
        while rid < self.max_degree
            invariant
                self.wf(),
                want == Seq::new(
                    self.side(),
                    |i: int| sha256_of(commitment_of(self.params(), self.row_coeffs(i))),
                ),
                rid <= self.max_degree,
                leaves@.len() == rid,
                forall|i: int| 0 <= i < rid ==> (#[trigger] leaves@[i])@ == want[i],
            decreases self.max_degree - rid,
        {
            let com = match self.commit_to_row(rid) {
                Ok(c) => c,
                Err(e) => return Err(e),
            };
            leaves.push(self.hash_commitment(&com));
            rid = rid + 1;
        }
        assert(digests(leaves@) =~= want);
        proof {
            self.square.lemma_wf();
            lemma_side_positive(self.spec_n_rows(), self.spec_scale());
        }
        match merkle_root(&leaves) {
            Some(h) => Ok(h),
            None => Err(CodingError::MerkleConstructionFailure),
        }
    }

    /// The Merkle root over the digests of the commitments to every column.
    pub fn col_root(&self) -> (r: Result<[u8; 32], CodingError>)
        requires
            self.wf(),
        ensures
            r matches Ok(h) ==> h@ == self.spec_col_root(),
            r matches Err(e) ==> e == CodingError::CommitmentFailure,
            self.can_commit() ==> r is Ok,
    {
        let ghost want = Seq::new(
            self.side(),
            |i: int| sha256_of(commitment_of(self.params(), self.col_coeffs(i))),
        );
        let mut leaves: Vec<[u8; 32]> = Vec::new();
        let mut cid: usize = 0;
        while cid < self.max_degree
            invariant
                self.wf(),
                want == Seq::new(
                    self.side(),
                    |i: int| sha256_of(commitment_of(self.params(), self.col_coeffs(i))),
                ),
                cid <= self.max_degree,
                leaves@.len() == cid,
                forall|i: int| 0 <= i < cid ==> (#[trigger] leaves@[i])@ == want[i],
            decreases self.max_degree - cid,
        {
            let com = match self.commit_to_col(cid) {
                Ok(c) => c,
                Err(e) => return Err(e),
            };
            leaves.push(self.hash_commitment(&com));
            cid = cid + 1;
        }
        assert(digests(leaves@) =~= want);
        proof {
            self.square.lemma_wf();
            lemma_side_positive(self.spec_n_rows(), self.spec_scale());
        }
        match merkle_root(&leaves) {
            Some(h) => Ok(h),
            None => Err(CodingError::MerkleConstructionFailure),
        }
    }

    /// The Merkle root over the row root and the column root: the attestation
    /// for the whole grid.
    pub fn root(&self) -> (r: Result<[u8; 32], CodingError>)
        requires
            self.wf(),
        ensures
            r matches Ok(h) ==> h@ == self.spec_root(),
            r matches Err(e) ==> e == CodingError::CommitmentFailure,
            self.can_commit() ==> r is Ok,
    {
        let row = match self.row_root() {
            Ok(h) => h,
            Err(e) => return Err(e),
        };
        let col = match self.col_root() {
            Ok(h) => h,
            Err(e) => return Err(e),
        };
        let leaves: Vec<[u8; 32]> = vec![row, col];
        assert(digests(leaves@) =~= seq![self.spec_row_root(), self.spec_col_root()]);
        match merkle_root(&leaves) {
            Some(h) => Ok(h),
            None => Err(CodingError::MerkleConstructionFailure),
        }
    }

    /// The prover holds the extension of the `n x n` grid `shares` by `scale`: the
    /// grid is kept at the real positions, every row lies on a polynomial of degree
    /// below `n`, and so does every real column, through the shares' column.
    pub open spec fn encodes(&self, shares: Seq<Vec<Scalar>>, scale: nat) -> bool {
        let n = shares.len();
        &&& self.wf()
        &&& self.spec_n_rows() == n
        &&& self.spec_scale() == scale
        &&& self.grid().len() == self.side()
        &&& forall|k: int, c: int|
            0 <= k < n && 0 <= c < n ==> #[trigger] self.grid()[k * scale][c * scale]
                == shares[k]@[c]
        &&& forall|i: int|
            0 <= i < self.side() ==> extends(
                values(#[trigger] self.grid()[i]),
                values(compressed_of(self.grid()[i], scale)),
                root_of_unity(n),
                root_of_unity(self.side()),
            )
        &&& forall|c: int|
            0 <= c < n ==> extends(
                values(column(self.grid(), #[trigger] (c * scale))),
                values(share_column(shares, c)),
                root_of_unity(n),
                root_of_unity(self.side()),
            )
        &&& scale == 1 ==> self.side() == n && forall|k: int, c: int|
            0 <= k < n && 0 <= c < n ==> #[trigger] self.grid()[k][c] == shares[k]@[c]
        &&& n == 1 ==> forall|i: int, c: int|
            0 <= i < self.side() && 0 <= c < self.side() ==> #[trigger] self.grid()[i][c] == shares[0]@[0]
        &&& value_grid(self.grid()) == encoded(laid_out(shares, scale), scale, n)
        &&& grid_ok(shares, scale)
        &&& forall|k: int, c: int|
            0 <= k < n && 0 <= c < self.side() ==> #[trigger] value_grid(self.grid())[k * scale][c]
                == extension_values(values(shares[k]@), self.side())[c]
        &&& forall|r: int, c: int|
            0 <= r < self.side() && 0 <= c < n ==> #[trigger] value_grid(self.grid())[r][c * scale]
                == extension_values(values(share_column(shares, c)), self.side())[r]
    }

    /// The public parameters hold more powers of `G` than the side length, so every
    /// row and column polynomial (degree below `n`) can be committed to.
    pub open spec fn can_commit(&self) -> bool {
        powers_of_g_count(self.params()) matches Some(k) && k > self.side()
    }

    /// The coefficients of the polynomial through the compressed values of row `rid`.
    pub open spec fn row_coeffs(&self, rid: int) -> Seq<int> {
        interpolation_of(values(compressed_of(self.grid()[rid], self.spec_scale())))
    }

    /// The coefficients of the polynomial through column `cid` on the real rows.
    pub open spec fn col_coeffs(&self, cid: int) -> Seq<int> {
        interpolation_of(values(real_samples(self.grid(), self.spec_scale(), self.spec_n_rows(), cid)))
    }

    /// The root over the digests of the row commitments.
    pub open spec fn spec_row_root(&self) -> Seq<u8> {
        merkle_root_of(
            Seq::new(self.side(), |i: int| sha256_of(commitment_of(self.params(), self.row_coeffs(i)))),
        )
    }

    /// The root over the digests of the column commitments.
    pub open spec fn spec_col_root(&self) -> Seq<u8> {
        merkle_root_of(
            Seq::new(self.side(), |i: int| sha256_of(commitment_of(self.params(), self.col_coeffs(i)))),
        )
    }

    /// The root over the row root and the column root.
    pub open spec fn spec_root(&self) -> Seq<u8> {
        merkle_root_of(seq![self.spec_row_root(), self.spec_col_root()])
    }
}

} // verus!
