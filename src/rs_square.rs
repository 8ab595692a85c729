use vstd::prelude::*;
use crate::error::CodingError;
use crate::field::{zero_scalar, Scalar};
use crate::poly::{
    all_wf, extension_values, extends, interpolates, interpolation_of, is_pow2, lemma_stride, max_domain_size, values,
    EvalDomain, Poly,
};
use crate::rs_line::{compressed_of, RsLine};

verus! {

/// `x & (x - 1)` clears the lowest set bit, so it is zero exactly for powers of two.
proof fn lemma_lowest_bit(x: usize)
    requires
        x > 0,
    ensures
        (x & ((x - 1) as usize) == 0) == is_pow2(x as nat),
    decreases x,
{
    if x == 1 {
        assert(1usize & 0usize == 0) by (bit_vector);
    } else if x % 2 == 1 {
        assert(x & ((x - 1) as usize) != 0) by (bit_vector)
            requires
                x > 1,
                x % 2 == 1,
        ;
    } else {
        let y = x / 2;
        assert((x & ((x - 1) as usize) == 0) == (y & ((y - 1) as usize) == 0)) by (bit_vector)
            requires
                x > 1,
                x % 2 == 0,
                y == x / 2,
        ;
        lemma_lowest_bit(y);
    }
}

/// Whether `x` is a power of two.
pub fn is_power_of_two(x: usize) -> (r: bool)
    ensures
        r == is_pow2(x as nat),
{
    if x == 0 {
        return false;
    }
    proof {
        lemma_lowest_bit(x);
    }
    if x & (x - 1) == 0 {
        return true;
    }
    false
}

/// Column `c` of a grid stored by rows.
pub open spec fn column(g: Seq<Seq<Scalar>>, c: int) -> Seq<Scalar> {
    Seq::new(g.len(), |r: int| g[r][c])
}

/// Column `c` read on the real rows `0, s, 2s, ...` only: `n` values.
pub open spec fn real_samples(g: Seq<Seq<Scalar>>, s: nat, n: nat, c: int) -> Seq<Scalar> {
    Seq::new(n, |k: int| g[k * s][c])
}

/// The integers a grid of field elements stands for.
pub open spec fn value_grid(g: Seq<Seq<Scalar>>) -> Seq<Seq<int>> {
    g.map_values(|row: Seq<Scalar>| values(row))
}

/// The entries of `row` at every `s`-th position.
pub open spec fn every_nth(row: Seq<int>, s: nat) -> Seq<int> {
    Seq::new(row.len() / s, |i: int| row[i * s])
}

/// Column `c` of `g` on the real rows `0, s, 2s, ...`: `n` entries.
pub open spec fn real_column(g: Seq<Seq<int>>, s: nat, n: nat, c: int) -> Seq<int> {
    Seq::new(n, |k: int| g[k * s][c])
}

/// Extends the real rows (`on_real`) or the other rows (`!on_real`) of a square
/// grid from their entries at every `s`-th position.
pub open spec fn row_pass(g: Seq<Seq<int>>, s: nat, on_real: bool) -> Seq<Seq<int>> {
    Seq::new(
        g.len(),
        |r: int|
            if (r % (s as int) == 0) == on_real {
                extension_values(every_nth(g[r], s), g.len())
            } else {
                g[r]
            },
    )
}

/// Replaces every column of a square grid by the extension of its real entries.
pub open spec fn column_pass(g: Seq<Seq<int>>, s: nat, n: nat) -> Seq<Seq<int>> {
    Seq::new(g.len(), |r: int| Seq::new(g.len(), |c: int| extension_values(real_column(g, s, n, c), g.len())[r]))
}

/// The two-pass encoding of a square grid whose real rows and columns carry the
/// `n x n` data: real rows, then all columns, then the other rows.
pub open spec fn encoded(g: Seq<Seq<int>>, s: nat, n: nat) -> Seq<Seq<int>> {
    row_pass(column_pass(row_pass(g, s, true), s, n), s, false)
}

/// A square grid of `n_rows * scale` rows of as many field elements, whose real
/// rows and columns (indices that are multiples of `scale`) carry the data.
#[derive(Debug)]
pub struct RsSquare {
    /// Original shares are presented as n_row by n_row field elements
    n_rows: usize,
    /// Factor used to scale original data square to encoded square
    scale: usize,
    /// Encoded square side-length (= n_rows*scale)
    length: usize,
    /// Rows of the Encoded Square
    rows: Vec<RsLine>,
    /// 2-adic domain used to interpolate original data shares over
    small_domain: EvalDomain,
    /// 2-adic domain used to evaluate interpolated polynomials
    /// over to fill in the encoded square
    large_domain: EvalDomain,
}

impl RsSquare {
    /// The grid, row by row.
    pub closed spec fn grid(&self) -> Seq<Seq<Scalar>> {
        self.rows@.map_values(|l: RsLine| l.view())
    }

    pub closed spec fn spec_n_rows(&self) -> nat {
        self.n_rows as nat
    }

    pub closed spec fn spec_scale(&self) -> nat {
        self.scale as nat
    }

    /// The side length.
    pub open spec fn side(&self) -> nat {
        self.spec_n_rows() * self.spec_scale()
    }

    /// The generator of the subgroup of order `n_rows`.
    pub closed spec fn small_gen(&self) -> int {
        self.small_domain.group_gen.value()
    }

    /// The generator of the subgroup of order `n_rows * scale`.
    pub closed spec fn large_gen(&self) -> int {
        self.large_domain.group_gen.value()
    }

    /// Row count and scale are powers of two, the side fits the field's largest
    /// subgroup, and every row is a line of that length and scale.
    pub closed spec fn wf(&self) -> bool {
        &&& is_pow2(self.n_rows as nat)
        &&& is_pow2(self.scale as nat)
        &&& self.length == self.n_rows * self.scale
        &&& self.length <= max_domain_size()
        &&& self.rows@.len() == self.length
        &&& forall|r: int|
            0 <= r < self.length ==> {
                &&& (#[trigger] self.rows@[r]).wf()
                &&& self.rows@[r].spec_scale() == self.scale
                &&& self.rows@[r].view().len() == self.length
            }
        &&& self.small_domain.wf()
        &&& self.small_domain.size == self.n_rows
        &&& self.large_domain.wf()
        &&& self.large_domain.size == self.length
    }

    /// What `wf` gives to callers.
    pub proof fn lemma_wf(&self)
        requires
            self.wf(),
        ensures
            is_pow2(self.spec_n_rows()),
            is_pow2(self.spec_scale()),
            self.side() <= max_domain_size(),
            self.grid().len() == self.side(),
            forall|r: int| 0 <= r < self.side() ==> (#[trigger] self.grid()[r]).len() == self.side(),
            forall|r: int| 0 <= r < self.side() ==> all_wf(#[trigger] self.grid()[r]),
            self.small_gen() == crate::poly::root_of_unity(self.spec_n_rows()),
            self.large_gen() == crate::poly::root_of_unity(self.side()),
    {
    }

    /// Interleaves the data rows with zero rows: row `idx` is `data_rows[idx / scale]`
    /// where `idx % scale == 0`, and zeros elsewhere.
    pub fn new(data_rows: &[RsLine], scale: usize) -> (r: Result<RsSquare, CodingError>)
        requires
            forall|i: int| 0 <= i < data_rows@.len() ==> (#[trigger] data_rows@[i]).wf(),
        ensures
            ({
                let n = data_rows@.len();
                let dims = is_pow2(n) && is_pow2(scale as nat) && n * scale <= usize::MAX;
                let rows_fit = forall|i: int|
                    0 <= i < n ==> (#[trigger] data_rows@[i]).view().len() == n * scale;
                &&& r is Ok <==> dims && n * scale <= max_domain_size() && rows_fit
                &&& r == Err::<RsSquare, CodingError>(CodingError::DomainUnavailable) <==> dims && n
                    * scale > max_domain_size()
                &&& r == Err::<RsSquare, CodingError>(CodingError::InvalidDimension) <==> !dims || (
                n * scale <= max_domain_size() && !rows_fit)
            }),
            r matches Ok(sq) ==> {
                &&& sq.wf()
                &&& sq.spec_n_rows() == data_rows@.len()
                &&& sq.spec_scale() == scale
                &&& forall|idx: int|
                    0 <= idx < sq.side() ==> #[trigger] sq.grid()[idx] == if idx % (scale as int)
                        == 0 {
                        data_rows@[idx / (scale as int)].view()
                    } else {
                        Seq::new(sq.side(), |i: int| zero_scalar())
                    }
            },
    {
        let n_rows = data_rows.len();
        if !is_power_of_two(n_rows) || !is_power_of_two(scale) {
            return Err(CodingError::InvalidDimension);
        }
        let length = match n_rows.checked_mul(scale) {
            Some(l) => l,
            None => return Err(CodingError::InvalidDimension),
        };
        proof {
            crate::poly::lemma_pow2_mul(n_rows as nat, scale as nat);
        }
        let large_domain = match EvalDomain::new(length) {
            Some(d) => d,
            None => return Err(CodingError::DomainUnavailable),
        };
        assert(n_rows <= length) by (nonlinear_arith)
            requires
                length == n_rows * scale,
                scale >= 1,
        ;
        let small_domain = match EvalDomain::new(n_rows) {
            Some(d) => d,
            None => return Err(CodingError::DomainUnavailable),
        };
        let mut zero_vec: Vec<Scalar> = Vec::new();
        let mut z: usize = 0;
        while z < n_rows
            invariant
                z <= n_rows,
                zero_vec@.len() == z,
                forall|k: int| 0 <= k < z ==> #[trigger] zero_vec@[k] == zero_scalar(),
            decreases n_rows - z,
        {
            zero_vec.push(Scalar::zero());
            z = z + 1;
        }
        let mut rows: Vec<RsLine> = Vec::with_capacity(length);
        let mut idx: usize = 0;
        while idx < length
            invariant
                idx <= length,
                length == n_rows * scale,
                length <= max_domain_size(),
                is_pow2(n_rows as nat),
                is_pow2(scale as nat),
                n_rows == data_rows@.len(),
                zero_vec@.len() == n_rows,
                forall|k: int| 0 <= k < n_rows ==> #[trigger] zero_vec@[k] == zero_scalar(),
                forall|i: int| 0 <= i < data_rows@.len() ==> (#[trigger] data_rows@[i]).wf(),
                rows@.len() == idx,
                forall|r: int|
                    0 <= r < idx ==> {
                        &&& (#[trigger] rows@[r]).wf()
                        &&& rows@[r].spec_scale() == scale
                        &&& rows@[r].view().len() == length
                        &&& rows@[r].view() == if r % (scale as int) == 0 {
                            data_rows@[r / (scale as int)].view()
                        } else {
                            Seq::new(length as nat, |i: int| zero_scalar())
                        }
                    },
            decreases length - idx,
        {
            if idx % scale == 0 {
                assert(idx / scale < n_rows) by (nonlinear_arith)
                    requires
                        idx < n_rows * scale,
                        scale > 0,
                ;
                let row = &data_rows[idx / scale];
                if row.length() != length {
                    proof {
                        let k = (idx / scale) as int;
                        assert(k * scale == idx) by (nonlinear_arith)
                            requires
                                k == idx / scale,
                                idx % scale == 0,
                                scale > 0,
                        ;
                        assert(data_rows@[k].view().len() != n_rows * scale);
                    }
                    return Err(CodingError::InvalidDimension);
                }
                proof {
                    vstd::arithmetic::div_mod::lemma_div_multiples_vanish(n_rows as int, scale as int);
                    vstd::arithmetic::mul::lemma_mul_is_commutative(n_rows as int, scale as int);
                }
                // a data row may have been laid out at another scale: it is read
                // at the square's scale
                rows.push(row.relaid(scale));
            } else {
                let line = match RsLine::new(zero_vec.as_slice(), scale) {
                    Ok(l) => l,
                    Err(e) => return Err(e),
                };
                assert forall|i: int| 0 <= i < length implies #[trigger] line.view()[i]
                    == zero_scalar() by {
                    assert(line.view()[i] == crate::rs_line::spread(zero_vec@, scale as nat, i));
                    assert(i / (scale as int) < n_rows) by (nonlinear_arith)
                        requires
                            0 <= i < n_rows * scale,
                            scale > 0,
                    ;
                }
                assert(line.view() =~= Seq::new(length as nat, |i: int| zero_scalar()));
                rows.push(line);
            }
            idx = idx + 1;
        }
        let sq = RsSquare { n_rows, scale, length, rows, small_domain, large_domain };
        assert(forall|i: int| 0 <= i < n_rows ==> (#[trigger] data_rows@[i]).view().len() == length)
            by {
            assert forall|i: int| 0 <= i < n_rows implies (#[trigger] data_rows@[i]).view().len()
                == length by {
                lemma_stride(i, n_rows as int, scale as int);
                assert(rows@[i * scale].view() == data_rows@[i].view());
            }
        }
        Ok(sq)
    }

    /// The same sizes and domains.
    pub closed spec fn same_frame(&self, o: &RsSquare) -> bool {
        &&& self.n_rows == o.n_rows
        &&& self.scale == o.scale
        &&& self.length == o.length
        &&& self.small_domain == o.small_domain
        &&& self.large_domain == o.large_domain
    }

    /// A line of the square's side and scale holds `n_rows` shares.
    proof fn lemma_line_shares(&self, line: RsLine)
        requires
            self.wf(),
            line.spec_scale() == self.scale,
            line.view().len() == self.length,
        ensures
            line.n_shares() == self.n_rows,
    {
        vstd::arithmetic::div_mod::lemma_div_multiples_vanish(self.n_rows as int, self.scale as int);
        vstd::arithmetic::mul::lemma_mul_is_commutative(self.n_rows as int, self.scale as int);
    }

    /// The element at row `rid`, column `cid`.
    pub fn val_at(&self, rid: usize, cid: usize) -> (r: Scalar)
        requires
            self.wf(),
            rid < self.side(),
            cid < self.side(),
        ensures
            r == self.grid()[rid as int][cid as int],
    {
        self.rows[rid].get_element_at(cid)
    }

    /// Writes `line` into column `cid`.
    fn set_col(&mut self, cid: usize, line: &RsLine)
        requires
            old(self).wf(),
            cid < old(self).length,
            line.wf(),
            line.view().len() == old(self).length,
        ensures
            final(self).wf(),
            final(self).same_frame(old(self)),
            forall|r: int|
                0 <= r < old(self).length ==> #[trigger] final(self).grid()[r] == old(self).grid()[r].update(
                    cid as int,
                    line.view()[r],
                ),
    {
        let ghost g = self.grid();
        let mut rid: usize = 0;
        while rid < self.length
            invariant
                self.wf(),
                self.same_frame(old(self)),
                g == old(self).grid(),
                cid < self.length,
                line.wf(),
                line.view().len() == self.length,
                rid <= self.length,
                forall|r: int|
                    0 <= r < rid ==> #[trigger] self.grid()[r] == g[r].update(cid as int, line.view()[r]),
                forall|r: int| rid <= r < self.length ==> #[trigger] self.grid()[r] == g[r],
            decreases self.length - rid,
        {
            let ghost rows_before = self.rows@;
            let ghost grid_before = self.grid();
            assert(self.grid()[rid as int] == g[rid as int]);
            let v = line.get_element_at(rid);
            self.rows[rid].set_element_at(cid, v);
            proof {
                assert(self.rows@ == rows_before.update(rid as int, self.rows@[rid as int]));
                assert(self.grid()[rid as int] == g[rid as int].update(cid as int, line.view()[rid as int]));
                assert forall|r: int| 0 <= r < self.length && r != rid implies #[trigger] self.grid()[r]
                    == grid_before[r] by {
                }
            }
            rid = rid + 1;
        }
    }

    /// Extends row `rid` from the small domain to the large one.
    fn extend_row(&mut self, rid: usize)
        requires
            old(self).wf(),
            rid < old(self).length,
        ensures
            final(self).wf(),
            final(self).same_frame(old(self)),
            forall|r: int|
                0 <= r < old(self).length && r != rid ==> #[trigger] final(self).grid()[r]
                    == old(self).grid()[r],
            extends(
                values(final(self).grid()[rid as int]),
                values(compressed_of(old(self).grid()[rid as int], old(self).scale as nat)),
                old(self).small_gen(),
                old(self).large_gen(),
            ),
            compressed_of(final(self).grid()[rid as int], old(self).scale as nat) == compressed_of(
                old(self).grid()[rid as int],
                old(self).scale as nat,
            ),
            value_grid(final(self).grid())[rid as int] == extension_values(
                every_nth(value_grid(old(self).grid())[rid as int], old(self).scale as nat),
                old(self).length as nat,
            ),
    {
        proof {
            self.lemma_line_shares(self.rows@[rid as int]);
        }
        let ghost row = self.grid()[rid as int];
        self.rows[rid].extend(&self.small_domain, &self.large_domain);
        assert(values(compressed_of(row, self.scale as nat)) =~= every_nth(values(row), self.scale as nat)) by {
            assert forall|i: int| 0 <= i < self.n_rows implies #[trigger] values(
                compressed_of(row, self.scale as nat),
            )[i] == every_nth(values(row), self.scale as nat)[i] by {
                lemma_stride(i, self.n_rows as int, self.scale as int);
            }
        }
    }

    /// Extends column `cid`: its values on the real rows, read as evaluations on
    /// the small domain, are re-evaluated on the large domain and written back.
    fn extend_col(&mut self, cid: usize)
        requires
            old(self).wf(),
            cid < old(self).length,
        ensures
            final(self).wf(),
            final(self).same_frame(old(self)),
            forall|r: int, c: int|
                0 <= r < old(self).length && 0 <= c < old(self).length && c != cid ==> #[trigger] final(self).grid()[r][c] == old(self).grid()[r][c],
            forall|k: int|
                0 <= k < old(self).n_rows ==> #[trigger] final(self).grid()[k * old(self).scale][cid as int]
                    == old(self).grid()[k * old(self).scale][cid as int],
            extends(
                values(column(final(self).grid(), cid as int)),
                values(real_samples(old(self).grid(), old(self).scale as nat, old(self).n_rows as nat, cid as int)),
                old(self).small_gen(),
                old(self).large_gen(),
            ),
            forall|r: int|
                0 <= r < old(self).length ==> #[trigger] value_grid(final(self).grid())[r][cid as int]
                    == extension_values(
                    real_column(value_grid(old(self).grid()), old(self).scale as nat, old(self).n_rows as nat, cid as int),
                    old(self).length as nat,
                )[r],
    {
        let ghost g = self.grid();
        let ghost samples = real_samples(g, self.scale as nat, self.n_rows as nat, cid as int);
        // we don't have immediate access to the column,
        // so first build it, then extend it, then set it in the square.
        let mut col: Vec<Scalar> = Vec::new();
        let mut rid: usize = 0;
        while rid < self.n_rows
            invariant
                self.wf(),
                g == self.grid(),
                samples == real_samples(g, self.scale as nat, self.n_rows as nat, cid as int),
                cid < self.length,
                rid <= self.n_rows,
                col@ == samples.subrange(0, rid as int),
                all_wf(col@),
            decreases self.n_rows - rid,
        {
            proof {
                lemma_stride(rid as int, self.n_rows as int, self.scale as int);
            }
            let v = self.rows[rid * self.scale].get_element_at(cid);
            assert(v == self.grid()[rid * self.scale][cid as int]);
            assert(v == samples[rid as int]);
            col.push(v);
            rid = rid + 1;
            assert(col@ =~= samples.subrange(0, rid as int));
        }
        assert(col@ =~= samples);
        let mut line = match RsLine::new(col.as_slice(), self.scale) {
            Ok(l) => l,
            Err(_) => return ,
        };
        proof {
            self.lemma_line_shares(line);
        }
        line.extend(&self.small_domain, &self.large_domain);
        self.set_col(cid, &line);
        assert(column(self.grid(), cid as int) =~= line.view());
        assert(values(samples) =~= real_column(value_grid(g), self.scale as nat, self.n_rows as nat, cid as int))
            by {
            assert forall|k: int| 0 <= k < self.n_rows implies #[trigger] values(samples)[k] == real_column(
                value_grid(g),
                self.scale as nat,
                self.n_rows as nat,
                cid as int,
            )[k] by {
                lemma_stride(k, self.n_rows as int, self.scale as int);
                assert(value_grid(g)[k * self.scale] == values(g[k * self.scale]));
            }
        }
        assert forall|r: int| 0 <= r < self.length implies #[trigger] value_grid(self.grid())[r][cid as int]
            == extension_values(
            real_column(value_grid(g), self.scale as nat, self.n_rows as nat, cid as int),
            self.length as nat,
        )[r] by {
            assert(self.grid()[r][cid as int] == line.view()[r]);
        }
        assert forall|k: int| 0 <= k < self.n_rows implies #[trigger] self.grid()[k * self.scale][cid as int]
            == g[k * self.scale][cid as int] by {
            lemma_stride(k, self.n_rows as int, self.scale as int);
            assert(line.compressed()[k] == samples[k]);
        }
    }

    /// The two-pass encoding: the real rows are extended, then every column, then
    /// the rows that were not real, so that every row and every real column of the
    /// result lies on a polynomial of degree below `n_rows`.
    pub fn extend(&mut self)
        requires
            old(self).wf(),
        ensures
            final(self).wf(),
            final(self).same_frame(old(self)),
            final(self).spec_n_rows() == old(self).spec_n_rows(),
            final(self).spec_scale() == old(self).spec_scale(),
            final(self).small_gen() == old(self).small_gen(),
            final(self).large_gen() == old(self).large_gen(),
            forall|k: int, c: int|
                0 <= k < old(self).spec_n_rows() && 0 <= c < old(self).spec_n_rows() ==> #[trigger] final(self).grid()[k * old(self).spec_scale()][c * old(self).spec_scale()] == old(self).grid()[k
                    * old(self).spec_scale()][c * old(self).spec_scale()],
            forall|r: int|
                0 <= r < old(self).side() ==> extends(
                    values(#[trigger] final(self).grid()[r]),
                    values(compressed_of(final(self).grid()[r], old(self).spec_scale())),
                    old(self).small_gen(),
                    old(self).large_gen(),
                ),
            forall|c: int|
                0 <= c < old(self).spec_n_rows() ==> extends(
                    values(column(final(self).grid(), #[trigger] (c * old(self).spec_scale()))),
                    values(
                        real_samples(
                            old(self).grid(),
                            old(self).spec_scale(),
                            old(self).spec_n_rows(),
                            c * old(self).spec_scale(),
                        ),
                    ),
                    old(self).small_gen(),
                    old(self).large_gen(),
                ),
            value_grid(final(self).grid()) == encoded(
                value_grid(old(self).grid()),
                old(self).spec_scale(),
                old(self).spec_n_rows(),
            ),
            forall|k: int, c: int|
                0 <= k < old(self).spec_n_rows() && 0 <= c < old(self).side() ==> #[trigger] value_grid(
                    final(self).grid(),
                )[k * old(self).spec_scale()][c] == extension_values(
                    values(compressed_of(old(self).grid()[k * old(self).spec_scale()], old(self).spec_scale())),
                    old(self).side(),
                )[c],
            forall|r: int, c: int|
                0 <= r < old(self).side() && 0 <= c < old(self).spec_n_rows() ==> #[trigger] value_grid(
                    final(self).grid(),
                )[r][c * old(self).spec_scale()] == extension_values(
                    values(
                        real_samples(
                            old(self).grid(),
                            old(self).spec_scale(),
                            old(self).spec_n_rows(),
                            c * old(self).spec_scale(),
                        ),
                    ),
                    old(self).side(),
                )[r],
    {
        let ghost g0 = self.grid();
        let ghost g0v = value_grid(g0);
        proof {
            self.lemma_wf();
        }
        let ghost p1 = row_pass(g0v, self.scale as nat, true);
        let ghost s = self.scale as int;
        let ghost n = self.n_rows as int;
        let ghost len = self.length as int;
        // extend rows for which we originally have data shares in
        let mut rid: usize = 0;
        while rid < self.n_rows
            invariant
                self.wf(),
                self.same_frame(old(self)),
                g0 == old(self).grid(),
                s == self.scale,
                n == self.n_rows,
                len == self.length,
                rid <= n,
                forall|k: int|
                    0 <= k < rid ==> {
                        &&& extends(
                            values(#[trigger] self.grid()[k * s]),
                            values(compressed_of(g0[k * s], s as nat)),
                            old(self).small_gen(),
                            old(self).large_gen(),
                        )
                        &&& compressed_of(self.grid()[k * s], s as nat) == compressed_of(g0[k * s], s as nat)
                    },
                forall|k: int| rid <= k < n ==> #[trigger] self.grid()[k * s] == g0[k * s],
                g0v == value_grid(g0),
                g0v.len() == len,
                p1 == row_pass(g0v, s as nat, true),
                forall|r: int|
                    0 <= r < len ==> #[trigger] value_grid(self.grid())[r] == if r % s == 0 && r / s < rid {
                        p1[r]
                    } else {
                        g0v[r]
                    },
            decreases n - rid,
        {
            proof {
                lemma_stride(rid as int, n, s);
            }
            let ghost before = self.grid();
            self.extend_row(rid * self.scale);
            proof {
                assert forall|k: int| 0 <= k < n && k != rid implies #[trigger] self.grid()[k * s]
                    == before[k * s] by {
                    lemma_stride(k, n, s);
                    if k < rid {
                        vstd::arithmetic::mul::lemma_mul_strict_inequality(k, rid as int, s);
                    } else {
                        vstd::arithmetic::mul::lemma_mul_strict_inequality(rid as int, k, s);
                    }
                }
                assert forall|r: int| 0 <= r < len implies #[trigger] value_grid(self.grid())[r] == if r % s
                    == 0 && r / s < rid + 1 {
                    p1[r]
                } else {
                    g0v[r]
                } by {
                    vstd::arithmetic::div_mod::lemma_fundamental_div_mod(r, s);
                    if r == rid * s {
                        assert(value_grid(before)[r] == values(g0[r]));
                        assert(value_grid(before)[r] == g0v[r]);
                        assert(r % s == 0 && r / s == rid);
                    } else {
                        assert(value_grid(self.grid())[r] == value_grid(before)[r]);
                        if r % s == 0 && r / s == rid {
                            vstd::arithmetic::mul::lemma_mul_is_commutative(s, rid as int);
                        }
                    }
                }
            }
            rid = rid + 1;
        }
        let ghost g1 = self.grid();
        assert(value_grid(g1) =~= p1) by {
            assert forall|r: int| 0 <= r < len implies #[trigger] value_grid(g1)[r] == p1[r] by {
                if r % s == 0 {
                    assert(r / s < n) by (nonlinear_arith)
                        requires
                            0 <= r < len,
                            len == n * s,
                            s > 0,
                    ;
                }
            }
        }
        let ghost g1v = value_grid(g1);
        let ghost p2 = column_pass(g1v, s as nat, n as nat);
        assert(forall|k: int|
            0 <= k < n ==> {
                &&& extends(
                    values(#[trigger] g1[k * s]),
                    values(compressed_of(g0[k * s], s as nat)),
                    old(self).small_gen(),
                    old(self).large_gen(),
                )
                &&& compressed_of(g1[k * s], s as nat) == compressed_of(g0[k * s], s as nat)
            });
        // each column now has enough shares to extend
        let mut cid: usize = 0;
        while cid < self.length
            invariant
                self.wf(),
                self.same_frame(old(self)),
                s == self.scale,
                n == self.n_rows,
                len == self.length,
                len == n * s,
                cid <= len,
                forall|k: int, c: int|
                    0 <= k < n && 0 <= c < len ==> #[trigger] self.grid()[k * s][c] == g1[k * s][c],
                forall|c: int|
                    0 <= c < cid ==> extends(
                        values(column(self.grid(), c)),
                        values(#[trigger] real_samples(g1, s as nat, n as nat, c)),
                        old(self).small_gen(),
                        old(self).large_gen(),
                    ),
                g1v.len() == len,
                p2 == column_pass(g1v, s as nat, n as nat),
                forall|r: int, c: int|
                    0 <= r < len && 0 <= c < len ==> #[trigger] value_grid(self.grid())[r][c] == if c < cid {
                        p2[r][c]
                    } else {
                        g1v[r][c]
                    },
            decreases len - cid,
        {
            let ghost before = self.grid();
            self.extend_col(cid);
            proof {
                assert forall|c: int| 0 <= c < cid implies column(self.grid(), c) =~= column(before, c) by {
                }
                assert(real_samples(before, s as nat, n as nat, cid as int) =~= real_samples(
                    g1,
                    s as nat,
                    n as nat,
                    cid as int,
                )) by {
                    assert forall|k: int| 0 <= k < n implies #[trigger] before[k * s][cid as int]
                        == g1[k * s][cid as int] by {
                        lemma_stride(k, n, s);
                    }
                }
                assert forall|k: int, c: int|
                    0 <= k < n && 0 <= c < len implies #[trigger] self.grid()[k * s][c] == g1[k * s][c] by {
                    lemma_stride(k, n, s);
                }
                assert(real_column(value_grid(before), s as nat, n as nat, cid as int) =~= real_column(
                    g1v,
                    s as nat,
                    n as nat,
                    cid as int,
                )) by {
                    assert forall|k: int| 0 <= k < n implies #[trigger] value_grid(before)[k * s][cid as int]
                        == g1v[k * s][cid as int] by {
                        lemma_stride(k, n, s);
                    }
                }
                assert forall|r: int, c: int| 0 <= r < len && 0 <= c < len implies #[trigger] value_grid(
                    self.grid(),
                )[r][c] == if c < cid + 1 {
                    p2[r][c]
                } else {
                    g1v[r][c]
                } by {
                    if c != cid {
                        assert(self.grid()[r][c] == before[r][c]);
                        assert(value_grid(before)[r][c] == value_grid(self.grid())[r][c]);
                    }
                }
            }
            cid = cid + 1;
        }
        let ghost g2 = self.grid();
        assert(value_grid(g2) =~= p2) by {
            assert forall|r: int| 0 <= r < len implies #[trigger] value_grid(g2)[r] =~= p2[r] by {
                assert forall|c: int| 0 <= c < len implies #[trigger] value_grid(g2)[r][c] == p2[r][c] by {
                }
            }
        }
        let ghost g2v = value_grid(g2);
        proof {
            self.lemma_wf();
        }
        let ghost p3 = row_pass(g2v, s as nat, false);
        assert(forall|k: int, c: int|
            0 <= k < n && 0 <= c < len ==> #[trigger] g2[k * s][c] == g1[k * s][c]);
        assert(forall|c: int|
            0 <= c < len ==> extends(
                values(column(g2, c)),
                values(#[trigger] real_samples(g1, s as nat, n as nat, c)),
                old(self).small_gen(),
                old(self).large_gen(),
            ));
        // extend rows we originally did not have enough shares to extend
        let mut rid: usize = 0;
        while rid < self.length
            invariant
                self.wf(),
                self.same_frame(old(self)),
                s == self.scale,
                n == self.n_rows,
                len == self.length,
                rid <= len,
                forall|r: int| 0 <= r < len && r % s == 0 ==> #[trigger] self.grid()[r] == g2[r],
                forall|r: int| rid <= r < len ==> #[trigger] self.grid()[r] == g2[r],
                forall|r: int|
                    0 <= r < rid && r % s != 0 ==> {
                        &&& extends(
                            values(#[trigger] self.grid()[r]),
                            values(compressed_of(g2[r], s as nat)),
                            old(self).small_gen(),
                            old(self).large_gen(),
                        )
                        &&& compressed_of(self.grid()[r], s as nat) == compressed_of(g2[r], s as nat)
                    },
                g2v == value_grid(g2),
                g2v.len() == len,
                p3 == row_pass(g2v, s as nat, false),
                forall|r: int|
                    0 <= r < len ==> #[trigger] value_grid(self.grid())[r] == if r < rid {
                        p3[r]
                    } else {
                        g2v[r]
                    },
            decreases len - rid,
        {
            let ghost before = self.grid();
            if rid % self.scale != 0 {
                self.extend_row(rid);
                assert(value_grid(before)[rid as int] == g2v[rid as int]);
            }
            proof {
                assert forall|r: int| 0 <= r < len implies #[trigger] value_grid(self.grid())[r] == if r < rid
                    + 1 {
                    p3[r]
                } else {
                    g2v[r]
                } by {
                    if r != rid {
                        assert(value_grid(self.grid())[r] == value_grid(before)[r]);
                    }
                }
            }
            rid = rid + 1;
        }
        assert(value_grid(self.grid()) =~= p3);
        proof {
            let gf = self.grid();
            self.lemma_wf();
            vstd::arithmetic::div_mod::lemma_div_multiples_vanish(n, s);
            vstd::arithmetic::mul::lemma_mul_is_commutative(n, s);
            assert(len / s == n);
            // real rows: extended in the first pass, untouched since
            assert forall|k: int| 0 <= k < n implies #[trigger] gf[k * s] =~= g1[k * s] by {
                lemma_stride(k, n, s);
                assert forall|c: int| 0 <= c < len implies #[trigger] gf[k * s][c] == g1[k * s][c] by {
                    assert(g2[k * s][c] == g1[k * s][c]);
                }
            }
            assert forall|k: int, c: int| 0 <= k < n && 0 <= c < n implies #[trigger] gf[k * s][c
                * s] == g0[k * s][c * s] by {
                lemma_stride(k, n, s);
                lemma_stride(c, n, s);
                assert(gf[k * s] == g1[k * s]);
                assert(compressed_of(g1[k * s], s as nat)[c] == compressed_of(g0[k * s], s as nat)[c]);
            }
            assert forall|r: int| 0 <= r < len implies extends(
                values(#[trigger] gf[r]),
                values(compressed_of(gf[r], s as nat)),
                old(self).small_gen(),
                old(self).large_gen(),
            ) by {
                if r % s == 0 {
                    let k = r / s;
                    assert(r == k * s && 0 <= k < n) by (nonlinear_arith)
                        requires
                            0 <= r < len,
                            len == n * s,
                            s > 0,
                            r % s == 0,
                            k == r / s,
                    ;
                    assert(gf[k * s] == g1[k * s]);
                }
            }
            assert forall|c: int| 0 <= c < n implies extends(
                values(column(gf, #[trigger] (c * s))),
                values(real_samples(g0, s as nat, n as nat, c * s)),
                old(self).small_gen(),
                old(self).large_gen(),
            ) by {
                lemma_stride(c, n, s);
                assert(column(gf, c * s) =~= column(g2, c * s)) by {
                    assert forall|r: int| 0 <= r < len implies #[trigger] gf[r][c * s] == g2[r][c * s] by {
                        if r % s != 0 {
                            assert(compressed_of(gf[r], s as nat)[c] == compressed_of(g2[r], s as nat)[c]);
                        }
                    }
                }
                assert(real_samples(g1, s as nat, n as nat, c * s) =~= real_samples(
                    g0,
                    s as nat,
                    n as nat,
                    c * s,
                )) by {
                    assert forall|k: int| 0 <= k < n implies #[trigger] g1[k * s][c * s] == g0[k * s][c * s] by {
                        lemma_stride(k, n, s);
                        assert(compressed_of(g1[k * s], s as nat)[c] == compressed_of(g0[k * s], s as nat)[c]);
                    }
                }
            }
            // real rows, exactly: the first pass, untouched since
            assert forall|k: int, c: int| 0 <= k < n && 0 <= c < len implies #[trigger] value_grid(gf)[k
                * s][c] == extension_values(values(compressed_of(g0[k * s], s as nat)), len as nat)[c] by {
                lemma_stride(k, n, s);
                assert(gf[k * s] == g1[k * s]);
                assert(value_grid(g1)[k * s] == p1[k * s]);
                assert(every_nth(g0v[k * s], s as nat) =~= values(compressed_of(g0[k * s], s as nat))) by {
                    assert forall|i: int| 0 <= i < n implies #[trigger] every_nth(g0v[k * s], s as nat)[i]
                        == values(compressed_of(g0[k * s], s as nat))[i] by {
                        lemma_stride(i, n, s);
                    }
                }
            }
            // real columns, exactly: the second pass, untouched since
            assert forall|r: int, c: int| 0 <= r < len && 0 <= c < n implies #[trigger] value_grid(gf)[r][c
                * s] == extension_values(values(real_samples(g0, s as nat, n as nat, c * s)), len as nat)[r] by {
                lemma_stride(c, n, s);
                if r % s != 0 {
                    assert(compressed_of(gf[r], s as nat)[c] == compressed_of(g2[r], s as nat)[c]);
                } else {
                    let k = r / s;
                    assert(r == k * s && 0 <= k < n) by (nonlinear_arith)
                        requires
                            0 <= r < len,
                            len == n * s,
                            s > 0,
                            r % s == 0,
                            k == r / s,
                    ;
                    assert(gf[k * s] == g1[k * s]);
                    assert(g2[k * s][c * s] == g1[k * s][c * s]);
                }
                assert(gf[r][c * s] == g2[r][c * s]);
                assert(value_grid(g2)[r][c * s] == p2[r][c * s]);
                assert(real_column(g1v, s as nat, n as nat, c * s) =~= values(
                    real_samples(g0, s as nat, n as nat, c * s),
                )) by {
                    assert forall|k: int| 0 <= k < n implies #[trigger] real_column(g1v, s as nat, n as nat, c
                        * s)[k] == values(real_samples(g0, s as nat, n as nat, c * s))[k] by {
                        lemma_stride(k, n, s);
                        assert(compressed_of(g1[k * s], s as nat)[c] == compressed_of(g0[k * s], s as nat)[c]);
                    }
                }
            }
        }
    }

    /// The polynomial of degree below `n_rows` through the compressed values of
    /// row `rid`.
    pub fn row_poly(&self, rid: usize) -> (r: Poly)
        requires
            self.wf(),
            rid < self.side(),
        ensures
            r.wf(),
            r.coeffs.len() <= self.spec_n_rows(),
            r.coeff_values() == interpolation_of(values(compressed_of(self.grid()[rid as int], self.spec_scale()))),
            interpolates(
                r.coeff_values(),
                values(compressed_of(self.grid()[rid as int], self.spec_scale())),
                self.small_gen(),
            ),
    {
        proof {
            self.lemma_line_shares(self.rows@[rid as int]);
        }
        let vals = self.rows[rid].compressed_vals();
        assert(all_wf(vals@)) by {
            assert forall|k: int| 0 <= k < vals@.len() implies #[trigger] vals@[k].wf() by {
                lemma_stride(k, self.n_rows as int, self.scale as int);
            }
        }
        self.small_domain.interpolate(&vals)
    }

    /// The polynomial of degree below `n_rows` through column `cid` read on the
    /// real rows.
    pub fn col_poly(&self, cid: usize) -> (r: Poly)
        requires
            self.wf(),
            cid < self.side(),
        ensures
            r.wf(),
            r.coeffs.len() <= self.spec_n_rows(),
            r.coeff_values() == interpolation_of(
                values(real_samples(self.grid(), self.spec_scale(), self.spec_n_rows(), cid as int)),
            ),
            interpolates(
                r.coeff_values(),
                values(real_samples(self.grid(), self.spec_scale(), self.spec_n_rows(), cid as int)),
                self.small_gen(),
            ),
    {
        let ghost samples = real_samples(self.grid(), self.scale as nat, self.n_rows as nat, cid as int);
        let mut col: Vec<Scalar> = Vec::new();
        let mut rid: usize = 0;
        while rid < self.n_rows
            invariant
                self.wf(),
                samples == real_samples(self.grid(), self.scale as nat, self.n_rows as nat, cid as int),
                cid < self.length,
                rid <= self.n_rows,
                col@ == samples.subrange(0, rid as int),
                all_wf(col@),
            decreases self.n_rows - rid,
        {
            proof {
                lemma_stride(rid as int, self.n_rows as int, self.scale as int);
            }
            let v = self.rows[rid * self.scale].get_element_at(cid);
            assert(v == self.grid()[rid * self.scale][cid as int]);
            assert(v == samples[rid as int]);
            col.push(v);
            rid = rid + 1;
            assert(col@ =~= samples.subrange(0, rid as int));
        }
        assert(col@ =~= samples);
        self.small_domain.interpolate(&col)
    }

} // impl RsSquare

} // verus!
