use vstd::prelude::*;
use vstd::arithmetic::power::pow;
use crate::error::CodingError;
use crate::field::{lemma_value_injective, modulus, zero_scalar, Scalar};
use crate::poly::{
    all_wf, extends, extension_values, interpolates, is_pow2, lemma_extension_keeps_samples, lemma_pow_step, lemma_stride,
    poly_eval, values, EvalDomain,
};

verus! {

/// The value that a fresh line holds at position `i`: the share `i / scale` where
/// `i` is a multiple of `scale`, zero elsewhere.
pub open spec fn spread(shares: Seq<Scalar>, scale: nat, i: int) -> Scalar {
    if i % (scale as int) == 0 {
        shares[i / (scale as int)]
    } else {
        zero_scalar()
    }
}

/// The elements of `row` at every `scale`-th position.
pub open spec fn compressed_of(row: Seq<Scalar>, scale: nat) -> Seq<Scalar> {
    Seq::new(row.len() / scale, |i: int| row[i * scale])
}

/// A sequence of field elements that stands for `length / scale` shares, held at
/// every `scale`-th position.
#[derive(Clone, Debug)]
pub struct RsLine {
    /// Field elements making up the line
    vals: Vec<Scalar>,
    /// Factor used to scale from original data shares to current line
    scale: usize,
}

impl RsLine {
    /// The elements of the line.
    pub closed spec fn view(&self) -> Seq<Scalar> {
        self.vals@
    }

    /// The scale of the line.
    pub closed spec fn spec_scale(&self) -> nat {
        self.scale as nat
    }

    /// The number of shares the line stands for.
    pub open spec fn n_shares(&self) -> nat {
        self.view().len() / self.spec_scale()
    }

    /// Both the share count and the scale are powers of two, the length is their
    /// product, and every element is canonical.
    pub open spec fn wf(&self) -> bool {
        &&& is_pow2(self.spec_scale())
        &&& is_pow2(self.n_shares())
        &&& self.view().len() == self.n_shares() * self.spec_scale()
        &&& all_wf(self.view())
    }

    /// The elements at every `scale`-th position: the values the line stands for.
    pub open spec fn compressed(&self) -> Seq<Scalar> {
        compressed_of(self.view(), self.spec_scale())
    }

    /// A line of length `shares.len() * scale` with the shares at stride `scale`
    /// and zeros elsewhere.
    pub fn new(shares: &[Scalar], scale: usize) -> (r: Result<RsLine, CodingError>)
        requires
            all_wf(shares@),
        ensures
            r is Ok <==> is_pow2(shares@.len()) && is_pow2(scale as nat) && shares@.len()
                * scale <= usize::MAX,
            r is Err ==> r->Err_0 == CodingError::InvalidDimension,
            r matches Ok(line) ==> {
                &&& line.wf()
                &&& line.spec_scale() == scale
                &&& line.view().len() == shares@.len() * scale
                &&& forall|i: int|
                    0 <= i < line.view().len() ==> #[trigger] line.view()[i] == spread(
                        shares@,
                        scale as nat,
                        i,
                    )
                &&& line.compressed() == shares@
            },
    {
        let n_shares = shares.len();
        if !crate::rs_square::is_power_of_two(n_shares) || !crate::rs_square::is_power_of_two(
            scale,
        ) {
            return Err(CodingError::InvalidDimension);
        }
        let total = match n_shares.checked_mul(scale) {
            Some(t) => t,
            None => return Err(CodingError::InvalidDimension),
        };
        let mut vals: Vec<Scalar> = Vec::with_capacity(total);
        let mut i: usize = 0;
        while i < total
            invariant
                total == n_shares * scale,
                scale > 0,
                n_shares == shares@.len(),
                i <= total,
                vals@.len() == i,
                all_wf(shares@),
                forall|k: int| 0 <= k < i ==> #[trigger] vals@[k] == spread(shares@, scale as nat, k),
            decreases total - i,
        {
            if i % scale == 0 {
                assert(i / scale < n_shares) by (nonlinear_arith)
                    requires
                        i < n_shares * scale,
                        scale > 0,
                ;
                vals.push(shares[i / scale]);
            } else {
                vals.push(Scalar::zero());
            }
            i = i + 1;
        }
        let line = RsLine { vals, scale };
        assert(line.n_shares() == n_shares) by (nonlinear_arith)
            requires
                line.n_shares() == total / scale,
                total == n_shares * scale,
                scale > 0,
        ;
        assert forall|k: int| 0 <= k < total implies #[trigger] line.view()[k].wf() by {
            if k % (scale as int) == 0 {
                assert(k / (scale as int) < n_shares) by (nonlinear_arith)
                    requires
                        0 <= k < n_shares * scale,
                        scale > 0,
                ;
            }
        }
        assert forall|k: int| 0 <= k < n_shares implies #[trigger] line.compressed()[k]
            == shares@[k] by {
            lemma_stride(k, n_shares as int, scale as int);
        }
        assert(line.compressed() =~= shares@);
        Ok(line)
    }

    /// A copy of the line's elements, read as `length / scale` shares at stride
    /// `scale`.
    pub fn relaid(&self, scale: usize) -> (r: RsLine)
        requires
            all_wf(self.view()),
            is_pow2(scale as nat),
            is_pow2(self.view().len() / (scale as nat)),
            self.view().len() == (self.view().len() / (scale as nat)) * scale,
        ensures
            r.wf(),
            r.view() == self.view(),
            r.spec_scale() == scale,
    {
        let vals = self.vals.clone();
        assert(vals@ =~= self.vals@);
        RsLine { vals, scale }
    }

    /// The scale of the line.
    pub fn scale(&self) -> (r: usize)
        ensures
            r == self.spec_scale(),
    {
        self.scale
    }

    /// The number of elements.
    pub fn length(&self) -> (r: usize)
        ensures
            r == self.view().len(),
    {
        self.vals.len()
    }

    /// The element at `idx`.
    pub fn get_element_at(&self, idx: usize) -> (r: Scalar)
        requires
            idx < self.view().len(),
        ensures
            r == self.view()[idx as int],
    {
        self.vals[idx]
    }

    /// Replaces the element at `idx` by `val`.
    pub fn set_element_at(&mut self, idx: usize, val: Scalar)
        requires
            idx < old(self).view().len(),
        ensures
            old(self).wf() && val.wf() ==> final(self).wf(),
            final(self).view() == old(self).view().update(idx as int, val),
            final(self).spec_scale() == old(self).spec_scale(),
    {
        self.vals.set(idx, val);
    }

    /// The elements at every `scale`-th position.
    pub fn compressed_vals(&self) -> (r: Vec<Scalar>)
        requires
            self.wf(),
        ensures
            r@ == self.compressed(),
    {
        let mut out: Vec<Scalar> = Vec::new();
        let len = self.vals.len();
        let n = len / self.scale;
        let mut idx: usize = 0;
        while idx < n
            invariant
                self.wf(),
                len == self.vals@.len(),
                n == self.n_shares(),
                idx <= n,
                out@ == self.compressed().subrange(0, idx as int),
            decreases n - idx,
        {
            proof {
                lemma_stride(idx as int, n as int, self.scale as int);
                assert(self.vals@.len() == n * self.scale);
            }
            out.push(self.vals[idx * self.scale]);
            idx = idx + 1;
            assert(out@ =~= self.compressed().subrange(0, idx as int));
        }
        assert(out@ =~= self.compressed());
        out
    }

    /// Reads the compressed values as the evaluations of a polynomial on
    /// `small_domain` and replaces the line by that polynomial's evaluations on
    /// `large_domain`, whose order is the line's length.
    pub fn extend(&mut self, small_domain: &EvalDomain, large_domain: &EvalDomain)
        requires
            old(self).wf(),
            small_domain.wf(),
            large_domain.wf(),
            small_domain.size == old(self).n_shares(),
            large_domain.size == old(self).view().len(),
        ensures
            final(self).wf(),
            final(self).spec_scale() == old(self).spec_scale(),
            final(self).view().len() == old(self).view().len(),
            extends(
                values(final(self).view()),
                values(old(self).compressed()),
                small_domain.group_gen.value(),
                large_domain.group_gen.value(),
            ),
            final(self).compressed() == old(self).compressed(),
            values(final(self).view()) == extension_values(
                values(old(self).compressed()),
                large_domain.size as nat,
            ),
    {
        let ghost before = self.compressed();
        let compressed = self.compressed_vals();
        assert(all_wf(compressed@)) by {
            assert forall|k: int| 0 <= k < compressed@.len() implies #[trigger] compressed@[k].wf() by {
                lemma_stride(k, self.n_shares() as int, self.scale as int);
            }
        }
        let poly = small_domain.interpolate(&compressed);
        let ghost c = poly.coeff_values();
        let ghost g = large_domain.group_gen.value();
        let large_order = large_domain.size;
        let large_omega = large_domain.group_gen;
        let mut pow_cur = Scalar::one();
        proof {
            vstd::arithmetic::power::lemma_pow0(g);
        }
        self.vals.clear();
        let mut j: usize = 0;
        while j < large_order
            invariant
                j <= large_order,
                self.vals@.len() == j,
                self.scale == old(self).spec_scale(),
                poly.wf(),
                c == poly.coeff_values(),
                large_omega.wf(),
                g == large_omega.value(),
                0 <= g,
                pow_cur.wf(),
                pow_cur.value() == pow(g, j as nat) % modulus(),
                all_wf(self.vals@),
                forall|k: int| 0 <= k < j ==> #[trigger] self.vals@[k].value() == poly_eval(
                    c,
                    pow(g, k as nat) % modulus(),
                ),
            decreases large_order - j,
        {
            let y = poly.evaluate(&pow_cur);
            self.vals.push(y);
            proof {
                lemma_pow_step(g, j as nat);
            }
            pow_cur = pow_cur.mul(&large_omega);
            j = j + 1;
        }
        let ghost out = values(self.view());
        assert(out =~= extension_values(values(before), large_order as nat));
        assert forall|k: nat| k < out.len() implies #[trigger] out[k as int] == poly_eval(
            c,
            pow(g, k) % modulus(),
        ) by {
            assert(self.vals@[k as int].value() == poly_eval(c, pow(g, k) % modulus()));
        }
        assert(interpolates(c, values(before), small_domain.group_gen.value()));
        assert(c.len() <= values(before).len());
        assert(extends(out, values(before), small_domain.group_gen.value(), g));
        proof {
            let n = small_domain.size as nat;
            let s = self.scale as nat;
            assert(n * s == large_order);
            lemma_extension_keeps_samples(out, values(before), n, s);
            assert(self.n_shares() == n) by (nonlinear_arith)
                requires
                    self.n_shares() == (large_order as nat) / s,
                    large_order == n * s,
                    s > 0,
            ;
            assert forall|i: int| 0 <= i < n implies #[trigger] self.compressed()[i] == before[i] by {
                lemma_stride(i, n as int, s as int);
                assert(out[i * s] == values(before)[i]);
                assert(out[i * s] == self.view()[i * s].value());
                assert(self.compressed()[i] == self.view()[i * s]);
                lemma_value_injective(self.compressed()[i], before[i]);
            }
            assert(self.compressed() =~= before);
        }
    }
}

} // verus!
