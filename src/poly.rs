use vstd::prelude::*;
use vstd::arithmetic::power::{pow, lemma_pow_multiplies, lemma_pow_mod_noop};
use vstd::arithmetic::div_mod::lemma_mul_mod_noop_left;
use vstd::arithmetic::power2::{pow2, lemma2_to64};
use ark_ff::{BigInt, PrimeField};
use ark_poly::{DenseUVPolynomial, EvaluationDomain, Evaluations, Polynomial, Radix2EvaluationDomain};
use ark_poly::univariate::DensePolynomial;
use ark_test_curves::bls12_381::Fr;
use crate::field::{modulus, Scalar};

verus! {

/// `2^32`: the largest power of two that divides `modulus() - 1`, hence the
/// largest evaluation domain the field offers.
pub open spec fn max_domain_size() -> int {
    4294967296int
}

/// `n` is a power of two (`1, 2, 4, ...`).
pub open spec fn is_pow2(n: nat) -> bool
    decreases n,
{
    if n == 0 {
        false
    } else if n == 1 {
        true
    } else {
        n % 2 == 0 && is_pow2((n / 2) as nat)
    }
}

/// The generator of the multiplicative subgroup of order `n`: `7^((r - 1) / n)`,
/// where `7` generates the whole multiplicative group.
pub open spec fn root_of_unity(n: nat) -> int {
    pow(7, ((modulus() - 1) / (n as int)) as nat) % modulus()
}

/// The integers that a sequence of field elements stands for.
pub open spec fn values(s: Seq<Scalar>) -> Seq<int> {
    s.map_values(|x: Scalar| x.value())
}

/// Every element is a canonical representative.
pub open spec fn all_wf(s: Seq<Scalar>) -> bool {
    forall|i: int| 0 <= i < s.len() ==> #[trigger] s[i].wf()
}

/// The polynomial with coefficients `c` (lowest degree first) at `x`, in the field.
pub open spec fn poly_eval(c: Seq<int>, x: int) -> int
    decreases c.len(),
{
    if c.len() == 0 {
        0
    } else {
        (c[0] + x * poly_eval(c.drop_first(), x)) % modulus()
    }
}

/// The polynomial `c` takes the value `v[i]` at the `i`-th power of `g`, for every `i`.
pub open spec fn interpolates(c: Seq<int>, v: Seq<int>, g: int) -> bool {
    forall|i: nat| i < v.len() ==> #[trigger] poly_eval(c, pow(g, i) % modulus()) == v[i as int]
}

/// `out` is the evaluation at the first `out.len()` powers of `large_gen` of the
/// polynomial of degree below `samples.len()` that takes the values `samples` on
/// the powers of `small_gen`.
pub open spec fn extends(out: Seq<int>, samples: Seq<int>, small_gen: int, large_gen: int) -> bool {
    exists|c: Seq<int>|
        #![trigger interpolates(c, samples, small_gen)]
        c.len() <= samples.len() && interpolates(c, samples, small_gen) && forall|j: nat|
            j < out.len() ==> #[trigger] out[j as int] == poly_eval(c, pow(large_gen, j) % modulus())
}

/// The coefficients, lowest degree first and with no zero at the top, of the
/// polynomial of degree below `v.len()` that takes the values `v` on the subgroup
/// of order `v.len()`. The field being prime and the subgroup's elements distinct,
/// there is exactly one.
pub open spec fn interpolation_of(v: Seq<int>) -> Seq<int> {
    choose|c: Seq<int>|
        #![trigger interpolates(c, v, root_of_unity(v.len()))]
        c.len() <= v.len() && (c.len() == 0 || c.last() != 0) && interpolates(c, v, root_of_unity(v.len()))
}

/// The values on the subgroup of order `len` of the polynomial that
/// `interpolation_of` gives for `samples`.
pub open spec fn extension_values(samples: Seq<int>, len: nat) -> Seq<int> {
    Seq::new(
        len,
        |j: int| poly_eval(interpolation_of(samples), pow(root_of_unity(len), j as nat) % modulus()),
    )
}

/// A polynomial over the field, by its coefficients, lowest degree first.
#[derive(Clone, Debug)]
pub struct Poly {
    pub coeffs: Vec<Scalar>,
}

impl Poly {
    pub open spec fn wf(&self) -> bool {
        all_wf(self.coeffs@)
    }

    /// The coefficients as integers.
    pub open spec fn coeff_values(&self) -> Seq<int> {
        values(self.coeffs@)
    }

    /// The value of the polynomial at `x`.
    pub fn evaluate(&self, x: &Scalar) -> (r: Scalar)
        requires
            self.wf(),
            x.wf(),
        ensures
            r.wf(),
            r.value() == poly_eval(self.coeff_values(), x.value()),
    {
        poly_evaluate(self, x)
    }
}

/// A multiplicative subgroup of the field of power-of-two order, used to read a
/// sequence as the values of a polynomial on the subgroup's elements.
#[derive(Clone, Copy, Debug)]
pub struct EvalDomain {
    pub size: usize,
    pub group_gen: Scalar,
}

impl EvalDomain {
    pub open spec fn wf(&self) -> bool {
        &&& is_pow2(self.size as nat)
        &&& self.size <= max_domain_size()
        &&& self.group_gen.wf()
        &&& self.group_gen.value() == root_of_unity(self.size as nat)
    }

    /// The subgroup of order `n`, where the field has one.
    pub fn new(n: usize) -> (r: Option<EvalDomain>)
        requires
            is_pow2(n as nat),
        ensures
            r.is_some() == (n <= max_domain_size()),
            r.is_some() ==> r->Some_0.size == n && r->Some_0.wf(),
    {
        radix2_domain(n)
    }

    /// The polynomial of degree below `size` that takes the values `vals` on the
    /// powers of the generator.
    pub fn interpolate(&self, vals: &Vec<Scalar>) -> (r: Poly)
        requires
            self.wf(),
            vals.len() == self.size,
            all_wf(vals@),
        ensures
            r.wf(),
            r.coeffs.len() <= vals.len(),
            r.coeff_values() == interpolation_of(values(vals@)),
            interpolates(r.coeff_values(), values(vals@), self.group_gen.value()),
    {
        domain_interpolate(self, vals)
    }
}

/// Relies on `Radix2EvaluationDomain::<Fr>::new`: for a power of two `n` it gives
/// the subgroup of order `n` when `n <= 2^TWO_ADICITY` (`2^32` here). Its
/// `group_gen` comes from `get_root_of_unity`, which for `Fr` (small subgroup base
/// 3, power 1) cubes `LARGE_SUBGROUP_ROOT_OF_UNITY = 7^(t / 3)`, where
/// `r - 1 = 2^32 * t`, and squares the result `32 - log2(n)` times, as the
/// `MontConfig` derive of `FrConfig` sets the constants: `7^((r - 1) / n)`.
#[verifier::external_body]
fn radix2_domain(n: usize) -> (r: Option<EvalDomain>)
    requires
        is_pow2(n as nat),
    ensures
        r.is_some() == (n <= max_domain_size()),
        r.is_some() ==> r->Some_0.size == n && r->Some_0.wf(),
{
    match Radix2EvaluationDomain::<Fr>::new(n) {
        Some(d) => {
            let [l0, l1, l2, l3] = d.group_gen.into_bigint().0;
            Some(EvalDomain { size: d.size as usize, group_gen: Scalar { l0, l1, l2, l3 } })
        },
        None => None,
    }
}

/// Relies on `Evaluations::interpolate` over `Radix2EvaluationDomain::<Fr>`: an
/// inverse FFT, which gives the coefficients (trailing zeros dropped) of the
/// polynomial of degree below the domain's size that takes the given values on
/// the domain's elements `group_gen^i` (`from_coefficients_vec` drops the zeros at
/// the top): the one polynomial that `interpolation_of` describes.
#[verifier::external_body]
fn domain_interpolate(domain: &EvalDomain, vals: &Vec<Scalar>) -> (r: Poly)
    requires
        domain.wf(),
        vals.len() == domain.size,
        all_wf(vals@),
    ensures
        r.wf(),
        r.coeffs.len() <= vals.len(),
        r.coeff_values() == interpolation_of(values(vals@)),
        interpolates(r.coeff_values(), values(vals@), domain.group_gen.value()),
{
    let d = Radix2EvaluationDomain::<Fr>::new(domain.size).unwrap();
    let evals: Vec<Fr> = vals.iter().map(|s| Fr::from_bigint(BigInt::new([s.l0, s.l1, s.l2, s.l3])).unwrap()).collect();
    let p = Evaluations::from_vec_and_domain(evals, d).interpolate();
    let coeffs = p.coeffs.iter().map(|c| c.into_bigint().0).map(|[l0, l1, l2, l3]| Scalar { l0, l1, l2, l3 }).collect();
    Poly { coeffs }
}

/// Relies on `DensePolynomial::<Fr>::evaluate`: Horner's rule in the field.
#[verifier::external_body]
fn poly_evaluate(p: &Poly, x: &Scalar) -> (r: Scalar)
    requires
        p.wf(),
        x.wf(),
    ensures
        r.wf(),
        r.value() == poly_eval(p.coeff_values(), x.value()),
{
    let coeffs: Vec<Fr> = p.coeffs.iter().map(|s| Fr::from_bigint(BigInt::new([s.l0, s.l1, s.l2, s.l3])).unwrap()).collect();
    let point = Fr::from_bigint(BigInt::new([x.l0, x.l1, x.l2, x.l3])).unwrap();
    let [l0, l1, l2, l3] = DensePolynomial::from_coefficients_vec(coeffs).evaluate(&point).into_bigint().0;
    Scalar { l0, l1, l2, l3 }
}

/// Doubling a power of two gives a power of two.
proof fn lemma_pow2_double(x: nat)
    requires
        is_pow2(x),
    ensures
        is_pow2(2 * x),
{
    assert((2 * x) % 2 == 0);
    assert(((2 * x) / 2) as nat == x);
}

/// `2^e` is a power of two.
proof fn lemma_pow2_is_pow2(e: nat)
    ensures
        is_pow2(pow2(e)),
    decreases e,
{
    if e > 0 {
        vstd::arithmetic::power2::lemma_pow2_unfold(e);
        lemma_pow2_is_pow2((e - 1) as nat);
        lemma_pow2_double(pow2((e - 1) as nat));
    } else {
        lemma2_to64();
    }
}

/// A product of powers of two is a power of two.
pub proof fn lemma_pow2_mul(a: nat, b: nat)
    requires
        is_pow2(a),
        is_pow2(b),
    ensures
        is_pow2(a * b),
    decreases b,
{
    if b == 1 {
        assert(a * b == a);
    } else {
        let h = (b / 2) as nat;
        lemma_pow2_mul(a, h);
        assert(a * b == 2 * (a * h)) by (nonlinear_arith)
            requires
                b == 2 * h,
        ;
        lemma_pow2_double(a * h);
    }
}

/// A power of two divides every power of two that is not smaller.
proof fn lemma_pow2_divides(m: nat, x: nat)
    requires
        is_pow2(m),
        is_pow2(x),
        m <= x,
    ensures
        x % m == 0,
    decreases m,
{
    if m > 1 {
        let hm = (m / 2) as nat;
        let hx = (x / 2) as nat;
        lemma_pow2_divides(hm, hx);
        let k = hx / hm;
        assert(x == m * k) by (nonlinear_arith)
            requires
                m == 2 * hm,
                x == 2 * hx,
                hx % hm == 0,
                hm > 0,
                k == hx / hm,
        ;
        vstd::arithmetic::div_mod::lemma_mod_multiples_basic(k as int, m as int);
        assert(x % m == (k * m) % m) by (nonlinear_arith)
            requires
                x == m * k,
        ;
    }
}

/// The whole two-adic subgroup has a power-of-two order.
proof fn lemma_max_domain_size_is_pow2()
    ensures
        is_pow2(max_domain_size() as nat),
{
    lemma2_to64();
    lemma_pow2_is_pow2(32);
}

/// The generator of the subgroup of order `n * s`, raised to `s`, generates the
/// subgroup of order `n`: the `i * s`-th element of the large domain is the `i`-th
/// element of the small one.
pub proof fn lemma_root_of_unity_power(n: nat, s: nat, i: nat)
    requires
        is_pow2(n),
        is_pow2(s),
        n * s <= max_domain_size(),
    ensures
        pow(root_of_unity(n * s), i * s) % modulus() == pow(root_of_unity(n), i) % modulus(),
{
    let m = modulus();
    let q = m - 1;
    let big: int = max_domain_size();
    lemma_pow2_mul(n, s);
    lemma_max_domain_size_is_pow2();
    lemma_pow2_divides(n * s, big as nat);
    assert(q % big == 0);
    let t: int = q / big;
    let k: int = big / ((n * s) as int);
    let el: int = k * t;
    vstd::arithmetic::div_mod::lemma_fundamental_div_mod(big, (n * s) as int);
    assert(n * s > 0) by (nonlinear_arith)
        requires
            is_pow2(n) && is_pow2(s) ==> n >= 1 && s >= 1,
            is_pow2(n),
            is_pow2(s),
    ;
    assert(q == (n * s) * el && el >= 0) by (nonlinear_arith)
        requires
            q == big * t,
            big == (n * s) * k,
            el == k * t,
            t >= 0,
            k >= 0,
    ;
    assert(q / ((n * s) as int) == el && q / (n as int) == s * el) by (nonlinear_arith)
        requires
            q == (n * s) * el,
            n * s > 0,
            n > 0,
    ;
    let el_n = el as nat;
    let es_n = (s * el) as nat;
    assert(el_n * (i * s) == es_n * i) by (nonlinear_arith)
        requires
            el_n == el,
            es_n == s * el,
    ;
    lemma_pow_mod_noop(pow(7, el_n), i * s, m);
    lemma_pow_multiplies(7, el_n, i * s);
    lemma_pow_mod_noop(pow(7, es_n), i, m);
    lemma_pow_multiplies(7, es_n, i);
}

/// The `i`-th position of stride `s` in a sequence of `n` strides.
pub proof fn lemma_stride(i: int, n: int, s: int)
    requires
        0 <= i < n,
        s > 0,
    ensures
        0 <= i * s < n * s,
        (i * s) % s == 0,
        (i * s) / s == i,
{
    vstd::arithmetic::mul::lemma_mul_strict_inequality(i, n, s);
    vstd::arithmetic::mul::lemma_mul_nonnegative(i, s);
    vstd::arithmetic::div_mod::lemma_mod_multiples_basic(i, s);
    vstd::arithmetic::div_mod::lemma_div_multiples_vanish(i, s);
    vstd::arithmetic::mul::lemma_mul_is_commutative(i, s);
}

/// Through a single sample the interpolant is a constant, so every extended
/// value is that sample.
pub proof fn lemma_extension_of_one_sample(out: Seq<int>, samples: Seq<int>, small_gen: int, large_gen: int)
    requires
        samples.len() == 1,
        0 <= samples[0] < modulus(),
        extends(out, samples, small_gen, large_gen),
    ensures
        forall|j: int| 0 <= j < out.len() ==> #[trigger] out[j] == samples[0],
{
    let c = choose|c: Seq<int>|
        #![trigger interpolates(c, samples, small_gen)]
        c.len() <= samples.len() && interpolates(c, samples, small_gen) && forall|j: nat|
            j < out.len() ==> #[trigger] out[j as int] == poly_eval(c, pow(large_gen, j) % modulus());
    let x0 = pow(small_gen, 0) % modulus();
    assert(poly_eval(c, x0) == samples[0]);
    assert forall|j: int| 0 <= j < out.len() implies #[trigger] out[j] == samples[0] by {
        let x = pow(large_gen, j as nat) % modulus();
        assert(out[(j as nat) as int] == poly_eval(c, x));
        reveal_with_fuel(poly_eval, 2);
        if c.len() == 1 {
            assert(c.drop_first().len() == 0);
            assert(poly_eval(c, x) == (c[0] + x * 0) % modulus());
            assert(poly_eval(c, x0) == (c[0] + x0 * 0) % modulus());
        }
    }
}

/// Walking the powers of `g` one multiplication at a time.
pub proof fn lemma_pow_step(g: int, j: nat)
    requires
        0 <= g,
    ensures
        ((pow(g, j) % modulus()) * g) % modulus() == pow(g, j + 1) % modulus(),
{
    lemma_mul_mod_noop_left(pow(g, j), g, modulus());
    reveal(pow);
    assert(pow(g, j + 1) == g * pow(g, j));
    assert(pow(g, j) * g == g * pow(g, j)) by (nonlinear_arith);
}

/// Re-evaluating an interpolant on a domain `s` times larger gives back the
/// samples at every `s`-th position.
pub proof fn lemma_extension_keeps_samples(out: Seq<int>, samples: Seq<int>, n: nat, s: nat)
    requires
        is_pow2(n),
        is_pow2(s),
        n * s <= max_domain_size(),
        samples.len() == n,
        out.len() == n * s,
        extends(out, samples, root_of_unity(n), root_of_unity(n * s)),
    ensures
        forall|i: int| 0 <= i < n ==> #[trigger] out[i * s] == samples[i],
{
    let c = choose|c: Seq<int>|
        #![trigger interpolates(c, samples, root_of_unity(n))]
        c.len() <= samples.len() && interpolates(c, samples, root_of_unity(n)) && forall|j: nat|
            j < out.len() ==> #[trigger] out[j as int] == poly_eval(
                c,
                pow(root_of_unity(n * s), j) % modulus(),
            );
    assert forall|i: int| 0 <= i < n implies #[trigger] out[i * s] == samples[i] by {
        let ii = i as nat;
        lemma_root_of_unity_power(n, s, ii);
        assert(ii * s < n * s && ii * s == i * s) by (nonlinear_arith)
            requires
                0 <= i < n,
                ii == i,
                s >= 1,
        ;
        assert(out[(ii * s) as int] == poly_eval(c, pow(root_of_unity(n * s), ii * s) % modulus()));
        assert(poly_eval(c, pow(root_of_unity(n), ii) % modulus()) == samples[ii as int]);
    }
}

} // verus!
