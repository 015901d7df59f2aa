//! Univariate polynomials over the scalar field and the radix-2 evaluation
//! domains (multiplicative subgroups of power-of-two order) that they are
//! interpolated on and evaluated over.
use vstd::prelude::*;
use ark_bn254::Fr;
use ark_ff::{BigInt, PrimeField};
use ark_poly::univariate::DensePolynomial as ArkPolynomial;
use ark_poly::{DenseUVPolynomial, EvaluationDomain, Evaluations, GeneralEvaluationDomain};
use crate::arith::{is_pow2, next_pow2, next_power_of_two};
use crate::field::{
    Scalar, all_wf, ark_add, ark_mul, ark_pow, ark_sub, fadd, finv, fmul, fpow, fsub, lemma_fmul_assoc, lemma_fmul_comm,
    lemma_fmul_one, lemma_fpow_add, lemma_fpow_canonical, modulus, vals_of,
};

verus! {

/// The largest power of two that divides the order of the multiplicative
/// group of the scalar field: the largest radix-2 domain.
pub open spec fn max_domain_size() -> nat {
    0x1000_0000nat
}

/// The generator of the multiplicative subgroup of order `size`, as
/// `ark_poly` picks it for the BN254 scalar field.
pub uninterp spec fn domain_generator(size: nat) -> nat;

/// A multiplicative subgroup of the scalar field whose order is a power of
/// two, `{g^0, ..., g^(size - 1)}` with `g = domain_generator(size)`.
#[derive(Clone, Copy, Debug, PartialEq, Eq, Structural)]
pub struct Domain {
    pub size: usize,
}

impl Domain {
    pub open spec fn wf(self) -> bool {
        is_pow2(self.size as nat) && self.size <= max_domain_size()
    }

    /// The `i`-th element of the domain.
    pub open spec fn element(self, i: nat) -> nat {
        fpow(domain_generator(self.size as nat), i)
    }

    /// The smallest domain that holds `num_coeffs` points, if the field
    /// has one that large.
    pub fn new(num_coeffs: usize) -> (r: Option<Domain>)
        ensures
            r is Some <==> num_coeffs <= max_domain_size(),
            r matches Some(d) ==> d.wf() && d.size == next_pow2(num_coeffs as nat),
    {
        if num_coeffs > 0x1000_0000 {
            None
        } else {
            let size = next_power_of_two(num_coeffs);
            proof {
                crate::arith::lemma_next_pow2_bounds(num_coeffs as nat);
                reveal_with_fuel(is_pow2, 30);
                assert(is_pow2(0x1000_0000nat));
                crate::arith::lemma_next_pow2_le_pow2(num_coeffs as nat, 0x1000_0000nat);
            }
            Some(Domain { size })
        }
    }

    /// The generator of the domain, from `ark_poly`'s
    /// `GeneralEvaluationDomain::group_gen`, a root of unity of order
    /// exactly `size`. Claims that it is the named generator, that its
    /// `size`-th power is one, that no smaller positive power is, and so,
    /// for two points, that it is minus one: the only element of order two
    /// in the prime field.
    #[verifier::external_body]
    pub(crate) fn group_gen(&self) -> (g: Scalar)
        requires
            self.wf(),
        ensures
            g.wf(),
            g.val() == domain_generator(self.size as nat),
            fpow(g.val(), self.size as nat) == 1,
            forall|i: nat| 0 < i < self.size ==> #[trigger] fpow(g.val(), i) != 1,
            self.size == 2 ==> g.val() == crate::field::modulus() - 1,
    {
        let d = GeneralEvaluationDomain::<Fr>::new(self.size).unwrap();
        Scalar::from_limbs(d.group_gen().into_bigint().0)
    }

    /// The `i`-th element of the domain, `g^i`; the elements below the
    /// domain's size are pairwise distinct, and the generator of the domain
    /// of two points is minus one.
    pub fn element_at(&self, i: u64) -> (r: Scalar)
        requires
            self.wf(),
        ensures
            r.wf(),
            r.val() == self.element(i as nat),
            i < self.size ==> forall|j: nat| j < self.size && j != i ==> r.val() != #[trigger] self.element(j),
            self.size == 2 ==> domain_generator(2) == crate::field::modulus() - 1,
    {
        let g = self.group_gen();
        proof {
            assert forall|j: nat| i < self.size && j < self.size && j != i implies fpow(g.val(), i as nat)
                != #[trigger] self.element(j) by {
                if j < i {
                    lemma_root_powers_distinct(g.val(), self.size as nat, j, i as nat);
                } else {
                    lemma_root_powers_distinct(g.val(), self.size as nat, i as nat, j);
                }
            }
        }
        ark_pow(&g, i)
    }

    /// The order of the domain as a field element.
    pub fn size_as_field_element(&self) -> (r: Scalar)
        ensures
            r.wf(),
            r.val() == self.size,
    {
        Scalar::from_u64(self.size as u64)
    }

    /// The vanishing polynomial of the domain at `tau`: `tau^size - 1`.
    pub fn evaluate_vanishing_polynomial(&self, tau: &Scalar) -> (r: Scalar)
        requires
            tau.wf(),
        ensures
            r.wf(),
            r.val() == fsub(fpow(tau.val(), self.size as nat), 1),
    {
        let t = ark_pow(tau, self.size as u64);
        ark_sub(&t, &Scalar::one())
    }
}

/// Horner's rule: `c_0 + x (c_1 + x (c_2 + ...))` in the field.
pub open spec fn poly_eval(c: Seq<nat>, x: nat) -> nat
    decreases c.len(),
{
    if c.len() == 0 {
        0
    } else {
        fadd(fmul(poly_eval(c.drop_first(), x), x), c[0])
    }
}

/// `s` without its zero elements at the end.
pub open spec fn trim_zeros(s: Seq<Scalar>) -> Seq<Scalar>
    decreases s.len(),
{
    if s.len() > 0 && s.last().val() == 0 {
        trim_zeros(s.drop_last())
    } else {
        s
    }
}

/// A zero coefficient past the end does not change the value.
pub proof fn lemma_poly_eval_push_zero(c: Seq<nat>, x: nat)
    ensures
        poly_eval(c.push(0), x) == poly_eval(c, x),
    decreases c.len(),
{
    let d = c.push(0);
    if c.len() == 0 {
        assert(d.drop_first() =~= Seq::<nat>::empty());
        assert(poly_eval(d.drop_first(), x) == 0);
        assert(fadd(fmul(0, x), 0) == 0) by {
            reveal(fadd);
            reveal(fmul);
            assert(0 * x == 0);
            vstd::arithmetic::div_mod::lemma_small_mod(0, modulus());
            assert(fmul(0, x) == 0);
        }
    } else {
        assert(d.drop_first() =~= c.drop_first().push(0));
        lemma_poly_eval_push_zero(c.drop_first(), x);
    }
}

/// Horner evaluation gives a canonical field element.
pub proof fn lemma_poly_eval_canonical(c: Seq<nat>, x: nat)
    ensures
        poly_eval(c, x) < modulus(),
{
    reveal(fadd);
}

/// `((a + x1 b) x + c0) = (a x + c0) + (x1 x) b` in the field.
proof fn lemma_horner_algebra(a: nat, x1: nat, b: nat, x: nat, c0: nat)
    ensures
        fadd(fmul(fadd(a, fmul(x1, b)), x), c0) == fadd(fadd(fmul(a, x), c0), fmul(fmul(x1, x), b)),
{
    reveal(fadd);
    reveal(fmul);
    let p = modulus() as int;
    let (a, x1, b, x, c0) = (a as int, x1 as int, b as int, x as int, c0 as int);
    vstd::arithmetic::div_mod::lemma_add_mod_noop_right(a, x1 * b, p);
    vstd::arithmetic::div_mod::lemma_mul_mod_noop_left(a + x1 * b, x, p);
    vstd::arithmetic::div_mod::lemma_add_mod_noop((a + x1 * b) * x, c0, p);
    vstd::arithmetic::div_mod::lemma_add_mod_noop(a * x, c0, p);
    vstd::arithmetic::div_mod::lemma_mul_mod_noop_left(x1 * x, b, p);
    vstd::arithmetic::div_mod::lemma_add_mod_noop(a * x + c0, (x1 * x) * b, p);
    assert((a + x1 * b) * x + c0 == (a * x + c0) + (x1 * x) * b) by (nonlinear_arith);
    assert(((a * x) % p + c0) % p == (a * x + c0) % p) by {
        vstd::arithmetic::div_mod::lemma_add_mod_noop(a * x, c0, p);
        vstd::arithmetic::div_mod::lemma_mod_twice(a * x, p);
        vstd::arithmetic::div_mod::lemma_add_mod_noop(a * x % p, c0, p);
    }
    assert((((a + x1 * b) * x) % p + c0) % p == ((a + x1 * b) * x + c0) % p) by {
        vstd::arithmetic::div_mod::lemma_mod_twice((a + x1 * b) * x, p);
        vstd::arithmetic::div_mod::lemma_add_mod_noop((a + x1 * b) * x % p, c0, p);
    }
}

/// Horner evaluation splits at any index: `c(x) = low(x) + x^l high(x)`
/// with `low` the first `l` coefficients and `high` the rest.
pub proof fn lemma_poly_eval_split(c: Seq<nat>, l: nat, x: nat)
    requires
        l <= c.len(),
    ensures
        poly_eval(c, x) == fadd(
            poly_eval(c.take(l as int), x),
            fmul(fpow(x, l), poly_eval(c.skip(l as int), x)),
        ),
    decreases l,
{
    if l == 0 {
        assert(c.take(0) =~= Seq::<nat>::empty());
        assert(c.skip(0) =~= c);
        lemma_poly_eval_canonical(c, x);
        let v = poly_eval(c, x);
        assert(fadd(0, fmul(1, v)) == v) by {
            reveal(fadd);
            reveal(fmul);
            vstd::arithmetic::div_mod::lemma_small_mod(v, modulus());
        }
    } else {
        let d = c.drop_first();
        lemma_poly_eval_split(d, (l - 1) as nat, x);
        assert(c.take(l as int).drop_first() =~= d.take(l - 1));
        assert(d.skip(l - 1) =~= c.skip(l as int));
        assert(c.take(l as int)[0] == c[0]);
        let a = poly_eval(d.take(l - 1), x);
        let b = poly_eval(c.skip(l as int), x);
        let x1 = fpow(x, (l - 1) as nat);
        lemma_horner_algebra(a, x1, b, x, c[0]);
    }
}

/// A univariate polynomial, by its coefficients from the constant term up.
#[derive(Clone, Debug, PartialEq, Eq)]
pub struct DensePolynomial {
    pub coeffs: Vec<Scalar>,
}

impl DensePolynomial {
    /// The coefficients are canonical field elements.
    pub open spec fn wf(self) -> bool {
        all_wf(self.coeffs@)
    }

    /// The value of the polynomial at `x`.
    pub open spec fn at(self, x: nat) -> nat {
        poly_eval(vals_of(self.coeffs@), x)
    }

    /// The polynomial with the given coefficients, its zero
    /// highest-degree coefficients dropped; it takes the same values.
    pub fn from_coefficients_vec(coeffs: Vec<Scalar>) -> (p: DensePolynomial)
        ensures
            p.coeffs@ == trim_zeros(coeffs@),
            p.coeffs@ == coeffs@.take(p.coeffs.len() as int),
            all_wf(coeffs@) ==> p.wf(),
            forall|x: nat| #[trigger] p.at(x) == poly_eval(vals_of(coeffs@), x),
    {
        let mut coeffs = coeffs;
        let ghost c0 = coeffs@;
        while coeffs.len() > 0 && coeffs[coeffs.len() - 1].equals(&Scalar::zero())
            invariant
                coeffs.len() <= c0.len(),
                coeffs@ == c0.take(coeffs.len() as int),
                trim_zeros(coeffs@) == trim_zeros(c0),
                forall|x: nat| #[trigger] poly_eval(vals_of(coeffs@), x) == poly_eval(vals_of(c0), x),
            decreases coeffs.len(),
        {
            let ghost before = coeffs@;
            coeffs.pop();
            proof {
                assert(coeffs@ == before.drop_last());
                assert forall|x: nat| #[trigger] poly_eval(vals_of(coeffs@), x) == poly_eval(vals_of(c0), x) by {
                    assert(vals_of(before) =~= vals_of(coeffs@).push(0));
                    lemma_poly_eval_push_zero(vals_of(coeffs@), x);
                }
            }
        }
        DensePolynomial { coeffs }
    }

    /// Evaluates the polynomial at `x` by Horner's rule.
    pub fn evaluate(&self, x: &Scalar) -> (r: Scalar)
        requires
            self.wf(),
            x.wf(),
        ensures
            r.wf(),
            r.val() == self.at(x.val()),
    {
        let ghost c = vals_of(self.coeffs@);
        let mut acc = Scalar::zero();
        let mut i = self.coeffs.len();
        assert(c.skip(i as int) =~= Seq::<nat>::empty());
        while i > 0
            invariant
                i <= self.coeffs.len(),
                self.wf(),
                x.wf(),
                c == vals_of(self.coeffs@),
                acc.wf(),
                acc.val() == poly_eval(c.skip(i as int), x.val()),
            decreases i,
        {
            i -= 1;
            assert(c.skip(i as int).drop_first() =~= c.skip(i + 1));
            let t = ark_mul(&acc, x);
            acc = ark_add(&t, &self.coeffs[i]);
        }
        assert(c.skip(0) =~= c);
        acc
    }
}

/// Interpolates the values `evals` (padded with zeros, or cut, to the
/// domain's size) on the domain, by `ark_poly`'s `Evaluations::interpolate`.
/// Claims that the result takes those values at the domain's elements, has
/// at most as many coefficients as the domain has elements, and is the
/// Lagrange interpolant everywhere.
#[verifier::external_body]
pub(crate) fn ark_interpolate(evals: &Vec<Scalar>, domain: &Domain) -> (p: DensePolynomial)
    requires
        domain.wf(),
        all_wf(evals@),
    ensures
        p.wf(),
        p.coeffs.len() <= domain.size,
        forall|i: nat|
            i < domain.size ==> #[trigger] p.at(domain.element(i)) == if i < evals.len() {
                evals@[i as int].val()
            } else {
                0
            },
        forall|x: nat| #[trigger] p.at(x) == interp_at(vals_of(evals@), *domain, x, domain.size as nat),
{
    let d = GeneralEvaluationDomain::<Fr>::new(domain.size).unwrap();
    let e = evals.iter().map(|s| Fr::from_bigint(BigInt(s.limbs())).unwrap()).collect();
    let p = Evaluations::from_vec_and_domain(e, d).interpolate();
    DensePolynomial { coeffs: p.coeffs.iter().map(|c| Scalar::from_limbs(c.into_bigint().0)).collect() }
}

/// Evaluates the polynomial at every element of the domain, by
/// `ark_poly`'s `DensePolynomial::evaluate_over_domain_by_ref`. Claims the
/// values of the polynomial at the domain's elements, in order.
#[verifier::external_body]
pub(crate) fn ark_evaluate_over_domain(p: &DensePolynomial, domain: &Domain) -> (r: Vec<Scalar>)
    requires
        domain.wf(),
        p.wf(),
    ensures
        all_wf(r@),
        r.len() == domain.size,
        forall|i: int| 0 <= i < domain.size ==> #[trigger] r@[i].val() == p.at(domain.element(i as nat)),
{
    let d = GeneralEvaluationDomain::<Fr>::new(domain.size).unwrap();
    let c = p.coeffs.iter().map(|s| Fr::from_bigint(BigInt(s.limbs())).unwrap()).collect();
    let q = ArkPolynomial::from_coefficients_vec(c);
    q.evaluate_over_domain_by_ref(d).evals.iter().map(|x| Scalar::from_limbs(x.into_bigint().0)).collect()
}

/// The sum of two polynomials, by `ark_poly`'s `Add` for `DensePolynomial`.
/// Claims that the sum takes the sum of the values everywhere and has no
/// more coefficients than the longer summand.
#[verifier::external_body]
pub(crate) fn ark_poly_add(p: &DensePolynomial, q: &DensePolynomial) -> (r: DensePolynomial)
    requires
        p.wf(),
        q.wf(),
    ensures
        r.wf(),
        r.coeffs.len() <= p.coeffs.len() || r.coeffs.len() <= q.coeffs.len(),
        forall|x: nat| #[trigger] r.at(x) == fadd(p.at(x), q.at(x)),
{
    let a = ArkPolynomial::from_coefficients_vec(p.coeffs.iter().map(|s| Fr::from_bigint(BigInt(s.limbs())).unwrap()).collect());
    let b = ArkPolynomial::from_coefficients_vec(q.coeffs.iter().map(|s| Fr::from_bigint(BigInt(s.limbs())).unwrap()).collect());
    DensePolynomial { coeffs: (&a + &b).coeffs.iter().map(|c| Scalar::from_limbs(c.into_bigint().0)).collect() }
}

/// The difference of two polynomials, by `ark_poly`'s `Sub` for
/// `DensePolynomial`. Claims that it takes the difference of the values
/// everywhere and has no more coefficients than the longer operand.
#[verifier::external_body]
pub(crate) fn ark_poly_sub(p: &DensePolynomial, q: &DensePolynomial) -> (r: DensePolynomial)
    requires
        p.wf(),
        q.wf(),
    ensures
        r.wf(),
        r.coeffs.len() <= p.coeffs.len() || r.coeffs.len() <= q.coeffs.len(),
        forall|x: nat| #[trigger] r.at(x) == fsub(p.at(x), q.at(x)),
{
    let a = ArkPolynomial::from_coefficients_vec(p.coeffs.iter().map(|s| Fr::from_bigint(BigInt(s.limbs())).unwrap()).collect());
    let b = ArkPolynomial::from_coefficients_vec(q.coeffs.iter().map(|s| Fr::from_bigint(BigInt(s.limbs())).unwrap()).collect());
    DensePolynomial { coeffs: (&a - &b).coeffs.iter().map(|c| Scalar::from_limbs(c.into_bigint().0)).collect() }
}

/// The product of two polynomials, by `ark_poly`'s `Mul` for
/// `DensePolynomial`, which multiplies on a domain of as many points as the
/// two have coefficients together (and panics where the field has no such
/// domain). Claims that the product takes the product of the values
/// everywhere and has no more coefficients than the two together.
#[verifier::external_body]
pub(crate) fn ark_poly_mul(p: &DensePolynomial, q: &DensePolynomial) -> (r: DensePolynomial)
    requires
        p.wf(),
        q.wf(),
        p.coeffs.len() + q.coeffs.len() <= max_domain_size(),
    ensures
        r.wf(),
        r.coeffs.len() <= p.coeffs.len() + q.coeffs.len(),
        forall|x: nat| #[trigger] r.at(x) == fmul(p.at(x), q.at(x)),
{
    let a = ArkPolynomial::from_coefficients_vec(p.coeffs.iter().map(|s| Fr::from_bigint(BigInt(s.limbs())).unwrap()).collect());
    let b = ArkPolynomial::from_coefficients_vec(q.coeffs.iter().map(|s| Fr::from_bigint(BigInt(s.limbs())).unwrap()).collect());
    DensePolynomial { coeffs: (&a * &b).coeffs.iter().map(|c| Scalar::from_limbs(c.into_bigint().0)).collect() }
}

/// A polynomial times a field element, by `ark_poly`'s `Mul<F>` for
/// `DensePolynomial`. Claims that it takes the scaled values everywhere and
/// has no more coefficients than the polynomial.
#[verifier::external_body]
pub(crate) fn ark_poly_scale(p: &DensePolynomial, c: &Scalar) -> (r: DensePolynomial)
    requires
        p.wf(),
        c.wf(),
    ensures
        r.wf(),
        r.coeffs.len() <= p.coeffs.len(),
        forall|x: nat| #[trigger] r.at(x) == fmul(p.at(x), c.val()),
{
    let a = ArkPolynomial::from_coefficients_vec(p.coeffs.iter().map(|s| Fr::from_bigint(BigInt(s.limbs())).unwrap()).collect());
    let k = Fr::from_bigint(BigInt(c.limbs())).unwrap();
    DensePolynomial { coeffs: (&a * k).coeffs.iter().map(|c| Scalar::from_limbs(c.into_bigint().0)).collect() }
}

/// Adds `f` times `q` to `p` in place, by `ark_poly`'s
/// `AddAssign<(F, &DensePolynomial)>`. Claims that the result takes
/// `p(x) + f q(x)` everywhere.
#[verifier::external_body]
pub(crate) fn ark_poly_add_scaled(p: &mut DensePolynomial, f: &Scalar, q: &DensePolynomial)
    requires
        old(p).wf(),
        f.wf(),
        q.wf(),
    ensures
        final(p).wf(),
        forall|x: nat| #[trigger] final(p).at(x) == fadd(old(p).at(x), fmul(f.val(), q.at(x))),
{
    let mut a = ArkPolynomial::from_coefficients_vec(p.coeffs.iter().map(|s| Fr::from_bigint(BigInt(s.limbs())).unwrap()).collect());
    let b = ArkPolynomial::from_coefficients_vec(q.coeffs.iter().map(|s| Fr::from_bigint(BigInt(s.limbs())).unwrap()).collect());
    a += (Fr::from_bigint(BigInt(f.limbs())).unwrap(), &b);
    p.coeffs = a.coeffs.iter().map(|c| Scalar::from_limbs(c.into_bigint().0)).collect();
}

/// The values of the Lagrange basis of the domain at `tau`, by `ark_poly`'s
/// `EvaluationDomain::evaluate_all_lagrange_coefficients`. Claims, with
/// `z = tau^n - 1` and `g_i` the `i`-th element: where `z` is zero, one at
/// the first `i` with `g_i = tau` and zero elsewhere; otherwise
/// `L_i(tau) = z g_i / (n (tau - g_i))`.
#[verifier::external_body]
pub(crate) fn ark_lagrange_coefficients(domain: &Domain, tau: &Scalar) -> (r: Vec<Scalar>)
    requires
        domain.wf(),
        tau.wf(),
    ensures
        all_wf(r@),
        r.len() == domain.size,
        forall|i: int| 0 <= i < domain.size ==> #[trigger] lagrange_value(*domain, i as nat, tau.val(), r@[i].val()),
{
    let d = GeneralEvaluationDomain::<Fr>::new(domain.size).unwrap();
    let t = Fr::from_bigint(BigInt(tau.limbs())).unwrap();
    d.evaluate_all_lagrange_coefficients(t).iter().map(|x| Scalar::from_limbs(x.into_bigint().0)).collect()
}

/// The value at `x` of the `i`-th Lagrange basis polynomial of the domain:
/// with `z = x^n - 1` and `g_i` the `i`-th element, `z g_i / (n (x - g_i))`
/// off the domain, and on it one at the first `i` with `g_i = x`, zero
/// elsewhere.
pub open spec fn lagrange_basis(d: Domain, i: nat, x: nat) -> nat {
    let n = d.size as nat;
    let z = fsub(fpow(x, n), 1);
    if z == 0 {
        if d.element(i) == x && forall|j: nat| j < i ==> #[trigger] d.element(j) != x {
            1nat
        } else {
            0nat
        }
    } else {
        fmul(fmul(z, d.element(i)), finv(fmul(n, fsub(x, d.element(i)))))
    }
}

/// `y` is the value at `tau` of the `i`-th Lagrange basis polynomial of the
/// domain.
pub open spec fn lagrange_value(d: Domain, i: nat, tau: nat, y: nat) -> bool {
    y == lagrange_basis(d, i, tau)
}

/// `sum_{i < k} e_i L_i(x)`, with `e_i` zero past the end of `evals`: the
/// value at `x` of the polynomial that interpolates `evals` on the domain.
pub open spec fn interp_at(evals: Seq<nat>, d: Domain, x: nat, k: nat) -> nat
    decreases k,
{
    if k == 0 {
        0
    } else {
        let i = (k - 1) as nat;
        let e = if i < evals.len() {
            evals[i as int]
        } else {
            0
        };
        fadd(interp_at(evals, d, x, i), fmul(e, lagrange_basis(d, i, x)))
    }
}

/// `sum_{i < n} c_i x^i` in the field.
pub open spec fn power_sum(c: Seq<nat>, x: nat, n: nat) -> nat
    decreases n,
{
    if n == 0 {
        0
    } else {
        fadd(power_sum(c, x, (n - 1) as nat), fmul(c[n - 1], fpow(x, (n - 1) as nat)))
    }
}

/// The first `n` terms do not look past the first `n` coefficients.
proof fn lemma_power_sum_prefix(c: Seq<nat>, x: nat, n: nat, k: nat)
    requires
        n <= k <= c.len(),
    ensures
        power_sum(c.take(k as int), x, n) == power_sum(c, x, n),
    decreases n,
{
    if n > 0 {
        lemma_power_sum_prefix(c, x, (n - 1) as nat, k);
    }
}

/// Horner's rule computes `sum_i c_i x^i`.
pub proof fn lemma_horner_is_power_sum(c: Seq<nat>, x: nat)
    ensures
        poly_eval(c, x) == power_sum(c, x, c.len()),
    decreases c.len(),
{
    let n = c.len();
    if n > 0 {
        let last = c.skip(n - 1);
        lemma_poly_eval_split(c, (n - 1) as nat, x);
        lemma_horner_is_power_sum(c.take(n - 1), x);
        lemma_power_sum_prefix(c, x, (n - 1) as nat, (n - 1) as nat);
        assert(last.drop_first() =~= Seq::<nat>::empty());
        assert(last[0] == c[n - 1]);
        assert(poly_eval(last.drop_first(), x) == 0);
        let xp = fpow(x, (n - 1) as nat);
        assert(poly_eval(last, x) == fadd(fmul(0, x), c[n - 1]));
        assert(fmul(xp, fadd(fmul(0, x), c[n - 1])) == fmul(c[n - 1], xp)) by {
            reveal(fadd);
            reveal(fmul);
            let p = modulus() as int;
            assert(0 * x == 0);
            vstd::arithmetic::div_mod::lemma_small_mod(0, modulus());
            vstd::arithmetic::div_mod::lemma_mul_mod_noop_right(xp as int, c[n - 1] as int, p);
            vstd::arithmetic::mul::lemma_mul_is_commutative(xp as int, c[n - 1] as int);
        }
    }
}

/// Powers of a product are products of powers.
pub proof fn lemma_fpow_mul(r: nat, x: nat, i: nat)
    ensures
        fpow(fmul(r, x), i) == fmul(fpow(r, i), fpow(x, i)),
    decreases i,
{
    if i == 0 {
        assert(fmul(1, 1) == 1) by {
            reveal(fmul);
            vstd::arithmetic::div_mod::lemma_small_mod(1, modulus());
        }
    } else {
        let j = (i - 1) as nat;
        lemma_fpow_mul(r, x, j);
        let (rr, xx) = (fpow(r, j), fpow(x, j));
        lemma_fmul_assoc(rr, xx, fmul(r, x));
        lemma_fmul_assoc(xx, r, x);
        lemma_fmul_comm(xx, r);
        lemma_fmul_assoc(r, xx, x);
        lemma_fmul_assoc(rr, r, fmul(xx, x));
    }
}

/// The powers `g^0, ..., g^(n - 1)` of a root of unity of order exactly `n`
/// are pairwise distinct.
pub proof fn lemma_root_powers_distinct(g: nat, n: nat, i: nat, j: nat)
    requires
        fpow(g, n) == 1,
        forall|k: nat| 0 < k < n ==> #[trigger] fpow(g, k) != 1,
        i < j < n,
    ensures
        fpow(g, i) != fpow(g, j),
{
    if fpow(g, i) == fpow(g, j) {
        let d = (j - i) as nat;
        let a = fpow(g, (n - i) as nat);
        lemma_fpow_add(g, i, d);
        lemma_fpow_add(g, (n - i) as nat, i);
        assert((n - i) as nat + i == n);
        assert(i + d == j);
        lemma_fmul_assoc(a, fpow(g, i), fpow(g, d));
        lemma_fpow_canonical(g, d);
        lemma_fmul_comm(1, fpow(g, d));
        lemma_fmul_one(fpow(g, d));
        assert(fpow(g, d) == 1);
        assert(fpow(g, d) != 1);
    }
}

} // verus!
