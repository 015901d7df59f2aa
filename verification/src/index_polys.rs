//! The polynomials of the distributed index: the values of the index
//! vectors as powers of the generator of `H` ("lower" evaluations),
//! their interpolants on the domain `M` of the non-zero entries, the
//! interpolants of the value and lookup-frequency vectors, and each
//! sub-prover's selector polynomials over `Y`.
use vstd::prelude::*;
use crate::field::{Scalar, all_wf, ark_pow, fadd, fmul, fpow, modulus, vals_of};
use crate::index::{DeColIndex, DeRowIndex, DeValEvals, Indexer};
use crate::nevals::NEvals;
use crate::poly::{DensePolynomial, Domain, ark_interpolate, interp_at, lagrange_basis, poly_eval};

verus! {

/// The index vectors of one sub-prover mapped to `w^i`, `w` the generator
/// of `H`.
#[derive(Clone, Debug)]
pub struct DeLowerAandBEvals {
    pub eval_la_pa_low: Vec<Scalar>,
    pub eval_la_pa_high: Vec<Scalar>,
    pub eval_la_pb_low: Vec<Scalar>,
    pub eval_la_pb_high: Vec<Scalar>,
    pub eval_la_pc_low: Vec<Scalar>,
    pub eval_la_pc_high: Vec<Scalar>,
    pub eval_lb_pa: Vec<Scalar>,
    pub eval_lb_pb: Vec<Scalar>,
    pub eval_lb_pc: Vec<Scalar>,
}

/// The interpolants on `M` of the vectors of `DeLowerAandBEvals`.
#[derive(Clone, Debug)]
pub struct DeLowerAandBPolys {
    pub la_pa_low: DensePolynomial,
    pub la_pa_high: DensePolynomial,
    pub la_pb_low: DensePolynomial,
    pub la_pb_high: DensePolynomial,
    pub la_pc_low: DensePolynomial,
    pub la_pc_high: DensePolynomial,
    pub lb_pa: DensePolynomial,
    pub lb_pb: DensePolynomial,
    pub lb_pc: DensePolynomial,
}

/// The interpolants on `M` of one sub-prover's value vectors.
#[derive(Clone, Debug)]
pub struct DeValPolys {
    pub val_pa: DensePolynomial,
    pub val_pb: DensePolynomial,
    pub val_pc: DensePolynomial,
}

/// The interpolants on `H` of the lookup frequencies.
#[derive(Clone, Debug)]
pub struct NPolys {
    pub row_pa_low: DensePolynomial,
    pub row_pa_high: DensePolynomial,
    pub row_pb_low: DensePolynomial,
    pub row_pb_high: DensePolynomial,
    pub row_pc_low: DensePolynomial,
    pub row_pc_high: DensePolynomial,
    pub col_pa: DensePolynomial,
    pub col_pb: DensePolynomial,
    pub col_pc: DensePolynomial,
}

/// What one sub-prover keeps of the preprocessing: its selectors, its part
/// of the index, and the polynomials built from them.
#[derive(Clone, Debug)]
pub struct PreMesProver {
    pub upper_r_poly: DensePolynomial,
    pub de_row_index_vec: DeRowIndex,
    pub de_col_index_vec: DeColIndex,
    pub val_evals: DeValEvals,
    pub val_polys: DeValPolys,
    pub lower_a_b_evals: DeLowerAandBEvals,
    pub lower_a_b_polys: DeLowerAandBPolys,
    pub n_evals: NEvals,
    pub n_polys: NPolys,
    pub de_poly_l: DensePolynomial,
}

/// What the verifier receives of the preprocessing: the commitments, in the
/// group `G`.
#[derive(Clone, Debug)]
pub struct PreMesVerifier<G> {
    pub com_upper_r: G,
    pub coms_val: Vec<G>,
    pub coms_lower_a_b: Vec<G>,
    pub com_l: G,
    pub coms_n: Vec<G>,
}

/// `p` is the interpolant of `evals` (padded with zeros, or cut, to the
/// domain's size) on `d`.
pub open spec fn interpolates(p: DensePolynomial, evals: Seq<Scalar>, d: Domain) -> bool {
    &&& p.wf()
    &&& p.coeffs.len() <= d.size
    &&& forall|i: nat|
        i < d.size ==> #[trigger] p.at(d.element(i)) == if i < evals.len() {
            evals[i as int].val()
        } else {
            0
        }
    &&& forall|x: nat| #[trigger] p.at(x) == interp_at(vals_of(evals), d, x, d.size as nat)
}

/// `v` holds, for each exponent `e` of `exps`, the element `g^e` of `d`.
pub open spec fn domain_powers(v: Seq<Scalar>, d: Domain, exps: Seq<usize>) -> bool {
    &&& all_wf(v)
    &&& v.len() == exps.len()
    &&& forall|i: int| 0 <= i < v.len() ==> #[trigger] v[i].val() == d.element(exps[i] as nat)
}

/// `w^e` for every exponent `e` of `exps`.
fn powers_of(w: &Scalar, exps: &Vec<usize>) -> (r: Vec<Scalar>)
    requires
        w.wf(),
    ensures
        all_wf(r@),
        r.len() == exps.len(),
        forall|i: int| 0 <= i < r.len() ==> #[trigger] r@[i].val() == fpow(w.val(), exps@[i] as nat),
{
    let mut r: Vec<Scalar> = Vec::new();
    let mut i: usize = 0;
    while i < exps.len()
        invariant
            i <= exps.len(),
            w.wf(),
            r.len() == i,
            all_wf(r@),
            forall|k: int| 0 <= k < i ==> #[trigger] r@[k].val() == fpow(w.val(), exps@[k] as nat),
        decreases exps.len() - i,
    {
        r.push(ark_pow(w, exps[i] as u64));
        i += 1;
    }
    r
}

/// The powers of the domain's generator named by `exps`.
fn domain_powers_of(w: &Scalar, d: &Domain, exps: &Vec<usize>) -> (r: Vec<Scalar>)
    requires
        w.wf(),
        w.val() == crate::poly::domain_generator(d.size as nat),
    ensures
        domain_powers(r@, *d, exps@),
{
    powers_of(w, exps)
}

/// The interpolant of `evals` on `d`.
fn interpolate(evals: &Vec<Scalar>, d: &Domain) -> (p: DensePolynomial)
    requires
        d.wf(),
        all_wf(evals@),
    ensures
        interpolates(p, evals@, *d),
{
    ark_interpolate(evals, d)
}

/// The vector of length `n` that is one at `id` and zero elsewhere.
pub open spec fn unit_seq(n: nat, id: nat) -> Seq<nat> {
    Seq::new(n, |i: int| if i == id { 1nat } else { 0nat })
}

/// The vector of `n` field elements that is one at `id` and zero elsewhere.
fn unit_vector(n: usize, id: usize) -> (r: Vec<Scalar>)
    ensures
        all_wf(r@),
        r.len() == n,
        vals_of(r@) == unit_seq(n as nat, id as nat),
{
    let mut r: Vec<Scalar> = Vec::new();
    let mut i: usize = 0;
    while i < n
        invariant
            i <= n,
            r.len() == i,
            all_wf(r@),
            forall|k: int| 0 <= k < i ==> #[trigger] r@[k].val() == if k == id { 1nat } else { 0nat },
        decreases n - i,
    {
        if i == id {
            r.push(Scalar::one());
        } else {
            r.push(Scalar::zero());
        }
        i += 1;
    }
    assert(vals_of(r@) =~= unit_seq(n as nat, id as nat));
    r
}

/// Horner's rule on a unit vector gives the power of `x`.
proof fn lemma_eval_unit(n: nat, x: nat)
    ensures
        poly_eval(unit_seq(n + 1, n), x) == fpow(x, n),
    decreases n,
{
    let c = unit_seq(n + 1, n);
    if n == 0 {
        assert(c.drop_first() =~= Seq::<nat>::empty());
        assert(poly_eval(c.drop_first(), x) == 0);
        assert(c[0] == 1);
        assert(poly_eval(c, x) == fadd(fmul(0, x), 1));
        assert(fadd(fmul(0, x), 1) == 1) by {
            reveal(fadd);
            reveal(fmul);
            assert(0 * x == 0);
            vstd::arithmetic::div_mod::lemma_small_mod(0, modulus());
            vstd::arithmetic::div_mod::lemma_small_mod(1, modulus());
            assert(fmul(0, x) == 0);
        }
    } else {
        assert(c.drop_first() =~= unit_seq(n, (n - 1) as nat));
        lemma_eval_unit((n - 1) as nat, x);
        let y = fmul(fpow(x, (n - 1) as nat), x);
        assert(poly_eval(c, x) == fadd(y, 0));
        assert(fadd(y, 0) == y) by {
            reveal(fadd);
            reveal(fmul);
            vstd::arithmetic::div_mod::lemma_mod_bound((fpow(x, (n - 1) as nat) * x) as int, modulus() as int);
            vstd::arithmetic::div_mod::lemma_small_mod(y, modulus());
        }
    }
}

/// The interpolant of a unit vector is the Lagrange basis polynomial of its
/// one, or zero where the domain cuts that one off.
proof fn lemma_interp_unit(n: nat, id: nat, d: Domain, x: nat, k: nat)
    requires
        id < n,
    ensures
        interp_at(unit_seq(n, id), d, x, k) == if id < k { lagrange_basis(d, id, x) } else { 0 },
    decreases k,
{
    if k > 0 {
        let i = (k - 1) as nat;
        let e = unit_seq(n, id);
        lemma_interp_unit(n, id, d, x, i);
        let prev = interp_at(e, d, x, i);
        let li = lagrange_basis(d, i, x);
        let ei: nat = if i < e.len() { e[i as int] } else { 0 };
        assert(interp_at(e, d, x, k) == fadd(prev, fmul(ei, li)));
        lemma_lagrange_basis_canonical(d, i, x);
        lemma_lagrange_basis_canonical(d, id, x);
        if i == id {
            assert(prev == 0 && ei == 1);
            assert(fadd(0, fmul(1, li)) == li) by {
                reveal(fadd);
                reveal(fmul);
                assert(1 * li == li);
                vstd::arithmetic::div_mod::lemma_small_mod(li, modulus());
                assert(fmul(1, li) == li);
                assert(0 + li == li);
            }
        } else {
            assert(ei == 0);
            assert(prev < modulus());
            assert(fadd(prev, fmul(0, li)) == prev) by {
                reveal(fadd);
                reveal(fmul);
                assert(0 * li == 0);
                vstd::arithmetic::div_mod::lemma_small_mod(0, modulus());
                vstd::arithmetic::div_mod::lemma_small_mod(prev, modulus());
            }
        }
    }
}

/// The Lagrange basis takes canonical values.
proof fn lemma_lagrange_basis_canonical(d: Domain, i: nat, x: nat)
    ensures
        lagrange_basis(d, i, x) < modulus(),
{
    reveal(fmul);
}

impl Indexer {
    /// Maps every row digit and column of the sub-prover's index to the
    /// element `w^i` of `H` (`x_domain`) and interpolates each of the nine
    /// vectors on `M` (`m_domain`). The low digits and the columns of `Pa`
    /// must have one entry per element of `M`.
    pub fn compute_lower_a_b_evals_and_polys(
        de_row_index: &DeRowIndex,
        de_col_index: &DeColIndex,
        m_domain: &Domain,
        x_domain: &Domain,
    ) -> (res: (DeLowerAandBEvals, DeLowerAandBPolys))
        requires
            m_domain.wf(),
            x_domain.wf(),
            de_row_index.row_pa_low.len() == m_domain.size,
            de_col_index.col_pa.len() == m_domain.size,
        ensures
            domain_powers(res.0.eval_la_pa_low@, *x_domain, de_row_index.row_pa_low@),
            domain_powers(res.0.eval_la_pa_high@, *x_domain, de_row_index.row_pa_high@),
            domain_powers(res.0.eval_la_pb_low@, *x_domain, de_row_index.row_pb_low@),
            domain_powers(res.0.eval_la_pb_high@, *x_domain, de_row_index.row_pb_high@),
            domain_powers(res.0.eval_la_pc_low@, *x_domain, de_row_index.row_pc_low@),
            domain_powers(res.0.eval_la_pc_high@, *x_domain, de_row_index.row_pc_high@),
            domain_powers(res.0.eval_lb_pa@, *x_domain, de_col_index.col_pa@),
            domain_powers(res.0.eval_lb_pb@, *x_domain, de_col_index.col_pb@),
            domain_powers(res.0.eval_lb_pc@, *x_domain, de_col_index.col_pc@),
            interpolates(res.1.la_pa_low, res.0.eval_la_pa_low@, *m_domain),
            interpolates(res.1.la_pa_high, res.0.eval_la_pa_high@, *m_domain),
            interpolates(res.1.la_pb_low, res.0.eval_la_pb_low@, *m_domain),
            interpolates(res.1.la_pb_high, res.0.eval_la_pb_high@, *m_domain),
            interpolates(res.1.la_pc_low, res.0.eval_la_pc_low@, *m_domain),
            interpolates(res.1.la_pc_high, res.0.eval_la_pc_high@, *m_domain),
            interpolates(res.1.lb_pa, res.0.eval_lb_pa@, *m_domain),
            interpolates(res.1.lb_pb, res.0.eval_lb_pb@, *m_domain),
            interpolates(res.1.lb_pc, res.0.eval_lb_pc@, *m_domain),
    {
        let w = x_domain.group_gen();
        let evals = DeLowerAandBEvals {
            eval_la_pa_low: domain_powers_of(&w, x_domain, &de_row_index.row_pa_low),
            eval_la_pa_high: domain_powers_of(&w, x_domain, &de_row_index.row_pa_high),
            eval_la_pb_low: domain_powers_of(&w, x_domain, &de_row_index.row_pb_low),
            eval_la_pb_high: domain_powers_of(&w, x_domain, &de_row_index.row_pb_high),
            eval_la_pc_low: domain_powers_of(&w, x_domain, &de_row_index.row_pc_low),
            eval_la_pc_high: domain_powers_of(&w, x_domain, &de_row_index.row_pc_high),
            eval_lb_pa: domain_powers_of(&w, x_domain, &de_col_index.col_pa),
            eval_lb_pb: domain_powers_of(&w, x_domain, &de_col_index.col_pb),
            eval_lb_pc: domain_powers_of(&w, x_domain, &de_col_index.col_pc),
        };
        let polys = DeLowerAandBPolys {
            la_pa_low: interpolate(&evals.eval_la_pa_low, m_domain),
            la_pa_high: interpolate(&evals.eval_la_pa_high, m_domain),
            la_pb_low: interpolate(&evals.eval_la_pb_low, m_domain),
            la_pb_high: interpolate(&evals.eval_la_pb_high, m_domain),
            la_pc_low: interpolate(&evals.eval_la_pc_low, m_domain),
            la_pc_high: interpolate(&evals.eval_la_pc_high, m_domain),
            lb_pa: interpolate(&evals.eval_lb_pa, m_domain),
            lb_pb: interpolate(&evals.eval_lb_pb, m_domain),
            lb_pc: interpolate(&evals.eval_lb_pc, m_domain),
        };
        (evals, polys)
    }

    /// Interpolates each sub-prover's value vectors on `M`.
    pub fn compute_val_polys(_l: usize, m_domain: &Domain, val_evals: Vec<DeValEvals>) -> (r: Vec<
        DeValPolys,
    >)
        requires
            m_domain.wf(),
            forall|k: int| 0 <= k < val_evals.len() ==> (#[trigger] val_evals@[k]).wf(),
        ensures
            r.len() == val_evals.len(),
            forall|k: int| 0 <= k < r.len() ==> (#[trigger] r@[k]).interpolates_evals(val_evals@[k], *m_domain),
    {
        let mut r: Vec<DeValPolys> = Vec::new();
        let mut k: usize = 0;
        while k < val_evals.len()
            invariant
                k <= val_evals.len(),
                m_domain.wf(),
                forall|k2: int| 0 <= k2 < val_evals.len() ==> (#[trigger] val_evals@[k2]).wf(),
                r.len() == k,
                forall|k2: int| 0 <= k2 < k ==> (#[trigger] r@[k2]).interpolates_evals(val_evals@[k2], *m_domain),
            decreases val_evals.len() - k,
        {
            r.push(Self::de_compute_val_polys(m_domain, &val_evals[k]));
            k += 1;
        }
        r
    }

    /// Interpolates the sub-prover's value vectors on `M`.
    pub fn de_compute_val_polys(m_domain: &Domain, val_evals: &DeValEvals) -> (r: DeValPolys)
        requires
            m_domain.wf(),
            val_evals.wf(),
        ensures
            r.interpolates_evals(*val_evals, *m_domain),
    {
        DeValPolys {
            val_pa: interpolate(&val_evals.evals_val_pa, m_domain),
            val_pb: interpolate(&val_evals.evals_val_pb, m_domain),
            val_pc: interpolate(&val_evals.evals_val_pc, m_domain),
        }
    }

    /// Interpolates the nine lookup-frequency vectors on `H`.
    pub fn compute_n_polys(x_domain: &Domain, n_evals: &NEvals) -> (r: NPolys)
        requires
            x_domain.wf(),
            all_wf(n_evals.row_pa_low@) && all_wf(n_evals.row_pa_high@),
            all_wf(n_evals.row_pb_low@) && all_wf(n_evals.row_pb_high@),
            all_wf(n_evals.row_pc_low@) && all_wf(n_evals.row_pc_high@),
            all_wf(n_evals.col_pa@) && all_wf(n_evals.col_pb@) && all_wf(n_evals.col_pc@),
        ensures
            interpolates(r.row_pa_low, n_evals.row_pa_low@, *x_domain),
            interpolates(r.row_pa_high, n_evals.row_pa_high@, *x_domain),
            interpolates(r.row_pb_low, n_evals.row_pb_low@, *x_domain),
            interpolates(r.row_pb_high, n_evals.row_pb_high@, *x_domain),
            interpolates(r.row_pc_low, n_evals.row_pc_low@, *x_domain),
            interpolates(r.row_pc_high, n_evals.row_pc_high@, *x_domain),
            interpolates(r.col_pa, n_evals.col_pa@, *x_domain),
            interpolates(r.col_pb, n_evals.col_pb@, *x_domain),
            interpolates(r.col_pc, n_evals.col_pc@, *x_domain),
    {
        NPolys {
            row_pa_low: interpolate(&n_evals.row_pa_low, x_domain),
            row_pa_high: interpolate(&n_evals.row_pa_high, x_domain),
            row_pb_low: interpolate(&n_evals.row_pb_low, x_domain),
            row_pb_high: interpolate(&n_evals.row_pb_high, x_domain),
            row_pc_low: interpolate(&n_evals.row_pc_low, x_domain),
            row_pc_high: interpolate(&n_evals.row_pc_high, x_domain),
            col_pa: interpolate(&n_evals.col_pa, x_domain),
            col_pb: interpolate(&n_evals.col_pb, x_domain),
            col_pc: interpolate(&n_evals.col_pc, x_domain),
        }
    }

    /// The sub-prover's selector over `X`: the monomial `X^id`, by its
    /// coefficients.
    pub fn upper_r_poly(sub_prover_id: usize) -> (p: DensePolynomial)
        requires
            sub_prover_id < usize::MAX,
        ensures
            p.wf(),
            vals_of(p.coeffs@) == unit_seq((sub_prover_id + 1) as nat, sub_prover_id as nat),
            forall|x: nat| #[trigger] p.at(x) == fpow(x, sub_prover_id as nat),
    {
        let c = unit_vector(sub_prover_id + 1, sub_prover_id);
        assert(c@.last().val() == 1) by {
            assert(vals_of(c@)[sub_prover_id as int] == 1);
            assert(c@.len() == sub_prover_id + 1);
            assert(c@.last() == c@[sub_prover_id as int]);
        }
        let p = DensePolynomial::from_coefficients_vec(c);
        proof {
            assert forall|x: nat| #[trigger] p.at(x) == fpow(x, sub_prover_id as nat) by {
                lemma_eval_unit(sub_prover_id as nat, x);
            }
        }
        p
    }

    /// The sub-prover's selector over `Y`: the interpolant on `y_domain` of
    /// the vector of length `l` that is one at `id`, which is the Lagrange
    /// basis polynomial of the `id`-th element (zero if the domain is too
    /// small to hold it).
    pub fn upper_l_poly(sub_prover_id: usize, l: usize, y_domain: &Domain) -> (p: DensePolynomial)
        requires
            sub_prover_id < l,
            y_domain.wf(),
        ensures
            p.wf(),
            p.coeffs.len() <= y_domain.size,
            forall|j: nat|
                j < y_domain.size ==> #[trigger] p.at(y_domain.element(j)) == if j == sub_prover_id {
                    1nat
                } else {
                    0nat
                },
            forall|x: nat| #[trigger] p.at(x) == interp_at(
                unit_seq(l as nat, sub_prover_id as nat),
                *y_domain,
                x,
                y_domain.size as nat,
            ),
            forall|x: nat| #[trigger] p.at(x) == if sub_prover_id < y_domain.size {
                lagrange_basis(*y_domain, sub_prover_id as nat, x)
            } else {
                0
            },
    {
        let v = unit_vector(l, sub_prover_id);
        let p = interpolate(&v, y_domain);
        proof {
            assert forall|x: nat| #[trigger] p.at(x) == if sub_prover_id < y_domain.size {
                lagrange_basis(*y_domain, sub_prover_id as nat, x)
            } else {
                0
            } by {
                lemma_interp_unit(l as nat, sub_prover_id as nat, *y_domain, x, y_domain.size as nat);
            }
            assert forall|j: nat| j < y_domain.size implies #[trigger] p.at(y_domain.element(j)) == if j
                == sub_prover_id {
                1nat
            } else {
                0nat
            } by {
                if j < l {
                    assert(vals_of(v@)[j as int] == unit_seq(l as nat, sub_prover_id as nat)[j as int]);
                }
            }
        }
        p
    }
}

impl DeValEvals {
    /// Every value is a canonical field element.
    pub open spec fn wf(self) -> bool {
        all_wf(self.evals_val_pa@) && all_wf(self.evals_val_pb@) && all_wf(self.evals_val_pc@)
    }
}

impl DeValPolys {
    /// Each polynomial interpolates the matching vector of `e` on `d`.
    pub open spec fn interpolates_evals(self, e: DeValEvals, d: Domain) -> bool {
        &&& interpolates(self.val_pa, e.evals_val_pa@, d)
        &&& interpolates(self.val_pb, e.evals_val_pb@, d)
        &&& interpolates(self.val_pc, e.evals_val_pc@, d)
    }
}

} // verus!
