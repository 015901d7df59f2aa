//! The distributed linear-time SNARK: the proof object, the pieces of the
//! prover's protocol that compute on field elements (challenge powers, the
//! sub-prover's message, the split of `h_2`, the master's evaluations at
//! `beta`) and the verifier's evaluation check.
use vstd::prelude::*;
use crate::field::{
    Scalar, all_wf, ark_add, ark_inverse, ark_mul, ark_pow, ark_sub, fadd, finv, fmul, fpow, fsub,
    lemma_finv, vals_of,
};
use crate::gadgets::min;
use crate::poly::{DensePolynomial, Domain, ark_lagrange_coefficients, lagrange_basis, poly_eval, trim_zeros};
use crate::index::{pad_scalar_vec, pad_scalars, scalar_zero};
use crate::prover::{
    R1CSDePublicPolys, R1CSPublicPolys, R1CSWitnessPolys, first_round_values, first_target_value,
    first_target_values, law_scaled_coeffs_eval, scaled_coeffs, second_round_values, second_target_on_domain,
    y_poly_at, y_values_at, second_round_column,
};

verus! {

/// The distributed SNARK for R1CS with linear-time provers.
pub struct DeSNARKLinear {}

/// A proof: commitments, evaluations and opening proofs; `G` is the group
/// of the commitments.
pub struct SNARKProofLinear<G> {
    pub coms_wit_polys: Vec<G>,
    pub coms_g1_h1: Vec<G>,
    pub coms_g2_h2: Vec<G>,
    pub evals_wit_polys: Vec<Scalar>,
    pub evals_g1_h1: Vec<Scalar>,
    pub evals_g2_h2: Vec<Scalar>,
    pub proof_g1_h1: G,
    pub proof_g2_h2: G,
    pub proofs_wit_polys: (G, Vec<Scalar>, Scalar, (G, G), G),
}

/// The verifier's challenges, in the order the transcript draws them.
#[derive(Clone, Copy, Debug)]
pub struct Challenges {
    pub v: Scalar,
    pub u1: Scalar,
    pub alpha: Scalar,
    pub u2: Scalar,
    pub gamma: Scalar,
    pub beta: Scalar,
}

impl Challenges {
    pub open spec fn wf(self) -> bool {
        self.v.wf() && self.u1.wf() && self.alpha.wf() && self.u2.wf() && self.gamma.wf() && self.beta.wf()
    }
}

/// `sum_{i < n} a_i w_i` in the field.
pub open spec fn weighted_sum(a: Seq<nat>, w: Seq<nat>, n: nat) -> nat
    decreases n,
{
    if n == 0 {
        0
    } else {
        fadd(weighted_sum(a, w, (n - 1) as nat), fmul(a[n - 1], w[n - 1]))
    }
}

/// `sum_{i < n} v^i x_i` in the field.
pub open spec fn power_combination(xs: Seq<nat>, v: nat, n: nat) -> nat
    decreases n,
{
    if n == 0 {
        0
    } else {
        fadd(power_combination(xs, v, (n - 1) as nat), fmul(fpow(v, (n - 1) as nat), xs[n - 1]))
    }
}

/// The values of the Lagrange basis of `d` at `x`.
pub open spec fn lagrange_values(d: Domain, x: nat) -> Seq<nat> {
    Seq::new(d.size as nat, |i: int| lagrange_basis(d, i as nat, x))
}

/// The values of the polynomials at `x`.
pub open spec fn poly_values(ps: Seq<DensePolynomial>, x: nat) -> Seq<nat> {
    Seq::new(ps.len(), |i: int| ps[i].at(x))
}

/// `1, q, q^2, ..., q^(n - 1)`.
pub open spec fn power_seq(q: nat, n: nat) -> Seq<nat> {
    Seq::new(n, |i: int| fpow(q, i as nat))
}

/// `sum_i p_i(alpha) L_i(beta)` over the sub-provers' polynomials and the
/// Lagrange basis of `Y` (as far as both go).
pub open spec fn bivariate_at(ps: Seq<DensePolynomial>, yd: Domain, alpha: nat, beta: nat) -> nat {
    weighted_sum(poly_values(ps, alpha), lagrange_values(yd, beta), min(ps.len(), yd.size as nat))
}

/// The four constraint values the verifier recomputes from the claimed
/// evaluations `e` of the witness polynomials: with `pa`, `pb`, `pc` the
/// public polynomials at `(alpha, beta)`, `rb` the selector `R` at `beta`
/// and `q = r^m`.
pub open spec fn verifier_constraints(pa: nat, pb: nat, pc: nat, rb: nat, q: nat, e: Seq<nat>) -> Seq<
    nat,
> {
    let bv = fadd(fmul(e[4], q), fmul(e[5], fsub(1, q)));
    seq![
        fsub(fmul(pa, e[0]), fmul(rb, e[2])),
        fsub(fmul(pb, e[0]), fmul(rb, bv)),
        fsub(fmul(pc, e[0]), fmul(rb, e[6])),
        fmul(fsub(fmul(e[1], e[3]), e[6]), rb),
    ]
}

/// The left side of the evaluation check:
/// `(beta - u_2) (alpha - u_1) sum_i v^i f_i`.
pub open spec fn check_left(
    xd: Domain,
    yd: Domain,
    pubp: R1CSDePublicPolys,
    r: nat,
    ch: Challenges,
    e: Seq<nat>,
) -> nat {
    let alpha = ch.alpha.val();
    let beta = ch.beta.val();
    let q = fpow(r, xd.size as nat);
    let lag = lagrange_values(yd, beta);
    let rb = weighted_sum(power_seq(q, yd.size as nat), lag, yd.size as nat);
    let f = verifier_constraints(
        bivariate_at(pubp.polys_pa@, yd, alpha, beta),
        bivariate_at(pubp.polys_pb@, yd, alpha, beta),
        bivariate_at(pubp.polys_pc@, yd, alpha, beta),
        rb,
        q,
        e,
    );
    fmul(fmul(fsub(beta, ch.u2.val()), fsub(alpha, ch.u1.val())), power_combination(f, ch.v.val(), 4))
}

/// The right side of the evaluation check, from the claimed `g_1(alpha)`,
/// `h_1(alpha)` (`gh1`) and `g_2(beta)`, `h_2`'s low and high halves at
/// `beta` (`gh2`):
/// `beta g_2 + (beta - u_2) t_2 + (beta - u_2) Z_Y(beta) (h_low + beta^l h_high)`
/// with `t_2 = (alpha g_1 + (alpha - u_1) Z_X(alpha) h_1) / l`.
pub open spec fn check_right(xd: Domain, yd: Domain, ch: Challenges, gh1: Seq<nat>, gh2: Seq<nat>) -> nat {
    let alpha = ch.alpha.val();
    let beta = ch.beta.val();
    let l = yd.size as nat;
    let zx = fsub(fpow(alpha, xd.size as nat), 1);
    let zy = fsub(fpow(beta, l), 1);
    let t2 = fmul(fadd(fmul(alpha, gh1[0]), fmul(fmul(fsub(alpha, ch.u1.val()), zx), gh1[1])), finv(l));
    let bu = fsub(beta, ch.u2.val());
    fadd(
        fadd(fmul(beta, gh2[0]), fmul(bu, t2)),
        fmul(fmul(bu, zy), fadd(gh2[1], fmul(fpow(beta, l), gh2[2]))),
    )
}

/// `sum_{i < n} a_i w_i` over two vectors of field elements.
fn inner_sum(a: &Vec<Scalar>, w: &Vec<Scalar>) -> (s: Scalar)
    requires
        all_wf(a@),
        all_wf(w@),
    ensures
        s.wf(),
        s.val() == weighted_sum(vals_of(a@), vals_of(w@), min(a.len() as nat, w.len() as nat)),
{
    let n = if a.len() <= w.len() {
        a.len()
    } else {
        w.len()
    };
    let mut s = Scalar::zero();
    let mut i: usize = 0;
    while i < n
        invariant
            i <= n,
            n <= a.len() && n <= w.len(),
            all_wf(a@),
            all_wf(w@),
            s.wf(),
            s.val() == weighted_sum(vals_of(a@), vals_of(w@), i as nat),
        decreases n - i,
    {
        let t = ark_mul(&a[i], &w[i]);
        s = ark_add(&s, &t);
        i += 1;
    }
    s
}

/// The values of the polynomials at `x`.
fn evaluate_each(ps: &Vec<DensePolynomial>, x: &Scalar) -> (r: Vec<Scalar>)
    requires
        x.wf(),
        forall|i: int| 0 <= i < ps.len() ==> (#[trigger] ps@[i]).wf(),
    ensures
        all_wf(r@),
        r.len() == ps.len(),
        vals_of(r@) == poly_values(ps@, x.val()),
{
    let mut r: Vec<Scalar> = Vec::new();
    let mut i: usize = 0;
    while i < ps.len()
        invariant
            i <= ps.len(),
            x.wf(),
            forall|k: int| 0 <= k < ps.len() ==> (#[trigger] ps@[k]).wf(),
            r.len() == i,
            all_wf(r@),
            forall|k: int| 0 <= k < i ==> #[trigger] r@[k].val() == ps@[k].at(x.val()),
        decreases ps.len() - i,
    {
        r.push(ps[i].evaluate(x));
        i += 1;
    }
    assert(vals_of(r@) =~= poly_values(ps@, x.val()));
    r
}

/// `1, q, ..., q^(n - 1)`.
fn powers(q: &Scalar, n: usize) -> (r: Vec<Scalar>)
    requires
        q.wf(),
    ensures
        all_wf(r@),
        r.len() == n,
        vals_of(r@) == power_seq(q.val(), n as nat),
{
    let mut r: Vec<Scalar> = Vec::new();
    let mut i: usize = 0;
    while i < n
        invariant
            i <= n,
            q.wf(),
            r.len() == i,
            all_wf(r@),
            forall|k: int| 0 <= k < i ==> #[trigger] r@[k].val() == fpow(q.val(), k as nat),
        decreases n - i,
    {
        r.push(ark_pow(q, i as u64));
        i += 1;
    }
    assert(vals_of(r@) =~= power_seq(q.val(), n as nat));
    r
}

/// `sum_{i < len} v^i x_i`: the random linear combination of the values
/// with powers of the challenge.
pub fn linear_combination_field(values: &Vec<Scalar>, challenge: &Scalar) -> (s: Scalar)
    requires
        all_wf(values@),
        challenge.wf(),
    ensures
        s.wf(),
        s.val() == power_combination(vals_of(values@), challenge.val(), values.len() as nat),
{
    let mut s = Scalar::zero();
    let mut p = Scalar::one();
    let mut i: usize = 0;
    while i < values.len()
        invariant
            i <= values.len(),
            all_wf(values@),
            challenge.wf(),
            s.wf() && p.wf(),
            p.val() == fpow(challenge.val(), i as nat),
            s.val() == power_combination(vals_of(values@), challenge.val(), i as nat),
        decreases values.len() - i,
    {
        let t = ark_mul(&p, &values[i]);
        s = ark_add(&s, &t);
        p = ark_mul(&p, challenge);
        i += 1;
    }
    s
}

/// The left side of the evaluation check, computed.
fn left_side(
    x_domain: &Domain,
    y_domain: &Domain,
    pub_polys: &R1CSDePublicPolys,
    r: &Scalar,
    ch: &Challenges,
    e: &Vec<Scalar>,
) -> (s: Scalar)
    requires
        x_domain.wf(),
        y_domain.wf(),
        pub_polys.wf(),
        r.wf(),
        ch.wf(),
        e.len() >= 7 && all_wf(e@),
    ensures
        s.wf(),
        s.val() == check_left(*x_domain, *y_domain, *pub_polys, r.val(), *ch, vals_of(e@)),
{
    let l = y_domain.size;
    let alpha = &ch.alpha;
    let beta = &ch.beta;
    let r_pow_m = ark_pow(r, x_domain.size as u64);
    let eval_beta = ark_lagrange_coefficients(y_domain, beta);
    assert forall|i: int| 0 <= i < l implies #[trigger] eval_beta@[i].val() == lagrange_basis(
        *y_domain,
        i as nat,
        beta.val(),
    ) by {
        assert(crate::poly::lagrange_value(*y_domain, i as nat, beta.val(), eval_beta@[i].val()));
    }
    assert(vals_of(eval_beta@) =~= lagrange_values(*y_domain, beta.val()));
    let eval_r = powers(&r_pow_m, l);
    let va = evaluate_each(&pub_polys.polys_pa, alpha);
    let vb = evaluate_each(&pub_polys.polys_pb, alpha);
    let vc = evaluate_each(&pub_polys.polys_pc, alpha);
    let eval_pa = inner_sum(&va, &eval_beta);
    let eval_pb = inner_sum(&vb, &eval_beta);
    let eval_pc = inner_sum(&vc, &eval_beta);
    let eval_r_beta = inner_sum(&eval_r, &eval_beta);
    let ghost q = fpow(r.val(), x_domain.size as nat);
    let ghost lag = lagrange_values(*y_domain, beta.val());
    assert(va.len() == pub_polys.polys_pa.len() && vb.len() == pub_polys.polys_pb.len());
    assert(vc.len() == pub_polys.polys_pc.len() && eval_r.len() == l);
    assert(eval_pa.val() == bivariate_at(pub_polys.polys_pa@, *y_domain, alpha.val(), beta.val()));
    assert(eval_pb.val() == bivariate_at(pub_polys.polys_pb@, *y_domain, alpha.val(), beta.val()));
    assert(eval_pc.val() == bivariate_at(pub_polys.polys_pc@, *y_domain, alpha.val(), beta.val()));
    assert(eval_r_beta.val() == weighted_sum(power_seq(q, l as nat), lag, l as nat));
    let f1 = ark_sub(&ark_mul(&eval_pa, &e[0]), &ark_mul(&eval_r_beta, &e[2]));
    let bv = ark_add(&ark_mul(&e[4], &r_pow_m), &ark_mul(&e[5], &ark_sub(&Scalar::one(), &r_pow_m)));
    let f2 = ark_sub(&ark_mul(&eval_pb, &e[0]), &ark_mul(&eval_r_beta, &bv));
    let f3 = ark_sub(&ark_mul(&eval_pc, &e[0]), &ark_mul(&eval_r_beta, &e[6]));
    let f4 = ark_mul(&ark_sub(&ark_mul(&e[1], &e[3]), &e[6]), &eval_r_beta);
    let fs = vec![f1, f2, f3, f4];
    proof {
        assert(vals_of(fs@) =~= verifier_constraints(
            eval_pa.val(),
            eval_pb.val(),
            eval_pc.val(),
            eval_r_beta.val(),
            r_pow_m.val(),
            vals_of(e@),
        ));
    }
    let eval_rlc = linear_combination_field(&fs, &ch.v);
    ark_mul(&ark_mul(&ark_sub(beta, &ch.u2), &ark_sub(alpha, &ch.u1)), &eval_rlc)
}

/// The right side of the evaluation check, computed.
fn right_side(x_domain: &Domain, y_domain: &Domain, ch: &Challenges, gh1: &Vec<Scalar>, gh2: &Vec<Scalar>) -> (s:
    Scalar)
    requires
        x_domain.wf(),
        y_domain.wf(),
        ch.wf(),
        gh1.len() >= 2 && all_wf(gh1@),
        gh2.len() >= 3 && all_wf(gh2@),
    ensures
        s.wf(),
        s.val() == check_right(*x_domain, *y_domain, *ch, vals_of(gh1@), vals_of(gh2@)),
{
    let l = y_domain.size;
    let alpha = &ch.alpha;
    let beta = &ch.beta;
    let z_h_eval_x = x_domain.evaluate_vanishing_polynomial(alpha);
    let n = y_domain.size_as_field_element();
    let n_inv = ark_inverse(&n).unwrap();
    proof {
        lemma_finv(n.val(), n_inv.val());
    }
    let t2 = ark_mul(
        &ark_add(&ark_mul(alpha, &gh1[0]), &ark_mul(&ark_mul(&ark_sub(alpha, &ch.u1), &z_h_eval_x), &gh1[1])),
        &n_inv,
    );
    let bu = ark_sub(beta, &ch.u2);
    let z_y = y_domain.evaluate_vanishing_polynomial(beta);
    let h2 = ark_add(&gh2[1], &ark_mul(&ark_pow(beta, l as u64), &gh2[2]));
    ark_add(&ark_add(&ark_mul(beta, &gh2[0]), &ark_mul(&bu, &t2)), &ark_mul(&ark_mul(&bu, &z_y), &h2))
}

impl DeSNARKLinear {
    /// The verifier's evaluation check: recomputes the public polynomials
    /// and the selector at `(alpha, beta)` and compares `check_left` with
    /// `check_right` on the claimed evaluations. The pairing checks of the
    /// openings are the commitment scheme's.
    pub fn evaluation_check(
        x_domain: &Domain,
        y_domain: &Domain,
        pub_polys: &R1CSDePublicPolys,
        r: &Scalar,
        ch: &Challenges,
        evals_wit_polys: &Vec<Scalar>,
        evals_g1_h1: &Vec<Scalar>,
        evals_g2_h2: &Vec<Scalar>,
    ) -> (ok: bool)
        requires
            x_domain.wf(),
            y_domain.wf(),
            pub_polys.wf(),
            r.wf(),
            ch.wf(),
            evals_wit_polys.len() >= 7 && all_wf(evals_wit_polys@),
            evals_g1_h1.len() >= 2 && all_wf(evals_g1_h1@),
            evals_g2_h2.len() >= 3 && all_wf(evals_g2_h2@),
        ensures
            ok == (check_left(*x_domain, *y_domain, *pub_polys, r.val(), *ch, vals_of(evals_wit_polys@))
                == check_right(*x_domain, *y_domain, *ch, vals_of(evals_g1_h1@), vals_of(evals_g2_h2@))),
    {
        let left_hand = left_side(x_domain, y_domain, pub_polys, r, ch, evals_wit_polys);
        let right_hand = right_side(x_domain, y_domain, ch, evals_g1_h1, evals_g2_h2);
        left_hand.equals(&right_hand)
    }
}

/// The coefficients of `h_2` as they are split: padded with zeros to
/// `l + 1` when there are fewer than `l`.
pub open spec fn h2_padded(c: Seq<Scalar>, l: nat) -> Seq<Scalar> {
    if c.len() < l {
        pad_scalars(c, l + 1)
    } else {
        c
    }
}

/// Zeros past the end do not change the value of a polynomial.
proof fn lemma_pad_value(c: Seq<Scalar>, n: nat, x: nat)
    requires
        c.len() <= n,
    ensures
        poly_eval(vals_of(pad_scalars(c, n)), x) == poly_eval(vals_of(c), x),
    decreases n - c.len(),
{
    if c.len() < n {
        let c1 = c.push(scalar_zero());
        assert(pad_scalars(c1, n) =~= pad_scalars(c, n));
        lemma_pad_value(c1, n, x);
        assert(scalar_zero().val() == 0);
        assert(vals_of(c1) =~= vals_of(c).push(0));
        crate::poly::lemma_poly_eval_push_zero(vals_of(c), x);
    } else {
        assert(pad_scalars(c, n) =~= c);
    }
}

/// The message a sub-prover sends the master: its evaluations at `alpha`
/// (`Pa`, `Pb`, `Pc`, `w`, `a` at `r alpha`), `a(r)`, `b(alpha)`,
/// `b(1/r)`, `b(0)`, `c(r)`, `R(r^m) = r^(m id)`, `g_1(alpha)`, `h_1(alpha)`.
pub open spec fn message_values(ea: Seq<nat>, er: Seq<nat>, eval_r: nat, g1: nat, h1: nat) -> Seq<nat> {
    seq![ea[0], ea[1], ea[2], ea[3], ea[4], er[0], ea[5], er[2], er[1], er[3], eval_r, g1, h1]
}

impl DeSNARKLinear {
    /// `r^(m id)`, the sub-prover's selector at `r^m`, and `r^m`.
    pub fn challenge_powers(r: &Scalar, m: usize, sub_prover_id: usize) -> (res: (Scalar, Scalar))
        requires
            r.wf(),
            m * sub_prover_id <= usize::MAX,
        ensures
            res.0.wf() && res.1.wf(),
            res.0.val() == fpow(r.val(), m as nat * sub_prover_id as nat),
            res.1.val() == fpow(r.val(), m as nat),
    {
        let e = m * sub_prover_id;
        (ark_pow(r, e as u64), ark_pow(r, m as u64))
    }

    /// The sub-prover's thirteen evaluations for the master, in the order
    /// of `message_values`.
    pub fn sub_prover_message(
        evals_alpha: &Vec<Scalar>,
        evals_r: &Vec<Scalar>,
        eval_r: &Scalar,
        eval_g1: &Scalar,
        eval_h1: &Scalar,
    ) -> (msg: Vec<Scalar>)
        requires
            evals_alpha.len() >= 6 && all_wf(evals_alpha@),
            evals_r.len() >= 4 && all_wf(evals_r@),
            eval_r.wf() && eval_g1.wf() && eval_h1.wf(),
        ensures
            msg.len() == 13,
            all_wf(msg@),
            vals_of(msg@) == message_values(
                vals_of(evals_alpha@),
                vals_of(evals_r@),
                eval_r.val(),
                eval_g1.val(),
                eval_h1.val(),
            ),
    {
        let msg = vec![
            evals_alpha[0],
            evals_alpha[1],
            evals_alpha[2],
            evals_alpha[3],
            evals_alpha[4],
            evals_r[0],
            evals_alpha[5],
            evals_r[2],
            evals_r[1],
            evals_r[3],
            *eval_r,
            *eval_g1,
            *eval_h1,
        ];
        assert(vals_of(msg@) =~= message_values(
            vals_of(evals_alpha@),
            vals_of(evals_r@),
            eval_r.val(),
            eval_g1.val(),
            eval_h1.val(),
        ));
        msg
    }

    /// Splits `h_2` at degree `l` into its low and high parts (after
    /// padding its coefficients to `l + 1` when it has fewer than `l`), so
    /// that `h_2(x) = low(x) + x^l high(x)`. Exactly `l` coefficients is
    /// refused.
    pub fn split_h2(poly_h2: DensePolynomial, l: usize) -> (res: (DensePolynomial, DensePolynomial))
        requires
            poly_h2.wf(),
            poly_h2.coeffs.len() != l,
            l < usize::MAX,
        ensures
            res.0.wf() && res.1.wf(),
            res.0.coeffs@ == trim_zeros(h2_padded(poly_h2.coeffs@, l as nat).take(l as int)),
            res.1.coeffs@ == trim_zeros(h2_padded(poly_h2.coeffs@, l as nat).skip(l as int)),
            forall|x: nat| #[trigger] poly_h2.at(x) == fadd(res.0.at(x), fmul(fpow(x, l as nat), res.1.at(x))),
    {
        let ghost c0 = poly_h2.coeffs@;
        let mut coeffs_h2 = poly_h2.coeffs;
        if coeffs_h2.len() < l {
            pad_scalar_vec(&mut coeffs_h2, l + 1);
        }
        let ghost c = coeffs_h2@;
        assert(c == h2_padded(c0, l as nat));
        let coeffs_h2_high = coeffs_h2.split_off(l);
        assert(coeffs_h2@ =~= c.take(l as int));
        assert(coeffs_h2_high@ =~= c.skip(l as int));
        assert(all_wf(c)) by {
            if c0.len() < l {
                assert forall|i: int| 0 <= i < c.len() implies (#[trigger] c[i]).wf() by {
                    if i >= c0.len() {
                        assert(c[i] == scalar_zero());
                    }
                }
            }
        }
        let low = DensePolynomial::from_coefficients_vec(coeffs_h2);
        let high = DensePolynomial::from_coefficients_vec(coeffs_h2_high);
        proof {
            assert forall|x: nat| #[trigger] poly_h2.at(x) == fadd(low.at(x), fmul(fpow(x, l as nat), high.at(x))) by {
                crate::poly::lemma_poly_eval_split(vals_of(c), l as nat, x);
                assert(vals_of(c).take(l as int) =~= vals_of(c.take(l as int)));
                assert(vals_of(c).skip(l as int) =~= vals_of(c.skip(l as int)));
                if c0.len() < l {
                    lemma_pad_value(c0, (l + 1) as nat, x);
                }
            }
        }
        (low, high)
    }

    /// The master's evaluations at `beta`: of the polynomials over `Y`
    /// numbered 3 to 9 (`w`, `a_r(alpha)`, `a(r)`, `b(alpha)`, `b(1/r)`,
    /// `b(0)`, `c(r)` in `Y`), and of `g_2` and `h_2`'s two halves.
    pub fn master_evals_at_beta(
        polys_y: &Vec<DensePolynomial>,
        polys_g2_h2: &Vec<DensePolynomial>,
        beta: &Scalar,
    ) -> (res: (Vec<Scalar>, Vec<Scalar>))
        requires
            polys_y.len() >= 10,
            polys_g2_h2.len() >= 3,
            forall|i: int| 0 <= i < polys_y.len() ==> (#[trigger] polys_y@[i]).wf(),
            forall|i: int| 0 <= i < polys_g2_h2.len() ==> (#[trigger] polys_g2_h2@[i]).wf(),
            beta.wf(),
        ensures
            all_wf(res.0@) && all_wf(res.1@),
            vals_of(res.0@) == poly_values(polys_y@.subrange(3, 10), beta.val()),
            vals_of(res.1@) == poly_values(polys_g2_h2@.subrange(0, 3), beta.val()),
    {
        let mut ev: Vec<Scalar> = Vec::new();
        let mut i: usize = 3;
        while i < 10
            invariant
                3 <= i <= 10,
                polys_y.len() >= 10,
                forall|k: int| 0 <= k < polys_y.len() ==> (#[trigger] polys_y@[k]).wf(),
                beta.wf(),
                ev.len() == i - 3,
                all_wf(ev@),
                forall|k: int| 0 <= k < i - 3 ==> #[trigger] ev@[k].val() == polys_y@[k + 3].at(beta.val()),
            decreases 10 - i,
        {
            ev.push(polys_y[i].evaluate(beta));
            i += 1;
        }
        let e2 = vec![polys_g2_h2[0].evaluate(beta), polys_g2_h2[1].evaluate(beta), polys_g2_h2[2].evaluate(beta)];
        assert(vals_of(ev@) =~= poly_values(polys_y@.subrange(3, 10), beta.val()));
        assert(vals_of(e2@) =~= poly_values(polys_g2_h2@.subrange(0, 3), beta.val()));
        (ev, e2)
    }
}

/// The size in bytes of a proof: its field elements and group elements,
/// with the opening proof of the witness polynomials counted as four group
/// elements and one more field element than its vector holds.
pub open spec fn proof_size<G>(proof: SNARKProofLinear<G>) -> nat {
    let f = vstd::layout::size_of::<Scalar>();
    let g = vstd::layout::size_of::<G>();
    let wit = (proof.proofs_wit_polys.1.len() + 1) * f + 4 * g;
    let groups = g * (proof.coms_wit_polys.len() + proof.coms_g1_h1.len() + proof.coms_g2_h2.len() + 2);
    let fields = f * (proof.evals_wit_polys.len() + proof.evals_g1_h1.len() + proof.evals_g2_h2.len());
    (fields + groups + wit) as nat
}

impl DeSNARKLinear {
    /// The size in bytes of a proof, `proof_size`.
    pub fn get_proof_size<G>(proof: &SNARKProofLinear<G>) -> (n: usize)
        requires
            proof.proofs_wit_polys.1.len() + 1 <= usize::MAX,
            proof.coms_wit_polys.len() + proof.coms_g1_h1.len() + proof.coms_g2_h2.len() + 2 <= usize::MAX,
            proof.evals_wit_polys.len() + proof.evals_g1_h1.len() + proof.evals_g2_h2.len() <= usize::MAX,
            proof_size(*proof) <= usize::MAX,
        ensures
            n == proof_size(*proof),
    {
        let field_size = core::mem::size_of::<Scalar>();
        let group_size = core::mem::size_of::<G>();
        let ghost f = field_size as nat;
        let ghost g = group_size as nat;
        let ghost a = proof.proofs_wit_polys.1.len() + 1;
        let ghost b = proof.coms_wit_polys.len() + proof.coms_g1_h1.len() + proof.coms_g2_h2.len() + 2;
        let ghost c = proof.evals_wit_polys.len() + proof.evals_g1_h1.len() + proof.evals_g2_h2.len();
        assert(a * f + 4 * g + g * b + f * c <= usize::MAX);
        assert(a * f <= usize::MAX && g * b <= usize::MAX && f * c <= usize::MAX && 4 * g <= usize::MAX) by (nonlinear_arith)
            requires
                a * f + 4 * g + g * b + f * c <= usize::MAX,
                a >= 0 && f >= 0 && g >= 0 && b >= 0 && c >= 0,
        ;
        let proof_len_wit_polys = (proof.proofs_wit_polys.1.len() + 1) * field_size + 4 * group_size;
        let proof_len_groups = group_size * (proof.coms_wit_polys.len() + proof.coms_g1_h1.len()
            + proof.coms_g2_h2.len() + 2);
        let proof_len_fields = field_size * (proof.evals_wit_polys.len() + proof.evals_g1_h1.len()
            + proof.evals_g2_h2.len());
        proof_len_fields + proof_len_groups + proof_len_wit_polys
    }
}

/// The sub-prover's selector over `X`, `R(X) = X^id` (`upper_r_poly`), takes
/// at `r^m` the value `r^(m id)` that the prover uses for it
/// (`challenge_powers`).
pub proof fn law_selector_at_r_pow_m(r: nat, m: nat, id: nat)
    ensures
        fpow(fpow(r, m), id) == fpow(r, m * id),
{
    crate::field::lemma_fpow_pow(r, m, id);
}

/// `sum_{i < 4} v^i f_i` written out.
proof fn lemma_power_combination4(f: Seq<nat>, v: nat)
    requires
        f.len() >= 4,
        f[0] < crate::field::modulus(),
        v < crate::field::modulus(),
    ensures
        power_combination(f, v, 4) == fadd(
            fadd(fadd(f[0], fmul(v, f[1])), fmul(fmul(v, v), f[2])),
            fmul(fmul(fmul(v, v), v), f[3]),
        ),
{
    reveal_with_fuel(power_combination, 5);
    reveal_with_fuel(fpow, 4);
    crate::field::lemma_fmul_one_left(v);
    crate::field::lemma_fmul_one_left(f[0]);
    crate::field::lemma_fadd_zero(f[0]);
}

/// The values of the verifier's four constraints are canonical.
proof fn lemma_constraints_canonical(pa: nat, pb: nat, pc: nat, rb: nat, q: nat, e: Seq<nat>)
    ensures
        verifier_constraints(pa, pb, pc, rb, q, e)[0] < crate::field::modulus(),
{
    crate::field::lemma_field_ops_canonical(fmul(pa, e[0]), fmul(rb, e[2]));
}

/// The prover's four constraint values from the values `p` of the eleven
/// polynomials over `Y` at a point are the verifier's four constraints on
/// the same values: `Pa`, `Pb`, `Pc` at `p[0..3]`, the selector `R` at
/// `p[10]`, and the witness evaluations `w`, `a(r alpha)`, `a(r)`,
/// `b(alpha)`, `b(1/r)`, `b(0)`, `c(r)` at `p[3..10]`, so in particular the
/// same virtual `b(1/r) r^m + b(0) (1 - r^m)`.
pub proof fn law_second_round_values_are_verifier_constraints(p: Seq<nat>, r_pow_m: nat)
    requires
        p.len() >= 11,
    ensures
        second_round_values(p, r_pow_m) == verifier_constraints(
            p[0],
            p[1],
            p[2],
            p[10],
            r_pow_m,
            seq![p[3], p[4], p[5], p[6], p[7], p[8], p[9]],
        ),
{
    assert(second_round_values(p, r_pow_m) =~= verifier_constraints(
        p[0],
        p[1],
        p[2],
        p[10],
        r_pow_m,
        seq![p[3], p[4], p[5], p[6], p[7], p[8], p[9]],
    ));
}

/// The second-round target at each point `y` of its domain is
/// `(alpha - u_1) sum_{i < 4} v^i f_i`, with `f` the verifier's four
/// constraints (the ones `check_left` weighs) on the values at `y` of the
/// eleven polynomials over `Y`: `Pa w - R a_r`, `Pb w - R b_v` with the
/// virtual `b_v = b(1/r) r^m + b(0) (1 - r^m)`, `Pc w - R c_r`, and
/// `(a_r(alpha) b(alpha) - c_r) R`.
pub proof fn law_second_target_meets_verifier_constraints<G>(
    message: Seq<(Vec<Scalar>, G)>,
    yd: Domain,
    d2: Domain,
    r_pow_m: nat,
    alpha: nat,
    u1: nat,
    v: nat,
    i: nat,
)
    requires
        i < d2.size,
        v < crate::field::modulus(),
    ensures
        ({
            let x = d2.element(i);
            second_target_on_domain(message, yd, d2, r_pow_m, alpha, u1, v, i) == fmul(
                fsub(alpha, u1),
                power_combination(
                    verifier_constraints(
                        y_poly_at(message, yd, 0, x),
                        y_poly_at(message, yd, 1, x),
                        y_poly_at(message, yd, 2, x),
                        y_poly_at(message, yd, 10, x),
                        r_pow_m,
                        seq![
                            y_poly_at(message, yd, 3, x),
                            y_poly_at(message, yd, 4, x),
                            y_poly_at(message, yd, 5, x),
                            y_poly_at(message, yd, 6, x),
                            y_poly_at(message, yd, 7, x),
                            y_poly_at(message, yd, 8, x),
                            y_poly_at(message, yd, 9, x),
                        ],
                    ),
                    v,
                    4,
                ),
            )
        }),
{
    let x = d2.element(i);
    let p = y_values_at(message, yd, x);
    law_second_round_values_are_verifier_constraints(p, r_pow_m);
    let f = second_round_values(p, r_pow_m);
    let fv = verifier_constraints(
        y_poly_at(message, yd, 0, x),
        y_poly_at(message, yd, 1, x),
        y_poly_at(message, yd, 2, x),
        y_poly_at(message, yd, 10, x),
        r_pow_m,
        seq![
            y_poly_at(message, yd, 3, x),
            y_poly_at(message, yd, 4, x),
            y_poly_at(message, yd, 5, x),
            y_poly_at(message, yd, 6, x),
            y_poly_at(message, yd, 7, x),
            y_poly_at(message, yd, 8, x),
            y_poly_at(message, yd, 9, x),
        ],
    );
    assert(f == fv);
    assert(second_round_column(message, yd, d2, r_pow_m, 0)[i as int] == f[0]);
    assert(second_round_column(message, yd, d2, r_pow_m, 1)[i as int] == f[1]);
    assert(second_round_column(message, yd, d2, r_pow_m, 2)[i as int] == f[2]);
    lemma_constraints_canonical(p[0], p[1], p[2], p[10], r_pow_m, seq![p[3], p[4], p[5], p[6], p[7], p[8], p[9]]);
    lemma_power_combination4(f, v);
    let c = fsub(alpha, u1);
    let vv = fmul(v, v);
    let vvv = fmul(vv, v);
    let s1 = fadd(f[0], fmul(v, f[1]));
    let s2 = fadd(s1, fmul(vv, f[2]));
    crate::field::lemma_fmul_distrib(c, s2, fmul(vvv, f[3]));
    crate::field::lemma_fmul_distrib(c, s1, fmul(vv, f[2]));
    crate::field::lemma_fmul_distrib(c, f[0], fmul(v, f[1]));
    crate::field::lemma_fmul_comm(c, f[0]);
    crate::field::lemma_fmul_assoc(c, v, f[1]);
    crate::field::lemma_fmul_assoc(c, vv, f[2]);
    crate::field::lemma_fmul_assoc(c, v, v);
    crate::field::lemma_fmul_assoc(c, vvv, f[3]);
    crate::field::lemma_fmul_assoc(c, vv, v);
    crate::field::lemma_fmul_assoc(fmul(c, v), v, v);
}

/// The first-round target at each point `x` of its domain is
/// `sum_{i < 4} v^i f_i`, with `f` the verifier's four constraints on the
/// values at `x` of `Pa`, `Pb`, `Pc`, `w`, the selector value `eval_r`, and
/// the witness evaluations `a(r x)`, `a(r)`, `b(x)`, `b(1/r)`, `b(0)`,
/// `c(r)`: `Pa w - eval_r a(r)`, `Pb w - eval_r b_v` with the virtual
/// `b_v = b(1/r) r^m + b(0) (1 - r^m)`, `Pc w - eval_r c(r)` and the product
/// constraint `(a(r x) b(x) - c(r)) eval_r`. Here `a` is taken by its first
/// `m` coefficients, which is `a` itself when it has no more.
pub proof fn law_first_target_meets_verifier_constraints(
    wit: R1CSWitnessPolys,
    pubp: R1CSPublicPolys,
    r: nat,
    m: nat,
    eval_r: nat,
    r_pow_m: nat,
    v: nat,
    d: Domain,
    i: nat,
)
    requires
        i < d.size,
        v < crate::field::modulus(),
    ensures
        ({
            let x = d.element(i);
            let a = vals_of(wit.poly_a.coeffs@);
            let a_low = a.subrange(0, min(a.len(), m) as int);
            first_target_values(
                wit,
                pubp,
                r,
                m,
                seq![wit.poly_a.at(r), wit.poly_b.at(0), wit.poly_b.at(finv(r)), wit.poly_c.at(r)],
                eval_r,
                r_pow_m,
                v,
                d,
            )[i as int] == power_combination(
                verifier_constraints(
                    pubp.poly_pa.at(x),
                    pubp.poly_pb.at(x),
                    pubp.poly_pc.at(x),
                    eval_r,
                    r_pow_m,
                    seq![
                        wit.poly_w.at(x),
                        poly_eval(a_low, fmul(r, x)),
                        wit.poly_a.at(r),
                        wit.poly_b.at(x),
                        wit.poly_b.at(finv(r)),
                        wit.poly_b.at(0),
                        wit.poly_c.at(r),
                    ],
                ),
                v,
                4,
            )
        }),
        ({
            let a = vals_of(wit.poly_a.coeffs@);
            a.len() <= m ==> forall|y: nat| #[trigger] poly_eval(a.subrange(0, min(a.len(), m) as int), y) == wit.poly_a.at(y)
        }),
{
    let x = d.element(i);
    let a = vals_of(wit.poly_a.coeffs@);
    let a_low = a.subrange(0, min(a.len(), m) as int);
    assert(scaled_coeffs(a, r, m) =~= scaled_coeffs(a_low, r, m));
    law_scaled_coeffs_eval(a_low, r, m, x);
    if a.len() <= m {
        assert(a_low =~= a);
    }
    let er = seq![wit.poly_a.at(r), wit.poly_b.at(0), wit.poly_b.at(finv(r)), wit.poly_c.at(r)];
    let vals = first_round_values(wit, pubp, r, m, x);
    let e = seq![
        wit.poly_w.at(x),
        poly_eval(a_low, fmul(r, x)),
        wit.poly_a.at(r),
        wit.poly_b.at(x),
        wit.poly_b.at(finv(r)),
        wit.poly_b.at(0),
        wit.poly_c.at(r),
    ];
    let f = verifier_constraints(pubp.poly_pa.at(x), pubp.poly_pb.at(x), pubp.poly_pc.at(x), eval_r, r_pow_m, e);
    lemma_constraints_canonical(pubp.poly_pa.at(x), pubp.poly_pb.at(x), pubp.poly_pc.at(x), eval_r, r_pow_m, e);
    lemma_power_combination4(f, v);
    let vv = fmul(v, v);
    let dd = fsub(fmul(vals[4], vals[5]), er[3]);
    assert(vals[4] == poly_eval(a_low, fmul(r, x)));
    crate::field::lemma_fmul_comm(fsub(fmul(vals[1], vals[3]), fmul(eval_r, fadd(fmul(er[2], r_pow_m), fmul(er[1], fsub(1, r_pow_m))))), v);
    crate::field::lemma_fmul_comm(fsub(fmul(vals[2], vals[3]), fmul(eval_r, er[3])), vv);
    crate::field::lemma_fmul_assoc(dd, vv, v);
    crate::field::lemma_fmul_comm(dd, fmul(vv, v));
    crate::field::lemma_fmul_assoc(fmul(vv, v), dd, eval_r);
    assert(first_target_values(wit, pubp, r, m, er, eval_r, r_pow_m, v, d)[i as int] == first_target_value(
        vals,
        er,
        eval_r,
        r_pow_m,
        v,
    ));
}

} // verus!
