//! The distributed prover without preprocessing: evaluations at the
//! challenges, the first-round target polynomial of every sub-prover, and the
//! master's second-round target polynomial over `Y`.
use vstd::prelude::*;
use crate::field::{
    Scalar, all_wf, ark_add, ark_inverse, ark_mul, ark_square, ark_sub, fadd, finv, fmul, fpow, fsub,
    lemma_finv, lemma_fmul_assoc, vals_of,
};
use crate::gadgets::min;
use crate::poly::{
    DensePolynomial, Domain, ark_evaluate_over_domain, ark_interpolate, ark_poly_add,
    ark_poly_add_scaled, ark_poly_mul, ark_poly_scale, ark_poly_sub, interp_at, lemma_fpow_mul,
    lemma_horner_is_power_sum, poly_eval, power_sum,
};
use crate::snark::{
    law_first_target_meets_verifier_constraints, law_second_target_meets_verifier_constraints,
    power_combination, verifier_constraints,
};

verus! {

/// The polynomials of one sub-prover's witness: `w`, `a`, `b`, `c` over `X`.
#[derive(Clone, Debug)]
pub struct R1CSWitnessPolys {
    pub poly_w: DensePolynomial,
    pub poly_a: DensePolynomial,
    pub poly_b: DensePolynomial,
    pub poly_c: DensePolynomial,
}

/// The polynomials of one sub-prover's public vectors: `r^T Pa`, `r^T Pb`,
/// `r^T Pc` over `X`.
#[derive(Clone, Debug)]
pub struct R1CSPublicPolys {
    pub poly_pa: DensePolynomial,
    pub poly_pb: DensePolynomial,
    pub poly_pc: DensePolynomial,
}

/// The public polynomials of all sub-provers.
#[derive(Clone, Debug)]
pub struct R1CSDePublicPolys {
    pub polys_pa: Vec<DensePolynomial>,
    pub polys_pb: Vec<DensePolynomial>,
    pub polys_pc: Vec<DensePolynomial>,
}

impl R1CSWitnessPolys {
    pub open spec fn wf(self) -> bool {
        self.poly_w.wf() && self.poly_a.wf() && self.poly_b.wf() && self.poly_c.wf()
    }
}

impl R1CSPublicPolys {
    pub open spec fn wf(self) -> bool {
        self.poly_pa.wf() && self.poly_pb.wf() && self.poly_pc.wf()
    }
}

impl R1CSDePublicPolys {
    pub open spec fn wf(self) -> bool {
        &&& forall|i: int| 0 <= i < self.polys_pa.len() ==> (#[trigger] self.polys_pa@[i]).wf()
        &&& forall|i: int| 0 <= i < self.polys_pb.len() ==> (#[trigger] self.polys_pb@[i]).wf()
        &&& forall|i: int| 0 <= i < self.polys_pc.len() ==> (#[trigger] self.polys_pc@[i]).wf()
    }
}

/// The prover without preprocessing.
pub struct NoPreProver {}

/// `1, r, ..., r^(m - 1)`.
pub fn generate_powers(r: &Scalar, m: usize) -> (p: Vec<Scalar>)
    requires
        r.wf(),
    ensures
        p.len() == m,
        all_wf(p@),
        forall|i: int| 0 <= i < m ==> #[trigger] p@[i].val() == fpow(r.val(), i as nat),
{
    let mut p: Vec<Scalar> = Vec::new();
    let mut cur = Scalar::one();
    let mut i: usize = 0;
    while i < m
        invariant
            i <= m,
            r.wf(),
            p.len() == i,
            all_wf(p@),
            cur.wf(),
            cur.val() == fpow(r.val(), i as nat),
            forall|k: int| 0 <= k < i ==> #[trigger] p@[k].val() == fpow(r.val(), k as nat),
        decreases m - i,
    {
        p.push(cur);
        cur = ark_mul(&cur, r);
        i += 1;
    }
    p
}

/// Term by term, the scaled coefficients at `x` are the coefficients at
/// `r x`.
proof fn lemma_scaled_power_sum(c: Seq<nat>, r: nat, m: nat, x: nat, n: nat)
    requires
        n <= min(c.len(), m),
    ensures
        power_sum(scaled_coeffs(c, r, m), x, n) == power_sum(c, fmul(r, x), n),
    decreases n,
{
    if n > 0 {
        let i = (n - 1) as nat;
        lemma_scaled_power_sum(c, r, m, x, i);
        lemma_fpow_mul(r, x, i);
        lemma_fmul_assoc(c[i as int], fpow(r, i), fpow(x, i));
    }
}

/// Scaling the `i`-th coefficient by `r^i` evaluates the polynomial at
/// `r x`: the coefficients `scaled_coeffs(c, r, m)` are those of `f(rX)`
/// when `f` has at most `m` coefficients.
pub proof fn law_scaled_coeffs_eval(c: Seq<nat>, r: nat, m: nat, x: nat)
    requires
        c.len() <= m,
    ensures
        poly_eval(scaled_coeffs(c, r, m), x) == poly_eval(c, fmul(r, x)),
{
    lemma_horner_is_power_sum(scaled_coeffs(c, r, m), x);
    lemma_horner_is_power_sum(c, fmul(r, x));
    lemma_scaled_power_sum(c, r, m, x, c.len());
}

/// The coefficients `c_i r^i` for `i < min(len, m)`: those of `f(rX)` when
/// `f` has at most `m` coefficients.
pub open spec fn scaled_coeffs(c: Seq<nat>, r: nat, m: nat) -> Seq<nat> {
    Seq::new(min(c.len(), m), |i: int| fmul(c[i], fpow(r, i as nat)))
}

/// The value at one point of the first-round target: `f` holds the values
/// there of `Pa`, `Pb`, `Pc`, `w`, `a(rX)`, `b`; `er` the evaluations
/// `a(r)`, `b(0)`, `b(1/r)`, `c(r)`.
pub open spec fn first_target_value(
    f: Seq<nat>,
    er: Seq<nat>,
    eval_r: nat,
    r_pow_m: nat,
    v: nat,
) -> nat {
    let bv = fadd(fmul(er[2], r_pow_m), fmul(er[1], fsub(1, r_pow_m)));
    let e1 = fsub(fmul(f[0], f[3]), fmul(eval_r, er[0]));
    let e2 = fmul(fsub(fmul(f[1], f[3]), fmul(eval_r, bv)), v);
    let e3 = fmul(fsub(fmul(f[2], f[3]), fmul(eval_r, er[3])), fmul(v, v));
    let e4 = fmul(fmul(fmul(fsub(fmul(f[4], f[5]), er[3]), fmul(v, v)), v), eval_r);
    fadd(fadd(fadd(e1, e2), e3), e4)
}

/// The values of the six first-round polynomials at `x`.
pub open spec fn first_round_values(
    wit: R1CSWitnessPolys,
    pubp: R1CSPublicPolys,
    r: nat,
    m: nat,
    x: nat,
) -> Seq<nat> {
    seq![
        pubp.poly_pa.at(x),
        pubp.poly_pb.at(x),
        pubp.poly_pc.at(x),
        wit.poly_w.at(x),
        crate::poly::poly_eval(scaled_coeffs(vals_of(wit.poly_a.coeffs@), r, m), x),
        wit.poly_b.at(x),
    ]
}

/// The first-round target values on the domain `d`.
pub open spec fn first_target_values(
    wit: R1CSWitnessPolys,
    pubp: R1CSPublicPolys,
    r: nat,
    m: nat,
    er: Seq<nat>,
    eval_r: nat,
    r_pow_m: nat,
    v: nat,
    d: Domain,
) -> Seq<nat> {
    Seq::new(
        d.size as nat,
        |i: int|
            first_target_value(
                first_round_values(wit, pubp, r, m, d.element(i as nat)),
                er,
                eval_r,
                r_pow_m,
                v,
            ),
    )
}

/// Evaluates each polynomial over the domain.
fn evaluate_all_over_domain(polys: &Vec<&DensePolynomial>, d: &Domain) -> (r: Vec<Vec<Scalar>>)
    requires
        d.wf(),
        forall|k: int| 0 <= k < polys.len() ==> (#[trigger] polys@[k]).wf(),
    ensures
        r.len() == polys.len(),
        forall|k: int|
            0 <= k < r.len() ==> all_wf((#[trigger] r@[k])@) && r@[k].len() == d.size && forall|i: int|
                0 <= i < d.size ==> #[trigger] r@[k]@[i].val() == polys@[k].at(d.element(i as nat)),
{
    let mut r: Vec<Vec<Scalar>> = Vec::new();
    let mut k: usize = 0;
    while k < polys.len()
        invariant
            k <= polys.len(),
            d.wf(),
            forall|k2: int| 0 <= k2 < polys.len() ==> (#[trigger] polys@[k2]).wf(),
            r.len() == k,
            forall|k2: int|
                0 <= k2 < k ==> all_wf((#[trigger] r@[k2])@) && r@[k2].len() == d.size && forall|i: int|
                    0 <= i < d.size ==> #[trigger] r@[k2]@[i].val() == polys@[k2].at(d.element(i as nat)),
        decreases polys.len() - k,
    {
        r.push(ark_evaluate_over_domain(polys[k], d));
        k += 1;
    }
    r
}

impl NoPreProver {
    /// The evaluations of `Pa`, `Pb`, `Pc`, `w` at `alpha`, of `a` at
    /// `r alpha`, and of `b` at `alpha`.
    pub fn compute_evals_alpha(
        wit_polys: &R1CSWitnessPolys,
        pub_polys: &R1CSPublicPolys,
        r: &Scalar,
        alpha: &Scalar,
    ) -> (e: Vec<Scalar>)
        requires
            wit_polys.wf(),
            pub_polys.wf(),
            r.wf(),
            alpha.wf(),
        ensures
            all_wf(e@),
            vals_of(e@) == seq![
                pub_polys.poly_pa.at(alpha.val()),
                pub_polys.poly_pb.at(alpha.val()),
                pub_polys.poly_pc.at(alpha.val()),
                wit_polys.poly_w.at(alpha.val()),
                wit_polys.poly_a.at(fmul(r.val(), alpha.val())),
                wit_polys.poly_b.at(alpha.val()),
            ],
    {
        let r_alpha = ark_mul(r, alpha);
        let e0 = pub_polys.poly_pa.evaluate(alpha);
        let e1 = pub_polys.poly_pb.evaluate(alpha);
        let e2 = pub_polys.poly_pc.evaluate(alpha);
        let e3 = wit_polys.poly_w.evaluate(alpha);
        let e4 = wit_polys.poly_a.evaluate(&r_alpha);
        let e5 = wit_polys.poly_b.evaluate(alpha);
        let e = vec![e0, e1, e2, e3, e4, e5];
        assert(vals_of(e@) =~= seq![e0.val(), e1.val(), e2.val(), e3.val(), e4.val(), e5.val()]);
        e
    }

    /// The evaluations `a(r)`, `b(0)`, `b(1/r)`, `c(r)`, and the first-round
    /// target polynomial: the interpolant, on the domain of `2m` points, of
    /// `first_target_value` at each of its elements.
    pub fn compute_evals_r_and_1st_target_poly(
        m: usize,
        wit_polys: &R1CSWitnessPolys,
        pub_polys: &R1CSPublicPolys,
        r: &Scalar,
        eval_r: &Scalar,
        r_pow_m: &Scalar,
        v: &Scalar,
    ) -> (res: (Vec<Scalar>, DensePolynomial))
        requires
            wit_polys.wf(),
            pub_polys.wf(),
            r.wf() && eval_r.wf() && r_pow_m.wf() && v.wf(),
            r.val() != 0,
            2 * m <= crate::poly::max_domain_size(),
        ensures
            all_wf(res.0@),
            vals_of(res.0@) == seq![
                wit_polys.poly_a.at(r.val()),
                wit_polys.poly_b.at(0),
                wit_polys.poly_b.at(finv(r.val())),
                wit_polys.poly_c.at(r.val()),
            ],
            res.1.wf(),
            ({
                let d = Domain { size: crate::arith::next_pow2(2 * m as nat) as usize };
                let t = first_target_values(
                    *wit_polys,
                    *pub_polys,
                    r.val(),
                    m as nat,
                    vals_of(res.0@),
                    eval_r.val(),
                    r_pow_m.val(),
                    v.val(),
                    d,
                );
                &&& forall|i: nat| i < d.size ==> #[trigger] res.1.at(d.element(i)) == t[i as int]
                &&& forall|x: nat| #[trigger] res.1.at(x) == interp_at(t, d, x, d.size as nat)
            }),
            ({
                let d = Domain { size: crate::arith::next_pow2(2 * m as nat) as usize };
                let a = vals_of(wit_polys.poly_a.coeffs@);
                let a_low = a.subrange(0, min(a.len(), m as nat) as int);
                forall|i: nat|
                    i < d.size ==> #[trigger] res.1.at(d.element(i)) == power_combination(
                        verifier_constraints(
                            pub_polys.poly_pa.at(d.element(i)),
                            pub_polys.poly_pb.at(d.element(i)),
                            pub_polys.poly_pc.at(d.element(i)),
                            eval_r.val(),
                            r_pow_m.val(),
                            seq![
                                wit_polys.poly_w.at(d.element(i)),
                                poly_eval(a_low, fmul(r.val(), d.element(i))),
                                wit_polys.poly_a.at(r.val()),
                                wit_polys.poly_b.at(d.element(i)),
                                wit_polys.poly_b.at(finv(r.val())),
                                wit_polys.poly_b.at(0),
                                wit_polys.poly_c.at(r.val()),
                            ],
                        ),
                        v.val(),
                        4,
                    )
            }),
            wit_polys.poly_a.coeffs.len() <= m ==> forall|y: nat|
                #[trigger] poly_eval(
                    vals_of(wit_polys.poly_a.coeffs@).subrange(0, wit_polys.poly_a.coeffs.len() as int),
                    y,
                ) == wit_polys.poly_a.at(y),
    {
        let r_m_powers = generate_powers(r, m);
        let a_coeffs = &wit_polys.poly_a.coeffs;
        let n = if a_coeffs.len() <= m {
            a_coeffs.len()
        } else {
            m
        };
        let mut coeffs_ar: Vec<Scalar> = Vec::new();
        let mut i: usize = 0;
        while i < n
            invariant
                i <= n,
                n == min(a_coeffs.len() as nat, m as nat),
                n <= a_coeffs.len() && n <= r_m_powers.len(),
                all_wf(a_coeffs@),
                all_wf(r_m_powers@),
                forall|k: int| 0 <= k < m ==> #[trigger] r_m_powers@[k].val() == fpow(r.val(), k as nat),
                coeffs_ar.len() == i,
                all_wf(coeffs_ar@),
                forall|k: int|
                    0 <= k < i ==> #[trigger] coeffs_ar@[k].val() == fmul(a_coeffs@[k].val(), fpow(r.val(), k as nat)),
            decreases n - i,
        {
            coeffs_ar.push(ark_mul(&a_coeffs[i], &r_m_powers[i]));
            i += 1;
        }
        let ghost ar = vals_of(coeffs_ar@);
        assert(ar =~= scaled_coeffs(vals_of(a_coeffs@), r.val(), m as nat));
        let poly_ar = DensePolynomial::from_coefficients_vec(coeffs_ar);
        let domain_2x = Domain::new(2 * m).unwrap();
        let r_inv = ark_inverse(r).unwrap();
        proof {
            lemma_finv(r.val(), r_inv.val());
        }
        let zero = Scalar::zero();
        let er0 = wit_polys.poly_a.evaluate(r);
        let er1 = wit_polys.poly_b.evaluate(&zero);
        let er2 = wit_polys.poly_b.evaluate(&r_inv);
        let er3 = wit_polys.poly_c.evaluate(r);
        let evals_r = vec![er0, er1, er2, er3];
        assert(vals_of(evals_r@) =~= seq![er0.val(), er1.val(), er2.val(), er3.val()]);
        let one_minus = ark_sub(&Scalar::one(), r_pow_m);
        let bv0 = ark_mul(&er2, r_pow_m);
        let bv1 = ark_mul(&er1, &one_minus);
        let eval_b_virtual = ark_add(&bv0, &bv1);
        let polys_f = vec![
            &pub_polys.poly_pa,
            &pub_polys.poly_pb,
            &pub_polys.poly_pc,
            &wit_polys.poly_w,
            &poly_ar,
            &wit_polys.poly_b,
        ];
        let evals_f = evaluate_all_over_domain(&polys_f, &domain_2x);
        let v2 = ark_square(v);
        let ghost t = first_target_values(
            *wit_polys,
            *pub_polys,
            r.val(),
            m as nat,
            vals_of(evals_r@),
            eval_r.val(),
            r_pow_m.val(),
            v.val(),
            domain_2x,
        );
        let mut evals_target: Vec<Scalar> = Vec::new();
        let mut j: usize = 0;
        while j < domain_2x.size
            invariant
                j <= domain_2x.size,
                domain_2x.wf(),
                evals_f.len() == 6,
                forall|k: int|
                    0 <= k < 6 ==> all_wf((#[trigger] evals_f@[k])@) && evals_f@[k].len() == domain_2x.size
                        && forall|i2: int|
                        0 <= i2 < domain_2x.size ==> #[trigger] evals_f@[k]@[i2].val() == polys_f@[k].at(
                            domain_2x.element(i2 as nat),
                        ),
                polys_f@ == seq![
                    &pub_polys.poly_pa,
                    &pub_polys.poly_pb,
                    &pub_polys.poly_pc,
                    &wit_polys.poly_w,
                    &poly_ar,
                    &wit_polys.poly_b,
                ],
                poly_ar.wf(),
                forall|x: nat| #[trigger] poly_ar.at(x) == crate::poly::poly_eval(
                    scaled_coeffs(vals_of(wit_polys.poly_a.coeffs@), r.val(), m as nat),
                    x,
                ),
                vals_of(evals_r@) == seq![er0.val(), er1.val(), er2.val(), er3.val()],
                er0.wf() && er1.wf() && er2.wf() && er3.wf(),
                eval_r.wf() && v.wf() && v2.wf() && eval_b_virtual.wf(),
                v2.val() == fmul(v.val(), v.val()),
                eval_b_virtual.val() == fadd(fmul(er2.val(), r_pow_m.val()), fmul(er1.val(), fsub(1, r_pow_m.val()))),
                t == first_target_values(
                    *wit_polys,
                    *pub_polys,
                    r.val(),
                    m as nat,
                    vals_of(evals_r@),
                    eval_r.val(),
                    r_pow_m.val(),
                    v.val(),
                    domain_2x,
                ),
                evals_target.len() == j,
                all_wf(evals_target@),
                forall|k: int| 0 <= k < j ==> #[trigger] evals_target@[k].val() == t[k],
            decreases domain_2x.size - j,
        {
            let f0 = &evals_f[0][j];
            let f1 = &evals_f[1][j];
            let f2 = &evals_f[2][j];
            let f3 = &evals_f[3][j];
            let f4 = &evals_f[4][j];
            let f5 = &evals_f[5][j];
            assert(all_wf(evals_f@[0]@) && all_wf(evals_f@[1]@) && all_wf(evals_f@[2]@));
            assert(all_wf(evals_f@[3]@) && all_wf(evals_f@[4]@) && all_wf(evals_f@[5]@));
            let eval1 = ark_sub(&ark_mul(f0, f3), &ark_mul(eval_r, &er0));
            let eval2 = ark_mul(&ark_sub(&ark_mul(f1, f3), &ark_mul(eval_r, &eval_b_virtual)), v);
            let eval3 = ark_mul(&ark_sub(&ark_mul(f2, f3), &ark_mul(eval_r, &er3)), &v2);
            let eval4 = ark_mul(
                &ark_mul(&ark_mul(&ark_sub(&ark_mul(f4, f5), &er3), &v2), v),
                eval_r,
            );
            let total = ark_add(&ark_add(&ark_add(&eval1, &eval2), &eval3), &eval4);
            proof {
                let x = domain_2x.element(j as nat);
                assert(f0.val() == pub_polys.poly_pa.at(x));
                assert(f1.val() == pub_polys.poly_pb.at(x));
                assert(f2.val() == pub_polys.poly_pc.at(x));
                assert(f3.val() == wit_polys.poly_w.at(x));
                assert(f4.val() == poly_ar.at(x));
                assert(f5.val() == wit_polys.poly_b.at(x));
                assert(first_round_values(*wit_polys, *pub_polys, r.val(), m as nat, x) =~= seq![
                    f0.val(),
                    f1.val(),
                    f2.val(),
                    f3.val(),
                    f4.val(),
                    f5.val(),
                ]);
            }
            evals_target.push(total);
            j += 1;
        }
        let polynomial_target = ark_interpolate(&evals_target, &domain_2x);
        proof {
            assert(vals_of(evals_target@) =~= t);
        }
        proof {
            assert forall|i: nat| i < domain_2x.size implies #[trigger] polynomial_target.at(domain_2x.element(i))
                == power_combination(
                verifier_constraints(
                    pub_polys.poly_pa.at(domain_2x.element(i)),
                    pub_polys.poly_pb.at(domain_2x.element(i)),
                    pub_polys.poly_pc.at(domain_2x.element(i)),
                    eval_r.val(),
                    r_pow_m.val(),
                    seq![
                        wit_polys.poly_w.at(domain_2x.element(i)),
                        poly_eval(
                            vals_of(wit_polys.poly_a.coeffs@).subrange(
                                0,
                                min(wit_polys.poly_a.coeffs.len() as nat, m as nat) as int,
                            ),
                            fmul(r.val(), domain_2x.element(i)),
                        ),
                        wit_polys.poly_a.at(r.val()),
                        wit_polys.poly_b.at(domain_2x.element(i)),
                        wit_polys.poly_b.at(finv(r.val())),
                        wit_polys.poly_b.at(0),
                        wit_polys.poly_c.at(r.val()),
                    ],
                ),
                v.val(),
                4,
            ) by {
                law_first_target_meets_verifier_constraints(
                    *wit_polys,
                    *pub_polys,
                    r.val(),
                    m as nat,
                    eval_r.val(),
                    r_pow_m.val(),
                    v.val(),
                    domain_2x,
                    i,
                );
            }
            law_first_target_meets_verifier_constraints(
                *wit_polys,
                *pub_polys,
                r.val(),
                m as nat,
                eval_r.val(),
                r_pow_m.val(),
                v.val(),
                domain_2x,
                0,
            );
        }
        (evals_r, polynomial_target)
    }

    /// The master's sums, over all sub-provers' messages, of the evaluations
    /// of `g_1` and `h_1` (entries 11 and 12). The opening proofs that travel
    /// with them are summed by the caller.
    pub fn open_g1_h1_evals<G>(message: &Vec<(Vec<Scalar>, G)>) -> (r: Vec<Scalar>)
        requires
            forall|i: int| 0 <= i < message.len() ==> (#[trigger] message@[i]).0.len() >= 13 && all_wf(
                message@[i].0@,
            ),
        ensures
            all_wf(r@),
            vals_of(r@) == seq![column_sum(message@, 11, message.len() as nat), column_sum(message@, 12, message.len() as nat)],
    {
        let mut eval_g1 = Scalar::zero();
        let mut eval_h1 = Scalar::zero();
        let mut i: usize = 0;
        while i < message.len()
            invariant
                i <= message.len(),
                forall|i2: int| 0 <= i2 < message.len() ==> (#[trigger] message@[i2]).0.len() >= 13 && all_wf(
                    message@[i2].0@,
                ),
                eval_g1.wf() && eval_h1.wf(),
                eval_g1.val() == column_sum(message@, 11, i as nat),
                eval_h1.val() == column_sum(message@, 12, i as nat),
            decreases message.len() - i,
        {
            assert(all_wf(message@[i as int].0@));
            eval_g1 = ark_add(&eval_g1, &message[i].0[11]);
            eval_h1 = ark_add(&eval_h1, &message[i].0[12]);
            i += 1;
        }
        let evals = vec![eval_g1, eval_h1];
        assert(vals_of(evals@) =~= seq![eval_g1.val(), eval_h1.val()]);
        evals
    }

    /// The master's second round: interpolates, on `y_domain`, each of the
    /// eleven evaluations the sub-provers sent (entries 0 to 10), and
    /// returns those polynomials over `Y` with the second-round target
    /// polynomial `second_target_at`, whose `f_1`, `f_2`, `f_3` are
    /// interpolated on the domain of `2l` points.
    pub fn compute_y_polys_and_2nd_target_poly<G>(
        l: usize,
        message: &Vec<(Vec<Scalar>, G)>,
        y_domain: &Domain,
        r_pow_m: &Scalar,
        alpha: &Scalar,
        u1: &Scalar,
        v: &Scalar,
    ) -> (res: (Vec<DensePolynomial>, DensePolynomial))
        requires
            y_domain.wf(),
            2 * l <= crate::poly::max_domain_size(),
            3 * y_domain.size <= crate::poly::max_domain_size(),
            r_pow_m.wf() && alpha.wf() && u1.wf() && v.wf(),
            forall|i: int| 0 <= i < message.len() ==> 11 <= (#[trigger] message@[i]).0.len() && all_wf(message@[i].0@),
        ensures
            res.0.len() == 11,
            forall|k: int| 0 <= k < 11 ==> (#[trigger] res.0@[k]).wf() && res.0@[k].coeffs.len() <= y_domain.size,
            forall|k: int, j: nat|
                0 <= k < 11 && j < y_domain.size ==> #[trigger] res.0@[k].at(y_domain.element(j)) == if j
                    < message.len() {
                    message@[j as int].0@[k].val()
                } else {
                    0
                },
            forall|k: int, x: nat| 0 <= k < 11 ==> #[trigger] res.0@[k].at(x) == y_poly_at(message@, *y_domain, k, x),
            res.1.wf(),
            forall|x: nat| #[trigger] res.1.at(x) == second_target_at(
                message@,
                *y_domain,
                Domain { size: crate::arith::next_pow2(2 * l as nat) as usize },
                r_pow_m.val(),
                alpha.val(),
                u1.val(),
                v.val(),
                x,
            ),
            ({
                let d2 = Domain { size: crate::arith::next_pow2(2 * l as nat) as usize };
                forall|i: nat|
                    i < d2.size ==> #[trigger] res.1.at(d2.element(i)) == second_target_on_domain(
                        message@,
                        *y_domain,
                        d2,
                        r_pow_m.val(),
                        alpha.val(),
                        u1.val(),
                        v.val(),
                        i,
                    )
            }),
            ({
                let d2 = Domain { size: crate::arith::next_pow2(2 * l as nat) as usize };
                forall|i: nat|
                    i < d2.size ==> #[trigger] res.1.at(d2.element(i)) == fmul(
                        fsub(alpha.val(), u1.val()),
                        power_combination(
                            verifier_constraints(
                                res.0@[0].at(d2.element(i)),
                                res.0@[1].at(d2.element(i)),
                                res.0@[2].at(d2.element(i)),
                                res.0@[10].at(d2.element(i)),
                                r_pow_m.val(),
                                seq![
                                    res.0@[3].at(d2.element(i)),
                                    res.0@[4].at(d2.element(i)),
                                    res.0@[5].at(d2.element(i)),
                                    res.0@[6].at(d2.element(i)),
                                    res.0@[7].at(d2.element(i)),
                                    res.0@[8].at(d2.element(i)),
                                    res.0@[9].at(d2.element(i)),
                                ],
                            ),
                            v.val(),
                            4,
                        ),
                    )
            }),
    {
        let mut polys_y: Vec<DensePolynomial> = Vec::new();
        let mut k: usize = 0;
        while k < 11
            invariant
                k <= 11,
                y_domain.wf(),
                forall|i: int| 0 <= i < message.len() ==> 11 <= (#[trigger] message@[i]).0.len() && all_wf(message@[i].0@),
                polys_y.len() == k,
                forall|k2: int| 0 <= k2 < k ==> (#[trigger] polys_y@[k2]).wf() && polys_y@[k2].coeffs.len() <= y_domain.size,
                forall|k2: int, j: nat|
                    0 <= k2 < k && j < y_domain.size ==> #[trigger] polys_y@[k2].at(y_domain.element(j)) == if j
                        < message.len() {
                        message@[j as int].0@[k2].val()
                    } else {
                        0
                    },
                forall|k2: int, x: nat| 0 <= k2 < k ==> #[trigger] polys_y@[k2].at(x) == y_poly_at(message@, *y_domain, k2, x),
            decreases 11 - k,
        {
            let col = column_values(message, k);
            let ghost cv = col@;
            let p = Self::interpolate_from_eval_domain(col, y_domain);
            proof {
                assert forall|j: nat| j < y_domain.size implies #[trigger] p.at(y_domain.element(j)) == if j
                    < message.len() {
                    message@[j as int].0@[k as int].val()
                } else {
                    0
                } by {
                    if j < message.len() {
                        assert(vals_of(cv)[j as int] == column_of(message@, k as int)[j as int]);
                    }
                }
            }
            polys_y.push(p);
            k += 1;
        }
        let domain_2y = Domain::new(2 * l).unwrap();
        let ghost d2 = domain_2y;
        let ghost n2 = d2.size as nat;
        let e0 = ark_evaluate_over_domain(&polys_y[0], &domain_2y);
        let e1 = ark_evaluate_over_domain(&polys_y[1], &domain_2y);
        let e2 = ark_evaluate_over_domain(&polys_y[2], &domain_2y);
        let e3 = ark_evaluate_over_domain(&polys_y[3], &domain_2y);
        let e10 = ark_evaluate_over_domain(&polys_y[10], &domain_2y);
        let e5 = ark_evaluate_over_domain(&polys_y[5], &domain_2y);
        let e9 = ark_evaluate_over_domain(&polys_y[9], &domain_2y);
        let one_minus = ark_sub(&Scalar::one(), r_pow_m);
        let poly_b_r_virtual = ark_poly_add(
            &ark_poly_scale(&polys_y[7], r_pow_m),
            &ark_poly_scale(&polys_y[8], &one_minus),
        );
        let ebv = ark_evaluate_over_domain(&poly_b_r_virtual, &domain_2y);
        let evals_f1 = mul_sub_mul(&e0, &e3, &e10, &e5);
        let evals_f2 = mul_sub_mul(&e1, &e3, &e10, &ebv);
        let evals_f3 = mul_sub_mul(&e2, &e3, &e10, &e9);
        proof {
            assert forall|i: int| 0 <= i < n2 implies {
                let y = y_values_at(message@, *y_domain, d2.element(i as nat));
                let f = second_round_values(y, r_pow_m.val());
                &&& #[trigger] evals_f1@[i].val() == f[0]
                &&& evals_f2@[i].val() == f[1]
                &&& evals_f3@[i].val() == f[2]
            } by {
                let x = d2.element(i as nat);
                let y = y_values_at(message@, *y_domain, x);
                assert(e0@[i].val() == y[0]);
                assert(e1@[i].val() == y[1]);
                assert(e2@[i].val() == y[2]);
                assert(e3@[i].val() == y[3]);
                assert(e5@[i].val() == y[5]);
                assert(e9@[i].val() == y[9]);
                assert(e10@[i].val() == y[10]);
                assert(polys_y@[7].at(x) == y[7]);
                assert(polys_y@[8].at(x) == y[8]);
            }
            assert(vals_of(evals_f1@) =~= second_round_column(message@, *y_domain, d2, r_pow_m.val(), 0));
            assert(vals_of(evals_f2@) =~= second_round_column(message@, *y_domain, d2, r_pow_m.val(), 1));
            assert(vals_of(evals_f3@) =~= second_round_column(message@, *y_domain, d2, r_pow_m.val(), 2));
        }
        let poly_f1 = Self::interpolate_from_eval_domain(evals_f1, &domain_2y);
        let poly_f2 = Self::interpolate_from_eval_domain(evals_f2, &domain_2y);
        let poly_f3 = Self::interpolate_from_eval_domain(evals_f3, &domain_2y);
        assert(polys_y@[4].coeffs.len() <= y_domain.size && polys_y@[6].coeffs.len() <= y_domain.size);
        assert(polys_y@[9].coeffs.len() <= y_domain.size && polys_y@[10].coeffs.len() <= y_domain.size);
        let p46 = ark_poly_mul(&polys_y[4], &polys_y[6]);
        let poly_f4 = ark_poly_mul(&ark_poly_sub(&p46, &polys_y[9]), &polys_y[10]);
        let mut c = ark_sub(alpha, u1);
        let mut target = ark_poly_scale(&poly_f1, &c);
        c = ark_mul(&c, v);
        ark_poly_add_scaled(&mut target, &c, &poly_f2);
        c = ark_mul(&c, v);
        ark_poly_add_scaled(&mut target, &c, &poly_f3);
        c = ark_mul(&c, v);
        ark_poly_add_scaled(&mut target, &c, &poly_f4);
        proof {
            assert forall|x: nat| #[trigger] target.at(x) == second_target_at(
                message@,
                *y_domain,
                d2,
                r_pow_m.val(),
                alpha.val(),
                u1.val(),
                v.val(),
                x,
            ) by {
                let y = y_values_at(message@, *y_domain, x);
                assert(polys_y@[4].at(x) == y[4]);
                assert(polys_y@[6].at(x) == y[6]);
                assert(polys_y@[9].at(x) == y[9]);
                assert(polys_y@[10].at(x) == y[10]);
            }
            assert forall|i: nat| i < n2 implies #[trigger] target.at(d2.element(i)) == second_target_on_domain(
                message@,
                *y_domain,
                d2,
                r_pow_m.val(),
                alpha.val(),
                u1.val(),
                v.val(),
                i,
            ) by {
                let x = d2.element(i);
                let c0 = second_round_column(message@, *y_domain, d2, r_pow_m.val(), 0);
                let c1 = second_round_column(message@, *y_domain, d2, r_pow_m.val(), 1);
                let c2 = second_round_column(message@, *y_domain, d2, r_pow_m.val(), 2);
                assert(poly_f1.at(x) == c0[i as int]);
                assert(poly_f2.at(x) == c1[i as int]);
                assert(poly_f3.at(x) == c2[i as int]);
                assert(interp_at(c0, d2, x, n2) == c0[i as int]);
                assert(interp_at(c1, d2, x, n2) == c1[i as int]);
                assert(interp_at(c2, d2, x, n2) == c2[i as int]);
                assert(target.at(x) == second_target_at(
                    message@,
                    *y_domain,
                    d2,
                    r_pow_m.val(),
                    alpha.val(),
                    u1.val(),
                    v.val(),
                    x,
                ));
                assert(seq![
                    interp_at(c0, d2, x, n2),
                    interp_at(c1, d2, x, n2),
                    interp_at(c2, d2, x, n2),
                    second_round_values(y_values_at(message@, *y_domain, x), r_pow_m.val())[3],
                ] =~= seq![
                    c0[i as int],
                    c1[i as int],
                    c2[i as int],
                    second_round_values(y_values_at(message@, *y_domain, x), r_pow_m.val())[3],
                ]);
            }
        }
        proof {
            let d2 = Domain { size: crate::arith::next_pow2(2 * l as nat) as usize };
            assert forall|i: nat| i < d2.size implies #[trigger] target.at(d2.element(i)) == fmul(
                fsub(alpha.val(), u1.val()),
                power_combination(
                    verifier_constraints(
                        polys_y@[0].at(d2.element(i)),
                        polys_y@[1].at(d2.element(i)),
                        polys_y@[2].at(d2.element(i)),
                        polys_y@[10].at(d2.element(i)),
                        r_pow_m.val(),
                        seq![
                            polys_y@[3].at(d2.element(i)),
                            polys_y@[4].at(d2.element(i)),
                            polys_y@[5].at(d2.element(i)),
                            polys_y@[6].at(d2.element(i)),
                            polys_y@[7].at(d2.element(i)),
                            polys_y@[8].at(d2.element(i)),
                            polys_y@[9].at(d2.element(i)),
                        ],
                    ),
                    v.val(),
                    4,
                ),
            ) by {
                law_second_target_meets_verifier_constraints(
                    message@,
                    *y_domain,
                    d2,
                    r_pow_m.val(),
                    alpha.val(),
                    u1.val(),
                    v.val(),
                    i,
                );
                let x = d2.element(i);
                assert(polys_y@[0].at(x) == y_poly_at(message@, *y_domain, 0, x));
                assert(polys_y@[1].at(x) == y_poly_at(message@, *y_domain, 1, x));
                assert(polys_y@[2].at(x) == y_poly_at(message@, *y_domain, 2, x));
                assert(polys_y@[3].at(x) == y_poly_at(message@, *y_domain, 3, x));
                assert(polys_y@[4].at(x) == y_poly_at(message@, *y_domain, 4, x));
                assert(polys_y@[5].at(x) == y_poly_at(message@, *y_domain, 5, x));
                assert(polys_y@[6].at(x) == y_poly_at(message@, *y_domain, 6, x));
                assert(polys_y@[7].at(x) == y_poly_at(message@, *y_domain, 7, x));
                assert(polys_y@[8].at(x) == y_poly_at(message@, *y_domain, 8, x));
                assert(polys_y@[9].at(x) == y_poly_at(message@, *y_domain, 9, x));
                assert(polys_y@[10].at(x) == y_poly_at(message@, *y_domain, 10, x));
            }
        }
        (polys_y, target)
    }

    /// Interpolates `evals` (padded with zeros, or cut, to the domain's
    /// size) on the domain: the polynomial with at most as many coefficients
    /// as the domain has elements that takes the value `evals[i]` at the
    /// `i`-th element.
    pub fn interpolate_from_eval_domain(evals: Vec<Scalar>, domain: &Domain) -> (p: DensePolynomial)
        requires
            domain.wf(),
            all_wf(evals@),
        ensures
            p.wf(),
            p.coeffs.len() <= domain.size,
            forall|i: nat|
                i < domain.size ==> #[trigger] p.at(domain.element(i)) == if i < evals.len() {
                    evals@[i as int].val()
                } else {
                    0
                },
            forall|x: nat| #[trigger] p.at(x) == interp_at(vals_of(evals@), *domain, x, domain.size as nat),
    {
        ark_interpolate(&evals, domain)
    }
}

/// The sum, over the first `n` messages, of entry `k` of their evaluations.
pub open spec fn column_sum<G>(message: Seq<(Vec<Scalar>, G)>, k: int, n: nat) -> nat
    decreases n,
{
    if n == 0 {
        0
    } else {
        fadd(column_sum(message, k, (n - 1) as nat), message[n - 1].0@[k].val())
    }
}

/// Entry `k` of the evaluations in every message, in order.
pub open spec fn column_of<G>(message: Seq<(Vec<Scalar>, G)>, k: int) -> Seq<nat> {
    Seq::new(message.len(), |i: int| message[i].0@[k].val())
}

/// The value at `x` of the polynomial over `Y` that interpolates entry `k`
/// of the messages on the domain `yd`.
pub open spec fn y_poly_at<G>(message: Seq<(Vec<Scalar>, G)>, yd: Domain, k: int, x: nat) -> nat {
    interp_at(column_of(message, k), yd, x, yd.size as nat)
}

/// The values at `x` of the eleven polynomials over `Y`.
pub open spec fn y_values_at<G>(message: Seq<(Vec<Scalar>, G)>, yd: Domain, x: nat) -> Seq<nat> {
    Seq::new(11, |k: int| y_poly_at(message, yd, k, x))
}

/// From the values `p` of the eleven polynomials over `Y` at a point, the
/// values there of `f_1 = Pa w - R a_r`, `f_2 = Pb w - R b_v`,
/// `f_3 = Pc w - R c_r` and `f_4 = (a_r(alpha) b - c_r) R`, with the virtual
/// `b_v = b(1/r) r^m + b(0) (1 - r^m)`.
pub open spec fn second_round_values(p: Seq<nat>, r_pow_m: nat) -> Seq<nat> {
    let bv = fadd(fmul(p[7], r_pow_m), fmul(p[8], fsub(1, r_pow_m)));
    seq![
        fsub(fmul(p[0], p[3]), fmul(p[10], p[5])),
        fsub(fmul(p[1], p[3]), fmul(p[10], bv)),
        fsub(fmul(p[2], p[3]), fmul(p[10], p[9])),
        fmul(fsub(fmul(p[4], p[6]), p[9]), p[10]),
    ]
}

/// The values of `f_(k+1)` on the domain `d2`.
pub open spec fn second_round_column<G>(
    message: Seq<(Vec<Scalar>, G)>,
    yd: Domain,
    d2: Domain,
    r_pow_m: nat,
    k: int,
) -> Seq<nat> {
    Seq::new(
        d2.size as nat,
        |i: int| second_round_values(y_values_at(message, yd, d2.element(i as nat)), r_pow_m)[k],
    )
}

/// The second-round target at the `i`-th point of `d2`, where `f_1`, `f_2`,
/// `f_3` take their computed values there.
pub open spec fn second_target_on_domain<G>(
    message: Seq<(Vec<Scalar>, G)>,
    yd: Domain,
    d2: Domain,
    r_pow_m: nat,
    alpha: nat,
    u1: nat,
    v: nat,
    i: nat,
) -> nat {
    second_target_combination(
        seq![
            second_round_column(message, yd, d2, r_pow_m, 0)[i as int],
            second_round_column(message, yd, d2, r_pow_m, 1)[i as int],
            second_round_column(message, yd, d2, r_pow_m, 2)[i as int],
            second_round_values(y_values_at(message, yd, d2.element(i)), r_pow_m)[3],
        ],
        fsub(alpha, u1),
        v,
    )
}

/// `c f_1 + c v f_2 + c v^2 f_3 + c v^3 f_4` for the values `f`.
pub open spec fn second_target_combination(f: Seq<nat>, c: nat, v: nat) -> nat {
    let c1 = fmul(c, v);
    let c2 = fmul(c1, v);
    let c3 = fmul(c2, v);
    fadd(fadd(fadd(fmul(f[0], c), fmul(c1, f[1])), fmul(c2, f[2])), fmul(c3, f[3]))
}

/// The value at `x` of the second-round target polynomial: `f_1`, `f_2`,
/// `f_3` are taken by their interpolants on `d2`, `f_4` as the product of
/// the polynomials over `Y`; the factor is `c = alpha - u_1`.
pub open spec fn second_target_at<G>(
    message: Seq<(Vec<Scalar>, G)>,
    yd: Domain,
    d2: Domain,
    r_pow_m: nat,
    alpha: nat,
    u1: nat,
    v: nat,
    x: nat,
) -> nat {
    let n2 = d2.size as nat;
    second_target_combination(
        seq![
            interp_at(second_round_column(message, yd, d2, r_pow_m, 0), d2, x, n2),
            interp_at(second_round_column(message, yd, d2, r_pow_m, 1), d2, x, n2),
            interp_at(second_round_column(message, yd, d2, r_pow_m, 2), d2, x, n2),
            second_round_values(y_values_at(message, yd, x), r_pow_m)[3],
        ],
        fsub(alpha, u1),
        v,
    )
}

/// Entry `k` of every message's evaluations.
fn column_values<G>(message: &Vec<(Vec<Scalar>, G)>, k: usize) -> (c: Vec<Scalar>)
    requires
        forall|i: int| 0 <= i < message.len() ==> k < (#[trigger] message@[i]).0.len() && all_wf(message@[i].0@),
    ensures
        all_wf(c@),
        vals_of(c@) == column_of(message@, k as int),
{
    let mut c: Vec<Scalar> = Vec::new();
    let mut i: usize = 0;
    while i < message.len()
        invariant
            i <= message.len(),
            forall|i2: int| 0 <= i2 < message.len() ==> k < (#[trigger] message@[i2]).0.len() && all_wf(message@[i2].0@),
            c.len() == i,
            all_wf(c@),
            forall|i2: int| 0 <= i2 < i ==> #[trigger] c@[i2].val() == message@[i2].0@[k as int].val(),
        decreases message.len() - i,
    {
        assert(all_wf(message@[i as int].0@));
        c.push(message[i].0[k]);
        i += 1;
    }
    assert(vals_of(c@) =~= column_of(message@, k as int));
    c
}

/// `a_i b_i - c_i d_i` entry by entry.
fn mul_sub_mul(a: &Vec<Scalar>, b: &Vec<Scalar>, c: &Vec<Scalar>, d: &Vec<Scalar>) -> (r: Vec<Scalar>)
    requires
        all_wf(a@) && all_wf(b@) && all_wf(c@) && all_wf(d@),
        b.len() == a.len() && c.len() == a.len() && d.len() == a.len(),
    ensures
        all_wf(r@),
        r.len() == a.len(),
        forall|i: int|
            0 <= i < a.len() ==> #[trigger] r@[i].val() == fsub(
                fmul(a@[i].val(), b@[i].val()),
                fmul(c@[i].val(), d@[i].val()),
            ),
{
    let mut r: Vec<Scalar> = Vec::new();
    let mut i: usize = 0;
    while i < a.len()
        invariant
            i <= a.len(),
            all_wf(a@) && all_wf(b@) && all_wf(c@) && all_wf(d@),
            b.len() == a.len() && c.len() == a.len() && d.len() == a.len(),
            r.len() == i,
            all_wf(r@),
            forall|i2: int|
                0 <= i2 < i ==> #[trigger] r@[i2].val() == fsub(
                    fmul(a@[i2].val(), b@[i2].val()),
                    fmul(c@[i2].val(), d@[i2].val()),
                ),
        decreases a.len() - i,
    {
        let x = ark_mul(&a[i], &b[i]);
        let y = ark_mul(&c[i], &d[i]);
        r.push(ark_sub(&x, &y));
        i += 1;
    }
    r
}

} // verus!
