use ark_bn254::Fr;
use ark_ff::{BigInt, Field, PrimeField};
use ark_poly::{EvaluationDomain, GeneralEvaluationDomain};
use my_snark::circuits::SimpleSha256Circuit;
use my_snark::field::Scalar;
use my_snark::poly::{DensePolynomial, Domain};
use my_snark::prover::{NoPreProver, R1CSDePublicPolys};
use my_snark::snark::{linear_combination_field, Challenges, DeSNARKLinear, SNARKProofLinear};

fn s(x: u64) -> Scalar {
    Scalar::from_u64(x)
}

fn sv(xs: &[u64]) -> Vec<Scalar> {
    xs.iter().map(|x| Scalar::from_u64(*x)).collect()
}

fn fr(x: &Scalar) -> Fr {
    Fr::from_bigint(BigInt(x.limbs())).unwrap()
}

fn sc(x: Fr) -> Scalar {
    Scalar::from_limbs(x.into_bigint().0)
}

fn poly(xs: &[u64]) -> DensePolynomial {
    DensePolynomial::from_coefficients_vec(sv(xs))
}

#[test]
fn random_linear_combination() {
    assert_eq!(linear_combination_field(&sv(&[1, 2, 3]), &s(10)), s(321));
    assert_eq!(linear_combination_field(&sv(&[]), &s(10)), s(0));
}

#[test]
fn challenge_powers_of_r() {
    let (eval_r, r_pow_m) = DeSNARKLinear::challenge_powers(&s(2), 3, 2);
    assert_eq!(eval_r, s(64));
    assert_eq!(r_pow_m, s(8));
    let (e0, _) = DeSNARKLinear::challenge_powers(&s(2), 3, 0);
    assert_eq!(e0, s(1));
}

#[test]
fn message_order() {
    let msg = DeSNARKLinear::sub_prover_message(&sv(&[0, 1, 2, 3, 4, 6]), &sv(&[5, 8, 7, 9]), &s(10), &s(11), &s(12));
    assert_eq!(msg, sv(&[0, 1, 2, 3, 4, 5, 6, 7, 8, 9, 10, 11, 12]));
}

#[test]
fn split_h2_low_and_high() {
    let h2 = poly(&[1, 2, 3, 4, 5]);
    let (low, high) = DeSNARKLinear::split_h2(h2.clone(), 2);
    assert_eq!(low.coeffs, sv(&[1, 2]));
    assert_eq!(high.coeffs, sv(&[3, 4, 5]));
    let x = s(3);
    let lhs = fr(&h2.evaluate(&x));
    let rhs = fr(&low.evaluate(&x)) + Fr::from(9u64) * fr(&high.evaluate(&x));
    assert_eq!(lhs, rhs);
    // fewer coefficients than l: padded, the high part is zero
    let (low, high) = DeSNARKLinear::split_h2(poly(&[1, 2]), 4);
    assert_eq!(low.coeffs, sv(&[1, 2]));
    assert_eq!(high.coeffs, sv(&[]));
}

#[test]
fn master_evaluations_at_beta() {
    let polys_y: Vec<DensePolynomial> = (0..11).map(|k| poly(&[k, 1])).collect();
    let gh = vec![poly(&[1]), poly(&[0, 1]), poly(&[0, 0, 1])];
    let (ev, e2) = DeSNARKLinear::master_evals_at_beta(&polys_y, &gh, &s(5));
    assert_eq!(ev, sv(&[8, 9, 10, 11, 12, 13, 14]));
    assert_eq!(e2, sv(&[1, 5, 25]));
}

#[test]
fn g1_h1_sums() {
    let message = vec![
        (sv(&[0, 0, 0, 0, 0, 0, 0, 0, 0, 0, 0, 3, 4]), ()),
        (sv(&[0, 0, 0, 0, 0, 0, 0, 0, 0, 0, 0, 5, 6]), ()),
    ];
    assert_eq!(NoPreProver::open_g1_h1_evals(&message), sv(&[8, 10]));
}

#[test]
fn proof_size_counts_elements() {
    let proof = SNARKProofLinear::<[u8; 48]> {
        coms_wit_polys: vec![[0; 48]; 4],
        coms_g1_h1: vec![[0; 48]; 2],
        coms_g2_h2: vec![[0; 48]; 3],
        evals_wit_polys: sv(&[0; 7]),
        evals_g1_h1: sv(&[0; 2]),
        evals_g2_h2: sv(&[0; 3]),
        proof_g1_h1: [0; 48],
        proof_g2_h2: [0; 48],
        proofs_wit_polys: ([0; 48], sv(&[0; 5]), s(0), ([0; 48], [0; 48]), [0; 48]),
    };
    // fields: 12 + 6, groups: 11 + 4
    assert_eq!(DeSNARKLinear::get_proof_size(&proof), 18 * 32 + 15 * 48);
}

#[test]
fn benchmark_circuit_size() {
    assert_eq!(SimpleSha256Circuit::new(1024).num_constraints_target, 1024);
}

/// The values of the Lagrange basis of a domain of `n` points at `x`.
fn lagrange(n: usize, x: Fr) -> Vec<Fr> {
    GeneralEvaluationDomain::<Fr>::new(n).unwrap().evaluate_all_lagrange_coefficients(x)
}

#[test]
fn evaluation_check_accepts_and_rejects() {
    let x_domain = Domain::new(4).unwrap();
    let y_domain = Domain::new(2).unwrap();
    let pub_polys = R1CSDePublicPolys {
        polys_pa: vec![poly(&[1, 2]), poly(&[3])],
        polys_pb: vec![poly(&[0, 1]), poly(&[2, 2])],
        polys_pc: vec![poly(&[5]), poly(&[1, 0, 1])],
    };
    let r = s(3);
    let ch = Challenges { v: s(7), u1: s(11), alpha: s(13), u2: s(17), gamma: s(19), beta: s(23) };
    let e = sv(&[2, 3, 5, 7, 11, 13, 17]);
    let gh1 = sv(&[29, 31]);
    let (alpha, beta, v, u1, u2) = (fr(&ch.alpha), fr(&ch.beta), fr(&ch.v), fr(&ch.u1), fr(&ch.u2));
    let ef: Vec<Fr> = e.iter().map(fr).collect();
    // the left side, as the verifier defines it
    let lag = lagrange(2, beta);
    let rpm = fr(&r).pow([4u64]);
    let at = |ps: &Vec<DensePolynomial>| -> Fr {
        ps.iter().zip(lag.iter()).map(|(p, l)| fr(&p.evaluate(&ch.alpha)) * l).sum()
    };
    let (pa, pb, pc) = (at(&pub_polys.polys_pa), at(&pub_polys.polys_pb), at(&pub_polys.polys_pc));
    let rb: Fr = lag.iter().enumerate().map(|(i, l)| rpm.pow([i as u64]) * l).sum();
    let f1 = pa * ef[0] - rb * ef[2];
    let f2 = pb * ef[0] - rb * (ef[4] * rpm + ef[5] * (Fr::from(1u64) - rpm));
    let f3 = pc * ef[0] - rb * ef[6];
    let f4 = (ef[1] * ef[3] - ef[6]) * rb;
    let left = (beta - u2) * (alpha - u1) * (f1 + v * f2 + v * v * f3 + v * v * v * f4);
    // choose g_2(beta) so that the right side matches
    let zx = alpha.pow([4u64]) - Fr::from(1u64);
    let zy = beta.pow([2u64]) - Fr::from(1u64);
    let (h_low, h_high) = (Fr::from(37u64), Fr::from(41u64));
    let t2 = (alpha * fr(&gh1[0]) + (alpha - u1) * zx * fr(&gh1[1])) / Fr::from(2u64);
    let rest = (beta - u2) * t2 + (beta - u2) * zy * (h_low + beta.pow([2u64]) * h_high);
    let g2 = (left - rest) / beta;
    let gh2 = vec![sc(g2), sc(h_low), sc(h_high)];
    assert!(DeSNARKLinear::evaluation_check(&x_domain, &y_domain, &pub_polys, &r, &ch, &e, &gh1, &gh2));
    let bad = vec![sc(g2 + Fr::from(1u64)), sc(h_low), sc(h_high)];
    assert!(!DeSNARKLinear::evaluation_check(&x_domain, &y_domain, &pub_polys, &r, &ch, &e, &gh1, &bad));
}

#[test]
fn second_round_polynomials() {
    let l = 2;
    let y_domain = Domain::new(l).unwrap();
    let message: Vec<(Vec<Scalar>, ())> = vec![
        ((1..=13).map(s).collect(), ()),
        ((20..=32).map(s).collect(), ()),
    ];
    let (r_pow_m, alpha, u1, v) = (s(3), s(5), s(2), s(7));
    let (polys_y, target) =
        NoPreProver::compute_y_polys_and_2nd_target_poly(l, &message, &y_domain, &r_pow_m, &alpha, &u1, &v);
    assert_eq!(polys_y.len(), 11);
    let g = y_domain.element_at(1);
    for k in 0..11 {
        assert_eq!(polys_y[k].evaluate(&s(1)), message[0].0[k]);
        assert_eq!(polys_y[k].evaluate(&g), message[1].0[k]);
    }
    // every product has degree below 2l, so f_1, f_2, f_3 are the products
    let c = fr(&alpha) - fr(&u1);
    let (q, vv) = (fr(&r_pow_m), fr(&v));
    for x in [0u64, 1, 9, 1000] {
        let p: Vec<Fr> = polys_y.iter().map(|py| fr(&py.evaluate(&s(x)))).collect();
        let bv = p[7] * q + p[8] * (Fr::from(1u64) - q);
        let f1 = p[0] * p[3] - p[10] * p[5];
        let f2 = p[1] * p[3] - p[10] * bv;
        let f3 = p[2] * p[3] - p[10] * p[9];
        let f4 = (p[4] * p[6] - p[9]) * p[10];
        let expected = c * f1 + c * vv * f2 + c * vv * vv * f3 + c * vv * vv * vv * f4;
        assert_eq!(fr(&target.evaluate(&s(x))), expected);
    }
}

#[test]
fn selector_at_r_pow_m() {
    let r = s(3);
    let (eval_r, r_pow_m) = DeSNARKLinear::challenge_powers(&r, 4, 5);
    let selector = my_snark::index::Indexer::upper_r_poly(5);
    assert_eq!(selector.evaluate(&r_pow_m), eval_r);
    assert_eq!(fr(&eval_r), Fr::from(3u64).pow([20u64]));
}
