use ark_bn254::Fr;
use ark_ff::{BigInt, Field, PrimeField};
use my_snark::field::Scalar;
use my_snark::index::{DeColIndex, DeRowIndex, DeValEvals, Indexer};
use my_snark::index_polys::DeLowerAandBEvals;
use my_snark::nevals::NEvals;
use my_snark::poly::{DensePolynomial, Domain};
use my_snark::prover::{generate_powers, NoPreProver, R1CSPublicPolys, R1CSWitnessPolys};

fn s(x: u64) -> Scalar {
    Scalar::from_u64(x)
}

fn sv(xs: &[u64]) -> Vec<Scalar> {
    xs.iter().map(|x| Scalar::from_u64(*x)).collect()
}

fn fr(x: &Scalar) -> Fr {
    Fr::from_bigint(BigInt(x.limbs())).unwrap()
}

fn sc(x: Fr) -> Scalar {
    Scalar::from_limbs(x.into_bigint().0)
}

fn poly(xs: &[u64]) -> DensePolynomial {
    DensePolynomial::from_coefficients_vec(sv(xs))
}

#[test]
fn evaluate_by_horner() {
    // 1 + 2x + 3x^2 at 2
    assert_eq!(poly(&[1, 2, 3]).evaluate(&s(2)), s(17));
    assert_eq!(poly(&[]).evaluate(&s(5)), s(0));
}

#[test]
fn from_coefficients_drops_high_zeros() {
    let p = poly(&[1, 2, 0, 0]);
    assert_eq!(p.coeffs, sv(&[1, 2]));
    assert_eq!(poly(&[0, 0]).coeffs, sv(&[]));
}

#[test]
fn domain_sizes() {
    assert_eq!(Domain::new(5).unwrap().size, 8);
    assert_eq!(Domain::new(0).unwrap().size, 1);
    assert_eq!(Domain::new(1 << 28).unwrap().size, 1 << 28);
    assert!(Domain::new((1 << 28) + 1).is_none());
}

#[test]
fn domain_generator_has_the_order() {
    let d = Domain::new(4).unwrap();
    let g = fr(&d.element_at(1));
    assert_ne!(g, Fr::from(1u64));
    assert_ne!(g * g, Fr::from(1u64));
    assert_eq!(g.pow([4u64]), Fr::from(1u64));
    assert_eq!(d.size_as_field_element(), s(4));
    // tau^4 - 1 at tau = 2
    assert_eq!(d.evaluate_vanishing_polynomial(&s(2)), s(15));
}

#[test]
fn interpolation_takes_the_values() {
    let d = Domain::new(4).unwrap();
    let g = d.element_at(1);
    let vals = sv(&[3, 1, 4, 1]);
    let p = NoPreProver::interpolate_from_eval_domain(vals.clone(), &d);
    assert!(p.coeffs.len() <= 4);
    let mut x = s(1);
    for v in &vals {
        assert_eq!(p.evaluate(&x), *v);
        x = sc(fr(&x) * fr(&g));
    }
    // shorter vectors are padded with zeros
    let q = NoPreProver::interpolate_from_eval_domain(sv(&[7]), &d);
    assert_eq!(q.evaluate(&s(1)), s(7));
    assert_eq!(q.evaluate(&g), s(0));
    // a constant interpolates to itself
    let c = NoPreProver::interpolate_from_eval_domain(sv(&[5, 5, 5, 5]), &d);
    assert_eq!(c.coeffs, sv(&[5]));
}

#[test]
fn powers_of_a_challenge() {
    assert_eq!(generate_powers(&s(2), 4), sv(&[1, 2, 4, 8]));
    assert_eq!(generate_powers(&s(2), 0), sv(&[]));
}

#[test]
fn selector_polynomials() {
    let r = Indexer::upper_r_poly(3);
    assert_eq!(r.coeffs, sv(&[0, 0, 0, 1]));
    assert_eq!(r.evaluate(&s(2)), s(8));
    let d = Domain::new(4).unwrap();
    let g = d.element_at(1);
    let l1 = Indexer::upper_l_poly(1, 4, &d);
    assert_eq!(l1.evaluate(&s(1)), s(0));
    assert_eq!(l1.evaluate(&g), s(1));
    assert_eq!(l1.evaluate(&sc(fr(&g) * fr(&g))), s(0));
}

#[test]
fn lower_evaluations_are_powers_of_the_generator() {
    let m_domain = Domain::new(2).unwrap();
    let x_domain = Domain::new(4).unwrap();
    let w = fr(&x_domain.element_at(1));
    let row = DeRowIndex {
        row_pa_low: vec![0, 1],
        row_pa_high: vec![2, 3],
        row_pb_low: vec![1, 1],
        row_pb_high: vec![0, 0],
        row_pc_low: vec![3, 0],
        row_pc_high: vec![1, 2],
    };
    let col = DeColIndex { col_pa: vec![1, 2], col_pb: vec![0, 3], col_pc: vec![2, 2] };
    let (evals, polys): (DeLowerAandBEvals, _) =
        Indexer::compute_lower_a_b_evals_and_polys(&row, &col, &m_domain, &x_domain);
    assert_eq!(evals.eval_la_pa_high, vec![sc(w.pow([2u64])), sc(w.pow([3u64]))]);
    assert_eq!(evals.eval_lb_pb, vec![s(1), sc(w.pow([3u64]))]);
    let g = m_domain.element_at(1);
    assert_eq!(polys.la_pa_high.evaluate(&s(1)), evals.eval_la_pa_high[0]);
    assert_eq!(polys.la_pa_high.evaluate(&g), evals.eval_la_pa_high[1]);
    assert_eq!(polys.lb_pc.evaluate(&g), sc(w.pow([2u64])));
}

#[test]
fn value_and_frequency_polynomials() {
    let d = Domain::new(2).unwrap();
    let g = d.element_at(1);
    let val = DeValEvals { evals_val_pa: sv(&[1, 2]), evals_val_pb: sv(&[2, 1]), evals_val_pc: sv(&[2, 4]) };
    let polys = Indexer::compute_val_polys(2, &d, vec![val.clone(), val.clone()]);
    assert_eq!(polys.len(), 2);
    assert_eq!(polys[1].val_pc.evaluate(&s(1)), s(2));
    assert_eq!(polys[1].val_pc.evaluate(&g), s(4));
    let one = Indexer::de_compute_val_polys(&d, &val);
    assert_eq!(one.val_pa.evaluate(&g), s(2));
    let two = sv(&[2, 2]);
    let n = NEvals {
        row_pa_low: two.clone(),
        row_pa_high: two.clone(),
        row_pb_low: two.clone(),
        row_pb_high: two.clone(),
        row_pc_low: two.clone(),
        row_pc_high: sv(&[1, 3]),
        col_pa: two.clone(),
        col_pb: two.clone(),
        col_pc: two.clone(),
    };
    let np = Indexer::compute_n_polys(&d, &n);
    assert_eq!(np.row_pa_low.coeffs, sv(&[2]));
    assert_eq!(np.row_pc_high.evaluate(&g), s(3));
}

#[test]
fn evaluations_at_alpha() {
    let wit = R1CSWitnessPolys { poly_w: poly(&[1, 1]), poly_a: poly(&[0, 1]), poly_b: poly(&[2]), poly_c: poly(&[0, 0, 1]) };
    let pubp = R1CSPublicPolys { poly_pa: poly(&[1]), poly_pb: poly(&[0, 2]), poly_pc: poly(&[3, 0, 1]) };
    let e = NoPreProver::compute_evals_alpha(&wit, &pubp, &s(3), &s(2));
    // Pa(2), Pb(2), Pc(2), w(2), a(3 * 2), b(2)
    assert_eq!(e, sv(&[1, 4, 7, 3, 6, 2]));
}

#[test]
fn evaluations_at_r_and_first_target() {
    let wit = R1CSWitnessPolys { poly_w: poly(&[1, 1]), poly_a: poly(&[0, 1]), poly_b: poly(&[1, 1]), poly_c: poly(&[0, 0, 1]) };
    let pubp = R1CSPublicPolys { poly_pa: poly(&[1]), poly_pb: poly(&[0, 2]), poly_pc: poly(&[3, 0, 1]) };
    let (r, eval_r, r_pow_m, v) = (s(2), s(5), s(4), s(7));
    let m = 2;
    let (evals_r, target) = NoPreProver::compute_evals_r_and_1st_target_poly(m, &wit, &pubp, &r, &eval_r, &r_pow_m, &v);
    let half = Fr::from(2u64).inverse().unwrap();
    // a(r), b(0), b(1/r), c(r)
    assert_eq!(evals_r, vec![s(2), s(1), sc(Fr::from(1u64) + half), s(4)]);
    // the target at every point of the domain of 2m points
    let d = Domain::new(2 * m).unwrap();
    let g = fr(&d.element_at(1));
    let (er, rr, rpm, vv) = (fr(&eval_r), fr(&r), fr(&r_pow_m), fr(&v));
    let e: Vec<Fr> = evals_r.iter().map(fr).collect();
    let bv = e[2] * rpm + e[1] * (Fr::from(1u64) - rpm);
    let mut x = Fr::from(1u64);
    for _ in 0..4 {
        let at = |p: &DensePolynomial| fr(&p.evaluate(&sc(x)));
        // a(rX): a = X, so a(rX) = r X
        let ar = rr * x;
        let (f0, f1, f2, f3, f5) = (at(&pubp.poly_pa), at(&pubp.poly_pb), at(&pubp.poly_pc), at(&wit.poly_w), at(&wit.poly_b));
        let e1 = f0 * f3 - er * e[0];
        let e2 = (f1 * f3 - er * bv) * vv;
        let e3 = (f2 * f3 - er * e[3]) * vv.square();
        let e4 = (ar * f5 - e[3]) * vv.square() * vv * er;
        assert_eq!(fr(&target.evaluate(&sc(x))), e1 + e2 + e3 + e4);
        x *= g;
    }
}

#[test]
fn domain_of_two_points_is_plus_and_minus_one() {
    let d = Domain::new(2).unwrap();
    assert_eq!(fr(&d.element_at(0)), Fr::from(1u64));
    assert_eq!(fr(&d.element_at(1)), -Fr::from(1u64));
    let p = NoPreProver::interpolate_from_eval_domain(sv(&[5, 9]), &d);
    assert_eq!(p.evaluate(&d.element_at(1)), s(9));
}

#[test]
fn lower_evaluations_over_two_points_are_signs() {
    let m_domain = Domain::new(4).unwrap();
    let x_domain = Domain::new(2).unwrap();
    let row = DeRowIndex {
        row_pa_low: vec![0, 1, 0, 0],
        row_pa_high: vec![0, 0, 1, 0],
        row_pb_low: vec![0, 1, 1, 0],
        row_pb_high: vec![0, 0, 1, 0],
        row_pc_low: vec![0, 1, 0, 0],
        row_pc_high: vec![0, 0, 0, 0],
    };
    let col = DeColIndex { col_pa: vec![0, 1, 1, 0], col_pb: vec![1, 0, 1, 0], col_pc: vec![0, 1, 0, 0] };
    let (e, p) = Indexer::compute_lower_a_b_evals_and_polys(&row, &col, &m_domain, &x_domain);
    let one = s(1);
    let minus = sc(-Fr::from(1u64));
    assert_eq!(e.eval_la_pa_low, vec![one, minus, one, one]);
    assert_eq!(e.eval_la_pa_high, vec![one, one, minus, one]);
    assert_eq!(e.eval_la_pb_low, vec![one, minus, minus, one]);
    assert_eq!(e.eval_lb_pa, vec![one, minus, minus, one]);
    assert_eq!(e.eval_lb_pb, vec![minus, one, minus, one]);
    assert_eq!(e.eval_la_pc_high, vec![one, one, one, one]);
    assert_eq!(p.la_pa_low.evaluate(&m_domain.element_at(1)), minus);
}
