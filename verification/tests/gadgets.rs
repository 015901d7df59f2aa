use my_snark::field::Scalar;
use my_snark::gadgets::{
    entry_product, init, init_distinct_m_m_prime, init_r1cs_example, inner_product, matrix_mul,
    split_vector, vec_matrix_mul,
};

fn s(x: u64) -> Scalar {
    Scalar::from_u64(x)
}

fn sv(xs: &[u64]) -> Vec<Scalar> {
    xs.iter().map(|x| Scalar::from_u64(*x)).collect()
}

#[test]
fn matrix_mul_test() {
    let (_pa, _pb, _pc, _w, a, b, c) = init();
    assert_eq!(c, entry_product(&a, &b));

    let (_pa, _pb, _pc, _w, a, b, c, _row, _col, _val_evals, _n) = init_distinct_m_m_prime();
    assert_eq!(c, entry_product(&a, &b));
}

#[test]
fn inner_product_of_small_vectors() {
    assert_eq!(inner_product(&sv(&[1, 2, 3]), &sv(&[4, 5, 6])), s(32));
    // the shorter vector decides how many terms are summed
    assert_eq!(inner_product(&sv(&[1, 2, 3]), &sv(&[4, 5])), s(14));
    assert_eq!(inner_product(&sv(&[]), &sv(&[4, 5])), s(0));
}

#[test]
fn entry_product_truncates_to_shorter() {
    assert_eq!(entry_product(&sv(&[2, 3, 4]), &sv(&[5, 6])), sv(&[10, 18]));
}

#[test]
fn matrix_times_vector() {
    let m = vec![sv(&[1, 2]), sv(&[3, 4]), sv(&[5, 6])];
    assert_eq!(matrix_mul(&m, &sv(&[1, 10])), sv(&[21, 43, 65]));
}

#[test]
fn vector_times_matrix() {
    let m = vec![sv(&[1, 2]), sv(&[3, 4]), sv(&[5, 6])];
    assert_eq!(vec_matrix_mul(&sv(&[1, 10, 100]), &m), sv(&[531, 642]));
}

#[test]
fn split_vector_halves() {
    let (a, b) = split_vector(&sv(&[1, 2, 3, 4, 5]));
    assert_eq!(a, sv(&[1, 2]));
    assert_eq!(b, sv(&[3, 4, 5]));
}

#[test]
fn init_example_values() {
    let (pa, _pb, _pc, w, a, b, c) = init();
    assert_eq!(w, sv(&[2, 1, 1, 2]));
    assert_eq!(a, sv(&[2, 2, 2, 2]));
    assert_eq!(b, sv(&[2, 2, 2, 2]));
    assert_eq!(c, sv(&[4, 4, 4, 4]));
    assert_eq!(matrix_mul(&pa, &w), a);
    assert_eq!(vec_matrix_mul(&w, &pa), sv(&[2, 2, 2, 2]));
}

#[test]
fn r1cs_example_halves() {
    let r = s(3);
    let (vectors, rows, cols, vals, _n) = init_r1cs_example(&r);
    assert_eq!(vectors.len(), 2);
    assert_eq!(rows.len(), 2);
    assert_eq!(cols.len(), 2);
    assert_eq!(vals.len(), 2);
    for v in &vectors {
        assert_eq!(v.vec_w, sv(&[1, 1]));
        assert_eq!(v.vec_a, sv(&[2, 2]));
        assert_eq!(v.vec_b, sv(&[2, 2]));
        assert_eq!(v.vec_c, sv(&[4, 4]));
    }
    // x = r^T Pa, the halves of it
    let (pa, _pb, _pc, _w, _a, _b, _c, _row, _col, _val_evals, _n) = init_distinct_m_m_prime();
    let x = vec_matrix_mul(&sv(&[1, 3, 9, 27]), &pa);
    assert_eq!(vectors[0].vec_x, x[0..2].to_vec());
    assert_eq!(vectors[1].vec_x, x[2..4].to_vec());
}

#[test]
fn r1cs_example_vectors_written_out() {
    // r = 3: x = (2, r + r^2, r + r^2, 2 r^3), y = (2 r, 1 + r^3, 1 + r^3, 2 r^2),
    // z = (4, 4 r, 4 r^2, 4 r^3)
    let (vectors, _rows, _cols, _vals, _n) = init_r1cs_example(&s(3));
    let joined = |f: &dyn Fn(usize) -> Vec<Scalar>| [f(0), f(1)].concat();
    assert_eq!(joined(&|k| vectors[k].vec_x.clone()), sv(&[2, 12, 12, 54]));
    assert_eq!(joined(&|k| vectors[k].vec_y.clone()), sv(&[6, 28, 28, 18]));
    assert_eq!(joined(&|k| vectors[k].vec_z.clone()), sv(&[4, 12, 36, 108]));
}
