//! Vector and matrix algebra over the scalar field, and the small R1CS
//! instances that the tests are built on.
use vstd::prelude::*;
use crate::field::{Scalar, all_wf, ark_add, ark_mul, ark_pow, ark_square, fadd, fmul, fpow, vals_of};
use crate::index::{DeColIndex, DeRowIndex, DeValEvals};
use crate::nevals::NEvals;

verus! {

/// `sum_{i < n} a_i b_i` in the field.
pub open spec fn dot(a: Seq<nat>, b: Seq<nat>, n: nat) -> nat
    decreases n,
{
    if n == 0 {
        0
    } else {
        fadd(dot(a, b, (n - 1) as nat), fmul(a[n - 1], b[n - 1]))
    }
}

/// `sum_{i < n} m_{i j} v_i` in the field: column `j` of `m` against `v`.
pub open spec fn col_dot(m: Seq<Seq<nat>>, v: Seq<nat>, j: int, n: nat) -> nat
    decreases n,
{
    if n == 0 {
        0
    } else {
        fadd(col_dot(m, v, j, (n - 1) as nat), fmul(m[n - 1][j], v[n - 1]))
    }
}

pub open spec fn min(a: nat, b: nat) -> nat {
    if a <= b {
        a
    } else {
        b
    }
}

/// The values of a matrix, row by row.
pub open spec fn mat_vals(m: Seq<Vec<Scalar>>) -> Seq<Seq<nat>> {
    m.map_values(|r: Vec<Scalar>| vals_of(r@))
}

pub open spec fn matrix_wf(m: Seq<Vec<Scalar>>) -> bool {
    forall|i: int| 0 <= i < m.len() ==> all_wf(#[trigger] m[i]@)
}

/// The inner product of the common prefix of two vectors.
pub fn inner_product(vec_1: &Vec<Scalar>, vec_2: &Vec<Scalar>) -> (r: Scalar)
    requires
        all_wf(vec_1@),
        all_wf(vec_2@),
    ensures
        r.wf(),
        r.val() == dot(vals_of(vec_1@), vals_of(vec_2@), min(vec_1.len() as nat, vec_2.len() as nat)),
{
    let n = if vec_1.len() <= vec_2.len() {
        vec_1.len()
    } else {
        vec_2.len()
    };
    let mut acc = Scalar::zero();
    let mut i: usize = 0;
    while i < n
        invariant
            i <= n,
            n <= vec_1.len() && n <= vec_2.len(),
            all_wf(vec_1@),
            all_wf(vec_2@),
            acc.wf(),
            acc.val() == dot(vals_of(vec_1@), vals_of(vec_2@), i as nat),
        decreases n - i,
    {
        let p = ark_mul(&vec_1[i], &vec_2[i]);
        acc = ark_add(&acc, &p);
        i += 1;
    }
    acc
}

/// The entry-wise product of the common prefix of two vectors.
pub fn entry_product(vec_1: &Vec<Scalar>, vec_2: &Vec<Scalar>) -> (r: Vec<Scalar>)
    requires
        all_wf(vec_1@),
        all_wf(vec_2@),
    ensures
        r.len() == min(vec_1.len() as nat, vec_2.len() as nat),
        all_wf(r@),
        forall|i: int| 0 <= i < r.len() ==> #[trigger] r@[i].val() == fmul(vec_1@[i].val(), vec_2@[i].val()),
{
    let n = if vec_1.len() <= vec_2.len() {
        vec_1.len()
    } else {
        vec_2.len()
    };
    let mut r: Vec<Scalar> = Vec::new();
    let mut i: usize = 0;
    while i < n
        invariant
            i <= n,
            n <= vec_1.len() && n <= vec_2.len(),
            n == min(vec_1.len() as nat, vec_2.len() as nat),
            all_wf(vec_1@),
            all_wf(vec_2@),
            r.len() == i,
            all_wf(r@),
            forall|k: int| 0 <= k < i ==> #[trigger] r@[k].val() == fmul(vec_1@[k].val(), vec_2@[k].val()),
        decreases n - i,
    {
        r.push(ark_mul(&vec_1[i], &vec_2[i]));
        i += 1;
    }
    r
}

/// The product of a matrix (as rows) with a column vector: each row's inner
/// product with `vec`.
pub fn matrix_mul(matrix: &Vec<Vec<Scalar>>, vec: &Vec<Scalar>) -> (r: Vec<Scalar>)
    requires
        matrix.len() >= 1,
        matrix@[0].len() == vec.len(),
        matrix_wf(matrix@),
        all_wf(vec@),
    ensures
        r.len() == matrix.len(),
        all_wf(r@),
        forall|i: int|
            0 <= i < r.len() ==> #[trigger] r@[i].val() == dot(
                vals_of(matrix@[i]@),
                vals_of(vec@),
                min(matrix@[i].len() as nat, vec.len() as nat),
            ),
{
    let mut r: Vec<Scalar> = Vec::new();
    let mut i: usize = 0;
    while i < matrix.len()
        invariant
            i <= matrix.len(),
            matrix_wf(matrix@),
            all_wf(vec@),
            r.len() == i,
            all_wf(r@),
            forall|k: int|
                0 <= k < i ==> #[trigger] r@[k].val() == dot(
                    vals_of(matrix@[k]@),
                    vals_of(vec@),
                    min(matrix@[k].len() as nat, vec.len() as nat),
                ),
        decreases matrix.len() - i,
    {
        assert(all_wf(matrix@[i as int]@));
        r.push(inner_product(&matrix[i], vec));
        i += 1;
    }
    r
}

/// The product of a row vector with a matrix (as rows): entry `j` is column
/// `j` against `vec`, for every column of the first row.
pub fn vec_matrix_mul(vec: &Vec<Scalar>, matrix: &Vec<Vec<Scalar>>) -> (r: Vec<Scalar>)
    requires
        matrix.len() >= 1,
        matrix.len() == vec.len(),
        forall|i: int| 0 <= i < matrix.len() ==> (#[trigger] matrix@[i]).len() >= matrix@[0].len(),
        matrix_wf(matrix@),
        all_wf(vec@),
    ensures
        r.len() == matrix@[0].len(),
        all_wf(r@),
        forall|j: int|
            0 <= j < r.len() ==> #[trigger] r@[j].val() == col_dot(
                mat_vals(matrix@),
                vals_of(vec@),
                j,
                vec.len() as nat,
            ),
{
    let cols = matrix[0].len();
    let mut r: Vec<Scalar> = Vec::new();
    let mut j: usize = 0;
    while j < cols
        invariant
            j <= cols,
            cols == matrix@[0].len(),
            matrix.len() == vec.len(),
            forall|i: int| 0 <= i < matrix.len() ==> (#[trigger] matrix@[i]).len() >= cols,
            matrix_wf(matrix@),
            all_wf(vec@),
            r.len() == j,
            all_wf(r@),
            forall|k: int|
                0 <= k < j ==> #[trigger] r@[k].val() == col_dot(mat_vals(matrix@), vals_of(vec@), k, vec.len() as nat),
        decreases cols - j,
    {
        let mut acc = Scalar::zero();
        let mut i: usize = 0;
        while i < matrix.len()
            invariant
                i <= matrix.len(),
                j < cols,
                matrix.len() == vec.len(),
                forall|i2: int| 0 <= i2 < matrix.len() ==> (#[trigger] matrix@[i2]).len() >= cols,
                matrix_wf(matrix@),
                all_wf(vec@),
                acc.wf(),
                acc.val() == col_dot(mat_vals(matrix@), vals_of(vec@), j as int, i as nat),
            decreases matrix.len() - i,
        {
            assert(all_wf(matrix@[i as int]@));
            assert(matrix@[i as int].len() >= cols);
            assert(mat_vals(matrix@)[i as int] == vals_of(matrix@[i as int]@));
            let p = ark_mul(&matrix[i][j], &vec[i]);
            acc = ark_add(&acc, &p);
            i += 1;
        }
        r.push(acc);
        j += 1;
    }
    r
}

/// Splits a vector at half its length (rounded down).
pub fn split_vector(vec: &Vec<Scalar>) -> (r: (Vec<Scalar>, Vec<Scalar>))
    ensures
        r.0@ == vec@.take((vec.len() / 2) as int),
        r.1@ == vec@.skip((vec.len() / 2) as int),
{
    let mid = vec.len() / 2;
    let mut first: Vec<Scalar> = Vec::new();
    let mut second: Vec<Scalar> = Vec::new();
    let mut i: usize = 0;
    while i < vec.len()
        invariant
            i <= vec.len(),
            mid == vec.len() / 2,
            i <= mid ==> first@ == vec@.take(i as int) && second@.len() == 0,
            i > mid ==> first@ == vec@.take(mid as int) && second@ == vec@.subrange(mid as int, i as int),
        decreases vec.len() - i,
    {
        if i < mid {
            first.push(vec[i]);
            assert(first@ =~= vec@.take(i + 1));
        } else {
            second.push(vec[i]);
            assert(second@ =~= vec@.subrange(mid as int, i + 1));
        }
        i += 1;
    }
    assert(vec@.subrange(mid as int, vec.len() as int) =~= vec@.skip(mid as int));
    if vec.len() == mid {
        assert(first@ =~= vec@.take(mid as int));
        assert(second@ =~= vec@.skip(mid as int));
    }
    (first, second)
}

/// The values of a vector of small constants.
fn consts(xs: &[u64]) -> (r: Vec<Scalar>)
    ensures
        all_wf(r@),
        vals_of(r@) == xs@.map_values(|x: u64| x as nat),
{
    let mut r: Vec<Scalar> = Vec::new();
    let mut i: usize = 0;
    while i < xs.len()
        invariant
            i <= xs.len(),
            all_wf(r@),
            vals_of(r@) == xs@.take(i as int).map_values(|x: u64| x as nat),
        decreases xs.len() - i,
    {
        let ghost r0 = r@;
        let x = Scalar::from_u64(xs[i]);
        r.push(x);
        assert(xs@.take(i + 1) =~= xs@.take(i as int).push(xs@[i as int]));
        assert(r@ =~= r0.push(x));
        assert(vals_of(r@) =~= vals_of(r0).push(x.val()));
        assert(vals_of(r@) =~= xs@.take(i + 1).map_values(|x: u64| x as nat));
        i += 1;
    }
    assert(xs@.take(xs.len() as int) =~= xs@);
    r
}

/// The first example instance: `Pa`, `Pb`, `Pc` of size 4, the witness `w`,
/// and `a = Pa w`, `b = Pb w`, `c = Pc w`, which satisfy `c = a * b` entry
/// by entry.
pub open spec fn init_pa() -> Seq<Seq<nat>> {
    seq![seq![1nat, 0, 0, 0], seq![0nat, 2, 0, 0], seq![0nat, 0, 2, 0], seq![0nat, 0, 0, 1]]
}

pub open spec fn init_pb() -> Seq<Seq<nat>> {
    seq![seq![0nat, 0, 0, 1], seq![0nat, 0, 2, 0], seq![0nat, 2, 0, 0], seq![1nat, 0, 0, 0]]
}

pub open spec fn init_pc() -> Seq<Seq<nat>> {
    seq![seq![2nat, 0, 0, 0], seq![0nat, 4, 0, 0], seq![0nat, 0, 4, 0], seq![0nat, 0, 0, 2]]
}

proof fn lemma_dot4(a: Seq<nat>, b: Seq<nat>)
    requires
        a.len() == 4,
        b.len() == 4,
        forall|i: int| 0 <= i < 4 ==> #[trigger] a[i] < 8 && b[i] < 8,
    ensures
        dot(a, b, 4) == a[0] * b[0] + a[1] * b[1] + a[2] * b[2] + a[3] * b[3],
{
    assert(a[0] < 8 && b[0] < 8 && a[1] < 8 && b[1] < 8 && a[2] < 8 && b[2] < 8 && a[3] < 8 && b[3] < 8);
    lemma_small_prod(a[0], b[0]);
    lemma_small_prod(a[1], b[1]);
    lemma_small_prod(a[2], b[2]);
    lemma_small_prod(a[3], b[3]);
    reveal(fadd);
    let d0 = dot(a, b, 0);
    let d1 = dot(a, b, 1);
    let d2 = dot(a, b, 2);
    let d3 = dot(a, b, 3);
    assert(d0 == 0);
    assert(d1 == fadd(d0, fmul(a[0], b[0])));
    assert(d1 == a[0] * b[0]);
    assert(d2 == fadd(d1, fmul(a[1], b[1])));
    assert(d2 == a[0] * b[0] + a[1] * b[1]);
    assert(d3 == fadd(d2, fmul(a[2], b[2])));
    assert(d3 == a[0] * b[0] + a[1] * b[1] + a[2] * b[2]);
    assert(dot(a, b, 4) == fadd(d3, fmul(a[3], b[3])));
}

proof fn lemma_small_prod(x: nat, y: nat)
    requires
        x < 8,
        y < 8,
    ensures
        x * y < 64,
        fmul(x, y) == x * y,
{
    reveal(fmul);
    assert(x * y < 64) by (nonlinear_arith)
        requires
            x < 8,
            y < 8,
    ;
}

#[verifier::rlimit(40)]
proof fn lemma_col_dot4(m: Seq<Seq<nat>>, v: Seq<nat>, j: int)
    requires
        m.len() == 4,
        v.len() == 4,
        forall|i: int| 0 <= i < 4 ==> #[trigger] m[i][j] < 8 && v[i] < 8,
    ensures
        col_dot(m, v, j, 4) == m[0][j] * v[0] + m[1][j] * v[1] + m[2][j] * v[2] + m[3][j] * v[3],
{
    assert(m[0][j] < 8 && v[0] < 8 && m[1][j] < 8 && v[1] < 8 && m[2][j] < 8 && v[2] < 8 && m[3][j] < 8
        && v[3] < 8);
    lemma_small_prod(m[0][j], v[0]);
    lemma_small_prod(m[1][j], v[1]);
    lemma_small_prod(m[2][j], v[2]);
    lemma_small_prod(m[3][j], v[3]);
    reveal(fadd);
    let d0 = col_dot(m, v, j, 0);
    let d1 = col_dot(m, v, j, 1);
    let d2 = col_dot(m, v, j, 2);
    let d3 = col_dot(m, v, j, 3);
    assert(d1 == fadd(d0, fmul(m[0][j], v[0])));
    assert(d1 == m[0][j] * v[0]);
    assert(d2 == fadd(d1, fmul(m[1][j], v[1])));
    assert(d3 == fadd(d2, fmul(m[2][j], v[2])));
    assert(col_dot(m, v, j, 4) == fadd(d3, fmul(m[3][j], v[3])));
}

/// Builds a 4 x 4 matrix of small constants.
fn const_matrix(rows: [[u64; 4]; 4]) -> (r: Vec<Vec<Scalar>>)
    ensures
        r.len() == 4,
        matrix_wf(r@),
        forall|i: int| 0 <= i < 4 ==> (#[trigger] r@[i]).len() == 4,
        forall|i: int, j: int| 0 <= i < 4 && 0 <= j < 4 ==> (#[trigger] mat_vals(r@)[i][j]) == rows[i][j],
{
    let mut r: Vec<Vec<Scalar>> = Vec::new();
    let mut i: usize = 0;
    while i < 4
        invariant
            i <= 4,
            r.len() == i,
            matrix_wf(r@),
            forall|k: int| 0 <= k < i ==> (#[trigger] r@[k]).len() == 4,
            forall|k: int, j: int|
                0 <= k < i && 0 <= j < 4 ==> (#[trigger] mat_vals(r@)[k][j]) == rows[k][j],
        decreases 4 - i,
    {
        let row = consts(&rows[i]);
        assert(row@.len() == vals_of(row@).len());
        let ghost r0 = r@;
        r.push(row);
        assert(r@ == r0.push(row));
        assert forall|k: int, j: int| 0 <= k <= i && 0 <= j < 4 implies (#[trigger] mat_vals(r@)[k][j])
            == rows[k][j] by {
            assert(mat_vals(r@)[k] == vals_of(r@[k]@));
            if k == i {
                assert(vals_of(row@)[j] == rows[k]@.map_values(|x: u64| x as nat)[j]);
            } else {
                assert(r@[k] == r0[k]);
                assert(mat_vals(r0)[k] == vals_of(r0[k]@));
            }
        }
        i += 1;
    }
    r
}

/// The first example instance: `(Pa, Pb, Pc, w, a, b, c)` with
/// `a = Pa w`, `b = Pb w`, `c = Pc w` and `c = a * b` entry by entry; also
/// `w^T Pa` is all twos.
pub fn init() -> (r: (
    Vec<Vec<Scalar>>,
    Vec<Vec<Scalar>>,
    Vec<Vec<Scalar>>,
    Vec<Scalar>,
    Vec<Scalar>,
    Vec<Scalar>,
    Vec<Scalar>,
))
    ensures
        mat_vals(r.0@) == init_pa(),
        mat_vals(r.1@) == init_pb(),
        mat_vals(r.2@) == init_pc(),
        vals_of(r.3@) == seq![2nat, 1, 1, 2],
        vals_of(r.4@) == seq![2nat, 2, 2, 2],
        vals_of(r.5@) == seq![2nat, 2, 2, 2],
        vals_of(r.6@) == seq![4nat, 4, 4, 4],
        all_wf(r.3@) && all_wf(r.4@) && all_wf(r.5@) && all_wf(r.6@),
        matrix_wf(r.0@) && matrix_wf(r.1@) && matrix_wf(r.2@),
        forall|i: int| 0 <= i < 4 ==> #[trigger] r.6@[i].val() == fmul(r.4@[i].val(), r.5@[i].val()),
{
    let pa = const_matrix([[1, 0, 0, 0], [0, 2, 0, 0], [0, 0, 2, 0], [0, 0, 0, 1]]);
    let pb = const_matrix([[0, 0, 0, 1], [0, 0, 2, 0], [0, 2, 0, 0], [1, 0, 0, 0]]);
    let pc = const_matrix([[2, 0, 0, 0], [0, 4, 0, 0], [0, 0, 4, 0], [0, 0, 0, 2]]);
    let w = consts(&[2, 1, 1, 2]);
    assert(vals_of(w@) =~= seq![2nat, 1, 1, 2]);
    assert(mat_vals(pa@) =~= init_pa()) by {
        assert forall|i: int| 0 <= i < 4 implies #[trigger] mat_vals(pa@)[i] =~= init_pa()[i] by {
            assert forall|j: int| 0 <= j < 4 implies mat_vals(pa@)[i][j] == init_pa()[i][j] by {}
        }
    }
    assert(mat_vals(pb@) =~= init_pb()) by {
        assert forall|i: int| 0 <= i < 4 implies #[trigger] mat_vals(pb@)[i] =~= init_pb()[i] by {
            assert forall|j: int| 0 <= j < 4 implies mat_vals(pb@)[i][j] == init_pb()[i][j] by {}
        }
    }
    assert(mat_vals(pc@) =~= init_pc()) by {
        assert forall|i: int| 0 <= i < 4 implies #[trigger] mat_vals(pc@)[i] =~= init_pc()[i] by {
            assert forall|j: int| 0 <= j < 4 implies mat_vals(pc@)[i][j] == init_pc()[i][j] by {}
        }
    }
    let a = matrix_mul(&pa, &w);
    let b = matrix_mul(&pb, &w);
    let c = matrix_mul(&pc, &w);
    proof {
        assert forall|i: int| 0 <= i < 4 implies #[trigger] a@[i].val() == 2 && b@[i].val() == 2
            && c@[i].val() == 4 by {
            assert(mat_vals(pa@)[i] == vals_of(pa@[i]@));
            assert(mat_vals(pb@)[i] == vals_of(pb@[i]@));
            assert(mat_vals(pc@)[i] == vals_of(pc@[i]@));
            lemma_dot4(vals_of(pa@[i]@), vals_of(w@));
            lemma_dot4(vals_of(pb@[i]@), vals_of(w@));
            lemma_dot4(vals_of(pc@[i]@), vals_of(w@));
        }
        assert(vals_of(a@) =~= seq![2nat, 2, 2, 2]);
        assert(vals_of(b@) =~= seq![2nat, 2, 2, 2]);
        assert(vals_of(c@) =~= seq![4nat, 4, 4, 4]);
    }
    let ab = entry_product(&a, &b);
    let wpa = vec_matrix_mul(&w, &pa);
    proof {
        lemma_small_prod(2, 2);
        assert forall|i: int| 0 <= i < 4 implies #[trigger] ab@[i].val() == c@[i].val() by {}
        assert forall|j: int| 0 <= j < 4 implies #[trigger] wpa@[j].val() == 2 by {
            lemma_col_dot4(mat_vals(pa@), vals_of(w@), j);
        }
    }
    (pa, pb, pc, w, a, b, c)
}

proof fn lemma_vals_split(v: Seq<Scalar>, n: int)
    requires
        0 <= n <= v.len(),
    ensures
        vals_of(v.take(n)) == vals_of(v).take(n),
        vals_of(v.skip(n)) == vals_of(v).skip(n),
{
    assert(vals_of(v.take(n)) =~= vals_of(v).take(n));
    assert(vals_of(v.skip(n)) =~= vals_of(v).skip(n));
}

proof fn lemma_r1cs_halves(v: Seq<Scalar>, v1: Seq<Scalar>, v2: Seq<Scalar>, expected: Seq<nat>)
    requires
        v.len() == 4,
        vals_of(v) == expected,
        v1 == v.take(2),
        v2 == v.skip(2),
    ensures
        vals_of(v1) == expected.take(2),
        vals_of(v2) == expected.skip(2),
{
    lemma_vals_split(v, 2);
}

/// The second example instance, whose sub-matrices hold a number of
/// non-zero entries that is not a power of two.
pub open spec fn distinct_pa() -> Seq<Seq<nat>> {
    seq![seq![2nat, 0, 0, 0], seq![0nat, 1, 1, 0], seq![0nat, 1, 1, 0], seq![0nat, 0, 0, 2]]
}

pub open spec fn distinct_pb() -> Seq<Seq<nat>> {
    seq![seq![0nat, 1, 1, 0], seq![2nat, 0, 0, 0], seq![0nat, 0, 0, 2], seq![0nat, 1, 1, 0]]
}

pub open spec fn distinct_pc() -> Seq<Seq<nat>> {
    seq![seq![4nat, 0, 0, 0], seq![0nat, 4, 0, 0], seq![0nat, 0, 4, 0], seq![0nat, 0, 0, 4]]
}

fn usizes(xs: &[usize]) -> (r: Vec<usize>)
    ensures
        r@ == xs@,
{
    let mut r: Vec<usize> = Vec::new();
    let mut i: usize = 0;
    while i < xs.len()
        invariant
            i <= xs.len(),
            r@ == xs@.take(i as int),
        decreases xs.len() - i,
    {
        r.push(xs[i]);
        assert(r@ =~= xs@.take(i + 1));
        i += 1;
    }
    assert(xs@.take(xs.len() as int) =~= xs@);
    r
}

/// The index parts of the second example instance, and its frequencies.
fn distinct_index() -> (r: (Vec<DeRowIndex>, Vec<DeColIndex>, Vec<DeValEvals>, NEvals))
    ensures
        distinct_index_is(r.0@, r.1@, r.2@, r.3),
{
    let row_1 = DeRowIndex {
        row_pa_low: usizes(&[0, 1, 0, 0]),
        row_pa_high: usizes(&[0, 0, 1, 0]),
        row_pb_low: usizes(&[0, 1, 1, 0]),
        row_pb_high: usizes(&[0, 0, 1, 0]),
        row_pc_low: usizes(&[0, 1, 0, 0]),
        row_pc_high: usizes(&[0, 0, 0, 0]),
    };
    let row_2 = DeRowIndex {
        row_pa_low: usizes(&[1, 0, 1, 0]),
        row_pa_high: usizes(&[0, 1, 1, 0]),
        row_pb_low: usizes(&[0, 0, 1, 0]),
        row_pb_high: usizes(&[0, 1, 1, 0]),
        row_pc_low: usizes(&[0, 1, 0, 0]),
        row_pc_high: usizes(&[1, 1, 0, 0]),
    };
    let col_1 = DeColIndex {
        col_pa: usizes(&[0, 1, 1, 0]),
        col_pb: usizes(&[1, 0, 1, 0]),
        col_pc: usizes(&[0, 1, 0, 0]),
    };
    let col_2 = DeColIndex {
        col_pa: usizes(&[0, 0, 1, 0]),
        col_pb: usizes(&[0, 1, 0, 0]),
        col_pc: usizes(&[0, 1, 0, 0]),
    };
    let val_1 = DeValEvals {
        evals_val_pa: consts(&[2, 1, 1, 0]),
        evals_val_pb: consts(&[1, 2, 1, 0]),
        evals_val_pc: consts(&[4, 4, 0, 0]),
    };
    let val_2 = DeValEvals {
        evals_val_pa: consts(&[1, 1, 2, 0]),
        evals_val_pb: consts(&[1, 2, 1, 0]),
        evals_val_pc: consts(&[4, 4, 0, 0]),
    };
    let n = NEvals {
        row_pa_low: consts(&[5, 3]),
        row_pa_high: consts(&[5, 3]),
        row_pb_low: consts(&[5, 3]),
        row_pb_high: consts(&[5, 3]),
        row_pc_low: consts(&[6, 2]),
        row_pc_high: consts(&[6, 2]),
        col_pa: consts(&[5, 3]),
        col_pb: consts(&[5, 3]),
        col_pc: consts(&[6, 2]),
    };
    proof {
        assert(vals_of(val_1.evals_val_pa@) =~= seq![2nat, 1, 1, 0]);
        assert(vals_of(val_1.evals_val_pb@) =~= seq![1nat, 2, 1, 0]);
        assert(vals_of(val_1.evals_val_pc@) =~= seq![4nat, 4, 0, 0]);
        assert(vals_of(val_2.evals_val_pa@) =~= seq![1nat, 1, 2, 0]);
        assert(vals_of(val_2.evals_val_pb@) =~= seq![1nat, 2, 1, 0]);
        assert(vals_of(val_2.evals_val_pc@) =~= seq![4nat, 4, 0, 0]);
        assert(vals_of(n.row_pa_low@) =~= seq![5nat, 3]);
        assert(vals_of(n.row_pa_high@) =~= seq![5nat, 3]);
        assert(vals_of(n.row_pb_low@) =~= seq![5nat, 3]);
        assert(vals_of(n.row_pb_high@) =~= seq![5nat, 3]);
        assert(vals_of(n.row_pc_low@) =~= seq![6nat, 2]);
        assert(vals_of(n.row_pc_high@) =~= seq![6nat, 2]);
        assert(vals_of(n.col_pa@) =~= seq![5nat, 3]);
        assert(vals_of(n.col_pb@) =~= seq![5nat, 3]);
        assert(vals_of(n.col_pc@) =~= seq![6nat, 2]);
    }
    let rows = vec![row_1, row_2];
    let cols = vec![col_1, col_2];
    let vals = vec![val_1, val_2];
    assert(rows@ =~= seq![row_1, row_2]);
    assert(cols@ =~= seq![col_1, col_2]);
    assert(vals@ =~= seq![val_1, val_2]);
    (rows, cols, vals, n)
}

/// The index parts and frequencies of the second example instance.
pub open spec fn distinct_index_is(
    rows: Seq<DeRowIndex>,
    cols: Seq<DeColIndex>,
    vals: Seq<DeValEvals>,
    n: NEvals,
) -> bool {
    &&& rows.len() == 2 && cols.len() == 2 && vals.len() == 2
    &&& rows[0].row_pa_low@ == seq![0usize, 1, 0, 0] && rows[0].row_pa_high@ == seq![0usize, 0, 1, 0]
    &&& rows[0].row_pb_low@ == seq![0usize, 1, 1, 0] && rows[0].row_pb_high@ == seq![0usize, 0, 1, 0]
    &&& rows[0].row_pc_low@ == seq![0usize, 1, 0, 0] && rows[0].row_pc_high@ == seq![0usize, 0, 0, 0]
    &&& rows[1].row_pa_low@ == seq![1usize, 0, 1, 0] && rows[1].row_pa_high@ == seq![0usize, 1, 1, 0]
    &&& rows[1].row_pb_low@ == seq![0usize, 0, 1, 0] && rows[1].row_pb_high@ == seq![0usize, 1, 1, 0]
    &&& rows[1].row_pc_low@ == seq![0usize, 1, 0, 0] && rows[1].row_pc_high@ == seq![1usize, 1, 0, 0]
    &&& cols[0].col_pa@ == seq![0usize, 1, 1, 0] && cols[0].col_pb@ == seq![1usize, 0, 1, 0]
    &&& cols[0].col_pc@ == seq![0usize, 1, 0, 0]
    &&& cols[1].col_pa@ == seq![0usize, 0, 1, 0] && cols[1].col_pb@ == seq![0usize, 1, 0, 0]
    &&& cols[1].col_pc@ == seq![0usize, 1, 0, 0]
    &&& vals_of(vals[0].evals_val_pa@) == seq![2nat, 1, 1, 0]
    &&& vals_of(vals[0].evals_val_pb@) == seq![1nat, 2, 1, 0]
    &&& vals_of(vals[0].evals_val_pc@) == seq![4nat, 4, 0, 0]
    &&& vals_of(vals[1].evals_val_pa@) == seq![1nat, 1, 2, 0]
    &&& vals_of(vals[1].evals_val_pb@) == seq![1nat, 2, 1, 0]
    &&& vals_of(vals[1].evals_val_pc@) == seq![4nat, 4, 0, 0]
    &&& vals_of(n.row_pa_low@) == seq![5nat, 3] && vals_of(n.row_pa_high@) == seq![5nat, 3]
    &&& vals_of(n.row_pb_low@) == seq![5nat, 3] && vals_of(n.row_pb_high@) == seq![5nat, 3]
    &&& vals_of(n.row_pc_low@) == seq![6nat, 2] && vals_of(n.row_pc_high@) == seq![6nat, 2]
    &&& vals_of(n.col_pa@) == seq![5nat, 3] && vals_of(n.col_pb@) == seq![5nat, 3]
    &&& vals_of(n.col_pc@) == seq![6nat, 2]
}

/// The matrices, witness and products of the second example instance,
/// checked to satisfy `c = a * b` entry by entry.
fn distinct_matrices() -> (r: (
    Vec<Vec<Scalar>>,
    Vec<Vec<Scalar>>,
    Vec<Vec<Scalar>>,
    Vec<Scalar>,
    Vec<Scalar>,
    Vec<Scalar>,
    Vec<Scalar>,
))
    ensures
        mat_vals(r.0@) == distinct_pa(),
        mat_vals(r.1@) == distinct_pb(),
        mat_vals(r.2@) == distinct_pc(),
        vals_of(r.3@) == seq![1nat, 1, 1, 1],
        vals_of(r.4@) == seq![2nat, 2, 2, 2],
        vals_of(r.5@) == seq![2nat, 2, 2, 2],
        vals_of(r.6@) == seq![4nat, 4, 4, 4],
        all_wf(r.3@) && all_wf(r.4@) && all_wf(r.5@) && all_wf(r.6@),
        matrix_wf(r.0@) && matrix_wf(r.1@) && matrix_wf(r.2@),
        r.0.len() == 4 && r.1.len() == 4 && r.2.len() == 4,
        r.3.len() == 4 && r.4.len() == 4 && r.5.len() == 4 && r.6.len() == 4,
        forall|i: int| 0 <= i < 4 ==> (#[trigger] r.0@[i]).len() == 4 && r.1@[i].len() == 4 && r.2@[i].len() == 4,
{
    let pa = const_matrix([[2, 0, 0, 0], [0, 1, 1, 0], [0, 1, 1, 0], [0, 0, 0, 2]]);
    let pb = const_matrix([[0, 1, 1, 0], [2, 0, 0, 0], [0, 0, 0, 2], [0, 1, 1, 0]]);
    let pc = const_matrix([[4, 0, 0, 0], [0, 4, 0, 0], [0, 0, 4, 0], [0, 0, 0, 4]]);
    let w = consts(&[1, 1, 1, 1]);
    assert(vals_of(w@) =~= seq![1nat, 1, 1, 1]);
    assert(mat_vals(pa@) =~= distinct_pa()) by {
        assert forall|i: int| 0 <= i < 4 implies #[trigger] mat_vals(pa@)[i] =~= distinct_pa()[i] by {
            assert forall|j: int| 0 <= j < 4 implies mat_vals(pa@)[i][j] == distinct_pa()[i][j] by {}
        }
    }
    assert(mat_vals(pb@) =~= distinct_pb()) by {
        assert forall|i: int| 0 <= i < 4 implies #[trigger] mat_vals(pb@)[i] =~= distinct_pb()[i] by {
            assert forall|j: int| 0 <= j < 4 implies mat_vals(pb@)[i][j] == distinct_pb()[i][j] by {}
        }
    }
    assert(mat_vals(pc@) =~= distinct_pc()) by {
        assert forall|i: int| 0 <= i < 4 implies #[trigger] mat_vals(pc@)[i] =~= distinct_pc()[i] by {
            assert forall|j: int| 0 <= j < 4 implies mat_vals(pc@)[i][j] == distinct_pc()[i][j] by {}
        }
    }
    let a = matrix_mul(&pa, &w);
    let b = matrix_mul(&pb, &w);
    let c = matrix_mul(&pc, &w);
    proof {
        assert forall|i: int| 0 <= i < 4 implies #[trigger] a@[i].val() == 2 && b@[i].val() == 2
            && c@[i].val() == 4 by {
            assert(mat_vals(pa@)[i] == vals_of(pa@[i]@));
            assert(mat_vals(pb@)[i] == vals_of(pb@[i]@));
            assert(mat_vals(pc@)[i] == vals_of(pc@[i]@));
            lemma_dot4(vals_of(pa@[i]@), vals_of(w@));
            lemma_dot4(vals_of(pb@[i]@), vals_of(w@));
            lemma_dot4(vals_of(pc@[i]@), vals_of(w@));
        }
        assert(vals_of(a@) =~= seq![2nat, 2, 2, 2]);
        assert(vals_of(b@) =~= seq![2nat, 2, 2, 2]);
        assert(vals_of(c@) =~= seq![4nat, 4, 4, 4]);
    }
    let ab = entry_product(&a, &b);
    proof {
        lemma_small_prod(2, 2);
        lemma_small_prod(2, 2);
        assert forall|i: int| 0 <= i < 4 implies #[trigger] ab@[i].val() == c@[i].val() by {}
    }
    (pa, pb, pc, w, a, b, c)
}

/// The second example instance: `(Pa, Pb, Pc, w, a, b, c)` as in `init`,
/// with `c = a * b` entry by entry, and the index of its two sub-provers
/// (padded to four entries) with the frequencies.
pub fn init_distinct_m_m_prime() -> (r: (
    Vec<Vec<Scalar>>,
    Vec<Vec<Scalar>>,
    Vec<Vec<Scalar>>,
    Vec<Scalar>,
    Vec<Scalar>,
    Vec<Scalar>,
    Vec<Scalar>,
    Vec<DeRowIndex>,
    Vec<DeColIndex>,
    Vec<DeValEvals>,
    NEvals,
))
    ensures
        mat_vals(r.0@) == distinct_pa(),
        mat_vals(r.1@) == distinct_pb(),
        mat_vals(r.2@) == distinct_pc(),
        vals_of(r.3@) == seq![1nat, 1, 1, 1],
        vals_of(r.4@) == seq![2nat, 2, 2, 2],
        vals_of(r.5@) == seq![2nat, 2, 2, 2],
        vals_of(r.6@) == seq![4nat, 4, 4, 4],
        all_wf(r.3@) && all_wf(r.4@) && all_wf(r.5@) && all_wf(r.6@),
        matrix_wf(r.0@) && matrix_wf(r.1@) && matrix_wf(r.2@),
        forall|i: int| 0 <= i < 4 ==> #[trigger] r.6@[i].val() == fmul(r.4@[i].val(), r.5@[i].val()),
        distinct_index_is(r.7@, r.8@, r.9@, r.10),
{
    proof {
        lemma_small_prod(2, 2);
    }
    let (pa, pb, pc, w, a, b, c) = distinct_matrices();
    let (row, col, val_evals, n) = distinct_index();
    (pa, pb, pc, w, a, b, c, row, col, val_evals, n)
}

/// The public and witness vectors of one sub-prover of an R1CS instance.
pub struct R1CSVectors {
    pub vec_x: Vec<Scalar>,
    pub vec_y: Vec<Scalar>,
    pub vec_z: Vec<Scalar>,
    pub vec_w: Vec<Scalar>,
    pub vec_a: Vec<Scalar>,
    pub vec_b: Vec<Scalar>,
    pub vec_c: Vec<Scalar>,
}

/// The powers `1, r, r^2, r^3` of the challenge.
pub open spec fn r_powers(r: nat) -> Seq<nat> {
    seq![1nat, r, fmul(r, r), fpow(r, 3)]
}

/// Columns `from .. from + 2` of `m` against the powers of `r`.
pub open spec fn half_of_r_times(m: Seq<Seq<nat>>, r: nat, from: int) -> Seq<nat> {
    Seq::new(2, |j: int| col_dot(m, r_powers(r), j + from, 4))
}

/// The second example instance split between two sub-provers, with the
/// public vectors `x = r^T Pa`, `y = r^T Pb`, `z = r^T Pc` for
/// `r^T = (1, r, r^2, r^3)`, each vector cut in halves, together with the
/// index and frequencies of `init_distinct_m_m_prime`.
pub fn init_r1cs_example(r: &Scalar) -> (res: (
    Vec<R1CSVectors>,
    Vec<DeRowIndex>,
    Vec<DeColIndex>,
    Vec<DeValEvals>,
    NEvals,
))
    requires
        r.wf(),
    ensures
        res.0.len() == 2,
        forall|k: int|
            0 <= k < 2 ==> {
                let v = #[trigger] res.0@[k];
                &&& vals_of(v.vec_x@) == half_of_r_times(distinct_pa(), r.val(), 2 * k)
                &&& vals_of(v.vec_y@) == half_of_r_times(distinct_pb(), r.val(), 2 * k)
                &&& vals_of(v.vec_z@) == half_of_r_times(distinct_pc(), r.val(), 2 * k)
                &&& vals_of(v.vec_w@) == seq![1nat, 1]
                &&& vals_of(v.vec_a@) == seq![2nat, 2]
                &&& vals_of(v.vec_b@) == seq![2nat, 2]
                &&& vals_of(v.vec_c@) == seq![4nat, 4]
            },
        distinct_index_is(res.1@, res.2@, res.3@, res.4),
        ({
            let x = vals_of(res.0@[0].vec_x@) + vals_of(res.0@[1].vec_x@);
            let y = vals_of(res.0@[0].vec_y@) + vals_of(res.0@[1].vec_y@);
            let z = vals_of(res.0@[0].vec_z@) + vals_of(res.0@[1].vec_z@);
            let (r1, r2, r3) = (r.val(), fmul(r.val(), r.val()), fpow(r.val(), 3));
            &&& x == seq![2nat, fadd(r1, r2), fadd(r1, r2), fmul(2, r3)]
            &&& y == seq![fmul(2, r1), fadd(1, r3), fadd(1, r3), fmul(2, r2)]
            &&& z == seq![4nat, fmul(4, r1), fmul(4, r2), fmul(4, r3)]
        }),
        forall|k: int, i: int|
            0 <= k < 2 && 0 <= i < 2 ==> #[trigger] vals_of(res.0@[k].vec_c@)[i] == fmul(
                vals_of(res.0@[k].vec_a@)[i],
                vals_of(res.0@[k].vec_b@)[i],
            ),
{
    let (pa, pb, pc, w, a, b, c) = distinct_matrices();
    let (w_1, w_2) = split_vector(&w);
    let (a_1, a_2) = split_vector(&a);
    let (b_1, b_2) = split_vector(&b);
    let (c_1, c_2) = split_vector(&c);
    let f_one = Scalar::one();
    let r2 = ark_square(r);
    let r3 = ark_pow(r, 3);
    let vec_r = vec![f_one, *r, r2, r3];
    assert(vals_of(vec_r@) =~= r_powers(r.val())) by {
        reveal_with_fuel(fpow, 4);
    }
    assert(all_wf(vec_r@));
    let x = vec_matrix_mul(&vec_r, &pa);
    let y = vec_matrix_mul(&vec_r, &pb);
    let z = vec_matrix_mul(&vec_r, &pc);
    let (x_1, x_2) = split_vector(&x);
    let (y_1, y_2) = split_vector(&y);
    let (z_1, z_2) = split_vector(&z);
    let (row, col, val_evals, n) = distinct_index();
    proof {
        lemma_r1cs_halves(w@, w_1@, w_2@, seq![1nat, 1, 1, 1]);
        lemma_r1cs_halves(a@, a_1@, a_2@, seq![2nat, 2, 2, 2]);
        lemma_r1cs_halves(b@, b_1@, b_2@, seq![2nat, 2, 2, 2]);
        lemma_r1cs_halves(c@, c_1@, c_2@, seq![4nat, 4, 4, 4]);
        assert(vals_of(x@) =~= Seq::new(4, |j: int| col_dot(distinct_pa(), r_powers(r.val()), j, 4)));
        assert(vals_of(y@) =~= Seq::new(4, |j: int| col_dot(distinct_pb(), r_powers(r.val()), j, 4)));
        assert(vals_of(z@) =~= Seq::new(4, |j: int| col_dot(distinct_pc(), r_powers(r.val()), j, 4)));
        lemma_r1cs_halves(x@, x_1@, x_2@, Seq::new(4, |j: int| col_dot(distinct_pa(), r_powers(r.val()), j, 4)));
        lemma_r1cs_halves(y@, y_1@, y_2@, Seq::new(4, |j: int| col_dot(distinct_pb(), r_powers(r.val()), j, 4)));
        lemma_r1cs_halves(z@, z_1@, z_2@, Seq::new(4, |j: int| col_dot(distinct_pc(), r_powers(r.val()), j, 4)));
        assert(seq![1nat, 1, 1, 1].take(2) =~= seq![1nat, 1]);
        assert(seq![1nat, 1, 1, 1].skip(2) =~= seq![1nat, 1]);
        assert(seq![2nat, 2, 2, 2].take(2) =~= seq![2nat, 2]);
        assert(seq![2nat, 2, 2, 2].skip(2) =~= seq![2nat, 2]);
        assert(seq![4nat, 4, 4, 4].take(2) =~= seq![4nat, 4]);
        assert(seq![4nat, 4, 4, 4].skip(2) =~= seq![4nat, 4]);
        assert(Seq::new(4, |j: int| col_dot(distinct_pa(), r_powers(r.val()), j, 4)).take(2) =~= half_of_r_times(distinct_pa(), r.val(), 0));
        assert(Seq::new(4, |j: int| col_dot(distinct_pa(), r_powers(r.val()), j, 4)).skip(2) =~= half_of_r_times(distinct_pa(), r.val(), 2));
        assert(Seq::new(4, |j: int| col_dot(distinct_pb(), r_powers(r.val()), j, 4)).take(2) =~= half_of_r_times(distinct_pb(), r.val(), 0));
        assert(Seq::new(4, |j: int| col_dot(distinct_pb(), r_powers(r.val()), j, 4)).skip(2) =~= half_of_r_times(distinct_pb(), r.val(), 2));
        assert(Seq::new(4, |j: int| col_dot(distinct_pc(), r_powers(r.val()), j, 4)).take(2) =~= half_of_r_times(distinct_pc(), r.val(), 0));
        assert(Seq::new(4, |j: int| col_dot(distinct_pc(), r_powers(r.val()), j, 4)).skip(2) =~= half_of_r_times(distinct_pc(), r.val(), 2));
    }
    let r1cs_vec_1 = R1CSVectors {
        vec_x: x_1,
        vec_y: y_1,
        vec_z: z_1,
        vec_w: w_1,
        vec_a: a_1,
        vec_b: b_1,
        vec_c: c_1,
    };
    let r1cs_vec_2 = R1CSVectors {
        vec_x: x_2,
        vec_y: y_2,
        vec_z: z_2,
        vec_w: w_2,
        vec_a: a_2,
        vec_b: b_2,
        vec_c: c_2,
    };
    proof {
        law_r1cs_example_vectors(r.val());
    }
    (vec![r1cs_vec_1, r1cs_vec_2], row, col, val_evals, n)
}

/// Multiplying by zero or one, and adding zero, in the field.
proof fn lemma_field_units(x: nat)
    ensures
        fmul(0, x) == 0,
        x < crate::field::modulus() ==> fmul(1, x) == x && fadd(0, x) == x && fadd(x, 0) == x,
{
    reveal(fadd);
    reveal(fmul);
    assert(0 * x == 0);
    vstd::arithmetic::div_mod::lemma_small_mod(0, crate::field::modulus());
    if x < crate::field::modulus() {
        vstd::arithmetic::div_mod::lemma_small_mod(x, crate::field::modulus());
    }
}

/// Field results are canonical.
proof fn lemma_field_canonical(a: nat, b: nat)
    ensures
        fmul(a, b) < crate::field::modulus(),
        fadd(a, b) < crate::field::modulus(),
{
    reveal(fadd);
    reveal(fmul);
}

/// `r^T Pa`, `r^T Pb`, `r^T Pc` for `r^T = (1, r, r^2, r^3)`, the vectors
/// whose halves `init_r1cs_example` hands the two sub-provers, written out:
/// `(2, r + r^2, r + r^2, 2 r^3)`, `(2 r, 1 + r^3, 1 + r^3, 2 r^2)` and
/// `(4, 4 r, 4 r^2, 4 r^3)`; and `c = a * b` for its witness halves.
pub proof fn law_r1cs_example_vectors(r: nat)
    requires
        r < crate::field::modulus(),
    ensures
        half_of_r_times(distinct_pa(), r, 0) + half_of_r_times(distinct_pa(), r, 2) == seq![
            2nat,
            fadd(r, fmul(r, r)),
            fadd(r, fmul(r, r)),
            fmul(2, fpow(r, 3)),
        ],
        half_of_r_times(distinct_pb(), r, 0) + half_of_r_times(distinct_pb(), r, 2) == seq![
            fmul(2, r),
            fadd(1, fpow(r, 3)),
            fadd(1, fpow(r, 3)),
            fmul(2, fmul(r, r)),
        ],
        half_of_r_times(distinct_pc(), r, 0) + half_of_r_times(distinct_pc(), r, 2) == seq![
            4nat,
            fmul(4, r),
            fmul(4, fmul(r, r)),
            fmul(4, fpow(r, 3)),
        ],
        fmul(2, 2) == 4,
{
    let v = r_powers(r);
    let r2 = fmul(r, r);
    let r3 = fpow(r, 3);
    assert(r3 == fmul(fmul(fmul(1, r), r), r)) by {
        reveal_with_fuel(fpow, 4);
    }
    lemma_field_canonical(fmul(fmul(1, r), r), r);
    lemma_field_canonical(r, r);
    lemma_field_units(1);
    lemma_field_units(r);
    lemma_field_units(r2);
    lemma_field_units(r3);
    lemma_small_prod(2, 1);
    lemma_small_prod(4, 1);
    lemma_small_prod(2, 2);
    lemma_field_canonical(r, r2);
    lemma_field_canonical(1, r3);
    lemma_field_units(fadd(r, r2));
    lemma_field_units(fadd(1, r3));
    lemma_field_canonical(2, r);
    lemma_field_canonical(2, r2);
    lemma_field_canonical(2, r3);
    lemma_field_canonical(4, r);
    lemma_field_canonical(4, r2);
    lemma_field_canonical(4, r3);
    lemma_field_units(fmul(2, r));
    lemma_field_units(fmul(2, r2));
    lemma_field_units(fmul(2, r3));
    lemma_field_units(fmul(4, r));
    lemma_field_units(fmul(4, r2));
    lemma_field_units(fmul(4, r3));
    assert forall|mm: Seq<Seq<nat>>, j: int| #![auto] mm.len() == 4 implies col_dot(mm, v, j, 4) == fadd(
        fadd(fadd(fadd(0, fmul(mm[0][j], 1)), fmul(mm[1][j], r)), fmul(mm[2][j], r2)),
        fmul(mm[3][j], r3),
    ) by {
        reveal_with_fuel(col_dot, 5);
    }
    lemma_field_units(0);
    lemma_field_units(2);
    lemma_field_units(4);
    lemma_small_prod(0, 1);
    lemma_small_prod(1, 1);
    assert(fadd(0, 0) == 0);
    let pa = distinct_pa();
    let pb = distinct_pb();
    let pc = distinct_pc();
    assert(col_dot(pa, v, 0, 4) == 2);
    assert(col_dot(pa, v, 1, 4) == fadd(r, r2));
    assert(col_dot(pa, v, 2, 4) == fadd(r, r2));
    assert(col_dot(pa, v, 3, 4) == fmul(2, r3));
    assert(col_dot(pb, v, 0, 4) == fmul(2, r));
    assert(col_dot(pb, v, 1, 4) == fadd(1, r3));
    assert(col_dot(pb, v, 2, 4) == fadd(1, r3));
    assert(col_dot(pb, v, 3, 4) == fmul(2, r2));
    assert(col_dot(pc, v, 0, 4) == 4);
    assert(col_dot(pc, v, 1, 4) == fmul(4, r));
    assert(col_dot(pc, v, 2, 4) == fmul(4, r2));
    assert(col_dot(pc, v, 3, 4) == fmul(4, r3));
    assert(half_of_r_times(pa, r, 0) + half_of_r_times(pa, r, 2) =~= seq![
        2nat,
        fadd(r, r2),
        fadd(r, r2),
        fmul(2, r3),
    ]);
    assert(half_of_r_times(pb, r, 0) + half_of_r_times(pb, r, 2) =~= seq![
        fmul(2, r),
        fadd(1, r3),
        fadd(1, r3),
        fmul(2, r2),
    ]);
    assert(half_of_r_times(pc, r, 0) + half_of_r_times(pc, r, 2) =~= seq![
        4nat,
        fmul(4, r),
        fmul(4, r2),
        fmul(4, r3),
    ]);
}

/// The transpose of `m`, cut to `ncols` columns.
pub open spec fn transpose(m: Seq<Seq<nat>>, ncols: nat) -> Seq<Seq<nat>> {
    Seq::new(ncols, |j: int| Seq::new(m.len(), |i: int| m[i][j]))
}

proof fn lemma_col_dot_transpose(m: Seq<Seq<nat>>, v: Seq<nat>, ncols: nat, j: int, n: nat)
    requires
        0 <= j < ncols,
        n <= m.len(),
    ensures
        col_dot(m, v, j, n) == dot(transpose(m, ncols)[j], v, n),
    decreases n,
{
    if n > 0 {
        lemma_col_dot_transpose(m, v, ncols, j, (n - 1) as nat);
    }
}

/// `v^T M = M^T v`: every entry of the vector-matrix product `v^T M`, a
/// column of `M` against `v`, is the matching entry of the matrix-vector
/// product of the transpose of `M` with `v`.
pub proof fn law_vec_matrix_mul_is_transposed_product(m: Seq<Seq<nat>>, v: Seq<nat>, ncols: nat)
    requires
        v.len() == m.len(),
    ensures
        forall|j: int|
            0 <= j < ncols ==> #[trigger] col_dot(m, v, j, v.len()) == dot(
                transpose(m, ncols)[j],
                v,
                min(transpose(m, ncols)[j].len(), v.len()),
            ),
{
    assert forall|j: int| 0 <= j < ncols implies #[trigger] col_dot(m, v, j, v.len()) == dot(
        transpose(m, ncols)[j],
        v,
        min(transpose(m, ncols)[j].len(), v.len()),
    ) by {
        lemma_col_dot_transpose(m, v, ncols, j, v.len());
    }
}

} // verus!
