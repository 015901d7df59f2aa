use ark_bn254::Fr;
use ark_ff::{BigInt, Field, PrimeField};
use my_snark::arith::{decompose, isqrt, next_power_of_two};
use my_snark::csr::ConstraintMatrices;
use my_snark::field::Scalar;
use my_snark::index::{DeColIndex, DeRowIndex, DeValEvals, Indexer};
use my_snark::nevals::RawNEvals;

/// One matrix in compressed-row form, from its rows of `(value, column)`.
fn csr(rows: &[Vec<(u64, usize)>]) -> (Vec<(Scalar, usize)>, Vec<usize>) {
    let mut entries = Vec::new();
    let mut ends = Vec::new();
    for row in rows {
        for (v, c) in row {
            entries.push((Scalar::from_u64(*v), *c));
        }
        ends.push(entries.len());
    }
    (entries, ends)
}

/// The constraint system of `blocks` copies of the block: `m / 3`
/// constraints `a_j * b_j = c_j` on fresh witnesses, one spare witness, then
/// empty constraints up to `m` rows. Column 0 is the constant one, so the
/// witnesses of copy `k` start at column `1 + m k`.
fn mul_gates(m: usize, blocks: usize) -> ConstraintMatrices {
    let mut a = Vec::new();
    let mut b = Vec::new();
    let mut c = Vec::new();
    for k in 0..blocks {
        for j in 0..(m / 3) {
            let base = 1 + k * m + 3 * j;
            a.push(vec![(1, base)]);
            b.push(vec![(1, base + 1)]);
            c.push(vec![(1, base + 2)]);
        }
        for _ in (m / 3)..m {
            a.push(vec![]);
            b.push(vec![]);
            c.push(vec![]);
        }
    }
    ConstraintMatrices { a: csr(&a), b: csr(&b), c: csr(&c) }
}

#[test]
fn data_parallel_test() {
    let m = 1 << 4;
    let l = 4;

    let (rows, cols, vals, true_m_prime) =
        Indexer::build_de_r1cs_index(l, m, &mul_gates(m, l)).unwrap();

    let n_evals = Indexer::build_n_evals(&rows, &cols, l, m, true_m_prime);

    let cs_matrix = mul_gates(m, 1);
    for k in 0..l {
        let (row, col, val, m_prime, paddings) =
            Indexer::de_build_de_r1cs_index_data_parallel(k, l, m, &cs_matrix).unwrap();
        assert_eq!(row, rows[k]);
        assert_eq!(col, cols[k]);
        assert_eq!(val, vals[k]);
        assert_eq!(m_prime, true_m_prime);
        let n = Indexer::build_n_evals_data_parallel(&row, &col, l, m, m_prime, paddings);
        assert_eq!(n, n_evals);
    }
}

#[test]
fn global_index_of_mul_gates() {
    let m = 16;
    let l = 4;
    let (rows, cols, vals, m_prime) = Indexer::build_de_r1cs_index(l, m, &mul_gates(m, l)).unwrap();
    // five entries per block in each matrix, padded to eight
    assert_eq!(m_prime, 8);
    // rows 16 k + j split in base sqrt(64) = 8
    assert_eq!(rows[1].row_pa_low, vec![0, 1, 2, 3, 4, 0, 0, 0]);
    assert_eq!(rows[1].row_pa_high, vec![2, 2, 2, 2, 2, 0, 0, 0]);
    assert_eq!(cols[1].col_pa, vec![1, 4, 7, 10, 13, 0, 0, 0]);
    assert_eq!(cols[2].col_pc, vec![3, 6, 9, 12, 15, 0, 0, 0]);
    let one = Scalar::from_u64(1);
    let zero = Scalar::zero();
    assert_eq!(vals[3].evals_val_pb, vec![one, one, one, one, one, zero, zero, zero]);
}

#[test]
fn distributed_index_matches_global() {
    let m = 16;
    let l = 4;
    let cs = mul_gates(m, l);
    let (rows, cols, vals, m_prime) = Indexer::build_de_r1cs_index(l, m, &cs).unwrap();
    let mut locals = Vec::new();
    let mut proposals = Vec::new();
    for k in 0..l {
        let (row, col, val, counts) = Indexer::de_collect_local_index(k, l, m, &cs);
        proposals.push(Indexer::de_local_pow_of_two(counts));
        locals.push((row, col, val, counts));
    }
    let n = Indexer::de_max_pow_of_two(&proposals);
    assert_eq!(n, m_prime);
    let mut all_paddings = Vec::new();
    for (k, (row, col, val, counts)) in locals.into_iter().enumerate() {
        let (row, col, val, paddings) = Indexer::de_pad_local_index(row, col, val, counts, n);
        assert_eq!(row, rows[k]);
        assert_eq!(col, cols[k]);
        assert_eq!(val, vals[k]);
        assert_eq!(paddings, (3, 3, 3));
        all_paddings.push(paddings);
    }
    assert_eq!(Indexer::de_sum_paddings(&all_paddings), (12, 12, 12));
}

#[test]
fn uneven_blocks_pad_to_largest_share() {
    // two sub-provers of two columns; the first owns three entries of Pa
    let a = csr(&[vec![(5, 0), (6, 1)], vec![(7, 1)], vec![], vec![(8, 3)]]);
    let b = csr(&[vec![], vec![], vec![], vec![]]);
    let c = csr(&[vec![(9, 2)], vec![], vec![], vec![]]);
    let cs = ConstraintMatrices { a, b, c };
    let (rows, cols, vals, n) = Indexer::build_de_r1cs_index(2, 2, &cs).unwrap();
    assert_eq!(n, 4);
    assert_eq!(rows[0].row_pa_low, vec![0, 0, 1, 0]);
    assert_eq!(rows[0].row_pa_high, vec![0, 0, 0, 0]);
    assert_eq!(cols[0].col_pa, vec![0, 1, 1, 0]);
    assert_eq!(rows[1].row_pa_low, vec![1, 0, 0, 0]);
    assert_eq!(rows[1].row_pa_high, vec![1, 0, 0, 0]);
    assert_eq!(cols[1].col_pa, vec![1, 0, 0, 0]);
    assert_eq!(cols[1].col_pc, vec![0, 0, 0, 0]);
    assert_eq!(vals[1].evals_val_pc[0], Scalar::from_u64(9));
    assert_eq!(vals[0].evals_val_pa[2], Scalar::from_u64(7));
    assert_eq!(rows[0].row_pb_low, vec![0, 0, 0, 0]);
}

#[test]
fn padding_appends_zeros() {
    let mut row = DeRowIndex::new();
    row.row_pa_low.push(3);
    row.padding(4);
    assert_eq!(row.row_pa_low, vec![3, 0, 0, 0]);
    assert_eq!(row.row_pc_high, vec![0, 0, 0, 0]);
    let mut col = DeColIndex::new();
    col.col_pb.push(7);
    col.padding(2);
    assert_eq!(col.col_pb, vec![7, 0]);
    let mut val = DeValEvals::new();
    val.evals_val_pa.push(Scalar::from_u64(5));
    val.padding(3);
    assert_eq!(val.evals_val_pa, vec![Scalar::from_u64(5), Scalar::zero(), Scalar::zero()]);
    assert_eq!(val.evals_val_pc.len(), 3);
}

#[test]
fn digits_recompose() {
    for v in 0..100usize {
        let (lo, hi) = Indexer::decompose(v, 7);
        assert!(lo < 7);
        assert_eq!(lo + 7 * hi, v);
        assert_eq!(decompose(v, 7), (lo, hi));
    }
}

#[test]
fn integer_helpers() {
    assert_eq!(isqrt(64), 8);
    assert_eq!(isqrt(63), 7);
    assert_eq!(isqrt(0), 0);
    assert_eq!(next_power_of_two(5), 8);
    assert_eq!(next_power_of_two(0), 1);
    assert_eq!(next_power_of_two(8), 8);
    assert_eq!(Indexer::de_local_pow_of_two((3, 5, 2)), 8);
    assert_eq!(Indexer::de_max_pow_of_two(&vec![4, 16, 8]), 16);
}

#[test]
fn n_evals_count_occurrences() {
    let rows = vec![
        DeRowIndex {
            row_pa_low: vec![0, 1],
            row_pa_high: vec![0, 0],
            row_pb_low: vec![0, 1],
            row_pb_high: vec![1, 1],
            row_pc_low: vec![0, 1],
            row_pc_high: vec![0, 0],
        },
        DeRowIndex {
            row_pa_low: vec![0, 1],
            row_pa_high: vec![1, 1],
            row_pb_low: vec![0, 1],
            row_pb_high: vec![0, 0],
            row_pc_low: vec![0, 1],
            row_pc_high: vec![1, 1],
        },
    ];
    let cols = vec![
        DeColIndex { col_pa: vec![0, 1], col_pb: vec![1, 0], col_pc: vec![0, 1] },
        DeColIndex { col_pa: vec![0, 1], col_pb: vec![1, 0], col_pc: vec![0, 1] },
    ];
    let n = Indexer::build_n_evals(&rows, &cols, 2, 2, 2);
    let two = Scalar::from_u64(2);
    assert_eq!(n.row_pa_low, vec![two, two]);
    assert_eq!(n.row_pa_high, vec![two, two]);
    assert_eq!(n.col_pc, vec![two, two]);
    let n1 = Indexer::build_n_evals(&rows, &cols, 1, 2, 2);
    assert_eq!(n1.row_pb_high, vec![Scalar::zero(), two]);
}

#[test]
fn n_evals_de_adds_paddings_at_zero() {
    let raw = RawNEvals {
        row_pa_low: vec![1, 2, 3],
        row_pa_high: vec![1, 2, 3],
        row_pb_low: vec![0, 0, 0],
        row_pb_high: vec![0, 0, 0],
        row_pc_low: vec![4, 0, 0],
        row_pc_high: vec![4, 0, 0],
        col_pa: vec![5, 5, 5],
        col_pb: vec![6, 6, 6],
        col_pc: vec![7, 7, 7],
    };
    let n = Indexer::build_n_evals_de(raw, 2, (10, 20, 30));
    let f = |x: u64| Scalar::from_u64(x);
    assert_eq!(n.row_pa_low, vec![f(11), f(2)]);
    assert_eq!(n.row_pb_high, vec![f(20), f(0)]);
    assert_eq!(n.row_pc_low, vec![f(34), f(0)]);
    assert_eq!(n.col_pa, vec![f(15), f(5)]);
    assert_eq!(n.col_pc, vec![f(37), f(7)]);
}

#[test]
fn row_digit_counts_vanish_past_the_root() {
    let m = 16;
    let l = 4;
    let (rows, cols, _vals, m_prime) = Indexer::build_de_r1cs_index(l, m, &mul_gates(m, l)).unwrap();
    let n = Indexer::build_n_evals(&rows, &cols, l, m, m_prime);
    // sqrt(64) = 8: no digit reaches 8
    for v in 8..16 {
        assert_eq!(n.row_pa_low[v], Scalar::zero());
        assert_eq!(n.row_pb_high[v], Scalar::zero());
        assert_eq!(n.row_pc_low[v], Scalar::zero());
    }
    // the padding entries are all counted at zero
    assert_eq!(n.col_pa[0], Scalar::from_u64(12));
    assert_eq!(n.col_pa[1], Scalar::from_u64(4));
}

/// How often each value below `m` occurs, over several vectors.
fn tally(vs: &[&Vec<usize>], m: usize) -> Vec<u64> {
    let mut c = vec![0u64; m];
    for v in vs {
        for x in v.iter() {
            c[*x] += 1;
        }
    }
    c
}

#[test]
fn completed_counts_match_global_counts() {
    let m = 16;
    let l = 4;
    let cs = mul_gates(m, l);
    let (rows, cols, _vals, m_prime) = Indexer::build_de_r1cs_index(l, m, &cs).unwrap();
    let global = Indexer::build_n_evals(&rows, &cols, l, m, m_prime);
    let locals: Vec<_> = (0..l).map(|k| Indexer::de_collect_local_index(k, l, m, &cs)).collect();
    let paddings: Vec<_> = locals
        .iter()
        .map(|(_, _, _, c)| (m_prime - c.0, m_prime - c.1, m_prime - c.2))
        .collect();
    let total = Indexer::de_sum_paddings(&paddings);
    let field = |f: for<'a> fn(&'a DeRowIndex, &'a DeColIndex) -> &'a Vec<usize>| -> Vec<u64> {
        tally(&locals.iter().map(|(r, c, _, _)| f(r, c)).collect::<Vec<_>>(), m)
    };
    let raw = RawNEvals {
        row_pa_low: field(|r, _| &r.row_pa_low),
        row_pa_high: field(|r, _| &r.row_pa_high),
        row_pb_low: field(|r, _| &r.row_pb_low),
        row_pb_high: field(|r, _| &r.row_pb_high),
        row_pc_low: field(|r, _| &r.row_pc_low),
        row_pc_high: field(|r, _| &r.row_pc_high),
        col_pa: field(|_, c| &c.col_pa),
        col_pb: field(|_, c| &c.col_pb),
        col_pc: field(|_, c| &c.col_pc),
    };
    assert_eq!(Indexer::build_n_evals_de(raw, m, total), global);
}

#[test]
fn lookup_identity_on_the_index() {
    let fr = |x: &Scalar| Fr::from_bigint(BigInt(x.limbs())).unwrap();
    // g(j) = 1 / (gamma + beta w^j + alpha^j)
    let (gamma, beta, w, alpha) = (Fr::from(7u64), Fr::from(3u64), Fr::from(2u64), Fr::from(5u64));
    let g = |j: usize| (gamma + beta * w.pow([j as u64]) + alpha.pow([j as u64])).inverse().unwrap();
    let (m, l) = (8, 2);
    let cs = mul_gates(m, l);
    let (rows, cols, _vals, mp) = Indexer::build_de_r1cs_index(l, m, &cs).unwrap();
    let n = Indexer::build_n_evals(&rows, &cols, l, m, mp);
    let fields = |k: usize| {
        let (r, c) = (&rows[k], &cols[k]);
        vec![
            r.row_pa_low.clone(), r.row_pa_high.clone(), r.row_pb_low.clone(), r.row_pb_high.clone(),
            r.row_pc_low.clone(), r.row_pc_high.clone(), c.col_pa.clone(), c.col_pb.clone(), c.col_pc.clone(),
        ]
    };
    let counts = [
        &n.row_pa_low, &n.row_pa_high, &n.row_pb_low, &n.row_pb_high, &n.row_pc_low, &n.row_pc_high,
        &n.col_pa, &n.col_pb, &n.col_pc,
    ];
    for f in 0..9 {
        let mut lhs = Fr::from(0u64);
        for k in 0..l {
            for &v in &fields(k)[f][..mp] {
                lhs += g(v);
            }
        }
        let mut rhs = Fr::from(0u64);
        for j in 0..m {
            rhs += fr(&counts[f][j]) * g(j);
        }
        assert_eq!(lhs, rhs);
    }
}
