//! The distributed R1CS index: each public matrix, held in compressed-row
//! form, is split column-wise among `l` sub-provers; each sub-prover keeps
//! the row (as a low and a high digit in base `sqrt(ml)`), the column and the
//! value of every non-zero entry it owns, padded to a common power-of-two
//! length.
use vstd::prelude::*;
use crate::arith::{decompose, high_digit, isqrt, isqrt_spec, low_digit, next_pow2, next_power_of_two};
use crate::field::Scalar;
use crate::csr::{
    ConstraintMatrices, Share, SparseMatrix, Triple, cols, cols_mod, csr_triples, csr_wf, highs, lows,
    owned_by, scatter, used, vals, walk_one, lemma_csr_triples_len, lemma_owned_by_len, lemma_rows_below,
};
use ark_relations::r1cs::SynthesisError;

verus! {

/// The row digits of the non-zero entries of one sub-prover's part of `Pa`,
/// `Pb` and `Pc`.
#[derive(Debug, Clone, PartialEq, Eq)]
pub struct DeRowIndex {
    pub row_pa_low: Vec<usize>,
    pub row_pa_high: Vec<usize>,
    pub row_pb_low: Vec<usize>,
    pub row_pb_high: Vec<usize>,
    pub row_pc_low: Vec<usize>,
    pub row_pc_high: Vec<usize>,
}

/// The columns (within the sub-prover's block) of the same entries.
#[derive(Debug, Clone, PartialEq, Eq)]
pub struct DeColIndex {
    pub col_pa: Vec<usize>,
    pub col_pb: Vec<usize>,
    pub col_pc: Vec<usize>,
}

/// The values of the same entries.
#[derive(Debug, Clone, PartialEq, Eq)]
pub struct DeValEvals {
    pub evals_val_pa: Vec<Scalar>,
    pub evals_val_pb: Vec<Scalar>,
    pub evals_val_pc: Vec<Scalar>,
}

/// `x` followed by zeros up to length `n`.
pub open spec fn pad_seq(x: Seq<usize>, n: nat) -> Seq<usize> {
    x + Seq::new((n - x.len()) as nat, |i: int| 0usize)
}

/// The zero field element.
pub open spec fn scalar_zero() -> Scalar {
    Scalar { l0: 0, l1: 0, l2: 0, l3: 0 }
}

/// `x` followed by zero field elements up to length `n`.
pub open spec fn pad_scalars(x: Seq<Scalar>, n: nat) -> Seq<Scalar> {
    x + Seq::new((n - x.len()) as nat, |i: int| scalar_zero())
}

/// Appends zeros to `v` until it has length `n`.
fn pad_vec(v: &mut Vec<usize>, n: usize)
    requires
        old(v).len() <= n,
    ensures
        final(v)@ == pad_seq(old(v)@, n as nat),
{
    let ghost v0 = v@;
    while v.len() < n
        invariant
            v0.len() <= v.len() <= n,
            v@ == pad_seq(v0, v.len() as nat),
        decreases n - v.len(),
    {
        v.push(0);
        assert(v@ =~= pad_seq(v0, v.len() as nat));
    }
}

/// Appends zero field elements to `v` until it has length `n`.
pub(crate) fn pad_scalar_vec(v: &mut Vec<Scalar>, n: usize)
    requires
        old(v).len() <= n,
    ensures
        final(v)@ == pad_scalars(old(v)@, n as nat),
{
    let ghost v0 = v@;
    while v.len() < n
        invariant
            v0.len() <= v.len() <= n,
            v@ == pad_scalars(v0, v.len() as nat),
        decreases n - v.len(),
    {
        v.push(Scalar::zero());
        assert(v@ =~= pad_scalars(v0, v.len() as nat));
    }
}

impl DeRowIndex {
    /// An index with no entries.
    pub fn new() -> (r: Self)
        ensures
            r.row_pa_low@.len() == 0 && r.row_pa_high@.len() == 0,
            r.row_pb_low@.len() == 0 && r.row_pb_high@.len() == 0,
            r.row_pc_low@.len() == 0 && r.row_pc_high@.len() == 0,
    {
        DeRowIndex {
            row_pa_low: Vec::new(),
            row_pa_high: Vec::new(),
            row_pb_low: Vec::new(),
            row_pb_high: Vec::new(),
            row_pc_low: Vec::new(),
            row_pc_high: Vec::new(),
        }
    }

    /// Pads every vector with zeros to length `n`.
    pub fn padding(&mut self, n: usize)
        requires
            old(self).row_pa_low.len() <= n,
            old(self).row_pa_high.len() <= n,
            old(self).row_pb_low.len() <= n,
            old(self).row_pb_high.len() <= n,
            old(self).row_pc_low.len() <= n,
            old(self).row_pc_high.len() <= n,
        ensures
            final(self).row_pa_low@ == pad_seq(old(self).row_pa_low@, n as nat),
            final(self).row_pa_high@ == pad_seq(old(self).row_pa_high@, n as nat),
            final(self).row_pb_low@ == pad_seq(old(self).row_pb_low@, n as nat),
            final(self).row_pb_high@ == pad_seq(old(self).row_pb_high@, n as nat),
            final(self).row_pc_low@ == pad_seq(old(self).row_pc_low@, n as nat),
            final(self).row_pc_high@ == pad_seq(old(self).row_pc_high@, n as nat),
    {
        pad_vec(&mut self.row_pa_low, n);
        pad_vec(&mut self.row_pa_high, n);
        pad_vec(&mut self.row_pb_low, n);
        pad_vec(&mut self.row_pb_high, n);
        pad_vec(&mut self.row_pc_low, n);
        pad_vec(&mut self.row_pc_high, n);
    }
}

impl DeColIndex {
    /// An index with no entries.
    pub fn new() -> (r: Self)
        ensures
            r.col_pa@.len() == 0 && r.col_pb@.len() == 0 && r.col_pc@.len() == 0,
    {
        DeColIndex { col_pa: Vec::new(), col_pb: Vec::new(), col_pc: Vec::new() }
    }

    /// Pads every vector with zeros to length `n`.
    pub fn padding(&mut self, n: usize)
        requires
            old(self).col_pa.len() <= n,
            old(self).col_pb.len() <= n,
            old(self).col_pc.len() <= n,
        ensures
            final(self).col_pa@ == pad_seq(old(self).col_pa@, n as nat),
            final(self).col_pb@ == pad_seq(old(self).col_pb@, n as nat),
            final(self).col_pc@ == pad_seq(old(self).col_pc@, n as nat),
    {
        pad_vec(&mut self.col_pa, n);
        pad_vec(&mut self.col_pb, n);
        pad_vec(&mut self.col_pc, n);
    }
}

impl DeValEvals {
    /// Value vectors with no entries.
    pub fn new() -> (r: Self)
        ensures
            r.evals_val_pa@.len() == 0 && r.evals_val_pb@.len() == 0 && r.evals_val_pc@.len() == 0,
    {
        DeValEvals { evals_val_pa: Vec::new(), evals_val_pb: Vec::new(), evals_val_pc: Vec::new() }
    }

    /// Pads every vector with zero field elements to length `n`.
    pub fn padding(&mut self, n: usize)
        requires
            old(self).evals_val_pa.len() <= n,
            old(self).evals_val_pb.len() <= n,
            old(self).evals_val_pc.len() <= n,
        ensures
            final(self).evals_val_pa@ == pad_scalars(old(self).evals_val_pa@, n as nat),
            final(self).evals_val_pb@ == pad_scalars(old(self).evals_val_pb@, n as nat),
            final(self).evals_val_pc@ == pad_scalars(old(self).evals_val_pc@, n as nat),
    {
        pad_scalar_vec(&mut self.evals_val_pa, n);
        pad_scalar_vec(&mut self.evals_val_pb, n);
        pad_scalar_vec(&mut self.evals_val_pc, n);
    }
}

/// `ark_relations::r1cs::SynthesisError`, the error type of the index
/// builders' results.
#[verifier::external_type_specification]
#[verifier::external_body]
pub struct ExSynthesisError(SynthesisError);

/// The entries of `mat` in its first `nrows` rows whose column lies in the
/// `k`-th block of `m` columns, in row-major order.
pub open spec fn owned_entries(mat: SparseMatrix, k: nat, m: nat, nrows: nat) -> Seq<Triple> {
    owned_by(csr_triples(mat.0@, mat.1@, nrows), k, m)
}

pub open spec fn max(a: nat, b: nat) -> nat {
    if a >= b {
        a
    } else {
        b
    }
}

/// How many entries sub-prover `k` owns in the fullest of the three matrices.
pub open spec fn owned_count(cs: ConstraintMatrices, k: nat, m: nat, nrows: nat) -> nat {
    max(
        owned_entries(cs.a, k, m, nrows).len(),
        max(owned_entries(cs.b, k, m, nrows).len(), owned_entries(cs.c, k, m, nrows).len()),
    )
}

/// The largest `owned_count` among the first `k` sub-provers.
pub open spec fn max_owned_count(cs: ConstraintMatrices, m: nat, nrows: nat, k: nat) -> nat
    decreases k,
{
    if k == 0 {
        0
    } else {
        max(max_owned_count(cs, m, nrows, (k - 1) as nat), owned_count(cs, (k - 1) as nat, m, nrows))
    }
}

/// Every sub-prover's count is at most the maximum.
pub proof fn lemma_max_owned_count_bounds(cs: ConstraintMatrices, m: nat, nrows: nat, k: nat)
    ensures
        forall|k2: int|
            0 <= k2 < k ==> #[trigger] owned_count(cs, k2 as nat, m, nrows) <= max_owned_count(
                cs,
                m,
                nrows,
                k,
            ),
    decreases k,
{
    if k > 0 {
        lemma_max_owned_count_bounds(cs, m, nrows, (k - 1) as nat);
    }
}

/// The index parts hold exactly the entries `ta`, `tb`, `tc` (of `Pa`, `Pb`,
/// `Pc`), rows shifted by `off` and split in base `s`, columns reduced modulo
/// `m` where `reduce` holds, every vector padded with zeros to length `n`.
pub open spec fn index_holds(
    row: DeRowIndex,
    col: DeColIndex,
    val: DeValEvals,
    ta: Seq<Triple>,
    tb: Seq<Triple>,
    tc: Seq<Triple>,
    off: nat,
    s: nat,
    m: nat,
    reduce: bool,
    n: nat,
) -> bool {
    &&& row.row_pa_low@ == pad_seq(lows(ta, off, s), n)
    &&& row.row_pa_high@ == pad_seq(highs(ta, off, s), n)
    &&& row.row_pb_low@ == pad_seq(lows(tb, off, s), n)
    &&& row.row_pb_high@ == pad_seq(highs(tb, off, s), n)
    &&& row.row_pc_low@ == pad_seq(lows(tc, off, s), n)
    &&& row.row_pc_high@ == pad_seq(highs(tc, off, s), n)
    &&& col.col_pa@ == pad_seq(if reduce { cols_mod(ta, m) } else { cols(ta) }, n)
    &&& col.col_pb@ == pad_seq(if reduce { cols_mod(tb, m) } else { cols(tb) }, n)
    &&& col.col_pc@ == pad_seq(if reduce { cols_mod(tc, m) } else { cols(tc) }, n)
    &&& val.evals_val_pa@ == pad_scalars(vals(ta), n)
    &&& val.evals_val_pb@ == pad_scalars(vals(tb), n)
    &&& val.evals_val_pc@ == pad_scalars(vals(tc), n)
}

/// The index parts hold exactly the entries `ta`, `tb`, `tc`, as
/// `index_holds` says, without padding.
pub open spec fn index_unpadded_holds(
    row: DeRowIndex,
    col: DeColIndex,
    val: DeValEvals,
    ta: Seq<Triple>,
    tb: Seq<Triple>,
    tc: Seq<Triple>,
    off: nat,
    s: nat,
    m: nat,
    reduce: bool,
) -> bool {
    &&& row.row_pa_low@ == lows(ta, off, s)
    &&& row.row_pa_high@ == highs(ta, off, s)
    &&& row.row_pb_low@ == lows(tb, off, s)
    &&& row.row_pb_high@ == highs(tb, off, s)
    &&& row.row_pc_low@ == lows(tc, off, s)
    &&& row.row_pc_high@ == highs(tc, off, s)
    &&& col.col_pa@ == (if reduce { cols_mod(ta, m) } else { cols(ta) })
    &&& col.col_pb@ == (if reduce { cols_mod(tb, m) } else { cols(tb) })
    &&& col.col_pc@ == (if reduce { cols_mod(tc, m) } else { cols(tc) })
    &&& val.evals_val_pa@ == vals(ta)
    &&& val.evals_val_pb@ == vals(tb)
    &&& val.evals_val_pc@ == vals(tc)
}

/// The largest element of a non-empty sequence (zero for an empty one).
pub open spec fn seq_max(xs: Seq<usize>) -> nat
    decreases xs.len(),
{
    if xs.len() == 0 {
        0
    } else {
        max(seq_max(xs.drop_last()), xs.last() as nat)
    }
}

/// Component-wise sums of a sequence of triples.
pub open spec fn seq_sum3(xs: Seq<(usize, usize, usize)>) -> (nat, nat, nat)
    decreases xs.len(),
{
    if xs.len() == 0 {
        (0, 0, 0)
    } else {
        let p = seq_sum3(xs.drop_last());
        (p.0 + xs.last().0 as nat, p.1 + xs.last().1 as nat, p.2 + xs.last().2 as nat)
    }
}

/// The sums over a prefix do not exceed the sums over the whole.
pub proof fn lemma_sum3_prefix_le(xs: Seq<(usize, usize, usize)>, i: nat)
    requires
        i <= xs.len(),
    ensures
        seq_sum3(xs.take(i as int)).0 <= seq_sum3(xs).0,
        seq_sum3(xs.take(i as int)).1 <= seq_sum3(xs).1,
        seq_sum3(xs.take(i as int)).2 <= seq_sum3(xs).2,
    decreases xs.len(),
{
    if i < xs.len() {
        assert(xs.drop_last().take(i as int) =~= xs.take(i as int));
        lemma_sum3_prefix_le(xs.drop_last(), i);
    } else {
        assert(xs.take(i as int) =~= xs);
    }
}

/// What the global index builder reads of a matrix without panicking: the
/// first `nrows` rows are valid ranges and every entry they hold lies in one
/// of the `l` column blocks of width `m`.
pub open spec fn matrix_readable(mat: SparseMatrix, nrows: nat, m: nat, l: nat) -> bool {
    &&& csr_wf(mat.0@, mat.1@, nrows)
    &&& forall|e: int| 0 <= e < used(mat.1@, nrows) ==> (#[trigger] mat.0@[e]).1 as nat / m < l
    &&& mat.0@.len() <= usize::MAX / 2
}

/// The two indexes hold the same vectors.
pub open spec fn same_index(
    r1: DeRowIndex,
    c1: DeColIndex,
    v1: DeValEvals,
    r2: DeRowIndex,
    c2: DeColIndex,
    v2: DeValEvals,
) -> bool {
    &&& r1.row_pa_low@ == r2.row_pa_low@ && r1.row_pa_high@ == r2.row_pa_high@
    &&& r1.row_pb_low@ == r2.row_pb_low@ && r1.row_pb_high@ == r2.row_pb_high@
    &&& r1.row_pc_low@ == r2.row_pc_low@ && r1.row_pc_high@ == r2.row_pc_high@
    &&& c1.col_pa@ == c2.col_pa@ && c1.col_pb@ == c2.col_pb@ && c1.col_pc@ == c2.col_pc@
    &&& v1.evals_val_pa@ == v2.evals_val_pa@ && v1.evals_val_pb@ == v2.evals_val_pb@
    &&& v1.evals_val_pc@ == v2.evals_val_pc@
}

/// The common length that the distributed builder agrees on, the largest
/// of the lengths the `l` sub-provers propose (each the smallest power of
/// two that holds its largest share), is the global builder's length.
pub proof fn law_distributed_length(cs: ConstraintMatrices, m: nat, l: nat, proposals: Seq<usize>)
    requires
        l >= 1,
        proposals.len() == l,
        forall|k: int| 0 <= k < l ==> #[trigger] proposals[k] == next_pow2(owned_count(cs, k as nat, m, m * l)),
    ensures
        seq_max(proposals) == next_pow2(max_owned_count(cs, m, m * l, l)),
{
    lemma_seq_max_prefix(cs, m, m * l, proposals, l);
    assert(proposals.take(l as int) =~= proposals);
}

proof fn lemma_seq_max_prefix(cs: ConstraintMatrices, m: nat, nrows: nat, proposals: Seq<usize>, k: nat)
    requires
        1 <= k <= proposals.len(),
        forall|j: int| 0 <= j < proposals.len() ==> #[trigger] proposals[j] == next_pow2(owned_count(cs, j as nat, m, nrows)),
    ensures
        seq_max(proposals.take(k as int)) == next_pow2(max_owned_count(cs, m, nrows, k)),
    decreases k,
{
    let p = proposals.take(k as int);
    assert(p.drop_last() =~= proposals.take(k - 1));
    let a = owned_count(cs, (k - 1) as nat, m, nrows);
    if k == 1 {
        assert(seq_max(proposals.take(0)) == 0);
        crate::arith::lemma_next_pow2_bounds(a);
    } else {
        lemma_seq_max_prefix(cs, m, nrows, proposals, (k - 1) as nat);
        let b = max_owned_count(cs, m, nrows, (k - 1) as nat);
        if a <= b {
            crate::arith::lemma_next_pow2_monotone(a, b);
        } else {
            crate::arith::lemma_next_pow2_monotone(b, a);
        }
    }
}

/// What the distributed builder gives sub-prover `k` is part `k` of the
/// global index: its collected share, padded to the largest of the
/// sub-provers' proposed lengths, holds the same vectors as the global
/// builder's part `k`, and that length is the global length.
pub proof fn law_distributed_index_is_global(
    cs: ConstraintMatrices,
    m: nat,
    l: nat,
    k: nat,
    local: (DeRowIndex, DeColIndex, DeValEvals),
    proposals: Seq<usize>,
    padded: (DeRowIndex, DeColIndex, DeValEvals),
    global: (Seq<DeRowIndex>, Seq<DeColIndex>, Seq<DeValEvals>, nat),
)
    requires
        k < l,
        index_unpadded_holds(
            local.0,
            local.1,
            local.2,
            owned_entries(cs.a, k, m, m * l),
            owned_entries(cs.b, k, m, m * l),
            owned_entries(cs.c, k, m, m * l),
            0,
            isqrt_spec(m * l),
            m,
            true,
        ),
        proposals.len() == l,
        forall|j: int| 0 <= j < l ==> #[trigger] proposals[j] == next_pow2(owned_count(cs, j as nat, m, m * l)),
        padded.0.row_pa_low@ == pad_seq(local.0.row_pa_low@, seq_max(proposals)),
        padded.0.row_pa_high@ == pad_seq(local.0.row_pa_high@, seq_max(proposals)),
        padded.0.row_pb_low@ == pad_seq(local.0.row_pb_low@, seq_max(proposals)),
        padded.0.row_pb_high@ == pad_seq(local.0.row_pb_high@, seq_max(proposals)),
        padded.0.row_pc_low@ == pad_seq(local.0.row_pc_low@, seq_max(proposals)),
        padded.0.row_pc_high@ == pad_seq(local.0.row_pc_high@, seq_max(proposals)),
        padded.1.col_pa@ == pad_seq(local.1.col_pa@, seq_max(proposals)),
        padded.1.col_pb@ == pad_seq(local.1.col_pb@, seq_max(proposals)),
        padded.1.col_pc@ == pad_seq(local.1.col_pc@, seq_max(proposals)),
        padded.2.evals_val_pa@ == pad_scalars(local.2.evals_val_pa@, seq_max(proposals)),
        padded.2.evals_val_pb@ == pad_scalars(local.2.evals_val_pb@, seq_max(proposals)),
        padded.2.evals_val_pc@ == pad_scalars(local.2.evals_val_pc@, seq_max(proposals)),
        global.0.len() == l && global.1.len() == l && global.2.len() == l,
        global.3 == next_pow2(max_owned_count(cs, m, m * l, l)),
        index_holds(
            global.0[k as int],
            global.1[k as int],
            global.2[k as int],
            owned_entries(cs.a, k, m, m * l),
            owned_entries(cs.b, k, m, m * l),
            owned_entries(cs.c, k, m, m * l),
            0,
            isqrt_spec(m * l),
            m,
            true,
            global.3,
        ),
    ensures
        seq_max(proposals) == global.3,
        same_index(padded.0, padded.1, padded.2, global.0[k as int], global.1[k as int], global.2[k as int]),
{
    law_distributed_length(cs, m, l, proposals);
}

/// What the global index builder returns for sub-prover `k`: every one of
/// its twelve vectors has the common length `n`; every column lies below
/// `m`, every low row digit below `s = floor(sqrt(ml))` and every high row
/// digit `h` has `h s < ml`, the padding entries included; so where
/// `l <= m` every entry of the nine index vectors lies below `m`.
pub proof fn law_index_bounds(
    cs: ConstraintMatrices,
    m: nat,
    l: nat,
    k: nat,
    row: DeRowIndex,
    col: DeColIndex,
    val: DeValEvals,
    n: nat,
)
    requires
        k < l,
        m > 0,
        m * l <= usize::MAX,
        n == next_pow2(max_owned_count(cs, m, m * l, l)),
        index_holds(
            row,
            col,
            val,
            owned_entries(cs.a, k, m, m * l),
            owned_entries(cs.b, k, m, m * l),
            owned_entries(cs.c, k, m, m * l),
            0,
            isqrt_spec(m * l),
            m,
            true,
            n,
        ),
    ensures
        row.row_pa_low.len() == n && row.row_pa_high.len() == n && row.row_pb_low.len() == n,
        row.row_pb_high.len() == n && row.row_pc_low.len() == n && row.row_pc_high.len() == n,
        col.col_pa.len() == n && col.col_pb.len() == n && col.col_pc.len() == n,
        val.evals_val_pa.len() == n && val.evals_val_pb.len() == n && val.evals_val_pc.len() == n,
        forall|i: int| 0 <= i < n ==> (#[trigger] col.col_pa@[i]) < m && col.col_pb@[i] < m && col.col_pc@[i] < m,
        forall|i: int|
            0 <= i < n ==> (#[trigger] row.row_pa_low@[i]) < isqrt_spec(m * l) && row.row_pb_low@[i] < isqrt_spec(
                m * l,
            ) && row.row_pc_low@[i] < isqrt_spec(m * l),
        forall|i: int|
            0 <= i < n ==> (#[trigger] row.row_pa_high@[i]) * isqrt_spec(m * l) < m * l && row.row_pb_high@[i]
                * isqrt_spec(m * l) < m * l && row.row_pc_high@[i] * isqrt_spec(m * l) < m * l,
        l <= m ==> forall|i: int|
            0 <= i < n ==> {
                &&& (#[trigger] row.row_pa_high@[i]) < m && row.row_pb_high@[i] < m && row.row_pc_high@[i] < m
                &&& row.row_pa_low@[i] < m && row.row_pb_low@[i] < m && row.row_pc_low@[i] < m
            },
{
    let ml = m * l;
    let s = isqrt_spec(ml);
    crate::arith::lemma_isqrt_exists(ml);
    assert(ml >= 1) by (nonlinear_arith)
        requires
            ml == m * l,
            m > 0,
            k < l,
    ;
    assert(s > 0) by {
        if s == 0 {
            assert((s + 1) * (s + 1) == 1) by (nonlinear_arith)
                requires
                    s == 0,
            ;
        }
    }
    assert(s <= ml) by (nonlinear_arith)
        requires
            s * s <= ml,
            s > 0,
    ;
    lemma_max_owned_count_bounds(cs, m, ml, l);
    let kk: int = k as int;
    assert(owned_count(cs, kk as nat, m, ml) <= max_owned_count(cs, m, ml, l));
    crate::arith::lemma_next_pow2_bounds(max_owned_count(cs, m, ml, l));
    let ta = owned_entries(cs.a, k, m, ml);
    let tb = owned_entries(cs.b, k, m, ml);
    let tc = owned_entries(cs.c, k, m, ml);
    assert(ta.len() <= n && tb.len() <= n && tc.len() <= n);
    assert forall|i: int| 0 <= i < n implies (#[trigger] col.col_pa@[i]) < m && col.col_pb@[i] < m
        && col.col_pc@[i] < m by {
        if i < ta.len() {
            assert(col.col_pa@[i] == cols_mod(ta, m)[i]);
        }
        if i < tb.len() {
            assert(col.col_pb@[i] == cols_mod(tb, m)[i]);
        }
        if i < tc.len() {
            assert(col.col_pc@[i] == cols_mod(tc, m)[i]);
        }
    }
    assert forall|i: int| 0 <= i < n implies (#[trigger] row.row_pa_low@[i]) < s && row.row_pb_low@[i] < s
        && row.row_pc_low@[i] < s by {
        if i < ta.len() {
            assert(row.row_pa_low@[i] == lows(ta, 0, s)[i]);
        }
        if i < tb.len() {
            assert(row.row_pb_low@[i] == lows(tb, 0, s)[i]);
        }
        if i < tc.len() {
            assert(row.row_pc_low@[i] == lows(tc, 0, s)[i]);
        }
    }
    lemma_rows_below(cs.a.0@, cs.a.1@, ml);
    lemma_rows_below(cs.b.0@, cs.b.1@, ml);
    lemma_rows_below(cs.c.0@, cs.c.1@, ml);
    crate::nevals::lemma_owned_rows_below(csr_triples(cs.a.0@, cs.a.1@, ml), k, m, ml);
    crate::nevals::lemma_owned_rows_below(csr_triples(cs.b.0@, cs.b.1@, ml), k, m, ml);
    crate::nevals::lemma_owned_rows_below(csr_triples(cs.c.0@, cs.c.1@, ml), k, m, ml);
    assert forall|i: int| 0 <= i < n implies (#[trigger] row.row_pa_high@[i]) * s < ml && row.row_pb_high@[i] * s
        < ml && row.row_pc_high@[i] * s < ml by {
        if i < ta.len() {
            assert(row.row_pa_high@[i] == highs(ta, 0, s)[i]);
            lemma_high_digit_below(ta[i].0 as nat, s, ml);
        }
        if i < tb.len() {
            assert(row.row_pb_high@[i] == highs(tb, 0, s)[i]);
            lemma_high_digit_below(tb[i].0 as nat, s, ml);
        }
        if i < tc.len() {
            assert(row.row_pc_high@[i] == highs(tc, 0, s)[i]);
            lemma_high_digit_below(tc[i].0 as nat, s, ml);
        }
    }
    if l <= m {
        assert(l <= s && s <= m) by {
            if s < l {
                assert((s + 1) * (s + 1) <= l * l) by (nonlinear_arith)
                    requires
                        s + 1 <= l,
                ;
                assert(l * l <= m * l) by (nonlinear_arith)
                    requires
                        l <= m,
                ;
            }
            if s > m {
                assert(m * l <= m * m) by (nonlinear_arith)
                    requires
                        l <= m,
                ;
                assert(m * m < s * s) by (nonlinear_arith)
                    requires
                        m < s,
                ;
            }
        }
        lemma_entries_below_m(row, n, s, m, l);
    }
}

/// With `l <= s <= m`, digits `h` with `h s < ml` and digits below `s` are
/// below `m`.
proof fn lemma_entries_below_m(row: DeRowIndex, n: nat, s: nat, m: nat, l: nat)
    requires
        l <= s <= m,
        forall|i: int|
            0 <= i < n ==> (#[trigger] row.row_pa_high@[i]) * s < m * l && row.row_pb_high@[i] * s < m * l
                && row.row_pc_high@[i] * s < m * l,
        forall|i: int|
            0 <= i < n ==> (#[trigger] row.row_pa_low@[i]) < s && row.row_pb_low@[i] < s && row.row_pc_low@[i] < s,
    ensures
        forall|i: int|
            0 <= i < n ==> {
                &&& (#[trigger] row.row_pa_high@[i]) < m && row.row_pb_high@[i] < m && row.row_pc_high@[i] < m
                &&& row.row_pa_low@[i] < m && row.row_pb_low@[i] < m && row.row_pc_low@[i] < m
            },
{
    assert forall|i: int| 0 <= i < n implies {
        &&& (#[trigger] row.row_pa_high@[i]) < m && row.row_pb_high@[i] < m && row.row_pc_high@[i] < m
        &&& row.row_pa_low@[i] < m && row.row_pb_low@[i] < m && row.row_pc_low@[i] < m
    } by {
        assert(row.row_pa_low@[i] < s);
        lemma_digit_below_m(row.row_pa_high@[i] as nat, s, m, l);
        lemma_digit_below_m(row.row_pb_high@[i] as nat, s, m, l);
        lemma_digit_below_m(row.row_pc_high@[i] as nat, s, m, l);
    }
}

/// `(v / s) s <= v < ml`.
proof fn lemma_high_digit_below(v: nat, s: nat, ml: nat)
    requires
        s > 0,
        v < ml,
    ensures
        crate::arith::high_digit(v, s) * s < ml,
{
    vstd::arithmetic::div_mod::lemma_fundamental_div_mod(v as int, s as int);
    assert((v / s) * s <= v) by (nonlinear_arith)
        requires
            v == s * (v / s) + v % s,
            v % s >= 0,
    ;
}

/// `h s < m l` with `l <= s` puts `h` below `m`.
proof fn lemma_digit_below_m(h: nat, s: nat, m: nat, l: nat)
    requires
        h * s < m * l,
        l <= s,
    ensures
        h < m,
{
    if h >= m {
        assert(m * l <= h * s) by (nonlinear_arith)
            requires
                m <= h,
                l <= s,
        ;
    }
}

/// Assembles one sub-prover's index from its shares of `Pa`, `Pb`, `Pc`,
/// padded to length `n`.
fn assemble(a: Share, b: Share, c: Share, n: usize) -> (r: (DeRowIndex, DeColIndex, DeValEvals))
    requires
        a.low.len() <= n && a.high.len() <= n && a.col.len() <= n && a.val.len() <= n,
        b.low.len() <= n && b.high.len() <= n && b.col.len() <= n && b.val.len() <= n,
        c.low.len() <= n && c.high.len() <= n && c.col.len() <= n && c.val.len() <= n,
    ensures
        r.0.row_pa_low@ == pad_seq(a.low@, n as nat) && r.0.row_pa_high@ == pad_seq(a.high@, n as nat),
        r.0.row_pb_low@ == pad_seq(b.low@, n as nat) && r.0.row_pb_high@ == pad_seq(b.high@, n as nat),
        r.0.row_pc_low@ == pad_seq(c.low@, n as nat) && r.0.row_pc_high@ == pad_seq(c.high@, n as nat),
        r.1.col_pa@ == pad_seq(a.col@, n as nat) && r.1.col_pb@ == pad_seq(b.col@, n as nat)
            && r.1.col_pc@ == pad_seq(c.col@, n as nat),
        r.2.evals_val_pa@ == pad_scalars(a.val@, n as nat) && r.2.evals_val_pb@ == pad_scalars(
            b.val@,
            n as nat,
        ) && r.2.evals_val_pc@ == pad_scalars(c.val@, n as nat),
{
    let mut row = DeRowIndex {
        row_pa_low: a.low,
        row_pa_high: a.high,
        row_pb_low: b.low,
        row_pb_high: b.high,
        row_pc_low: c.low,
        row_pc_high: c.high,
    };
    let mut col = DeColIndex { col_pa: a.col, col_pb: b.col, col_pc: c.col };
    let mut val = DeValEvals { evals_val_pa: a.val, evals_val_pb: b.val, evals_val_pc: c.val };
    row.padding(n);
    col.padding(n);
    val.padding(n);
    (row, col, val)
}

/// Builds the index of every sub-prover.
pub struct Indexer {}

impl Indexer {
    /// Splits `v` into its low and high digits in base `sqrt_ml`.
    pub fn decompose(v: usize, sqrt_ml: usize) -> (r: (usize, usize))
        requires
            sqrt_ml > 0,
        ensures
            r.0 == low_digit(v as nat, sqrt_ml as nat),
            r.1 == high_digit(v as nat, sqrt_ml as nat),
    {
        decompose(v, sqrt_ml)
    }

    /// Splits the `ml x ml` matrices among `l` sub-provers by column blocks of
    /// width `m`. Sub-prover `k` receives the entries of `Pa`, `Pb`, `Pc`
    /// whose column lies in `[k m, (k + 1) m)`, in row-major order: their row
    /// split in base `floor(sqrt(ml))`, their column within the block and
    /// their value. Every vector is padded with zeros to the returned length,
    /// the smallest power of two that holds the largest share.
    pub fn build_de_r1cs_index(l: usize, m: usize, cs_matrix: &ConstraintMatrices) -> (r: Result<
        (Vec<DeRowIndex>, Vec<DeColIndex>, Vec<DeValEvals>, usize),
        SynthesisError,
    >)
        requires
            l >= 1,
            m * l <= usize::MAX,
            cs_matrix.a.1.len() == m * l,
            matrix_readable(cs_matrix.a, (m * l) as nat, m as nat, l as nat),
            matrix_readable(cs_matrix.b, (m * l) as nat, m as nat, l as nat),
            matrix_readable(cs_matrix.c, (m * l) as nat, m as nat, l as nat),
        ensures
            r matches Ok((rows, cols, vals, n)) && {
                let s = isqrt_spec((m * l) as nat);
                &&& rows.len() == l && cols.len() == l && vals.len() == l
                &&& n == next_pow2(max_owned_count(*cs_matrix, m as nat, (m * l) as nat, l as nat))
                &&& forall|k: int|
                    0 <= k < l ==> #[trigger] index_holds(
                        rows@[k],
                        cols@[k],
                        vals@[k],
                        owned_entries(cs_matrix.a, k as nat, m as nat, (m * l) as nat),
                        owned_entries(cs_matrix.b, k as nat, m as nat, (m * l) as nat),
                        owned_entries(cs_matrix.c, k as nat, m as nat, (m * l) as nat),
                        0,
                        s,
                        m as nat,
                        true,
                        n as nat,
                    )
            },
    {
        let ml = m * l;
        let sqrt_ml = isqrt(ml);
        proof {
            if ml > 0 {
                assert(m > 0) by {
                    if m == 0 {
                        assert(m * l == 0);
                    }
                }
                if sqrt_ml == 0 {
                    assert((0 + 1) * (0 + 1) == 1int);
                    assert(ml < (sqrt_ml + 1) * (sqrt_ml + 1));
                }
            }
        }
        let mut sa = scatter(&cs_matrix.a, ml, m, l, sqrt_ml);
        let mut sb = scatter(&cs_matrix.b, ml, m, l, sqrt_ml);
        let mut sc = scatter(&cs_matrix.c, ml, m, l, sqrt_ml);
        proof {
            lemma_csr_triples_len(cs_matrix.a.0@, cs_matrix.a.1@, ml as nat);
            lemma_csr_triples_len(cs_matrix.b.0@, cs_matrix.b.1@, ml as nat);
            lemma_csr_triples_len(cs_matrix.c.0@, cs_matrix.c.1@, ml as nat);
        }
        let mut m_prime: usize = 0;
        let mut k: usize = 0;
        while k < l
            invariant
                k <= l,
                sa.len() == l && sb.len() == l && sc.len() == l,
                forall|k2: int|
                    0 <= k2 < l ==> (#[trigger] sa@[k2]).holds(owned_entries(cs_matrix.a, k2 as nat, m as nat, ml as nat), 0, sqrt_ml as nat, m as nat, true),
                forall|k2: int|
                    0 <= k2 < l ==> (#[trigger] sb@[k2]).holds(owned_entries(cs_matrix.b, k2 as nat, m as nat, ml as nat), 0, sqrt_ml as nat, m as nat, true),
                forall|k2: int|
                    0 <= k2 < l ==> (#[trigger] sc@[k2]).holds(owned_entries(cs_matrix.c, k2 as nat, m as nat, ml as nat), 0, sqrt_ml as nat, m as nat, true),
                m_prime == max_owned_count(*cs_matrix, m as nat, ml as nat, k as nat),
                m_prime <= usize::MAX / 2,
                csr_triples(cs_matrix.a.0@, cs_matrix.a.1@, ml as nat).len() <= cs_matrix.a.0.len(),
                csr_triples(cs_matrix.b.0@, cs_matrix.b.1@, ml as nat).len() <= cs_matrix.b.0.len(),
                csr_triples(cs_matrix.c.0@, cs_matrix.c.1@, ml as nat).len() <= cs_matrix.c.0.len(),
                cs_matrix.a.0.len() <= usize::MAX / 2,
                cs_matrix.b.0.len() <= usize::MAX / 2,
                cs_matrix.c.0.len() <= usize::MAX / 2,
            decreases l - k,
        {
            proof {
                lemma_owned_by_len(csr_triples(cs_matrix.a.0@, cs_matrix.a.1@, ml as nat), k as nat, m as nat);
                lemma_owned_by_len(csr_triples(cs_matrix.b.0@, cs_matrix.b.1@, ml as nat), k as nat, m as nat);
                lemma_owned_by_len(csr_triples(cs_matrix.c.0@, cs_matrix.c.1@, ml as nat), k as nat, m as nat);
            }
            let ca = sa[k].low.len();
            let cb = sb[k].low.len();
            let cc = sc[k].low.len();
            if ca > m_prime {
                m_prime = ca;
            }
            if cb > m_prime {
                m_prime = cb;
            }
            if cc > m_prime {
                m_prime = cc;
            }
            k += 1;
        }
        let pow_of_two = next_power_of_two(m_prime);
        proof {
            crate::arith::lemma_next_pow2_bounds(m_prime as nat);
            lemma_max_owned_count_bounds(*cs_matrix, m as nat, ml as nat, l as nat);
        }
        let mut rows: Vec<DeRowIndex> = Vec::new();
        let mut cols_out: Vec<DeColIndex> = Vec::new();
        let mut vals_out: Vec<DeValEvals> = Vec::new();
        let ghost sa0 = sa@;
        let ghost sb0 = sb@;
        let ghost sc0 = sc@;
        let mut k: usize = 0;
        while k < l
            invariant
                k <= l,
                sa@ == sa0.subrange(k as int, l as int),
                sb@ == sb0.subrange(k as int, l as int),
                sc@ == sc0.subrange(k as int, l as int),
                sa0.len() == l && sb0.len() == l && sc0.len() == l,
                forall|k2: int|
                    0 <= k2 < l ==> (#[trigger] sa0[k2]).holds(owned_entries(cs_matrix.a, k2 as nat, m as nat, ml as nat), 0, sqrt_ml as nat, m as nat, true),
                forall|k2: int|
                    0 <= k2 < l ==> (#[trigger] sb0[k2]).holds(owned_entries(cs_matrix.b, k2 as nat, m as nat, ml as nat), 0, sqrt_ml as nat, m as nat, true),
                forall|k2: int|
                    0 <= k2 < l ==> (#[trigger] sc0[k2]).holds(owned_entries(cs_matrix.c, k2 as nat, m as nat, ml as nat), 0, sqrt_ml as nat, m as nat, true),
                forall|k2: int|
                    0 <= k2 < l ==> #[trigger] owned_count(*cs_matrix, k2 as nat, m as nat, ml as nat)
                        <= m_prime,
                m_prime <= pow_of_two,
                rows.len() == k && cols_out.len() == k && vals_out.len() == k,
                forall|k2: int|
                    0 <= k2 < k ==> #[trigger] index_holds(
                        rows@[k2],
                        cols_out@[k2],
                        vals_out@[k2],
                        owned_entries(cs_matrix.a, k2 as nat, m as nat, ml as nat),
                        owned_entries(cs_matrix.b, k2 as nat, m as nat, ml as nat),
                        owned_entries(cs_matrix.c, k2 as nat, m as nat, ml as nat),
                        0,
                        sqrt_ml as nat,
                        m as nat,
                        true,
                        pow_of_two as nat,
                    ),
            decreases l - k,
        {
            let a = sa.remove(0);
            let b = sb.remove(0);
            let c = sc.remove(0);
            assert(a == sa0[k as int]);
            assert(b == sb0[k as int]);
            assert(c == sc0[k as int]);
            assert(owned_count(*cs_matrix, k as nat, m as nat, ml as nat) <= m_prime);
            assert(a.low@.len() == owned_entries(cs_matrix.a, k as nat, m as nat, ml as nat).len());
            assert(b.low@.len() == owned_entries(cs_matrix.b, k as nat, m as nat, ml as nat).len());
            assert(c.low@.len() == owned_entries(cs_matrix.c, k as nat, m as nat, ml as nat).len());
            let (row, col, val) = assemble(a, b, c, pow_of_two);
            rows.push(row);
            cols_out.push(col);
            vals_out.push(val);
            assert(sa@ =~= sa0.subrange(k + 1, l as int));
            assert(sb@ =~= sb0.subrange(k + 1, l as int));
            assert(sc@ =~= sc0.subrange(k + 1, l as int));
            k += 1;
        }
        Ok((rows, cols_out, vals_out, pow_of_two))
    }

    /// Builds the index of sub-prover `sub_prover_id` from its own block of
    /// the data-parallel constraint system: the `m` rows and the columns of
    /// that block alone. Every entry is kept, its row shifted by
    /// `m * sub_prover_id` and split in base `floor(sqrt(ml))`, its column
    /// kept as it is. Every vector is padded with zeros to the returned
    /// length, the smallest power of two that holds the largest of the three
    /// shares; the returned triple says how many zeros each matrix received.
    pub fn de_build_de_r1cs_index_data_parallel(
        sub_prover_id: usize,
        l: usize,
        m: usize,
        cs_matrix: &ConstraintMatrices,
    ) -> (r: Result<
        (DeRowIndex, DeColIndex, DeValEvals, usize, (usize, usize, usize)),
        SynthesisError,
    >)
        requires
            cs_matrix.a.1.len() == m,
            csr_wf(cs_matrix.a.0@, cs_matrix.a.1@, m as nat),
            csr_wf(cs_matrix.b.0@, cs_matrix.b.1@, m as nat),
            csr_wf(cs_matrix.c.0@, cs_matrix.c.1@, m as nat),
            m * l <= usize::MAX,
            m * sub_prover_id + m <= usize::MAX,
            cs_matrix.a.0.len() <= usize::MAX / 2,
            cs_matrix.b.0.len() <= usize::MAX / 2,
            cs_matrix.c.0.len() <= usize::MAX / 2,
            used(cs_matrix.a.1@, m as nat) > 0 || used(cs_matrix.b.1@, m as nat) > 0 || used(
                cs_matrix.c.1@,
                m as nat,
            ) > 0 ==> l > 0,
        ensures
            r matches Ok((row, col, val, n, paddings)) && {
                let ta = csr_triples(cs_matrix.a.0@, cs_matrix.a.1@, m as nat);
                let tb = csr_triples(cs_matrix.b.0@, cs_matrix.b.1@, m as nat);
                let tc = csr_triples(cs_matrix.c.0@, cs_matrix.c.1@, m as nat);
                &&& n == next_pow2(max(ta.len(), max(tb.len(), tc.len())))
                &&& index_holds(
                    row,
                    col,
                    val,
                    ta,
                    tb,
                    tc,
                    (m * sub_prover_id) as nat,
                    isqrt_spec((m * l) as nat),
                    m as nat,
                    false,
                    n as nat,
                )
                &&& paddings.0 == n - ta.len()
                &&& paddings.1 == n - tb.len()
                &&& paddings.2 == n - tc.len()
            },
    {
        let ml = m * l;
        let sqrt_ml = isqrt(ml);
        let offset = m * sub_prover_id;
        proof {
            if l > 0 && m > 0 {
                assert(ml > 0) by (nonlinear_arith)
                    requires
                        ml == m * l,
                        l > 0,
                        m > 0,
                ;
                if sqrt_ml == 0 {
                    assert((0 + 1) * (0 + 1) == 1int);
                    assert(ml < (sqrt_ml + 1) * (sqrt_ml + 1));
                }
            }
            if used(cs_matrix.a.1@, m as nat) > 0 || used(cs_matrix.b.1@, m as nat) > 0 || used(
                cs_matrix.c.1@,
                m as nat,
            ) > 0 {
                assert(m > 0);
            }
            lemma_csr_triples_len(cs_matrix.a.0@, cs_matrix.a.1@, m as nat);
            lemma_csr_triples_len(cs_matrix.b.0@, cs_matrix.b.1@, m as nat);
            lemma_csr_triples_len(cs_matrix.c.0@, cs_matrix.c.1@, m as nat);
        }
        let a = walk_one(&cs_matrix.a, m, offset, sqrt_ml, m, None);
        let b = walk_one(&cs_matrix.b, m, offset, sqrt_ml, m, None);
        let c = walk_one(&cs_matrix.c, m, offset, sqrt_ml, m, None);
        let m_prime_a = a.low.len();
        let m_prime_b = b.low.len();
        let m_prime_c = c.low.len();
        let mut m_prime = m_prime_a;
        if m_prime_b > m_prime {
            m_prime = m_prime_b;
        }
        if m_prime_c > m_prime {
            m_prime = m_prime_c;
        }
        let pow_of_two = next_power_of_two(m_prime);
        proof {
            crate::arith::lemma_next_pow2_bounds(m_prime as nat);
        }
        let (row, col, val) = assemble(a, b, c, pow_of_two);
        Ok((
            row,
            col,
            val,
            pow_of_two,
            (pow_of_two - m_prime_a, pow_of_two - m_prime_b, pow_of_two - m_prime_c),
        ))
    }

    /// The local step of the distributed index builder: sub-prover
    /// `sub_prover_id` walks all `ml` rows and keeps the entries whose column
    /// lies in its block, exactly as the global builder hands them to it, and
    /// counts them. Padding waits for the common length.
    pub fn de_collect_local_index(
        sub_prover_id: usize,
        l: usize,
        m: usize,
        cs_matrix: &ConstraintMatrices,
    ) -> (r: (DeRowIndex, DeColIndex, DeValEvals, (usize, usize, usize)))
        requires
            m * l <= usize::MAX,
            cs_matrix.a.1.len() == m * l,
            csr_wf(cs_matrix.a.0@, cs_matrix.a.1@, (m * l) as nat),
            csr_wf(cs_matrix.b.0@, cs_matrix.b.1@, (m * l) as nat),
            csr_wf(cs_matrix.c.0@, cs_matrix.c.1@, (m * l) as nat),
        ensures
            ({
                let ta = owned_entries(cs_matrix.a, sub_prover_id as nat, m as nat, (m * l) as nat);
                let tb = owned_entries(cs_matrix.b, sub_prover_id as nat, m as nat, (m * l) as nat);
                let tc = owned_entries(cs_matrix.c, sub_prover_id as nat, m as nat, (m * l) as nat);
                &&& index_unpadded_holds(
                    r.0,
                    r.1,
                    r.2,
                    ta,
                    tb,
                    tc,
                    0,
                    isqrt_spec((m * l) as nat),
                    m as nat,
                    true,
                )
                &&& r.3 == (ta.len() as usize, tb.len() as usize, tc.len() as usize)
                &&& r.3.0 == ta.len() && r.3.1 == tb.len() && r.3.2 == tc.len()
                &&& max(r.3.0 as nat, max(r.3.1 as nat, r.3.2 as nat)) == owned_count(
                    *cs_matrix,
                    sub_prover_id as nat,
                    m as nat,
                    (m * l) as nat,
                )
            }),
    {
        let ml = m * l;
        let sqrt_ml = isqrt(ml);
        proof {
            if ml > 0 {
                assert(m > 0) by {
                    if m == 0 {
                        assert(m * l == 0);
                    }
                }
                if sqrt_ml == 0 {
                    assert((0 + 1) * (0 + 1) == 1int);
                    assert(ml < (sqrt_ml + 1) * (sqrt_ml + 1));
                }
            }
            lemma_csr_triples_len(cs_matrix.a.0@, cs_matrix.a.1@, ml as nat);
            lemma_csr_triples_len(cs_matrix.b.0@, cs_matrix.b.1@, ml as nat);
            lemma_csr_triples_len(cs_matrix.c.0@, cs_matrix.c.1@, ml as nat);
            if used(cs_matrix.a.1@, ml as nat) > 0 || used(cs_matrix.b.1@, ml as nat) > 0 || used(
                cs_matrix.c.1@,
                ml as nat,
            ) > 0 {
                assert(ml > 0);
            }
        }
        let a = walk_one(&cs_matrix.a, ml, 0, sqrt_ml, m, Some(sub_prover_id));
        let b = walk_one(&cs_matrix.b, ml, 0, sqrt_ml, m, Some(sub_prover_id));
        let c = walk_one(&cs_matrix.c, ml, 0, sqrt_ml, m, Some(sub_prover_id));
        let counts = (a.low.len(), b.low.len(), c.low.len());
        let row = DeRowIndex {
            row_pa_low: a.low,
            row_pa_high: a.high,
            row_pb_low: b.low,
            row_pb_high: b.high,
            row_pc_low: c.low,
            row_pc_high: c.high,
        };
        let col = DeColIndex { col_pa: a.col, col_pb: b.col, col_pc: c.col };
        let val = DeValEvals { evals_val_pa: a.val, evals_val_pb: b.val, evals_val_pc: c.val };
        assert(counts.0 == a.low@.len() && counts.1 == b.low@.len() && counts.2 == c.low@.len());
        (row, col, val, counts)
    }

    /// The length that a sub-prover proposes for its index: the smallest
    /// power of two that holds its largest share.
    pub fn de_local_pow_of_two(counts: (usize, usize, usize)) -> (r: usize)
        requires
            counts.0 <= usize::MAX / 2 && counts.1 <= usize::MAX / 2 && counts.2 <= usize::MAX / 2,
        ensures
            r == next_pow2(max(counts.0 as nat, max(counts.1 as nat, counts.2 as nat))),
    {
        let mut x = counts.0;
        if counts.1 > x {
            x = counts.1;
        }
        if counts.2 > x {
            x = counts.2;
        }
        next_power_of_two(x)
    }

    /// The master's step: the common length is the largest proposed one.
    pub fn de_max_pow_of_two(all: &Vec<usize>) -> (r: usize)
        requires
            all.len() >= 1,
        ensures
            r == seq_max(all@),
    {
        let mut best: usize = 0;
        let mut i: usize = 0;
        while i < all.len()
            invariant
                i <= all.len(),
                best == seq_max(all@.take(i as int)),
            decreases all.len() - i,
        {
            assert(all@.take(i + 1).drop_last() =~= all@.take(i as int));
            if all[i] > best {
                best = all[i];
            }
            i += 1;
        }
        assert(all@.take(all.len() as int) =~= all@);
        best
    }

    /// Pads a sub-prover's collected index to the common length `n` and
    /// reports how many zeros each matrix received.
    pub fn de_pad_local_index(
        row: DeRowIndex,
        col: DeColIndex,
        val: DeValEvals,
        counts: (usize, usize, usize),
        n: usize,
    ) -> (r: (DeRowIndex, DeColIndex, DeValEvals, (usize, usize, usize)))
        requires
            row.row_pa_low.len() == counts.0 && row.row_pa_high.len() == counts.0,
            col.col_pa.len() == counts.0 && val.evals_val_pa.len() == counts.0,
            row.row_pb_low.len() == counts.1 && row.row_pb_high.len() == counts.1,
            col.col_pb.len() == counts.1 && val.evals_val_pb.len() == counts.1,
            row.row_pc_low.len() == counts.2 && row.row_pc_high.len() == counts.2,
            col.col_pc.len() == counts.2 && val.evals_val_pc.len() == counts.2,
            counts.0 <= n && counts.1 <= n && counts.2 <= n,
        ensures
            r.0.row_pa_low@ == pad_seq(row.row_pa_low@, n as nat),
            r.0.row_pa_high@ == pad_seq(row.row_pa_high@, n as nat),
            r.0.row_pb_low@ == pad_seq(row.row_pb_low@, n as nat),
            r.0.row_pb_high@ == pad_seq(row.row_pb_high@, n as nat),
            r.0.row_pc_low@ == pad_seq(row.row_pc_low@, n as nat),
            r.0.row_pc_high@ == pad_seq(row.row_pc_high@, n as nat),
            r.1.col_pa@ == pad_seq(col.col_pa@, n as nat),
            r.1.col_pb@ == pad_seq(col.col_pb@, n as nat),
            r.1.col_pc@ == pad_seq(col.col_pc@, n as nat),
            r.2.evals_val_pa@ == pad_scalars(val.evals_val_pa@, n as nat),
            r.2.evals_val_pb@ == pad_scalars(val.evals_val_pb@, n as nat),
            r.2.evals_val_pc@ == pad_scalars(val.evals_val_pc@, n as nat),
            r.3 == ((n - counts.0) as usize, (n - counts.1) as usize, (n - counts.2) as usize),
    {
        let mut row = row;
        let mut col = col;
        let mut val = val;
        row.padding(n);
        col.padding(n);
        val.padding(n);
        (row, col, val, (n - counts.0, n - counts.1, n - counts.2))
    }

    /// The master's step: the padding totals of all sub-provers.
    pub fn de_sum_paddings(all: &Vec<(usize, usize, usize)>) -> (r: (usize, usize, usize))
        requires
            all.len() >= 1,
            seq_sum3(all@).0 <= usize::MAX && seq_sum3(all@).1 <= usize::MAX && seq_sum3(all@).2
                <= usize::MAX,
        ensures
            r.0 == seq_sum3(all@).0 && r.1 == seq_sum3(all@).1 && r.2 == seq_sum3(all@).2,
    {
        let mut a: usize = 0;
        let mut b: usize = 0;
        let mut c: usize = 0;
        let mut i: usize = 0;
        while i < all.len()
            invariant
                i <= all.len(),
                a == seq_sum3(all@.take(i as int)).0,
                b == seq_sum3(all@.take(i as int)).1,
                c == seq_sum3(all@.take(i as int)).2,
                seq_sum3(all@).0 <= usize::MAX && seq_sum3(all@).1 <= usize::MAX && seq_sum3(all@).2
                    <= usize::MAX,
            decreases all.len() - i,
        {
            assert(all@.take(i + 1).drop_last() =~= all@.take(i as int));
            proof {
                lemma_sum3_prefix_le(all@, (i + 1) as nat);
            }
            a = a + all[i].0;
            b = b + all[i].1;
            c = c + all[i].2;
            i += 1;
        }
        assert(all@.take(all.len() as int) =~= all@);
        (a, b, c)
    }
}

} // verus!
