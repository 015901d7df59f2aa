//! Lookup frequencies: for every value `v < m`, how often `v` occurs among
//! the row digits and the columns of the index, as field elements.
use vstd::prelude::*;
use crate::arith::{decompose, high_digit, isqrt, low_digit};
use crate::field::Scalar;
use crate::csr::{ConstraintMatrices, SparseMatrix, Triple, csr_triples, highs, lemma_rows_below, lows, owned_by};
use crate::index::{DeColIndex, DeRowIndex, DeValEvals, Indexer, index_holds, law_index_bounds, max_owned_count, owned_entries, pad_seq, seq_sum3};
use crate::arith::next_pow2;
use crate::arith::isqrt_spec;

verus! {

/// Raw frequency counts, before conversion to field elements.
#[derive(Debug, Clone, PartialEq, Eq)]
pub struct RawNEvals {
    pub row_pa_low: Vec<u64>,
    pub row_pa_high: Vec<u64>,
    pub row_pb_low: Vec<u64>,
    pub row_pb_high: Vec<u64>,
    pub row_pc_low: Vec<u64>,
    pub row_pc_high: Vec<u64>,
    pub col_pa: Vec<u64>,
    pub col_pb: Vec<u64>,
    pub col_pc: Vec<u64>,
}

/// Frequency counts as field elements, one vector per looked-up column of
/// the index, each of length `m`.
#[derive(Debug, Clone, PartialEq, Eq)]
pub struct NEvals {
    pub row_pa_low: Vec<Scalar>,
    pub row_pa_high: Vec<Scalar>,
    pub row_pb_low: Vec<Scalar>,
    pub row_pb_high: Vec<Scalar>,
    pub row_pc_low: Vec<Scalar>,
    pub row_pc_high: Vec<Scalar>,
    pub col_pa: Vec<Scalar>,
    pub col_pb: Vec<Scalar>,
    pub col_pc: Vec<Scalar>,
}

/// How often `v` occurs in `s`.
pub open spec fn count(s: Seq<usize>, v: nat) -> nat
    decreases s.len(),
{
    if s.len() == 0 {
        0
    } else {
        count(s.drop_last(), v) + if s.last() as nat == v {
            1nat
        } else {
            0nat
        }
    }
}

/// Counting over a concatenation adds up.
pub proof fn lemma_count_concat(a: Seq<usize>, b: Seq<usize>, v: nat)
    ensures
        count(a + b, v) == count(a, v) + count(b, v),
    decreases b.len(),
{
    if b.len() > 0 {
        assert((a + b).drop_last() =~= a + b.drop_last());
        lemma_count_concat(a, b.drop_last(), v);
    } else {
        assert(a + b =~= a);
    }
}

/// Zeros are counted at zero only.
pub proof fn lemma_count_zeros(k: nat, v: nat)
    ensures
        count(Seq::new(k, |i: int| 0usize), v) == if v == 0 { k } else { 0 },
    decreases k,
{
    if k > 0 {
        assert(Seq::new(k, |i: int| 0usize).drop_last() =~= Seq::new((k - 1) as nat, |i: int| 0usize));
        lemma_count_zeros((k - 1) as nat, v);
    }
}

/// Padding with zeros adds to the count of zero.
pub proof fn lemma_count_pad(x: Seq<usize>, n: nat, v: nat)
    requires
        x.len() <= n,
    ensures
        pad_seq(x, n).len() == n,
        pad_seq(x, n).take(n as int) == pad_seq(x, n),
        count(pad_seq(x, n), v) == count(x, v) + if v == 0 { (n - x.len()) as nat } else { 0 },
{
    lemma_count_concat(x, Seq::new((n - x.len()) as nat, |i: int| 0usize), v);
    lemma_count_zeros((n - x.len()) as nat, v);
    assert(pad_seq(x, n).take(n as int) =~= pad_seq(x, n));
}

pub proof fn lemma_count_le(s: Seq<usize>, v: nat)
    ensures
        count(s, v) <= s.len(),
    decreases s.len(),
{
    if s.len() > 0 {
        lemma_count_le(s.drop_last(), v);
    }
}

/// How often `v` occurs among the first `len` entries of the first `k`
/// sequences.
pub open spec fn total_count(vs: Seq<Seq<usize>>, len: nat, v: nat, k: nat) -> nat
    decreases k,
{
    if k == 0 {
        0
    } else {
        total_count(vs, len, v, (k - 1) as nat) + count(vs[k - 1].take(len as int), v)
    }
}

pub proof fn lemma_total_count_le(vs: Seq<Seq<usize>>, len: nat, v: nat, k: nat)
    requires
        forall|j: int| 0 <= j < k ==> len <= (#[trigger] vs[j]).len(),
    ensures
        total_count(vs, len, v, k) <= k * len,
    decreases k,
{
    if k > 0 {
        lemma_total_count_le(vs, len, v, (k - 1) as nat);
        lemma_count_le(vs[k - 1].take(len as int), v);
        assert((k - 1) * len + len == k * len) by (nonlinear_arith);
    }
}

/// The field elements have the given values, all below 2^64.
pub open spec fn scalars_are(out: Seq<Scalar>, vals: Seq<nat>) -> bool {
    &&& out.len() == vals.len()
    &&& forall|v: int| 0 <= v < out.len() ==> (#[trigger] out[v]).wf() && out[v].val() == vals[v]
}

/// Adds `w` at `counts[idx[i]]` for every `i < len`.
fn tally(counts: &mut Vec<u64>, idx: &Vec<usize>, len: usize, w: u64, bound: u64)
    requires
        len <= idx.len(),
        forall|i: int| 0 <= i < len ==> (#[trigger] idx@[i]) < old(counts).len(),
        forall|v: int| 0 <= v < old(counts).len() ==> (#[trigger] old(counts)@[v]) + w * len <= bound,
    ensures
        final(counts).len() == old(counts).len(),
        forall|v: int|
            0 <= v < old(counts).len() ==> #[trigger] final(counts)@[v] == old(counts)@[v] + w * count(
                idx@.take(len as int),
                v as nat,
            ),
{
    let ghost c0 = counts@;
    assert(idx@.take(0) =~= Seq::<usize>::empty());
    assert forall|v: int| 0 <= v < c0.len() implies #[trigger] counts@[v] == c0[v] + w * count(
        idx@.take(0),
        v as nat,
    ) by {
        assert(w * 0 == 0);
    }
    let mut i: usize = 0;
    while i < len
        invariant
            i <= len,
            len <= idx.len(),
            counts.len() == c0.len(),
            forall|i2: int| 0 <= i2 < len ==> (#[trigger] idx@[i2]) < c0.len(),
            forall|v: int| 0 <= v < c0.len() ==> (#[trigger] c0[v]) + w * len <= bound,
            forall|v: int|
                0 <= v < c0.len() ==> #[trigger] counts@[v] == c0[v] + w * count(
                    idx@.take(i as int),
                    v as nat,
                ),
        decreases len - i,
    {
        let ghost before = counts@;
        let x = idx[i];
        proof {
            assert(idx@.take(i + 1).drop_last() =~= idx@.take(i as int));
            lemma_count_le(idx@.take(i as int), x as nat);
            assert(w * count(idx@.take(i as int), x as nat) <= w * i) by (nonlinear_arith)
                requires
                    count(idx@.take(i as int), x as nat) <= i,
            ;
            assert(w * i + w <= w * len) by (nonlinear_arith)
                requires
                    i < len,
            ;
            assert(c0[x as int] + w * len <= bound);
        }
        counts.set(x, counts[x] + w);
        proof {
            assert forall|v: int| 0 <= v < c0.len() implies #[trigger] counts@[v] == c0[v] + w * count(
                idx@.take(i + 1),
                v as nat,
            ) by {
                let c = count(idx@.take(i as int), v as nat);
                if v == x {
                    assert(w * (c + 1) == w * c + w) by (nonlinear_arith);
                }
            }
        }
        i += 1;
    }
}

/// The field elements that represent the counts.
fn to_scalars(counts: &Vec<u64>, m: usize) -> (r: Vec<Scalar>)
    requires
        m <= counts.len(),
    ensures
        scalars_are(r@, Seq::new(m as nat, |v: int| counts@[v] as nat)),
{
    let mut r: Vec<Scalar> = Vec::new();
    let mut i: usize = 0;
    while i < m
        invariant
            i <= m,
            m <= counts.len(),
            scalars_are(r@, Seq::new(i as nat, |v: int| counts@[v] as nat)),
        decreases m - i,
    {
        r.push(Scalar::from_u64(counts[i]));
        i += 1;
    }
    r
}

/// A vector of `m` zero counters.
fn zero_counts(m: usize) -> (r: Vec<u64>)
    ensures
        r.len() == m,
        forall|v: int| 0 <= v < m ==> #[trigger] r@[v] == 0,
{
    let mut r: Vec<u64> = Vec::new();
    let mut i: usize = 0;
    while i < m
        invariant
            i <= m,
            r.len() == i,
            forall|v: int| 0 <= v < i ==> #[trigger] r@[v] == 0,
        decreases m - i,
    {
        r.push(0);
        i += 1;
    }
    r
}

/// Field `f` of the index: the six row digit vectors (`f < 6`), then the
/// three column vectors.
pub open spec fn index_field(r: DeRowIndex, c: DeColIndex, f: nat) -> Seq<usize> {
    if f == 0 {
        r.row_pa_low@
    } else if f == 1 {
        r.row_pa_high@
    } else if f == 2 {
        r.row_pb_low@
    } else if f == 3 {
        r.row_pb_high@
    } else if f == 4 {
        r.row_pc_low@
    } else if f == 5 {
        r.row_pc_high@
    } else if f == 6 {
        c.col_pa@
    } else if f == 7 {
        c.col_pb@
    } else {
        c.col_pc@
    }
}

fn index_field_ref<'a>(r: &'a DeRowIndex, c: &'a DeColIndex, f: usize) -> (x: &'a Vec<usize>)
    ensures
        x@ == index_field(*r, *c, f as nat),
{
    if f == 0 {
        &r.row_pa_low
    } else if f == 1 {
        &r.row_pa_high
    } else if f == 2 {
        &r.row_pb_low
    } else if f == 3 {
        &r.row_pb_high
    } else if f == 4 {
        &r.row_pc_low
    } else if f == 5 {
        &r.row_pc_high
    } else if f == 6 {
        &c.col_pa
    } else if f == 7 {
        &c.col_pb
    } else {
        &c.col_pc
    }
}

/// Field `f` of the indices of all sub-provers.
pub open spec fn index_fields(rows: Seq<DeRowIndex>, cols: Seq<DeColIndex>, f: nat) -> Seq<Seq<usize>> {
    Seq::new(rows.len(), |k: int| index_field(rows[k], cols[k], f))
}

/// The first `l` sub-provers hold at least `len` entries in every field, and
/// every one of them below `m`.
pub open spec fn n_evals_readable(
    rows: Seq<DeRowIndex>,
    cols: Seq<DeColIndex>,
    l: nat,
    m: nat,
    len: nat,
) -> bool {
    &&& rows.len() >= l && cols.len() >= l
    &&& forall|k: int, f: nat|
        0 <= k < l && f < 9 ==> len <= (#[trigger] index_field(rows[k], cols[k], f)).len()
            && forall|i: int| 0 <= i < len ==> (#[trigger] index_field(rows[k], cols[k], f)[i]) < m
}

/// Counts, over sub-provers `0..l` and positions `0..len`, how often every
/// value below `m` occurs in field `f` of the index.
fn count_field(
    rows: &Vec<DeRowIndex>,
    cols: &Vec<DeColIndex>,
    f: usize,
    len: usize,
    m: usize,
    l: usize,
) -> (r: Vec<u64>)
    requires
        f < 9,
        n_evals_readable(rows@, cols@, l as nat, m as nat, len as nat),
        l * len <= u64::MAX,
    ensures
        r.len() == m,
        forall|v: int|
            0 <= v < m ==> #[trigger] r@[v] == total_count(
                index_fields(rows@, cols@, f as nat),
                len as nat,
                v as nat,
                l as nat,
            ),
{
    let ghost vs = index_fields(rows@, cols@, f as nat);
    let mut counts = zero_counts(m);
    let mut k: usize = 0;
    while k < l
        invariant
            k <= l,
            f < 9,
            n_evals_readable(rows@, cols@, l as nat, m as nat, len as nat),
            vs == index_fields(rows@, cols@, f as nat),
            l * len <= u64::MAX,
            counts.len() == m,
            forall|v: int|
                0 <= v < m ==> #[trigger] counts@[v] == total_count(vs, len as nat, v as nat, k as nat),
        decreases l - k,
    {
        let x = index_field_ref(&rows[k], &cols[k], f);
        proof {
            assert(vs[k as int] == x@);
            assert(len <= index_field(rows@[k as int], cols@[k as int], f as nat).len());
            assert forall|i: int| 0 <= i < len implies (#[trigger] x@[i]) < counts.len() by {
                assert(index_field(rows@[k as int], cols@[k as int], f as nat)[i] < m);
            }
            assert forall|v: int| 0 <= v < counts.len() implies (#[trigger] counts@[v]) + 1 * len
                <= u64::MAX by {
                assert forall|j: int| 0 <= j < k implies len <= (#[trigger] vs[j]).len() by {
                    assert(len <= index_field(rows@[j], cols@[j], f as nat).len());
                }
                lemma_total_count_le(vs, len as nat, v as nat, k as nat);
                assert(k * len + len <= l * len) by (nonlinear_arith)
                    requires
                        k < l,
                ;
            }
        }
        tally(&mut counts, x, len, 1, u64::MAX as u64);
        k += 1;
    }
    counts
}

/// For every value `v < m`, how often it occurs in field `f` of the first
/// `l` sub-provers' indices, among their first `len` entries.
pub open spec fn field_counts(
    rows: Seq<DeRowIndex>,
    cols: Seq<DeColIndex>,
    f: nat,
    len: nat,
    l: nat,
    m: nat,
) -> Seq<nat> {
    Seq::new(m, |v: int| total_count(index_fields(rows, cols, f), len, v as nat, l))
}

/// The frequency vector of field `f`, as field elements.
pub open spec fn n_field(n: NEvals, f: nat) -> Seq<Scalar> {
    if f == 0 {
        n.row_pa_low@
    } else if f == 1 {
        n.row_pa_high@
    } else if f == 2 {
        n.row_pb_low@
    } else if f == 3 {
        n.row_pb_high@
    } else if f == 4 {
        n.row_pc_low@
    } else if f == 5 {
        n.row_pc_high@
    } else if f == 6 {
        n.col_pa@
    } else if f == 7 {
        n.col_pb@
    } else {
        n.col_pc@
    }
}

impl Indexer {
    /// Counts, for every field of the index and every value `v < m`, how
    /// often `v` occurs among the first `len` entries of the first `l`
    /// sub-provers.
    pub fn build_n_evals(
        de_row_index_vecs: &Vec<DeRowIndex>,
        de_col_index_vecs: &Vec<DeColIndex>,
        l: usize,
        m: usize,
        len: usize,
    ) -> (r: NEvals)
        requires
            n_evals_readable(de_row_index_vecs@, de_col_index_vecs@, l as nat, m as nat, len as nat),
            l * len <= u64::MAX,
        ensures
            forall|f: int|
                0 <= f < 9 ==> scalars_are(
                    #[trigger] n_field(r, f as nat),
                    field_counts(de_row_index_vecs@, de_col_index_vecs@, f as nat, len as nat, l as nat, m as nat),
                ),
    {
        let rows = de_row_index_vecs;
        let cols = de_col_index_vecs;
        let c0 = count_field(rows, cols, 0, len, m, l);
        let c1 = count_field(rows, cols, 1, len, m, l);
        let c2 = count_field(rows, cols, 2, len, m, l);
        let c3 = count_field(rows, cols, 3, len, m, l);
        let c4 = count_field(rows, cols, 4, len, m, l);
        let c5 = count_field(rows, cols, 5, len, m, l);
        let c6 = count_field(rows, cols, 6, len, m, l);
        let c7 = count_field(rows, cols, 7, len, m, l);
        let c8 = count_field(rows, cols, 8, len, m, l);
        let r = NEvals {
            row_pa_low: to_scalars(&c0, m),
            row_pa_high: to_scalars(&c1, m),
            row_pb_low: to_scalars(&c2, m),
            row_pb_high: to_scalars(&c3, m),
            row_pc_low: to_scalars(&c4, m),
            row_pc_high: to_scalars(&c5, m),
            col_pa: to_scalars(&c6, m),
            col_pb: to_scalars(&c7, m),
            col_pc: to_scalars(&c8, m),
        };
        proof {
            assert forall|f: int| 0 <= f < 9 implies scalars_are(
                #[trigger] n_field(r, f as nat),
                field_counts(rows@, cols@, f as nat, len as nat, l as nat, m as nat),
            ) by {
                let c = if f == 0 { c0 } else if f == 1 { c1 } else if f == 2 { c2 } else if f == 3 {
                    c3
                } else if f == 4 { c4 } else if f == 5 { c5 } else if f == 6 { c6 } else if f == 7 {
                    c7
                } else { c8 };
                assert(Seq::new(m as nat, |v: int| c@[v] as nat) =~= field_counts(
                    rows@,
                    cols@,
                    f as nat,
                    len as nat,
                    l as nat,
                    m as nat,
                ));
            }
        }
        r
    }
}

/// The raw counter vector of field `f`.
pub open spec fn raw_field(n: RawNEvals, f: nat) -> Seq<u64> {
    if f == 0 {
        n.row_pa_low@
    } else if f == 1 {
        n.row_pa_high@
    } else if f == 2 {
        n.row_pb_low@
    } else if f == 3 {
        n.row_pb_high@
    } else if f == 4 {
        n.row_pc_low@
    } else if f == 5 {
        n.row_pc_high@
    } else if f == 6 {
        n.col_pa@
    } else if f == 7 {
        n.col_pb@
    } else {
        n.col_pc@
    }
}

/// Which matrix field `f` belongs to: `Pa` (0), `Pb` (1) or `Pc` (2).
pub open spec fn field_matrix(f: nat) -> nat {
    if f == 0 || f == 1 || f == 6 {
        0
    } else if f == 2 || f == 3 || f == 7 {
        1
    } else {
        2
    }
}

pub open spec fn pick3(t: (usize, usize, usize), i: nat) -> nat {
    if i == 0 {
        t.0 as nat
    } else if i == 1 {
        t.1 as nat
    } else {
        t.2 as nat
    }
}

/// Adds `add` to the first counter and converts the first `m` counters.
fn add_first_and_convert(v: Vec<u64>, add: usize, m: usize) -> (r: Vec<Scalar>)
    requires
        v.len() >= 1,
        v.len() >= m,
        v@[0] + add <= u64::MAX,
    ensures
        scalars_are(
            r@,
            Seq::new(
                m as nat,
                |i: int|
                    if i == 0 {
                        (v@[0] + add) as nat
                    } else {
                        v@[i] as nat
                    },
            ),
        ),
{
    let mut v = v;
    let first = v[0] + add as u64;
    v.set(0, first);
    let r = to_scalars(&v, m);
    assert(Seq::new(m as nat, |i: int| v@[i] as nat) =~= Seq::new(
        m as nat,
        |i: int|
            if i == 0 {
                old_first_plus(first)
            } else {
                v@[i] as nat
            },
    ));
    r
}

spec fn old_first_plus(x: u64) -> nat {
    x as nat
}

/// The low (or high) digit in base `s` of row `r + m j`.
pub open spec fn dp_digit(r: nat, m: nat, j: nat, s: nat, high: bool) -> nat {
    if high {
        high_digit(r + m * j, s)
    } else {
        low_digit(r + m * j, s)
    }
}

/// How many of the rows `r, r + m, ..., r + m (j - 1)` have digit `v`.
pub open spec fn digit_hits(r: nat, m: nat, s: nat, j: nat, v: nat, high: bool) -> nat
    decreases j,
{
    if j == 0 {
        0
    } else {
        digit_hits(r, m, s, (j - 1) as nat, v, high) + if dp_digit(r, m, (j - 1) as nat, s, high) == v {
            1nat
        } else {
            0nat
        }
    }
}

/// The row (reduced modulo `m`) of the `i`-th entry of a data-parallel share.
pub open spec fn dp_row(lo: Seq<usize>, hi: Seq<usize>, i: int, s: nat, m: nat) -> nat {
    ((lo[i] + hi[i] * s) as nat) % m
}

/// Entry `i` of a share is padding: it lies among the last `p` entries.
pub open spec fn dp_padded(lo: Seq<usize>, p: nat, i: int) -> bool {
    i >= lo.len() - p
}

/// How often digit `v` occurs when every non-padding entry among the first
/// `len` stands for its row in all `l` blocks, and every padding entry for
/// `l` zeros.
pub open spec fn dp_row_count(
    lo: Seq<usize>,
    hi: Seq<usize>,
    p: nat,
    len: nat,
    m: nat,
    s: nat,
    l: nat,
    v: nat,
    high: bool,
) -> nat
    decreases len,
{
    if len == 0 {
        0
    } else {
        let i = len - 1;
        dp_row_count(lo, hi, p, (len - 1) as nat, m, s, l, v, high) + if dp_padded(lo, p, i) {
            if v == 0 {
                l
            } else {
                0nat
            }
        } else {
            digit_hits(dp_row(lo, hi, i, s, m), m, s, l, v, high)
        }
    }
}

/// What the data-parallel frequency count reads of one matrix without
/// panicking.
pub open spec fn dp_rows_readable(
    lo: Seq<usize>,
    hi: Seq<usize>,
    p: nat,
    len: nat,
    m: nat,
    l: nat,
    s: nat,
) -> bool {
    &&& p <= lo.len()
    &&& (len > 0 && len > lo.len() - p ==> m > 0)
    &&& forall|i: int|
        0 <= i < len && !#[trigger] dp_padded(lo, p, i) ==> {
            &&& i < hi.len()
            &&& lo[i] + hi[i] * s <= usize::MAX
            &&& m > 0
            &&& (l > 0 ==> s > 0)
            &&& forall|j: nat|
                j < l ==> #[trigger] dp_digit(dp_row(lo, hi, i, s, m), m, j, s, false) < m
                    && dp_digit(dp_row(lo, hi, i, s, m), m, j, s, true) < m
        }
}

proof fn lemma_digit_hits_le(r: nat, m: nat, s: nat, j: nat, v: nat, high: bool)
    ensures
        digit_hits(r, m, s, j, v, high) <= j,
    decreases j,
{
    if j > 0 {
        lemma_digit_hits_le(r, m, s, (j - 1) as nat, v, high);
    }
}

proof fn lemma_dp_row_count_le(
    lo: Seq<usize>,
    hi: Seq<usize>,
    p: nat,
    len: nat,
    m: nat,
    s: nat,
    l: nat,
    v: nat,
    high: bool,
)
    ensures
        dp_row_count(lo, hi, p, len, m, s, l, v, high) <= len * l,
    decreases len,
{
    if len > 0 {
        lemma_dp_row_count_le(lo, hi, p, (len - 1) as nat, m, s, l, v, high);
        if !dp_padded(lo, p, len - 1) {
            lemma_digit_hits_le(dp_row(lo, hi, len - 1, s, m), m, s, l, v, high);
        }
        assert((len - 1) * l + l == len * l) by (nonlinear_arith);
    }
}

/// Counts the row digits of one matrix's data-parallel share: a padding
/// entry adds `l` at zero to both counters; any other entry, whose row is
/// `r` modulo `m`, adds one at the digits of each of `r, r + m, ...,
/// r + m (l - 1)`.
fn dp_count_rows(
    lo: &Vec<usize>,
    hi: &Vec<usize>,
    p: usize,
    len: usize,
    m: usize,
    l: usize,
    s: usize,
    out_low: &mut Vec<u64>,
    out_high: &mut Vec<u64>,
)
    requires
        dp_rows_readable(lo@, hi@, p as nat, len as nat, m as nat, l as nat, s as nat),
        old(out_low).len() == m,
        old(out_high).len() == m,
        m * l <= usize::MAX,
        len * l <= u64::MAX,
        forall|v: int| 0 <= v < m ==> (#[trigger] old(out_low)@[v]) == 0,
        forall|v: int| 0 <= v < m ==> (#[trigger] old(out_high)@[v]) == 0,
    ensures
        final(out_low).len() == m,
        final(out_high).len() == m,
        forall|v: int|
            0 <= v < m ==> #[trigger] final(out_low)@[v] == dp_row_count(
                lo@,
                hi@,
                p as nat,
                len as nat,
                m as nat,
                s as nat,
                l as nat,
                v as nat,
                false,
            ),
        forall|v: int|
            0 <= v < m ==> #[trigger] final(out_high)@[v] == dp_row_count(
                lo@,
                hi@,
                p as nat,
                len as nat,
                m as nat,
                s as nat,
                l as nat,
                v as nat,
                true,
            ),
{
    let mut i: usize = 0;
    while i < len
        invariant
            i <= len,
            dp_rows_readable(lo@, hi@, p as nat, len as nat, m as nat, l as nat, s as nat),
            out_low.len() == m,
            out_high.len() == m,
            m * l <= usize::MAX,
            len * l <= u64::MAX,
            forall|v: int|
                0 <= v < m ==> #[trigger] out_low@[v] == dp_row_count(
                    lo@,
                    hi@,
                    p as nat,
                    i as nat,
                    m as nat,
                    s as nat,
                    l as nat,
                    v as nat,
                    false,
                ),
            forall|v: int|
                0 <= v < m ==> #[trigger] out_high@[v] == dp_row_count(
                    lo@,
                    hi@,
                    p as nat,
                    i as nat,
                    m as nat,
                    s as nat,
                    l as nat,
                    v as nat,
                    true,
                ),
        decreases len - i,
    {
        proof {
            assert forall|v: int| 0 <= v < m implies (#[trigger] out_high@[v]) + l <= u64::MAX by {
                lemma_dp_row_count_le(lo@, hi@, p as nat, i as nat, m as nat, s as nat, l as nat, v as nat, true);
                assert(i * l + l <= len * l) by (nonlinear_arith)
                    requires
                        i < len,
                ;
            }
            assert forall|v: int| 0 <= v < m implies (#[trigger] out_low@[v]) + l <= u64::MAX by {
                lemma_dp_row_count_le(lo@, hi@, p as nat, i as nat, m as nat, s as nat, l as nat, v as nat, false);
                lemma_dp_row_count_le(lo@, hi@, p as nat, i as nat, m as nat, s as nat, l as nat, v as nat, true);
                assert(i * l + l <= len * l) by (nonlinear_arith)
                    requires
                        i < len,
                ;
            }
        }
        if i >= lo.len() - p {
            assert(dp_padded(lo@, p as nat, i as int));
            let x = out_low[0] + l as u64;
            out_low.set(0, x);
            let y = out_high[0] + l as u64;
            out_high.set(0, y);
        } else {
            assert(!dp_padded(lo@, p as nat, i as int));
            let r = (lo[i] + hi[i] * s) % m;
            assert(r == dp_row(lo@, hi@, i as int, s as nat, m as nat));
            let ghost before_low = out_low@;
            let ghost before_high = out_high@;
            let mut j: usize = 0;
            while j < l
                invariant
                    j <= l,
                    dp_rows_readable(lo@, hi@, p as nat, len as nat, m as nat, l as nat, s as nat),
                    !dp_padded(lo@, p as nat, i as int),
                    0 <= i < len,
                    r == dp_row(lo@, hi@, i as int, s as nat, m as nat),
                    r < m,
                    m * l <= usize::MAX,
                    out_low.len() == m,
                    out_high.len() == m,
                    forall|v: int| 0 <= v < m ==> (#[trigger] before_low[v]) + l <= u64::MAX,
                    forall|v: int| 0 <= v < m ==> (#[trigger] before_high[v]) + l <= u64::MAX,
                    forall|v: int|
                        0 <= v < m ==> #[trigger] out_low@[v] == before_low[v] + digit_hits(
                            r as nat,
                            m as nat,
                            s as nat,
                            j as nat,
                            v as nat,
                            false,
                        ),
                    forall|v: int|
                        0 <= v < m ==> #[trigger] out_high@[v] == before_high[v] + digit_hits(
                            r as nat,
                            m as nat,
                            s as nat,
                            j as nat,
                            v as nat,
                            true,
                        ),
                decreases l - j,
            {
                proof {
                    assert(r + m * j < m * l) by (nonlinear_arith)
                        requires
                            r < m,
                            j < l,
                    ;
                    assert(dp_digit(r as nat, m as nat, j as nat, s as nat, false) < m);
                }
                let idx = r + m * j;
                let (lo_d, hi_d) = decompose(idx, s);
                proof {
                    lemma_digit_hits_le(r as nat, m as nat, s as nat, j as nat, lo_d as nat, false);
                    lemma_digit_hits_le(r as nat, m as nat, s as nat, j as nat, hi_d as nat, true);
                }
                let x = out_low[lo_d] + 1;
                out_low.set(lo_d, x);
                let y = out_high[hi_d] + 1;
                out_high.set(hi_d, y);
                j += 1;
            }
        }
        i += 1;
    }
}

impl Indexer {
    /// Completes frequency counts that were gathered over the network: the
    /// padding entries of all sub-provers (whose digits and columns are all
    /// zero) are added at zero, then the first `m` counters are converted to
    /// field elements.
    pub fn build_n_evals_de(n_evals: RawNEvals, m: usize, total_paddings: (usize, usize, usize)) -> (r:
        NEvals)
        requires
            forall|f: nat|
                f < 9 ==> (#[trigger] raw_field(n_evals, f)).len() >= 1 && raw_field(n_evals, f).len()
                    >= m && raw_field(n_evals, f)[0] + pick3(total_paddings, field_matrix(f))
                    <= u64::MAX,
        ensures
            forall|f: nat|
                f < 9 ==> scalars_are(
                    #[trigger] n_field(r, f),
                    Seq::new(
                        m as nat,
                        |v: int|
                            if v == 0 {
                                (raw_field(n_evals, f)[0] + pick3(total_paddings, field_matrix(f))) as nat
                            } else {
                                raw_field(n_evals, f)[v] as nat
                            },
                    ),
                ),
    {
        let (a, b, c) = total_paddings;
        assert(raw_field(n_evals, 0) == n_evals.row_pa_low@);
        assert(raw_field(n_evals, 1) == n_evals.row_pa_high@);
        assert(raw_field(n_evals, 2) == n_evals.row_pb_low@);
        assert(raw_field(n_evals, 3) == n_evals.row_pb_high@);
        assert(raw_field(n_evals, 4) == n_evals.row_pc_low@);
        assert(raw_field(n_evals, 5) == n_evals.row_pc_high@);
        assert(raw_field(n_evals, 6) == n_evals.col_pa@);
        assert(raw_field(n_evals, 7) == n_evals.col_pb@);
        assert(raw_field(n_evals, 8) == n_evals.col_pc@);
        let ghost n0 = n_evals;
        let RawNEvals {
            row_pa_low,
            row_pa_high,
            row_pb_low,
            row_pb_high,
            row_pc_low,
            row_pc_high,
            col_pa,
            col_pb,
            col_pc,
        } = n_evals;
        let r = NEvals {
            row_pa_low: add_first_and_convert(row_pa_low, a, m),
            row_pa_high: add_first_and_convert(row_pa_high, a, m),
            row_pb_low: add_first_and_convert(row_pb_low, b, m),
            row_pb_high: add_first_and_convert(row_pb_high, b, m),
            row_pc_low: add_first_and_convert(row_pc_low, c, m),
            row_pc_high: add_first_and_convert(row_pc_high, c, m),
            col_pa: add_first_and_convert(col_pa, a, m),
            col_pb: add_first_and_convert(col_pb, b, m),
            col_pc: add_first_and_convert(col_pc, c, m),
        };
        r
    }

    /// Frequency counts from one sub-prover's share alone, for a
    /// data-parallel circuit whose `l` blocks are identical: every
    /// non-padding entry, whose row is `r` modulo `m`, stands for the rows
    /// `r + m j` of all `l` blocks; every padding entry for `l` zeros; and
    /// every column occurs `l` times.
    pub fn build_n_evals_data_parallel(
        de_row_index_vecs: &DeRowIndex,
        de_col_index_vecs: &DeColIndex,
        l: usize,
        m: usize,
        len: usize,
        paddings: (usize, usize, usize),
    ) -> (r: NEvals)
        requires
            m * l <= usize::MAX,
            len * l <= u64::MAX,
            ({
                let row = *de_row_index_vecs;
                let s = crate::arith::isqrt_spec((m * l) as nat);
                &&& dp_rows_readable(row.row_pa_low@, row.row_pa_high@, paddings.0 as nat, len as nat, m as nat, l as nat, s)
                &&& dp_rows_readable(row.row_pb_low@, row.row_pb_high@, paddings.1 as nat, len as nat, m as nat, l as nat, s)
                &&& dp_rows_readable(row.row_pc_low@, row.row_pc_high@, paddings.2 as nat, len as nat, m as nat, l as nat, s)
            }),
            forall|f: nat|
                6 <= f < 9 ==> len <= (#[trigger] index_field(*de_row_index_vecs, *de_col_index_vecs, f)).len()
                    && forall|i: int|
                    0 <= i < len ==> (#[trigger] index_field(*de_row_index_vecs, *de_col_index_vecs, f)[i]) < m,
        ensures
            forall|f: nat|
                f < 9 ==> scalars_are(
                    #[trigger] n_field(r, f),
                    dp_field_counts(*de_row_index_vecs, *de_col_index_vecs, f, paddings, len as nat, l as nat, m as nat),
                ),
    {
        let ml = m * l;
        let sqrt_ml = isqrt(ml);
        let row = de_row_index_vecs;
        let col = de_col_index_vecs;
        let mut c0 = zero_counts(m);
        let mut c1 = zero_counts(m);
        let mut c2 = zero_counts(m);
        let mut c3 = zero_counts(m);
        let mut c4 = zero_counts(m);
        let mut c5 = zero_counts(m);
        dp_count_rows(&row.row_pa_low, &row.row_pa_high, paddings.0, len, m, l, sqrt_ml, &mut c0, &mut c1);
        dp_count_rows(&row.row_pb_low, &row.row_pb_high, paddings.1, len, m, l, sqrt_ml, &mut c2, &mut c3);
        dp_count_rows(&row.row_pc_low, &row.row_pc_high, paddings.2, len, m, l, sqrt_ml, &mut c4, &mut c5);
        let mut c6 = zero_counts(m);
        let mut c7 = zero_counts(m);
        let mut c8 = zero_counts(m);
        proof {
            assert(index_field(*row, *col, 6) == col.col_pa@);
            assert(index_field(*row, *col, 7) == col.col_pb@);
            assert(index_field(*row, *col, 8) == col.col_pc@);
            assert(l * len == len * l) by (nonlinear_arith);
            assert forall|v: int| 0 <= v < m implies (#[trigger] c6@[v]) + l * len <= u64::MAX by {}
            assert forall|v: int| 0 <= v < m implies (#[trigger] c7@[v]) + l * len <= u64::MAX by {}
            assert forall|v: int| 0 <= v < m implies (#[trigger] c8@[v]) + l * len <= u64::MAX by {}
        }
        tally(&mut c6, &col.col_pa, len, l as u64, u64::MAX as u64);
        tally(&mut c7, &col.col_pb, len, l as u64, u64::MAX as u64);
        tally(&mut c8, &col.col_pc, len, l as u64, u64::MAX as u64);
        let r = NEvals {
            row_pa_low: to_scalars(&c0, m),
            row_pa_high: to_scalars(&c1, m),
            row_pb_low: to_scalars(&c2, m),
            row_pb_high: to_scalars(&c3, m),
            row_pc_low: to_scalars(&c4, m),
            row_pc_high: to_scalars(&c5, m),
            col_pa: to_scalars(&c6, m),
            col_pb: to_scalars(&c7, m),
            col_pc: to_scalars(&c8, m),
        };
        proof {
            assert forall|f: nat| f < 9 implies scalars_are(
                #[trigger] n_field(r, f),
                dp_field_counts(*row, *col, f, paddings, len as nat, l as nat, m as nat),
            ) by {
                let c = if f == 0 { c0 } else if f == 1 { c1 } else if f == 2 { c2 } else if f == 3 {
                    c3
                } else if f == 4 { c4 } else if f == 5 { c5 } else if f == 6 { c6 } else if f == 7 {
                    c7
                } else { c8 };
                assert(Seq::new(m as nat, |v: int| c@[v] as nat) =~= dp_field_counts(
                    *row,
                    *col,
                    f,
                    paddings,
                    len as nat,
                    l as nat,
                    m as nat,
                ));
            }
        }
        r
    }
}

/// The counts that the data-parallel builder reports for field `f`.
pub open spec fn dp_field_counts(
    row: DeRowIndex,
    col: DeColIndex,
    f: nat,
    paddings: (usize, usize, usize),
    len: nat,
    l: nat,
    m: nat,
) -> Seq<nat> {
    let s = crate::arith::isqrt_spec((m * l) as nat);
    Seq::new(
        m,
        |v: int|
            if f < 6 {
                let lo = if f < 2 {
                    row.row_pa_low@
                } else if f < 4 {
                    row.row_pb_low@
                } else {
                    row.row_pc_low@
                };
                let hi = if f < 2 {
                    row.row_pa_high@
                } else if f < 4 {
                    row.row_pb_high@
                } else {
                    row.row_pc_high@
                };
                dp_row_count(lo, hi, pick3(paddings, field_matrix(f)), len, m, s, l, v as nat, f % 2 == 1)
            } else {
                l * count(index_field(row, col, f).take(len as int), v as nat)
            },
    )
}

/// A value that does not occur is counted zero times.
proof fn lemma_count_absent(x: Seq<usize>, v: nat)
    requires
        forall|i: int| 0 <= i < x.len() ==> (#[trigger] x[i]) as nat != v,
    ensures
        count(x, v) == 0,
    decreases x.len(),
{
    if x.len() > 0 {
        lemma_count_absent(x.drop_last(), v);
    }
}

/// Every entry a sub-prover owns is an entry of the matrix.
pub proof fn lemma_owned_rows_below(ts: Seq<Triple>, k: nat, m: nat, bound: nat)
    requires
        forall|j: int| 0 <= j < ts.len() ==> (#[trigger] ts[j]).0 < bound,
    ensures
        forall|i: int| 0 <= i < owned_by(ts, k, m).len() ==> (#[trigger] owned_by(ts, k, m)[i]).0 < bound,
    decreases ts.len(),
{
    if ts.len() > 0 {
        let prev = owned_by(ts.drop_last(), k, m);
        lemma_owned_rows_below(ts.drop_last(), k, m, bound);
        assert(ts.last().0 < bound);
        assert forall|i: int| 0 <= i < owned_by(ts, k, m).len() implies (#[trigger] owned_by(ts, k, m)[i]).0
            < bound by {
            if i < prev.len() {
                assert(owned_by(ts, k, m)[i] == prev[i]);
            } else {
                assert(owned_by(ts, k, m)[i] == ts.last());
            }
        }
    }
}

/// Where `l <= m`, the index that the global builder returns can be counted:
/// every sub-prover holds `n` entries in each of its nine vectors, all below
/// `m`, so `build_n_evals` accepts it.
pub proof fn law_index_readable(
    cs: ConstraintMatrices,
    m: nat,
    l: nat,
    global: (Seq<DeRowIndex>, Seq<DeColIndex>, Seq<DeValEvals>, nat),
)
    requires
        1 <= l <= m,
        m * l <= usize::MAX,
        global.0.len() == l && global.1.len() == l && global.2.len() == l,
        global.3 == next_pow2(max_owned_count(cs, m, m * l, l)),
        forall|j: int|
            0 <= j < l ==> #[trigger] index_holds(
                global.0[j],
                global.1[j],
                global.2[j],
                owned_entries(cs.a, j as nat, m, m * l),
                owned_entries(cs.b, j as nat, m, m * l),
                owned_entries(cs.c, j as nat, m, m * l),
                0,
                isqrt_spec(m * l),
                m,
                true,
                global.3,
            ),
    ensures
        n_evals_readable(global.0, global.1, l, m, global.3),
{
    let n = global.3;
    assert forall|k: int, f: nat| 0 <= k < l && f < 9 implies n <= (#[trigger] index_field(
        global.0[k],
        global.1[k],
        f,
    )).len() && forall|i: int| 0 <= i < n ==> (#[trigger] index_field(global.0[k], global.1[k], f)[i]) < m by {
        assert(index_holds(
            global.0[k],
            global.1[k],
            global.2[k],
            owned_entries(cs.a, k as nat, m, m * l),
            owned_entries(cs.b, k as nat, m, m * l),
            owned_entries(cs.c, k as nat, m, m * l),
            0,
            isqrt_spec(m * l),
            m,
            true,
            n,
        ));
        law_index_bounds(cs, m, l, k as nat, global.0[k], global.1[k], global.2[k], n);
        let row = global.0[k];
        let col = global.1[k];
        assert forall|i: int| 0 <= i < n implies (#[trigger] index_field(global.0[k], global.1[k], f)[i]) < m by {
            assert(col.col_pa@[i] < m);
            assert(row.row_pa_high@[i] < m);
            assert(row.row_pa_low@[i] < m);
        }
    }
}

/// The lookup frequencies of the row digits vanish past `s = floor(sqrt(ml))`:
/// no low digit reaches `s`, and when `ml = s^2` no high digit does either.
pub proof fn law_row_digit_counts_vanish(
    cs: ConstraintMatrices,
    m: nat,
    l: nat,
    global: (Seq<DeRowIndex>, Seq<DeColIndex>, Seq<DeValEvals>, nat),
    f: nat,
    v: nat,
)
    requires
        l >= 1,
        m * l <= usize::MAX,
        global.0.len() == l && global.1.len() == l,
        forall|j: int|
            0 <= j < l ==> #[trigger] index_holds(
                global.0[j],
                global.1[j],
                global.2[j],
                owned_entries(cs.a, j as nat, m, m * l),
                owned_entries(cs.b, j as nat, m, m * l),
                owned_entries(cs.c, j as nat, m, m * l),
                0,
                isqrt_spec(m * l),
                m,
                true,
                global.3,
            ),
        f < 6,
        isqrt_spec(m * l) <= v < m,
        f % 2 == 1 ==> isqrt_spec(m * l) * isqrt_spec(m * l) == m * l,
    ensures
        field_counts(global.0, global.1, f, global.3, l, m)[v as int] == 0,
{
    let ml = m * l;
    let s = isqrt_spec(ml);
    let n = global.3;
    crate::arith::lemma_isqrt_exists(ml);
    assert(m <= ml) by (nonlinear_arith)
        requires
            l >= 1,
            ml == m * l,
    ;
    assert(s > 0) by {
        if s == 0 {
            assert((s + 1) * (s + 1) == 1) by (nonlinear_arith)
                requires
                    s == 0,
            ;
        }
    }
    let vs = index_fields(global.0, global.1, f);
    let mat = if f < 2 { cs.a } else if f < 4 { cs.b } else { cs.c };
    lemma_rows_below(mat.0@, mat.1@, ml);
    assert forall|j: nat| j <= l implies #[trigger] total_count(vs, n, v, j) == 0 by {
        lemma_vanish_prefix(cs, mat, m, l, global, f, v, j);
    }
}

proof fn lemma_vanish_prefix(
    cs: ConstraintMatrices,
    mat: SparseMatrix,
    m: nat,
    l: nat,
    global: (Seq<DeRowIndex>, Seq<DeColIndex>, Seq<DeValEvals>, nat),
    f: nat,
    v: nat,
    c: nat,
)
    requires
        c <= l,
        l >= 1,
        m * l <= usize::MAX,
        global.0.len() == l && global.1.len() == l,
        forall|j: int|
            0 <= j < l ==> #[trigger] index_holds(
                global.0[j],
                global.1[j],
                global.2[j],
                owned_entries(cs.a, j as nat, m, m * l),
                owned_entries(cs.b, j as nat, m, m * l),
                owned_entries(cs.c, j as nat, m, m * l),
                0,
                isqrt_spec(m * l),
                m,
                true,
                global.3,
            ),
        f < 6,
        0 < isqrt_spec(m * l) <= v,
        f % 2 == 1 ==> isqrt_spec(m * l) * isqrt_spec(m * l) == m * l,
        mat == (if f < 2 { cs.a } else if f < 4 { cs.b } else { cs.c }),
        forall|i: int|
            0 <= i < csr_triples(mat.0@, mat.1@, m * l).len() ==> (#[trigger] csr_triples(mat.0@, mat.1@, m * l)[i]).0
                < m * l,
    ensures
        total_count(index_fields(global.0, global.1, f), global.3, v, c) == 0,
    decreases c,
{
    if c > 0 {
        let j = (c - 1) as nat;
        lemma_vanish_prefix(cs, mat, m, l, global, f, v, j);
        let ml = m * l;
        let s = isqrt_spec(ml);
        let n = global.3;
        let ts = csr_triples(mat.0@, mat.1@, ml);
        let owned = owned_by(ts, j, m);
        assert(index_holds(
            global.0[j as int],
            global.1[j as int],
            global.2[j as int],
            owned_entries(cs.a, j, m, ml),
            owned_entries(cs.b, j, m, ml),
            owned_entries(cs.c, j, m, ml),
            0,
            s,
            m,
            true,
            n,
        ));
        let x = index_fields(global.0, global.1, f)[j as int];
        let d = if f % 2 == 1 { highs(owned, 0, s) } else { lows(owned, 0, s) };
        assert(x == pad_seq(d, n));
        lemma_owned_rows_below(ts, j, m, ml);
        assert forall|i: int| 0 <= i < x.take(n as int).len() implies (#[trigger] x.take(n as int)[i]) as nat != v by {
            if i < d.len() {
                let r = owned[i].0 as nat;
                assert(r < ml);
                vstd::arithmetic::div_mod::lemma_fundamental_div_mod(r as int, s as int);
                if f % 2 == 1 {
                    assert(r / s < s) by (nonlinear_arith)
                        requires
                            r < s * s,
                            s > 0,
                            r == s * (r / s) + r % s,
                            r % s >= 0,
                    ;
                    assert(r / s <= usize::MAX);
                } else {
                    assert(r % s < s);
                    assert(r % s <= r);
                }
            }
        }
        lemma_count_absent(x.take(n as int), v);
    }
}

/// How often `v` occurs in the first `k` sequences, each taken whole.
pub open spec fn sum_counts(vs: Seq<Seq<usize>>, v: nat, k: nat) -> nat
    decreases k,
{
    if k == 0 {
        0
    } else {
        sum_counts(vs, v, (k - 1) as nat) + count(vs[k - 1], v)
    }
}

/// Component `i` of a triple of naturals.
pub open spec fn pick3_nat(t: (nat, nat, nat), i: nat) -> nat {
    if i == 0 {
        t.0
    } else if i == 1 {
        t.1
    } else {
        t.2
    }
}

/// The counts over the first `c` padded shares are those over the
/// unpadded shares plus, at zero, the paddings of those shares.
proof fn lemma_padded_counts(
    rows_u: Seq<DeRowIndex>,
    cols_u: Seq<DeColIndex>,
    rows_p: Seq<DeRowIndex>,
    cols_p: Seq<DeColIndex>,
    counts: Seq<(usize, usize, usize)>,
    paddings: Seq<(usize, usize, usize)>,
    n: nat,
    l: nat,
    f: nat,
    v: nat,
    c: nat,
)
    requires
        c <= l,
        f < 9,
        rows_u.len() == l && cols_u.len() == l && rows_p.len() == l && cols_p.len() == l,
        counts.len() == l && paddings.len() == l,
        forall|k: int|
            0 <= k < l ==> (#[trigger] index_field(rows_u[k], cols_u[k], f)).len() == pick3(counts[k], field_matrix(f))
                && pick3(counts[k], field_matrix(f)) <= n,
        forall|k: int|
            0 <= k < l ==> #[trigger] index_field(rows_p[k], cols_p[k], f) == pad_seq(index_field(rows_u[k], cols_u[k], f), n),
        forall|k: int|
            0 <= k < l ==> #[trigger] pick3(paddings[k], field_matrix(f)) == n - pick3(counts[k], field_matrix(f)),
    ensures
        total_count(index_fields(rows_p, cols_p, f), n, v, c) == sum_counts(index_fields(rows_u, cols_u, f), v, c)
            + if v == 0 {
            pick3_nat(seq_sum3(paddings.take(c as int)), field_matrix(f))
        } else {
            0
        },
    decreases c,
{
    if c == 0 {
        assert(paddings.take(0) =~= Seq::<(usize, usize, usize)>::empty());
    } else {
        let k = c - 1;
        lemma_padded_counts(rows_u, cols_u, rows_p, cols_p, counts, paddings, n, l, f, v, (c - 1) as nat);
        let x = index_field(rows_u[k], cols_u[k], f);
        assert(index_fields(rows_p, cols_p, f)[k] == pad_seq(x, n));
        assert(index_fields(rows_u, cols_u, f)[k] == x);
        assert(x.len() == pick3(counts[k], field_matrix(f)) && x.len() <= n);
        lemma_count_pad(x, n, v);
        assert(paddings.take(c as int).drop_last() =~= paddings.take(k));
        assert(paddings.take(c as int).last() == paddings[k]);
        let fm = field_matrix(f);
        assert(pick3_nat(seq_sum3(paddings.take(c as int)), fm) == pick3_nat(seq_sum3(paddings.take(k)), fm) + pick3(
            paddings[k],
            fm,
        ));
        assert(pick3(paddings[k], fm) == n - x.len());
        assert(total_count(index_fields(rows_p, cols_p, f), n, v, c) == total_count(index_fields(rows_p, cols_p, f), n, v, (c - 1) as nat)
            + count(index_fields(rows_p, cols_p, f)[k].take(n as int), v));
    }
}

/// Completing frequency counts gathered over the sub-provers' unpadded
/// shares (`raw`, each share counted whole) with the sum of their paddings
/// at zero, as
/// `build_n_evals_de` does, gives the counts over their padded shares, as
/// `build_n_evals` makes them.
pub proof fn law_completed_counts_are_global(
    rows_u: Seq<DeRowIndex>,
    cols_u: Seq<DeColIndex>,
    rows_p: Seq<DeRowIndex>,
    cols_p: Seq<DeColIndex>,
    counts: Seq<(usize, usize, usize)>,
    paddings: Seq<(usize, usize, usize)>,
    total: (usize, usize, usize),
    raw: RawNEvals,
    n: nat,
    l: nat,
    m: nat,
)
    requires
        rows_u.len() == l && cols_u.len() == l && rows_p.len() == l && cols_p.len() == l,
        counts.len() == l && paddings.len() == l,
        forall|k: int, f: nat|
            0 <= k < l && f < 9 ==> (#[trigger] index_field(rows_u[k], cols_u[k], f)).len() == pick3(
                counts[k],
                field_matrix(f),
            ) && pick3(counts[k], field_matrix(f)) <= n,
        forall|k: int, f: nat|
            0 <= k < l && f < 9 ==> #[trigger] index_field(rows_p[k], cols_p[k], f) == pad_seq(
                index_field(rows_u[k], cols_u[k], f),
                n,
            ),
        forall|k: int|
            0 <= k < l ==> (#[trigger] paddings[k]).0 == n - counts[k].0 && paddings[k].1 == n - counts[k].1
                && paddings[k].2 == n - counts[k].2,
        total.0 == seq_sum3(paddings).0 && total.1 == seq_sum3(paddings).1 && total.2 == seq_sum3(paddings).2,
        forall|f: nat, v: int|
            f < 9 && 0 <= v < m ==> (#[trigger] raw_field(raw, f)[v]) == sum_counts(
                index_fields(rows_u, cols_u, f),
                v as nat,
                l,
            ),
    ensures
        forall|f: nat|
            f < 9 ==> #[trigger] field_counts(rows_p, cols_p, f, n, l, m) == Seq::new(
                m,
                |v: int|
                    if v == 0 {
                        (raw_field(raw, f)[0] + pick3(total, field_matrix(f))) as nat
                    } else {
                        raw_field(raw, f)[v] as nat
                    },
            ),
{
    assert(paddings.take(l as int) =~= paddings);
    assert forall|f: nat| f < 9 implies #[trigger] field_counts(rows_p, cols_p, f, n, l, m) == Seq::new(
        m,
        |v: int|
            if v == 0 {
                (raw_field(raw, f)[0] + pick3(total, field_matrix(f))) as nat
            } else {
                raw_field(raw, f)[v] as nat
            },
    ) by {
        assert forall|k: int| 0 <= k < l implies #[trigger] pick3(paddings[k], field_matrix(f)) == n - pick3(
            counts[k],
            field_matrix(f),
        ) by {
            assert(index_field(rows_u[k], cols_u[k], f).len() == pick3(counts[k], field_matrix(f)));
        }
        assert forall|k: int| 0 <= k < l implies (#[trigger] index_field(rows_u[k], cols_u[k], f)).len() == pick3(
            counts[k],
            field_matrix(f),
        ) && pick3(counts[k], field_matrix(f)) <= n by {}
        assert forall|k: int| 0 <= k < l implies #[trigger] index_field(rows_p[k], cols_p[k], f) == pad_seq(
            index_field(rows_u[k], cols_u[k], f),
            n,
        ) by {}
        assert forall|v: int| 0 <= v < m implies #[trigger] field_counts(rows_p, cols_p, f, n, l, m)[v] == (if v == 0 {
            (raw_field(raw, f)[0] + pick3(total, field_matrix(f))) as nat
        } else {
            raw_field(raw, f)[v] as nat
        }) by {
            lemma_padded_counts(rows_u, cols_u, rows_p, cols_p, counts, paddings, n, l, f, v as nat, l);
            assert(raw_field(raw, f)[v] == sum_counts(index_fields(rows_u, cols_u, f), v as nat, l));
        }
        assert(field_counts(rows_p, cols_p, f, n, l, m) =~= Seq::new(
            m,
            |v: int|
                if v == 0 {
                    (raw_field(raw, f)[0] + pick3(total, field_matrix(f))) as nat
                } else {
                    raw_field(raw, f)[v] as nat
                },
        ));
    }
}

} // verus!
