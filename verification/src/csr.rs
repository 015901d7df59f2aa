//! The public constraint matrices in compressed-row form, and the walk over
//! their non-zero entries that the index builders share.
use vstd::prelude::*;
use crate::arith::{decompose, high_digit, low_digit};
use crate::field::Scalar;

verus! {

/// A sparse matrix in compressed-row form: the non-zero entries as
/// `(value, column)` pairs, row after row, and for each row the position just
/// past its last entry.
pub type SparseMatrix = (Vec<(Scalar, usize)>, Vec<usize>);

/// The three public R1CS matrices.
pub struct ConstraintMatrices {
    pub a: SparseMatrix,
    pub b: SparseMatrix,
    pub c: SparseMatrix,
}

/// A non-zero entry as `(row, value, column)`.
pub type Triple = (usize, Scalar, usize);

/// Where row `r` starts among the entries.
pub open spec fn row_start(ends: Seq<usize>, r: int) -> int {
    if r <= 0 {
        0
    } else {
        ends[r - 1] as int
    }
}

/// The first `nrows` rows describe valid, consecutive ranges of entries.
pub open spec fn csr_wf(entries: Seq<(Scalar, usize)>, ends: Seq<usize>, nrows: nat) -> bool {
    &&& nrows <= ends.len()
    &&& forall|r: int|
        0 <= r < nrows ==> row_start(ends, r) <= #[trigger] ends[r] && ends[r] <= entries.len()
}

/// The entries of row `r`.
pub open spec fn row_triples(entries: Seq<(Scalar, usize)>, ends: Seq<usize>, r: int) -> Seq<
    Triple,
> {
    entries.subrange(row_start(ends, r), ends[r] as int).map_values(
        |e: (Scalar, usize)| (r as usize, e.0, e.1),
    )
}

/// The entries of the first `n` rows, in row order.
pub open spec fn csr_triples(entries: Seq<(Scalar, usize)>, ends: Seq<usize>, n: nat) -> Seq<
    Triple,
>
    decreases n,
{
    if n == 0 {
        Seq::empty()
    } else {
        csr_triples(entries, ends, (n - 1) as nat) + row_triples(entries, ends, n - 1)
    }
}

/// The entries whose column lies in the `k`-th block of `m` columns.
pub open spec fn owned_by(ts: Seq<Triple>, k: nat, m: nat) -> Seq<Triple>
    decreases ts.len(),
{
    if ts.len() == 0 {
        ts
    } else {
        let prev = owned_by(ts.drop_last(), k, m);
        if ts.last().2 as nat / m == k {
            prev.push(ts.last())
        } else {
            prev
        }
    }
}

/// The low row digits of the entries, rows shifted by `off`.
pub open spec fn lows(ts: Seq<Triple>, off: nat, s: nat) -> Seq<usize> {
    ts.map_values(|t: Triple| low_digit((t.0 + off) as nat, s) as usize)
}

/// The high row digits of the entries, rows shifted by `off`.
pub open spec fn highs(ts: Seq<Triple>, off: nat, s: nat) -> Seq<usize> {
    ts.map_values(|t: Triple| high_digit((t.0 + off) as nat, s) as usize)
}

/// The columns of the entries, reduced modulo `m`.
pub open spec fn cols_mod(ts: Seq<Triple>, m: nat) -> Seq<usize> {
    ts.map_values(|t: Triple| (t.2 as nat % m) as usize)
}

/// The columns of the entries.
pub open spec fn cols(ts: Seq<Triple>) -> Seq<usize> {
    ts.map_values(|t: Triple| t.2)
}

/// The values of the entries.
pub open spec fn vals(ts: Seq<Triple>) -> Seq<Scalar> {
    ts.map_values(|t: Triple| t.1)
}

/// The number of entries that the first `nrows` rows hold.
pub open spec fn used(ends: Seq<usize>, nrows: nat) -> int {
    row_start(ends, nrows as int)
}

/// The entries of the first `nrows` rows, one after the other, are the
/// entries up to `used(ends, nrows)`, each tagged with its row.
pub proof fn lemma_csr_triples_len(entries: Seq<(Scalar, usize)>, ends: Seq<usize>, n: nat)
    requires
        csr_wf(entries, ends, n),
    ensures
        csr_triples(entries, ends, n).len() == used(ends, n),
        used(ends, n) <= entries.len(),
        forall|i: int|
            0 <= i < used(ends, n) ==> (#[trigger] csr_triples(entries, ends, n)[i]).1
                == entries[i].0 && csr_triples(entries, ends, n)[i].2 == entries[i].1,
    decreases n,
{
    if n > 0 {
        assert(ends[n - 1] <= entries.len());
        lemma_csr_triples_len(entries, ends, (n - 1) as nat);
    }
}

/// A sub-sequence of the entries is no longer than they are.
pub proof fn lemma_owned_by_len(ts: Seq<Triple>, k: nat, m: nat)
    ensures
        owned_by(ts, k, m).len() <= ts.len(),
    decreases ts.len(),
{
    if ts.len() > 0 {
        lemma_owned_by_len(ts.drop_last(), k, m);
    }
}

/// One sub-prover's share of one matrix, before padding.
pub struct Share {
    pub low: Vec<usize>,
    pub high: Vec<usize>,
    pub col: Vec<usize>,
    pub val: Vec<Scalar>,
}

impl Share {
    /// The share holds exactly the given entries, rows shifted by `off` and
    /// split in base `s`, columns reduced modulo `m` (kept whole where
    /// `reduce` is false).
    pub open spec fn holds(self, ts: Seq<Triple>, off: nat, s: nat, m: nat, reduce: bool) -> bool {
        &&& self.low@ == lows(ts, off, s)
        &&& self.high@ == highs(ts, off, s)
        &&& self.col@ == (if reduce {
            cols_mod(ts, m)
        } else {
            cols(ts)
        })
        &&& self.val@ == vals(ts)
    }

    pub fn empty() -> (r: Share)
        ensures
            r.holds(Seq::empty(), 0, 0, 0, true),
            r.holds(Seq::empty(), 0, 0, 0, false),
    {
        let r = Share { low: Vec::new(), high: Vec::new(), col: Vec::new(), val: Vec::new() };
        assert(r.low@ =~= lows(Seq::empty(), 0, 0));
        assert(r.high@ =~= highs(Seq::empty(), 0, 0));
        assert(r.col@ =~= cols_mod(Seq::empty(), 0));
        assert(r.col@ =~= cols(Seq::empty()));
        assert(r.val@ =~= vals(Seq::empty()));
        r
    }

    fn push_entry(&mut self, low: usize, high: usize, col: usize, val: Scalar)
        ensures
            final(self).low@ == old(self).low@.push(low),
            final(self).high@ == old(self).high@.push(high),
            final(self).col@ == old(self).col@.push(col),
            final(self).val@ == old(self).val@.push(val),
    {
        self.low.push(low);
        self.high.push(high);
        self.col.push(col);
        self.val.push(val);
    }
}

proof fn lemma_holds_empty(ts: Seq<Triple>, off: nat, s: nat, m: nat, reduce: bool, sh: Share)
    requires
        ts.len() == 0,
        sh.low@.len() == 0,
        sh.high@.len() == 0,
        sh.col@.len() == 0,
        sh.val@.len() == 0,
    ensures
        sh.holds(ts, off, s, m, reduce),
{
    assert(sh.low@ =~= lows(ts, off, s));
    assert(sh.high@ =~= highs(ts, off, s));
    assert(sh.col@ =~= cols_mod(ts, m));
    assert(sh.col@ =~= cols(ts));
    assert(sh.val@ =~= vals(ts));
}

/// Pushing one entry onto a share that holds `ts` gives a share that holds
/// `ts` with that entry appended.
proof fn lemma_holds_push(
    old_sh: Share,
    new_sh: Share,
    ts: Seq<Triple>,
    t: Triple,
    off: nat,
    s: nat,
    m: nat,
    reduce: bool,
)
    requires
        old_sh.holds(ts, off, s, m, reduce),
        new_sh.low@ == old_sh.low@.push(low_digit((t.0 + off) as nat, s) as usize),
        new_sh.high@ == old_sh.high@.push(high_digit((t.0 + off) as nat, s) as usize),
        new_sh.col@ == old_sh.col@.push(
            if reduce {
                (t.2 as nat % m) as usize
            } else {
                t.2
            },
        ),
        new_sh.val@ == old_sh.val@.push(t.1),
    ensures
        new_sh.holds(ts.push(t), off, s, m, reduce),
{
    assert(new_sh.low@ =~= lows(ts.push(t), off, s));
    assert(new_sh.high@ =~= highs(ts.push(t), off, s));
    if reduce {
        assert(new_sh.col@ =~= cols_mod(ts.push(t), m));
    } else {
        assert(new_sh.col@ =~= cols(ts.push(t)));
    }
    assert(new_sh.val@ =~= vals(ts.push(t)));
}

/// The prefix of the row-major entry walk: all rows before `r`, then the
/// first `j` entries of row `r`.
pub open spec fn walk_prefix(entries: Seq<(Scalar, usize)>, ends: Seq<usize>, r: nat, j: int) -> Seq<
    Triple,
> {
    csr_triples(entries, ends, r) + row_triples(entries, ends, r as int).take(j)
}

proof fn lemma_walk_step(entries: Seq<(Scalar, usize)>, ends: Seq<usize>, r: nat, e: int, nrows: nat)
    requires
        csr_wf(entries, ends, nrows),
        r < nrows,
        row_start(ends, r as int) <= e < ends[r as int],
    ensures
        walk_prefix(entries, ends, r, e - row_start(ends, r as int) + 1) == walk_prefix(
            entries,
            ends,
            r,
            e - row_start(ends, r as int),
        ).push((r as usize, entries[e].0, entries[e].1)),
{
    let j = e - row_start(ends, r as int);
    let rt = row_triples(entries, ends, r as int);
    assert(rt[j] == (r as usize, entries[e].0, entries[e].1));
    assert(rt.take(j + 1) =~= rt.take(j).push(rt[j]));
    assert(walk_prefix(entries, ends, r, j + 1) =~= walk_prefix(entries, ends, r, j).push(rt[j]));
}

proof fn lemma_walk_row_done(entries: Seq<(Scalar, usize)>, ends: Seq<usize>, r: nat, nrows: nat)
    requires
        csr_wf(entries, ends, nrows),
        r < nrows,
    ensures
        walk_prefix(entries, ends, r, ends[r as int] - row_start(ends, r as int)) == csr_triples(
            entries,
            ends,
            r + 1,
        ),
        walk_prefix(entries, ends, r + 1, 0) == csr_triples(entries, ends, r + 1),
{
    let rt = row_triples(entries, ends, r as int);
    assert(rt.take(ends[r as int] - row_start(ends, r as int)) =~= rt);
    assert(walk_prefix(entries, ends, r, ends[r as int] - row_start(ends, r as int)) =~= csr_triples(
        entries,
        ends,
        r + 1,
    ));
    let rt1 = row_triples(entries, ends, (r + 1) as int);
    assert(rt1.take(0) =~= Seq::<Triple>::empty());
    assert(walk_prefix(entries, ends, r + 1, 0) =~= csr_triples(entries, ends, r + 1));
}

/// Walks the first `nrows` rows and hands every entry to the sub-prover that
/// owns its column block: entry `(r, v, c)` goes to sub-prover `c / m`, which
/// keeps the digits of `r` in base `s`, the column `c % m` and the value `v`.
pub fn scatter(mat: &SparseMatrix, nrows: usize, m: usize, l: usize, s: usize) -> (shares: Vec<
    Share,
>)
    requires
        csr_wf(mat.0@, mat.1@, nrows as nat),
        nrows > 0 ==> m > 0 && s > 0,
        forall|e: int| 0 <= e < used(mat.1@, nrows as nat) ==> (#[trigger] mat.0@[e]).1 / m < l,
    ensures
        shares.len() == l,
        forall|k: int|
            0 <= k < l ==> (#[trigger] shares@[k]).holds(
                owned_by(csr_triples(mat.0@, mat.1@, nrows as nat), k as nat, m as nat),
                0,
                s as nat,
                m as nat,
                true,
            ),
{
    let entries = &mat.0;
    let ends = &mat.1;
    let mut shares: Vec<Share> = Vec::new();
    let mut k: usize = 0;
    while k < l
        invariant
            k <= l,
            shares.len() == k,
            forall|k2: int|
                0 <= k2 < k ==> (#[trigger] shares@[k2]).holds(Seq::empty(), 0, s as nat, m as nat, true),
        decreases l - k,
    {
        let sh = Share { low: Vec::new(), high: Vec::new(), col: Vec::new(), val: Vec::new() };
        proof {
            lemma_holds_empty(Seq::empty(), 0, s as nat, m as nat, true, sh);
        }
        shares.push(sh);
        k += 1;
    }
    proof {
        assert forall|k2: int| 0 <= k2 < l implies (#[trigger] shares@[k2]).holds(
            owned_by(csr_triples(entries@, ends@, 0), k2 as nat, m as nat),
            0,
            s as nat,
            m as nat,
            true,
        ) by {
            assert(csr_triples(entries@, ends@, 0).len() == 0);
        }
    }
    let mut row_id: usize = 0;
    while row_id < nrows
        invariant
            csr_wf(entries@, ends@, nrows as nat),
            nrows > 0 ==> m > 0 && s > 0,
            forall|e: int| 0 <= e < used(ends@, nrows as nat) ==> (#[trigger] entries@[e]).1 / m < l,
            row_id <= nrows,
            shares.len() == l,
            forall|k2: int|
                0 <= k2 < l ==> (#[trigger] shares@[k2]).holds(
                    owned_by(csr_triples(entries@, ends@, row_id as nat), k2 as nat, m as nat),
                    0,
                    s as nat,
                    m as nat,
                    true,
                ),
        decreases nrows - row_id,
    {
        let start = if row_id == 0 {
            0
        } else {
            ends[row_id - 1]
        };
        let end = ends[row_id];
        assert(start == row_start(ends@, row_id as int));
        proof {
            if row_id > 0 {
                assert(ends[row_id - 1] <= ends[row_id as int]) by {
                    assert(row_start(ends@, row_id as int) <= ends[row_id as int]);
                }
            }
            let rt = row_triples(entries@, ends@, row_id as int);
            assert(rt.take(0) =~= Seq::<Triple>::empty());
            assert(walk_prefix(entries@, ends@, row_id as nat, 0) =~= csr_triples(
                entries@,
                ends@,
                row_id as nat,
            ));
            lemma_used_monotone(ends@, (row_id + 1) as nat, nrows as nat);
        }
        let mut e = start;
        while e < end
            invariant
                csr_wf(entries@, ends@, nrows as nat),
                m > 0 && s > 0,
                forall|e2: int|
                    0 <= e2 < used(ends@, nrows as nat) ==> (#[trigger] entries@[e2]).1 / m < l,
                used(ends@, (row_id + 1) as nat) <= used(ends@, nrows as nat),
                row_id < nrows,
                start == row_start(ends@, row_id as int),
                end == ends@[row_id as int],
                start <= e <= end,
                end <= entries.len(),
                shares.len() == l,
                forall|k2: int|
                    0 <= k2 < l ==> (#[trigger] shares@[k2]).holds(
                        owned_by(
                            walk_prefix(entries@, ends@, row_id as nat, e - start),
                            k2 as nat,
                            m as nat,
                        ),
                        0,
                        s as nat,
                        m as nat,
                        true,
                    ),
            decreases end - e,
        {
            let (val, col) = entries[e];
            assert(e < used(ends@, nrows as nat));
            let k = col / m;
            let (low, high) = decompose(row_id, s);
            let ghost old_shares = shares@;
            let ghost prefix = walk_prefix(entries@, ends@, row_id as nat, e - start);
            let ghost t: Triple = (row_id, val, col);
            shares[k].push_entry(low, high, col % m, val);
            proof {
                lemma_walk_step(entries@, ends@, row_id as nat, e as int, nrows as nat);
                let next = prefix.push(t);
                assert(next.drop_last() =~= prefix);
                assert forall|k2: int| 0 <= k2 < l implies (#[trigger] shares@[k2]).holds(
                    owned_by(next, k2 as nat, m as nat),
                    0,
                    s as nat,
                    m as nat,
                    true,
                ) by {
                    if k2 == k {
                        lemma_holds_push(
                            old_shares[k2],
                            shares@[k2],
                            owned_by(prefix, k2 as nat, m as nat),
                            t,
                            0,
                            s as nat,
                            m as nat,
                            true,
                        );
                    } else {
                        assert(shares@[k2] == old_shares[k2]);
                    }
                }
            }
            e += 1;
        }
        proof {
            lemma_walk_row_done(entries@, ends@, row_id as nat, nrows as nat);
        }
        row_id += 1;
    }
    shares
}

/// The entries that one sub-prover keeps: those of column block `k` when a
/// block is selected, all of them otherwise.
pub open spec fn keep(ts: Seq<Triple>, sel: Option<usize>, m: nat) -> Seq<Triple> {
    match sel {
        Some(k) => owned_by(ts, k as nat, m),
        None => ts,
    }
}

/// Walks the first `nrows` rows and keeps the entries of one sub-prover: with
/// `sel == Some(k)` those whose column lies in block `k` (columns reduced
/// modulo `m`), with `sel == None` all of them (columns kept whole). Rows are
/// shifted by `off` and split in base `s`.
pub fn walk_one(mat: &SparseMatrix, nrows: usize, off: usize, s: usize, m: usize, sel: Option<usize>) -> (sh: Share)
    requires
        csr_wf(mat.0@, mat.1@, nrows as nat),
        used(mat.1@, nrows as nat) > 0 ==> s > 0,
        used(mat.1@, nrows as nat) > 0 && sel is Some ==> m > 0,
        off + nrows <= usize::MAX,
    ensures
        sh.holds(
            keep(csr_triples(mat.0@, mat.1@, nrows as nat), sel, m as nat),
            off as nat,
            s as nat,
            m as nat,
            sel is Some,
        ),
{
    let entries = &mat.0;
    let ends = &mat.1;
    let mut sh = Share::empty();
    proof {
        assert(csr_triples(entries@, ends@, 0) =~= Seq::<Triple>::empty());
        assert(owned_by(Seq::<Triple>::empty(), 0, m as nat) =~= Seq::<Triple>::empty());
        lemma_holds_empty(
            keep(csr_triples(entries@, ends@, 0), sel, m as nat),
            off as nat,
            s as nat,
            m as nat,
            sel is Some,
            sh,
        );
    }
    let mut row_id: usize = 0;
    while row_id < nrows
        invariant
            csr_wf(entries@, ends@, nrows as nat),
            used(ends@, nrows as nat) > 0 ==> s > 0,
            used(ends@, nrows as nat) > 0 && sel is Some ==> m > 0,
            off + nrows <= usize::MAX,
            row_id <= nrows,
            sh.holds(
                keep(csr_triples(entries@, ends@, row_id as nat), sel, m as nat),
                off as nat,
                s as nat,
                m as nat,
                sel is Some,
            ),
        decreases nrows - row_id,
    {
        let start = if row_id == 0 {
            0
        } else {
            ends[row_id - 1]
        };
        let end = ends[row_id];
        assert(start == row_start(ends@, row_id as int));
        proof {
            let rt = row_triples(entries@, ends@, row_id as int);
            assert(rt.take(0) =~= Seq::<Triple>::empty());
            assert(walk_prefix(entries@, ends@, row_id as nat, 0) =~= csr_triples(
                entries@,
                ends@,
                row_id as nat,
            ));
        }
        proof {
            lemma_used_monotone(ends@, (row_id + 1) as nat, nrows as nat);
        }
        let mut e = start;
        while e < end
            invariant
                csr_wf(entries@, ends@, nrows as nat),
                used(ends@, nrows as nat) > 0 ==> s > 0,
                used(ends@, nrows as nat) > 0 && sel is Some ==> m > 0,
                used(ends@, (row_id + 1) as nat) <= used(ends@, nrows as nat),
                off + nrows <= usize::MAX,
                row_id < nrows,
                start == row_start(ends@, row_id as int),
                end == ends@[row_id as int],
                start <= e <= end,
                end <= entries.len(),
                sh.holds(
                    keep(walk_prefix(entries@, ends@, row_id as nat, e - start), sel, m as nat),
                    off as nat,
                    s as nat,
                    m as nat,
                    sel is Some,
                ),
            decreases end - e,
        {
            let (val, col) = entries[e];
            let (low, high) = decompose(row_id + off, s);
            let ghost old_sh = sh;
            let ghost prefix = walk_prefix(entries@, ends@, row_id as nat, e - start);
            let ghost t: Triple = (row_id, val, col);
            proof {
                lemma_walk_step(entries@, ends@, row_id as nat, e as int, nrows as nat);
                assert(prefix.push(t).drop_last() =~= prefix);
            }
            match sel {
                Some(k) => {
                    if col / m == k {
                        sh.push_entry(low, high, col % m, val);
                        proof {
                            lemma_holds_push(
                                old_sh,
                                sh,
                                keep(prefix, sel, m as nat),
                                t,
                                off as nat,
                                s as nat,
                                m as nat,
                                true,
                            );
                        }
                    }
                },
                None => {
                    sh.push_entry(low, high, col, val);
                    proof {
                        lemma_holds_push(
                            old_sh,
                            sh,
                            keep(prefix, sel, m as nat),
                            t,
                            off as nat,
                            s as nat,
                            m as nat,
                            false,
                        );
                    }
                },
            }
            e += 1;
        }
        proof {
            lemma_walk_row_done(entries@, ends@, row_id as nat, nrows as nat);
        }
        row_id += 1;
    }
    sh
}

/// Rows further down end further along.
pub proof fn lemma_used_monotone(ends: Seq<usize>, r1: nat, r2: nat)
    requires
        r1 <= r2,
        r2 <= ends.len(),
        forall|r: int| 0 <= r < r2 ==> row_start(ends, r) <= #[trigger] ends[r],
    ensures
        used(ends, r1) <= used(ends, r2),
    decreases r2 - r1,
{
    if r1 < r2 {
        lemma_used_monotone(ends, r1, (r2 - 1) as nat);
        assert(row_start(ends, r2 - 1) <= ends[r2 - 1]);
    }
}

/// The rows of the first `n` rows of a matrix are below `n`.
pub proof fn lemma_rows_below(entries: Seq<(Scalar, usize)>, ends: Seq<usize>, n: nat)
    requires
        n <= usize::MAX,
    ensures
        forall|i: int|
            0 <= i < csr_triples(entries, ends, n).len() ==> (#[trigger] csr_triples(entries, ends, n)[i]).0 < n,
    decreases n,
{
    if n > 0 {
        lemma_rows_below(entries, ends, (n - 1) as nat);
        let prev = csr_triples(entries, ends, (n - 1) as nat);
        let rt = row_triples(entries, ends, n - 1);
        assert forall|i: int| 0 <= i < csr_triples(entries, ends, n).len() implies (#[trigger] csr_triples(
            entries,
            ends,
            n,
        )[i]).0 < n by {
            if i < prev.len() {
                assert(csr_triples(entries, ends, n)[i] == prev[i]);
            } else {
                assert(csr_triples(entries, ends, n)[i] == rt[i - prev.len()]);
            }
        }
    }
}

} // verus!
