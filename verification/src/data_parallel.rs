//! The data-parallel case: a constraint system made of `l` copies of one
//! block of `m` rows and `m` columns along the diagonal. Each sub-prover can
//! then build its part of the index from the block alone.
use vstd::prelude::*;
use vstd::arithmetic::div_mod::{lemma_fundamental_div_mod, lemma_fundamental_div_mod_converse};
use crate::arith::{high_digit, isqrt_spec, lemma_isqrt_exists, low_digit, next_pow2};
use crate::csr::{
    ConstraintMatrices, SparseMatrix, Triple, cols, cols_mod, csr_triples, highs, lemma_rows_below, lows, owned_by, vals,
};
use crate::index::{
    DeColIndex, DeRowIndex, DeValEvals, index_holds, max, max_owned_count, owned_entries,
    pad_seq, same_index,
};
use crate::nevals::{
    count, digit_hits, lemma_count_pad, dp_digit, dp_field_counts, dp_padded, dp_row, dp_row_count, field_counts,
    index_fields, total_count,
};

verus! {

/// `ts` is `l` copies of `tb`, copy `k` with its rows and columns moved
/// by `k m`, one after the other; every column of `tb` lies below `m`.
pub open spec fn replicated(ts: Seq<Triple>, tb: Seq<Triple>, l: nat, m: nat) -> bool {
    &&& ts.len() == l * tb.len()
    &&& forall|i: int| 0 <= i < tb.len() ==> (#[trigger] tb[i]).2 < m
    &&& forall|k: int, i: int|
        0 <= k < l && 0 <= i < tb.len() ==> {
            let t = #[trigger] ts[k * tb.len() + i];
            &&& t.0 as nat == tb[i].0 + k * m
            &&& t.1 == tb[i].1
            &&& t.2 as nat == tb[i].2 + k * m
        }
}

/// The global matrix of `m l` rows is `l` copies of the block matrix of `m`
/// rows along the diagonal.
pub open spec fn matrix_replicated(big: SparseMatrix, block: SparseMatrix, l: nat, m: nat) -> bool {
    replicated(csr_triples(big.0@, big.1@, m * l), csr_triples(block.0@, block.1@, m), l, m)
}

/// All three global matrices are copies of the block matrices.
pub open spec fn system_replicated(big: ConstraintMatrices, block: ConstraintMatrices, l: nat, m: nat) -> bool {
    &&& matrix_replicated(big.a, block.a, l, m)
    &&& matrix_replicated(big.b, block.b, l, m)
    &&& matrix_replicated(big.c, block.c, l, m)
}

/// `j` clamped to `[lo, hi]`.
spec fn clamp(j: int, lo: int, hi: int) -> int {
    if j < lo {
        lo
    } else if j > hi {
        hi
    } else {
        j
    }
}

/// Where copy `k'` of the block starts and which copy an entry belongs to.
proof fn lemma_copy_of(j: int, n: int, l: int)
    requires
        n > 0,
        0 <= j < l * n,
    ensures
        0 <= j / n < l,
        0 <= j % n < n,
        j == (j / n) * n + j % n,
{
    lemma_fundamental_div_mod(j, n);
    assert(n * (j / n) == (j / n) * n) by (nonlinear_arith);
    if j / n >= l {
        assert((j / n) * n >= l * n) by (nonlinear_arith)
            requires
                j / n >= l,
                n > 0,
        ;
    }
    assert(j / n >= 0) by {
        vstd::arithmetic::div_mod::lemma_div_pos_is_pos(j, n);
    }
}

/// The entries of copy `k` are exactly those the `k`-th sub-prover owns, on
/// any prefix of the copies.
proof fn lemma_owned_prefix(ts: Seq<Triple>, tb: Seq<Triple>, l: nat, m: nat, k: nat, j: nat)
    requires
        replicated(ts, tb, l, m),
        k < l,
        tb.len() > 0,
        j <= ts.len(),
    ensures
        owned_by(ts.take(j as int), k, m) == ts.subrange(
            (k * tb.len()) as int,
            clamp(j as int, (k * tb.len()) as int, ((k + 1) * tb.len()) as int),
        ),
    decreases j,
{
    let n = tb.len() as int;
    let lo = k * n;
    let hi = (k + 1) * n;
    assert(hi == lo + n) by (nonlinear_arith)
        requires
            lo == k * n,
            hi == (k + 1) * n,
    ;
    assert(hi <= l * n) by (nonlinear_arith)
        requires
            hi == (k + 1) * n,
            k < l,
            n > 0,
    ;
    if j == 0 {
        assert(ts.take(0) =~= Seq::<Triple>::empty());
        assert(ts.subrange(lo, lo) =~= Seq::<Triple>::empty());
        assert(clamp(0, lo, hi) == lo) by {
            assert(lo >= 0) by (nonlinear_arith)
                requires
                    lo == k * n,
                    n > 0,
            ;
        }
    } else {
        let jj = (j - 1) as nat;
        lemma_owned_prefix(ts, tb, l, m, k, jj);
        assert(ts.take(j as int).drop_last() =~= ts.take(jj as int));
        assert(ts.take(j as int).last() == ts[jj as int]);
        lemma_copy_of(jj as int, n, l as int);
        let c = jj as int / n;
        let i = jj as int % n;
        let t = ts[c * n + i];
        assert(t == ts[jj as int]);
        assert(t.2 as nat == tb[i].2 + c * m);
        assert(tb[i].2 < m);
        assert(t.2 as nat / m == c) by {
            lemma_fundamental_div_mod_converse(t.2 as int, m as int, c, tb[i].2 as int);
        }
        if c == k {
            assert(lo <= jj < hi) by (nonlinear_arith)
                requires
                    jj == c * n + i,
                    0 <= i < n,
                    c == k,
                    lo == k * n,
                    hi == lo + n,
            ;
            assert(ts.subrange(lo, clamp(jj as int, lo, hi)).push(t) =~= ts.subrange(lo, clamp(j as int, lo, hi)));
        } else {
            if c < k {
                assert(jj + 1 <= lo) by (nonlinear_arith)
                    requires
                        jj == c * n + i,
                        0 <= i < n,
                        c < k,
                        lo == k * n,
                ;
            } else {
                assert(jj >= hi) by (nonlinear_arith)
                    requires
                        jj == c * n + i,
                        0 <= i,
                        c > k,
                        hi == (k + 1) * n,
                ;
            }
            assert(clamp(jj as int, lo, hi) == clamp(j as int, lo, hi));
        }
    }
}

/// The `k`-th sub-prover owns copy `k` of the block.
proof fn lemma_owned_copy(ts: Seq<Triple>, tb: Seq<Triple>, l: nat, m: nat, k: nat)
    requires
        replicated(ts, tb, l, m),
        k < l,
    ensures
        owned_by(ts, k, m) == ts.subrange((k * tb.len()) as int, (k * tb.len() + tb.len()) as int),
{
    let n = tb.len() as int;
    if n == 0 {
        assert(ts.len() == 0) by (nonlinear_arith)
            requires
                ts.len() == l * n,
                n == 0,
        ;
        assert(k * n == 0) by (nonlinear_arith)
            requires
                n == 0,
        ;
        assert(ts.subrange(k * n, k * n + n) =~= ts);
    } else {
        lemma_owned_prefix(ts, tb, l, m, k, ts.len());
        assert(ts.take(ts.len() as int) =~= ts);
        assert(k * n + n == (k + 1) * n) by (nonlinear_arith);
        assert((k + 1) * n <= l * n) by (nonlinear_arith)
            requires
                k < l,
                n > 0,
        ;
        assert(k * n >= 0) by (nonlinear_arith)
            requires
                n > 0,
        ;
    }
}

/// Copy `k`, read as a sub-prover's share of the global matrix, gives the
/// block's row digits (rows moved by `k m`), columns and values.
proof fn lemma_copy_vectors(ts: Seq<Triple>, tb: Seq<Triple>, l: nat, m: nat, k: nat, s: nat)
    requires
        replicated(ts, tb, l, m),
        k < l,
        m > 0,
    ensures
        lows(owned_by(ts, k, m), 0, s) == lows(tb, k * m, s),
        highs(owned_by(ts, k, m), 0, s) == highs(tb, k * m, s),
        cols_mod(owned_by(ts, k, m), m) == cols(tb),
        vals(owned_by(ts, k, m)) == vals(tb),
        owned_by(ts, k, m).len() == tb.len(),
{
    lemma_owned_copy(ts, tb, l, m, k);
    let n = tb.len() as int;
    let o = owned_by(ts, k, m);
    assert(k * n >= 0) by (nonlinear_arith)
        requires
            n >= 0,
    ;
    assert(k * n + n <= ts.len()) by (nonlinear_arith)
        requires
            n >= 0,
            k < l,
            ts.len() == l * n,
    ;
    assert(o.len() == n);
    assert forall|i: int| 0 <= i < n implies (#[trigger] o[i]).0 as nat == tb[i].0 + k * m && o[i].1 == tb[i].1
        && o[i].2 as nat == tb[i].2 + k * m by {
        assert(o[i] == ts[k * n + i]);
    }
    assert(lows(o, 0, s) =~= lows(tb, k * m, s));
    assert(highs(o, 0, s) =~= highs(tb, k * m, s));
    assert forall|i: int| 0 <= i < n implies #[trigger] cols_mod(o, m)[i] == cols(tb)[i] by {
        assert(tb[i].2 < m);
        assert((tb[i].2 + k * m) % (m as int) == tb[i].2) by {
            lemma_fundamental_div_mod_converse((tb[i].2 + k * m) as int, m as int, k as int, tb[i].2 as int);
        }
    }
    assert(cols_mod(o, m) =~= cols(tb));
    assert(vals(o) =~= vals(tb));
}

/// Every sub-prover owns as many entries as the block holds.
proof fn lemma_counts(big: ConstraintMatrices, block: ConstraintMatrices, l: nat, m: nat, k: nat)
    requires
        system_replicated(big, block, l, m),
        m > 0,
        k <= l,
    ensures
        max_owned_count(big, m, m * l, k) == if k == 0 {
            0
        } else {
            max(
                csr_triples(block.a.0@, block.a.1@, m).len(),
                max(csr_triples(block.b.0@, block.b.1@, m).len(), csr_triples(block.c.0@, block.c.1@, m).len()),
            )
        },
    decreases k,
{
    if k > 0 {
        lemma_counts(big, block, l, m, (k - 1) as nat);
        lemma_copy_vectors(csr_triples(big.a.0@, big.a.1@, m * l), csr_triples(block.a.0@, block.a.1@, m), l, m, (k - 1) as nat, 1);
        lemma_copy_vectors(csr_triples(big.b.0@, big.b.1@, m * l), csr_triples(block.b.0@, block.b.1@, m), l, m, (k - 1) as nat, 1);
        lemma_copy_vectors(csr_triples(big.c.0@, big.c.1@, m * l), csr_triples(block.c.0@, block.c.1@, m), l, m, (k - 1) as nat, 1);
    }
}

/// For a constraint system of `l` copies of one block, the index that
/// sub-prover `k` builds from the block alone is part `k` of the index the
/// global builder makes from the whole system, with the same length.
pub proof fn law_data_parallel_index_is_global(
    big: ConstraintMatrices,
    block: ConstraintMatrices,
    m: nat,
    l: nat,
    k: nat,
    dp: (DeRowIndex, DeColIndex, DeValEvals, nat),
    global: (Seq<DeRowIndex>, Seq<DeColIndex>, Seq<DeValEvals>, nat),
)
    requires
        k < l,
        m > 0,
        system_replicated(big, block, l, m),
        dp.3 == next_pow2(
            max(
                csr_triples(block.a.0@, block.a.1@, m).len(),
                max(csr_triples(block.b.0@, block.b.1@, m).len(), csr_triples(block.c.0@, block.c.1@, m).len()),
            ),
        ),
        index_holds(
            dp.0,
            dp.1,
            dp.2,
            csr_triples(block.a.0@, block.a.1@, m),
            csr_triples(block.b.0@, block.b.1@, m),
            csr_triples(block.c.0@, block.c.1@, m),
            m * k,
            isqrt_spec(m * l),
            m,
            false,
            dp.3,
        ),
        global.0.len() == l && global.1.len() == l && global.2.len() == l,
        global.3 == next_pow2(max_owned_count(big, m, m * l, l)),
        index_holds(
            global.0[k as int],
            global.1[k as int],
            global.2[k as int],
            owned_entries(big.a, k, m, m * l),
            owned_entries(big.b, k, m, m * l),
            owned_entries(big.c, k, m, m * l),
            0,
            isqrt_spec(m * l),
            m,
            true,
            global.3,
        ),
    ensures
        dp.3 == global.3,
        same_index(dp.0, dp.1, dp.2, global.0[k as int], global.1[k as int], global.2[k as int]),
{
    let s = isqrt_spec(m * l);
    lemma_counts(big, block, l, m, l);
    assert(k * m == m * k) by (nonlinear_arith);
    lemma_copy_vectors(csr_triples(big.a.0@, big.a.1@, m * l), csr_triples(block.a.0@, block.a.1@, m), l, m, k, s);
    lemma_copy_vectors(csr_triples(big.b.0@, big.b.1@, m * l), csr_triples(block.b.0@, block.b.1@, m), l, m, k, s);
    lemma_copy_vectors(csr_triples(big.c.0@, big.c.1@, m * l), csr_triples(block.c.0@, block.c.1@, m), l, m, k, s);
}

/// Whether the row `r + m j`, `r` the row of entry `i` of the block, has
/// digit `v`.
spec fn hit(tb: Seq<Triple>, m: nat, s: nat, v: nat, high: bool, j: nat, i: int) -> nat {
    if dp_digit(tb[i].0 as nat, m, j, s, high) == v {
        1
    } else {
        0
    }
}

/// Over the first `t` entries of copy `j`.
spec fn copy_sum(tb: Seq<Triple>, m: nat, s: nat, v: nat, high: bool, j: nat, t: nat) -> nat
    decreases t,
{
    if t == 0 {
        0
    } else {
        copy_sum(tb, m, s, v, high, j, (t - 1) as nat) + hit(tb, m, s, v, high, j, t - 1)
    }
}

/// Over the first `t` entries of the first `c` copies, copy by copy.
spec fn copies_sum(tb: Seq<Triple>, m: nat, s: nat, v: nat, high: bool, c: nat, t: nat) -> nat
    decreases c,
{
    if c == 0 {
        0
    } else {
        copies_sum(tb, m, s, v, high, (c - 1) as nat, t) + copy_sum(tb, m, s, v, high, (c - 1) as nat, t)
    }
}

/// Over the first `t` entries of the first `c` copies, entry by entry.
spec fn entries_sum(tb: Seq<Triple>, m: nat, s: nat, v: nat, high: bool, c: nat, t: nat) -> nat
    decreases t,
{
    if t == 0 {
        0
    } else {
        entries_sum(tb, m, s, v, high, c, (t - 1) as nat) + digit_hits(tb[t - 1].0 as nat, m, s, c, v, high)
    }
}

proof fn lemma_copies_sum_step(tb: Seq<Triple>, m: nat, s: nat, v: nat, high: bool, c: nat, t: nat)
    requires
        t > 0,
    ensures
        copies_sum(tb, m, s, v, high, c, t) == copies_sum(tb, m, s, v, high, c, (t - 1) as nat)
            + digit_hits(tb[t - 1].0 as nat, m, s, c, v, high),
    decreases c,
{
    if c > 0 {
        lemma_copies_sum_step(tb, m, s, v, high, (c - 1) as nat, t);
    }
}

/// The two orders of summation agree.
proof fn lemma_sum_order(tb: Seq<Triple>, m: nat, s: nat, v: nat, high: bool, c: nat, t: nat)
    ensures
        copies_sum(tb, m, s, v, high, c, t) == entries_sum(tb, m, s, v, high, c, t),
    decreases t,
{
    if t == 0 {
        lemma_copies_zero(tb, m, s, v, high, c);
    } else {
        lemma_sum_order(tb, m, s, v, high, c, (t - 1) as nat);
        lemma_copies_sum_step(tb, m, s, v, high, c, t);
    }
}

proof fn lemma_copies_zero(tb: Seq<Triple>, m: nat, s: nat, v: nat, high: bool, c: nat)
    ensures
        copies_sum(tb, m, s, v, high, c, 0) == 0,
    decreases c,
{
    if c > 0 {
        lemma_copies_zero(tb, m, s, v, high, (c - 1) as nat);
    }
}

/// The digits of a row that fits in a `usize` fit too.
proof fn lemma_digits_fit(x: nat, s: nat)
    requires
        s > 0,
        x <= usize::MAX,
    ensures
        low_digit(x, s) <= usize::MAX,
        high_digit(x, s) <= usize::MAX,
{
    lemma_fundamental_div_mod(x as int, s as int);
    assert(s * (x / s) >= x / s) by (nonlinear_arith)
        requires
            s > 0,
            x / s >= 0,
    ;
}

/// The row digits of copy `j` of the block, counted, are `copy_sum`.
proof fn lemma_count_digits(tb: Seq<Triple>, m: nat, s: nat, v: nat, high: bool, j: nat, t: nat)
    requires
        t <= tb.len(),
        s > 0,
        forall|i: int| 0 <= i < tb.len() ==> (#[trigger] tb[i]).0 + j * m <= usize::MAX,
    ensures
        count(if high { highs(tb.take(t as int), j * m, s) } else { lows(tb.take(t as int), j * m, s) }, v)
            == copy_sum(tb, m, s, v, high, j, t),
    decreases t,
{
    let d = if high { highs(tb.take(t as int), j * m, s) } else { lows(tb.take(t as int), j * m, s) };
    if t == 0 {
        assert(d =~= Seq::<usize>::empty());
    } else {
        let d1 = if high {
            highs(tb.take(t - 1), j * m, s)
        } else {
            lows(tb.take(t - 1), j * m, s)
        };
        assert(d.drop_last() =~= d1);
        lemma_count_digits(tb, m, s, v, high, j, (t - 1) as nat);
        let x = (tb[t - 1].0 + j * m) as nat;
        lemma_digits_fit(x, s);
        assert(m * j == j * m) by (nonlinear_arith);
        assert(d.last() as nat == if high { high_digit(x, s) } else { low_digit(x, s) });
        assert(dp_digit(tb[t - 1].0 as nat, m, j, s, high) == if high { high_digit(x, s) } else { low_digit(x, s) });
    }
}

/// The data-parallel count of one matrix's row digits, over the first `len`
/// entries of the padded share of copy `k`: every entry of the block counts
/// its row in all `l` copies, every padding entry `l` zeros.
proof fn lemma_dp_rows(tb: Seq<Triple>, m: nat, s: nat, v: nat, high: bool, k: nat, l: nat, n: nat, len: nat)
    requires
        tb.len() <= n,
        len <= n,
        s > 0,
        forall|i: int| 0 <= i < tb.len() ==> (#[trigger] tb[i]).0 < m,
        forall|i: int| 0 <= i < tb.len() ==> (#[trigger] tb[i]).0 + k * m <= usize::MAX,
    ensures
        dp_row_count(
            pad_seq(lows(tb, k * m, s), n),
            pad_seq(highs(tb, k * m, s), n),
            (n - tb.len()) as nat,
            len,
            m,
            s,
            l,
            v,
            high,
        ) == entries_sum(tb, m, s, v, high, l, if len < tb.len() { len } else { tb.len() }) + (if len
            > tb.len() {
            (len - tb.len()) as nat
        } else {
            0
        }) * (if v == 0 {
            l
        } else {
            0
        }),
    decreases len,
{
    let lo = pad_seq(lows(tb, k * m, s), n);
    let hi = pad_seq(highs(tb, k * m, s), n);
    let p = (n - tb.len()) as nat;
    if len > 0 {
        lemma_dp_rows(tb, m, s, v, high, k, l, n, (len - 1) as nat);
        let i = len - 1;
        assert(lo.len() == n);
        if i < tb.len() {
            assert(!dp_padded(lo, p, i));
            let r = tb[i].0 as nat;
            let x = r + k * m;
            lemma_digits_fit(x, s);
            assert(lo[i] as nat == low_digit(x, s));
            assert(hi[i] as nat == high_digit(x, s));
            lemma_fundamental_div_mod(x as int, s as int);
            assert(lo[i] + hi[i] * s == x) by (nonlinear_arith)
                requires
                    x == low_digit(x, s) + s * high_digit(x, s),
                    lo[i] as nat == low_digit(x, s),
                    hi[i] as nat == high_digit(x, s),
            ;
            assert(x % m == r) by {
                lemma_fundamental_div_mod_converse(x as int, m as int, k as int, r as int);
            }
            assert(dp_row(lo, hi, i, s, m) == r);
        } else {
            assert(dp_padded(lo, p, i));
            assert(((len - tb.len()) as nat) * (if v == 0 { l } else { 0 }) == ((len - 1 - tb.len()) as nat) * (if v == 0 { l } else { 0 })
                + (if v == 0 { l } else { 0 })) by (nonlinear_arith)
                requires
                    len - 1 >= tb.len(),
            ;
        }
    }
}

/// The global count of one row-digit field over the first `c` sub-provers,
/// each holding its copy of the block padded to `n`.
proof fn lemma_global_rows(vs: Seq<Seq<usize>>, tb: Seq<Triple>, m: nat, s: nat, v: nat, high: bool, n: nat, c: nat)
    requires
        tb.len() <= n,
        s > 0,
        c <= vs.len(),
        forall|j: int|
            0 <= j < c ==> #[trigger] vs[j] == pad_seq(
                if high { highs(tb, j as nat * m, s) } else { lows(tb, j as nat * m, s) },
                n,
            ),
        forall|i: int| 0 <= i < tb.len() ==> (#[trigger] tb[i]).0 < m,
        c * m <= usize::MAX,
    ensures
        total_count(vs, n, v, c) == copies_sum(tb, m, s, v, high, c, tb.len()) + c * (if v == 0 {
            (n - tb.len()) as nat
        } else {
            0
        }),
    decreases c,
{
    if c > 0 {
        let j = (c - 1) as nat;
        assert(j * m + m == c * m) by (nonlinear_arith)
            requires
                c == j + 1,
        ;
        assert(j * m <= c * m) by (nonlinear_arith)
            requires
                c == j + 1,
        ;
        lemma_global_rows(vs, tb, m, s, v, high, n, j);
        let d = if high { highs(tb, j * m, s) } else { lows(tb, j * m, s) };
        assert(vs[j as int] == pad_seq(d, n));
        lemma_count_pad(d, n, v);
        assert(total_count(vs, n, v, c) == total_count(vs, n, v, j) + count(vs[j as int].take(n as int), v));
        assert(copies_sum(tb, m, s, v, high, c, tb.len()) == copies_sum(tb, m, s, v, high, j, tb.len())
            + copy_sum(tb, m, s, v, high, j, tb.len()));
        assert(tb.take(tb.len() as int) =~= tb);
        lemma_count_digits(tb, m, s, v, high, j, tb.len());
        assert(c * (if v == 0 { (n - tb.len()) as nat } else { 0 }) == j * (if v == 0 { (n - tb.len()) as nat } else { 0 })
            + (if v == 0 { (n - tb.len()) as nat } else { 0 })) by (nonlinear_arith)
            requires
                c == j + 1,
        ;
    } else {
        assert(c * (if v == 0 { (n - tb.len()) as nat } else { 0 }) == 0) by (nonlinear_arith)
            requires
                c == 0,
        ;
    }
}

/// The global count of one column field: every sub-prover holds the
/// block's columns, padded to `n`.
proof fn lemma_global_cols(vs: Seq<Seq<usize>>, x: Seq<usize>, n: nat, v: nat, c: nat)
    requires
        x.len() <= n,
        c <= vs.len(),
        forall|j: int| 0 <= j < c ==> #[trigger] vs[j] == pad_seq(x, n),
    ensures
        total_count(vs, n, v, c) == c * count(pad_seq(x, n), v),
    decreases c,
{
    if c > 0 {
        lemma_global_cols(vs, x, n, v, (c - 1) as nat);
        lemma_count_pad(x, n, v);
        assert(vs[c - 1] == pad_seq(x, n));
        assert(total_count(vs, n, v, c) == total_count(vs, n, v, (c - 1) as nat) + count(vs[c - 1].take(n as int), v));
        assert(c * count(pad_seq(x, n), v) == (c - 1) * count(pad_seq(x, n), v) + count(pad_seq(x, n), v))
            by (nonlinear_arith)
            requires
                c > 0,
        ;
    } else {
        assert(c * count(pad_seq(x, n), v) == 0) by (nonlinear_arith)
            requires
                c == 0,
        ;
    }
}



/// The frequency counts of one matrix: the global count over the `l`
/// sub-provers' padded shares equals the data-parallel count from copy `k`.
proof fn lemma_matrix_counts(
    ts: Seq<Triple>,
    tb: Seq<Triple>,
    l: nat,
    m: nat,
    k: nat,
    s: nat,
    n: nat,
    vlo: Seq<Seq<usize>>,
    vhi: Seq<Seq<usize>>,
    vcol: Seq<Seq<usize>>,
    dlo: Seq<usize>,
    dhi: Seq<usize>,
    dcol: Seq<usize>,
)
    requires
        replicated(ts, tb, l, m),
        k < l,
        m > 0,
        l * m <= usize::MAX,
        s > 0,
        tb.len() <= n,
        forall|i: int| 0 <= i < tb.len() ==> (#[trigger] tb[i]).0 < m,
        vlo.len() >= l && vhi.len() >= l && vcol.len() >= l,
        forall|j: int| 0 <= j < l ==> #[trigger] vlo[j] == pad_seq(lows(owned_by(ts, j as nat, m), 0, s), n),
        forall|j: int| 0 <= j < l ==> #[trigger] vhi[j] == pad_seq(highs(owned_by(ts, j as nat, m), 0, s), n),
        forall|j: int| 0 <= j < l ==> #[trigger] vcol[j] == pad_seq(cols_mod(owned_by(ts, j as nat, m), m), n),
        dlo == pad_seq(lows(tb, m * k, s), n),
        dhi == pad_seq(highs(tb, m * k, s), n),
        dcol == pad_seq(cols(tb), n),
    ensures
        forall|v: nat| total_count(vlo, n, v, l) == #[trigger] dp_row_count(dlo, dhi, (n - tb.len()) as nat, n, m, s, l, v, false),
        forall|v: nat| total_count(vhi, n, v, l) == #[trigger] dp_row_count(dlo, dhi, (n - tb.len()) as nat, n, m, s, l, v, true),
        forall|v: nat| #[trigger] total_count(vcol, n, v, l) == l * count(dcol.take(n as int), v),
{
    assert forall|j: int| 0 <= j < l implies #[trigger] vlo[j] == pad_seq(lows(tb, j as nat * m, s), n) by {
        lemma_copy_vectors(ts, tb, l, m, j as nat, s);
    }
    assert forall|j: int| 0 <= j < l implies #[trigger] vhi[j] == pad_seq(highs(tb, j as nat * m, s), n) by {
        lemma_copy_vectors(ts, tb, l, m, j as nat, s);
    }
    assert forall|j: int| 0 <= j < l implies #[trigger] vcol[j] == pad_seq(cols(tb), n) by {
        lemma_copy_vectors(ts, tb, l, m, j as nat, s);
    }
    assert(m * k == k * m) by (nonlinear_arith);
    assert(k * m + m <= l * m) by (nonlinear_arith)
        requires
            k < l,
    ;
    assert(l * m == m * l) by (nonlinear_arith);
    assert forall|v: nat| total_count(vlo, n, v, l) == #[trigger] dp_row_count(
        dlo,
        dhi,
        (n - tb.len()) as nat,
        n,
        m,
        s,
        l,
        v,
        false,
    ) by {
        lemma_global_rows(vlo, tb, m, s, v, false, n, l);
        lemma_dp_rows(tb, m, s, v, false, k, l, n, n);
        lemma_sum_order(tb, m, s, v, false, l, tb.len());
        assert(l * (if v == 0 { (n - tb.len()) as nat } else { 0 }) == ((n - tb.len()) as nat) * (if v == 0 { l } else { 0 }))
            by (nonlinear_arith);
    }
    assert forall|v: nat| total_count(vhi, n, v, l) == #[trigger] dp_row_count(
        dlo,
        dhi,
        (n - tb.len()) as nat,
        n,
        m,
        s,
        l,
        v,
        true,
    ) by {
        lemma_global_rows(vhi, tb, m, s, v, true, n, l);
        lemma_dp_rows(tb, m, s, v, true, k, l, n, n);
        lemma_sum_order(tb, m, s, v, true, l, tb.len());
        assert(l * (if v == 0 { (n - tb.len()) as nat } else { 0 }) == ((n - tb.len()) as nat) * (if v == 0 { l } else { 0 }))
            by (nonlinear_arith);
    }
    assert forall|v: nat| #[trigger] total_count(vcol, n, v, l) == l * count(dcol.take(n as int), v) by {
        lemma_global_cols(vcol, cols(tb), n, v, l);
        lemma_count_pad(cols(tb), n, v);
    }
}

/// For a constraint system of `l` copies of one block, the lookup
/// frequencies that sub-prover `k` counts from its own part of the index
/// (`build_n_evals_data_parallel`) are those that the global count over all
/// sub-provers' parts gives (`build_n_evals`), field by field.
pub proof fn law_data_parallel_n_evals(
    big: ConstraintMatrices,
    block: ConstraintMatrices,
    m: nat,
    l: nat,
    k: nat,
    dp: (DeRowIndex, DeColIndex, DeValEvals, nat, (usize, usize, usize)),
    global: (Seq<DeRowIndex>, Seq<DeColIndex>, Seq<DeValEvals>, nat),
)
    requires
        k < l,
        m > 0,
        m * l <= usize::MAX,
        system_replicated(big, block, l, m),
        dp.3 == next_pow2(
            max(
                csr_triples(block.a.0@, block.a.1@, m).len(),
                max(csr_triples(block.b.0@, block.b.1@, m).len(), csr_triples(block.c.0@, block.c.1@, m).len()),
            ),
        ),
        index_holds(
            dp.0,
            dp.1,
            dp.2,
            csr_triples(block.a.0@, block.a.1@, m),
            csr_triples(block.b.0@, block.b.1@, m),
            csr_triples(block.c.0@, block.c.1@, m),
            m * k,
            isqrt_spec(m * l),
            m,
            false,
            dp.3,
        ),
        dp.4.0 == dp.3 - csr_triples(block.a.0@, block.a.1@, m).len(),
        dp.4.1 == dp.3 - csr_triples(block.b.0@, block.b.1@, m).len(),
        dp.4.2 == dp.3 - csr_triples(block.c.0@, block.c.1@, m).len(),
        global.0.len() == l && global.1.len() == l && global.2.len() == l,
        global.3 == next_pow2(max_owned_count(big, m, m * l, l)),
        forall|j: int|
            0 <= j < l ==> #[trigger] index_holds(
                global.0[j],
                global.1[j],
                global.2[j],
                owned_entries(big.a, j as nat, m, m * l),
                owned_entries(big.b, j as nat, m, m * l),
                owned_entries(big.c, j as nat, m, m * l),
                0,
                isqrt_spec(m * l),
                m,
                true,
                global.3,
            ),
    ensures
        dp.3 == global.3,
        forall|f: nat|
            f < 9 ==> #[trigger] field_counts(global.0, global.1, f, global.3, l, m) == dp_field_counts(
                dp.0,
                dp.1,
                f,
                dp.4,
                dp.3,
                l,
                m,
            ),
{
    let s = isqrt_spec(m * l);
    let n = global.3;
    assert(m * l >= 1) by (nonlinear_arith)
        requires
            m > 0,
            k < l,
    ;
    lemma_isqrt_exists(m * l);
    assert(s > 0) by {
        if s == 0 {
            assert((s + 1) * (s + 1) == 1) by (nonlinear_arith)
                requires
                    s == 0,
            ;
        }
    }
    lemma_counts(big, block, l, m, l);
    let ta = csr_triples(block.a.0@, block.a.1@, m);
    let tb = csr_triples(block.b.0@, block.b.1@, m);
    let tc = csr_triples(block.c.0@, block.c.1@, m);
    crate::arith::lemma_next_pow2_bounds(max(ta.len(), max(tb.len(), tc.len())));
    assert(m <= m * l) by (nonlinear_arith)
        requires
            k < l,
            m > 0,
    ;
    lemma_rows_below(block.a.0@, block.a.1@, m);
    lemma_rows_below(block.b.0@, block.b.1@, m);
    lemma_rows_below(block.c.0@, block.c.1@, m);
    assert(l * m == m * l) by (nonlinear_arith);
    let rows = global.0;
    let cols_g = global.1;
    let oa = csr_triples(big.a.0@, big.a.1@, m * l);
    let ob = csr_triples(big.b.0@, big.b.1@, m * l);
    let oc = csr_triples(big.c.0@, big.c.1@, m * l);
    assert forall|j: int|
        #![trigger index_fields(rows, cols_g, 0)[j]]
        #![trigger index_fields(rows, cols_g, 1)[j]]
        #![trigger index_fields(rows, cols_g, 2)[j]]
        #![trigger index_fields(rows, cols_g, 3)[j]]
        #![trigger index_fields(rows, cols_g, 4)[j]]
        #![trigger index_fields(rows, cols_g, 5)[j]]
        #![trigger index_fields(rows, cols_g, 6)[j]]
        #![trigger index_fields(rows, cols_g, 7)[j]]
        #![trigger index_fields(rows, cols_g, 8)[j]]
        0 <= j < l implies {
        &&& index_fields(rows, cols_g, 0)[j] == pad_seq(lows(owned_by(oa, j as nat, m), 0, s), n)
        &&& index_fields(rows, cols_g, 1)[j] == pad_seq(highs(owned_by(oa, j as nat, m), 0, s), n)
        &&& index_fields(rows, cols_g, 2)[j] == pad_seq(lows(owned_by(ob, j as nat, m), 0, s), n)
        &&& index_fields(rows, cols_g, 3)[j] == pad_seq(highs(owned_by(ob, j as nat, m), 0, s), n)
        &&& index_fields(rows, cols_g, 4)[j] == pad_seq(lows(owned_by(oc, j as nat, m), 0, s), n)
        &&& index_fields(rows, cols_g, 5)[j] == pad_seq(highs(owned_by(oc, j as nat, m), 0, s), n)
        &&& index_fields(rows, cols_g, 6)[j] == pad_seq(cols_mod(owned_by(oa, j as nat, m), m), n)
        &&& index_fields(rows, cols_g, 7)[j] == pad_seq(cols_mod(owned_by(ob, j as nat, m), m), n)
        &&& index_fields(rows, cols_g, 8)[j] == pad_seq(cols_mod(owned_by(oc, j as nat, m), m), n)
    } by {
        assert(index_holds(
            global.0[j],
            global.1[j],
            global.2[j],
            owned_entries(big.a, j as nat, m, m * l),
            owned_entries(big.b, j as nat, m, m * l),
            owned_entries(big.c, j as nat, m, m * l),
            0,
            s,
            m,
            true,
            n,
        ));
    }
    lemma_matrix_counts(
        csr_triples(big.a.0@, big.a.1@, m * l),
        ta,
        l,
        m,
        k,
        s,
        n,
        index_fields(rows, cols_g, 0),
        index_fields(rows, cols_g, 1),
        index_fields(rows, cols_g, 6),
        dp.0.row_pa_low@,
        dp.0.row_pa_high@,
        dp.1.col_pa@,
    );
    lemma_matrix_counts(
        csr_triples(big.b.0@, big.b.1@, m * l),
        tb,
        l,
        m,
        k,
        s,
        n,
        index_fields(rows, cols_g, 2),
        index_fields(rows, cols_g, 3),
        index_fields(rows, cols_g, 7),
        dp.0.row_pb_low@,
        dp.0.row_pb_high@,
        dp.1.col_pb@,
    );
    lemma_matrix_counts(
        csr_triples(big.c.0@, big.c.1@, m * l),
        tc,
        l,
        m,
        k,
        s,
        n,
        index_fields(rows, cols_g, 4),
        index_fields(rows, cols_g, 5),
        index_fields(rows, cols_g, 8),
        dp.0.row_pc_low@,
        dp.0.row_pc_high@,
        dp.1.col_pc@,
    );
    assert forall|f: nat| f < 9 implies #[trigger] field_counts(rows, cols_g, f, n, l, m) == dp_field_counts(
        dp.0,
        dp.1,
        f,
        dp.4,
        dp.3,
        l,
        m,
    ) by {
        assert(field_counts(rows, cols_g, f, n, l, m) =~= dp_field_counts(dp.0, dp.1, f, dp.4, dp.3, l, m));
    }
}

} // verus!
