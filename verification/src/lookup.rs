//! The lookup identity behind the frequency counts: a weight summed over
//! every entry of the index equals the weight of every value times how
//! often the value occurs.
use vstd::prelude::*;
use crate::field::{fadd, fmul, lemma_fadd_assoc, lemma_fadd_comm, lemma_fadd_zero, lemma_fmul_succ, modulus};
use crate::index::{DeColIndex, DeRowIndex};
use crate::nevals::{count, field_counts, index_field, index_fields, n_evals_readable, total_count};

verus! {

/// `g` summed in the field over the entries of `s`.
pub open spec fn weight_sum(s: Seq<usize>, g: spec_fn(nat) -> nat) -> nat
    decreases s.len(),
{
    if s.len() == 0 {
        0
    } else {
        fadd(weight_sum(s.drop_last(), g), g(s.last() as nat))
    }
}

/// `g` summed over the first `len` entries of each of the first `k`
/// vectors of `vs`.
pub open spec fn entries_weight_sum(vs: Seq<Seq<usize>>, len: nat, g: spec_fn(nat) -> nat, k: nat) -> nat
    decreases k,
{
    if k == 0 {
        0
    } else {
        fadd(entries_weight_sum(vs, len, g, (k - 1) as nat), weight_sum(vs[k - 1].take(len as int), g))
    }
}

/// `sum_{j < n} c_j g(j)` in the field.
pub open spec fn counted_weight_sum(c: Seq<nat>, g: spec_fn(nat) -> nat, n: nat) -> nat
    decreases n,
{
    if n == 0 {
        0
    } else {
        fadd(counted_weight_sum(c, g, (n - 1) as nat), fmul(c[n - 1], g((n - 1) as nat)))
    }
}

proof fn lemma_counted_canonical(c: Seq<nat>, g: spec_fn(nat) -> nat, n: nat)
    ensures
        counted_weight_sum(c, g, n) < modulus(),
{
    reveal(fadd);
}

/// Raising the count of one value `x` by one adds `g(x)`, if `x` is among
/// the first `j` values.
proof fn lemma_bump(c: Seq<nat>, d: Seq<nat>, g: spec_fn(nat) -> nat, x: nat, j: nat)
    requires
        j <= c.len(),
        j <= d.len(),
        forall|v: int| 0 <= v < j ==> #[trigger] d[v] == c[v] + if v == x { 1nat } else { 0nat },
    ensures
        counted_weight_sum(d, g, j) == if x < j {
            fadd(counted_weight_sum(c, g, j), g(x))
        } else {
            counted_weight_sum(c, g, j)
        },
    decreases j,
{
    if j > 0 {
        let jj = (j - 1) as nat;
        lemma_bump(c, d, g, x, jj);
        let a = counted_weight_sum(c, g, jj);
        let t = fmul(c[jj as int], g(jj));
        assert(d[jj as int] == c[jj as int] + if jj == x { 1nat } else { 0nat });
        if x == jj {
            lemma_fmul_succ(c[jj as int], g(x));
            lemma_fadd_assoc(a, t, g(x));
        } else if x < jj {
            lemma_fadd_assoc(a, g(x), t);
            lemma_fadd_comm(g(x), t);
            lemma_fadd_assoc(a, t, g(x));
        }
    }
}

/// Adding the counts of the entries of `s` adds `g` summed over `s`.
proof fn lemma_block(c: Seq<nat>, d: Seq<nat>, s: Seq<usize>, g: spec_fn(nat) -> nat, m: nat)
    requires
        c.len() >= m,
        d.len() >= m,
        forall|i: int| 0 <= i < s.len() ==> (#[trigger] s[i]) < m,
        forall|v: int| 0 <= v < m ==> #[trigger] d[v] == c[v] + count(s, v as nat),
    ensures
        counted_weight_sum(d, g, m) == fadd(counted_weight_sum(c, g, m), weight_sum(s, g)),
    decreases s.len(),
{
    if s.len() == 0 {
        lemma_bump(c, d, g, m, m);
        lemma_counted_canonical(c, g, m);
        lemma_fadd_zero(counted_weight_sum(c, g, m));
    } else {
        let x = s.last();
        let s1 = s.drop_last();
        let e = Seq::new(m, |v: int| c[v] + count(s1, v as nat));
        assert forall|i: int| 0 <= i < s1.len() implies (#[trigger] s1[i]) < m by {
            assert(s1[i] == s[i]);
        }
        lemma_block(c, e, s1, g, m);
        assert(x < m) by {
            assert(s[s.len() - 1] < m);
        }
        assert forall|v: int| 0 <= v < m implies #[trigger] d[v] == e[v] + if v == x as nat { 1nat } else { 0nat } by {
            assert(count(s, v as nat) == count(s1, v as nat) + if s.last() as nat == v as nat { 1nat } else { 0nat });
        }
        lemma_bump(e, d, g, x as nat, m);
        lemma_fadd_assoc(counted_weight_sum(c, g, m), weight_sum(s1, g), g(x as nat));
    }
}

/// The counts of the first `k` vectors.
spec fn prefix_counts(vs: Seq<Seq<usize>>, len: nat, m: nat, k: nat) -> Seq<nat> {
    Seq::new(m, |v: int| total_count(vs, len, v as nat, k))
}

proof fn lemma_prefix(vs: Seq<Seq<usize>>, len: nat, g: spec_fn(nat) -> nat, m: nat, k: nat)
    requires
        k <= vs.len(),
        forall|j: int| 0 <= j < k ==> len <= (#[trigger] vs[j]).len(),
        forall|j: int, i: int| 0 <= j < k && 0 <= i < len ==> (#[trigger] vs[j][i]) < m,
    ensures
        entries_weight_sum(vs, len, g, k) == counted_weight_sum(prefix_counts(vs, len, m, k), g, m),
    decreases k,
{
    if k == 0 {
        let z = prefix_counts(vs, len, m, 0);
        lemma_bump(z, z, g, m, m);
        lemma_zero_counts(z, g, m);
    } else {
        let kk = (k - 1) as nat;
        lemma_prefix(vs, len, g, m, kk);
        let s = vs[kk as int].take(len as int);
        assert(len <= vs[kk as int].len());
        assert forall|i: int| 0 <= i < s.len() implies (#[trigger] s[i]) < m by {
            assert(s[i] == vs[kk as int][i]);
        }
        lemma_block(prefix_counts(vs, len, m, kk), prefix_counts(vs, len, m, k), s, g, m);
    }
}

proof fn lemma_zero_counts(z: Seq<nat>, g: spec_fn(nat) -> nat, n: nat)
    requires
        n <= z.len(),
        forall|v: int| 0 <= v < n ==> #[trigger] z[v] == 0,
    ensures
        counted_weight_sum(z, g, n) == 0,
    decreases n,
{
    if n > 0 {
        lemma_zero_counts(z, g, (n - 1) as nat);
        reveal(fmul);
        reveal(fadd);
        assert(0 * g((n - 1) as nat) == 0);
    }
}

/// The lookup identity: for every weight `g` on the values, `g` summed over
/// the first `len` entries of field `f` of the first `l` sub-provers equals
/// `sum_{j < m} n_f[j] g(j)`, with `n_f` the frequencies of `f`. With
/// `g(j) = 1 / (gamma + beta w^j + alpha^j)` this is the identity that the
/// preprocessing argument checks between the index evaluations and the
/// frequency polynomials.
pub proof fn law_lookup_identity(
    rows: Seq<DeRowIndex>,
    cols: Seq<DeColIndex>,
    f: nat,
    len: nat,
    l: nat,
    m: nat,
    g: spec_fn(nat) -> nat,
)
    requires
        n_evals_readable(rows, cols, l, m, len),
        f < 9,
    ensures
        entries_weight_sum(index_fields(rows, cols, f), len, g, l) == counted_weight_sum(
            field_counts(rows, cols, f, len, l, m),
            g,
            m,
        ),
{
    let vs = index_fields(rows, cols, f);
    assert forall|j: int| 0 <= j < l implies len <= (#[trigger] vs[j]).len() by {
        assert(vs[j] == index_field(rows[j], cols[j], f));
    }
    assert forall|j: int, i: int| 0 <= j < l && 0 <= i < len implies (#[trigger] vs[j][i]) < m by {
        assert(vs[j] == index_field(rows[j], cols[j], f));
        assert(len <= index_field(rows[j], cols[j], f).len());
        assert(index_field(rows[j], cols[j], f)[i] < m);
    }
    lemma_prefix(vs, len, g, m, l);
    assert(field_counts(rows, cols, f, len, l, m) =~= prefix_counts(vs, len, m, l));
}

/// The sum of `t` in the field.
pub open spec fn field_sum(t: Seq<nat>) -> nat
    decreases t.len(),
{
    if t.len() == 0 {
        0
    } else {
        fadd(field_sum(t.drop_last()), t.last())
    }
}

/// The sums of the first `len` terms of each of the first `k` rows of `t`,
/// added up.
pub open spec fn nested_field_sum(t: Seq<Seq<nat>>, len: nat, k: nat) -> nat
    decreases k,
{
    if k == 0 {
        0
    } else {
        fadd(nested_field_sum(t, len, (k - 1) as nat), field_sum(t[k - 1].take(len as int)))
    }
}

proof fn lemma_terms(t: Seq<nat>, s: Seq<usize>, g: spec_fn(nat) -> nat)
    requires
        t.len() == s.len(),
        forall|i: int| 0 <= i < s.len() ==> #[trigger] t[i] == g(s[i] as nat),
    ensures
        field_sum(t) == weight_sum(s, g),
    decreases s.len(),
{
    if s.len() > 0 {
        lemma_terms(t.drop_last(), s.drop_last(), g);
        assert(t.last() == g(s.last() as nat));
    }
}

proof fn lemma_nested_terms(t: Seq<Seq<nat>>, vs: Seq<Seq<usize>>, len: nat, g: spec_fn(nat) -> nat, k: nat)
    requires
        k <= t.len(),
        k <= vs.len(),
        forall|j: int| 0 <= j < k ==> len <= (#[trigger] t[j]).len() && len <= vs[j].len(),
        forall|j: int, i: int| 0 <= j < k && 0 <= i < len ==> #[trigger] t[j][i] == g(vs[j][i] as nat),
    ensures
        nested_field_sum(t, len, k) == entries_weight_sum(vs, len, g, k),
    decreases k,
{
    if k > 0 {
        let kk = (k - 1) as nat;
        lemma_nested_terms(t, vs, len, g, kk);
        let a = t[kk as int].take(len as int);
        let b = vs[kk as int].take(len as int);
        assert(len <= t[kk as int].len() && len <= vs[kk as int].len());
        assert forall|i: int| 0 <= i < b.len() implies #[trigger] a[i] == g(b[i] as nat) by {
            assert(t[kk as int][i] == g(vs[kk as int][i] as nat));
        }
        lemma_terms(a, b, g);
    }
}

/// The lookup identity on computed terms: where `terms[k][i]` is the
/// weight `g` of entry `i` of field `f` of sub-prover `k` (for the
/// preprocessing check, `1 / (gamma + beta e_k[i] + u_k[i])` with the index
/// evaluations `e_k[i] = w^v` and `u_k[i] = alpha^v` of that entry `v`), the
/// terms add up to `sum_{j < m} n_f[j] g(j)`.
pub proof fn law_lookup_identity_on_terms(
    rows: Seq<DeRowIndex>,
    cols: Seq<DeColIndex>,
    f: nat,
    len: nat,
    l: nat,
    m: nat,
    g: spec_fn(nat) -> nat,
    terms: Seq<Seq<nat>>,
)
    requires
        n_evals_readable(rows, cols, l, m, len),
        f < 9,
        terms.len() >= l,
        forall|k: int| 0 <= k < l ==> len <= (#[trigger] terms[k]).len(),
        forall|k: int, i: int|
            0 <= k < l && 0 <= i < len ==> #[trigger] terms[k][i] == g(index_field(rows[k], cols[k], f)[i] as nat),
    ensures
        nested_field_sum(terms, len, l) == counted_weight_sum(field_counts(rows, cols, f, len, l, m), g, m),
{
    let vs = index_fields(rows, cols, f);
    assert forall|j: int| 0 <= j < l implies len <= (#[trigger] terms[j]).len() && len <= vs[j].len() by {
        assert(vs[j] == index_field(rows[j], cols[j], f));
    }
    assert forall|j: int, i: int| 0 <= j < l && 0 <= i < len implies #[trigger] terms[j][i] == g(vs[j][i] as nat) by {
        assert(vs[j] == index_field(rows[j], cols[j], f));
    }
    lemma_nested_terms(terms, vs, len, g, l);
    law_lookup_identity(rows, cols, f, len, l, m, g);
}

} // verus!
