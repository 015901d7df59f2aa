//! Integer helpers: the next power of two, the integer square root, and the
//! split of an index into its low and high digits in base `sqrt(ml)`.
use vstd::prelude::*;
use vstd::arithmetic::div_mod::lemma_fundamental_div_mod;

verus! {

/// `p` is a power of two.
pub open spec fn is_pow2(p: nat) -> bool
    decreases p,
{
    if p == 1 {
        true
    } else if p >= 2 && p % 2 == 0 {
        is_pow2(p / 2)
    } else {
        false
    }
}

/// The smallest power of two that is at least `x` (one for zero).
pub open spec fn next_pow2(x: nat) -> nat
    decreases x,
{
    if x <= 1 {
        1
    } else {
        2 * next_pow2(((x + 1) / 2) as nat)
    }
}

/// `next_pow2(x)` is a power of two, at least `x`, and less than `2x`.
pub proof fn lemma_next_pow2_bounds(x: nat)
    ensures
        is_pow2(next_pow2(x)),
        next_pow2(x) >= x,
        next_pow2(x) >= 1,
        x >= 1 ==> next_pow2(x) < 2 * x,
    decreases x,
{
    if x > 1 {
        lemma_next_pow2_bounds(((x + 1) / 2) as nat);
        let y = next_pow2(((x + 1) / 2) as nat);
        assert((2 * y) % 2 == 0);
        assert((2 * y) / 2 == y);
    }
}

/// `next_pow2` never passes a power of two that bounds its argument.
pub proof fn lemma_next_pow2_le_pow2(x: nat, b: nat)
    requires
        is_pow2(b),
        x <= b,
    ensures
        next_pow2(x) <= b,
    decreases x,
{
    if x > 1 {
        assert(b != 1);
        assert(b % 2 == 0 && is_pow2(b / 2));
        lemma_next_pow2_le_pow2(((x + 1) / 2) as nat, b / 2);
    } else {
        lemma_pow2_pos(b);
    }
}

proof fn lemma_pow2_pos(b: nat)
    requires
        is_pow2(b),
    ensures
        b >= 1,
{
}

/// `next_pow2` is monotone.
pub proof fn lemma_next_pow2_monotone(x: nat, y: nat)
    requires
        x <= y,
    ensures
        next_pow2(x) <= next_pow2(y),
{
    lemma_next_pow2_bounds(y);
    lemma_next_pow2_le_pow2(x, next_pow2(y));
}

/// A power of two fixes `next_pow2`.
pub proof fn lemma_next_pow2_of_pow2(p: nat)
    requires
        is_pow2(p),
    ensures
        next_pow2(p) == p,
    decreases p,
{
    if p > 1 {
        lemma_next_pow2_of_pow2(p / 2);
    }
}

proof fn lemma_half_usize_pow2()
    ensures
        is_pow2((usize::MAX / 2 + 1) as nat),
{
    reveal_with_fuel(is_pow2, 66);
    if usize::MAX == 0xffff_ffff {
        assert(is_pow2(0x8000_0000nat));
    } else {
        assert(is_pow2(0x8000_0000_0000_0000nat));
    }
}

/// The smallest power of two that is at least `x`, as `usize::next_power_of_two`
/// computes it.
pub fn next_power_of_two(x: usize) -> (r: usize)
    requires
        x <= usize::MAX / 2 + 1,
    ensures
        r == next_pow2(x as nat),
    decreases x,
{
    proof {
        lemma_half_usize_pow2();
        lemma_next_pow2_le_pow2(x as nat, (usize::MAX / 2 + 1) as nat);
    }
    if x <= 1 {
        1
    } else {
        let y = next_power_of_two(x / 2 + x % 2);
        assert((x + 1) / 2 == x / 2 + x % 2);
        2 * y
    }
}

proof fn lemma_le_div_iff(a: int, b: int, n: int)
    requires
        a > 0,
        n >= 0,
        b >= 0,
    ensures
        (b <= n / a) <==> (b * a <= n),
{
    lemma_fundamental_div_mod(n, a);
    let q = n / a;
    let r = n % a;
    assert(0 <= r < a);
    if b <= q {
        assert(b * a <= q * a) by (nonlinear_arith)
            requires
                b <= q,
                a > 0,
        ;
        assert(a * q == q * a) by (nonlinear_arith);
    } else {
        assert(b * a >= (q + 1) * a) by (nonlinear_arith)
            requires
                b >= q + 1,
                a > 0,
        ;
        assert((q + 1) * a == q * a + a) by (nonlinear_arith);
        assert(a * q == q * a) by (nonlinear_arith);
    }
}

/// The integer square root: the largest `s` with `s * s <= n`.
pub open spec fn is_isqrt(n: nat, s: nat) -> bool {
    s * s <= n && n < (s + 1) * (s + 1)
}

/// The integer square root: the largest `s` with `s * s <= n`.
pub open spec fn isqrt_spec(n: nat) -> nat {
    choose|s: nat| #[trigger] is_isqrt(n, s)
}

/// The integer square root is unique.
pub proof fn lemma_isqrt_unique(n: nat, s: nat)
    requires
        s * s <= n,
        n < (s + 1) * (s + 1),
    ensures
        isqrt_spec(n) == s,
{
    assert(is_isqrt(n, s));
    let t = isqrt_spec(n);
    assert(t * t <= n && n < (t + 1) * (t + 1));
    if t < s {
        assert((t + 1) * (t + 1) <= s * s) by (nonlinear_arith)
            requires
                t + 1 <= s,
        ;
    } else if t > s {
        assert((s + 1) * (s + 1) <= t * t) by (nonlinear_arith)
            requires
                s + 1 <= t,
        ;
    }
}

/// The integer square root: the largest `s` with `s * s <= n`.
pub fn isqrt(n: usize) -> (s: usize)
    ensures
        s * s <= n,
        n < (s + 1) * (s + 1),
        s == isqrt_spec(n as nat),
{
    let mut lo: usize = 0;
    let mut hi: usize = n / 2 + 2;
    assert(n < hi * hi) by (nonlinear_arith)
        requires
            hi == n / 2 + 2,
            n >= 0,
    ;
    while hi - lo > 1
        invariant
            lo < hi,
            hi <= n / 2 + 2,
            lo * lo <= n,
            n < hi * hi,
        decreases hi - lo,
    {
        let mid = lo + (hi - lo) / 2;
        proof {
            lemma_le_div_iff(mid as int, mid as int, n as int);
        }
        if mid <= n / mid {
            lo = mid;
        } else {
            hi = mid;
        }
    }
    assert(hi == lo + 1);
    proof {
        lemma_isqrt_unique(n as nat, lo as nat);
    }
    lo
}

/// The low digit of `v` in base `s`.
pub open spec fn low_digit(v: nat, s: nat) -> nat {
    v % s
}

/// The high digit of `v` in base `s`.
pub open spec fn high_digit(v: nat, s: nat) -> nat {
    v / s
}

/// Splits `v` as `low + s * high` with `low < s`.
pub fn decompose(v: usize, s: usize) -> (r: (usize, usize))
    requires
        s > 0,
    ensures
        r.0 == low_digit(v as nat, s as nat),
        r.1 == high_digit(v as nat, s as nat),
        r.0 < s,
{
    let high = v / s;
    proof {
        lemma_fundamental_div_mod(v as int, s as int);
        assert(high * s == s * high) by (nonlinear_arith);
    }
    let low = v - high * s;
    (low, high)
}

/// A value is its low digit plus `s` times its high digit, and no other
/// pair of digits with the low one below `s` spells it.
pub proof fn law_digits_unique(v: nat, s: nat, lo: nat, hi: nat)
    requires
        s > 0,
        lo < s,
        v == lo + s * hi,
    ensures
        v == low_digit(v, s) + s * high_digit(v, s),
        lo == low_digit(v, s),
        hi == high_digit(v, s),
{
    lemma_fundamental_div_mod(v as int, s as int);
    assert(s * hi == hi * s) by (nonlinear_arith);
    vstd::arithmetic::div_mod::lemma_fundamental_div_mod_converse(v as int, s as int, hi as int, lo as int);
}

/// The integer square root exists.
pub proof fn lemma_isqrt_exists(n: nat)
    ensures
        is_isqrt(n, isqrt_spec(n)),
    decreases n,
{
    if n == 0 {
        assert(0nat * 0nat <= 0 && 0nat < (0nat + 1) * (0nat + 1)) by (nonlinear_arith);
        lemma_isqrt_unique(0, 0);
    } else {
        lemma_isqrt_exists((n - 1) as nat);
        let t = isqrt_spec((n - 1) as nat);
        assert(t * t <= n - 1 && n - 1 < (t + 1) * (t + 1));
        if (t + 1) * (t + 1) <= n {
            assert(n < (t + 2) * (t + 2)) by (nonlinear_arith)
                requires
                    n - 1 < (t + 1) * (t + 1),
            ;
            lemma_isqrt_unique(n, t + 1);
        } else {
            assert(t * t <= n);
            lemma_isqrt_unique(n, t);
        }
    }
}

} // verus!
