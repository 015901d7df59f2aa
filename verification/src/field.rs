use vstd::prelude::*;
use vstd::arithmetic::div_mod::{lemma_add_mod_noop, lemma_mod_twice, lemma_mul_mod_noop_left, lemma_mul_mod_noop_right, lemma_small_mod, lemma_fundamental_div_mod_converse};
use vstd::arithmetic::mul::lemma_mul_is_distributive_add_other_way;
use vstd::arithmetic::mul::{lemma_mul_is_associative, lemma_mul_is_commutative};
use ark_ff::{BigInt, Field, PrimeField};
use ark_bn254::Fr;

verus! {

/// The order of the BN254 scalar field.
pub open spec fn modulus() -> nat {
    21888242871839275222246405745257275088548364400416034343698204186575808495617nat
}

pub open spec fn limb_base() -> nat {
    0x1_0000_0000_0000_0000nat
}

/// Field addition on canonical representatives.
#[verifier::opaque]
pub open spec fn fadd(a: nat, b: nat) -> nat {
    (a + b) % modulus()
}

/// Field subtraction on canonical representatives.
#[verifier::opaque]
pub open spec fn fsub(a: nat, b: nat) -> nat {
    ((a as int - b as int) % (modulus() as int)) as nat
}

/// Field multiplication on canonical representatives.
#[verifier::opaque]
pub open spec fn fmul(a: nat, b: nat) -> nat {
    (a * b) % modulus()
}

/// `a` raised to the power `e` in the field.
pub open spec fn fpow(a: nat, e: nat) -> nat
    decreases e,
{
    if e == 0 {
        1
    } else {
        fmul(fpow(a, (e - 1) as nat), a)
    }
}

/// An element of the BN254 scalar field, held as the little-endian limbs of
/// its canonical representative.
#[derive(Clone, Copy, Debug, PartialEq, Eq, Structural)]
pub struct Scalar {
    pub l0: u64,
    pub l1: u64,
    pub l2: u64,
    pub l3: u64,
}

impl Scalar {
    /// The integer that the limbs spell out.
    pub open spec fn val(self) -> nat {
        self.l0 as nat + self.l1 as nat * limb_base() + self.l2 as nat * limb_base() * limb_base()
            + self.l3 as nat * limb_base() * limb_base() * limb_base()
    }

    /// The limbs hold a canonical representative.
    pub open spec fn wf(self) -> bool {
        self.val() < modulus()
    }

    /// The additive identity.
    pub fn zero() -> (r: Scalar)
        ensures
            r.wf(),
            r.val() == 0,
    {
        Scalar { l0: 0, l1: 0, l2: 0, l3: 0 }
    }

    /// The little-endian limbs, as an array.
    pub fn limbs(&self) -> (r: [u64; 4])
        ensures
            r@ == seq![self.l0, self.l1, self.l2, self.l3],
    {
        [self.l0, self.l1, self.l2, self.l3]
    }

    /// The scalar whose limbs are the given array.
    pub fn from_limbs(limbs: [u64; 4]) -> (r: Scalar)
        ensures
            r.l0 == limbs[0] && r.l1 == limbs[1] && r.l2 == limbs[2] && r.l3 == limbs[3],
    {
        Scalar { l0: limbs[0], l1: limbs[1], l2: limbs[2], l3: limbs[3] }
    }

    /// The multiplicative identity.
    pub fn one() -> (r: Scalar)
        ensures
            r.wf(),
            r.val() == 1,
    {
        Scalar { l0: 1, l1: 0, l2: 0, l3: 0 }
    }

    /// The field element that represents a 64-bit integer.
    pub fn from_u64(x: u64) -> (r: Scalar)
        ensures
            r.wf(),
            r.val() == x,
    {
        Scalar { l0: x, l1: 0, l2: 0, l3: 0 }
    }
}

/// Sum of two field elements, computed by `ark_bn254::Fr` addition.
/// Claims that `Fr` adds modulo the field order.
#[verifier::external_body]
pub(crate) fn ark_add(a: &Scalar, b: &Scalar) -> (r: Scalar)
    requires
        a.wf(),
        b.wf(),
    ensures
        r.wf(),
        r.val() == fadd(a.val(), b.val()),
{
    let x = Fr::from_bigint(BigInt(a.limbs())).unwrap();
    let y = Fr::from_bigint(BigInt(b.limbs())).unwrap();
    Scalar::from_limbs((x + y).into_bigint().0)
}

/// Difference of two field elements, computed by `ark_bn254::Fr`
/// subtraction. Claims that `Fr` subtracts modulo the field order.
#[verifier::external_body]
pub(crate) fn ark_sub(a: &Scalar, b: &Scalar) -> (r: Scalar)
    requires
        a.wf(),
        b.wf(),
    ensures
        r.wf(),
        r.val() == fsub(a.val(), b.val()),
{
    let x = Fr::from_bigint(BigInt(a.limbs())).unwrap();
    let y = Fr::from_bigint(BigInt(b.limbs())).unwrap();
    Scalar::from_limbs((x - y).into_bigint().0)
}

/// Product of two field elements, computed by `ark_bn254::Fr`
/// multiplication. Claims that `Fr` multiplies modulo the field order.
#[verifier::external_body]
pub(crate) fn ark_mul(a: &Scalar, b: &Scalar) -> (r: Scalar)
    requires
        a.wf(),
        b.wf(),
    ensures
        r.wf(),
        r.val() == fmul(a.val(), b.val()),
{
    let x = Fr::from_bigint(BigInt(a.limbs())).unwrap();
    let y = Fr::from_bigint(BigInt(b.limbs())).unwrap();
    Scalar::from_limbs((x * y).into_bigint().0)
}

/// Multiplicative inverse, computed by `ark_ff::Field::inverse` on
/// `ark_bn254::Fr`. Claims `None` exactly for zero, and otherwise an element
/// whose product with the input is one.
#[verifier::external_body]
pub(crate) fn ark_inverse(a: &Scalar) -> (r: Option<Scalar>)
    requires
        a.wf(),
    ensures
        r is None <==> a.val() == 0,
        r matches Some(s) ==> s.wf() && fmul(a.val(), s.val()) == 1,
{
    let x = Fr::from_bigint(BigInt(a.limbs())).unwrap();
    x.inverse().map(|y| Scalar::from_limbs(y.into_bigint().0))
}

/// `a` raised to the power `e`, computed by `ark_ff::Field::pow` on
/// `ark_bn254::Fr`. Claims the field power.
#[verifier::external_body]
pub(crate) fn ark_pow(a: &Scalar, e: u64) -> (r: Scalar)
    requires
        a.wf(),
    ensures
        r.wf(),
        r.val() == fpow(a.val(), e as nat),
{
    let x = Fr::from_bigint(BigInt(a.limbs())).unwrap();
    Scalar::from_limbs(x.pow([e]).into_bigint().0)
}

/// The square of `a`, computed by `ark_ff::Field::square` on
/// `ark_bn254::Fr`. Claims the field square.
#[verifier::external_body]
pub(crate) fn ark_square(a: &Scalar) -> (r: Scalar)
    requires
        a.wf(),
    ensures
        r.wf(),
        r.val() == fmul(a.val(), a.val()),
{
    let x = Fr::from_bigint(BigInt(a.limbs())).unwrap();
    Scalar::from_limbs(x.square().into_bigint().0)
}

/// The inverse of `a` in the field (meaningful for `a` not zero).
pub open spec fn finv(a: nat) -> nat {
    choose|s: nat| #[trigger] is_inverse(a, s)
}

/// `s` is the canonical inverse of `a`.
pub open spec fn is_inverse(a: nat, s: nat) -> bool {
    s < modulus() && fmul(a, s) == 1
}

/// Field multiplication is associative.
pub proof fn lemma_fmul_assoc(a: nat, b: nat, c: nat)
    ensures
        fmul(fmul(a, b), c) == fmul(a, fmul(b, c)),
{
    reveal(fmul);
    let p = modulus() as int;
    lemma_mul_mod_noop_left((a * b) as int, c as int, p);
    lemma_mul_mod_noop_right(a as int, (b * c) as int, p);
    lemma_mul_is_associative(a as int, b as int, c as int);
}

/// Field addition is associative.
pub proof fn lemma_fadd_assoc(a: nat, b: nat, c: nat)
    ensures
        fadd(fadd(a, b), c) == fadd(a, fadd(b, c)),
{
    reveal(fadd);
    let p = modulus() as int;
    lemma_add_mod_noop((a + b) as int, c as int, p);
    lemma_mod_twice((a + b) as int, p);
    lemma_add_mod_noop(a as int, (b + c) as int, p);
    lemma_mod_twice((b + c) as int, p);
    lemma_add_mod_noop((a + b) as int % p, c as int, p);
    lemma_add_mod_noop(a as int, (b + c) as int % p, p);
}

/// Field addition is commutative.
pub proof fn lemma_fadd_comm(a: nat, b: nat)
    ensures
        fadd(a, b) == fadd(b, a),
{
    reveal(fadd);
}

/// Zero is neutral for canonical representatives.
pub proof fn lemma_fadd_zero(a: nat)
    requires
        a < modulus(),
    ensures
        fadd(0, a) == a,
        fadd(a, 0) == a,
{
    reveal(fadd);
    lemma_small_mod(a, modulus());
}

/// `(a + 1) b = a b + b`.
pub proof fn lemma_fmul_succ(a: nat, b: nat)
    ensures
        fmul(a + 1, b) == fadd(fmul(a, b), b),
{
    reveal(fadd);
    reveal(fmul);
    let p = modulus() as int;
    lemma_mul_is_distributive_add_other_way(b as int, a as int, 1);
    lemma_add_mod_noop((a * b) as int, b as int, p);
    lemma_mod_twice((a * b) as int, p);
    lemma_mod_twice(b as int, p);
    lemma_add_mod_noop((a * b) as int % p, b as int, p);
}

/// Multiplication distributes over addition.
pub proof fn lemma_fmul_distrib(a: nat, b: nat, c: nat)
    ensures
        fmul(a, fadd(b, c)) == fadd(fmul(a, b), fmul(a, c)),
{
    reveal(fadd);
    reveal(fmul);
    let p = modulus() as int;
    lemma_mul_mod_noop_right(a as int, (b + c) as int, p);
    vstd::arithmetic::mul::lemma_mul_is_distributive_add(a as int, b as int, c as int);
    lemma_add_mod_noop((a * b) as int, (a * c) as int, p);
}

/// Field results are canonical.
pub proof fn lemma_field_ops_canonical(a: nat, b: nat)
    ensures
        fadd(a, b) < modulus(),
        fsub(a, b) < modulus(),
        fmul(a, b) < modulus(),
{
    reveal(fadd);
    reveal(fsub);
    reveal(fmul);
}

/// One is neutral on the left too.
pub proof fn lemma_fmul_one_left(a: nat)
    requires
        a < modulus(),
    ensures
        fmul(1, a) == a,
{
    lemma_fmul_comm(1, a);
    lemma_fmul_one(a);
}

/// Field multiplication is commutative.
pub proof fn lemma_fmul_comm(a: nat, b: nat)
    ensures
        fmul(a, b) == fmul(b, a),
{
    reveal(fmul);
    lemma_mul_is_commutative(a as int, b as int);
}

/// One is neutral for canonical representatives.
pub proof fn lemma_fmul_one(a: nat)
    requires
        a < modulus(),
    ensures
        fmul(a, 1) == a,
{
    reveal(fmul);
    lemma_small_mod(a, modulus());
}

/// A field element has at most one canonical inverse.
pub proof fn lemma_inverse_unique(a: nat, s: nat, t: nat)
    requires
        is_inverse(a, s),
        is_inverse(a, t),
    ensures
        s == t,
{
    // s = s (a t) = (s a) t = t
    lemma_fmul_assoc(s, a, t);
    lemma_fmul_comm(s, a);
    lemma_fmul_one(s);
    lemma_fmul_comm(1, t);
    lemma_fmul_one(t);
}

/// A canonical inverse is the one that `finv` names.
pub proof fn lemma_finv(a: nat, s: nat)
    requires
        is_inverse(a, s),
    ensures
        finv(a) == s,
{
    let t = finv(a);
    assert(is_inverse(a, t));
    lemma_inverse_unique(a, s, t);
}

/// Two canonical field elements with the same value have the same limbs.
pub proof fn lemma_val_injective(x: Scalar, y: Scalar)
    requires
        x.val() == y.val(),
    ensures
        x == y,
{
    let b = limb_base() as int;
    let hx = x.l1 as int + x.l2 as int * b + x.l3 as int * b * b;
    let hy = y.l1 as int + y.l2 as int * b + y.l3 as int * b * b;
    assert(x.val() == x.l0 + b * hx) by (nonlinear_arith)
        requires
            hx == x.l1 as int + x.l2 as int * b + x.l3 as int * b * b,
            x.val() == x.l0 as nat + x.l1 as nat * b + x.l2 as nat * b * b + x.l3 as nat * b * b * b,
    ;
    assert(y.val() == y.l0 + b * hy) by (nonlinear_arith)
        requires
            hy == y.l1 as int + y.l2 as int * b + y.l3 as int * b * b,
            y.val() == y.l0 as nat + y.l1 as nat * b + y.l2 as nat * b * b + y.l3 as nat * b * b * b,
    ;
    lemma_fundamental_div_mod_converse(x.val() as int, b, hx, x.l0 as int);
    lemma_fundamental_div_mod_converse(y.val() as int, b, hy, y.l0 as int);
    let mx = x.l2 as int + x.l3 as int * b;
    let my = y.l2 as int + y.l3 as int * b;
    assert(hx == x.l1 + b * mx) by (nonlinear_arith)
        requires
            hx == x.l1 as int + x.l2 as int * b + x.l3 as int * b * b,
            mx == x.l2 as int + x.l3 as int * b,
    ;
    assert(hy == y.l1 + b * my) by (nonlinear_arith)
        requires
            hy == y.l1 as int + y.l2 as int * b + y.l3 as int * b * b,
            my == y.l2 as int + y.l3 as int * b,
    ;
    lemma_fundamental_div_mod_converse(hx, b, mx, x.l1 as int);
    lemma_fundamental_div_mod_converse(hy, b, my, y.l1 as int);
    assert(mx == x.l2 + b * x.l3) by (nonlinear_arith)
        requires
            mx == x.l2 as int + x.l3 as int * b,
    ;
    assert(my == y.l2 + b * y.l3) by (nonlinear_arith)
        requires
            my == y.l2 as int + y.l3 as int * b,
    ;
    lemma_fundamental_div_mod_converse(mx, b, x.l3 as int, x.l2 as int);
    lemma_fundamental_div_mod_converse(my, b, y.l3 as int, y.l2 as int);
}

impl Scalar {
    /// Whether two field elements are equal.
    pub fn equals(&self, other: &Scalar) -> (r: bool)
        ensures
            r == (self.val() == other.val()),
    {
        proof {
            if self.val() == other.val() {
                lemma_val_injective(*self, *other);
            }
        }
        self.l0 == other.l0 && self.l1 == other.l1 && self.l2 == other.l2 && self.l3 == other.l3
    }
}

/// Every element holds a canonical representative.
pub open spec fn all_wf(v: Seq<Scalar>) -> bool {
    forall|i: int| 0 <= i < v.len() ==> (#[trigger] v[i]).wf()
}

/// The values of the elements.
pub open spec fn vals_of(v: Seq<Scalar>) -> Seq<nat> {
    v.map_values(|x: Scalar| x.val())
}

/// Powers are canonical.
pub proof fn lemma_fpow_canonical(r: nat, e: nat)
    ensures
        fpow(r, e) < modulus(),
{
    reveal(fmul);
}

/// `r^(a + b) = r^a r^b`.
pub proof fn lemma_fpow_add(r: nat, a: nat, b: nat)
    ensures
        fpow(r, a + b) == fmul(fpow(r, a), fpow(r, b)),
    decreases b,
{
    if b == 0 {
        lemma_fpow_canonical(r, a);
        lemma_fmul_one(fpow(r, a));
    } else {
        lemma_fpow_add(r, a, (b - 1) as nat);
        assert(fpow(r, a + b) == fmul(fpow(r, (a + b - 1) as nat), r));
        assert((a + b - 1) as nat == a + (b - 1) as nat);
        lemma_fmul_assoc(fpow(r, a), fpow(r, (b - 1) as nat), r);
    }
}

/// `(r^m)^k = r^(m k)`.
pub proof fn lemma_fpow_pow(r: nat, m: nat, k: nat)
    ensures
        fpow(fpow(r, m), k) == fpow(r, m * k),
    decreases k,
{
    if k == 0 {
        assert(m * 0 == 0);
    } else {
        lemma_fpow_pow(r, m, (k - 1) as nat);
        assert(m * (k - 1) + m == m * k) by (nonlinear_arith);
        lemma_fpow_add(r, m * (k - 1) as nat, m);
    }
}

} // verus!
