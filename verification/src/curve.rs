//! Short-Weierstrass curve points: affine values and Jacobian projective
//! accumulators, with the group law as explicit formulas.
//!
//! A projective triple `(x, y, z)` with `z != 0` stands for the affine point
//! `(x / z^2, y / z^3)`; `z == 0` is the identity. Every operation's contract
//! pins the resulting coordinates as modular arithmetic; equality of
//! projective points is the cross-multiplied coordinate comparison, never a
//! field-by-field one.

use vstd::prelude::*;

verus! {

use crate::fp::{fadd, fmul, fneg, fsub, finv, invertible, lemma_finv_is, modulus_ok, Fp};
use vstd::arithmetic::div_mod::{
    lemma_mul_mod_noop_right, lemma_small_mod,
};

/// The per-curve constant table: coefficients, cofactor, generator, and the
/// scalar field's order, the latter two as big-endian 64-bit limbs.
pub struct Parameters<const P: u64> {
    /// Coefficient `a` of `y^2 = x^3 + a*x + b`.
    pub coeff_a: Fp<P>,
    /// Coefficient `b` of `y^2 = x^3 + a*x + b`.
    pub coeff_b: Fp<P>,
    /// Index of the prime-order subgroup in the curve group, big-endian limbs.
    pub cofactor: Vec<u64>,
    /// The cofactor's inverse modulo the scalar field order, big-endian limbs.
    pub cofactor_inv: Vec<u64>,
    /// x-coordinate of the prime-order subgroup generator.
    pub generator_x: Fp<P>,
    /// y-coordinate of the prime-order subgroup generator.
    pub generator_y: Fp<P>,
    /// The scalar field's order, big-endian limbs.
    pub scalar_field_order: Vec<u64>,
}

impl<const P: u64> Parameters<P> {
    pub open spec fn wf(&self) -> bool {
        &&& self.coeff_a.wf()
        &&& self.coeff_b.wf()
        &&& self.generator_x.wf()
        &&& self.generator_y.wf()
    }

    /// Multiply by the curve's `a` coefficient.
    pub fn mul_by_a(&self, elt: Fp<P>) -> (r: Fp<P>)
        requires
            self.wf(),
            elt.wf(),
        ensures
            r.wf(),
            r@ == fmul(P as int, self.coeff_a@, elt@),
    {
        self.coeff_a.mul(elt)
    }

    /// Add the curve's `b` coefficient.
    pub fn add_b(&self, elt: Fp<P>) -> (r: Fp<P>)
        requires
            self.wf(),
            elt.wf(),
        ensures
            r.wf(),
            r@ == fadd(P as int, elt@, self.coeff_b@),
    {
        elt.add(self.coeff_b)
    }
}

/// An affine point `(x, y)`, or the identity when `infinity` is set.
#[derive(Clone, Copy, Debug, Hash)]
pub struct GroupAffine<const P: u64> {
    pub x: Fp<P>,
    pub y: Fp<P>,
    pub infinity: bool,
}

/// A Jacobian projective point; `z == 0` encodes the identity.
#[derive(Clone, Copy, Debug, Hash)]
pub struct GroupProjective<const P: u64> {
    pub x: Fp<P>,
    pub y: Fp<P>,
    pub z: Fp<P>,
}

impl<const P: u64> View for GroupAffine<P> {
    type V = (int, int, bool);

    open spec fn view(&self) -> (int, int, bool) {
        (self.x@, self.y@, self.infinity)
    }
}

impl<const P: u64> View for GroupProjective<P> {
    type V = (int, int, int);

    open spec fn view(&self) -> (int, int, int) {
        (self.x@, self.y@, self.z@)
    }
}

/// The right-hand side of the curve equation: `x^3 + a*x + b`.
pub open spec fn sw_rhs(p: int, a: int, b: int, x: int) -> int {
    fadd(p, fadd(p, fmul(p, fmul(p, x, x), x), fmul(p, a, x)), b)
}

/// The affine curve relation: identity, or `y^2 = x^3 + a*x + b`.
pub open spec fn on_curve(p: int, a: int, b: int, q: (int, int, bool)) -> bool {
    q.2 || fmul(p, q.1, q.1) == sw_rhs(p, a, b, q.0)
}

/// Two Jacobian triples denote the same curve point: both identity, or the
/// cross-multiplied coordinates agree.
pub open spec fn proj_eq(p: int, t1: (int, int, int), t2: (int, int, int)) -> bool {
    if t1.2 == 0 {
        t2.2 == 0
    } else if t2.2 == 0 {
        false
    } else {
        let z1z1 = fmul(p, t1.2, t1.2);
        let z2z2 = fmul(p, t2.2, t2.2);
        &&& fmul(p, t1.0, z2z2) == fmul(p, t2.0, z1z1)
        &&& fmul(p, t1.1, fmul(p, z2z2, t2.2)) == fmul(p, t2.1, fmul(p, z1z1, t1.2))
    }
}

/// The identity's canonical Jacobian triple.
pub open spec fn proj_zero() -> (int, int, int) {
    (1, 1, 0)
}

/// The affine point a Jacobian triple stands for: `(x/z^2, y/z^3)`.
pub open spec fn proj_to_affine(p: int, t: (int, int, int)) -> (int, int, bool) {
    if t.2 == 0 {
        (0, 1, true)
    } else {
        let zi = finv(p, t.2);
        let zi2 = fmul(p, zi, zi);
        (fmul(p, t.0, zi2), fmul(p, t.1, fmul(p, zi2, zi)), false)
    }
}

/// The Jacobian triple of an affine point: `z = 1`, or the identity triple.
pub open spec fn affine_to_proj(q: (int, int, bool)) -> (int, int, int) {
    if q.2 {
        proj_zero()
    } else {
        (q.0, q.1, 1)
    }
}

/// Jacobian doubling specialised to curves with `a == 0`.
pub open spec fn proj_double_a0(p: int, t: (int, int, int)) -> (int, int, int) {
    let a = fmul(p, t.0, t.0);
    let b = fmul(p, t.1, t.1);
    let c = fmul(p, b, b);
    let d0 = fadd(p, t.0, b);
    let d = {
        let s = fsub(p, fsub(p, fmul(p, d0, d0), a), c);
        fadd(p, s, s)
    };
    let e = fadd(p, a, fadd(p, a, a));
    let f = fmul(p, e, e);
    let zy = fmul(p, t.2, t.1);
    let z3 = fadd(p, zy, zy);
    let x3 = fsub(p, fsub(p, f, d), d);
    let c2 = fadd(p, c, c);
    let c4 = fadd(p, c2, c2);
    let c8 = fadd(p, c4, c4);
    let y3 = fsub(p, fmul(p, fsub(p, d, x3), e), c8);
    (x3, y3, z3)
}

/// General Jacobian doubling for arbitrary `a`.
pub open spec fn proj_double_generic(p: int, a: int, t: (int, int, int)) -> (int, int, int) {
    let xx = fmul(p, t.0, t.0);
    let yy = fmul(p, t.1, t.1);
    let yyyy = fmul(p, yy, yy);
    let zz = fmul(p, t.2, t.2);
    let s0 = fadd(p, t.0, yy);
    let s1 = fsub(p, fsub(p, fmul(p, s0, s0), xx), yyyy);
    let s = fadd(p, s1, s1);
    let m = fadd(p, fadd(p, fadd(p, xx, xx), xx), fmul(p, a, fmul(p, zz, zz)));
    let t3 = fsub(p, fmul(p, m, m), fadd(p, s, s));
    let x3 = t3;
    let y4 = fadd(p, yyyy, yyyy);
    let y8 = {
        let y42 = fadd(p, y4, y4);
        fadd(p, y42, y42)
    };
    let y3 = fsub(p, fmul(p, m, fsub(p, s, t3)), y8);
    let zy = fadd(p, t.1, t.2);
    let z3 = fsub(p, fsub(p, fmul(p, zy, zy), yy), zz);
    (x3, y3, z3)
}

/// Jacobian doubling: identity stays put; the `a == 0` fast path applies
/// when the coefficient is zero.
pub open spec fn proj_double(p: int, a: int, t: (int, int, int)) -> (int, int, int) {
    if t.2 == 0 {
        t
    } else if a == 0 {
        proj_double_a0(p, t)
    } else {
        proj_double_generic(p, a, t)
    }
}

/// Full Jacobian addition. Coincident operands (detected by cross-multiplied
/// comparison) are redirected to doubling; adding a point to its negation
/// drives `z` to zero, the identity.
pub open spec fn proj_add(p: int, a: int, t1: (int, int, int), t2: (int, int, int)) -> (
    int,
    int,
    int,
) {
    if t1.2 == 0 {
        t2
    } else if t2.2 == 0 {
        t1
    } else {
        let z1z1 = fmul(p, t1.2, t1.2);
        let z2z2 = fmul(p, t2.2, t2.2);
        let u1 = fmul(p, t1.0, z2z2);
        let u2 = fmul(p, t2.0, z1z1);
        let s1 = fmul(p, fmul(p, t1.1, t2.2), z2z2);
        let s2 = fmul(p, fmul(p, t2.1, t1.2), z1z1);
        if u1 == u2 && s1 == s2 {
            proj_double(p, a, t1)
        } else {
            let h = fsub(p, u2, u1);
            let h2 = fadd(p, h, h);
            let i = fmul(p, h2, h2);
            let j = fmul(p, h, i);
            let r0 = fsub(p, s2, s1);
            let r = fadd(p, r0, r0);
            let v = fmul(p, u1, i);
            let x3 = fsub(p, fsub(p, fmul(p, r, r), j), fadd(p, v, v));
            let sj = fmul(p, s1, j);
            let y3 = fsub(p, fmul(p, r, fsub(p, v, x3)), fadd(p, sj, sj));
            let zs = fadd(p, t1.2, t2.2);
            let z3 = fmul(p, fsub(p, fsub(p, fmul(p, zs, zs), z1z1), z2z2), h);
            (x3, y3, z3)
        }
    }
}

/// Mixed Jacobian-plus-affine addition (the affine operand has `z = 1`).
pub open spec fn proj_add_mixed(p: int, a: int, t1: (int, int, int), q: (int, int, bool)) -> (
    int,
    int,
    int,
) {
    if q.2 {
        t1
    } else if t1.2 == 0 {
        (q.0, q.1, 1)
    } else {
        let z1z1 = fmul(p, t1.2, t1.2);
        let u2 = fmul(p, q.0, z1z1);
        let s2 = fmul(p, fmul(p, q.1, t1.2), z1z1);
        if t1.0 == u2 && t1.1 == s2 {
            proj_double(p, a, t1)
        } else {
            let h = fsub(p, u2, t1.0);
            let hh = fmul(p, h, h);
            let i = {
                let i2 = fadd(p, hh, hh);
                fadd(p, i2, i2)
            };
            let j = fmul(p, h, i);
            let r0 = fsub(p, s2, t1.1);
            let r = fadd(p, r0, r0);
            let v = fmul(p, t1.0, i);
            let x3 = fsub(p, fsub(p, fsub(p, fmul(p, r, r), j), v), v);
            let jy = fmul(p, j, t1.1);
            let jy2 = fadd(p, jy, jy);
            let y3 = fsub(p, fmul(p, fsub(p, v, x3), r), jy2);
            let z0 = fadd(p, t1.2, h);
            let z3 = fsub(p, fsub(p, fmul(p, z0, z0), z1z1), hh);
            (x3, y3, z3)
        }
    }
}

/// Some residue squares to `s` modulo `p`.
pub open spec fn has_root(p: int, s: int) -> bool {
    exists|y: int| 0 <= y < p && #[trigger] fmul(p, y, y) == s
}

/// The smallest residue squaring to `s` (meaningful when `has_root` holds).
pub open spec fn least_root(p: int, s: int) -> int {
    choose|y: int|
        0 <= y < p && #[trigger] fmul(p, y, y) == s && (forall|u: int|
            0 <= u < y ==> #[trigger] fmul(p, u, u) != s)
}

/// The root the sign bit selects from the pair `{y0, -y0}`: `y0` exactly
/// when `(y0 < -y0) XOR greatest` holds, else `-y0`, so `greatest` picks the
/// lexicographically larger root.
pub open spec fn canonical_y(p: int, y0: int, greatest: bool) -> int {
    let negy = fneg(p, y0);
    if (y0 < negy) != greatest {
        y0
    } else {
        negy
    }
}

/// A witness that is a root and has no smaller root pins `least_root`.
pub proof fn lemma_least_root_is(p: int, s: int, y: int)
    requires
        p >= 2,
        0 <= y < p,
        fmul(p, y, y) == s,
        forall|u: int| 0 <= u < y ==> #[trigger] fmul(p, u, u) != s,
    ensures
        has_root(p, s),
        least_root(p, s) == y,
{
    assert(has_root(p, s));
    let c = least_root(p, s);
    assert(0 <= c < p && fmul(p, c, c) == s && (forall|u: int|
        0 <= u < c ==> #[trigger] fmul(p, u, u) != s));
    if c < y {
        assert(fmul(p, c, c) != s);
    } else if y < c {
        assert(fmul(p, y, y) != s);
    }
}

/// Negation preserves the square: `(-y)^2 = y^2` in the field.
pub proof fn lemma_fneg_square(p: int, y: int)
    requires
        p >= 2,
        0 <= y < p,
    ensures
        fmul(p, fneg(p, y), fneg(p, y)) == fmul(p, y, y),
{
    vstd::arithmetic::div_mod::lemma_mul_mod_noop_general(p - y, p - y, p);
    assert((p - y) * (p - y) == p * (p - 2 * y) + y * y) by (nonlinear_arith);
    vstd::arithmetic::div_mod::lemma_mod_multiples_vanish(p - 2 * y, y * y, p);
}

/// Bit `k` (counting from the least significant) of a 64-bit limb.
pub open spec fn bit_of(l: u64, k: u64) -> bool {
    (l >> k) & 1 == 1
}

/// The big-endian bit string of a big-endian limb vector.
pub open spec fn be_bits(limbs: Seq<u64>) -> Seq<bool> {
    Seq::new(limbs.len() * 64, |i: int| bit_of(limbs[i / 64], (63 - (i % 64)) as u64))
}

/// Big-endian double-and-add: the result of feeding `bits` into a chain of
/// doublings, adding `base` after each set bit. Leading zero bits leave the
/// identity accumulator untouched.
pub open spec fn mul_bits_spec(p: int, a: int, bits: Seq<bool>, base: (int, int, bool)) -> (
    int,
    int,
    int,
)
    decreases bits.len(),
{
    if bits.len() == 0 {
        proj_zero()
    } else {
        let prev = mul_bits_spec(p, a, bits.drop_last(), base);
        let d = proj_double(p, a, prev);
        if bits.last() {
            proj_add_mixed(p, a, d, base)
        } else {
            d
        }
    }
}

/// The normalised form of one Jacobian triple: identity and `z = 1` points
/// are left untouched, any other is rescaled to `(x/z^2, y/z^3, 1)`.
pub open spec fn normalize_one(p: int, t: (int, int, int)) -> (int, int, int) {
    if t.2 == 0 || t.2 == 1 {
        t
    } else {
        let zi = finv(p, t.2);
        let zi2 = fmul(p, zi, zi);
        (fmul(p, t.0, zi2), fmul(p, t.1, fmul(p, zi2, zi)), 1)
    }
}

/// The running product of the nonzero entries among the first `k` of `zs`.
pub open spec fn prod_nz(p: int, zs: Seq<int>, k: int) -> int
    decreases k,
{
    if k <= 0 {
        1
    } else {
        let r = prod_nz(p, zs, k - 1);
        if zs[k - 1] == 0 {
            r
        } else {
            fmul(p, r, zs[k - 1])
        }
    }
}

/// A product of invertible (or skipped) entries is invertible.
pub proof fn lemma_prod_nz_invertible(p: int, zs: Seq<int>, k: int)
    requires
        p >= 2,
        0 <= k <= zs.len(),
        forall|j: int| 0 <= j < k ==> (zs[j] == 0 || invertible(p, #[trigger] zs[j])),
    ensures
        invertible(p, prod_nz(p, zs, k)),
    decreases k,
{
    if k <= 0 {
        lemma_small_mod(1nat, p as nat);
        assert((1int * 1int) % p == 1);
        assert(invertible(p, 1));
    } else {
        lemma_prod_nz_invertible(p, zs, k - 1);
        if zs[k - 1] != 0 {
            crate::fp::lemma_invertible_mul(p, prod_nz(p, zs, k - 1), zs[k - 1]);
        }
    }
}

/// Big-endian double-and-add with a full projective addend, the form
/// scalar multiplication of a projective accumulator takes.
pub open spec fn mul_bits_proj_spec(p: int, a: int, bits: Seq<bool>, base: (int, int, int)) -> (
    int,
    int,
    int,
)
    decreases bits.len(),
{
    if bits.len() == 0 {
        proj_zero()
    } else {
        let prev = mul_bits_proj_spec(p, a, bits.drop_last(), base);
        let d = proj_double(p, a, prev);
        if bits.last() {
            proj_add(p, a, d, base)
        } else {
            d
        }
    }
}

/// Double-and-add over the identity base point stays the identity: every
/// doubling leaves `z = 0`, and mixed addition of an infinity operand is a
/// no-op.
pub proof fn lemma_mul_bits_of_identity(p: int, a: int, bits: Seq<bool>, q: (int, int, bool))
    requires
        q.2,
    ensures
        mul_bits_spec(p, a, bits, q) == proj_zero(),
    decreases bits.len(),
{
    if bits.len() > 0 {
        lemma_mul_bits_of_identity(p, a, bits.drop_last(), q);
    }
}

/// Negation: the y-coordinate flips; the identity is its own negation.
pub open spec fn proj_neg(p: int, t: (int, int, int)) -> (int, int, int) {
    if t.2 == 0 {
        t
    } else {
        (t.0, fneg(p, t.1), t.2)
    }
}

/// GroupAffine negation.
pub open spec fn affine_neg(p: int, q: (int, int, bool)) -> (int, int, bool) {
    if q.2 {
        q
    } else {
        (q.0, fneg(p, q.1), false)
    }
}

impl<const P: u64> PartialEq for GroupAffine<P> {
    /// Both identity, or equal coordinates.
    fn eq(&self, o: &Self) -> (r: bool) {
        if self.infinity {
            o.infinity
        } else {
            !o.infinity && self.x.v == o.x.v && self.y.v == o.y.v
        }
    }
}

impl<const P: u64> Eq for GroupAffine<P> {}

impl<const P: u64> vstd::std_specs::cmp::PartialEqSpecImpl for GroupAffine<P> {
    open spec fn obeys_eq_spec() -> bool {
        true
    }

    open spec fn eq_spec(&self, o: &Self) -> bool {
        if self.infinity {
            o.infinity
        } else {
            !o.infinity && self@ == o@
        }
    }
}

/// `(a * b) mod P` on raw words, total for any inputs; backs the equality
/// operator, which gets no precondition.
fn mulmod_raw<const P: u64>(a: u64, b: u64) -> (r: u64)
    requires
        P >= 1,
    ensures
        r as int == fmul(P as int, a as int, b as int),
        (r as int) < (P as int),
{
    proof {
        crate::fp::lemma_u64_prod_fits(a as int, b as int);
        vstd::arithmetic::div_mod::lemma_mod_bound((a as int) * (b as int), P as int);
    }
    (((a as u128) * (b as u128)) % (P as u128)) as u64
}

impl<const P: u64> PartialEq for GroupProjective<P> {
    /// Equality of the denoted points: identity against identity, otherwise
    /// the cross-multiplied coordinate comparison.
    fn eq(&self, o: &Self) -> (r: bool) {
        if P == 0 {
            return self.x.v == o.x.v && self.y.v == o.y.v && self.z.v == o.z.v;
        }
        if self.is_zero() {
            return o.is_zero();
        }
        if o.is_zero() {
            return false;
        }
        let z1z1 = mulmod_raw::<P>(self.z.v, self.z.v);
        let z2z2 = mulmod_raw::<P>(o.z.v, o.z.v);
        if mulmod_raw::<P>(self.x.v, z2z2) != mulmod_raw::<P>(o.x.v, z1z1) {
            false
        } else {
            mulmod_raw::<P>(self.y.v, mulmod_raw::<P>(z2z2, o.z.v)) == mulmod_raw::<P>(
                o.y.v,
                mulmod_raw::<P>(z1z1, self.z.v),
            )
        }
    }
}

impl<const P: u64> Eq for GroupProjective<P> {}

impl<const P: u64> vstd::std_specs::cmp::PartialEqSpecImpl for GroupProjective<P> {
    open spec fn obeys_eq_spec() -> bool {
        true
    }

    open spec fn eq_spec(&self, o: &Self) -> bool {
        if P == 0 {
            self@ == o@
        } else {
            proj_eq(P as int, self@, o@)
        }
    }
}

impl<const P: u64> Default for GroupAffine<P> {
    /// The identity (for a degenerate modulus, a zeroed value).
    fn default() -> (r: Self)
        ensures
            modulus_ok(P as int) ==> r.wf() && r@ == (0int, 1int, true),
    {
        if P >= 2 {
            GroupAffine::zero()
        } else {
            GroupAffine { x: Fp { v: 0 }, y: Fp { v: 0 }, infinity: true }
        }
    }
}

impl<const P: u64> Default for GroupProjective<P> {
    /// The identity (for a degenerate modulus, a zeroed value).
    fn default() -> (r: Self)
        ensures
            modulus_ok(P as int) ==> r.wf() && r@ == proj_zero(),
    {
        if P >= 2 {
            GroupProjective::zero()
        } else {
            GroupProjective { x: Fp { v: 0 }, y: Fp { v: 0 }, z: Fp { v: 0 } }
        }
    }
}

impl<const P: u64> GroupAffine<P> {
    pub open spec fn wf(self) -> bool {
        self.x.wf() && self.y.wf()
    }

    pub fn new(x: Fp<P>, y: Fp<P>, infinity: bool) -> (r: Self)
        ensures
            r@ == (x@, y@, infinity),
            x.wf() && y.wf() ==> r.wf(),
    {
        GroupAffine { x, y, infinity }
    }

    /// The group identity, canonically `(0, 1, infinity)`.
    pub fn zero() -> (r: Self)
        requires
            modulus_ok(P as int),
        ensures
            r.wf(),
            r@ == (0int, 1int, true),
    {
        GroupAffine { x: Fp::zero(), y: Fp::one(), infinity: true }
    }

    pub fn is_zero(&self) -> (r: bool)
        ensures
            r == self@.2,
    {
        self.infinity
    }

    /// Overwrite the coordinates with zeros, scrubbing the value.
    pub fn zeroize(&mut self)
        ensures
            final(self)@ == (0int, 0int, false),
    {
        self.x = Fp { v: 0 };
        self.y = Fp { v: 0 };
        self.infinity = false;
    }

    /// The identity and every `(x, y)` satisfying the curve equation.
    pub fn is_on_curve(&self, params: &Parameters<P>) -> (r: bool)
        requires
            self.wf(),
            params.wf(),
        ensures
            r == on_curve(P as int, params.coeff_a@, params.coeff_b@, self@),
    {
        if self.is_zero() {
            true
        } else {
            let y2 = self.y.square();
            let x3b = params.add_b(self.x.square().mul(self.x).add(params.mul_by_a(self.x)));
            y2.v == x3b.v
        }
    }

    pub fn neg(self) -> (r: Self)
        requires
            self.wf(),
        ensures
            r.wf(),
            r@ == affine_neg(P as int, self@),
    {
        if !self.is_zero() {
            GroupAffine { x: self.x, y: self.y.neg(), infinity: false }
        } else {
            self
        }
    }

    /// The fixed prime-order subgroup generator from the parameter table.
    pub fn prime_subgroup_generator(params: &Parameters<P>) -> (r: Self)
        requires
            params.wf(),
        ensures
            r.wf(),
            r@ == (params.generator_x@, params.generator_y@, false),
    {
        GroupAffine { x: params.generator_x, y: params.generator_y, infinity: false }
    }

    /// Recover a point from an x-coordinate and a sign bit: solve
    /// `y^2 = x^3 + a*x + b`, then pick between the root and its negation.
    /// `greatest` selects the lexicographically larger root. `None` exactly
    /// when the right-hand side is a non-residue. The point is not
    /// guaranteed to lie in the prime-order subgroup.
    pub fn get_point_from_x(x: Fp<P>, greatest: bool, params: &Parameters<P>) -> (r: Option<Self>)
        requires
            x.wf(),
            params.wf(),
        ensures
            match r {
                Some(pt) => {
                    &&& pt.wf()
                    &&& has_root(
                        P as int,
                        sw_rhs(P as int, params.coeff_a@, params.coeff_b@, x@),
                    )
                    &&& pt@.0 == x@
                    &&& !pt@.2
                    &&& pt@.1 == canonical_y(
                        P as int,
                        least_root(P as int, sw_rhs(P as int, params.coeff_a@, params.coeff_b@, x@)),
                        greatest,
                    )
                    &&& on_curve(P as int, params.coeff_a@, params.coeff_b@, pt@)
                },
                None => !has_root(P as int, sw_rhs(P as int, params.coeff_a@, params.coeff_b@, x@)),
            },
    {
        let x3b = params.add_b(x.square().mul(x).add(params.mul_by_a(x)));
        match x3b.sqrt() {
            Some(y) => {
                proof {
                    lemma_least_root_is(P as int, x3b@, y@);
                    lemma_fneg_square(P as int, y@);
                }
                let negy = y.neg();
                let sel = if y.lt(negy) != greatest {
                    y
                } else {
                    negy
                };
                Some(GroupAffine { x, y: sel, infinity: false })
            },
            None => None,
        }
    }

    /// Multiply by the scalar whose big-endian bit decomposition `limbs`
    /// holds, by double-and-add in projective form, skipping leading zero
    /// bits.
    pub fn mul_bits(&self, limbs: &[u64], params: &Parameters<P>) -> (r: GroupProjective<P>)
        requires
            self.wf(),
            params.wf(),
            modulus_ok(P as int),
        ensures
            r.wf(),
            r@ == mul_bits_spec(P as int, params.coeff_a@, be_bits(limbs@), self@),
    {
        let ghost p = P as int;
        let ghost ca = params.coeff_a@;
        let ghost allbits = be_bits(limbs@);
        let mut res = GroupProjective::zero();
        let mut started = false;
        let mut li: usize = 0;
        while li < limbs.len()
            invariant
                self.wf(),
                params.wf(),
                modulus_ok(P as int),
                res.wf(),
                li <= limbs.len(),
                p == P as int,
                ca == params.coeff_a@,
                allbits == be_bits(limbs@),
                allbits.len() == limbs@.len() * 64,
                res@ == mul_bits_spec(p, ca, allbits.take(li as int * 64), self@),
                !started ==> res@ == proj_zero(),
            decreases limbs.len() - li,
        {
            let limb = limbs[li];
            let mut bj: u64 = 0;
            while bj < 64
                invariant
                    self.wf(),
                    params.wf(),
                    modulus_ok(P as int),
                    res.wf(),
                    li < limbs.len(),
                    bj <= 64,
                    p == P as int,
                    ca == params.coeff_a@,
                    allbits == be_bits(limbs@),
                    allbits.len() == limbs@.len() * 64,
                    limb == limbs@[li as int],
                    res@ == mul_bits_spec(p, ca, allbits.take(li as int * 64 + bj as int), self@),
                    !started ==> res@ == proj_zero(),
                decreases 64 - bj,
            {
                let ghost i = li as int * 64 + bj as int;
                proof {
                    vstd::arithmetic::mul::lemma_mul_inequality(
                        li as int + 1,
                        limbs@.len() as int,
                        64,
                    );
                    vstd::arithmetic::div_mod::lemma_fundamental_div_mod_converse(
                        i,
                        64,
                        li as int,
                        bj as int,
                    );
                }
                let bit = ((limb >> (63 - bj)) & 1u64) == 1u64;
                proof {
                    assert(bit == allbits[i]);
                    assert(allbits.take(i + 1).drop_last() =~= allbits.take(i));
                    assert(allbits.take(i + 1).last() == allbits[i]);
                }
                if started || bit {
                    started = true;
                    res.double_in_place(params);
                    if bit {
                        res.add_assign_mixed(self, params);
                    }
                }
                bj = bj + 1;
            }
            li = li + 1;
        }
        proof {
            assert(allbits.take(allbits.len() as int) =~= allbits);
        }
        res
    }

    /// Multiply by a scalar given as big-endian 64-bit limbs.
    pub fn mul(&self, scalar: &[u64], params: &Parameters<P>) -> (r: GroupProjective<P>)
        requires
            self.wf(),
            params.wf(),
            modulus_ok(P as int),
        ensures
            r.wf(),
            r@ == mul_bits_spec(P as int, params.coeff_a@, be_bits(scalar@), self@),
    {
        self.mul_bits(scalar, params)
    }

    /// Multiply by the curve's cofactor, landing in the prime-order subgroup.
    pub fn scale_by_cofactor(&self, params: &Parameters<P>) -> (r: GroupProjective<P>)
        requires
            self.wf(),
            params.wf(),
            modulus_ok(P as int),
        ensures
            r.wf(),
            r@ == mul_bits_spec(P as int, params.coeff_a@, be_bits(params.cofactor@), self@),
    {
        self.mul_bits(params.cofactor.as_slice(), params)
    }

    /// Multiply by the curve's cofactor (projective result).
    pub fn mul_by_cofactor_to_projective(&self, params: &Parameters<P>) -> (r: GroupProjective<P>)
        requires
            self.wf(),
            params.wf(),
            modulus_ok(P as int),
        ensures
            r.wf(),
            r@ == mul_bits_spec(P as int, params.coeff_a@, be_bits(params.cofactor@), self@),
    {
        self.scale_by_cofactor(params)
    }

    /// The standard, expensive subgroup test: multiply by the scalar field's
    /// order and check for the identity.
    pub fn is_in_correct_subgroup_assuming_on_curve(&self, params: &Parameters<P>) -> (r: bool)
        requires
            self.wf(),
            params.wf(),
            modulus_ok(P as int),
        ensures
            r == (mul_bits_spec(
                P as int,
                params.coeff_a@,
                be_bits(params.scalar_field_order@),
                self@,
            ).2 == 0),
    {
        self.mul_bits(params.scalar_field_order.as_slice(), params).is_zero()
    }

    /// Multiply by the inverse of the cofactor (an element of the scalar
    /// field, handed over as big-endian limbs).
    pub fn mul_by_cofactor_inv(&self, params: &Parameters<P>) -> (r: Self)
        requires
            self.wf(),
            params.wf(),
            crate::fp::field_ok(P as int),
        ensures
            r.wf(),
            r@ == proj_to_affine(
                P as int,
                mul_bits_spec(P as int, params.coeff_a@, be_bits(params.cofactor_inv@), self@),
            ),
    {
        let prod = self.mul_bits(params.cofactor_inv.as_slice(), params);
        proof {
            if prod@.2 != 0 {
                assert(invertible(P as int, prod@.2));
            }
        }
        prod.into_affine()
    }

    /// Add an affine point in place, accumulating through Jacobian form and
    /// normalising back.
    pub fn add_assign(&mut self, other: &Self, params: &Parameters<P>)
        requires
            old(self).wf(),
            other.wf(),
            params.wf(),
            crate::fp::field_ok(P as int),
        ensures
            final(self).wf(),
            final(self)@ == proj_to_affine(
                P as int,
                proj_add_mixed(
                    P as int,
                    params.coeff_a@,
                    affine_to_proj(old(self)@),
                    other@,
                ),
            ),
    {
        let mut s_proj = self.into_projective();
        s_proj.add_assign_mixed(other, params);
        proof {
            if s_proj@.2 != 0 {
                assert(invertible(P as int, s_proj@.2));
            }
        }
        *self = s_proj.into_affine();
    }

    /// The sum as a new point.
    pub fn add(self, other: &Self, params: &Parameters<P>) -> (r: Self)
        requires
            self.wf(),
            other.wf(),
            params.wf(),
            crate::fp::field_ok(P as int),
        ensures
            r.wf(),
            r@ == proj_to_affine(
                P as int,
                proj_add_mixed(P as int, params.coeff_a@, affine_to_proj(self@), other@),
            ),
    {
        let mut copy = self;
        copy.add_assign(other, params);
        copy
    }

    /// Subtract in place: add the negation.
    pub fn sub_assign(&mut self, other: &Self, params: &Parameters<P>)
        requires
            old(self).wf(),
            other.wf(),
            params.wf(),
            crate::fp::field_ok(P as int),
        ensures
            final(self).wf(),
            final(self)@ == proj_to_affine(
                P as int,
                proj_add_mixed(
                    P as int,
                    params.coeff_a@,
                    affine_to_proj(old(self)@),
                    affine_neg(P as int, other@),
                ),
            ),
    {
        let n = other.neg();
        self.add_assign(&n, params);
    }

    /// The difference as a new point.
    pub fn sub(self, other: &Self, params: &Parameters<P>) -> (r: Self)
        requires
            self.wf(),
            other.wf(),
            params.wf(),
            crate::fp::field_ok(P as int),
        ensures
            r.wf(),
            r@ == proj_to_affine(
                P as int,
                proj_add_mixed(
                    P as int,
                    params.coeff_a@,
                    affine_to_proj(self@),
                    affine_neg(P as int, other@),
                ),
            ),
    {
        let mut copy = self;
        copy.sub_assign(other, params);
        copy
    }

    /// Double the point (through the mixed addition path, which redirects
    /// coincident operands to the doubling formula).
    pub fn double(&self, params: &Parameters<P>) -> (r: Self)
        requires
            self.wf(),
            params.wf(),
            crate::fp::field_ok(P as int),
        ensures
            r.wf(),
            r@ == proj_to_affine(
                P as int,
                proj_add_mixed(P as int, params.coeff_a@, affine_to_proj(self@), self@),
            ),
    {
        let mut tmp = *self;
        tmp.add_assign(self, params);
        tmp
    }

    /// Double in place.
    pub fn double_in_place(&mut self, params: &Parameters<P>)
        requires
            old(self).wf(),
            params.wf(),
            crate::fp::field_ok(P as int),
        ensures
            final(self).wf(),
            final(self)@ == proj_to_affine(
                P as int,
                proj_add_mixed(
                    P as int,
                    params.coeff_a@,
                    affine_to_proj(old(self)@),
                    old(self)@,
                ),
            ),
    {
        let tmp = *self;
        self.add_assign(&tmp, params);
    }

    /// Multiply in place by a scalar, normalising back to affine form.
    pub fn mul_assign(&mut self, scalar: &[u64], params: &Parameters<P>)
        requires
            old(self).wf(),
            params.wf(),
            crate::fp::field_ok(P as int),
        ensures
            final(self).wf(),
            final(self)@ == proj_to_affine(
                P as int,
                mul_bits_spec(P as int, params.coeff_a@, be_bits(scalar@), old(self)@),
            ),
    {
        let prod = self.mul_bits(scalar, params);
        proof {
            if prod@.2 != 0 {
                assert(invertible(P as int, prod@.2));
            }
        }
        *self = prod.into_affine();
    }

    /// Lift to Jacobian coordinates with `z = 1`.
    pub fn into_projective(&self) -> (r: GroupProjective<P>)
        requires
            self.wf(),
            modulus_ok(P as int),
        ensures
            r.wf(),
            r@ == affine_to_proj(self@),
    {
        if self.is_zero() {
            GroupProjective::zero()
        } else {
            GroupProjective { x: self.x, y: self.y, z: Fp::one() }
        }
    }
}

impl<const P: u64> GroupProjective<P> {
    pub open spec fn wf(self) -> bool {
        self.x.wf() && self.y.wf() && self.z.wf()
    }

    pub fn new(x: Fp<P>, y: Fp<P>, z: Fp<P>) -> (r: Self)
        ensures
            r@ == (x@, y@, z@),
            x.wf() && y.wf() && z.wf() ==> r.wf(),
    {
        GroupProjective { x, y, z }
    }

    /// The identity: the canonical triple with `z = 0`.
    pub fn zero() -> (r: Self)
        requires
            modulus_ok(P as int),
        ensures
            r.wf(),
            r@ == proj_zero(),
    {
        GroupProjective { x: Fp::one(), y: Fp::one(), z: Fp::zero() }
    }

    pub fn is_zero(&self) -> (r: bool)
        ensures
            r == (self@.2 == 0),
    {
        self.z.is_zero()
    }

    /// Identity, or already in the canonical `z = 1` form.
    pub fn is_normalized(&self) -> (r: bool)
        ensures
            r == (self@.2 == 0 || self@.2 == 1),
    {
        self.is_zero() || self.z.is_one()
    }

    /// Overwrite the coordinates with zeros, scrubbing the value.
    pub fn zeroize(&mut self)
        ensures
            final(self)@ == (0int, 0int, 0int),
    {
        self.x = Fp { v: 0 };
        self.y = Fp { v: 0 };
        self.z = Fp { v: 0 };
    }

    pub fn prime_subgroup_generator(params: &Parameters<P>) -> (r: Self)
        requires
            params.wf(),
            modulus_ok(P as int),
        ensures
            r.wf(),
            r@ == (params.generator_x@, params.generator_y@, 1int),
    {
        GroupAffine::prime_subgroup_generator(params).into_projective()
    }

    pub fn neg(self) -> (r: Self)
        requires
            self.wf(),
        ensures
            r.wf(),
            r@ == proj_neg(P as int, self@),
    {
        if !self.is_zero() {
            GroupProjective { x: self.x, y: self.y.neg(), z: self.z }
        } else {
            self
        }
    }

    /// Normalise to affine form; the one field inversion is skipped when the
    /// point is the identity or already has `z = 1`.
    #[verifier::rlimit(30)]
    pub fn into_affine(&self) -> (r: GroupAffine<P>)
        requires
            self.wf(),
            self@.2 == 0 || invertible(P as int, self@.2),
        ensures
            r.wf(),
            r@ == proj_to_affine(P as int, self@),
    {
        if self.is_zero() {
            GroupAffine::zero()
        } else if self.z.is_one() {
            proof {
                vstd::arithmetic::div_mod::lemma_small_mod(1nat, P as nat);
                assert((1int * 1int) % (P as int) == 1);
                crate::fp::lemma_finv_is(P as int, 1, 1);
                vstd::arithmetic::div_mod::lemma_small_mod(self.x.v as nat, P as nat);
                vstd::arithmetic::div_mod::lemma_small_mod(self.y.v as nat, P as nat);
                let p = P as int;
                let t = self@;
                assert(t.2 == 1);
                assert(finv(p, t.2) == 1);
                assert(fmul(p, 1, 1) == 1);
                assert(fmul(p, t.0, 1) == t.0);
                assert(fmul(p, t.1, 1) == t.1);
                assert(proj_to_affine(p, t) == (t.0, t.1, false));
            }
            GroupAffine { x: self.x, y: self.y, infinity: false }
        } else {
            match self.z.inverse() {
                Some(zinv) => {
                    let zinv_squared = zinv.square();
                    let x = self.x.mul(zinv_squared);
                    let y = self.y.mul(zinv_squared.mul(zinv));
                    GroupAffine { x, y, infinity: false }
                },
                None => vstd::pervasive::unreached(),
            }
        }
    }

    /// Double in place. Identity stays put; curves with `a == 0` take the
    /// cheaper specialised formula, others the general Jacobian doubling.
    pub fn double_in_place(&mut self, params: &Parameters<P>)
        requires
            old(self).wf(),
            params.wf(),
        ensures
            final(self).wf(),
            final(self)@ == proj_double(P as int, params.coeff_a@, old(self)@),
    {
        if self.is_zero() {
            return;
        }
        if params.coeff_a.is_zero() {
            let a = self.x.square();
            let b = self.y.square();
            let c = b.square();
            let d0 = self.x.add(b);
            let s = d0.square().sub(a).sub(c);
            let d = s.add(s);
            let e = a.add(a.add(a));
            let f = e.square();
            let zy = self.z.mul(self.y);
            self.z = zy.add(zy);
            self.x = f.sub(d).sub(d);
            let c2 = c.add(c);
            let c4 = c2.add(c2);
            let c8 = c4.add(c4);
            self.y = d.sub(self.x).mul(e).sub(c8);
        } else {
            let xx = self.x.square();
            let yy = self.y.square();
            let yyyy = yy.square();
            let zz = self.z.square();
            let s0 = self.x.add(yy);
            let s1 = s0.square().sub(xx).sub(yyyy);
            let s = s1.add(s1);
            let m = xx.add(xx).add(xx).add(params.coeff_a.mul(zz.square()));
            let t3 = m.square().sub(s.add(s));
            let old_y = self.y;
            self.x = t3;
            let y4 = yyyy.add(yyyy);
            let y42 = y4.add(y4);
            let y8 = y42.add(y42);
            self.y = m.mul(s.sub(t3)).sub(y8);
            let zy = old_y.add(self.z);
            self.z = zy.square().sub(yy).sub(zz);
        }
    }

    /// Add an affine point in place: mixed Jacobian addition. Either identity
    /// short-circuits; coincident operands are redirected to doubling.
    pub fn add_assign_mixed(&mut self, other: &GroupAffine<P>, params: &Parameters<P>)
        requires
            old(self).wf(),
            other.wf(),
            params.wf(),
        ensures
            final(self).wf(),
            final(self)@ == proj_add_mixed(P as int, params.coeff_a@, old(self)@, other@),
    {
        if other.is_zero() {
            return;
        }
        if self.is_zero() {
            self.x = other.x;
            self.y = other.y;
            self.z = Fp::one();
            return;
        }
        let z1z1 = self.z.square();
        let u2 = other.x.mul(z1z1);
        let s2 = other.y.mul(self.z).mul(z1z1);
        if self.x.v == u2.v && self.y.v == s2.v {
            // The operands denote the same point.
            self.double_in_place(params);
        } else {
            // When `other` is the negation of `self`, `h` and with it the
            // new `z` become zero: the identity.
            let h = u2.sub(self.x);
            let hh = h.square();
            let i2 = hh.add(hh);
            let i = i2.add(i2);
            let j = h.mul(i);
            let r0 = s2.sub(self.y);
            let r = r0.add(r0);
            let v = self.x.mul(i);
            let x3 = r.square().sub(j).sub(v).sub(v);
            let jy = j.mul(self.y);
            let jy2 = jy.add(jy);
            let y3 = v.sub(x3).mul(r).sub(jy2);
            let z0 = self.z.add(h);
            let z3 = z0.square().sub(z1z1).sub(hh);
            self.x = x3;
            self.y = y3;
            self.z = z3;
        }
    }

    /// Normalise a whole batch to canonical affine-like form (`z = 1`),
    /// spending a single field inversion: accumulate running products of the
    /// `z` coordinates, invert once, and unwind. Identity and
    /// already-normalised points are skipped.
    pub fn batch_normalization(v: &mut Vec<GroupProjective<P>>)
        requires
            modulus_ok(P as int),
            forall|i: int|
                0 <= i < old(v)@.len() ==> ((#[trigger] old(v)@[i]).wf() && (old(v)@[i]@.2 == 0
                    || invertible(P as int, old(v)@[i]@.2))),
        ensures
            final(v)@.len() == old(v)@.len(),
            forall|i: int|
                0 <= i < old(v)@.len() ==> ((#[trigger] final(v)@[i]).wf() && final(v)@[i]@
                    == normalize_one(P as int, old(v)@[i]@)),
    {
        let ghost p = P as int;
        let ghost orig = old(v)@;
        let ghost zs = orig.map_values(|pt: GroupProjective<P>| pt@.2);
        let n = v.len();
        // Phase one: prefix products of the nonzero z coordinates.
        let mut pre: Vec<Fp<P>> = Vec::new();
        let mut acc: Fp<P> = Fp::one();
        proof {
            lemma_small_mod(1nat, P as nat);
        }
        let mut i: usize = 0;
        while i < n
            invariant
                modulus_ok(P as int),
                p == P as int,
                v@ == orig,
                n == orig.len(),
                zs == orig.map_values(|pt: GroupProjective<P>| pt@.2),
                forall|j: int|
                    0 <= j < orig.len() ==> ((#[trigger] orig[j]).wf() && (orig[j]@.2 == 0
                        || invertible(P as int, orig[j]@.2))),
                i <= n,
                pre@.len() == i,
                acc.wf(),
                acc@ == prod_nz(p, zs, i as int),
                forall|j: int|
                    0 <= j < i ==> ((#[trigger] pre@[j]).wf() && pre@[j]@ == prod_nz(p, zs, j)),
            decreases n - i,
        {
            pre.push(acc);
            let z = v[i].z;
            proof {
                assert(zs[i as int] == orig[i as int]@.2);
            }
            if z.v != 0 {
                acc = acc.mul(z);
            }
            i = i + 1;
        }
        // Phase two: the one inversion, of the whole product.
        proof {
            lemma_prod_nz_invertible(p, zs, n as int);
        }
        let mut inv: Fp<P> = match acc.inverse() {
            Some(w) => w,
            None => vstd::pervasive::unreached(),
        };
        // Phase three: walk backwards, peeling one z off the running inverse
        // at a time and rescaling the entry with its recovered inverse.
        let mut k = n;
        while k > 0
            invariant
                modulus_ok(P as int),
                p == P as int,
                n == orig.len(),
                v@.len() == n,
                zs == orig.map_values(|pt: GroupProjective<P>| pt@.2),
                forall|j: int|
                    0 <= j < orig.len() ==> ((#[trigger] orig[j]).wf() && (orig[j]@.2 == 0
                        || invertible(P as int, orig[j]@.2))),
                k <= n,
                pre@.len() == n,
                forall|j: int|
                    0 <= j < n ==> ((#[trigger] pre@[j]).wf() && pre@[j]@ == prod_nz(p, zs, j)),
                inv.wf(),
                inv@ == finv(p, prod_nz(p, zs, k as int)),
                forall|j: int| 0 <= j < k ==> #[trigger] v@[j] == orig[j],
                forall|j: int|
                    k <= j < n ==> ((#[trigger] v@[j]).wf() && v@[j]@ == normalize_one(
                        p,
                        orig[j]@,
                    )),
            decreases k,
        {
            k = k - 1;
            let cur = v[k];
            let ghost zk = zs[k as int];
            let ghost prodk = prod_nz(p, zs, k as int);
            let ghost prodk1 = prod_nz(p, zs, k as int + 1);
            proof {
                assert(zk == orig[k as int]@.2);
                assert(cur.z@ == zk);
                lemma_prod_nz_invertible(p, zs, k as int + 1);
                assert((prodk1 * finv(p, prodk1)) % p == 1);
            }
            if cur.z.v != 0 {
                proof {
                    assert(prodk1 == fmul(p, prodk, zk));
                }
                // Recover 1/z_k from the running inverse and the prefix
                // product of everything before it.
                let zinv = inv.mul(pre[k]);
                proof {
                    lemma_mul_mod_noop_right(zk, inv@ * prodk, p);
                    assert(zk * (inv@ * prodk) == inv@ * (prodk * zk)) by (nonlinear_arith);
                    lemma_mul_mod_noop_right(inv@, prodk * zk, p);
                    assert(inv@ * prodk1 == prodk1 * inv@) by (nonlinear_arith);
                    assert((zk * zinv@) % p == 1);
                    lemma_finv_is(p, zk, zinv@);
                }
                if cur.z.v != 1 {
                    let zinv2 = zinv.square();
                    let x = cur.x.mul(zinv2);
                    let y = cur.y.mul(zinv2.mul(zinv));
                    v[k] = GroupProjective { x, y, z: Fp::one() };
                }
                // Peel z_k off: the running inverse now covers the prefix
                // before index k.
                inv = inv.mul(cur.z);
                proof {
                    lemma_mul_mod_noop_right(prodk, finv(p, prodk1) * zk, p);
                    assert(prodk * (finv(p, prodk1) * zk) == finv(p, prodk1) * (prodk * zk))
                        by (nonlinear_arith);
                    lemma_mul_mod_noop_right(finv(p, prodk1), prodk * zk, p);
                    assert(finv(p, prodk1) * prodk1 == prodk1 * finv(p, prodk1))
                        by (nonlinear_arith);
                    assert((prodk * inv@) % p == 1);
                    lemma_finv_is(p, prodk, inv@);
                }
            } else {
                proof {
                    assert(prodk1 == prodk);
                }
            }
        }
    }

    /// Full Jacobian addition in place.
    pub fn add_assign(&mut self, other: &Self, params: &Parameters<P>)
        requires
            old(self).wf(),
            other.wf(),
            params.wf(),
        ensures
            final(self).wf(),
            final(self)@ == proj_add(P as int, params.coeff_a@, old(self)@, other@),
    {
        if self.is_zero() {
            *self = *other;
            return;
        }
        if other.is_zero() {
            return;
        }
        let z1z1 = self.z.square();
        let z2z2 = other.z.square();
        let u1 = self.x.mul(z2z2);
        let u2 = other.x.mul(z1z1);
        let s1 = self.y.mul(other.z).mul(z2z2);
        let s2 = other.y.mul(self.z).mul(z1z1);
        if u1.v == u2.v && s1.v == s2.v {
            // The operands denote the same point.
            self.double_in_place(params);
        } else {
            // When `other` is the negation of `self`, `h` and with it the
            // new `z` become zero: the identity.
            let h = u2.sub(u1);
            let h2 = h.add(h);
            let i = h2.square();
            let j = h.mul(i);
            let r0 = s2.sub(s1);
            let r = r0.add(r0);
            let v = u1.mul(i);
            let x3 = r.square().sub(j).sub(v.add(v));
            let sj = s1.mul(j);
            let y3 = r.mul(v.sub(x3)).sub(sj.add(sj));
            let zs = self.z.add(other.z);
            let z3 = zs.square().sub(z1z1).sub(z2z2).mul(h);
            self.x = x3;
            self.y = y3;
            self.z = z3;
        }
    }

    /// The sum as a new point.
    pub fn add(self, other: &Self, params: &Parameters<P>) -> (r: Self)
        requires
            self.wf(),
            other.wf(),
            params.wf(),
        ensures
            r.wf(),
            r@ == proj_add(P as int, params.coeff_a@, self@, other@),
    {
        let mut copy = self;
        copy.add_assign(other, params);
        copy
    }

    /// Multiply in place by a scalar given as big-endian limbs, by
    /// double-and-add over full projective additions, skipping leading
    /// zero bits.
    pub fn mul_assign(&mut self, scalar: &[u64], params: &Parameters<P>)
        requires
            old(self).wf(),
            params.wf(),
            modulus_ok(P as int),
        ensures
            final(self).wf(),
            final(self)@ == mul_bits_proj_spec(
                P as int,
                params.coeff_a@,
                be_bits(scalar@),
                old(self)@,
            ),
    {
        let ghost p = P as int;
        let ghost ca = params.coeff_a@;
        let ghost allbits = be_bits(scalar@);
        let base = *self;
        let mut res = GroupProjective::zero();
        let mut started = false;
        let mut li: usize = 0;
        while li < scalar.len()
            invariant
                base.wf(),
                params.wf(),
                modulus_ok(P as int),
                res.wf(),
                li <= scalar.len(),
                p == P as int,
                ca == params.coeff_a@,
                allbits == be_bits(scalar@),
                allbits.len() == scalar@.len() * 64,
                res@ == mul_bits_proj_spec(p, ca, allbits.take(li as int * 64), base@),
                !started ==> res@ == proj_zero(),
            decreases scalar.len() - li,
        {
            let limb = scalar[li];
            let mut bj: u64 = 0;
            while bj < 64
                invariant
                    base.wf(),
                    params.wf(),
                    modulus_ok(P as int),
                    res.wf(),
                    li < scalar.len(),
                    bj <= 64,
                    p == P as int,
                    ca == params.coeff_a@,
                    allbits == be_bits(scalar@),
                    allbits.len() == scalar@.len() * 64,
                    limb == scalar@[li as int],
                    res@ == mul_bits_proj_spec(
                        p,
                        ca,
                        allbits.take(li as int * 64 + bj as int),
                        base@,
                    ),
                    !started ==> res@ == proj_zero(),
                decreases 64 - bj,
            {
                let ghost i = li as int * 64 + bj as int;
                proof {
                    vstd::arithmetic::mul::lemma_mul_inequality(
                        li as int + 1,
                        scalar@.len() as int,
                        64,
                    );
                    vstd::arithmetic::div_mod::lemma_fundamental_div_mod_converse(
                        i,
                        64,
                        li as int,
                        bj as int,
                    );
                }
                let bit = ((limb >> (63 - bj)) & 1u64) == 1u64;
                proof {
                    assert(bit == allbits[i]);
                    assert(allbits.take(i + 1).drop_last() =~= allbits.take(i));
                    assert(allbits.take(i + 1).last() == allbits[i]);
                }
                if started || bit {
                    started = true;
                    res.double_in_place(params);
                    if bit {
                        res.add_assign(&base, params);
                    }
                }
                bj = bj + 1;
            }
            li = li + 1;
        }
        proof {
            assert(allbits.take(allbits.len() as int) =~= allbits);
        }
        *self = res;
    }

    /// Subtract in place: add the negation.
    pub fn sub_assign(&mut self, other: &Self, params: &Parameters<P>)
        requires
            old(self).wf(),
            other.wf(),
            params.wf(),
        ensures
            final(self).wf(),
            final(self)@ == proj_add(
                P as int,
                params.coeff_a@,
                old(self)@,
                proj_neg(P as int, other@),
            ),
    {
        let n = other.neg();
        self.add_assign(&n, params);
    }

    /// The difference as a new point.
    pub fn sub(self, other: &Self, params: &Parameters<P>) -> (r: Self)
        requires
            self.wf(),
            other.wf(),
            params.wf(),
        ensures
            r.wf(),
            r@ == proj_add(P as int, params.coeff_a@, self@, proj_neg(P as int, other@)),
    {
        let mut copy = self;
        copy.sub_assign(other, params);
        copy
    }
}

} // verus!
