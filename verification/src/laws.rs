//! The algebraic laws the library states of itself, proved from the
//! operations' contracts.
//!
//! For the curve: identity, inverse and commutativity behaviour of the
//! group law, agreement of the two doubling formulas, agreement of batch
//! and individual normalisation, and the encoding round trips. For the
//! evaluation domain: the transform's meaning as polynomial evaluation at
//! the generator's powers, and the full inversion theorems — the inverse
//! transform undoes the forward transform, plainly and over the coset —
//! built on geometric sums and the exactness of the generator's order.

use vstd::prelude::*;

verus! {

use crate::curve::{
    be_bits, canonical_y, has_root, least_root, lemma_fneg_square,
    lemma_least_root_is, lemma_mul_bits_of_identity, mul_bits_spec, normalize_one, on_curve,
    proj_add, proj_add_mixed, proj_double, proj_double_a0, proj_double_generic, proj_eq,
    proj_neg, proj_to_affine, proj_zero, sw_rhs,
};
use crate::serial::{
    compressed_bytes, deserialize_compressed_spec, deserialize_uncompressed_spec,
    deserialize_unchecked_spec, lemma_le_roundtrip, le_bytes_of, u64_of_le, uncompressed_bytes,
    SerializationError, FLAG_INFINITY, FLAG_NEGATIVE, FLAG_POSITIVE,
};
use crate::fp::{
    fadd, field_ok, finv, fmul, fneg, fsub, invertible, lemma_finv_is, lemma_no_zero_divisors,
};
use vstd::arithmetic::div_mod::{
    lemma_add_mod_noop, lemma_mod_bound, lemma_mod_equivalence, lemma_mod_multiples_vanish,
    lemma_mul_mod_noop_general, lemma_mul_mod_noop_left, lemma_mul_mod_noop_right,
    lemma_small_mod, lemma_sub_mod_noop, lemma_sub_mod_noop_right,
};

/// The coordinates of a projective triple are canonical residues.
pub open spec fn proj_in_range(p: int, t: (int, int, int)) -> bool {
    0 <= t.0 < p && 0 <= t.1 < p && 0 <= t.2 < p
}

/// The identity is neutral on both sides of projective addition; on the
/// right, a non-canonical identity accumulator is answered with the
/// canonical one, so the claim is equality of denoted points.
pub proof fn lemma_add_identity(p: int, a: int, t: (int, int, int))
    ensures
        proj_add(p, a, proj_zero(), t) == t,
        t.2 != 0 ==> proj_add(p, a, t, proj_zero()) == t,
        proj_eq(p, proj_add(p, a, t, proj_zero()), t),
{
}

/// Mixed addition of the identity operand changes nothing, and adding any
/// affine point to the identity accumulator just lifts it.
pub proof fn lemma_add_mixed_identity(p: int, a: int, t: (int, int, int), q: (int, int, bool))
    ensures
        q.2 ==> proj_add_mixed(p, a, t, q) == t,
        !q.2 && t.2 == 0 ==> proj_add_mixed(p, a, t, q) == (q.0, q.1, 1int),
{
}

/// Adding a triple to itself takes the doubling path: the coincidence
/// check fires on identical operands.
pub proof fn lemma_add_self_is_double(p: int, a: int, t: (int, int, int))
    ensures
        proj_add(p, a, t, t) == proj_double(p, a, t),
{
}

/// Subtracting twice with the same subtrahend is subtracting its double:
/// `(f - d) - d = f - (d + d)` in the field.
proof fn lemma_fsub_twice(p: int, f: int, d: int)
    requires
        p >= 2,
        0 <= d < p,
    ensures
        fsub(p, fsub(p, f, d), d) == fsub(p, f, fadd(p, d, d)),
{
    lemma_sub_mod_noop_right(f, d + d, p);
    lemma_small_mod(d as nat, p as nat);
    lemma_sub_mod_noop(f - d, d, p);
}

/// On a curve with `a = 0` the specialised doubling formula and the
/// general Jacobian formula produce identical coordinates.
pub proof fn lemma_double_a0_matches_generic(p: int, t: (int, int, int))
    requires
        p >= 2,
        proj_in_range(p, t),
    ensures
        proj_double_a0(p, t) == proj_double_generic(p, 0, t),
{
    let x = t.0;
    let y = t.1;
    let z = t.2;
    let xx = fmul(p, x, x);
    let yy = fmul(p, y, y);
    let yyyy = fmul(p, yy, yy);
    let zz = fmul(p, z, z);
    lemma_mod_bound(x * x, p);
    lemma_mod_bound(y * y, p);
    lemma_mod_bound(yy * yy, p);
    lemma_mod_bound(z * z, p);
    // the a-term of the general formula vanishes
    let aterm = fmul(p, 0, fmul(p, zz, zz));
    lemma_small_mod(0nat, p as nat);
    assert(aterm == 0);
    // three-times-x-squared accumulates the same either way
    let e = fadd(p, xx, fadd(p, xx, xx));
    let m0 = fadd(p, fadd(p, xx, xx), xx);
    let m = fadd(p, m0, aterm);
    lemma_mod_bound(xx + xx, p);
    lemma_add_mod_noop(xx, xx + xx, p);
    lemma_add_mod_noop(xx + xx, xx, p);
    lemma_small_mod(xx as nat, p as nat);
    assert(e == (xx + xx + xx) % p);
    assert(m0 == (xx + xx + xx) % p);
    lemma_mod_bound(xx + xx + xx, p);
    lemma_small_mod(m0 as nat, p as nat);
    assert(m == (m0 + 0) % p == m0);
    // both X coordinates are F - 2D
    let d0 = fadd(p, x, yy);
    let s1 = fsub(p, fsub(p, fmul(p, d0, d0), xx), yyyy);
    let d = fadd(p, s1, s1);
    lemma_mod_bound(s1 + s1, p);
    let f = fmul(p, e, e);
    lemma_fsub_twice(p, f, d);
    assert(fsub(p, fsub(p, f, d), d) == fsub(p, f, fadd(p, d, d)));
    // the Y formulas share operands up to commuting the product
    let x3 = fsub(p, fsub(p, f, d), d);
    lemma_mul_mod_noop_general(d - x3, e, p);
    lemma_mul_mod_noop_general(e, d - x3, p);
    assert(fmul(p, fsub(p, d, x3), e) == fmul(p, e, fsub(p, d, x3))) by {
        lemma_mul_mod_noop_left(d - x3, e, p);
        lemma_mul_mod_noop_right(e, d - x3, p);
        assert((d - x3) * e == e * (d - x3)) by (nonlinear_arith);
    };
    // Z: 2*y*z against (y + z)^2 - y^2 - z^2
    let zy = fmul(p, z, y);
    let z3a = fadd(p, zy, zy);
    let yz = fadd(p, y, z);
    let z3g = fsub(p, fsub(p, fmul(p, yz, yz), yy), zz);
    assert(z3a == z3g) by {
        lemma_mul_mod_noop_general(y + z, y + z, p);
        lemma_sub_mod_noop((y + z) * (y + z), y * y, p);
        lemma_small_mod(yy as nat, p as nat);
        lemma_sub_mod_noop_right((y + z) * (y + z), y * y, p);
        lemma_sub_mod_noop((y + z) * (y + z) - y * y, z * z, p);
        lemma_sub_mod_noop_right((y + z) * (y + z) - y * y, z * z, p);
        lemma_small_mod(zz as nat, p as nat);
        assert((y + z) * (y + z) - y * y - z * z == 2 * (z * y)) by (nonlinear_arith);
        let zy2 = z * y;
        lemma_mod_bound(zy2, p);
        lemma_add_mod_noop(zy2, zy2, p);
        assert(z3a == (zy2 % p + zy2 % p) % p);
        assert((zy2 % p + zy2 % p) % p == (zy2 + zy2) % p);
        assert(2 * zy2 == zy2 + zy2) by (nonlinear_arith);
    };
}

/// Doubling agrees with self-addition whatever the coefficient, including
/// across the `a = 0` fast path.
pub proof fn lemma_double_is_add_self(p: int, a: int, t: (int, int, int))
    requires
        p >= 2,
        proj_in_range(p, t),
    ensures
        proj_add(p, a, t, t) == proj_double(p, a, t),
        a == 0 ==> proj_double(p, a, t) == (if t.2 == 0 {
            t
        } else {
            proj_double_generic(p, 0, t)
        }),
{
    lemma_add_self_is_double(p, a, t);
    if a == 0 && t.2 != 0 {
        lemma_double_a0_matches_generic(p, t);
    }
}

/// Adding a finite point to its negation lands on the identity: the
/// cross-multiplied x comparison agrees, the formula's `h` is zero, and
/// so is the resulting `z`.
pub proof fn lemma_add_neg_is_zero(p: int, a: int, t: (int, int, int))
    requires
        field_ok(p),
        proj_in_range(p, t),
    ensures
        proj_eq(p, proj_add(p, a, t, proj_neg(p, t)), proj_zero()),
{
    if t.2 == 0 {
        assert(proj_neg(p, t) == t);
        assert(proj_add(p, a, t, t) == t);
    } else {
        let x = t.0;
        let y = t.1;
        let z = t.2;
        let nt = proj_neg(p, t);
        assert(nt == (x, fneg(p, y), z));
        let z1z1 = fmul(p, z, z);
        let u1 = fmul(p, x, z1z1);
        let s1 = fmul(p, fmul(p, y, z), z1z1);
        let s2 = fmul(p, fmul(p, fneg(p, y), z), z1z1);
        lemma_mod_bound(z * z, p);
        lemma_mod_bound(x * z1z1, p);
        if u1 == u1 && s1 == s2 {
            // coincident: the points double, but then y is self-negating,
            // which forces 2*y*z^3 = 0, impossible for a finite nonzero y
            // in a field; y must be zero and doubling kills z.
            lemma_double_of_order_two_is_zero(p, a, t, s1, s2);
        } else {
            // the general formula multiplies the new z by h = u2 - u1 = 0
            let h = fsub(p, u1, u1);
            assert(h == 0int % p);
            lemma_small_mod(0nat, p as nat);
            let zs = fadd(p, z, z);
            let zfac = fsub(p, fsub(p, fmul(p, zs, zs), z1z1), z1z1);
            let z3 = fmul(p, zfac, h);
            assert(zfac * 0 == 0) by (nonlinear_arith);
            assert(z3 == 0);
            assert(proj_add(p, a, t, nt).2 == 0);
        }
    }
}

/// Helper for the inverse law: when the coincidence check fires against
/// the negation, `y` must be zero (no zero divisors), and doubling a
/// point with `y = 0` yields `z = 0`.
proof fn lemma_double_of_order_two_is_zero(p: int, a: int, t: (int, int, int), s1: int, s2: int)
    requires
        field_ok(p),
        proj_in_range(p, t),
        t.2 != 0,
        s1 == fmul(p, fmul(p, t.1, t.2), fmul(p, t.2, t.2)),
        s2 == fmul(p, fmul(p, fneg(p, t.1), t.2), fmul(p, t.2, t.2)),
        s1 == s2,
    ensures
        proj_eq(p, proj_double(p, a, t), proj_zero()),
{
    let y = t.1;
    let z = t.2;
    let z1z1 = fmul(p, z, z);
    lemma_mod_bound(z * z, p);
    if y != 0 {
        // s1 and s2 are negatives of one another; equality makes each a
        // zero divisor against the invertible 2
        lemma_no_zero_divisors(p, y, z);
        let yz = fmul(p, y, z);
        lemma_mod_bound(y * z, p);
        lemma_mod_bound(z * z, p);
        assert(z1z1 != 0) by {
            lemma_no_zero_divisors(p, z, z);
        };
        lemma_no_zero_divisors(p, yz, z1z1);
        let s = fmul(p, yz, z1z1);
        assert(s != 0);
        // s2 == fneg(p, s1): push the negation through the products
        assert(s2 == fneg(p, s)) by {
            let ny = fneg(p, y);
            lemma_mod_bound(p - y, p);
            // (p - y) * z == p*z - y*z, so modulo p it is -(y z)
            lemma_mul_mod_noop_left(p - y, z, p);
            lemma_mul_mod_noop_left(p - y * z, z1z1, p);
            assert((p - y) * z == p * z + (0 - y * z)) by (nonlinear_arith);
            lemma_mod_multiples_vanish(z, 0 - y * z, p);
            lemma_mul_mod_noop_left(0 - y * z, z1z1, p);
            assert((0 - y * z) * z1z1 == p * z1z1 + (0 - (y * z) * z1z1) - p * z1z1)
                by (nonlinear_arith);
            lemma_mul_mod_noop_left(y * z, z1z1, p);
            // bring both sides to (p*k - yz*z1z1) % p form
            assert(fmul(p, fneg(p, y), z) == fneg(p, fmul(p, y, z))) by {
                lemma_fneg_mul_left(p, y, z);
            };
            lemma_fneg_mul_left(p, fmul(p, y, z), z1z1);
        };
        // s = -s and 2 invertible forces s = 0: contradiction
        assert(s1 == s && s2 == fneg(p, s));
        assert(s == fneg(p, s));
        lemma_self_negation_is_zero(p, s);
        assert(false);
    }
    // y == 0: both doubling branches zero out z
    lemma_small_mod(0nat, p as nat);
    if a == 0 {
        let zy = fmul(p, z, 0);
        assert(z * 0 == 0) by (nonlinear_arith);
        assert(zy == 0);
        assert(proj_double_a0(p, t).2 == fadd(p, 0, 0));
        assert(proj_double_a0(p, t).2 == 0);
    } else {
        let yy = fmul(p, 0, 0);
        assert(yy == 0);
        let zz = fmul(p, z, z);
        let yz = fadd(p, 0, z);
        lemma_small_mod(z as nat, p as nat);
        assert(yz == z);
        let zr = fsub(p, fsub(p, fmul(p, z, z), 0), zz);
        lemma_small_mod(zz as nat, p as nat);
        assert(fsub(p, fmul(p, z, z), 0) == zz);
        assert(zr == (zz - zz) % p);
        assert(zr == 0int % p);
        assert(proj_double_generic(p, a, t).2 == 0);
    }
}

/// Negation distributes over the first factor of a product.
proof fn lemma_fneg_mul_left(p: int, a: int, b: int)
    requires
        p >= 2,
        0 <= a < p,
        0 <= b < p,
    ensures
        fmul(p, fneg(p, a), b) == fneg(p, fmul(p, a, b)),
{
    if a == 0 {
        lemma_small_mod(0nat, p as nat);
        assert(fneg(p, 0) == p % p);
        vstd::arithmetic::div_mod::lemma_mod_self_0(p);
        assert(fneg(p, 0) == 0);
        assert(0 * b == 0) by (nonlinear_arith);
        lemma_mod_bound(a * b, p);
        assert(fmul(p, 0, b) == 0);
        let ab = fmul(p, 0, b);
        assert(fneg(p, ab) == (p - 0) % p);
    } else {
        lemma_small_mod((p - a) as nat, p as nat);
        assert(fneg(p, a) == p - a);
        lemma_mul_mod_noop_left(p - a, b, p);
        assert((p - a) * b == p * b + (0 - a * b)) by (nonlinear_arith);
        lemma_mod_multiples_vanish(b, 0 - a * b, p);
        // -(a b) mod p equals (p - (a b mod p)) mod p
        let ab = fmul(p, a, b);
        lemma_mod_bound(a * b, p);
        lemma_mod_multiples_vanish(1, 0 - ab, p);
        assert(p * 1 + (0 - ab) == p - ab) by (nonlinear_arith);
        // (0 - a*b) % p == (0 - ab) % p
        vstd::arithmetic::div_mod::lemma_sub_mod_noop_right(0, a * b, p);
    }
}

/// Only zero is its own additive inverse in an odd-order field.
proof fn lemma_self_negation_is_zero(p: int, s: int)
    requires
        field_ok(p),
        0 <= s < p,
        s == fneg(p, s),
    ensures
        s == 0,
{
    if s != 0 {
        // s = p - s, so 2s = p = 0 mod p; but 2 and s are invertible
        assert(fneg(p, s) == p - s) by {
            lemma_small_mod((p - s) as nat, p as nat);
        };
        assert(s == p - s);
        assert(s + s == p);
        assert(2 * s == s + s);
        lemma_no_zero_divisors(p, 2, s);
        assert(fmul(p, 2, s) != 0);
        vstd::arithmetic::div_mod::lemma_mod_self_0(p);
        assert(fmul(p, 2, s) == p % p);
        assert(false);
    }
}

/// Congruence workhorses: applying a field operation to values known in
/// the form `expr % p` yields the combined expression modulo `p`.
proof fn lemma_fadd_cong(p: int, a: int, b: int, aa: int, bb: int)
    requires
        p >= 2,
        a == aa % p,
        b == bb % p,
    ensures
        fadd(p, a, b) == (aa + bb) % p,
{
    lemma_add_mod_noop(aa, bb, p);
}

proof fn lemma_fsub_cong(p: int, a: int, b: int, aa: int, bb: int)
    requires
        p >= 2,
        a == aa % p,
        b == bb % p,
    ensures
        fsub(p, a, b) == (aa - bb) % p,
{
    lemma_sub_mod_noop(aa, bb, p);
}

proof fn lemma_fmul_cong(p: int, a: int, b: int, aa: int, bb: int)
    requires
        p >= 2,
        a == aa % p,
        b == bb % p,
    ensures
        fmul(p, a, b) == (aa * bb) % p,
{
    lemma_mul_mod_noop_general(aa, bb, p);
}

/// Negating a reduced value is reducing the negated expression.
proof fn lemma_fneg_mod(p: int, x: int)
    requires
        p >= 2,
    ensures
        fneg(p, x % p) == (0 - x) % p,
{
    let w = x % p;
    lemma_mod_bound(x, p);
    if w == 0 {
        vstd::arithmetic::div_mod::lemma_mod_self_0(p);
        lemma_sub_mod_noop_right(0, x, p);
        lemma_small_mod(0nat, p as nat);
    } else {
        lemma_small_mod((p - w) as nat, p as nat);
        lemma_sub_mod_noop_right(0, x, p);
        vstd::arithmetic::div_mod::lemma_mod_add_multiples_vanish(0 - w, p);
        lemma_small_mod(w as nat, p as nat);
    }
}

/// The operands of projective addition denote the same point, as the
/// coincidence check inside the addition formula sees it.
pub open spec fn proj_coincident(p: int, t1: (int, int, int), t2: (int, int, int)) -> bool {
    &&& t1.2 != 0
    &&& t2.2 != 0
    &&& {
        let z1z1 = fmul(p, t1.2, t1.2);
        let z2z2 = fmul(p, t2.2, t2.2);
        &&& fmul(p, t1.0, z2z2) == fmul(p, t2.0, z1z1)
        &&& fmul(p, fmul(p, t1.1, t2.2), z2z2) == fmul(p, fmul(p, t2.1, t1.2), z1z1)
    }
}

/// GroupProjective addition is commutative: the swapped formula yields the
/// same `x`, and negated `y` and `z`, which the cross-multiplied equality
/// identifies with the original. Distinct Jacobian representatives of the
/// same point are excluded: there both orders redirect to doubling the
/// two different representatives, an equivalence this development does
/// not prove.
#[verifier::rlimit(80)]
pub proof fn lemma_add_comm(p: int, a: int, t1: (int, int, int), t2: (int, int, int))
    requires
        p >= 2,
        proj_in_range(p, t1),
        proj_in_range(p, t2),
        t1 == t2 || !proj_coincident(p, t1, t2),
    ensures
        proj_eq(p, proj_add(p, a, t1, t2), proj_add(p, a, t2, t1)),
{
    if t1.2 == 0 && t2.2 == 0 {
        // both orders return the other operand; both denote the identity
        assert(proj_add(p, a, t1, t2) == t2 && proj_add(p, a, t2, t1) == t1);
    } else if t1.2 == 0 || t2.2 == 0 || t1 == t2 {
        // one identity operand or literal self-addition: equal results
        let s = proj_add(p, a, t1, t2);
        assert(s == proj_add(p, a, t2, t1));
    } else {
        let zz1 = t1.2;
        let zz2 = t2.2;
        let z1z1 = fmul(p, zz1, zz1);
        let z2z2 = fmul(p, zz2, zz2);
        let u1 = fmul(p, t1.0, z2z2);
        let u2 = fmul(p, t2.0, z1z1);
        let s1 = fmul(p, fmul(p, t1.1, zz2), z2z2);
        let s2 = fmul(p, fmul(p, t2.1, zz1), z1z1);
        lemma_mod_bound(zz1 * zz1, p);
        lemma_mod_bound(zz2 * zz2, p);
        lemma_mod_bound(t1.0 * z2z2, p);
        lemma_mod_bound(t2.0 * z1z1, p);
        lemma_mod_bound(fmul(p, t1.1, zz2) * z2z2, p);
        lemma_mod_bound(fmul(p, t2.1, zz1) * z1z1, p);
        // atoms and their one-step expressions
        let dd = u2 - u1;
        let ee = s2 - s1;
        lemma_small_mod(u1 as nat, p as nat);
        lemma_small_mod(u2 as nat, p as nat);
        lemma_small_mod(s1 as nat, p as nat);
        lemma_small_mod(s2 as nat, p as nat);
        // forward direction values
        let h = fsub(p, u2, u1);
        let h2 = fadd(p, h, h);
        let i = fmul(p, h2, h2);
        let j = fmul(p, h, i);
        let r0 = fsub(p, s2, s1);
        let r = fadd(p, r0, r0);
        let v = fmul(p, u1, i);
        let rr = fmul(p, r, r);
        let ii = (2 * dd) * (2 * dd);
        let jj = dd * ii;
        let vv = u1 * ii;
        let rr_e = (2 * ee) * (2 * ee);
        assert(h == dd % p);
        lemma_fadd_cong(p, h, h, dd, dd);
        assert(h2 == (2 * dd) % p) by {
            assert(dd + dd == 2 * dd);
        };
        lemma_fmul_cong(p, h2, h2, 2 * dd, 2 * dd);
        assert(i == ii % p);
        lemma_fmul_cong(p, h, i, dd, ii);
        assert(j == jj % p);
        assert(r0 == ee % p);
        lemma_fadd_cong(p, r0, r0, ee, ee);
        assert(r == (2 * ee) % p) by {
            assert(ee + ee == 2 * ee);
        };
        lemma_fmul_cong(p, r, r, 2 * ee, 2 * ee);
        assert(rr == rr_e % p);
        lemma_fmul_cong(p, u1, i, u1, ii);
        assert(v == vv % p);
        let x3 = fsub(p, fsub(p, rr, j), fadd(p, v, v));
        let xx_e = rr_e - jj - (vv + vv);
        lemma_fsub_cong(p, rr, j, rr_e, jj);
        lemma_fadd_cong(p, v, v, vv, vv);
        lemma_fsub_cong(p, fsub(p, rr, j), fadd(p, v, v), rr_e - jj, vv + vv);
        assert(x3 == xx_e % p);
        let sj = fmul(p, s1, j);
        lemma_fmul_cong(p, s1, j, s1, jj);
        let y3 = fsub(p, fmul(p, r, fsub(p, v, x3)), fadd(p, sj, sj));
        let yy_e = (2 * ee) * (vv - xx_e) - (s1 * jj + s1 * jj);
        lemma_fsub_cong(p, v, x3, vv, xx_e);
        lemma_fmul_cong(p, r, fsub(p, v, x3), 2 * ee, vv - xx_e);
        lemma_fadd_cong(p, sj, sj, s1 * jj, s1 * jj);
        lemma_fsub_cong(
            p,
            fmul(p, r, fsub(p, v, x3)),
            fadd(p, sj, sj),
            (2 * ee) * (vv - xx_e),
            s1 * jj + s1 * jj,
        );
        assert(y3 == yy_e % p);
        let zs = fadd(p, zz1, zz2);
        let tfac = fsub(p, fsub(p, fmul(p, zs, zs), z1z1), z2z2);
        let z3 = fmul(p, tfac, h);
        let tt_e = (zz1 + zz2) * (zz1 + zz2) - zz1 * zz1 - zz2 * zz2;
        lemma_small_mod(zz1 as nat, p as nat);
        lemma_small_mod(zz2 as nat, p as nat);
        lemma_fadd_cong(p, zz1, zz2, zz1, zz2);
        lemma_fmul_cong(p, zs, zs, zz1 + zz2, zz1 + zz2);
        lemma_fsub_cong(p, fmul(p, zs, zs), z1z1, (zz1 + zz2) * (zz1 + zz2), zz1 * zz1);
        lemma_fsub_cong(
            p,
            fsub(p, fmul(p, zs, zs), z1z1),
            z2z2,
            (zz1 + zz2) * (zz1 + zz2) - zz1 * zz1,
            zz2 * zz2,
        );
        lemma_fmul_cong(p, tfac, h, tt_e, dd);
        assert(z3 == (tt_e * dd) % p);
        // swapped direction values
        let hb = fsub(p, u1, u2);
        let hb2 = fadd(p, hb, hb);
        let ib = fmul(p, hb2, hb2);
        let jb = fmul(p, hb, ib);
        let rb0 = fsub(p, s1, s2);
        let rb = fadd(p, rb0, rb0);
        let vb = fmul(p, u2, ib);
        assert(hb == (0 - dd) % p);
        lemma_fadd_cong(p, hb, hb, 0 - dd, 0 - dd);
        lemma_fmul_cong(p, hb2, hb2, (0 - dd) + (0 - dd), (0 - dd) + (0 - dd));
        assert(((0 - dd) + (0 - dd)) * ((0 - dd) + (0 - dd)) == ii) by (nonlinear_arith)
            requires
                ii == (2 * dd) * (2 * dd),
        ;
        assert(ib == ii % p);
        assert(ib == i);
        lemma_fmul_cong(p, hb, ib, 0 - dd, ii);
        assert((0 - dd) * ii == 0 - jj) by (nonlinear_arith)
            requires
                jj == dd * ii,
        ;
        assert(jb == (0 - jj) % p);
        assert(rb0 == (0 - ee) % p);
        lemma_fadd_cong(p, rb0, rb0, 0 - ee, 0 - ee);
        lemma_fmul_cong(p, u2, ib, u2, ii);
        let vvb = u2 * ii;
        assert(vb == vvb % p);
        let rrb = fmul(p, rb, rb);
        lemma_fmul_cong(p, rb, rb, (0 - ee) + (0 - ee), (0 - ee) + (0 - ee));
        assert(((0 - ee) + (0 - ee)) * ((0 - ee) + (0 - ee)) == rr_e) by (nonlinear_arith)
            requires
                rr_e == (2 * ee) * (2 * ee),
        ;
        assert(rrb == rr_e % p);
        let x3b = fsub(p, fsub(p, rrb, jb), fadd(p, vb, vb));
        let xxb_e = rr_e - (0 - jj) - (vvb + vvb);
        lemma_fsub_cong(p, rrb, jb, rr_e, 0 - jj);
        lemma_fadd_cong(p, vb, vb, vvb, vvb);
        lemma_fsub_cong(p, fsub(p, rrb, jb), fadd(p, vb, vb), rr_e - (0 - jj), vvb + vvb);
        assert(x3b == xxb_e % p);
        // the swapped x is the same value
        assert(xxb_e == xx_e) by (nonlinear_arith)
            requires
                xx_e == rr_e - jj - (vv + vv),
                xxb_e == rr_e - (0 - jj) - (vvb + vvb),
                jj == dd * ii,
                vv == u1 * ii,
                vvb == u2 * ii,
                dd == u2 - u1,
        ;
        assert(x3b == x3);
        // the swapped y is the negation
        let sjb = fmul(p, s2, jb);
        lemma_fmul_cong(p, s2, jb, s2, 0 - jj);
        let y3b = fsub(p, fmul(p, rb, fsub(p, vb, x3b)), fadd(p, sjb, sjb));
        let yyb_e = ((0 - ee) + (0 - ee)) * (vvb - xx_e) - (s2 * (0 - jj) + s2 * (0 - jj));
        lemma_fsub_cong(p, vb, x3b, vvb, xx_e);
        lemma_fmul_cong(p, rb, fsub(p, vb, x3b), (0 - ee) + (0 - ee), vvb - xx_e);
        lemma_fadd_cong(p, sjb, sjb, s2 * (0 - jj), s2 * (0 - jj));
        lemma_fsub_cong(
            p,
            fmul(p, rb, fsub(p, vb, x3b)),
            fadd(p, sjb, sjb),
            ((0 - ee) + (0 - ee)) * (vvb - xx_e),
            s2 * (0 - jj) + s2 * (0 - jj),
        );
        assert(y3b == yyb_e % p);
        assert(yyb_e == 0 - yy_e) by (nonlinear_arith)
            requires
                yy_e == (2 * ee) * (vv - xx_e) - (s1 * jj + s1 * jj),
                yyb_e == ((0 - ee) + (0 - ee)) * (vvb - xx_e) - (s2 * (0 - jj) + s2 * (0 - jj)),
                jj == dd * ii,
                vv == u1 * ii,
                vvb == u2 * ii,
                dd == u2 - u1,
                ee == s2 - s1,
        ;
        lemma_fneg_mod(p, yy_e);
        assert(y3b == fneg(p, y3));
        // the swapped z is the negation
        let zsb = fadd(p, zz2, zz1);
        let tfacb = fsub(p, fsub(p, fmul(p, zsb, zsb), z2z2), z1z1);
        let z3b = fmul(p, tfacb, hb);
        lemma_fadd_cong(p, zz2, zz1, zz2, zz1);
        lemma_fmul_cong(p, zsb, zsb, zz2 + zz1, zz2 + zz1);
        lemma_fsub_cong(p, fmul(p, zsb, zsb), z2z2, (zz2 + zz1) * (zz2 + zz1), zz2 * zz2);
        lemma_fsub_cong(
            p,
            fsub(p, fmul(p, zsb, zsb), z2z2),
            z1z1,
            (zz2 + zz1) * (zz2 + zz1) - zz2 * zz2,
            zz1 * zz1,
        );
        assert((zz2 + zz1) * (zz2 + zz1) == (zz1 + zz2) * (zz1 + zz2)) by (nonlinear_arith);
        assert(tfacb == tt_e % p);
        lemma_fmul_cong(p, tfacb, hb, tt_e, 0 - dd);
        assert(tt_e * (0 - dd) == 0 - tt_e * dd) by (nonlinear_arith);
        lemma_fneg_mod(p, tt_e * dd);
        assert(z3b == fneg(p, z3));
        // the two results denote one point
        let ra = proj_add(p, a, t1, t2);
        let rb_pt = proj_add(p, a, t2, t1);
        assert(ra == (x3, y3, z3));
        assert(rb_pt == (x3b, y3b, z3b));
        lemma_mod_bound(tt_e * dd, p);
        lemma_mod_bound(yy_e, p);
        if z3 == 0 {
            assert(fneg(p, 0) == p % p);
            vstd::arithmetic::div_mod::lemma_mod_self_0(p);
            assert(z3b == 0);
        } else {
            lemma_small_mod((p - z3) as nat, p as nat);
            assert(z3b == p - z3);
            assert(z3b != 0);
            let w = fmul(p, z3, z3);
            lemma_mod_bound(z3 * z3, p);
            lemma_fneg_square(p, z3);
            assert(fmul(p, z3b, z3b) == w);
            // x cross-check: identical operands
            assert(fmul(p, ra.0, fmul(p, z3b, z3b)) == fmul(p, rb_pt.0, fmul(p, z3, z3)));
            // y cross-check: both sides are the negation of y3 * z3^3
            let m = fmul(p, w, z3);
            lemma_mod_bound(w * z3, p);
            lemma_mod_bound(y3 * 1, p);
            assert(fmul(p, w, z3b) == fneg(p, m)) by {
                assert(w * z3b == z3b * w) by (nonlinear_arith);
                lemma_fneg_mul_left(p, z3, w);
                assert(z3b == fneg(p, z3));
                assert(z3 * w == w * z3) by (nonlinear_arith);
            };
            assert(fmul(p, y3, fmul(p, w, z3b)) == fneg(p, fmul(p, y3, m))) by {
                lemma_mod_bound(y3 * m, p);
                assert(y3 * fmul(p, w, z3b) == fmul(p, w, z3b) * y3) by (nonlinear_arith);
                lemma_fneg_mul_left(p, m, y3);
                assert(m * y3 == y3 * m) by (nonlinear_arith);
            };
            assert(fmul(p, y3b, fmul(p, w, z3)) == fneg(p, fmul(p, y3, m))) by {
                lemma_fneg_mul_left(p, y3, m);
            };
            assert(fmul(p, ra.1, fmul(p, fmul(p, z3b, z3b), z3b)) == fmul(
                p,
                rb_pt.1,
                fmul(p, fmul(p, z3, z3), z3),
            ));
        }
    }
}

/// In a field, the only square roots of `y^2` are `y` and `-y`: any other
/// pair would give the zero product `(r - y)(r + y)` nonzero factors.
pub proof fn lemma_two_roots(p: int, y: int, r: int)
    requires
        field_ok(p),
        0 <= y < p,
        0 <= r < p,
        fmul(p, r, r) == fmul(p, y, y),
    ensures
        r == y || r == fneg(p, y),
{
    let a = fsub(p, r, y);
    let b = fadd(p, r, y);
    lemma_mod_bound(r - y, p);
    lemma_mod_bound(r + y, p);
    lemma_mul_mod_noop_general(r - y, r + y, p);
    assert((r - y) * (r + y) == r * r - y * y) by (nonlinear_arith);
    lemma_mod_equivalence(r * r, y * y, p);
    assert(fmul(p, a, b) == 0);
    if a != 0 && b != 0 {
        lemma_no_zero_divisors(p, a, b);
        assert(false);
    }
    if a == 0 {
        lemma_mod_equivalence(r, y, p);
        lemma_small_mod(r as nat, p as nat);
        lemma_small_mod(y as nat, p as nat);
        assert(r == y);
    } else {
        // r + y is a multiple of p inside [0, 2p)
        lemma_mod_add_multiples_vanish_form(p, r + y);
        if r + y == 0 {
            assert(r == 0 && y == 0);
            lemma_small_mod(0nat, p as nat);
            assert(fneg(p, 0) == p % p);
            vstd::arithmetic::div_mod::lemma_mod_self_0(p);
        } else {
            assert(r + y == p);
            assert(y != 0) by {
                if y == 0 {
                    assert(r == p);
                }
            };
            lemma_small_mod((p - y) as nat, p as nat);
            assert(fneg(p, y) == p - y);
        }
    }
}

/// A value in `[0, 2p)` that reduces to zero is `0` or `p`.
proof fn lemma_mod_add_multiples_vanish_form(p: int, v: int)
    requires
        p >= 2,
        0 <= v < 2 * p,
        v % p == 0,
    ensures
        v == 0 || v == p,
{
    if v < p {
        lemma_small_mod(v as nat, p as nat);
    } else {
        vstd::arithmetic::div_mod::lemma_mod_sub_multiples_vanish(v, p);
        assert((v - p) % p == v % p);
        lemma_small_mod((v - p) as nat, p as nat);
    }
}

/// Negating twice gives the value back.
pub proof fn lemma_fneg_involution(p: int, y: int)
    requires
        p >= 2,
        0 <= y < p,
    ensures
        fneg(p, fneg(p, y)) == y,
{
    vstd::arithmetic::div_mod::lemma_mod_self_0(p);
    if y == 0 {
        lemma_small_mod(0nat, p as nat);
    } else {
        lemma_small_mod((p - y) as nat, p as nat);
        lemma_small_mod(y as nat, p as nat);
    }
}

/// The least root of `y^2` is the smaller of `y` and `-y`.
pub proof fn lemma_least_root_pair(p: int, y: int)
    requires
        field_ok(p),
        0 <= y < p,
    ensures
        has_root(p, fmul(p, y, y)),
        least_root(p, fmul(p, y, y)) == (if y <= fneg(p, y) {
            y
        } else {
            fneg(p, y)
        }),
{
    let s = fmul(p, y, y);
    let ny = fneg(p, y);
    lemma_mod_bound(p - y, p);
    lemma_fneg_square(p, y);
    let m = if y <= ny {
        y
    } else {
        ny
    };
    assert(fmul(p, m, m) == s);
    assert forall|u: int| 0 <= u < m implies #[trigger] fmul(p, u, u) != s by {
        if fmul(p, u, u) == s {
            lemma_two_roots(p, y, u);
        }
    };
    lemma_least_root_is(p, s, m);
}

/// Compressed round trip: decoding the encoding of any well-formed curve
/// point of the prime-order subgroup gives the point back (the identity in
/// its canonical form).
pub proof fn lemma_compressed_round_trip(
    p: int,
    a: int,
    b: int,
    order_limbs: Seq<u64>,
    q: (int, int, bool),
)
    requires
        field_ok(p),
        p <= 0xffff_ffff_ffff_ffff + 1,
        0 <= q.0 < p,
        0 <= q.1 < p,
        on_curve(p, a, b, q),
        q.2 ==> q == (0int, 1int, true),
        !q.2 ==> mul_bits_spec(p, a, be_bits(order_limbs), q).2 == 0,
    ensures
        deserialize_compressed_spec(p, a, b, order_limbs, compressed_bytes(p, q))
            == Ok::<(int, int, bool), SerializationError>(q),
{
    let bytes = compressed_bytes(p, q);
    if q.2 {
        assert(bytes =~= le_bytes_of(0).push(FLAG_INFINITY));
        assert(bytes.take(8) =~= le_bytes_of(0));
        lemma_le_roundtrip(0);
        assert(bytes[8] == FLAG_INFINITY);
    } else {
        let xw = q.0 as u64;
        let flag = if q.1 > fneg(p, q.1) {
            FLAG_POSITIVE
        } else {
            FLAG_NEGATIVE
        };
        assert(bytes =~= le_bytes_of(xw).push(flag));
        assert(bytes.take(8) =~= le_bytes_of(xw));
        lemma_le_roundtrip(xw);
        assert(u64_of_le(bytes.take(8)) as int == q.0);
        assert(bytes[8] == flag);
        // the selected root is exactly the stored y
        let rhs = sw_rhs(p, a, b, q.0);
        assert(fmul(p, q.1, q.1) == rhs);
        lemma_least_root_pair(p, q.1);
        let ny = fneg(p, q.1);
        let y0 = least_root(p, rhs);
        lemma_mod_bound(p - q.1, p);
        lemma_fneg_involution(p, q.1);
        let greatest = (flag == FLAG_POSITIVE);
        assert(canonical_y(p, y0, greatest) == q.1) by {
            if q.1 > ny {
                assert(y0 == ny);
                assert(fneg(p, y0) == q.1);
            } else {
                assert(y0 == q.1);
            }
        };
        assert(has_root(p, rhs));
    }
}

/// Uncompressed round trip through the checked decoder: any well-formed
/// point of the prime-order subgroup survives unchanged, whatever triple
/// represents the identity.
pub proof fn lemma_uncompressed_round_trip(
    p: int,
    a: int,
    order_limbs: Seq<u64>,
    q: (int, int, bool),
)
    requires
        p >= 2,
        p <= 0xffff_ffff_ffff_ffff + 1,
        0 <= q.0 < p,
        0 <= q.1 < p,
        !q.2 ==> mul_bits_spec(p, a, be_bits(order_limbs), q).2 == 0,
    ensures
        deserialize_uncompressed_spec(p, a, order_limbs, uncompressed_bytes(q)) == Ok::<
            (int, int, bool),
            SerializationError,
        >(q),
{
    let bytes = uncompressed_bytes(q);
    let xw = q.0 as u64;
    let yw = q.1 as u64;
    let flag = if q.2 {
        FLAG_INFINITY
    } else {
        FLAG_POSITIVE
    };
    assert(bytes =~= le_bytes_of(xw) + le_bytes_of(yw).push(flag));
    assert(bytes.take(8) =~= le_bytes_of(xw));
    assert(bytes.subrange(8, 16) =~= le_bytes_of(yw));
    lemma_le_roundtrip(xw);
    lemma_le_roundtrip(yw);
    assert(bytes[16] == flag);
    assert(deserialize_unchecked_spec(p, bytes) == Ok::<(int, int, bool), SerializationError>(q));
    if q.2 {
        lemma_mul_bits_of_identity(p, a, be_bits(order_limbs), q);
    }
}

/// Distributing the powers of an invertible element and then of its
/// inverse restores every coefficient: the component of the coset round
/// trip that frames the transforms.
pub proof fn lemma_distribute_inverse<const P: u64, T: crate::domain::DomainCoeff<P>>(
    v: Seq<T>,
    g: int,
    gi: int,
)
    requires
        crate::fp::modulus_ok(P as int),
        crate::domain::all_wfc::<P, T>(v),
        0 <= g < P as int,
        0 <= gi < P as int,
        fmul(P as int, g, gi) == 1,
    ensures
        crate::domain::distribute_spec::<P, T>(
            crate::domain::distribute_spec::<P, T>(v, g, 1),
            gi,
            1,
        ) == v,
{
    let p = P as int;
    let d1 = crate::domain::distribute_spec::<P, T>(v, g, 1);
    let d2 = crate::domain::distribute_spec::<P, T>(d1, gi, 1);
    assert forall|i: int| 0 <= i < v.len() implies d2[i] == v[i] by {
        let gp = crate::fp::fpow(p, g, i as nat);
        let gip = crate::fp::fpow(p, gi, i as nat);
        lemma_mod_bound(vstd::arithmetic::power::pow(g, i as nat), p);
        lemma_mod_bound(vstd::arithmetic::power::pow(gi, i as nat), p);
        lemma_small_mod(gp as nat, p as nat);
        lemma_small_mod(gip as nat, p as nat);
        assert(fmul(p, 1, gp) == gp);
        assert(fmul(p, 1, gip) == gip);
        assert(d1[i] == v[i].spec_mul_sc(gp));
        assert(d2[i] == d1[i].spec_mul_sc(gip));
        // g^i * gi^i = (g * gi)^i = 1
        assert(fmul(p, gp, gip) == 1) by {
            vstd::arithmetic::power::lemma_pow_distributes(g, gi, i as nat);
            lemma_mul_mod_noop_general(
                vstd::arithmetic::power::pow(g, i as nat),
                vstd::arithmetic::power::pow(gi, i as nat),
                p,
            );
            vstd::arithmetic::power::lemma_pow_mod_noop(g * gi, i as nat, p);
            vstd::arithmetic::power::lemma1_pow(i as nat);
            lemma_small_mod(1nat, p as nat);
        };
        v[i].lemma_mul_sc_mul_sc(gp, gip);
        v[i].lemma_mul_sc_one();
    };
    assert(d2 =~= v);
}

/// The polynomial with coefficient vector `c` evaluated at `x`, by
/// Horner's rule, as a canonical residue.
pub open spec fn poly_eval<const P: u64>(c: Seq<crate::fp::Fp<P>>, x: int) -> int
    decreases c.len(),
{
    if c.len() == 0 {
        0
    } else {
        fadd(P as int, c[0]@, fmul(P as int, x, poly_eval::<P>(c.drop_first(), x)))
    }
}

/// An evaluation is a canonical residue.
proof fn lemma_poly_eval_range<const P: u64>(c: Seq<crate::fp::Fp<P>>, x: int)
    requires
        crate::fp::modulus_ok(P as int),
    ensures
        0 <= poly_eval::<P>(c, x) < P as int,
    decreases c.len(),
{
    let p = P as int;
    if c.len() == 0 {
    } else {
        lemma_poly_eval_range::<P>(c.drop_first(), x);
        lemma_mod_bound(c[0]@ + fmul(p, x, poly_eval::<P>(c.drop_first(), x)), p);
    }
}

/// Splitting a polynomial into even and odd coefficients:
/// `f(x) = f_even(x^2) + x * f_odd(x^2)`.
proof fn lemma_poly_eval_split<const P: u64>(c: Seq<crate::fp::Fp<P>>, x: int)
    requires
        crate::fp::modulus_ok(P as int),
        crate::domain::all_wfc::<P, crate::fp::Fp<P>>(c),
        0 <= x < P as int,
    ensures
        poly_eval::<P>(c, x) == fadd(
            P as int,
            poly_eval::<P>(crate::domain::even_elems(c), fmul(P as int, x, x)),
            fmul(P as int, x, poly_eval::<P>(crate::domain::odd_elems(c), fmul(P as int, x, x))),
        ),
    decreases c.len(),
{
    let p = P as int;
    let x2 = fmul(p, x, x);
    let ev = crate::domain::even_elems(c);
    let od = crate::domain::odd_elems(c);
    lemma_mod_bound(x * x, p);
    lemma_small_mod(0nat, p as nat);
    if c.len() == 0 {
        assert(ev =~= Seq::<crate::fp::Fp<P>>::empty());
        assert(od =~= Seq::<crate::fp::Fp<P>>::empty());
        assert(x * 0 == 0) by (nonlinear_arith);
        assert(fmul(p, x, 0) == 0);
        assert(fadd(p, 0, 0) == 0);
    } else if c.len() == 1 {
        let c0 = c[0]@;
        assert(0 <= c0 < p);
        assert(ev =~= seq![c[0]]);
        assert(od =~= Seq::<crate::fp::Fp<P>>::empty());
        assert(c.drop_first() =~= Seq::<crate::fp::Fp<P>>::empty());
        assert(ev.drop_first() =~= Seq::<crate::fp::Fp<P>>::empty());
        assert(x * 0 == 0) by (nonlinear_arith);
        assert(x2 * 0 == 0) by (nonlinear_arith);
        assert(fmul(p, x, 0) == 0);
        assert(fmul(p, x2, 0) == 0);
        lemma_small_mod(c0 as nat, p as nat);
        // both sides reduce to c[0]
        assert(poly_eval::<P>(c.drop_first(), x) == 0);
        assert(poly_eval::<P>(ev.drop_first(), x2) == 0);
        assert(poly_eval::<P>(od, x2) == 0);
        assert(poly_eval::<P>(c, x) == fadd(p, c0, 0));
        assert(poly_eval::<P>(ev, x2) == fadd(p, c0, 0));
        assert(fadd(p, c0, 0) == c0);
        assert(fadd(p, c0, fmul(p, x, 0)) == c0);
    } else {
        let rest = c.drop_first().drop_first();
        lemma_poly_eval_split::<P>(rest, x);
        let c0 = c[0]@;
        let c1 = c[1]@;
        assert(c.drop_first()[0] == c[1]);
        assert(c.drop_first().drop_first() =~= rest);
        assert(0 <= c0 < p && 0 <= c1 < p) by {
            assert(crate::domain::DomainCoeff::wfc(c[0]) && crate::domain::DomainCoeff::wfc(
                c[1],
            ));
        };
        // the even and odd splits of the tail are the tails of the splits
        assert(ev.drop_first() =~= crate::domain::even_elems(rest));
        assert(od.drop_first() =~= crate::domain::odd_elems(rest));
        assert(ev[0] == c[0]);
        assert(od[0] == c[1]);
        let e = poly_eval::<P>(crate::domain::even_elems(rest), x2);
        let o = poly_eval::<P>(crate::domain::odd_elems(rest), x2);
        lemma_poly_eval_range::<P>(crate::domain::even_elems(rest), x2);
        lemma_poly_eval_range::<P>(crate::domain::odd_elems(rest), x2);
        // every side equals (c0 + x*c1 + x*(x*e) + x*(x*(x*o))) % p
        let t = c0 + x * c1 + x * (x * e) + x * (x * (x * o));
        // left side, unwinding Horner three steps
        assert(poly_eval::<P>(c, x) == t % p) by {
            assert(poly_eval::<P>(rest, x) == fadd(p, e, fmul(p, x, o)));
            lemma_add_mod_noop_right_only(p, e, x * o);
            let r2 = (e + x * o) % p;
            assert(poly_eval::<P>(rest, x) == r2);
            lemma_mul_mod_noop_right(x, e + x * o, p);
            assert(x * (e + x * o) == x * e + x * (x * o)) by (nonlinear_arith);
            lemma_add_mod_noop_right_only(p, c1, x * e + x * (x * o));
            let r1 = (c1 + x * e + x * (x * o)) % p;
            assert(poly_eval::<P>(c.drop_first(), x) == r1);
            lemma_mul_mod_noop_right(x, c1 + x * e + x * (x * o), p);
            assert(x * (c1 + x * e + x * (x * o)) == x * c1 + x * (x * e) + x * (x * (x * o)))
                by (nonlinear_arith);
            lemma_add_mod_noop_right_only(p, c0, x * c1 + x * (x * e) + x * (x * (x * o)));
        };
        // right side
        assert(fadd(p, poly_eval::<P>(ev, x2), fmul(p, x, poly_eval::<P>(od, x2))) == t % p) by {
            lemma_mul_mod_noop_left(x * x, e, p);
            assert((x * x) * e == x * (x * e)) by (nonlinear_arith);
            lemma_add_mod_noop_right_only(p, c0, x * (x * e));
            assert(poly_eval::<P>(ev, x2) == (c0 + x * (x * e)) % p);
            lemma_mul_mod_noop_left(x * x, o, p);
            assert((x * x) * o == x * (x * o)) by (nonlinear_arith);
            lemma_add_mod_noop_right_only(p, c1, x * (x * o));
            assert(poly_eval::<P>(od, x2) == (c1 + x * (x * o)) % p);
            lemma_mul_mod_noop_right(x, c1 + x * (x * o), p);
            assert(x * (c1 + x * (x * o)) == x * c1 + x * (x * (x * o))) by (nonlinear_arith);
            lemma_add_mod_noop(c0 + x * (x * e), x * c1 + x * (x * (x * o)), p);
        };
    }
}

/// `(a + (b % p)) % p == (a + b) % p`, the one-sided form the Horner
/// unwinding leans on.
proof fn lemma_add_mod_noop_right_only(p: int, a: int, b: int)
    requires
        p >= 2,
        0 <= a < p,
    ensures
        fadd(p, a, b % p) == (a + b) % p,
{
    vstd::arithmetic::div_mod::lemma_add_mod_noop_right(a, b, p);
}

/// Powers of the squared base are even powers of the base, and squaring a
/// power squares it.
proof fn lemma_fpow_square_base(p: int, g: int, k: nat)
    requires
        p >= 2,
        0 <= g < p,
    ensures
        crate::fp::fpow(p, fmul(p, g, g), k) == crate::fp::fpow(p, g, 2 * k),
        fmul(p, crate::fp::fpow(p, g, k), crate::fp::fpow(p, g, k)) == crate::fp::fpow(
            p,
            g,
            2 * k,
        ),
{
    let pw = vstd::arithmetic::power::pow(g, k);
    vstd::arithmetic::power::lemma_pow1(g);
    vstd::arithmetic::power::lemma_pow_adds(g, 1, 1);
    assert(g * g == vstd::arithmetic::power::pow(g, 2));
    vstd::arithmetic::power::lemma_pow_mod_noop(g * g, k, p);
    vstd::arithmetic::power::lemma_pow_multiplies(g, 2, k);
    lemma_mul_mod_noop_general(pw, pw, p);
    vstd::arithmetic::power::lemma_pow_adds(g, k, k);
    assert(2 * k == k + k);
}

/// A product of powers is the power of the sum of exponents.
proof fn lemma_fpow_add(p: int, g: int, i: nat, j: nat)
    requires
        p >= 2,
    ensures
        fmul(p, crate::fp::fpow(p, g, i), crate::fp::fpow(p, g, j)) == crate::fp::fpow(
            p,
            g,
            i + j,
        ),
{
    lemma_mul_mod_noop_general(
        vstd::arithmetic::power::pow(g, i),
        vstd::arithmetic::power::pow(g, j),
        p,
    );
    vstd::arithmetic::power::lemma_pow_adds(g, i, j);
}

/// Multiplying by `p - 1` negates.
proof fn lemma_fmul_neg1(p: int, w: int)
    requires
        p >= 2,
        0 <= w < p,
    ensures
        fmul(p, w, p - 1) == fneg(p, w),
{
    assert(w * (p - 1) == p * w + (0 - w)) by (nonlinear_arith);
    lemma_mod_multiples_vanish(w, 0 - w, p);
    vstd::arithmetic::div_mod::lemma_mod_add_multiples_vanish(0 - w, p);
}

/// Adding a negation subtracts.
proof fn lemma_fadd_neg_is_fsub(p: int, e: int, m: int)
    requires
        p >= 2,
        0 <= e < p,
        0 <= m < p,
    ensures
        fadd(p, e, fneg(p, m)) == fsub(p, e, m),
{
    if m == 0 {
        vstd::arithmetic::div_mod::lemma_mod_self_0(p);
        lemma_small_mod(e as nat, p as nat);
    } else {
        lemma_small_mod((p - m) as nat, p as nat);
        vstd::arithmetic::div_mod::lemma_mod_add_multiples_vanish(e - m, p);
    }
}

/// What the transform means: entry `k` of the radix-2 recursion over the
/// powers of a generator of order `n` (with the halfway power `-1`) is the
/// coefficient polynomial evaluated at `g^k`.
pub proof fn lemma_fft_evaluates<const P: u64>(g: int, v: Seq<crate::fp::Fp<P>>, k: int)
    requires
        crate::fp::modulus_ok(P as int),
        crate::domain::all_wfc::<P, crate::fp::Fp<P>>(v),
        crate::domain::is_pow2(v.len() as nat),
        0 <= g < P as int,
        crate::fp::fpow(P as int, g, v.len() as nat) == 1,
        v.len() > 1 ==> crate::fp::fpow(P as int, g, (v.len() / 2) as nat) == P as int - 1,
        0 <= k < v.len(),
    ensures
        crate::domain::fft_spec::<P, crate::fp::Fp<P>>(g, v)[k]@ == poly_eval::<P>(
            v,
            crate::fp::fpow(P as int, g, k as nat),
        ),
    decreases v.len(),
{
    let p = P as int;
    let n = v.len() as int;
    if v.len() <= 1 {
        // order 1: the only evaluation point is g^0 = 1
        vstd::arithmetic::power::lemma_pow0(g);
        lemma_small_mod(1nat, p as nat);
        let c0 = v[0]@;
        assert(0 <= c0 < p) by {
            assert(crate::domain::DomainCoeff::wfc(v[0]));
        };
        lemma_small_mod(0nat, p as nat);
        assert(poly_eval::<P>(v.drop_first(), 1) == 0);
        assert(1int * 0int == 0int);
        assert(fmul(p, 1, 0) == 0);
        lemma_small_mod(c0 as nat, p as nat);
        assert(poly_eval::<P>(v, 1) == fadd(p, c0, 0));
    } else {
        let half = n / 2;
        let g2 = fmul(p, g, g);
        let ev = crate::domain::even_elems(v);
        let od = crate::domain::odd_elems(v);
        lemma_mod_bound(g * g, p);
        // a power of two above one is even, and its half is a power of two
        assert(v.len() as nat % 2 == 0 && crate::domain::is_pow2((v.len() / 2) as nat));
        assert(ev.len() == half && od.len() == half);
        assert(crate::domain::all_wfc::<P, crate::fp::Fp<P>>(ev)) by {
            assert forall|i: int| 0 <= i < ev.len() implies crate::domain::DomainCoeff::wfc(
                #[trigger] ev[i],
            ) by {
                assert(ev[i] == v[2 * i]);
            };
        };
        assert(crate::domain::all_wfc::<P, crate::fp::Fp<P>>(od)) by {
            assert forall|i: int| 0 <= i < od.len() implies crate::domain::DomainCoeff::wfc(
                #[trigger] od[i],
            ) by {
                assert(od[i] == v[2 * i + 1]);
            };
        };
        // the squared generator drives the half-size recursion
        lemma_fpow_square_base(p, g, half as nat);
        assert(2 * (half as nat) == v.len() as nat);
        assert(crate::fp::fpow(p, g2, half as nat) == 1);
        if half > 1 {
            assert(half as nat % 2 == 0 && crate::domain::is_pow2((half / 2) as nat));
            lemma_fpow_square_base(p, g, (half / 2) as nat);
            assert(2 * ((half / 2) as nat) == half as nat);
            assert(crate::fp::fpow(p, g2, (half / 2) as nat) == p - 1);
        }
        let ev_f = crate::domain::fft_spec::<P, crate::fp::Fp<P>>(g2, ev);
        let od_f = crate::domain::fft_spec::<P, crate::fp::Fp<P>>(g2, od);
        if k < half {
            lemma_fft_evaluates::<P>(g2, ev, k);
            lemma_fft_evaluates::<P>(g2, od, k);
            let w = crate::fp::fpow(p, g, k as nat);
            lemma_mod_bound(vstd::arithmetic::power::pow(g, k as nat), p);
            lemma_fpow_square_base(p, g, k as nat);
            lemma_poly_eval_split::<P>(v, w);
            lemma_poly_eval_range::<P>(ev, fmul(p, w, w));
            lemma_poly_eval_range::<P>(od, fmul(p, w, w));
            lemma_mod_bound(od_f[k]@ * w, p);
            assert(od_f[k]@ * w == w * od_f[k]@) by (nonlinear_arith);
            assert(fmul(p, od_f[k]@, w) == fmul(p, w, od_f[k]@));
        } else {
            let kp = k - half;
            lemma_fft_evaluates::<P>(g2, ev, kp);
            lemma_fft_evaluates::<P>(g2, od, kp);
            let wp = crate::fp::fpow(p, g, kp as nat);
            lemma_mod_bound(vstd::arithmetic::power::pow(g, kp as nat), p);
            // g^k = g^(k - half) * g^half = -g^(k - half)
            lemma_fpow_add(p, g, kp as nat, half as nat);
            assert(kp as nat + half as nat == k as nat);
            lemma_fmul_neg1(p, wp);
            let w = crate::fp::fpow(p, g, k as nat);
            assert(w == fneg(p, wp));
            lemma_poly_eval_split::<P>(v, w);
            lemma_mod_bound(p - wp, p);
            crate::curve::lemma_fneg_square(p, wp);
            lemma_fpow_square_base(p, g, kp as nat);
            assert(fmul(p, w, w) == crate::fp::fpow(p, g2, kp as nat));
            let ovalue = poly_eval::<P>(od, fmul(p, w, w));
            lemma_poly_eval_range::<P>(ev, fmul(p, w, w));
            lemma_poly_eval_range::<P>(od, fmul(p, w, w));
            lemma_fneg_mul_left(p, wp, ovalue);
            assert(fmul(p, w, ovalue) == fneg(p, fmul(p, wp, ovalue)));
            lemma_mod_bound(wp * ovalue, p);
            lemma_fadd_neg_is_fsub(p, poly_eval::<P>(ev, fmul(p, w, w)), fmul(p, wp, ovalue));
            lemma_mod_bound(od_f[kp]@ * wp, p);
            assert(od_f[kp]@ * wp == wp * od_f[kp]@) by (nonlinear_arith);
            assert(fmul(p, od_f[kp]@, wp) == fmul(p, wp, od_f[kp]@));
        }
    }
}

/// The transform over a well-formed domain evaluates the coefficients at
/// the domain elements: the domain invariant supplies every side
/// condition of the evaluation theorem.
pub proof fn lemma_domain_fft_evaluates<const P: u64>(
    d: crate::domain::EvaluationDomain<P>,
    v: Seq<crate::fp::Fp<P>>,
    k: int,
)
    requires
        d.wf(),
        v.len() == d.size,
        crate::domain::all_wfc::<P, crate::fp::Fp<P>>(v),
        0 <= k < v.len(),
    ensures
        crate::domain::fft_spec::<P, crate::fp::Fp<P>>(d.group_gen@, v)[k]@ == poly_eval::<P>(
            v,
            crate::fp::fpow(P as int, d.group_gen@, k as nat),
        ),
{
    lemma_fft_evaluates::<P>(d.group_gen@, v, k);
}

/// The generator's inverse is itself a root of unity of the domain's
/// order, with the same halfway power `-1`: inverting `g * g^-1 = 1`
/// through the power laws, and the halfway power by uniqueness of the
/// inverse of `-1`.
pub proof fn lemma_gen_inv_root_of_unity<const P: u64>(d: crate::domain::EvaluationDomain<P>)
    requires
        d.wf(),
    ensures
        crate::domain::root_of_unity_ok(P as int, d.group_gen_inv@, d.size as nat),
{
    let p = P as int;
    let g = d.group_gen@;
    let gi = d.group_gen_inv@;
    let n = d.size as nat;
    lemma_small_mod(1nat, p as nat);
    // gi is nonzero: zero has no product reaching 1
    if gi == 0 {
        assert(g * 0 == 0) by (nonlinear_arith);
        lemma_small_mod(0nat, p as nat);
        assert(fmul(p, g, gi) == 0);
        assert(false);
    }
    // (g * gi)^e reduces to 1 for any e, and splits into the two powers
    assert forall|e: nat| #[trigger] fmul(p, crate::fp::fpow(p, g, e), crate::fp::fpow(p, gi, e))
        == 1 by {
        vstd::arithmetic::power::lemma_pow_distributes(g, gi, e);
        lemma_mul_mod_noop_general(
            vstd::arithmetic::power::pow(g, e),
            vstd::arithmetic::power::pow(gi, e),
            p,
        );
        vstd::arithmetic::power::lemma_pow_mod_noop(g * gi, e, p);
        vstd::arithmetic::power::lemma1_pow(e);
    };
    // order n: g^n = 1, so gi^n is 1 * gi^n = 1
    let w = crate::fp::fpow(p, gi, n);
    assert(fmul(p, crate::fp::fpow(p, g, n), w) == 1);
    lemma_mod_bound(vstd::arithmetic::power::pow(gi, n), p);
    lemma_small_mod(w as nat, p as nat);
    assert(fmul(p, 1, w) == w % p);
    if d.size > 1 {
        // halfway power: gi^(n/2) inverts -1, and -1 inverts itself
        let v2 = crate::fp::fpow(p, gi, (d.size / 2) as nat);
        assert(fmul(p, crate::fp::fpow(p, g, (d.size / 2) as nat), v2) == 1);
        lemma_mod_bound(vstd::arithmetic::power::pow(gi, (d.size / 2) as nat), p);
        assert((p - 1) * (p - 1) == p * (p - 2) + 1) by (nonlinear_arith);
        lemma_mod_multiples_vanish(p - 2, 1, p);
        assert(fmul(p, p - 1, p - 1) == 1);
        crate::fp::lemma_inv_unique(p, p - 1, v2, p - 1);
    }
}

/// What the inverse transform means over a well-formed domain: entry `j`
/// is the evaluation vector read as a polynomial, evaluated at the inverse
/// generator's `j`-th power and scaled by the size's inverse.
pub proof fn lemma_domain_ifft_evaluates<const P: u64>(
    d: crate::domain::EvaluationDomain<P>,
    v: Seq<crate::fp::Fp<P>>,
    j: int,
)
    requires
        d.wf(),
        v.len() == d.size,
        crate::domain::all_wfc::<P, crate::fp::Fp<P>>(v),
        0 <= j < v.len(),
    ensures
        crate::domain::ifft_spec::<P, crate::fp::Fp<P>>(d.group_gen_inv@, d.size_inv@, v)[j]@
            == fmul(
            P as int,
            poly_eval::<P>(v, crate::fp::fpow(P as int, d.group_gen_inv@, j as nat)),
            d.size_inv@,
        ),
{
    lemma_gen_inv_root_of_unity::<P>(d);
    lemma_fft_evaluates::<P>(d.group_gen_inv@, v, j);
    let inner = crate::domain::fft_spec::<P, crate::fp::Fp<P>>(d.group_gen_inv@, v);
    assert(crate::domain::ifft_spec::<P, crate::fp::Fp<P>>(d.group_gen_inv@, d.size_inv@, v)[j]
        == crate::domain::DomainCoeff::spec_mul_sc(inner[j], d.size_inv@));
    lemma_mod_bound(inner[j]@ * d.size_inv@, P as int);
}

/// A unit impulse transforms to the all-ones vector: the polynomial `1`
/// evaluates to 1 everywhere.
pub proof fn lemma_impulse_evaluates_to_one<const P: u64>(v: Seq<crate::fp::Fp<P>>, x: int)
    requires
        crate::fp::modulus_ok(P as int),
        v.len() >= 1,
        v[0]@ == 1,
        forall|i: int| 1 <= i < v.len() ==> (#[trigger] v[i])@ == 0,
        0 <= x < P as int,
    ensures
        poly_eval::<P>(v, x) == 1,
{
    let p = P as int;
    lemma_poly_eval_zero_tail::<P>(v.drop_first(), x);
    lemma_small_mod(0nat, p as nat);
    assert(x * 0 == 0) by (nonlinear_arith);
    assert(fmul(p, x, 0) == 0);
    lemma_small_mod(1nat, p as nat);
    assert(poly_eval::<P>(v, x) == fadd(p, 1, 0));
}

/// A zero coefficient vector evaluates to zero.
proof fn lemma_poly_eval_zero_tail<const P: u64>(v: Seq<crate::fp::Fp<P>>, x: int)
    requires
        crate::fp::modulus_ok(P as int),
        forall|i: int| 0 <= i < v.len() ==> (#[trigger] v[i])@ == 0,
    ensures
        poly_eval::<P>(v, x) == 0,
    decreases v.len(),
{
    let p = P as int;
    if v.len() == 0 {
    } else {
        lemma_poly_eval_zero_tail::<P>(v.drop_first(), x);
        lemma_small_mod(0nat, p as nat);
        assert(x * 0 == 0) by (nonlinear_arith);
        assert(fmul(p, x, 0) == 0);
        assert(poly_eval::<P>(v, x) == fadd(p, 0, 0));
    }
}

/// The evaluation as an explicit power sum, peeling coefficients from the
/// front: `sum of c[i] * x^(e + i)`.
pub open spec fn eval_sum<const P: u64>(c: Seq<crate::fp::Fp<P>>, x: int, e: nat) -> int
    decreases c.len(),
{
    if c.len() == 0 {
        0
    } else {
        fadd(
            P as int,
            fmul(P as int, c[0]@, crate::fp::fpow(P as int, x, e)),
            eval_sum::<P>(c.drop_first(), x, e + 1),
        )
    }
}

/// Multiplication distributes over addition in the field.
proof fn lemma_fmul_distributes_fadd(p: int, x: int, a: int, b: int)
    requires
        p >= 2,
    ensures
        fmul(p, x, fadd(p, a, b)) == fadd(p, fmul(p, x, a), fmul(p, x, b)),
{
    lemma_mul_mod_noop_right(x, a + b, p);
    assert(x * (a + b) == x * a + x * b) by (nonlinear_arith);
    lemma_mod_bound(x * a, p);
    lemma_mod_bound(x * b, p);
    lemma_add_mod_noop(x * a, x * b, p);
}

/// A sum is in canonical range.
proof fn lemma_eval_sum_range<const P: u64>(c: Seq<crate::fp::Fp<P>>, x: int, e: nat)
    requires
        crate::fp::modulus_ok(P as int),
    ensures
        0 <= eval_sum::<P>(c, x, e) < P as int,
    decreases c.len(),
{
    let p = P as int;
    if c.len() == 0 {
    } else {
        lemma_eval_sum_range::<P>(c.drop_first(), x, e + 1);
        lemma_mod_bound(
            fmul(p, c[0]@, crate::fp::fpow(p, x, e)) + eval_sum::<P>(c.drop_first(), x, e + 1),
            p,
        );
    }
}

/// Scaling a sum by `x` shifts every power up by one.
proof fn lemma_eval_sum_shift<const P: u64>(c: Seq<crate::fp::Fp<P>>, x: int, e: nat)
    requires
        crate::fp::modulus_ok(P as int),
        0 <= x < P as int,
    ensures
        fmul(P as int, x, eval_sum::<P>(c, x, e)) == eval_sum::<P>(c, x, e + 1),
    decreases c.len(),
{
    let p = P as int;
    if c.len() == 0 {
        lemma_small_mod(0nat, p as nat);
        assert(x * 0 == 0) by (nonlinear_arith);
    } else {
        lemma_eval_sum_shift::<P>(c.drop_first(), x, e + 1);
        let hd = fmul(p, c[0]@, crate::fp::fpow(p, x, e));
        let tl = eval_sum::<P>(c.drop_first(), x, e + 1);
        lemma_fmul_distributes_fadd(p, x, hd, tl);
        // x * (c0 * x^e) == c0 * x^(e+1)
        assert(fmul(p, x, hd) == fmul(p, c[0]@, crate::fp::fpow(p, x, e + 1))) by {
            let pw = vstd::arithmetic::power::pow(x, e);
            lemma_mod_bound(c[0]@ * pw, p);
            lemma_mul_mod_noop_right(x, c[0]@ * pw, p);
            lemma_mod_bound(pw, p);
            lemma_mul_mod_noop_right(c[0]@, x * pw, p);
            assert(x * (c[0]@ * pw) == c[0]@ * (x * pw)) by (nonlinear_arith);
            vstd::arithmetic::power::lemma_pow1(x);
            vstd::arithmetic::power::lemma_pow_adds(x, 1, e);
            lemma_mul_mod_noop_right(c[0]@, pw, p);
        };
    }
}

/// Horner's rule computes the power sum.
proof fn lemma_horner_is_sum<const P: u64>(c: Seq<crate::fp::Fp<P>>, x: int)
    requires
        crate::fp::modulus_ok(P as int),
        crate::domain::all_wfc::<P, crate::fp::Fp<P>>(c),
        0 <= x < P as int,
    ensures
        poly_eval::<P>(c, x) == eval_sum::<P>(c, x, 0),
    decreases c.len(),
{
    let p = P as int;
    if c.len() == 0 {
    } else {
        assert(crate::domain::all_wfc::<P, crate::fp::Fp<P>>(c.drop_first())) by {
            assert forall|i: int|
                0 <= i < c.drop_first().len() implies crate::domain::DomainCoeff::wfc(
                #[trigger] c.drop_first()[i],
            ) by {
                assert(c.drop_first()[i] == c[i + 1]);
            };
        };
        lemma_horner_is_sum::<P>(c.drop_first(), x);
        lemma_eval_sum_shift::<P>(c.drop_first(), x, 0);
        // the leading coefficient enters with x^0 = 1
        let c0 = c[0]@;
        assert(0 <= c0 < p) by {
            assert(crate::domain::DomainCoeff::wfc(c[0]));
        };
        vstd::arithmetic::power::lemma_pow0(x);
        lemma_small_mod(1nat, p as nat);
        lemma_small_mod(c0 as nat, p as nat);
        assert(fmul(p, c0, crate::fp::fpow(p, x, 0)) == c0);
    }
}

/// The sum of the first `m` powers of `w` in the field.
pub open spec fn pow_sum(p: int, w: int, m: nat) -> int
    decreases m,
{
    if m == 0 {
        0
    } else {
        fadd(p, pow_sum(p, w, (m - 1) as nat), crate::fp::fpow(p, w, (m - 1) as nat))
    }
}

/// A power sum is in canonical range.
proof fn lemma_pow_sum_range(p: int, w: int, m: nat)
    requires
        p >= 2,
    ensures
        0 <= pow_sum(p, w, m) < p,
    decreases m,
{
    if m > 0 {
        lemma_pow_sum_range(p, w, (m - 1) as nat);
        lemma_mod_bound(
            pow_sum(p, w, (m - 1) as nat) + crate::fp::fpow(p, w, (m - 1) as nat),
            p,
        );
    }
}

/// The geometric identity: `(w - 1) * (1 + w + ... + w^(m-1)) = w^m - 1`.
proof fn lemma_geometric_sum(p: int, w: int, m: nat)
    requires
        p >= 2,
        0 <= w < p,
    ensures
        fmul(p, fsub(p, w, 1), pow_sum(p, w, m)) == fsub(p, crate::fp::fpow(p, w, m), 1),
    decreases m,
{
    let d = fsub(p, w, 1);
    lemma_small_mod(1nat, p as nat);
    if m == 0 {
        lemma_small_mod(0nat, p as nat);
        assert(d * 0 == 0) by (nonlinear_arith);
        vstd::arithmetic::power::lemma_pow0(w);
        assert(fmul(p, d, 0) == 0);
        assert(fsub(p, crate::fp::fpow(p, w, 0), 1) == 0int % p);
    } else {
        lemma_geometric_sum(p, w, (m - 1) as nat);
        let sp = pow_sum(p, w, (m - 1) as nat);
        let tp = crate::fp::fpow(p, w, (m - 1) as nat);
        lemma_fmul_distributes_fadd(p, d, sp, tp);
        let pw = vstd::arithmetic::power::pow(w, (m - 1) as nat);
        // (w - 1) * w^(m-1) = w^m - w^(m-1)
        assert(fmul(p, d, tp) == (vstd::arithmetic::power::pow(w, m) - pw) % p) by {
            lemma_fmul_cong(p, d, tp, w - 1, pw);
            vstd::arithmetic::power::lemma_pow1(w);
            vstd::arithmetic::power::lemma_pow_adds(w, 1, (m - 1) as nat);
            assert((w - 1) * pw == w * pw - pw) by (nonlinear_arith);
        };
        // (w^(m-1) - 1) + (w^m - w^(m-1)) = w^m - 1
        lemma_fsub_cong(p, tp, 1, pw, 1);
        lemma_fadd_cong(
            p,
            fmul(p, d, sp),
            fmul(p, d, tp),
            pw - 1,
            vstd::arithmetic::power::pow(w, m) - pw,
        );
        lemma_fsub_cong(
            p,
            crate::fp::fpow(p, w, m),
            1,
            vstd::arithmetic::power::pow(w, m),
            1,
        );
    }
}

/// The powers of 1 sum to the size.
proof fn lemma_pow_sum_of_one(p: int, m: nat)
    requires
        p >= 2,
    ensures
        pow_sum(p, 1, m) == m as int % p,
    decreases m,
{
    lemma_small_mod(1nat, p as nat);
    if m == 0 {
        lemma_small_mod(0nat, p as nat);
    } else {
        lemma_pow_sum_of_one(p, (m - 1) as nat);
        vstd::arithmetic::power::lemma1_pow((m - 1) as nat);
        lemma_fadd_cong(p, (m - 1) as int % p, crate::fp::fpow(p, 1, (m - 1) as nat), m - 1, 1);
    }
}

/// A nontrivial root of unity sums to zero over a full period.
proof fn lemma_pow_sum_vanishes(p: int, w: int, m: nat)
    requires
        field_ok(p),
        0 <= w < p,
        w != 1,
        crate::fp::fpow(p, w, m) == 1,
    ensures
        pow_sum(p, w, m) == 0,
{
    let d = fsub(p, w, 1);
    let s = pow_sum(p, w, m);
    lemma_geometric_sum(p, w, m);
    lemma_small_mod(1nat, p as nat);
    assert(fmul(p, d, s) == 0int % p);
    lemma_small_mod(0nat, p as nat);
    lemma_mod_bound(w - 1, p);
    assert(d != 0) by {
        if w == 0 {
            vstd::arithmetic::div_mod::lemma_mod_add_multiples_vanish(0 - 1, p);
            lemma_small_mod((p - 1) as nat, p as nat);
            assert(d == p - 1);
        } else {
            lemma_small_mod((w - 1) as nat, p as nat);
        }
    };
    lemma_pow_sum_range(p, w, m);
    if s != 0 {
        lemma_no_zero_divisors(p, d, s);
        assert(false);
    }
}

/// From `g^a = 1` and `g^b = 1` follows `g^(a mod b) = 1`: one step of
/// the Euclidean descent on exponents.
proof fn lemma_pow_one_mod_step(p: int, g: int, a: nat, b: nat)
    requires
        p >= 2,
        0 <= g < p,
        crate::fp::fpow(p, g, a) == 1,
        crate::fp::fpow(p, g, b) == 1,
        b >= 1,
    ensures
        crate::fp::fpow(p, g, a % b) == 1,
{
    let q = a / b;
    let r = a % b;
    vstd::arithmetic::div_mod::lemma_fundamental_div_mod(a as int, b as int);
    assert(a == q * b + r);
    let pb = vstd::arithmetic::power::pow(g, b);
    vstd::arithmetic::power::lemma_pow_adds(g, q * b, r);
    vstd::arithmetic::power::lemma_pow_multiplies(g, b, q);
    // reduce pow(g, q*b) to 1 modulo p
    vstd::arithmetic::power::lemma_pow_mod_noop(pb, q, p);
    vstd::arithmetic::power::lemma1_pow(q);
    lemma_small_mod(1nat, p as nat);
    assert(b * q == q * b);
    assert(crate::fp::fpow(p, g, q * b) == 1);
    // pow(g, a) = pow(g, q*b) * pow(g, r): lift both factors
    lemma_mul_mod_noop_general(
        vstd::arithmetic::power::pow(g, q * b),
        vstd::arithmetic::power::pow(g, r),
        p,
    );
    lemma_mod_bound(vstd::arithmetic::power::pow(g, r), p);
    lemma_small_mod(crate::fp::fpow(p, g, r) as nat, p as nat);
    assert((1int * crate::fp::fpow(p, g, r)) % p == crate::fp::fpow(p, g, r));
}

/// An odd divisor of a power of two is one.
proof fn lemma_odd_divisor_of_pow2(n: nat, q: nat, m: nat)
    requires
        crate::domain::is_pow2(n),
        q * m == n,
        q % 2 == 1,
    ensures
        q == 1,
    decreases n,
{
    if n == 1 {
        if q != 1 {
            // q odd and not one is at least three; the product overshoots
            assert(q >= 3);
            assert(m >= 1) by {
                if m == 0 {
                    assert(q * 0 == 0) by (nonlinear_arith);
                }
            };
            assert(q * m >= 3) by (nonlinear_arith)
                requires
                    q >= 3,
                    m >= 1,
            ;
        }
    } else {
        // n is even, q is odd, so m must be even
        assert(n % 2 == 0);
        let mh = m / 2;
        vstd::arithmetic::div_mod::lemma_fundamental_div_mod(m as int, 2);
        if m % 2 == 1 {
            // odd times odd is odd
            let qh = q / 2;
            vstd::arithmetic::div_mod::lemma_fundamental_div_mod(q as int, 2);
            assert((2 * qh + 1) * (2 * mh + 1) == 2 * (2 * qh * mh + qh + mh) + 1)
                by (nonlinear_arith);
            vstd::arithmetic::div_mod::lemma_mod_multiples_vanish(
                2 * (qh as int) * (mh as int) + qh + mh,
                1,
                2,
            );
            lemma_small_mod(1nat, 2nat);
            assert(n % 2 == 1int % 2);
            assert(false);
        }
        assert(m == 2 * mh);
        assert(q * m == 2 * (q * mh)) by (nonlinear_arith)
            requires
                m == 2 * mh,
        ;
        assert(q * mh == n / 2);
        lemma_odd_divisor_of_pow2(n / 2, q, mh);
    }
}

/// A proper divisor of a power of two divides its half.
proof fn lemma_pow2_divisor_halves(n: nat, m: nat)
    requires
        crate::domain::is_pow2(n),
        1 <= m < n,
        n % m == 0,
    ensures
        (n / 2) % m == 0,
{
    let q = n / m;
    vstd::arithmetic::div_mod::lemma_fundamental_div_mod(n as int, m as int);
    assert(q * m == n);
    assert(q >= 2) by {
        if q <= 1 {
            assert(q * m <= m) by (nonlinear_arith)
                requires
                    q <= 1,
            ;
        }
    };
    if q % 2 == 1 {
        lemma_odd_divisor_of_pow2(n, q, m);
        assert(false);
    }
    let qh = q / 2;
    vstd::arithmetic::div_mod::lemma_fundamental_div_mod(q as int, 2);
    assert(q == 2 * qh);
    assert(q * m == 2 * (qh * m)) by (nonlinear_arith)
        requires
            q == 2 * qh,
    ;
    assert(n % 2 == 0);
    assert(qh * m == n / 2);
    vstd::arithmetic::div_mod::lemma_mod_multiples_basic(qh as int, m as int);
}

/// A multiple of an exponent with `g^m = 1` keeps the power at one.
proof fn lemma_pow_multiple_one(p: int, g: int, m: nat, k: nat)
    requires
        p >= 2,
        crate::fp::fpow(p, g, m) == 1,
    ensures
        crate::fp::fpow(p, g, k * m) == 1,
{
    vstd::arithmetic::power::lemma_pow_multiplies(g, m, k);
    vstd::arithmetic::power::lemma_pow_mod_noop(
        vstd::arithmetic::power::pow(g, m),
        k,
        p,
    );
    vstd::arithmetic::power::lemma1_pow(k);
    lemma_small_mod(1nat, p as nat);
    assert(m * k == k * m) by (nonlinear_arith);
}

/// A generator whose halfway power is `-1` has order exactly `n`: no
/// earlier power reaches one. Euclidean descent on exponents, with the
/// divisor-of-a-power-of-two structure closing the base case.
pub proof fn lemma_order_exact(p: int, g: int, n: nat, m: nat)
    requires
        p >= 2,
        0 <= g < p,
        crate::domain::is_pow2(n),
        crate::fp::fpow(p, g, n) == 1,
        n > 1 ==> (crate::fp::fpow(p, g, n / 2) == p - 1 && p - 1 != 1),
        0 < m < n,
    ensures
        crate::fp::fpow(p, g, m) != 1,
    decreases m,
{
    if crate::fp::fpow(p, g, m) == 1 {
        let r = n % m;
        lemma_pow_one_mod_step(p, g, n, m);
        if r == 0 {
            // m divides n, hence divides n/2, and the halfway power
            // collapses to one
            lemma_pow2_divisor_halves(n, m);
            let k = (n / 2) / m;
            vstd::arithmetic::div_mod::lemma_fundamental_div_mod(
                (n / 2) as int,
                m as int,
            );
            assert(k * m == n / 2);
            lemma_pow_multiple_one(p, g, m, k);
            assert(false);
        } else {
            assert(0 < r < m) by {
                vstd::arithmetic::div_mod::lemma_mod_bound(n as int, m as int);
            };
            lemma_order_exact(p, g, n, r);
            assert(false);
        }
    }
}

/// Powers of a product are products of powers, at the field level.
proof fn lemma_fpow_mul(p: int, a: int, b: int, e: nat)
    requires
        p >= 2,
    ensures
        fmul(p, crate::fp::fpow(p, a, e), crate::fp::fpow(p, b, e)) == crate::fp::fpow(
            p,
            fmul(p, a, b),
            e,
        ),
{
    vstd::arithmetic::power::lemma_pow_distributes(a, b, e);
    lemma_mul_mod_noop_general(
        vstd::arithmetic::power::pow(a, e),
        vstd::arithmetic::power::pow(b, e),
        p,
    );
    vstd::arithmetic::power::lemma_pow_mod_noop(a * b, e, p);
}

/// Iterated powers multiply the exponents, at the field level.
proof fn lemma_fpow_fpow(p: int, g: int, a: nat, b: nat)
    requires
        p >= 2,
    ensures
        crate::fp::fpow(p, crate::fp::fpow(p, g, a), b) == crate::fp::fpow(p, g, a * b),
{
    vstd::arithmetic::power::lemma_pow_mod_noop(vstd::arithmetic::power::pow(g, a), b, p);
    vstd::arithmetic::power::lemma_pow_multiplies(g, a, b);
}

/// The bottom-peeled recurrence of the power sum: `S(m) = 1 + w * S(m-1)`.
proof fn lemma_pow_sum_step(p: int, w: int, m: nat)
    requires
        p >= 2,
        0 <= w < p,
        m >= 1,
    ensures
        pow_sum(p, w, m) == fadd(p, 1, fmul(p, w, pow_sum(p, w, (m - 1) as nat))),
    decreases m,
{
    lemma_small_mod(1nat, p as nat);
    if m == 1 {
        lemma_small_mod(0nat, p as nat);
        vstd::arithmetic::power::lemma_pow0(w);
        assert(w * 0 == 0) by (nonlinear_arith);
        assert(fmul(p, w, 0) == 0);
        assert(pow_sum(p, w, 1) == fadd(p, 0, 1));
    } else {
        lemma_pow_sum_step(p, w, (m - 1) as nat);
        let s2 = pow_sum(p, w, (m - 2) as nat);
        let t2 = crate::fp::fpow(p, w, (m - 2) as nat);
        lemma_pow_sum_range(p, w, (m - 2) as nat);
        // S(m) = (1 + w*S(m-2)) + w^(m-1) = 1 + w*(S(m-2) + w^(m-2))
        lemma_fmul_distributes_fadd(p, w, s2, t2);
        // w * w^(m-2) = w^(m-1)
        assert(fmul(p, w, t2) == crate::fp::fpow(p, w, (m - 1) as nat)) by {
            let pw = vstd::arithmetic::power::pow(w, (m - 2) as nat);
            lemma_mod_bound(pw, p);
            lemma_mul_mod_noop_right(w, pw, p);
            vstd::arithmetic::power::lemma_pow1(w);
            vstd::arithmetic::power::lemma_pow_adds(w, 1, (m - 2) as nat);
        };
        // reassociate (1 + w*S(m-2)) + w^(m-1)
        let a = fmul(p, w, s2);
        let b = fmul(p, w, t2);
        lemma_mod_bound(w * s2, p);
        lemma_mod_bound(w * t2, p);
        lemma_small_mod(a as nat, p as nat);
        lemma_small_mod(b as nat, p as nat);
        lemma_fadd_cong(p, fadd(p, 1, a), b, 1 + a, b);
        lemma_fadd_cong(p, 1, fadd(p, a, b), 1, a + b);
    }
}

/// The matrix entries of the transform, as a sequence: the coefficient
/// vector evaluated at each power of `g`.
pub open spec fn evals_of<const P: u64>(v: Seq<crate::fp::Fp<P>>, g: int, m: nat) -> Seq<
    crate::fp::Fp<P>,
> {
    Seq::new(m, |i: int| (crate::fp::Fp { v: poly_eval::<P>(v, crate::fp::fpow(P as int, g, i as nat)) as u64 }))
}

/// A sum over all-zero entries is zero.
proof fn lemma_eval_sum_zero<const P: u64>(c: Seq<crate::fp::Fp<P>>, x: int, e: nat)
    requires
        crate::fp::modulus_ok(P as int),
        forall|i: int| 0 <= i < c.len() ==> (#[trigger] c[i])@ == 0,
    ensures
        eval_sum::<P>(c, x, e) == 0,
    decreases c.len(),
{
    let p = P as int;
    if c.len() > 0 {
        lemma_eval_sum_zero::<P>(c.drop_first(), x, e + 1);
        lemma_small_mod(0nat, p as nat);
        assert(0 * vstd::arithmetic::power::pow(x, e) == 0) by (nonlinear_arith);
        assert(fmul(p, 0, crate::fp::fpow(p, x, e)) == 0int % p) by {
            lemma_mul_mod_noop_general(0, vstd::arithmetic::power::pow(x, e), p);
        };
        assert(eval_sum::<P>(c, x, e) == fadd(p, 0, 0));
    }
}

/// Appending a coefficient appends one term to the sum.
proof fn lemma_eval_sum_push<const P: u64>(
    c: Seq<crate::fp::Fp<P>>,
    d: crate::fp::Fp<P>,
    x: int,
    e: nat,
)
    requires
        crate::fp::modulus_ok(P as int),
    ensures
        eval_sum::<P>(c.push(d), x, e) == fadd(
            P as int,
            eval_sum::<P>(c, x, e),
            fmul(P as int, d@, crate::fp::fpow(P as int, x, e + c.len())),
        ),
    decreases c.len(),
{
    let p = P as int;
    if c.len() == 0 {
        assert(c.push(d)[0] == d);
        assert(c.push(d).drop_first() =~= Seq::<crate::fp::Fp<P>>::empty());
        let t = fmul(p, d@, crate::fp::fpow(p, x, e));
        lemma_mod_bound(d@ * vstd::arithmetic::power::pow(x, e), p);
        lemma_small_mod(t as nat, p as nat);
        assert(eval_sum::<P>(Seq::<crate::fp::Fp<P>>::empty(), x, e + 1) == 0);
        assert(eval_sum::<P>(c.push(d).drop_first(), x, e + 1) == 0);
        assert(eval_sum::<P>(c.push(d), x, e) == fadd(p, t, 0));
        assert(fadd(p, t, 0) == t);
        assert(eval_sum::<P>(c, x, e) == 0);
        assert(fadd(p, 0, t) == t % p);
    } else {
        assert(c.push(d).drop_first() =~= c.drop_first().push(d));
        assert(c.push(d)[0] == c[0]);
        lemma_eval_sum_push::<P>(c.drop_first(), d, x, e + 1);
        let hd = fmul(p, c[0]@, crate::fp::fpow(p, x, e));
        let tl = eval_sum::<P>(c.drop_first(), x, e + 1);
        let tm = fmul(p, d@, crate::fp::fpow(p, x, e + c.len()));
        lemma_mod_bound(c[0]@ * vstd::arithmetic::power::pow(x, e), p);
        lemma_eval_sum_range::<P>(c.drop_first(), x, e + 1);
        lemma_mod_bound(d@ * vstd::arithmetic::power::pow(x, (e + c.len()) as nat), p);
        lemma_small_mod(hd as nat, p as nat);
        lemma_small_mod(tl as nat, p as nat);
        lemma_small_mod(tm as nat, p as nat);
        // reassociate hd + (tl + tm) = (hd + tl) + tm
        lemma_fadd_cong(p, hd, fadd(p, tl, tm), hd, tl + tm);
        lemma_fadd_cong(p, fadd(p, hd, tl), tm, hd + tl, tm);
    }
}

/// A pointwise sum of entries splits the whole sum.
proof fn lemma_eval_sum_add<const P: u64>(
    a: Seq<crate::fp::Fp<P>>,
    b: Seq<crate::fp::Fp<P>>,
    c: Seq<crate::fp::Fp<P>>,
    x: int,
    e: nat,
)
    requires
        crate::fp::modulus_ok(P as int),
        a.len() == b.len(),
        a.len() == c.len(),
        forall|i: int| 0 <= i < a.len() ==> (#[trigger] a[i])@ == fadd(P as int, b[i]@, c[i]@),
    ensures
        eval_sum::<P>(a, x, e) == fadd(P as int, eval_sum::<P>(b, x, e), eval_sum::<P>(c, x, e)),
    decreases a.len(),
{
    let p = P as int;
    if a.len() == 0 {
        lemma_small_mod(0nat, p as nat);
    } else {
        let at = a.drop_first();
        let bt = b.drop_first();
        let ct = c.drop_first();
        assert forall|i: int| 0 <= i < at.len() implies (#[trigger] at[i])@ == fadd(
            p,
            bt[i]@,
            ct[i]@,
        ) by {
            assert(at[i] == a[i + 1] && bt[i] == b[i + 1] && ct[i] == c[i + 1]);
        };
        lemma_eval_sum_add::<P>(at, bt, ct, x, e + 1);
        let pw = crate::fp::fpow(p, x, e);
        // the head splits: (b0 + c0) * x^e = b0*x^e + c0*x^e
        let hb = fmul(p, b[0]@, pw);
        let hc = fmul(p, c[0]@, pw);
        assert(fmul(p, a[0]@, pw) == fadd(p, hb, hc)) by {
            lemma_mul_mod_noop_left(b[0]@ + c[0]@, pw, p);
            assert((b[0]@ + c[0]@) * pw == b[0]@ * pw + c[0]@ * pw) by (nonlinear_arith);
            lemma_add_mod_noop(b[0]@ * pw, c[0]@ * pw, p);
        };
        let tb = eval_sum::<P>(b.drop_first(), x, e + 1);
        let tc = eval_sum::<P>(c.drop_first(), x, e + 1);
        lemma_eval_sum_range::<P>(b.drop_first(), x, e + 1);
        lemma_eval_sum_range::<P>(c.drop_first(), x, e + 1);
        lemma_mod_bound(b[0]@ * pw, p);
        lemma_mod_bound(c[0]@ * pw, p);
        // regroup (hb + hc) + (tb + tc) = (hb + tb) + (hc + tc)
        lemma_fadd_cong(p, fadd(p, hb, hc), fadd(p, tb, tc), hb + hc, tb + tc);
        lemma_fadd_cong(p, fadd(p, hb, tb), fadd(p, hc, tc), hb + tb, hc + tc);
    }
}

/// A geometric sequence of entries sums to the scaled power sum: when
/// entry `i` is `ck * u^(e+i)` and the evaluation point is `y`, the sum
/// collects to `ck * (u*y)^e * S(len)` over `w = u * y`.
proof fn lemma_eval_sum_geometric<const P: u64>(
    d: Seq<crate::fp::Fp<P>>,
    ck: int,
    u: int,
    y: int,
    e: nat,
)
    requires
        crate::fp::modulus_ok(P as int),
        0 <= ck < P as int,
        0 <= u < P as int,
        0 <= y < P as int,
        forall|i: int|
            0 <= i < d.len() ==> (#[trigger] d[i])@ == fmul(
                P as int,
                ck,
                crate::fp::fpow(P as int, u, (e + i) as nat),
            ),
    ensures
        eval_sum::<P>(d, y, e) == fmul(
            P as int,
            ck,
            fmul(
                P as int,
                crate::fp::fpow(P as int, fmul(P as int, u, y), e),
                pow_sum(P as int, fmul(P as int, u, y), d.len() as nat),
            ),
        ),
    decreases d.len(),
{
    let p = P as int;
    let w = fmul(p, u, y);
    lemma_mod_bound(u * y, p);
    if d.len() == 0 {
        lemma_small_mod(0nat, p as nat);
        let we = crate::fp::fpow(p, w, e);
        lemma_mod_bound(vstd::arithmetic::power::pow(w, e), p);
        assert(we * 0 == 0) by (nonlinear_arith);
        assert(fmul(p, we, 0) == 0);
        assert(ck * 0 == 0) by (nonlinear_arith);
        assert(fmul(p, ck, 0) == 0);
    } else {
        assert(forall|i: int|
            0 <= i < d.drop_first().len() ==> (#[trigger] d.drop_first()[i])@ == fmul(
                p,
                ck,
                crate::fp::fpow(p, u, (e + 1 + i) as nat),
            )) by {
            assert forall|i: int|
                0 <= i < d.drop_first().len() implies (#[trigger] d.drop_first()[i])@ == fmul(
                p,
                ck,
                crate::fp::fpow(p, u, (e + 1 + i) as nat),
            ) by {
                assert(d.drop_first()[i] == d[i + 1]);
                assert((e + (i + 1)) as nat == (e + 1 + i) as nat);
            };
        };
        lemma_eval_sum_geometric::<P>(d.drop_first(), ck, u, y, e + 1);
        // head: (ck * u^e) * y^e = ck * w^e
        let ue = crate::fp::fpow(p, u, e);
        let ye = crate::fp::fpow(p, y, e);
        let we = crate::fp::fpow(p, w, e);
        lemma_mod_bound(vstd::arithmetic::power::pow(u, e), p);
        lemma_mod_bound(vstd::arithmetic::power::pow(y, e), p);
        lemma_mod_bound(vstd::arithmetic::power::pow(w, e), p);
        lemma_fpow_mul(p, u, y, e);
        assert(fmul(p, ue, ye) == we);
        assert(fmul(p, fmul(p, ck, ue), ye) == fmul(p, ck, we)) by {
            lemma_mod_bound(ck * ue, p);
            lemma_mul_mod_noop_left(ck * ue, ye, p);
            assert((ck * ue) * ye == ck * (ue * ye)) by (nonlinear_arith);
            lemma_mul_mod_noop_right(ck, ue * ye, p);
        };
        // tail via the bottom-peeled power-sum recurrence
        let m = d.len() as nat;
        lemma_pow_sum_step(p, w, m);
        let s1 = pow_sum(p, w, (m - 1) as nat);
        lemma_pow_sum_range(p, w, (m - 1) as nat);
        let we1 = crate::fp::fpow(p, w, (e + 1) as nat);
        // w^(e+1) * S(m-1) == w^e * (w * S(m-1))
        assert(fmul(p, we1, s1) == fmul(p, we, fmul(p, w, s1))) by {
            let pwe = vstd::arithmetic::power::pow(w, e);
            lemma_mod_bound(pwe, p);
            vstd::arithmetic::power::lemma_pow1(w);
            vstd::arithmetic::power::lemma_pow_adds(w, e, 1);
            lemma_mul_mod_noop_left(pwe * w, s1, p);
            lemma_mul_mod_noop_right(pwe, w * s1, p);
            assert((pwe * w) * s1 == pwe * (w * s1)) by (nonlinear_arith);
            lemma_mul_mod_noop_left(pwe, w * s1, p);
            lemma_mod_bound(w * s1, p);
            lemma_mul_mod_noop_right(we, w * s1, p);
            assert(we * (w * s1) == (pwe % p) * (w * s1)) by (nonlinear_arith)
                requires
                    we == pwe % p,
            ;
        };
        // collect: ck*w^e + ck*(w^e * w*S(m-1)) = ck * (w^e * (1 + w*S(m-1)))
        let ws = fmul(p, w, s1);
        lemma_mod_bound(w * s1, p);
        assert(fadd(p, fmul(p, ck, we), fmul(p, ck, fmul(p, we, ws))) == fmul(
            p,
            ck,
            fmul(p, we, pow_sum(p, w, m)),
        )) by {
            lemma_fmul_distributes_fadd(p, we, 1, ws);
            lemma_mod_bound(vstd::arithmetic::power::pow(w, e), p);
            lemma_small_mod(we as nat, p as nat);
            assert(fmul(p, we, 1) == we) by {
                assert(we * 1 == we);
            };
            lemma_fmul_distributes_fadd(p, ck, we, fmul(p, we, ws));
            // fadd(1, ws) is the stepped power sum
            assert(pow_sum(p, w, m) == fadd(p, 1, ws));
            lemma_mod_bound(we * fadd(p, 1, ws), p);
        };
        // and the tail of the sum is ck * (w^(e+1) * S(m-1))
        assert(fmul(p, ck, fmul(p, we1, s1)) == fmul(p, ck, fmul(p, we, ws)));
    }
}

/// Field multiplication associates.
proof fn lemma_fmul_assoc(p: int, a: int, b: int, c: int)
    requires
        p >= 2,
    ensures
        fmul(p, fmul(p, a, b), c) == fmul(p, a, fmul(p, b, c)),
{
    lemma_mul_mod_noop_left(a * b, c, p);
    lemma_mul_mod_noop_right(a, b * c, p);
    assert((a * b) * c == a * (b * c)) by (nonlinear_arith);
}

/// One is neutral for field multiplication of a reduced value.
proof fn lemma_fmul_one(p: int, x: int)
    requires
        p >= 2,
        0 <= x < p,
    ensures
        fmul(p, 1, x) == x,
        fmul(p, x, 1) == x,
{
    lemma_small_mod(x as nat, p as nat);
    assert(1 * x == x);
    assert(x * 1 == x);
}

/// The heart of the interpolation argument: summing the evaluations of a
/// growing coefficient prefix against the inverse generator's powers
/// keeps only the `j`-th coefficient, scaled by the domain size, because
/// every other geometric inner sum spans a full nontrivial period.
proof fn lemma_interpolation_step<const P: u64>(
    v: Seq<crate::fp::Fp<P>>,
    g: int,
    gi: int,
    n: nat,
    j: int,
    k: int,
)
    requires
        field_ok(P as int),
        0 <= g < P as int,
        0 <= gi < P as int,
        fmul(P as int, g, gi) == 1,
        crate::domain::is_pow2(n),
        crate::fp::fpow(P as int, g, n) == 1,
        crate::fp::fpow(P as int, gi, n) == 1,
        n > 1 ==> (crate::fp::fpow(P as int, g, n / 2) == P as int - 1 && P as int - 1 != 1),
        crate::domain::all_wfc::<P, crate::fp::Fp<P>>(v),
        v.len() == n,
        0 <= j < n,
        0 <= k <= n,
    ensures
        eval_sum::<P>(evals_of::<P>(v.take(k), g, n), crate::fp::fpow(P as int, gi, j as nat), 0)
            == (if j < k {
            fmul(P as int, v[j]@, n as int % P as int)
        } else {
            0
        }),
    decreases k,
{
    let p = P as int;
    let y = crate::fp::fpow(p, gi, j as nat);
    lemma_mod_bound(vstd::arithmetic::power::pow(gi, j as nat), p);
    if k == 0 {
        let e0 = evals_of::<P>(v.take(0), g, n);
        assert forall|i: int| 0 <= i < e0.len() implies (#[trigger] e0[i])@ == 0 by {
            assert(v.take(0) =~= Seq::<crate::fp::Fp<P>>::empty());
            assert(poly_eval::<P>(v.take(0), crate::fp::fpow(p, g, i as nat)) == 0);
        };
        lemma_eval_sum_zero::<P>(e0, y, 0);
    } else {
        lemma_interpolation_step::<P>(v, g, gi, n, j, k - 1);
        let prev = evals_of::<P>(v.take(k - 1), g, n);
        let cur = evals_of::<P>(v.take(k), g, n);
        let ck = v[k - 1]@;
        assert(0 <= ck < p) by {
            assert(crate::domain::DomainCoeff::wfc(v[k - 1]));
        };
        let gk = crate::fp::fpow(p, g, (k - 1) as nat);
        lemma_mod_bound(vstd::arithmetic::power::pow(g, (k - 1) as nat), p);
        let cseq = Seq::<crate::fp::Fp<P>>::new(
            n,
            |i: int| (crate::fp::Fp { v: fmul(p, ck, crate::fp::fpow(p, gk, i as nat)) as u64 }),
        );
        // the prefix grows by one coefficient, adding a geometric layer
        assert(crate::domain::all_wfc::<P, crate::fp::Fp<P>>(v.take(k - 1))) by {
            assert forall|i: int|
                0 <= i < v.take(k - 1).len() implies crate::domain::DomainCoeff::wfc(
                #[trigger] v.take(k - 1)[i],
            ) by {
                assert(v.take(k - 1)[i] == v[i]);
            };
        };
        assert(crate::domain::all_wfc::<P, crate::fp::Fp<P>>(v.take(k))) by {
            assert forall|i: int|
                0 <= i < v.take(k).len() implies crate::domain::DomainCoeff::wfc(
                #[trigger] v.take(k)[i],
            ) by {
                assert(v.take(k)[i] == v[i]);
            };
        };
        assert forall|i: int| 0 <= i < n implies (#[trigger] cur[i])@ == fadd(
            p,
            prev[i]@,
            cseq[i]@,
        ) by {
            let x = crate::fp::fpow(p, g, i as nat);
            lemma_mod_bound(vstd::arithmetic::power::pow(g, i as nat), p);
            assert(v.take(k) =~= v.take(k - 1).push(v[k - 1]));
            lemma_horner_is_sum::<P>(v.take(k), x);
            lemma_horner_is_sum::<P>(v.take(k - 1), x);
            lemma_eval_sum_push::<P>(v.take(k - 1), v[k - 1], x, 0);
            lemma_poly_eval_range::<P>(v.take(k), x);
            lemma_poly_eval_range::<P>(v.take(k - 1), x);
            lemma_mod_bound(ck * vstd::arithmetic::power::pow(gk, i as nat), p);
            // x^(k-1) is g^((k-1) * i) seen from either side
            lemma_fpow_fpow(p, g, i as nat, (k - 1) as nat);
            lemma_fpow_fpow(p, g, (k - 1) as nat, i as nat);
            assert((i as nat) * ((k - 1) as nat) == ((k - 1) as nat) * (i as nat))
                by (nonlinear_arith);
            assert(crate::fp::fpow(p, x, (k - 1) as nat) == crate::fp::fpow(p, gk, i as nat));
        };
        lemma_eval_sum_add::<P>(cur, prev, cseq, y, 0);
        // the geometric layer collects to ck times a full-period power sum
        assert forall|i: int| 0 <= i < cseq.len() implies (#[trigger] cseq[i])@ == fmul(
            p,
            ck,
            crate::fp::fpow(p, gk, (0 + i) as nat),
        ) by {
            lemma_mod_bound(ck * vstd::arithmetic::power::pow(gk, i as nat), p);
        };
        lemma_eval_sum_geometric::<P>(cseq, ck, gk, y, 0);
        let w = fmul(p, gk, y);
        lemma_mod_bound(gk * y, p);
        vstd::arithmetic::power::lemma_pow0(w);
        lemma_small_mod(1nat, p as nat);
        lemma_pow_sum_range(p, w, n);
        let s = pow_sum(p, w, n);
        assert(eval_sum::<P>(cseq, y, 0) == fmul(p, ck, s)) by {
            lemma_fmul_one(p, s);
        };
        let gj = crate::fp::fpow(p, g, j as nat);
        lemma_mod_bound(vstd::arithmetic::power::pow(g, j as nat), p);
        lemma_fpow_mul(p, g, gi, j as nat);
        vstd::arithmetic::power::lemma1_pow(j as nat);
        assert(fmul(p, gj, y) == 1);
        if k - 1 == j {
            // this layer's ratio is one: the sum is the domain size
            assert(w == 1);
            lemma_pow_sum_of_one(p, n);
            let np = n as int % p;
            lemma_mod_bound(n as int, p);
            lemma_mod_bound(ck * np, p);
            lemma_small_mod(fmul(p, ck, np) as nat, p as nat);
            assert(eval_sum::<P>(prev, y, 0) == 0);
            assert(fadd(p, 0, fmul(p, ck, np)) == fmul(p, ck, np));
        } else {
            // the ratio is a nontrivial root of unity: the sum vanishes
            assert(w != 1) by {
                if w == 1 {
                    // gk = gj, so a power of g short of the order is one
                    lemma_fmul_assoc(p, gk, y, gj);
                    assert(fmul(p, y, gj) == 1) by {
                        assert(y * gj == gj * y) by (nonlinear_arith);
                    };
                    lemma_fmul_one(p, gj);
                    lemma_fmul_one(p, gk);
                    assert(gk == gj);
                    let lo: nat = if k - 1 < j {
                        (k - 1) as nat
                    } else {
                        j as nat
                    };
                    let hi: nat = if k - 1 < j {
                        j as nat
                    } else {
                        (k - 1) as nat
                    };
                    let dd: nat = (hi - lo) as nat;
                    assert(0 < dd < n);
                    lemma_fpow_add(p, g, lo, dd);
                    assert(crate::fp::fpow(p, g, hi) == fmul(
                        p,
                        crate::fp::fpow(p, g, lo),
                        crate::fp::fpow(p, g, dd),
                    ));
                    // cancel g^lo with gi^lo
                    let glo = crate::fp::fpow(p, g, lo);
                    let gilo = crate::fp::fpow(p, gi, lo);
                    let gd = crate::fp::fpow(p, g, dd);
                    lemma_mod_bound(vstd::arithmetic::power::pow(g, lo), p);
                    lemma_mod_bound(vstd::arithmetic::power::pow(gi, lo), p);
                    lemma_mod_bound(vstd::arithmetic::power::pow(g, dd), p);
                    lemma_fpow_mul(p, gi, g, lo);
                    assert(fmul(p, gi, g) == 1) by {
                        assert(gi * g == g * gi) by (nonlinear_arith);
                    };
                    vstd::arithmetic::power::lemma1_pow(lo);
                    assert(fmul(p, gilo, glo) == 1);
                    // g^hi equals g^lo, so multiplying by gi^lo isolates g^dd
                    assert(crate::fp::fpow(p, g, hi) == glo);
                    lemma_fmul_assoc(p, gilo, glo, gd);
                    lemma_fmul_one(p, gd);
                    lemma_fmul_one(p, glo);
                    assert(fmul(p, gilo, fmul(p, glo, gd)) == gd);
                    assert(fmul(p, gilo, glo) == 1);
                    assert(fmul(p, gilo, crate::fp::fpow(p, g, hi)) == fmul(p, gilo, glo));
                    assert(gd == 1) by {
                        assert(fmul(p, gilo, glo) == fmul(p, 1, 1)) by {
                            lemma_fmul_one(p, 1);
                        };
                    };
                    lemma_order_exact(p, g, n, dd);
                    assert(false);
                }
            };
            // w^n = (g^(k-1))^n * (gi^j)^n = 1
            assert(crate::fp::fpow(p, w, n) == 1) by {
                lemma_fpow_mul(p, gk, y, n);
                lemma_fpow_fpow(p, g, (k - 1) as nat, n);
                lemma_fpow_fpow(p, g, n, (k - 1) as nat);
                assert(((k - 1) as nat) * n == n * ((k - 1) as nat)) by (nonlinear_arith);
                vstd::arithmetic::power::lemma1_pow((k - 1) as nat);
                lemma_fpow_fpow(p, gi, j as nat, n);
                lemma_fpow_fpow(p, gi, n, j as nat);
                assert((j as nat) * n == n * (j as nat)) by (nonlinear_arith);
                vstd::arithmetic::power::lemma1_pow(j as nat);
                lemma_fmul_one(p, 1);
            };
            lemma_pow_sum_vanishes(p, w, n);
            assert(ck * 0 == 0) by (nonlinear_arith);
            lemma_small_mod(0nat, p as nat);
            assert(fmul(p, ck, s) == 0);
            let prevsum = eval_sum::<P>(prev, y, 0);
            lemma_eval_sum_range::<P>(prev, y, 0);
            lemma_small_mod(prevsum as nat, p as nat);
            assert(fadd(p, prevsum, 0) == prevsum);
        }
    }
}

/// The inverse transform undoes the forward transform: over a
/// well-formed domain of a field, every entry of the inverse transform of
/// the forward transform is the coefficient it started from.
pub proof fn lemma_ifft_inverts_fft<const P: u64>(
    d: crate::domain::EvaluationDomain<P>,
    v: Seq<crate::fp::Fp<P>>,
    j: int,
)
    requires
        d.wf(),
        field_ok(P as int),
        v.len() == d.size,
        crate::domain::all_wfc::<P, crate::fp::Fp<P>>(v),
        0 <= j < v.len(),
    ensures
        crate::domain::ifft_spec::<P, crate::fp::Fp<P>>(
            d.group_gen_inv@,
            d.size_inv@,
            crate::domain::fft_spec::<P, crate::fp::Fp<P>>(d.group_gen@, v),
        )[j] == v[j],
{
    let p = P as int;
    let g = d.group_gen@;
    let gi = d.group_gen_inv@;
    let ninv = d.size_inv@;
    let n = d.size as nat;
    let ff = crate::domain::fft_spec::<P, crate::fp::Fp<P>>(g, v);
    lemma_gen_inv_root_of_unity::<P>(d);
    // the transform's entries are the evaluations at the powers of g
    assert(ff.len() == n);
    assert forall|i: int| 0 <= i < n implies #[trigger] ff[i] == evals_of::<P>(v, g, n)[i] by {
        lemma_fft_evaluates::<P>(g, v, i);
        lemma_poly_eval_range::<P>(v, crate::fp::fpow(p, g, i as nat));
    };
    assert(ff =~= evals_of::<P>(v, g, n));
    assert(crate::domain::all_wfc::<P, crate::fp::Fp<P>>(ff)) by {
        assert forall|i: int| 0 <= i < ff.len() implies crate::domain::DomainCoeff::wfc(
            #[trigger] ff[i],
        ) by {
            lemma_fft_evaluates::<P>(g, v, i);
            lemma_poly_eval_range::<P>(v, crate::fp::fpow(p, g, i as nat));
        };
    };
    // the inverse transform evaluates those evaluations at gi^j and scales
    lemma_domain_ifft_evaluates::<P>(d, ff, j);
    let y = crate::fp::fpow(p, gi, j as nat);
    lemma_mod_bound(vstd::arithmetic::power::pow(gi, j as nat), p);
    lemma_horner_is_sum::<P>(ff, y);
    // the interpolation identity, over the whole coefficient vector
    lemma_interpolation_step::<P>(v, g, gi, n, j, n as int);
    assert(v.take(n as int) =~= v);
    let np = n as int % p;
    let cj = v[j]@;
    assert(poly_eval::<P>(ff, y) == fmul(p, cj, np));
    // scaling by the size's inverse isolates the coefficient
    assert(0 <= cj < p) by {
        assert(crate::domain::DomainCoeff::wfc(v[j]));
    };
    lemma_fmul_assoc(p, cj, np, ninv);
    lemma_fmul_one(p, cj);
    assert(fmul(p, fmul(p, cj, np), ninv) == cj);
    // equal canonical views make equal elements
    let lhs = crate::domain::ifft_spec::<P, crate::fp::Fp<P>>(gi, ninv, ff)[j];
    assert(lhs@ == cj);
    assert(lhs.v == v[j].v);
}

/// Zero-padding keeps every element well-formed.
proof fn lemma_zero_pad_wfc<const P: u64>(c: Seq<crate::fp::Fp<P>>, n: nat)
    requires
        crate::fp::modulus_ok(P as int),
        crate::domain::all_wfc::<P, crate::fp::Fp<P>>(c),
    ensures
        crate::domain::all_wfc::<P, crate::fp::Fp<P>>(crate::domain::zero_pad::<P, crate::fp::Fp<P>>(c, n)),
{
    let z = crate::domain::zero_pad::<P, crate::fp::Fp<P>>(c, n);
    assert forall|i: int| 0 <= i < z.len() implies crate::domain::DomainCoeff::wfc(
        #[trigger] z[i],
    ) by {
        if i < c.len() {
            assert(z[i] == c[i]);
        }
    };
}

/// The round trip of the plain transforms: interpolating the evaluations
/// of any coefficient vector, zero-padded to the domain size, gives the
/// padded vector back.
pub proof fn lemma_transform_round_trip<const P: u64>(
    d: crate::domain::EvaluationDomain<P>,
    c: Seq<crate::fp::Fp<P>>,
)
    requires
        d.wf(),
        field_ok(P as int),
        c.len() <= d.size,
        crate::domain::all_wfc::<P, crate::fp::Fp<P>>(c),
    ensures
        crate::domain::ifft_spec::<P, crate::fp::Fp<P>>(
            d.group_gen_inv@,
            d.size_inv@,
            crate::domain::fft_spec::<P, crate::fp::Fp<P>>(
                d.group_gen@,
                crate::domain::zero_pad::<P, crate::fp::Fp<P>>(c, d.size as nat),
            ),
        ) == crate::domain::zero_pad::<P, crate::fp::Fp<P>>(c, d.size as nat),
{
    let padded = crate::domain::zero_pad::<P, crate::fp::Fp<P>>(c, d.size as nat);
    lemma_zero_pad_wfc::<P>(c, d.size as nat);
    let out = crate::domain::ifft_spec::<P, crate::fp::Fp<P>>(
        d.group_gen_inv@,
        d.size_inv@,
        crate::domain::fft_spec::<P, crate::fp::Fp<P>>(d.group_gen@, padded),
    );
    assert(crate::domain::fft_spec::<P, crate::fp::Fp<P>>(d.group_gen@, padded).len()
        == padded.len());
    assert forall|j: int| 0 <= j < padded.len() implies #[trigger] out[j] == padded[j] by {
        lemma_ifft_inverts_fft::<P>(d, padded, j);
    };
    assert(out =~= padded);
}

/// The round trip of the coset transforms: shifting onto the coset,
/// transforming, interpolating and shifting back restores a full-length
/// coefficient vector.
pub proof fn lemma_coset_round_trip<const P: u64>(
    d: crate::domain::EvaluationDomain<P>,
    c: Seq<crate::fp::Fp<P>>,
)
    requires
        d.wf(),
        field_ok(P as int),
        c.len() == d.size,
        crate::domain::all_wfc::<P, crate::fp::Fp<P>>(c),
    ensures
        crate::domain::distribute_spec::<P, crate::fp::Fp<P>>(
            crate::domain::ifft_spec::<P, crate::fp::Fp<P>>(
                d.group_gen_inv@,
                d.size_inv@,
                crate::domain::fft_spec::<P, crate::fp::Fp<P>>(
                    d.group_gen@,
                    crate::domain::zero_pad::<P, crate::fp::Fp<P>>(
                        crate::domain::distribute_spec::<P, crate::fp::Fp<P>>(
                            c,
                            d.coset_shift@,
                            1,
                        ),
                        d.size as nat,
                    ),
                ),
            ),
            d.coset_shift_inv@,
            1,
        ) == c,
{
    let p = P as int;
    let shifted = crate::domain::distribute_spec::<P, crate::fp::Fp<P>>(c, d.coset_shift@, 1);
    // the shifted vector is well-formed and already full length
    assert(crate::domain::all_wfc::<P, crate::fp::Fp<P>>(shifted)) by {
        assert forall|i: int| 0 <= i < shifted.len() implies crate::domain::DomainCoeff::wfc(
            #[trigger] shifted[i],
        ) by {
            assert(shifted[i] == crate::domain::DomainCoeff::spec_mul_sc(
                c[i],
                fmul(p, 1, crate::fp::fpow(p, d.coset_shift@, i as nat)),
            ));
            lemma_mod_bound(
                c[i]@ * fmul(p, 1, crate::fp::fpow(p, d.coset_shift@, i as nat)),
                p,
            );
        };
    };
    assert(crate::domain::zero_pad::<P, crate::fp::Fp<P>>(shifted, d.size as nat) =~= shifted);
    // interpolation undoes the transform on the shifted vector
    let back = crate::domain::ifft_spec::<P, crate::fp::Fp<P>>(
        d.group_gen_inv@,
        d.size_inv@,
        crate::domain::fft_spec::<P, crate::fp::Fp<P>>(d.group_gen@, shifted),
    );
    assert forall|j: int| 0 <= j < shifted.len() implies #[trigger] back[j] == shifted[j] by {
        lemma_ifft_inverts_fft::<P>(d, shifted, j);
    };
    assert(back =~= shifted);
    // shifting back with the inverse powers restores the coefficients
    lemma_mod_bound(vstd::arithmetic::power::pow(d.coset_shift@, 0), p);
    lemma_distribute_inverse::<P, crate::fp::Fp<P>>(c, d.coset_shift@, d.coset_shift_inv@);
}

/// Batch normalisation agrees with normalising each point individually:
/// the normalised triple denotes the same affine point as the original.
pub proof fn lemma_batch_matches_individual(p: int, t: (int, int, int))
    requires
        p >= 2,
        proj_in_range(p, t),
        t.2 == 0 || invertible(p, t.2),
    ensures
        proj_to_affine(p, normalize_one(p, t)) == proj_to_affine(p, t),
{
    if t.2 == 0 || t.2 == 1 {
    } else {
        let zi = finv(p, t.2);
        let zi2 = fmul(p, zi, zi);
        let n = normalize_one(p, t);
        assert(n.2 == 1);
        lemma_small_mod(1nat, p as nat);
        assert((1int * 1int) % p == 1);
        lemma_finv_is(p, 1, 1);
        let x1 = fmul(p, t.0, zi2);
        let y1 = fmul(p, t.1, fmul(p, zi2, zi));
        lemma_mod_bound(t.0 * zi2, p);
        lemma_mod_bound(t.1 * fmul(p, zi2, zi), p);
        lemma_small_mod(x1 as nat, p as nat);
        lemma_small_mod(y1 as nat, p as nat);
        assert(fmul(p, 1, 1) == 1);
        assert(fmul(p, x1, fmul(p, 1, 1)) == x1 % p);
        assert(fmul(p, y1, fmul(p, fmul(p, 1, 1), 1)) == y1 % p);
    }
}

} // verus!
