//! A prime field of word-sized modulus `P`, the scalar capability that the
//! curve and the evaluation domain are built over.
//!
//! An element is a canonical representative below `P`. Every operation's
//! contract states the result as integer arithmetic modulo `P`; partial
//! operations (inversion, square root) say exactly when they succeed, on
//! both branches: they search the residues exhaustively, so a `None`
//! genuinely proves no inverse or no root exists. That trade favours
//! complete contracts over speed and suits the word-sized moduli this
//! field carries.

use vstd::prelude::*;

verus! {

use vstd::arithmetic::div_mod::{
    lemma_mod_add_multiples_vanish, lemma_mod_bound, lemma_mod_self_0,
    lemma_mul_mod_noop_general, lemma_mul_mod_noop_left, lemma_mul_mod_noop_right,
    lemma_small_mod,
};
use vstd::arithmetic::mul::{lemma_mul_nonnegative, lemma_mul_upper_bound};
use vstd::arithmetic::power::{lemma_pow0, lemma_pow1, lemma_pow_adds, pow};

/// Sum in the field: `(a + b) mod p`.
pub open spec fn fadd(p: int, a: int, b: int) -> int {
    (a + b) % p
}

/// Difference in the field: `(a - b) mod p`.
pub open spec fn fsub(p: int, a: int, b: int) -> int {
    (a - b) % p
}

/// Product in the field: `(a * b) mod p`.
pub open spec fn fmul(p: int, a: int, b: int) -> int {
    (a * b) % p
}

/// Additive inverse in the field: `(p - a) mod p`.
pub open spec fn fneg(p: int, a: int) -> int {
    (p - a) % p
}

/// `b` raised to the `e`-th power in the field.
pub open spec fn fpow(p: int, b: int, e: nat) -> int {
    pow(b, e) % p
}

/// `a` has a multiplicative inverse modulo `p`.
pub open spec fn invertible(p: int, a: int) -> bool {
    exists|w: int| 0 <= w < p && #[trigger] ((a * w) % p) == 1
}

/// The multiplicative inverse of `a` modulo `p` (meaningful when
/// `invertible(p, a)` holds; pinned by `lemma_finv_is` and uniqueness).
pub open spec fn finv(p: int, a: int) -> int {
    choose|w: int| 0 <= w < p && #[trigger] ((a * w) % p) == 1
}

/// The modulus admits field elements: at least the residues 0 and 1.
pub open spec fn modulus_ok(p: int) -> bool {
    p >= 2
}

/// A product of two word-sized values fits in a double word.
pub proof fn lemma_u64_prod_fits(a: int, b: int)
    requires
        0 <= a <= 0xffff_ffff_ffff_ffff,
        0 <= b <= 0xffff_ffff_ffff_ffff,
    ensures
        0 <= a * b <= 0xffff_ffff_ffff_ffff * 0xffff_ffff_ffff_ffff,
{
    lemma_mul_nonnegative(a, b);
    lemma_mul_upper_bound(a, 0xffff_ffff_ffff_ffff, b, 0xffff_ffff_ffff_ffff);
}

/// A field element: a canonical residue modulo the const-generic prime `P`.
#[derive(Clone, Copy, Debug, Hash)]
pub struct Fp<const P: u64> {
    pub v: u64,
}

impl<const P: u64> PartialEq for Fp<P> {
    fn eq(&self, o: &Self) -> (r: bool) {
        self.v == o.v
    }
}

impl<const P: u64> Eq for Fp<P> {}

impl<const P: u64> vstd::std_specs::cmp::PartialEqSpecImpl for Fp<P> {
    open spec fn obeys_eq_spec() -> bool {
        true
    }

    open spec fn eq_spec(&self, o: &Self) -> bool {
        self.v == o.v
    }
}

impl<const P: u64> View for Fp<P> {
    type V = int;

    open spec fn view(&self) -> int {
        self.v as int
    }
}

impl<const P: u64> Fp<P> {
    /// The element is a canonical representative of its residue class.
    pub open spec fn wf(self) -> bool {
        modulus_ok(P as int) && (self.v as int) < (P as int)
    }

    /// Construct an element by reducing `v` modulo `P`.
    pub fn new(v: u64) -> (r: Self)
        requires
            modulus_ok(P as int),
        ensures
            r.wf(),
            r@ == (v as int) % (P as int),
    {
        Fp { v: v % P }
    }

    /// The additive identity.
    pub fn zero() -> (r: Self)
        requires
            modulus_ok(P as int),
        ensures
            r.wf(),
            r@ == 0,
    {
        Fp { v: 0 }
    }

    /// The multiplicative identity.
    pub fn one() -> (r: Self)
        requires
            modulus_ok(P as int),
        ensures
            r.wf(),
            r@ == 1,
    {
        Fp { v: 1 }
    }

    pub fn is_zero(&self) -> (r: bool)
        ensures
            r == (self@ == 0),
    {
        self.v == 0
    }

    pub fn is_one(&self) -> (r: bool)
        ensures
            r == (self@ == 1),
    {
        self.v == 1
    }

    pub fn add(self, o: Self) -> (r: Self)
        requires
            self.wf(),
            o.wf(),
        ensures
            r.wf(),
            r@ == fadd(P as int, self@, o@),
    {
        let s: u128 = (self.v as u128) + (o.v as u128);
        let m: u128 = s % (P as u128);
        proof {
            lemma_mod_bound(s as int, P as int);
        }
        Fp { v: m as u64 }
    }

    pub fn sub(self, o: Self) -> (r: Self)
        requires
            self.wf(),
            o.wf(),
        ensures
            r.wf(),
            r@ == fsub(P as int, self@, o@),
    {
        let s: u128 = (self.v as u128) + (P as u128) - (o.v as u128);
        let m: u128 = s % (P as u128);
        proof {
            lemma_mod_bound(s as int, P as int);
            lemma_mod_add_multiples_vanish(self@ - o@, P as int);
        }
        Fp { v: m as u64 }
    }

    pub fn neg(self) -> (r: Self)
        requires
            self.wf(),
        ensures
            r.wf(),
            r@ == fneg(P as int, self@),
    {
        if self.v == 0 {
            proof {
                lemma_mod_self_0(P as int);
            }
            Fp { v: 0 }
        } else {
            proof {
                lemma_small_mod((P - self.v) as nat, P as nat);
            }
            Fp { v: P - self.v }
        }
    }

    pub fn mul(self, o: Self) -> (r: Self)
        requires
            self.wf(),
            o.wf(),
        ensures
            r.wf(),
            r@ == fmul(P as int, self@, o@),
    {
        proof {
            lemma_u64_prod_fits(self@, o@);
        }
        let prod: u128 = (self.v as u128) * (o.v as u128);
        let m: u128 = prod % (P as u128);
        proof {
            lemma_mod_bound(prod as int, P as int);
        }
        Fp { v: m as u64 }
    }

    pub fn square(self) -> (r: Self)
        requires
            self.wf(),
        ensures
            r.wf(),
            r@ == fmul(P as int, self@, self@),
    {
        self.mul(self)
    }

    pub fn double(self) -> (r: Self)
        requires
            self.wf(),
        ensures
            r.wf(),
            r@ == fadd(P as int, self@, self@),
    {
        self.add(self)
    }

    /// Repeated multiplication: `self` to the `e`-th power.
    pub fn pow(self, e: u64) -> (r: Self)
        requires
            self.wf(),
        ensures
            r.wf(),
            r@ == fpow(P as int, self@, e as nat),
    {
        let mut r = Self::one();
        proof {
            lemma_pow0(self@);
            lemma_small_mod(1nat, P as nat);
        }
        let mut i: u64 = 0;
        while i < e
            invariant
                self.wf(),
                r.wf(),
                i <= e,
                r@ == fpow(P as int, self@, i as nat),
            decreases e - i,
        {
            proof {
                lemma_pow_adds(self@, i as nat, 1nat);
                lemma_pow1(self@);
                lemma_mul_mod_noop_left(pow(self@, i as nat), self@, P as int);
            }
            r = r.mul(self);
            i = i + 1;
        }
        r
    }

    /// The canonical representative, for callers outside the library.
    pub fn as_u64(self) -> (r: u64)
        ensures
            r as int == self@,
    {
        self.v
    }

    /// Strict order on canonical representatives; fixes the encoding's
    /// sign convention.
    pub fn lt(self, o: Self) -> (r: bool)
        ensures
            r == (self@ < o@),
    {
        self.v < o.v
    }

    /// The multiplicative inverse, or `None` exactly when no residue
    /// multiplies with `self` to 1.
    pub fn inverse(self) -> (r: Option<Self>)
        requires
            self.wf(),
        ensures
            match r {
                Some(w) => {
                    &&& w.wf()
                    &&& fmul(P as int, self@, w@) == 1
                    &&& invertible(P as int, self@)
                    &&& w@ == finv(P as int, self@)
                },
                None => !invertible(P as int, self@),
            },
    {
        let mut w: u64 = 0;
        while w < P
            invariant
                self.wf(),
                w <= P,
                forall|u: int| 0 <= u < w ==> #[trigger] ((self@ * u) % (P as int)) != 1,
            decreases P - w,
        {
            proof {
                lemma_u64_prod_fits(self@, w as int);
            }
            let prod: u128 = (self.v as u128) * (w as u128);
            if prod % (P as u128) == 1 {
                let r = Fp { v: w };
                proof {
                    lemma_finv_is(P as int, self@, w as int);
                }
                return Some(r);
            }
            w = w + 1;
        }
        None
    }

    /// A square root, or `None` exactly when `self` is not a quadratic
    /// residue. When roots exist the smallest representative is returned.
    pub fn sqrt(self) -> (r: Option<Self>)
        requires
            self.wf(),
        ensures
            match r {
                Some(y) => {
                    &&& y.wf()
                    &&& fmul(P as int, y@, y@) == self@
                    &&& forall|u: int| 0 <= u < y@ ==> #[trigger] fmul(P as int, u, u) != self@
                },
                None => forall|u: int|
                    0 <= u < P as int ==> #[trigger] fmul(P as int, u, u) != self@,
            },
    {
        let mut y: u64 = 0;
        while y < P
            invariant
                self.wf(),
                y <= P,
                forall|u: int| 0 <= u < y ==> #[trigger] fmul(P as int, u, u) != self@,
            decreases P - y,
        {
            proof {
                lemma_u64_prod_fits(y as int, y as int);
            }
            let prod: u128 = (y as u128) * (y as u128);
            if prod % (P as u128) == self.v as u128 {
                return Some(Fp { v: y });
            }
            y = y + 1;
        }
        None
    }
}

/// Two inverses of the same element agree: the inverse is unique.
pub proof fn lemma_inv_unique(p: int, a: int, w1: int, w2: int)
    requires
        p >= 2,
        0 <= w1 < p,
        0 <= w2 < p,
        (a * w1) % p == 1,
        (a * w2) % p == 1,
    ensures
        w1 == w2,
{
    // w1 == (w1 * ((a * w2) % p)) % p == ((w1 * a) % p * w2) % p == w2
    lemma_small_mod(w1 as nat, p as nat);
    lemma_small_mod(w2 as nat, p as nat);
    lemma_mul_mod_noop_right(w1, a * w2, p);
    assert(w1 * (a * w2) == (a * w1) * w2) by (nonlinear_arith);
    lemma_mul_mod_noop_left(a * w1, w2, p);
    assert((w1 * 1) % p == w1 % p);
    assert((1 * w2) % p == w2 % p);
}

/// A concrete inverse witness pins the `finv` choice.
pub proof fn lemma_finv_is(p: int, a: int, w: int)
    requires
        p >= 2,
        0 <= w < p,
        (a * w) % p == 1,
    ensures
        invertible(p, a),
        finv(p, a) == w,
        fmul(p, a, finv(p, a)) == 1,
{
    assert(invertible(p, a));
    let c = finv(p, a);
    assert(0 <= c < p && (a * c) % p == 1);
    lemma_inv_unique(p, a, c, w);
}

/// The product of two invertible elements is invertible, and nonzero.
pub proof fn lemma_invertible_mul(p: int, a: int, b: int)
    requires
        p >= 2,
        invertible(p, a),
        invertible(p, b),
    ensures
        invertible(p, fmul(p, a, b)),
        finv(p, fmul(p, a, b)) == fmul(p, finv(p, a), finv(p, b)),
        fmul(p, a, b) != 0,
{
    let wa = finv(p, a);
    let wb = finv(p, b);
    assert(0 <= wa < p && (a * wa) % p == 1);
    assert(0 <= wb < p && (b * wb) % p == 1);
    let ab = (a * b) % p;
    let wab = (wa * wb) % p;
    lemma_mod_bound(wa * wb, p);
    lemma_mul_mod_noop_general(a * b, wa * wb, p);
    assert((a * b) * (wa * wb) == (a * wa) * (b * wb)) by (nonlinear_arith);
    lemma_mul_mod_noop_general(a * wa, b * wb, p);
    assert((((a * wa) % p) * ((b * wb) % p)) % p == 1int * 1int % p);
    lemma_small_mod(1nat, p as nat);
    assert((ab * wab) % p == 1);
    // ab is not zero: zero has no inverse since (0 * w) % p == 0
    if ab == 0 {
        assert((0int * wab) % p == 0int % p);
        lemma_mod_self_0(p);
        assert(false);
    }
    lemma_finv_is(p, ab, wab);
}

/// Every nonzero residue is invertible: the modulus behaves as a field.
/// This is the capability the curve and domain layers assume of the
/// scalar type; it holds exactly when `P` is prime.
pub open spec fn field_ok(p: int) -> bool {
    &&& p >= 3
    &&& forall|a: int| 0 < a < p ==> invertible(p, a)
}

/// In a field there are no zero divisors: a product of nonzero elements
/// is nonzero.
pub proof fn lemma_no_zero_divisors(p: int, a: int, b: int)
    requires
        field_ok(p),
        0 < a < p,
        0 < b < p,
    ensures
        fmul(p, a, b) != 0,
        invertible(p, fmul(p, a, b)),
{
    lemma_invertible_mul(p, a, b);
}

} // verus!
