//! An FFT-friendly evaluation domain: a power-of-two multiplicative
//! subgroup of the field, with forward and inverse transforms, coset
//! transforms, Lagrange-coefficient evaluation, and vanishing-polynomial
//! operations.
//!
//! Construction checks every algebraic fact the contracts lean on — the
//! generator's order, the halfway power being `-1`, the stored inverses —
//! so the transforms' contracts need no number theory beyond them.

use vstd::prelude::*;

verus! {

use crate::fp::{
    fadd, fmul, fneg, fpow, fsub, finv, invertible, field_ok, lemma_finv_is, modulus_ok, Fp,
};
use vstd::arithmetic::div_mod::{
    lemma_mod_bound, lemma_mul_mod_noop_left, lemma_mul_mod_noop_right, lemma_small_mod,
};
use vstd::arithmetic::power::{lemma_pow1, lemma_pow_adds, lemma_pow_multiplies, pow};

/// A value a domain can transform: closed under addition, subtraction and
/// multiplication by a field scalar, with a zero for padding. Field-element
/// vectors are the plain case; any additively shared value with the same
/// operations fits the same bounds.
pub trait DomainCoeff<const P: u64>: Sized + Copy {
    /// The value is well-formed (its components are canonical residues).
    spec fn wfc(self) -> bool;

    /// What addition returns, at the specification level.
    spec fn spec_add(self, o: Self) -> Self;

    /// What subtraction returns, at the specification level.
    spec fn spec_sub(self, o: Self) -> Self;

    /// What scaling by the field scalar `s` returns.
    spec fn spec_mul_sc(self, s: int) -> Self;

    /// The additive identity.
    spec fn spec_zeroc() -> Self;

    fn addc(self, o: Self) -> (r: Self)
        requires
            modulus_ok(P as int),
            self.wfc(),
            o.wfc(),
        ensures
            r.wfc(),
            r == self.spec_add(o),
    ;

    fn subc(self, o: Self) -> (r: Self)
        requires
            modulus_ok(P as int),
            self.wfc(),
            o.wfc(),
        ensures
            r.wfc(),
            r == self.spec_sub(o),
    ;

    fn mulc(self, s: Fp<P>) -> (r: Self)
        requires
            modulus_ok(P as int),
            self.wfc(),
            s.wf(),
        ensures
            r.wfc(),
            r == self.spec_mul_sc(s@),
    ;

    fn zeroc() -> (r: Self)
        requires
            modulus_ok(P as int),
        ensures
            r.wfc(),
            r == Self::spec_zeroc(),
    ;

    /// Scaling twice is scaling by the product: the scalar action is
    /// multiplicative.
    proof fn lemma_mul_sc_mul_sc(self, s1: int, s2: int)
        requires
            modulus_ok(P as int),
            self.wfc(),
            0 <= s1 < P as int,
            0 <= s2 < P as int,
        ensures
            self.spec_mul_sc(s1).spec_mul_sc(s2) == self.spec_mul_sc(fmul(P as int, s1, s2)),
    ;

    /// Scaling by one changes nothing.
    proof fn lemma_mul_sc_one(self)
        requires
            modulus_ok(P as int),
            self.wfc(),
        ensures
            self.spec_mul_sc(1) == self,
    ;
}

impl<const P: u64> DomainCoeff<P> for Fp<P> {
    open spec fn wfc(self) -> bool {
        self.wf()
    }

    open spec fn spec_add(self, o: Self) -> Self {
        Fp { v: fadd(P as int, self@, o@) as u64 }
    }

    open spec fn spec_sub(self, o: Self) -> Self {
        Fp { v: fsub(P as int, self@, o@) as u64 }
    }

    open spec fn spec_mul_sc(self, s: int) -> Self {
        Fp { v: fmul(P as int, self@, s) as u64 }
    }

    open spec fn spec_zeroc() -> Self {
        Fp { v: 0 }
    }

    fn addc(self, o: Self) -> (r: Self) {
        self.add(o)
    }

    fn subc(self, o: Self) -> (r: Self) {
        self.sub(o)
    }

    fn mulc(self, s: Fp<P>) -> (r: Self) {
        self.mul(s)
    }

    fn zeroc() -> (r: Self) {
        Fp::zero()
    }

    proof fn lemma_mul_sc_mul_sc(self, s1: int, s2: int) {
        let p = P as int;
        lemma_mod_bound(self@ * s1, p);
        lemma_mod_bound(s1 * s2, p);
        lemma_mul_mod_noop_left(self@ * s1, s2, p);
        lemma_mul_mod_noop_right(self@, s1 * s2, p);
        assert((self@ * s1) * s2 == self@ * (s1 * s2)) by (nonlinear_arith);
    }

    proof fn lemma_mul_sc_one(self) {
        let p = P as int;
        lemma_small_mod(self.v as nat, p as nat);
    }
}

/// `s` is a power of two.
pub open spec fn is_pow2(s: nat) -> bool
    decreases s,
{
    if s == 0 {
        false
    } else if s == 1 {
        true
    } else {
        s % 2 == 0 && is_pow2(s / 2)
    }
}

/// The smallest power of two at least `n` (and at least 1).
pub open spec fn next_pow2(n: nat) -> nat
    decreases n,
{
    if n <= 1 {
        1
    } else {
        2 * next_pow2((n + 1) / 2)
    }
}

/// `next_pow2` yields a power of two, at least `n`, and minimal: its half
/// is below `n`.
pub proof fn lemma_next_pow2_props(n: nat)
    ensures
        is_pow2(next_pow2(n)),
        next_pow2(n) >= n,
        next_pow2(n) >= 1,
        next_pow2(n) > 1 ==> next_pow2(n) / 2 < n,
    decreases n,
{
    if n > 1 {
        lemma_next_pow2_props((n + 1) / 2);
    }
}

/// `next_pow2` never overshoots a power of two that already suffices.
pub proof fn lemma_next_pow2_min(n: nat, s: nat)
    requires
        is_pow2(s),
        s >= n,
    ensures
        next_pow2(n) <= s,
    decreases n,
{
    if n > 1 {
        // s >= n >= 2, so s is even and s/2 bounds the half problem
        lemma_next_pow2_min((n + 1) / 2, s / 2);
    }
}

/// `g` generates a multiplicative subgroup of order `n`: `g^n = 1` and, for
/// `n > 1`, the halfway power is `-1` (which forces the order to be exactly
/// `n` for a power-of-two `n`).
pub open spec fn root_of_unity_ok(p: int, g: int, n: nat) -> bool {
    &&& 0 < g < p
    &&& fpow(p, g, n) == 1
    &&& n > 1 ==> (fpow(p, g, n / 2) == p - 1 && p - 1 != 1)
}

/// `c` lies outside the order-`n` subgroup and is invertible: a usable
/// coset shift.
pub open spec fn shift_ok(p: int, c: int, n: nat) -> bool {
    &&& 0 < c < p
    &&& fpow(p, c, n) != 1
    &&& invertible(p, c)
}

/// A power-of-two multiplicative evaluation domain. Immutable once built;
/// `wf` records every algebraic fact construction checked.
pub struct EvaluationDomain<const P: u64> {
    /// The domain's size: a power of two.
    pub size: u64,
    /// `log2` of the size.
    pub log_size: u64,
    /// The inverse of the size as a field element.
    pub size_inv: Fp<P>,
    /// A generator of the order-`size` subgroup.
    pub group_gen: Fp<P>,
    /// The generator's inverse.
    pub group_gen_inv: Fp<P>,
    /// An invertible element outside the subgroup, shifting it to a coset.
    pub coset_shift: Fp<P>,
    /// The shift's inverse.
    pub coset_shift_inv: Fp<P>,
}

impl<const P: u64> EvaluationDomain<P> {
    pub open spec fn wf(&self) -> bool {
        &&& modulus_ok(P as int)
        &&& self.size >= 1
        &&& self.size as nat == vstd::arithmetic::power2::pow2(self.log_size as nat)
        &&& is_pow2(self.size as nat)
        &&& self.size_inv.wf()
        &&& self.group_gen.wf()
        &&& self.group_gen_inv.wf()
        &&& self.coset_shift.wf()
        &&& self.coset_shift_inv.wf()
        &&& fmul(P as int, (self.size as int) % (P as int), self.size_inv@) == 1
        &&& root_of_unity_ok(P as int, self.group_gen@, self.size as nat)
        &&& fmul(P as int, self.group_gen@, self.group_gen_inv@) == 1
        &&& shift_ok(P as int, self.coset_shift@, self.size as nat)
        &&& fmul(P as int, self.coset_shift@, self.coset_shift_inv@) == 1
    }

    /// Build the smallest domain able to hold `num_coeffs` coefficients, or
    /// `None` when the field offers no subgroup of that size: no element of
    /// the right order, a size the field cannot invert, no usable coset
    /// shift, or a size beyond the machine word.
    pub fn new(num_coeffs: u64) -> (r: Option<Self>)
        requires
            modulus_ok(P as int),
        ensures
            match r {
                Some(d) => {
                    &&& d.wf()
                    &&& d.size as nat == next_pow2(num_coeffs as nat)
                },
                None => Self::new_unsupported(num_coeffs),
            },
    {
        if num_coeffs > 0x8000_0000_0000_0000u64 {
            return None;
        }
        // The smallest power of two at least num_coeffs.
        let mut size: u64 = 1;
        let mut log_size: u64 = 0;
        proof {
            vstd::arithmetic::power2::lemma2_to64();
        }
        while size < num_coeffs
            invariant
                1 <= size <= 0x8000_0000_0000_0000u64,
                log_size <= 63,
                size as nat == vstd::arithmetic::power2::pow2(log_size as nat),
                is_pow2(size as nat),
                size == 1 || size / 2 < num_coeffs,
                num_coeffs <= 0x8000_0000_0000_0000u64,
            decreases 2 * num_coeffs - size,
        {
            proof {
                vstd::arithmetic::power2::lemma2_to64();
                vstd::arithmetic::power2::lemma2_to64_rest();
                if log_size > 63 {
                    vstd::arithmetic::power2::lemma_pow2_strictly_increases(63, log_size as nat);
                    assert(false);
                }
                if log_size == 63 {
                    assert(size == 0x8000_0000_0000_0000u64);
                    assert(false);
                }
                vstd::arithmetic::power2::lemma_pow2_unfold(log_size as nat + 1);
                if log_size as nat + 1 < 63 {
                    vstd::arithmetic::power2::lemma_pow2_strictly_increases(
                        log_size as nat + 1,
                        63,
                    );
                }
            }
            size = size * 2;
            log_size = log_size + 1;
        }
        proof {
            lemma_next_pow2_props(num_coeffs as nat);
            lemma_next_pow2_min(num_coeffs as nat, size as nat);
            if size as nat > next_pow2(num_coeffs as nat) {
                // minimality of the loop result: its half is below num_coeffs
                assert(size / 2 < num_coeffs);
                lemma_is_pow2_le(next_pow2(num_coeffs as nat), size as nat / 2);
            }
            assert(size as nat == next_pow2(num_coeffs as nat));
        }
        // An element of order `size`, by exhaustive search.
        let g = match Self::find_root_of_unity(size) {
            Some(g) => g,
            None => {
                return None;
            },
        };
        // The size as a field element must be invertible.
        let size_fe: Fp<P> = Fp::new(size);
        let size_inv = match size_fe.inverse() {
            Some(w) => w,
            None => {
                return None;
            },
        };
        // The generator's inverse is its (size-1)-th power.
        let group_gen_inv = g.pow(size - 1);
        proof {
            lemma_pow_adds(g@, 1nat, (size - 1) as nat);
            lemma_pow1(g@);
            lemma_mul_mod_noop_right(g@, pow(g@, (size - 1) as nat), P as int);
            assert(fmul(P as int, g@, group_gen_inv@) == fpow(P as int, g@, size as nat));
        }
        // An invertible element outside the subgroup, for coset work.
        let (shift, shift_inv) = match Self::find_coset_shift(size) {
            Some(pair) => pair,
            None => {
                return None;
            },
        };
        Some(
            EvaluationDomain {
                size,
                log_size,
                size_inv,
                group_gen: g,
                group_gen_inv,
                coset_shift: shift,
                coset_shift_inv: shift_inv,
            },
        )
    }

    /// Exhaustively look for an element of order `size`; complete, so
    /// `None` proves there is none.
    fn find_root_of_unity(size: u64) -> (r: Option<Fp<P>>)
        requires
            modulus_ok(P as int),
            size >= 1,
        ensures
            match r {
                Some(g) => g.wf() && root_of_unity_ok(P as int, g@, size as nat),
                None => forall|c: int|
                    0 < c < P as int ==> !#[trigger] root_of_unity_ok(P as int, c, size as nat),
            },
    {
        let mut c: u64 = 1;
        while c < P
            invariant
                modulus_ok(P as int),
                size >= 1,
                1 <= c <= P,
                forall|u: int| 0 < u < c ==> !#[trigger] root_of_unity_ok(P as int, u, size as nat),
            decreases P - c,
        {
            let cand: Fp<P> = Fp { v: c };
            if cand.pow(size).is_one() {
                if size == 1 {
                    return Some(cand);
                }
                let half = cand.pow(size / 2);
                if half.as_u64() == P - 1 && P - 1 != 1 {
                    return Some(cand);
                }
            }
            c = c + 1;
        }
        None
    }

    /// Exhaustively look for an invertible element outside the subgroup,
    /// with its inverse; complete, so `None` proves there is none.
    fn find_coset_shift(size: u64) -> (r: Option<(Fp<P>, Fp<P>)>)
        requires
            modulus_ok(P as int),
            size >= 1,
        ensures
            match r {
                Some(pair) => {
                    &&& pair.0.wf()
                    &&& pair.1.wf()
                    &&& shift_ok(P as int, pair.0@, size as nat)
                    &&& fmul(P as int, pair.0@, pair.1@) == 1
                },
                None => forall|c: int|
                    0 < c < P as int ==> !#[trigger] shift_ok(P as int, c, size as nat),
            },
    {
        let mut c: u64 = 1;
        while c < P
            invariant
                modulus_ok(P as int),
                size >= 1,
                1 <= c <= P,
                forall|u: int| 0 < u < c ==> !#[trigger] shift_ok(P as int, u, size as nat),
            decreases P - c,
        {
            let cand: Fp<P> = Fp { v: c };
            if !cand.pow(size).is_one() {
                match cand.inverse() {
                    Some(ci) => {
                        return Some((cand, ci));
                    },
                    None => {
                        // not invertible: not a usable shift either
                    },
                }
            }
            c = c + 1;
        }
        None
    }

    /// The size `new` would choose for `num_coeffs`, without building the
    /// domain, or `None` exactly when `new` would fail.
    pub fn compute_size_of_domain(num_coeffs: u64) -> (r: Option<u64>)
        requires
            modulus_ok(P as int),
        ensures
            match r {
                Some(s) => s as nat == next_pow2(num_coeffs as nat),
                None => Self::new_unsupported(num_coeffs),
            },
    {
        match Self::new(num_coeffs) {
            Some(d) => Some(d.size),
            None => None,
        }
    }

    /// The exact conditions under which `new` reports failure.
    pub open spec fn new_unsupported(num_coeffs: u64) -> bool {
        ||| num_coeffs > 0x8000_0000_0000_0000u64
        ||| (forall|c: int|
            0 < c < P as int ==> !#[trigger] root_of_unity_ok(
                P as int,
                c,
                next_pow2(num_coeffs as nat),
            ))
        ||| !invertible(P as int, (next_pow2(num_coeffs as nat) as int) % (P as int))
        ||| (forall|c: int|
            0 < c < P as int ==> !#[trigger] shift_ok(P as int, c, next_pow2(num_coeffs as nat)))
    }

    /// The domain's size.
    pub fn size(&self) -> (r: u64)
        ensures
            r == self.size,
    {
        self.size
    }

    /// The size as a field element.
    pub fn size_as_field_element(&self) -> (r: Fp<P>)
        requires
            self.wf(),
        ensures
            r.wf(),
            r@ == (self.size as int) % (P as int),
    {
        Fp::new(self.size)
    }

    /// The `i`-th domain element: the generator's `i`-th power.
    pub fn element(&self, i: u64) -> (r: Fp<P>)
        requires
            self.wf(),
        ensures
            r.wf(),
            r@ == fpow(P as int, self.group_gen@, i as nat),
    {
        self.group_gen.pow(i)
    }

    /// All domain elements, in index order.
    pub fn elements(&self) -> (r: Vec<Fp<P>>)
        requires
            self.wf(),
            self.size <= usize::MAX as u64,
        ensures
            r@.len() == self.size,
            forall|i: int|
                0 <= i < self.size ==> (#[trigger] r@[i]).wf() && r@[i]@ == fpow(
                    P as int,
                    self.group_gen@,
                    i as nat,
                ),
    {
        let n = self.size as usize;
        let mut out: Vec<Fp<P>> = Vec::new();
        let mut w: Fp<P> = Fp::one();
        proof {
            lemma_small_mod(1nat, P as nat);
            vstd::arithmetic::power::lemma_pow0(self.group_gen@);
        }
        let mut i: usize = 0;
        while i < n
            invariant
                self.wf(),
                n == self.size,
                i <= n,
                out@.len() == i,
                w.wf(),
                w@ == fpow(P as int, self.group_gen@, i as nat),
                forall|j: int|
                    0 <= j < i ==> (#[trigger] out@[j]).wf() && out@[j]@ == fpow(
                        P as int,
                        self.group_gen@,
                        j as nat,
                    ),
            decreases n - i,
        {
            out.push(w);
            proof {
                lemma_pow_adds(self.group_gen@, i as nat, 1nat);
                lemma_pow1(self.group_gen@);
                lemma_mul_mod_noop_left(pow(self.group_gen@, i as nat), self.group_gen@, P as int);
            }
            w = w.mul(self.group_gen);
            i = i + 1;
        }
        out
    }

    /// The vanishing polynomial `X^size - 1`, as sparse (exponent,
    /// coefficient) pairs.
    pub fn vanishing_polynomial(&self) -> (r: Vec<(u64, Fp<P>)>)
        requires
            self.wf(),
        ensures
            r@.len() == 2,
            r@[0].0 == 0 && r@[0].1@ == fneg(P as int, 1),
            r@[1].0 == self.size && r@[1].1@ == 1,
    {
        let one: Fp<P> = Fp::one();
        let mut out: Vec<(u64, Fp<P>)> = Vec::new();
        out.push((0, one.neg()));
        out.push((self.size, one));
        out
    }

    /// Evaluate the vanishing polynomial: one exponentiation and a
    /// subtraction.
    pub fn evaluate_vanishing_polynomial(&self, tau: Fp<P>) -> (r: Fp<P>)
        requires
            self.wf(),
            tau.wf(),
        ensures
            r.wf(),
            r@ == eval_vanishing(P as int, self.size as nat, tau@),
    {
        tau.pow(self.size).sub(Fp::one())
    }

    /// Map an index of an embedded subdomain to its index here; remaining
    /// indices are bucketed between them. The subdomain must genuinely be
    /// a subgroup of this domain: its size divides this one, and its
    /// generator is this generator raised to the size ratio — that is what
    /// puts its elements at multiples of the ratio, as the last `ensures`
    /// clause states.
    pub fn reindex_by_subdomain(&self, other: &EvaluationDomain<P>, index: u64) -> (r: u64)
        requires
            self.wf(),
            other.wf(),
            other.size <= self.size,
            self.size <= 0x8000_0000_0000_0000u64,
            (self.size as int) % (other.size as int) == 0,
            fpow(P as int, self.group_gen@, (self.size / other.size) as nat) == other.group_gen@,
            index < self.size,
        ensures
            r as int == reindex_spec(self.size as int, other.size as int, index as int),
            index < other.size ==> fpow(P as int, self.group_gen@, r as nat) == fpow(
                P as int,
                other.group_gen@,
                index as nat,
            ),
    {
        let period = self.size / other.size;
        proof {
            vstd::arithmetic::div_mod::lemma_fundamental_div_mod(
                self.size as int,
                other.size as int,
            );
            vstd::arithmetic::div_mod::lemma_div_by_self(other.size as int);
            vstd::arithmetic::div_mod::lemma_div_is_ordered(
                other.size as int,
                self.size as int,
                other.size as int,
            );
            assert(period >= 1);
        }
        if index < other.size {
            proof {
                assert(index as int * period as int <= (other.size as int - 1) * period as int)
                    by (nonlinear_arith)
                    requires
                        index as int <= other.size as int - 1,
                        period as int >= 0,
                ;
                assert((other.size as int - 1) * period as int == self.size as int
                    - period as int) by (nonlinear_arith)
                    requires
                        self.size as int == other.size as int * period as int,
                ;
                // the mapped index names the same field element:
                // g^(index*period) = (g^period)^index = other_gen^index
                let g = self.group_gen@;
                vstd::arithmetic::power::lemma_pow_mod_noop(
                    pow(g, period as nat),
                    index as nat,
                    P as int,
                );
                vstd::arithmetic::power::lemma_pow_multiplies(g, period as nat, index as nat);
                assert((period as nat) * (index as nat) == (index as nat) * (period as nat))
                    by (nonlinear_arith);
                assert(fpow(P as int, other.group_gen@, index as nat) == fpow(
                    P as int,
                    g,
                    (index as nat) * (period as nat),
                ));
            }
            index * period
        } else {
            proof {
                assert(period as int >= 2) by (nonlinear_arith)
                    requires
                        self.size as int == other.size as int * period as int,
                        self.size > other.size,
                        other.size >= 1,
                        period >= 1,
                ;
                vstd::arithmetic::div_mod::lemma_div_nonincreasing(
                    (index - other.size) as int,
                    (period - 1) as int,
                );
            }
            let i = index - other.size;
            let x = period - 1;
            i + (i / x) + 1
        }
    }

    /// Pointwise product of two equal-length evaluation vectors. The domain
    /// must be large enough for the product's true degree; that is the
    /// caller's obligation and is not checked.
    pub fn mul_polynomials_in_evaluation_domain(
        &self,
        self_evals: &Vec<Fp<P>>,
        other_evals: &Vec<Fp<P>>,
    ) -> (r: Vec<Fp<P>>)
        requires
            self.wf(),
            self_evals@.len() == other_evals@.len(),
            forall|i: int| 0 <= i < self_evals@.len() ==> (#[trigger] self_evals@[i]).wf(),
            forall|i: int| 0 <= i < other_evals@.len() ==> (#[trigger] other_evals@[i]).wf(),
        ensures
            r@.len() == self_evals@.len(),
            forall|i: int|
                0 <= i < r@.len() ==> (#[trigger] r@[i]).wf() && r@[i]@ == fmul(
                    P as int,
                    self_evals@[i]@,
                    other_evals@[i]@,
                ),
    {
        let n = self_evals.len();
        let mut out: Vec<Fp<P>> = Vec::new();
        let mut i: usize = 0;
        while i < n
            invariant
                self.wf(),
                n == self_evals@.len(),
                self_evals@.len() == other_evals@.len(),
                forall|j: int| 0 <= j < n ==> (#[trigger] self_evals@[j]).wf(),
                forall|j: int| 0 <= j < n ==> (#[trigger] other_evals@[j]).wf(),
                i <= n,
                out@.len() == i,
                forall|j: int|
                    0 <= j < i ==> (#[trigger] out@[j]).wf() && out@[j]@ == fmul(
                        P as int,
                        self_evals@[j]@,
                        other_evals@[j]@,
                    ),
            decreases n - i,
        {
            out.push(self_evals[i].mul(other_evals[i]));
            i = i + 1;
        }
        out
    }
}

/// The vanishing polynomial's value: `tau^n - 1`.
pub open spec fn eval_vanishing(p: int, n: nat, tau: int) -> int {
    fsub(p, fpow(p, tau, n), 1)
}

/// The vanishing polynomial is zero on every domain element: `(g^i)^n = 1`
/// whenever `g^n = 1`.
pub proof fn lemma_domain_element_vanishes(p: int, g: int, n: nat, i: nat)
    requires
        p >= 2,
        fpow(p, g, n) == 1,
    ensures
        eval_vanishing(p, n, fpow(p, g, i)) == 0,
{
    let gi = fpow(p, g, i);
    vstd::arithmetic::power::lemma_pow_mod_noop(pow(g, i), n, p);
    lemma_pow_multiplies(g, i, n);
    lemma_pow_multiplies(g, n, i);
    vstd::arithmetic::power::lemma_pow_mod_noop(pow(g, n), i, p);
    vstd::arithmetic::power::lemma1_pow(i);
    lemma_small_mod(1nat, p as nat);
    assert(i * n == n * i) by (nonlinear_arith);
    assert(fpow(p, gi, n) == 1);
    assert((1int - 1int) % p == 0int % p);
}

/// The elements of `v` at even and at odd positions.
pub open spec fn even_elems<T>(v: Seq<T>) -> Seq<T> {
    Seq::new((v.len() + 1) / 2, |i: int| v[2 * i])
}

pub open spec fn odd_elems<T>(v: Seq<T>) -> Seq<T> {
    Seq::new(v.len() / 2, |i: int| v[2 * i + 1])
}

/// Every element is well-formed.
pub open spec fn all_wfc<const P: u64, T: DomainCoeff<P>>(v: Seq<T>) -> bool {
    forall|i: int| 0 <= i < v.len() ==> (#[trigger] v[i]).wfc()
}

/// `v` padded with zeros to length `n`.
pub open spec fn zero_pad<const P: u64, T: DomainCoeff<P>>(v: Seq<T>, n: nat) -> Seq<T> {
    Seq::new(
        n,
        |i: int|
            if i < v.len() {
                v[i]
            } else {
                T::spec_zeroc()
            },
    )
}

/// The radix-2 decimation-in-time transform over the powers of `g`: split
/// into even and odd coefficients, transform both halves with `g^2`, and
/// recombine with the powers of `g` (the identity `g^(n/2) = -1`, checked
/// at domain construction, is what makes the second half a subtraction).
pub open spec fn fft_spec<const P: u64, T: DomainCoeff<P>>(g: int, v: Seq<T>) -> Seq<T>
    decreases v.len(),
{
    if v.len() <= 1 {
        v
    } else {
        let fe = fft_spec::<P, T>(fmul(P as int, g, g), even_elems(v));
        let fo = fft_spec::<P, T>(fmul(P as int, g, g), odd_elems(v));
        let half = v.len() as int / 2;
        Seq::new(
            v.len(),
            |i: int|
                if i < half {
                    fe[i].spec_add(fo[i].spec_mul_sc(fpow(P as int, g, i as nat)))
                } else {
                    fe[i - half].spec_sub(
                        fo[i - half].spec_mul_sc(fpow(P as int, g, (i - half) as nat)),
                    )
                },
        )
    }
}

/// The inverse transform: the forward recursion over the inverse
/// generator's powers, scaled by the size's inverse.
pub open spec fn ifft_spec<const P: u64, T: DomainCoeff<P>>(gi: int, ninv: int, v: Seq<T>) -> Seq<
    T,
> {
    fft_spec::<P, T>(gi, v).map_values(|t: T| t.spec_mul_sc(ninv))
}

/// Every element scaled by `c` times the matching power of `g`.
pub open spec fn distribute_spec<const P: u64, T: DomainCoeff<P>>(v: Seq<T>, g: int, c: int) -> Seq<
    T,
> {
    Seq::new(
        v.len(),
        |i: int| v[i].spec_mul_sc(fmul(P as int, c, fpow(P as int, g, i as nat))),
    )
}

/// The recursive radix-2 transform.
fn fft_rec<const P: u64, T: DomainCoeff<P>>(v: &Vec<T>, g: Fp<P>) -> (r: Vec<T>)
    requires
        modulus_ok(P as int),
        g.wf(),
        all_wfc::<P, T>(v@),
        is_pow2(v@.len() as nat),
    ensures
        r@.len() == v@.len(),
        r@ == fft_spec::<P, T>(g@, v@),
        all_wfc::<P, T>(r@),
    decreases v@.len(),
{
    let n = v.len();
    if n <= 1 {
        let mut out: Vec<T> = Vec::new();
        if n == 1 {
            out.push(v[0]);
        }
        proof {
            assert(out@ =~= fft_spec::<P, T>(g@, v@));
        }
        return out;
    }
    let half = n / 2;
    let mut evens: Vec<T> = Vec::new();
    let mut odds: Vec<T> = Vec::new();
    let mut i: usize = 0;
    while i < half
        invariant
            n == v@.len(),
            n >= 2,
            half == n / 2,
            is_pow2(n as nat),
            all_wfc::<P, T>(v@),
            i <= half,
            evens@.len() == i,
            odds@.len() == i,
            forall|j: int| 0 <= j < i ==> #[trigger] evens@[j] == v@[2 * j],
            forall|j: int| 0 <= j < i ==> #[trigger] odds@[j] == v@[2 * j + 1],
        decreases half - i,
    {
        proof {
            assert(2 * i as int + 1 < n as int);
        }
        evens.push(v[2 * i]);
        odds.push(v[2 * i + 1]);
        i = i + 1;
    }
    proof {
        // a power of two above 1 is even, so both halves have length n/2
        assert(n as nat % 2 == 0);
        assert(evens@ =~= even_elems(v@));
        assert(odds@ =~= odd_elems(v@));
        assert(is_pow2((n / 2) as nat));
    }
    let g2 = g.square();
    let fe = fft_rec(&evens, g2);
    let fo = fft_rec(&odds, g2);
    // the powers of g needed by the butterfly
    let mut pows: Vec<Fp<P>> = Vec::new();
    let mut w: Fp<P> = Fp::one();
    proof {
        lemma_small_mod(1nat, P as nat);
        vstd::arithmetic::power::lemma_pow0(g@);
    }
    let mut k: usize = 0;
    while k < half
        invariant
            modulus_ok(P as int),
            g.wf(),
            k <= half,
            pows@.len() == k,
            w.wf(),
            w@ == fpow(P as int, g@, k as nat),
            forall|j: int|
                0 <= j < k ==> (#[trigger] pows@[j]).wf() && pows@[j]@ == fpow(
                    P as int,
                    g@,
                    j as nat,
                ),
        decreases half - k,
    {
        pows.push(w);
        proof {
            lemma_pow_adds(g@, k as nat, 1nat);
            lemma_pow1(g@);
            lemma_mul_mod_noop_left(pow(g@, k as nat), g@, P as int);
        }
        w = w.mul(g);
        k = k + 1;
    }
    // butterfly: first half sums, second half differences
    let mut out: Vec<T> = Vec::new();
    let ghost fe_s = fft_spec::<P, T>(fmul(P as int, g@, g@), even_elems(v@));
    let ghost fo_s = fft_spec::<P, T>(fmul(P as int, g@, g@), odd_elems(v@));
    let mut a: usize = 0;
    while a < half
        invariant
            modulus_ok(P as int),
            g.wf(),
            half >= 1,
            a <= half,
            out@.len() == a,
            fe@.len() == half,
            fo@.len() == half,
            pows@.len() == half,
            fe@ == fe_s,
            fo@ == fo_s,
            all_wfc::<P, T>(fe@),
            all_wfc::<P, T>(fo@),
            forall|j: int|
                0 <= j < half ==> (#[trigger] pows@[j]).wf() && pows@[j]@ == fpow(
                    P as int,
                    g@,
                    j as nat,
                ),
            forall|j: int|
                0 <= j < a ==> (#[trigger] out@[j]).wfc() && out@[j] == fe_s[j].spec_add(
                    fo_s[j].spec_mul_sc(fpow(P as int, g@, j as nat)),
                ),
        decreases half - a,
    {
        out.push(fe[a].addc(fo[a].mulc(pows[a])));
        a = a + 1;
    }
    let mut b: usize = 0;
    while b < half
        invariant
            modulus_ok(P as int),
            g.wf(),
            half >= 1,
            b <= half,
            out@.len() == half + b,
            fe@.len() == half,
            fo@.len() == half,
            pows@.len() == half,
            fe@ == fe_s,
            fo@ == fo_s,
            all_wfc::<P, T>(fe@),
            all_wfc::<P, T>(fo@),
            forall|j: int|
                0 <= j < half ==> (#[trigger] pows@[j]).wf() && pows@[j]@ == fpow(
                    P as int,
                    g@,
                    j as nat,
                ),
            forall|j: int|
                0 <= j < half ==> (#[trigger] out@[j]).wfc() && out@[j] == fe_s[j].spec_add(
                    fo_s[j].spec_mul_sc(fpow(P as int, g@, j as nat)),
                ),
            forall|j: int|
                half <= j < half + b ==> (#[trigger] out@[j]).wfc() && out@[j] == fe_s[j
                    - half].spec_sub(
                    fo_s[j - half].spec_mul_sc(fpow(P as int, g@, (j - half) as nat)),
                ),
        decreases half - b,
    {
        out.push(fe[b].subc(fo[b].mulc(pows[b])));
        b = b + 1;
    }
    proof {
        assert(out@ =~= fft_spec::<P, T>(g@, v@));
    }
    out
}

impl<const P: u64> EvaluationDomain<P> {
    /// The forward transform of `coeffs`, zero-padded to the domain size:
    /// evaluations over the domain.
    pub fn fft<T: DomainCoeff<P>>(&self, coeffs: &Vec<T>) -> (r: Vec<T>)
        requires
            self.wf(),
            coeffs@.len() <= self.size,
            self.size <= usize::MAX as u64,
            all_wfc::<P, T>(coeffs@),
        ensures
            r@.len() == self.size,
            r@ == fft_spec::<P, T>(self.group_gen@, zero_pad::<P, T>(coeffs@, self.size as nat)),
            all_wfc::<P, T>(r@),
    {
        let padded = self.pad_to_size(coeffs);
        fft_rec(&padded, self.group_gen)
    }

    /// The forward transform in place.
    pub fn fft_in_place<T: DomainCoeff<P>>(&self, coeffs: &mut Vec<T>)
        requires
            self.wf(),
            old(coeffs)@.len() <= self.size,
            self.size <= usize::MAX as u64,
            all_wfc::<P, T>(old(coeffs)@),
        ensures
            final(coeffs)@ == fft_spec::<P, T>(
                self.group_gen@,
                zero_pad::<P, T>(old(coeffs)@, self.size as nat),
            ),
            all_wfc::<P, T>(final(coeffs)@),
    {
        let r = self.fft(coeffs);
        *coeffs = r;
    }

    /// The inverse transform of `evals`, zero-padded to the domain size:
    /// the forward recursion over the inverse generator, scaled by the
    /// size's inverse.
    pub fn ifft<T: DomainCoeff<P>>(&self, evals: &Vec<T>) -> (r: Vec<T>)
        requires
            self.wf(),
            evals@.len() <= self.size,
            self.size <= usize::MAX as u64,
            all_wfc::<P, T>(evals@),
        ensures
            r@.len() == self.size,
            r@ == ifft_spec::<P, T>(
                self.group_gen_inv@,
                self.size_inv@,
                zero_pad::<P, T>(evals@, self.size as nat),
            ),
            all_wfc::<P, T>(r@),
    {
        let padded = self.pad_to_size(evals);
        let inner = fft_rec(&padded, self.group_gen_inv);
        let n = inner.len();
        let mut out: Vec<T> = Vec::new();
        let ghost inner_s = fft_spec::<P, T>(
            self.group_gen_inv@,
            zero_pad::<P, T>(evals@, self.size as nat),
        );
        let mut i: usize = 0;
        while i < n
            invariant
                self.wf(),
                n == inner@.len(),
                inner@ == inner_s,
                all_wfc::<P, T>(inner@),
                i <= n,
                out@.len() == i,
                forall|j: int|
                    0 <= j < i ==> (#[trigger] out@[j]).wfc() && out@[j] == inner_s[j].spec_mul_sc(
                        self.size_inv@,
                    ),
            decreases n - i,
        {
            out.push(inner[i].mulc(self.size_inv));
            i = i + 1;
        }
        proof {
            assert(out@ =~= ifft_spec::<P, T>(
                self.group_gen_inv@,
                self.size_inv@,
                zero_pad::<P, T>(evals@, self.size as nat),
            ));
        }
        out
    }

    /// The inverse transform in place.
    pub fn ifft_in_place<T: DomainCoeff<P>>(&self, evals: &mut Vec<T>)
        requires
            self.wf(),
            old(evals)@.len() <= self.size,
            self.size <= usize::MAX as u64,
            all_wfc::<P, T>(old(evals)@),
        ensures
            final(evals)@ == ifft_spec::<P, T>(
                self.group_gen_inv@,
                self.size_inv@,
                zero_pad::<P, T>(old(evals)@, self.size as nat),
            ),
            all_wfc::<P, T>(final(evals)@),
    {
        let r = self.ifft(evals);
        *evals = r;
    }

    /// Copy and zero-pad to the domain size.
    fn pad_to_size<T: DomainCoeff<P>>(&self, coeffs: &Vec<T>) -> (r: Vec<T>)
        requires
            self.wf(),
            coeffs@.len() <= self.size,
            self.size <= usize::MAX as u64,
            all_wfc::<P, T>(coeffs@),
        ensures
            r@ == zero_pad::<P, T>(coeffs@, self.size as nat),
            r@.len() == self.size,
            all_wfc::<P, T>(r@),
    {
        let n = self.size as usize;
        let mut padded: Vec<T> = Vec::new();
        let mut i: usize = 0;
        while i < n
            invariant
                modulus_ok(P as int),
                n <= usize::MAX,
                coeffs@.len() <= n,
                all_wfc::<P, T>(coeffs@),
                i <= n,
                padded@.len() == i,
                forall|j: int|
                    0 <= j < i ==> (#[trigger] padded@[j]).wfc() && padded@[j] == (
                    if j < coeffs@.len() {
                        coeffs@[j]
                    } else {
                        T::spec_zeroc()
                    }),
            decreases n - i,
        {
            if i < coeffs.len() {
                padded.push(coeffs[i]);
            } else {
                let z = T::zeroc();
                proof {
                    assert(z.wfc());
                }
                padded.push(z);
            }
            i = i + 1;
        }
        proof {
            assert(padded@ =~= zero_pad::<P, T>(coeffs@, self.size as nat));
        }
        padded
    }

    /// Scale element `i` by `c * g^i`, walking an accumulated power.
    pub fn distribute_powers_and_mul_by_const<T: DomainCoeff<P>>(
        coeffs: &mut Vec<T>,
        g: Fp<P>,
        c: Fp<P>,
    )
        requires
            modulus_ok(P as int),
            g.wf(),
            c.wf(),
            all_wfc::<P, T>(old(coeffs)@),
        ensures
            final(coeffs)@ == distribute_spec::<P, T>(old(coeffs)@, g@, c@),
            all_wfc::<P, T>(final(coeffs)@),
    {
        let n = coeffs.len();
        let mut pw = c;
        proof {
            vstd::arithmetic::power::lemma_pow0(g@);
            lemma_small_mod(1nat, P as nat);
            lemma_small_mod(c.v as nat, P as nat);
            assert(fmul(P as int, c@, fpow(P as int, g@, 0nat)) == (c@ * 1) % (P as int));
        }
        let mut i: usize = 0;
        while i < n
            invariant
                modulus_ok(P as int),
                g.wf(),
                c.wf(),
                n == coeffs@.len(),
                coeffs@.len() == old(coeffs)@.len(),
                i <= n,
                pw.wf(),
                pw@ == fmul(P as int, c@, fpow(P as int, g@, i as nat)),
                forall|j: int| i <= j < n ==> coeffs@[j] == old(coeffs)@[j],
                all_wfc::<P, T>(old(coeffs)@),
                forall|j: int|
                    0 <= j < i ==> (#[trigger] coeffs@[j]).wfc() && coeffs@[j] == old(
                        coeffs,
                    )@[j].spec_mul_sc(fmul(P as int, c@, fpow(P as int, g@, j as nat))),
            decreases n - i,
        {
            let cur = coeffs[i];
            coeffs[i] = cur.mulc(pw);
            proof {
                lemma_pow_adds(g@, i as nat, 1nat);
                lemma_pow1(g@);
                // (c * g^i mod p) * g mod p == c * g^(i+1) mod p
                lemma_mul_mod_noop_left(c@ * pow(g@, i as nat), g@, P as int);
                lemma_mul_mod_noop_right(c@, pow(g@, i as nat), P as int);
                lemma_mul_mod_noop_right(c@, pow(g@, i as nat + 1), P as int);
                assert((c@ * pow(g@, i as nat)) * g@ == c@ * (pow(g@, i as nat) * pow(g@, 1nat)))
                    by (nonlinear_arith)
                    requires
                        pow(g@, 1nat) == g@,
                ;
            }
            pw = pw.mul(g);
            i = i + 1;
        }
        proof {
            assert(final(coeffs)@ =~= distribute_spec::<P, T>(old(coeffs)@, g@, c@));
        }
    }

    /// Scale element `i` by `g^i`.
    pub fn distribute_powers<T: DomainCoeff<P>>(coeffs: &mut Vec<T>, g: Fp<P>)
        requires
            modulus_ok(P as int),
            g.wf(),
            all_wfc::<P, T>(old(coeffs)@),
        ensures
            final(coeffs)@ == distribute_spec::<P, T>(old(coeffs)@, g@, 1),
            all_wfc::<P, T>(final(coeffs)@),
    {
        Self::distribute_powers_and_mul_by_const(coeffs, g, Fp::one());
    }

    /// Evaluate over the coset: scale coefficient `i` by the shift's `i`-th
    /// power, then transform.
    pub fn coset_fft<T: DomainCoeff<P>>(&self, coeffs: &Vec<T>) -> (r: Vec<T>)
        requires
            self.wf(),
            coeffs@.len() <= self.size,
            self.size <= usize::MAX as u64,
            all_wfc::<P, T>(coeffs@),
        ensures
            r@.len() == self.size,
            r@ == fft_spec::<P, T>(
                self.group_gen@,
                zero_pad::<P, T>(
                    distribute_spec::<P, T>(coeffs@, self.coset_shift@, 1),
                    self.size as nat,
                ),
            ),
            all_wfc::<P, T>(r@),
    {
        let mut shifted = self.copy_coeffs(coeffs);
        Self::distribute_powers(&mut shifted, self.coset_shift);
        self.fft(&shifted)
    }

    /// `coset_fft`, modifying the vector in place.
    pub fn coset_fft_in_place<T: DomainCoeff<P>>(&self, coeffs: &mut Vec<T>)
        requires
            self.wf(),
            old(coeffs)@.len() <= self.size,
            self.size <= usize::MAX as u64,
            all_wfc::<P, T>(old(coeffs)@),
        ensures
            final(coeffs)@ == fft_spec::<P, T>(
                self.group_gen@,
                zero_pad::<P, T>(
                    distribute_spec::<P, T>(old(coeffs)@, self.coset_shift@, 1),
                    self.size as nat,
                ),
            ),
            all_wfc::<P, T>(final(coeffs)@),
    {
        let r = self.coset_fft(coeffs);
        *coeffs = r;
    }

    /// Interpolate over the coset: the inverse transform, then scaling by
    /// the shift inverse's powers.
    pub fn coset_ifft<T: DomainCoeff<P>>(&self, evals: &Vec<T>) -> (r: Vec<T>)
        requires
            self.wf(),
            evals@.len() <= self.size,
            self.size <= usize::MAX as u64,
            all_wfc::<P, T>(evals@),
        ensures
            r@.len() == self.size,
            r@ == distribute_spec::<P, T>(
                ifft_spec::<P, T>(
                    self.group_gen_inv@,
                    self.size_inv@,
                    zero_pad::<P, T>(evals@, self.size as nat),
                ),
                self.coset_shift_inv@,
                1,
            ),
            all_wfc::<P, T>(r@),
    {
        let mut out = self.ifft(evals);
        Self::distribute_powers(&mut out, self.coset_shift_inv);
        out
    }

    /// `coset_ifft`, modifying the vector in place.
    pub fn coset_ifft_in_place<T: DomainCoeff<P>>(&self, evals: &mut Vec<T>)
        requires
            self.wf(),
            old(evals)@.len() <= self.size,
            self.size <= usize::MAX as u64,
            all_wfc::<P, T>(old(evals)@),
        ensures
            final(evals)@ == distribute_spec::<P, T>(
                ifft_spec::<P, T>(
                    self.group_gen_inv@,
                    self.size_inv@,
                    zero_pad::<P, T>(old(evals)@, self.size as nat),
                ),
                self.coset_shift_inv@,
                1,
            ),
            all_wfc::<P, T>(final(evals)@),
    {
        let r = self.coset_ifft(evals);
        *evals = r;
    }

    /// An element-for-element copy.
    fn copy_coeffs<T: DomainCoeff<P>>(&self, coeffs: &Vec<T>) -> (r: Vec<T>)
        ensures
            r@ == coeffs@,
    {
        let n = coeffs.len();
        let mut out: Vec<T> = Vec::new();
        let mut i: usize = 0;
        while i < n
            invariant
                n == coeffs@.len(),
                i <= n,
                out@.len() == i,
                forall|j: int| 0 <= j < i ==> #[trigger] out@[j] == coeffs@[j],
            decreases n - i,
        {
            out.push(coeffs[i]);
            i = i + 1;
        }
        proof {
            assert(out@ =~= coeffs@);
        }
        out
    }
}

/// Where an embedded subdomain's indices land in the larger domain:
/// subdomain indices spread `period = size/other` apart, the rest bucketed
/// between them.
pub open spec fn reindex_spec(size: int, other_size: int, index: int) -> int {
    let period = size / other_size;
    if index < other_size {
        index * period
    } else {
        let i = index - other_size;
        let x = period - 1;
        i + i / x + 1
    }
}

/// A power of two at most another power of two divides it; stated here in
/// the weaker order form needed for minimality of the search loop.
pub proof fn lemma_is_pow2_le(a: nat, b: nat)
    requires
        is_pow2(a),
        is_pow2(b),
        a > b,
    ensures
        a > 2 * b || a == 2 * b,
    decreases a,
{
    if b >= 2 {
        lemma_is_pow2_le(a / 2, b / 2);
    } else {
        // b == 1, a >= 2 and a is a power of two
        if a == 2 {
        } else {
            lemma_is_pow2_le(a / 2, 1);
        }
    }
}

impl<const P: u64> EvaluationDomain<P> {
    /// Every Lagrange-basis value at `tau`, in O(size) through the closed
    /// form for subgroup domains. On a domain element the basis reads off
    /// the matching coordinate; off the domain each value is
    /// `Z(tau) / (n * (tau - g^i))`, rearranged as
    /// `(Z(tau)/n) * g^i / (tau - g^i)`.
    pub fn evaluate_all_lagrange_coefficients(&self, tau: Fp<P>) -> (r: Vec<Fp<P>>)
        requires
            self.wf(),
            tau.wf(),
            field_ok(P as int),
            self.size <= usize::MAX as u64,
        ensures
            r@.len() == self.size,
            forall|i: int|
                0 <= i < self.size ==> (#[trigger] r@[i]).wf() && r@[i]@ == lagrange_coeff_spec(
                    P as int,
                    self.group_gen@,
                    self.size as nat,
                    self.size_inv@,
                    tau@,
                    i,
                ),
    {
        let ghost p = P as int;
        let ghost gv = self.group_gen@;
        let n = self.size as usize;
        let zh = self.evaluate_vanishing_polynomial(tau);
        let mut out: Vec<Fp<P>> = Vec::new();
        if zh.is_zero() {
            // tau is a domain element: the basis is 1 there, 0 elsewhere.
            let mut found = false;
            let ghost mut found_idx: int = 0;
            let mut w: Fp<P> = Fp::one();
            proof {
                lemma_small_mod(1nat, P as nat);
                vstd::arithmetic::power::lemma_pow0(gv);
            }
            let mut i: usize = 0;
            while i < n
                invariant
                    self.wf(),
                    tau.wf(),
                    p == P as int,
                    gv == self.group_gen@,
                    n == self.size,
                    eval_vanishing(p, self.size as nat, tau@) == 0,
                    i <= n,
                    out@.len() == i,
                    w.wf(),
                    w@ == fpow(p, gv, i as nat),
                    found ==> 0 <= found_idx < i && fpow(p, gv, found_idx as nat) == tau@,
                    !found ==> (forall|k: int|
                        0 <= k < i ==> #[trigger] fpow(p, gv, k as nat) != tau@),
                    forall|j: int|
                        0 <= j < i ==> (#[trigger] out@[j]).wf() && out@[j]@
                            == lagrange_coeff_spec(p, gv, self.size as nat, self.size_inv@, tau@, j),
                decreases n - i,
            {
                let ghost wi = w@;
                let ghost f0 = found;
                if !found && w.v == tau.v {
                    out.push(Fp::one());
                    found = true;
                    proof {
                        found_idx = i as int;
                    }
                } else {
                    out.push(Fp::zero());
                }
                proof {
                    assert(wi == fpow(p, gv, i as nat));
                    assert(fpow(p, gv, (i as int) as nat) == wi);
                    if !f0 && wi != tau@ {
                        assert forall|k: int| 0 <= k < i + 1 implies #[trigger] fpow(
                            p,
                            gv,
                            k as nat,
                        ) != tau@ by {
                            if k == i {
                                assert(fpow(p, gv, k as nat) == wi);
                            }
                        };
                    }
                    if f0 {
                        // the earlier match refutes "no match before i"
                        assert(fpow(p, gv, found_idx as nat) == tau@);
                        assert(!(forall|k: int|
                            0 <= k < i ==> #[trigger] fpow(p, gv, k as nat) != tau@));
                        assert(out@[i as int]@ == lagrange_coeff_spec(
                            p,
                            gv,
                            self.size as nat,
                            self.size_inv@,
                            tau@,
                            i as int,
                        ));
                    }
                    lemma_pow_adds(gv, i as nat, 1nat);
                    lemma_pow1(gv);
                    lemma_mul_mod_noop_left(pow(gv, i as nat), gv, P as int);
                }
                w = w.mul(self.group_gen);
                i = i + 1;
            }
            out
        } else {
            // Z(tau)/n, then one short product per element.
            let zh_ninv = zh.mul(self.size_inv);
            let mut w: Fp<P> = Fp::one();
            proof {
                lemma_small_mod(1nat, P as nat);
                vstd::arithmetic::power::lemma_pow0(gv);
            }
            let mut i: usize = 0;
            while i < n
                invariant
                    self.wf(),
                    tau.wf(),
                    field_ok(p),
                    p == P as int,
                    gv == self.group_gen@,
                    n == self.size,
                    eval_vanishing(p, self.size as nat, tau@) != 0,
                    zh_ninv.wf(),
                    zh_ninv@ == fmul(
                        p,
                        eval_vanishing(p, self.size as nat, tau@),
                        self.size_inv@,
                    ),
                    i <= n,
                    out@.len() == i,
                    w.wf(),
                    w@ == fpow(p, gv, i as nat),
                    forall|j: int|
                        0 <= j < i ==> (#[trigger] out@[j]).wf() && out@[j]@
                            == lagrange_coeff_spec(p, gv, self.size as nat, self.size_inv@, tau@, j),
                decreases n - i,
            {
                let denom = tau.sub(w);
                proof {
                    if denom@ == 0 {
                        // tau would be the i-th domain element, where Z vanishes
                        vstd::arithmetic::div_mod::lemma_mod_equivalence(tau@, w@, p);
                        lemma_small_mod(tau.v as nat, P as nat);
                        lemma_small_mod(w.v as nat, P as nat);
                        assert(tau@ == w@);
                        lemma_domain_element_vanishes(p, gv, self.size as nat, i as nat);
                        assert(false);
                    }
                    assert(invertible(p, denom@));
                }
                let dinv = match denom.inverse() {
                    Some(d) => d,
                    None => vstd::pervasive::unreached(),
                };
                out.push(zh_ninv.mul(w).mul(dinv));
                proof {
                    lemma_pow_adds(gv, i as nat, 1nat);
                    lemma_pow1(gv);
                    lemma_mul_mod_noop_left(pow(gv, i as nat), gv, P as int);
                }
                w = w.mul(self.group_gen);
                i = i + 1;
            }
            out
        }
    }

    /// Divide the coset evaluations by the vanishing polynomial, which is
    /// the same nonzero constant on the whole coset: one inversion, then a
    /// scaling pass.
    pub fn divide_by_vanishing_poly_on_coset_in_place(&self, evals: &mut Vec<Fp<P>>)
        requires
            self.wf(),
            field_ok(P as int),
            forall|i: int| 0 <= i < old(evals)@.len() ==> (#[trigger] old(evals)@[i]).wf(),
        ensures
            final(evals)@.len() == old(evals)@.len(),
            forall|i: int|
                0 <= i < old(evals)@.len() ==> (#[trigger] final(evals)@[i]).wf()
                    && final(evals)@[i]@ == fmul(
                    P as int,
                    old(evals)@[i]@,
                    finv(
                        P as int,
                        eval_vanishing(P as int, self.size as nat, self.coset_shift@),
                    ),
                ),
    {
        let ghost p = P as int;
        let zval = self.evaluate_vanishing_polynomial(self.coset_shift);
        proof {
            // the shift lies outside the domain, so Z(shift) is nonzero
            if zval@ == 0 {
                let fp_ = fpow(p, self.coset_shift@, self.size as nat);
                lemma_mod_bound(pow(self.coset_shift@, self.size as nat), p);
                lemma_small_mod(fp_ as nat, p as nat);
                lemma_small_mod(1nat, P as nat);
                vstd::arithmetic::div_mod::lemma_mod_equivalence(fp_, 1, p);
                assert(false);
            }
            assert(invertible(p, zval@));
        }
        let zinv = match zval.inverse() {
            Some(w) => w,
            None => vstd::pervasive::unreached(),
        };
        proof {
            crate::fp::lemma_finv_is(p, zval@, zinv@);
        }
        let n = evals.len();
        let mut i: usize = 0;
        while i < n
            invariant
                self.wf(),
                p == P as int,
                n == evals@.len(),
                evals@.len() == old(evals)@.len(),
                zinv.wf(),
                zinv@ == finv(p, eval_vanishing(p, self.size as nat, self.coset_shift@)),
                i <= n,
                forall|j: int| i <= j < n ==> evals@[j] == old(evals)@[j],
                forall|j: int| 0 <= j < n ==> (#[trigger] old(evals)@[j]).wf(),
                forall|j: int|
                    0 <= j < i ==> (#[trigger] evals@[j]).wf() && evals@[j]@ == fmul(
                        p,
                        old(evals)@[j]@,
                        finv(p, eval_vanishing(p, self.size as nat, self.coset_shift@)),
                    ),
            decreases n - i,
        {
            let cur = evals[i];
            evals[i] = cur.mul(zinv);
            i = i + 1;
        }
    }
}

/// The `i`-th Lagrange-basis value at `tau`. On a domain element the basis
/// is the indicator of the first matching index; elsewhere it is
/// `(Z(tau)/n) * g^i / (tau - g^i)`.
pub open spec fn lagrange_coeff_spec(p: int, g: int, n: nat, ninv: int, tau: int, i: int) -> int {
    if eval_vanishing(p, n, tau) == 0 {
        if fpow(p, g, i as nat) == tau && (forall|k: int|
            0 <= k < i ==> #[trigger] fpow(p, g, k as nat) != tau) {
            1
        } else {
            0
        }
    } else {
        let zh_ninv = fmul(p, eval_vanishing(p, n, tau), ninv);
        fmul(p, fmul(p, zh_ninv, fpow(p, g, i as nat)), finv(p, fsub(p, tau, fpow(p, g, i as nat))))
    }
}

} // verus!
