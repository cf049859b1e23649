//! Random sampling: field elements outside a domain, and curve points.
//!
//! All randomness comes from the process's generator through one specified
//! entry point; nothing is assumed of any outcome, so every contract here
//! holds whatever the generator returns. Callers running a multi-party
//! protocol distinguish draws from a publicly verifiable source; this
//! library has a single local source, and the flag only records the
//! caller's intent.

use vstd::prelude::*;

verus! {

use crate::curve::{
    mul_bits_spec, be_bits, has_root, on_curve, sw_rhs, GroupAffine, Parameters, GroupProjective,
};
use crate::domain::{eval_vanishing, EvaluationDomain};
use crate::fp::{modulus_ok, Fp};
use vstd::arithmetic::div_mod::{lemma_mod_add_multiples_vanish, lemma_small_mod};

/// Relies on rand::random: a value of the type from the thread's
/// generator. Nothing is assumed of the outcome — two calls may differ —
/// so every caller must hold for every value.
pub assume_specification<T>[ rand::random::<T> ]() -> (r: T)
    where
        rand::distributions::Standard: rand::distributions::Distribution<T>,
;

/// One raw draw. `public_source` marks draws a multi-party protocol would
/// take from its publicly verifiable source; both intents are served by
/// the one process-local generator here, and nothing is assumed of the
/// word either way.
fn random_word(public_source: bool) -> (r: u64) {
    if public_source {
        rand::random::<u64>()
    } else {
        rand::random::<u64>()
    }
}

/// A uniformly reduced random field element.
pub fn rand_fp<const P: u64>(public_source: bool) -> (r: Fp<P>)
    requires
        modulus_ok(P as int),
    ensures
        r.wf(),
{
    Fp::new(random_word(public_source))
}

impl<const P: u64> EvaluationDomain<P> {
    /// Draw a field element that is not in the domain: rejection-sample
    /// against the vanishing polynomial, falling back to zero — always
    /// outside a multiplicative subgroup — after a bounded number of draws.
    pub fn sample_element_outside_domain(&self, public_source: bool) -> (r: Fp<P>)
        requires
            self.wf(),
        ensures
            r.wf(),
            eval_vanishing(P as int, self.size as nat, r@) != 0,
    {
        let mut tries: u64 = 0;
        while tries < 64
            invariant
                self.wf(),
            decreases 64 - tries,
        {
            let t = rand_fp::<P>(public_source);
            let z = self.evaluate_vanishing_polynomial(t);
            if !z.is_zero() {
                return t;
            }
            tries = tries + 1;
        }
        proof {
            // 0^size = 0, so the vanishing polynomial is -1 at zero
            vstd::arithmetic::power::lemma0_pow(self.size as nat);
            lemma_mod_self_0_int(P as int);
            lemma_mod_add_multiples_vanish(-1, P as int);
            lemma_small_mod((P - 1) as nat, P as nat);
        }
        Fp::zero()
    }
}

/// `0 % p == 0` for a positive modulus, in the form the sampler needs.
proof fn lemma_mod_self_0_int(p: int)
    requires
        p >= 2,
    ensures
        0int % p == 0,
{
    lemma_small_mod(0nat, p as nat);
}

/// Sample a random affine point: draw an x-coordinate and a sign until the
/// curve equation has a root, then clear the cofactor and normalise. The
/// result is on the curve and in the image of cofactor multiplication;
/// whenever the curve has any affine point at all, the base point found is
/// a finite one.
pub fn rand_affine<const P: u64>(params: &Parameters<P>, public_source: bool) -> (r: GroupAffine<P>)
    requires
        params.wf(),
        crate::fp::field_ok(P as int),
    ensures
        r.wf(),
        exists|q: (int, int, bool)|
            #[trigger] on_curve(P as int, params.coeff_a@, params.coeff_b@, q) && r@
                == crate::curve::proj_to_affine(
                P as int,
                mul_bits_spec(P as int, params.coeff_a@, be_bits(params.cofactor@), q),
            ),
        (exists|x: int|
            0 <= x < P as int && #[trigger] has_root(
                P as int,
                sw_rhs(P as int, params.coeff_a@, params.coeff_b@, x),
            )) ==> (exists|q: (int, int, bool)|
            !q.2 && #[trigger] on_curve(P as int, params.coeff_a@, params.coeff_b@, q) && r@
                == crate::curve::proj_to_affine(
                P as int,
                mul_bits_spec(P as int, params.coeff_a@, be_bits(params.cofactor@), q),
            )),
{
    let ghost p = P as int;
    let ghost ca = params.coeff_a@;
    let ghost cb = params.coeff_b@;
    let pr = rand_projective(params, public_source);
    proof {
        if pr@.2 != 0 {
            assert(crate::fp::invertible(P as int, pr@.2));
        }
    }
    let r = pr.into_affine();
    proof {
        if exists|x: int| 0 <= x < p && #[trigger] has_root(p, sw_rhs(p, ca, cb, x)) {
            let q = choose|q: (int, int, bool)|
                !q.2 && #[trigger] on_curve(p, ca, cb, q) && pr@ == mul_bits_spec(
                    p,
                    ca,
                    be_bits(params.cofactor@),
                    q,
                );
            assert(!q.2 && on_curve(p, ca, cb, q) && r@ == crate::curve::proj_to_affine(
                p,
                mul_bits_spec(p, ca, be_bits(params.cofactor@), q),
            ));
        }
    }
    r
}

/// Sample a random projective point, by the same construction. Whenever
/// the curve has any affine point, the base point found is a finite one:
/// the bounded random draws are followed by a complete scan of the x-line,
/// and only a curve with no affine point at all falls back to the
/// identity.
pub fn rand_projective<const P: u64>(params: &Parameters<P>, public_source: bool) -> (r:
    GroupProjective<P>)
    requires
        params.wf(),
        modulus_ok(P as int),
    ensures
        r.wf(),
        exists|q: (int, int, bool)|
            #[trigger] on_curve(P as int, params.coeff_a@, params.coeff_b@, q) && r@
                == mul_bits_spec(P as int, params.coeff_a@, be_bits(params.cofactor@), q),
        (exists|x: int|
            0 <= x < P as int && #[trigger] has_root(
                P as int,
                sw_rhs(P as int, params.coeff_a@, params.coeff_b@, x),
            )) ==> (exists|q: (int, int, bool)|
            !q.2 && #[trigger] on_curve(P as int, params.coeff_a@, params.coeff_b@, q) && r@
                == mul_bits_spec(P as int, params.coeff_a@, be_bits(params.cofactor@), q)),
{
    let ghost p = P as int;
    let ghost ca = params.coeff_a@;
    let ghost cb = params.coeff_b@;
    let mut tries: u64 = 0;
    while tries < 128
        invariant
            params.wf(),
            modulus_ok(P as int),
            p == P as int,
            ca == params.coeff_a@,
            cb == params.coeff_b@,
        decreases 128 - tries,
    {
        let x = rand_fp::<P>(public_source);
        let greatest = random_word(public_source) & 1 == 1;
        match GroupAffine::get_point_from_x(x, greatest, params) {
            Some(pt) => {
                let r = pt.scale_by_cofactor(params);
                proof {
                    assert(!pt@.2 && on_curve(p, ca, cb, pt@) && r@ == mul_bits_spec(
                        p,
                        ca,
                        be_bits(params.cofactor@),
                        pt@,
                    ));
                }
                return r;
            },
            None => {},
        }
        tries = tries + 1;
    }
    // The draws were unlucky: scan the x-line once. The scan is complete,
    // so reaching its end proves the curve has no affine point and the
    // identity is the only value left to return.
    let mut xw: u64 = 0;
    while xw < P
        invariant
            params.wf(),
            modulus_ok(P as int),
            p == P as int,
            ca == params.coeff_a@,
            cb == params.coeff_b@,
            xw <= P,
            forall|x: int| 0 <= x < xw ==> !#[trigger] has_root(p, sw_rhs(p, ca, cb, x)),
        decreases P - xw,
    {
        match GroupAffine::get_point_from_x(Fp { v: xw }, false, params) {
            Some(pt) => {
                let r = pt.scale_by_cofactor(params);
                proof {
                    assert(!pt@.2 && on_curve(p, ca, cb, pt@) && r@ == mul_bits_spec(
                        p,
                        ca,
                        be_bits(params.cofactor@),
                        pt@,
                    ));
                }
                return r;
            },
            None => {},
        }
        xw = xw + 1;
    }
    proof {
        let q: (int, int, bool) = (0, 1, true);
        assert(on_curve(P as int, params.coeff_a@, params.coeff_b@, q));
        assert(mul_bits_spec(P as int, params.coeff_a@, be_bits(params.cofactor@), q)
            == crate::curve::proj_zero()) by {
            crate::curve::lemma_mul_bits_of_identity(
                P as int,
                params.coeff_a@,
                be_bits(params.cofactor@),
                q,
            );
        };
        assert(!(exists|x: int| 0 <= x < p && #[trigger] has_root(p, sw_rhs(p, ca, cb, x))));
    }
    GroupProjective::zero()
}


} // verus!
