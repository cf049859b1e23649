//! Group-law behaviour on small concrete curves.

use swcurve_fft::curve::{GroupAffine, Parameters, GroupProjective};
use swcurve_fft::fp::Fp;

/// y^2 = x^3 + 2 over F_13: 19 points, prime order, cofactor 1.
fn params_a() -> Parameters<13> {
    Parameters {
        coeff_a: Fp::new(0),
        coeff_b: Fp::new(2),
        cofactor: vec![1],
        cofactor_inv: vec![1],
        generator_x: Fp::new(1),
        generator_y: Fp::new(4),
        scalar_field_order: vec![19],
    }
}

/// y^2 = x^3 + x + 6 over F_17: 20 points, subgroup of order 5, cofactor 4.
fn params_b() -> Parameters<17> {
    Parameters {
        coeff_a: Fp::new(1),
        coeff_b: Fp::new(6),
        cofactor: vec![4],
        cofactor_inv: vec![4],
        generator_x: Fp::new(1),
        generator_y: Fp::new(5),
        scalar_field_order: vec![5],
    }
}

/// y^2 = x^3 + 7 over F_17, the a = 0 toy curve.
fn params_c() -> Parameters<17> {
    Parameters {
        coeff_a: Fp::new(0),
        coeff_b: Fp::new(7),
        cofactor: vec![2],
        cofactor_inv: vec![5],
        generator_x: Fp::new(1),
        generator_y: Fp::new(5),
        scalar_field_order: vec![9],
    }
}

#[test]
fn on_curve_identity_and_points() {
    let pa = params_a();
    assert!(GroupAffine::<13>::zero().is_on_curve(&pa));
    assert!(GroupAffine::<13>::new(Fp::new(1), Fp::new(4), false).is_on_curve(&pa));
    // (1, 5): 25 = 12, but 1 + 2 = 3
    assert!(!GroupAffine::<13>::new(Fp::new(1), Fp::new(5), false).is_on_curve(&pa));
}

#[test]
fn generator_is_valid() {
    let pa = params_a();
    let g = GroupAffine::prime_subgroup_generator(&pa);
    assert!(g.is_on_curve(&pa));
    assert!(g.is_in_correct_subgroup_assuming_on_curve(&pa));
}

#[test]
fn group_axioms_on_sampled_points() {
    let pa = params_a();
    for _ in 0..8 {
        let a = swcurve_fft::rng::rand_projective(&pa, false);
        let b = swcurve_fft::rng::rand_projective(&pa, true);
        let c = swcurve_fft::rng::rand_projective(&pa, false);
        // commutativity
        assert_eq!(a.add(&b, &pa), b.add(&a, &pa));
        // associativity
        assert_eq!(a.add(&b, &pa).add(&c, &pa), a.add(&b.add(&c, &pa), &pa));
        // identity
        assert_eq!(a.add(&GroupProjective::zero(), &pa), a);
        // inverse
        assert!(a.add(&a.neg(), &pa).is_zero());
    }
}

#[test]
fn double_equals_add_self() {
    let pa = params_a();
    let g = GroupAffine::prime_subgroup_generator(&pa).into_projective();
    let mut doubled = g;
    doubled.double_in_place(&pa);
    assert_eq!(doubled, g.add(&g, &pa));
}

#[test]
fn double_cross_checked_against_generic_addition() {
    // a = 0, b = 7 over F_17 with G = (1, 5): 2G from the doubling
    // formula must equal G + G assembled as (G + H) + (G - H), which
    // only exercises the generic addition path.
    let pc = params_c();
    let g = GroupAffine::prime_subgroup_generator(&pc).into_projective();
    let h = GroupAffine::<17>::new(Fp::new(2), Fp::new(7), false);
    assert!(h.is_on_curve(&pc));
    let hp = h.into_projective();
    let mut doubled = g;
    doubled.double_in_place(&pc);
    let roundabout = g.add(&hp, &pc).add(&g.sub(&hp, &pc), &pc);
    assert_eq!(doubled, roundabout);
}

#[test]
fn scalar_order_times_generator_is_identity() {
    let pa = params_a();
    let g = GroupAffine::prime_subgroup_generator(&pa);
    assert!(g.mul(&[19], &pa).is_zero());
    assert!(!g.mul(&[5], &pa).is_zero());
}

#[test]
fn point_without_cofactor_clearing_can_fail_subgroup_check() {
    let pb = params_b();
    // (2, 4) lies on the curve but has full order 20
    let q = GroupAffine::<17>::new(Fp::new(2), Fp::new(4), false);
    assert!(q.is_on_curve(&pb));
    assert!(!q.is_in_correct_subgroup_assuming_on_curve(&pb));
    // after cofactor clearing it lands in the order-5 subgroup
    let cleared = q.scale_by_cofactor(&pb);
    let cleared_affine = cleared.into_affine();
    assert!(cleared_affine.is_in_correct_subgroup_assuming_on_curve(&pb));
}

#[test]
fn get_point_from_x_selects_canonical_root() {
    let pa = params_a();
    // x = 1: roots of 3 are 4 and 9; `greatest` picks 9
    let hi = GroupAffine::<13>::get_point_from_x(Fp::new(1), true, &pa).unwrap();
    assert_eq!(hi.y.as_u64(), 9);
    let lo = GroupAffine::<13>::get_point_from_x(Fp::new(1), false, &pa).unwrap();
    assert_eq!(lo.y.as_u64(), 4);
    // x = 7: 343 + 2 = 7 mod 13 is a non-residue
    assert!(GroupAffine::<13>::get_point_from_x(Fp::new(7), false, &pa).is_none());
}

#[test]
fn batch_normalization_matches_individual() {
    let pa = params_a();
    let g = GroupAffine::prime_subgroup_generator(&pa);
    let mut pts: Vec<GroupProjective<13>> = vec![
        g.mul(&[2], &pa),
        GroupProjective::zero(),
        g.mul(&[3], &pa),
        g.into_projective(),
        g.mul(&[7], &pa),
    ];
    let individual: Vec<GroupAffine<13>> = pts.iter().map(|p| p.into_affine()).collect();
    GroupProjective::batch_normalization(&mut pts);
    for (p, ind) in pts.iter().zip(individual.iter()) {
        assert!(p.is_normalized());
        assert_eq!(p.into_affine(), *ind);
    }
}

#[test]
fn negation_and_subtraction() {
    let pa = params_a();
    let g = GroupAffine::prime_subgroup_generator(&pa);
    let neg = g.neg();
    assert!(neg.is_on_curve(&pa));
    assert_eq!(neg.y.as_u64(), 13 - 4);
    assert!(GroupAffine::<13>::zero().neg().is_zero());
    let two_g = g.mul(&[2], &pa);
    assert_eq!(two_g.sub(&g.into_projective(), &pa), g.into_projective());
}

#[test]
fn affine_addition_and_doubling() {
    let pa = params_a();
    let g = GroupAffine::prime_subgroup_generator(&pa);
    let two_g = g.double(&pa);
    assert_eq!(two_g.into_projective(), g.mul(&[2], &pa));
    let three_g = two_g.add(&g, &pa);
    assert_eq!(three_g.into_projective(), g.mul(&[3], &pa));
    let mut acc = g;
    acc.double_in_place(&pa);
    assert_eq!(acc, two_g);
    acc.sub_assign(&g, &pa);
    assert_eq!(acc, g);
}

#[test]
fn cofactor_inverse_undoes_cofactor_in_subgroup() {
    let pb = params_b();
    let g = GroupAffine::prime_subgroup_generator(&pb);
    // G has order 5; clearing the cofactor multiplies by 4, its inverse
    // mod 5 brings G back
    let scaled = g.scale_by_cofactor(&pb).into_affine();
    let back = scaled.mul_by_cofactor_inv(&pb);
    assert_eq!(back, g);
    assert_eq!(
        g.mul_by_cofactor_to_projective(&pb).into_affine(),
        scaled
    );
}

#[test]
fn projective_equality_is_representation_free() {
    let pa = params_a();
    let g = GroupAffine::prime_subgroup_generator(&pa);
    let two_g = g.mul(&[2], &pa);
    // the same point in a different Jacobian representation
    let normalized = two_g.into_affine().into_projective();
    assert_eq!(two_g, normalized);
    assert_ne!(two_g, g.into_projective());
    assert_eq!(GroupProjective::<13>::zero(), GroupProjective::new(Fp::new(5), Fp::new(7), Fp::new(0)));
}

#[test]
fn zeroize_scrubs_coordinates() {
    let pa = params_a();
    let mut g = GroupAffine::prime_subgroup_generator(&pa);
    g.zeroize();
    assert_eq!(g.x.as_u64(), 0);
    assert_eq!(g.y.as_u64(), 0);
    let mut p = GroupProjective::<13>::new(Fp::new(3), Fp::new(5), Fp::new(2));
    p.zeroize();
    assert_eq!(p.x.as_u64(), 0);
    assert_eq!(p.y.as_u64(), 0);
    assert_eq!(p.z.as_u64(), 0);
}

#[test]
fn random_points_land_on_curve_and_in_subgroup() {
    let pb = params_b();
    for _ in 0..8 {
        let a = swcurve_fft::rng::rand_affine(&pb, false);
        assert!(a.is_on_curve(&pb));
        assert!(a.is_in_correct_subgroup_assuming_on_curve(&pb));
    }
}

#[test]
fn addition_commutes_across_representations() {
    // the same point in two Jacobian representations: the coincidence
    // check redirects both orders to doubling, and the results still
    // denote one point
    let pa = params_a();
    let g = GroupAffine::prime_subgroup_generator(&pa);
    let two_g = g.mul(&[2], &pa);
    let normalized = two_g.into_affine().into_projective();
    let other = g.mul(&[3], &pa);
    assert_eq!(two_g.add(&other, &pa), other.add(&two_g, &pa));
    assert_eq!(two_g.add(&normalized, &pa), normalized.add(&two_g, &pa));
}

#[test]
fn field_arithmetic_basics() {
    let a: Fp<13> = Fp::new(7);
    let b: Fp<13> = Fp::new(9);
    assert_eq!(a.add(b).as_u64(), 3);
    assert_eq!(a.sub(b).as_u64(), 11);
    assert_eq!(a.mul(b).as_u64(), 11);
    assert_eq!(a.neg().as_u64(), 6);
    assert_eq!(a.pow(3).as_u64(), 5);
    assert_eq!(Fp::<13>::new(5).inverse().unwrap().as_u64(), 8);
    assert!(Fp::<13>::new(0).inverse().is_none());
    // 3 has roots 4 and 9 mod 13; the smaller comes back
    assert_eq!(Fp::<13>::new(3).sqrt().unwrap().as_u64(), 4);
    assert!(Fp::<13>::new(5).sqrt().is_none());
    assert_eq!(Fp::<13>::new(29).as_u64(), 3);
}
