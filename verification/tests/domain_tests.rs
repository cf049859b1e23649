//! Evaluation-domain behaviour over F_17, which has primitive 8th roots
//! of unity.

use swcurve_fft::domain::EvaluationDomain;
use swcurve_fft::fp::Fp;

fn fp17(v: u64) -> Fp<17> {
    Fp::new(v)
}

fn vec17(vs: &[u64]) -> Vec<Fp<17>> {
    vs.iter().map(|v| fp17(*v)).collect()
}

fn as_u64s(vs: &Vec<Fp<17>>) -> Vec<u64> {
    vs.iter().map(|v| v.as_u64()).collect()
}

#[test]
fn new_picks_smallest_power_of_two() {
    let d = EvaluationDomain::<17>::new(5).unwrap();
    assert_eq!(d.size(), 8);
    let d1 = EvaluationDomain::<17>::new(0).unwrap();
    assert_eq!(d1.size(), 1);
    let d2 = EvaluationDomain::<17>::new(8).unwrap();
    assert_eq!(d2.size(), 8);
    // F_17 has no 32nd roots of unity: the multiplicative group has
    // order 16
    assert!(EvaluationDomain::<17>::new(32).is_none());
    // F_13 offers only a 4-element two-adic subgroup
    assert!(swcurve_fft::domain::EvaluationDomain::<13>::new(8).is_none());
}

#[test]
fn domain_constants_check_out() {
    let d = EvaluationDomain::<17>::new(8).unwrap();
    assert_eq!(d.size_as_field_element().as_u64(), 8);
    // the generator is a primitive 8th root of unity
    let g = d.group_gen;
    assert_eq!(g.pow(8).as_u64(), 1);
    assert_eq!(g.pow(4).as_u64(), 16);
    assert_eq!(g.mul(d.group_gen_inv).as_u64(), 1);
    assert_eq!(d.size_as_field_element().mul(d.size_inv).as_u64(), 1);
    assert_eq!(d.coset_shift.mul(d.coset_shift_inv).as_u64(), 1);
    assert_ne!(d.coset_shift.pow(8).as_u64(), 1);
}

#[test]
fn elements_are_generator_powers() {
    let d = EvaluationDomain::<17>::new(8).unwrap();
    let els = d.elements();
    assert_eq!(els.len(), 8);
    assert_eq!(els[0].as_u64(), 1);
    for i in 1..8 {
        assert_eq!(els[i], els[i - 1].mul(d.group_gen));
        assert_eq!(els[i], d.element(i as u64));
    }
}

#[test]
fn fft_of_unit_impulse_is_all_ones() {
    let d = EvaluationDomain::<17>::new(8).unwrap();
    let coeffs = vec17(&[1, 0, 0, 0, 0, 0, 0, 0]);
    let evals = d.fft(&coeffs);
    assert_eq!(as_u64s(&evals), vec![1, 1, 1, 1, 1, 1, 1, 1]);
}

#[test]
fn fft_evaluates_the_polynomial() {
    let d = EvaluationDomain::<17>::new(8).unwrap();
    // f(x) = 3 + 2x: evaluations must be 3 + 2*g^i
    let coeffs = vec17(&[3, 2]);
    let evals = d.fft(&coeffs);
    let els = d.elements();
    for i in 0..8 {
        let expect = fp17(3).add(fp17(2).mul(els[i]));
        assert_eq!(evals[i], expect);
    }
}

#[test]
fn ifft_inverts_fft() {
    let d = EvaluationDomain::<17>::new(8).unwrap();
    let coeffs = vec17(&[3, 1, 4, 1, 5]);
    let evals = d.fft(&coeffs);
    let back = d.ifft(&evals);
    assert_eq!(as_u64s(&back), vec![3, 1, 4, 1, 5, 0, 0, 0]);
    // and in place
    let mut v = coeffs.clone();
    d.fft_in_place(&mut v);
    d.ifft_in_place(&mut v);
    assert_eq!(as_u64s(&v), vec![3, 1, 4, 1, 5, 0, 0, 0]);
}

#[test]
fn coset_ifft_inverts_coset_fft() {
    let d = EvaluationDomain::<17>::new(8).unwrap();
    let coeffs = vec17(&[7, 0, 2, 9, 1, 1, 3, 8]);
    let evals = d.coset_fft(&coeffs);
    let back = d.coset_ifft(&evals);
    assert_eq!(as_u64s(&back), as_u64s(&coeffs));
    let mut v = coeffs.clone();
    d.coset_fft_in_place(&mut v);
    d.coset_ifft_in_place(&mut v);
    assert_eq!(as_u64s(&v), as_u64s(&coeffs));
}

#[test]
fn coset_and_plain_evaluations_differ() {
    let d = EvaluationDomain::<17>::new(8).unwrap();
    let coeffs = vec17(&[1, 1, 0, 0, 0, 0, 0, 0]);
    assert_ne!(as_u64s(&d.coset_fft(&coeffs)), as_u64s(&d.fft(&coeffs)));
}

#[test]
fn distribute_powers_scales_by_powers() {
    let d = EvaluationDomain::<17>::new(8).unwrap();
    let g = d.group_gen;
    let mut v = vec17(&[5, 5, 5]);
    EvaluationDomain::<17>::distribute_powers_and_mul_by_const(&mut v, g, fp17(3));
    let expect = vec![
        fp17(5).mul(fp17(3)),
        fp17(5).mul(fp17(3).mul(g)),
        fp17(5).mul(fp17(3).mul(g).mul(g)),
    ];
    assert_eq!(v, expect);
    let mut w = vec17(&[1, 1, 1, 1]);
    EvaluationDomain::<17>::distribute_powers(&mut w, g);
    assert_eq!(as_u64s(&w), vec![1, 2, 4, 8]);
}

#[test]
fn vanishing_polynomial_is_zero_exactly_on_the_domain() {
    let d = EvaluationDomain::<17>::new(8).unwrap();
    for e in d.elements() {
        assert_eq!(d.evaluate_vanishing_polynomial(e).as_u64(), 0);
    }
    // the coset shift is outside the domain
    assert_ne!(d.evaluate_vanishing_polynomial(d.coset_shift).as_u64(), 0);
    let sparse = d.vanishing_polynomial();
    assert_eq!(sparse.len(), 2);
    assert_eq!(sparse[0].0, 0);
    assert_eq!(sparse[0].1.as_u64(), 16);
    assert_eq!(sparse[1].0, 8);
    assert_eq!(sparse[1].1.as_u64(), 1);
}

#[test]
fn sampled_element_is_outside_the_domain() {
    let d = EvaluationDomain::<17>::new(8).unwrap();
    for public in [false, true] {
        let t = d.sample_element_outside_domain(public);
        assert_ne!(d.evaluate_vanishing_polynomial(t).as_u64(), 0);
    }
}

#[test]
fn lagrange_coefficients_interpolate() {
    let d = EvaluationDomain::<17>::new(8).unwrap();
    let tau = d.sample_element_outside_domain(false);
    let ls = d.evaluate_all_lagrange_coefficients(tau);
    assert_eq!(ls.len(), 8);
    // f(x) = 4 + 3x + x^2 evaluated through the basis equals f(tau)
    let coeffs = vec17(&[4, 3, 1]);
    let evals = d.fft(&coeffs);
    let mut acc = fp17(0);
    for i in 0..8 {
        acc = acc.add(ls[i].mul(evals[i]));
    }
    let direct = fp17(4).add(fp17(3).mul(tau)).add(tau.mul(tau));
    assert_eq!(acc, direct);
}

#[test]
fn lagrange_coefficients_on_a_domain_element_are_an_indicator() {
    let d = EvaluationDomain::<17>::new(8).unwrap();
    let tau = d.element(3);
    let ls = d.evaluate_all_lagrange_coefficients(tau);
    for i in 0..8 {
        assert_eq!(ls[i].as_u64(), if i == 3 { 1 } else { 0 });
    }
}

#[test]
fn divide_by_vanishing_poly_on_coset_scales_by_its_inverse() {
    let d = EvaluationDomain::<17>::new(8).unwrap();
    let original = vec17(&[1, 2, 3]);
    let mut v = original.clone();
    d.divide_by_vanishing_poly_on_coset_in_place(&mut v);
    let z = d.evaluate_vanishing_polynomial(d.coset_shift);
    for i in 0..3 {
        assert_eq!(v[i].mul(z), original[i]);
    }
}

#[test]
fn reindex_by_subdomain_spreads_and_buckets() {
    let big = EvaluationDomain::<17>::new(8).unwrap();
    let small = EvaluationDomain::<17>::new(2).unwrap();
    // the embedding is a genuine subgroup relation: the small generator is
    // the big one raised to the size ratio
    assert_eq!(big.group_gen.pow(4), small.group_gen);
    // subdomain indices land period = 4 apart
    assert_eq!(big.reindex_by_subdomain(&small, 0), 0);
    assert_eq!(big.reindex_by_subdomain(&small, 1), 4);
    // and the mapped index names the same field element
    for i in 0..2u64 {
        let mapped = big.reindex_by_subdomain(&small, i);
        assert_eq!(big.element(mapped), small.element(i));
    }
    // remaining indices bucket between them
    assert_eq!(big.reindex_by_subdomain(&small, 2), 1);
    assert_eq!(big.reindex_by_subdomain(&small, 3), 2);
    assert_eq!(big.reindex_by_subdomain(&small, 4), 3);
    assert_eq!(big.reindex_by_subdomain(&small, 5), 5);
    assert_eq!(big.reindex_by_subdomain(&small, 6), 6);
    assert_eq!(big.reindex_by_subdomain(&small, 7), 7);
}

#[test]
fn pointwise_polynomial_multiplication() {
    let d = EvaluationDomain::<17>::new(4).unwrap();
    let a = vec17(&[2, 3, 4, 5]);
    let b = vec17(&[6, 7, 8, 9]);
    let r = d.mul_polynomials_in_evaluation_domain(&a, &b);
    assert_eq!(as_u64s(&r), vec![12, 4, 15, 11]);
    // multiplying in the evaluation domain matches multiplying the
    // polynomials when the domain is large enough
    let d8 = EvaluationDomain::<17>::new(8).unwrap();
    let p1 = vec17(&[1, 2]);
    let p2 = vec17(&[3, 4]);
    let e1 = d8.fft(&p1);
    let e2 = d8.fft(&p2);
    let prod = d8.mul_polynomials_in_evaluation_domain(&e1, &e2);
    let back = d8.ifft(&prod);
    // (1 + 2x)(3 + 4x) = 3 + 10x + 8x^2
    assert_eq!(as_u64s(&back), vec![3, 10, 8, 0, 0, 0, 0, 0]);
}
