//! Encoding round trips and every decode rejection.

use swcurve_fft::curve::{GroupAffine, Parameters, GroupProjective};
use swcurve_fft::fp::Fp;
use swcurve_fft::serial::{SerializationError, FLAG_INFINITY, FLAG_NEGATIVE, FLAG_POSITIVE};

/// y^2 = x^3 + 2 over F_13: 19 points, prime order, cofactor 1.
fn params_a() -> Parameters<13> {
    Parameters {
        coeff_a: Fp::new(0),
        coeff_b: Fp::new(2),
        cofactor: vec![1],
        cofactor_inv: vec![1],
        generator_x: Fp::new(1),
        generator_y: Fp::new(4),
        scalar_field_order: vec![19],
    }
}

/// y^2 = x^3 + x + 6 over F_17: 20 points, subgroup of order 5.
fn params_b() -> Parameters<17> {
    Parameters {
        coeff_a: Fp::new(1),
        coeff_b: Fp::new(6),
        cofactor: vec![4],
        cofactor_inv: vec![4],
        generator_x: Fp::new(1),
        generator_y: Fp::new(5),
        scalar_field_order: vec![5],
    }
}

#[test]
fn compressed_round_trip_all_points() {
    let pa = params_a();
    let g = GroupAffine::prime_subgroup_generator(&pa);
    for k in 1..19u64 {
        let p = g.mul(&[k], &pa).into_affine();
        let bytes = p.serialize();
        assert_eq!(bytes.len(), 9);
        let back = GroupAffine::<13>::deserialize(&bytes, &pa).unwrap();
        assert_eq!(back, p);
    }
}

#[test]
fn compressed_round_trip_identity() {
    let pa = params_a();
    let z = GroupAffine::<13>::zero();
    let bytes = z.serialize();
    assert_eq!(bytes[8], FLAG_INFINITY);
    let back = GroupAffine::<13>::deserialize(&bytes, &pa).unwrap();
    assert!(back.is_zero());
}

#[test]
fn uncompressed_round_trip_all_points() {
    let pa = params_a();
    let g = GroupAffine::prime_subgroup_generator(&pa);
    for k in 1..19u64 {
        let p = g.mul(&[k], &pa).into_affine();
        let bytes = p.serialize_uncompressed();
        assert_eq!(bytes.len(), 17);
        let back = GroupAffine::<13>::deserialize_uncompressed(&bytes, &pa).unwrap();
        assert_eq!(back, p);
        let unchecked = GroupAffine::<13>::deserialize_unchecked(&bytes).unwrap();
        assert_eq!(unchecked, p);
    }
    let z = GroupAffine::<13>::zero();
    let back = GroupAffine::<13>::deserialize_uncompressed(&z.serialize_uncompressed(), &pa).unwrap();
    assert!(back.is_zero());
}

#[test]
fn projective_serialization_goes_through_affine() {
    let pa = params_a();
    let g = GroupAffine::prime_subgroup_generator(&pa);
    let two_g = g.mul(&[2], &pa);
    let bytes = two_g.serialize();
    assert_eq!(bytes, two_g.into_affine().serialize());
    let back = GroupProjective::<13>::deserialize(&bytes, &pa).unwrap();
    assert_eq!(back, two_g);
    let ubytes = two_g.serialize_uncompressed();
    let uback = GroupProjective::<13>::deserialize_uncompressed(&ubytes, &pa).unwrap();
    assert_eq!(uback, two_g);
    assert_eq!(two_g.serialized_size(), 9);
    assert_eq!(two_g.uncompressed_size(), 17);
}

#[test]
fn decode_rejects_bad_length() {
    let pa = params_a();
    assert_eq!(
        GroupAffine::<13>::deserialize(&[0u8; 8], &pa),
        Err(SerializationError::InvalidData)
    );
    assert_eq!(
        GroupAffine::<13>::deserialize_uncompressed(&[0u8; 16], &pa),
        Err(SerializationError::InvalidData)
    );
}

#[test]
fn decode_rejects_unknown_flag() {
    let pa = params_a();
    let mut bytes = GroupAffine::prime_subgroup_generator(&pa).serialize();
    bytes[8] = 7;
    assert_eq!(
        GroupAffine::<13>::deserialize(&bytes, &pa),
        Err(SerializationError::InvalidData)
    );
}

#[test]
fn decode_rejects_non_canonical_residue() {
    let pa = params_a();
    let mut bytes = vec![0u8; 9];
    bytes[0] = 13;  // equal to the modulus: not canonical
    bytes[8] = FLAG_POSITIVE;
    assert_eq!(
        GroupAffine::<13>::deserialize(&bytes, &pa),
        Err(SerializationError::InvalidData)
    );
}

#[test]
fn decode_rejects_infinity_flag_with_nonzero_x() {
    let pa = params_a();
    let mut bytes = vec![0u8; 9];
    bytes[0] = 1;
    bytes[8] = FLAG_INFINITY;
    assert_eq!(
        GroupAffine::<13>::deserialize(&bytes, &pa),
        Err(SerializationError::InvalidData)
    );
}

#[test]
fn decode_rejects_x_without_root() {
    let pa = params_a();
    // 7^3 + 2 = 7 mod 13 is a quadratic non-residue
    let mut bytes = vec![0u8; 9];
    bytes[0] = 7;
    bytes[8] = FLAG_NEGATIVE;
    assert_eq!(
        GroupAffine::<13>::deserialize(&bytes, &pa),
        Err(SerializationError::InvalidData)
    );
}

#[test]
fn decode_rejects_point_outside_subgroup() {
    let pb = params_b();
    // (2, 4) is on the curve but of full order 20
    let q = GroupAffine::<17>::new(Fp::new(2), Fp::new(4), false);
    assert!(q.is_on_curve(&pb));
    let bytes = q.serialize();
    assert_eq!(
        GroupAffine::<17>::deserialize(&bytes, &pb),
        Err(SerializationError::InvalidData)
    );
    let ubytes = q.serialize_uncompressed();
    assert_eq!(
        GroupAffine::<17>::deserialize_uncompressed(&ubytes, &pb),
        Err(SerializationError::InvalidData)
    );
    // the unchecked path takes the same bytes without complaint
    assert_eq!(GroupAffine::<17>::deserialize_unchecked(&ubytes).unwrap(), q);
}

#[test]
fn from_random_bytes_parses_points_and_rejects_junk() {
    let pa = params_a();
    let g = GroupAffine::prime_subgroup_generator(&pa);
    let bytes = g.serialize();
    let parsed = GroupAffine::<13>::from_random_bytes(&bytes, &pa).unwrap();
    assert_eq!(parsed, g);
    // trailing bytes beyond the leading 9 are ignored
    let mut longer = bytes.clone();
    longer.push(99);
    assert_eq!(GroupAffine::<13>::from_random_bytes(&longer, &pa).unwrap(), g);
    // the identity parses from the zero residue with the infinity flag
    let mut zero = vec![0u8; 9];
    zero[8] = FLAG_INFINITY;
    assert!(GroupAffine::<13>::from_random_bytes(&zero, &pa).unwrap().is_zero());
    // a rootless x is rejected: 7^3 + 2 = 7 mod 13 is a non-residue
    let mut rootless = vec![0u8; 9];
    rootless[0] = 7;
    rootless[8] = FLAG_POSITIVE;
    assert!(GroupAffine::<13>::from_random_bytes(&rootless, &pa).is_none());
    // non-canonical residue
    let mut bad = vec![0u8; 9];
    bad[0] = 200;
    assert!(GroupAffine::<13>::from_random_bytes(&bad, &pa).is_none());
    // too short
    assert!(GroupAffine::<13>::from_random_bytes(&[1u8, 2, 3], &pa).is_none());
    // infinity flag with nonzero residue
    let mut inf = vec![0u8; 9];
    inf[0] = 1;
    inf[8] = FLAG_INFINITY;
    assert!(GroupAffine::<13>::from_random_bytes(&inf, &pa).is_none());
}

#[test]
fn to_field_elements_flattens_the_point() {
    let pa = params_a();
    let g = GroupAffine::prime_subgroup_generator(&pa);
    let fe = g.to_field_elements().unwrap();
    assert_eq!(fe.len(), 3);
    assert_eq!(fe[0].as_u64(), 1);
    assert_eq!(fe[1].as_u64(), 4);
    assert_eq!(fe[2].as_u64(), 0);
    let z = GroupAffine::<13>::zero().to_field_elements().unwrap();
    assert_eq!(z[2].as_u64(), 1);
    let gp = g.mul(&[2], &pa);
    let fp = gp.to_field_elements().unwrap();
    assert_eq!(fp, gp.into_affine().to_field_elements().unwrap());
}
