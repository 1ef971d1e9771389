use num_bigint::BigUint;
use num_traits::Zero;
use rand::{thread_rng, Rng};
use rq_math::context::Context;
use rq_math::convert::TryConvertFrom;
use rq_math::error::Error;
use rq_math::poly::{Poly, Representation};
use rq_math::wire::{RqRecord, WireRepresentation};
use std::rc::Rc;

// Moduli to be used in tests.
const MODULI: &[u64; 3] = &[1153, 4611686018326724609, 4611686018309947393];

fn is_zero_of(p: &Result<Poly, Error>, ctx: &Rc<Context>, representation: Representation) -> bool {
    match p {
        Ok(pp) => pp == &Poly::zero(ctx, representation),
        Err(_) => false,
    }
}

#[test]
fn test_poly_zero() {
    let reference = &[
        BigUint::zero(),
        BigUint::zero(),
        BigUint::zero(),
        BigUint::zero(),
        BigUint::zero(),
        BigUint::zero(),
        BigUint::zero(),
        BigUint::zero(),
    ];

    for modulus in MODULI {
        let ctx = Rc::new(Context::new(&[*modulus], 8).unwrap());
        let p = Poly::zero(&ctx, Representation::PowerBasis);
        let q = Poly::zero(&ctx, Representation::Ntt);
        assert_ne!(p, q);
        assert_eq!(p.to_u64_vec(), &[0; 8]);
        assert_eq!(q.to_u64_vec(), &[0; 8]);
    }

    let ctx = Rc::new(Context::new(MODULI, 8).unwrap());
    let p = Poly::zero(&ctx, Representation::PowerBasis);
    let q = Poly::zero(&ctx, Representation::Ntt);
    assert_ne!(p, q);
    assert_eq!(p.to_u64_vec(), [0; 24]);
    assert_eq!(q.to_u64_vec(), [0; 24]);
    assert_eq!(p.to_biguint_vec(), reference);
    assert_eq!(q.to_biguint_vec(), reference);
}

#[test]
fn test_try_convert_from_slice_zero() {
    let pb = Some(Representation::PowerBasis);
    let ntt = Some(Representation::Ntt);
    for modulus in MODULI {
        let ctx = Rc::new(Context::new(&[*modulus], 8).unwrap());

        // Power Basis
        let p = Poly::try_convert_from(&[0u64], &ctx, pb);
        assert!(is_zero_of(&p, &ctx, Representation::PowerBasis));
        let p = Poly::try_convert_from(&[0i64], &ctx, pb);
        assert!(is_zero_of(&p, &ctx, Representation::PowerBasis));
        let p = Poly::try_convert_from(&[0u64; 8], &ctx, pb);
        assert!(is_zero_of(&p, &ctx, Representation::PowerBasis));
        let p = Poly::try_convert_from(&[0i64; 8], &ctx, pb);
        assert!(is_zero_of(&p, &ctx, Representation::PowerBasis));
        let p = Poly::try_convert_from(
            &[0u64; 9], // One too many
            &ctx,
            pb,
        );
        assert!(p.is_err());

        // Ntt
        let p = Poly::try_convert_from(&[0u64], &ctx, ntt);
        assert!(p.is_err());
        let p = Poly::try_convert_from(&[0i64], &ctx, ntt);
        assert!(p.is_err());
        let p = Poly::try_convert_from(&[0u64; 8], &ctx, ntt);
        assert!(is_zero_of(&p, &ctx, Representation::Ntt));
        let p = Poly::try_convert_from(&[0i64; 8], &ctx, ntt);
        assert!(p.is_err());
        let p = Poly::try_convert_from(
            &[0u64; 9], // One too many
            &ctx,
            ntt,
        );
        assert!(p.is_err());
    }

    let ctx = Rc::new(Context::new(MODULI, 8).unwrap());
    let mut p = Poly::try_convert_from(Vec::<u64>::default(), &ctx, pb);
    assert!(is_zero_of(&p, &ctx, Representation::PowerBasis));
    p = Poly::try_convert_from(Vec::<u64>::default(), &ctx, ntt);
    assert!(p.is_err());

    p = Poly::try_convert_from(&[0u64], &ctx, pb);
    assert!(is_zero_of(&p, &ctx, Representation::PowerBasis));
    p = Poly::try_convert_from(&[0u64], &ctx, ntt);
    assert!(p.is_err());

    p = Poly::try_convert_from(&[0u64; 8], &ctx, pb);
    assert!(is_zero_of(&p, &ctx, Representation::PowerBasis));
    p = Poly::try_convert_from(&[0u64; 8], &ctx, ntt);
    assert!(p.is_err());

    p = Poly::try_convert_from(&[0u64; 9], &ctx, pb);
    assert!(p.is_err());
    p = Poly::try_convert_from(&[0u64; 9], &ctx, ntt);
    assert!(p.is_err());

    p = Poly::try_convert_from(&[0u64; 24], &ctx, pb);
    assert!(is_zero_of(&p, &ctx, Representation::PowerBasis));
    p = Poly::try_convert_from(&[0u64; 24], &ctx, ntt);
    assert!(is_zero_of(&p, &ctx, Representation::Ntt));
}

#[test]
fn test_try_convert_from_vec_zero() {
    let pb = Some(Representation::PowerBasis);
    let ntt = Some(Representation::Ntt);
    for modulus in MODULI {
        let ctx = Rc::new(Context::new(&[*modulus], 8).unwrap());
        let mut p = Poly::try_convert_from(Vec::<u64>::new(), &ctx, pb);
        assert!(is_zero_of(&p, &ctx, Representation::PowerBasis));
        p = Poly::try_convert_from(Vec::<u64>::new(), &ctx, ntt);
        assert!(p.is_err());

        p = Poly::try_convert_from(vec![0u64], &ctx, pb);
        assert!(is_zero_of(&p, &ctx, Representation::PowerBasis));
        p = Poly::try_convert_from(vec![0u64], &ctx, ntt);
        assert!(p.is_err());

        p = Poly::try_convert_from(vec![0u64; 8], &ctx, pb);
        assert!(is_zero_of(&p, &ctx, Representation::PowerBasis));
        p = Poly::try_convert_from(vec![0u64; 8], &ctx, ntt);
        assert!(is_zero_of(&p, &ctx, Representation::Ntt));

        p = Poly::try_convert_from(vec![0u64; 9], &ctx, pb);
        assert!(p.is_err());
        p = Poly::try_convert_from(vec![0u64; 9], &ctx, ntt);
        assert!(p.is_err());
    }

    let ctx = Rc::new(Context::new(MODULI, 8).unwrap());
    let mut p = Poly::try_convert_from(Vec::<u64>::new(), &ctx, pb);
    assert!(is_zero_of(&p, &ctx, Representation::PowerBasis));
    p = Poly::try_convert_from(Vec::<u64>::new(), &ctx, ntt);
    assert!(p.is_err());

    p = Poly::try_convert_from(vec![0u64], &ctx, pb);
    assert!(is_zero_of(&p, &ctx, Representation::PowerBasis));
    p = Poly::try_convert_from(vec![0u64], &ctx, ntt);
    assert!(p.is_err());

    p = Poly::try_convert_from(vec![0u64; 8], &ctx, pb);
    assert!(is_zero_of(&p, &ctx, Representation::PowerBasis));
    p = Poly::try_convert_from(vec![0u64; 8], &ctx, ntt);
    assert!(p.is_err());

    p = Poly::try_convert_from(vec![0u64; 9], &ctx, pb);
    assert!(p.is_err());
    p = Poly::try_convert_from(vec![0u64; 9], &ctx, ntt);
    assert!(p.is_err());

    p = Poly::try_convert_from(vec![0u64; 24], &ctx, pb);
    assert!(is_zero_of(&p, &ctx, Representation::PowerBasis));
    p = Poly::try_convert_from(vec![0u64; 24], &ctx, ntt);
    assert!(is_zero_of(&p, &ctx, Representation::Ntt));
}

#[test]
fn test_try_convert_from_u64_zero() {
    for modulus in MODULI {
        let ctx = Rc::new(Context::new(&[*modulus], 8).unwrap());
        let mut p = <Poly as TryConvertFrom<u64>>::try_convert_from(
            0,
            &ctx,
            Some(Representation::PowerBasis),
        );
        assert!(is_zero_of(&p, &ctx, Representation::PowerBasis));
        p = <Poly as TryConvertFrom<u64>>::try_convert_from(0, &ctx, Some(Representation::Ntt));
        assert!(p.is_err());
    }

    let ctx = Rc::new(Context::new(MODULI, 8).unwrap());
    let mut p = <Poly as TryConvertFrom<u64>>::try_convert_from(
        0,
        &ctx,
        Some(Representation::PowerBasis),
    );
    assert!(is_zero_of(&p, &ctx, Representation::PowerBasis));
    p = <Poly as TryConvertFrom<u64>>::try_convert_from(0, &ctx, Some(Representation::Ntt));
    assert!(p.is_err());
}

#[test]
fn test_random() {
    let mut seed = [0u8; 32];
    thread_rng().fill(&mut seed);

    for modulus in MODULI {
        let ctx = Rc::new(Context::new(&[*modulus], 8).unwrap());
        let p = Poly::random_from_seed(&ctx, Representation::Ntt, seed.clone());
        let q = Poly::random_from_seed(&ctx, Representation::Ntt, seed.clone());
        assert_eq!(p, q);
    }

    let ctx = Rc::new(Context::new(MODULI, 8).unwrap());
    let p = Poly::random_from_seed(&ctx, Representation::Ntt, seed.clone());
    let q = Poly::random_from_seed(&ctx, Representation::Ntt, seed.clone());
    assert_eq!(p, q);

    thread_rng().fill(&mut seed);
    let p = Poly::random_from_seed(&ctx, Representation::Ntt, seed);
    assert_ne!(p, q);

    let r = Poly::random(&ctx, Representation::Ntt);
    assert_ne!(p, r);
    assert_ne!(q, r);
}

#[test]
fn test_proto() {
    for modulus in MODULI {
        let ctx = Rc::new(Context::new(&[*modulus], 8).unwrap());
        let p = Poly::random(&ctx, Representation::PowerBasis);
        let proto: RqRecord = p.to_record();
        assert!(Poly::try_convert_from(&proto, &ctx, None).is_ok_and(|q| q == p));
        assert!(Poly::try_convert_from(&proto, &ctx, None).is_ok_and(|q| q == p));
        assert_eq!(
            Poly::try_convert_from(&proto, &ctx, Some(Representation::Ntt))
                .expect_err("Should fail because of mismatched representations")
                .message(),
            "The representation asked for does not match the representation in the serialization"
        );
        assert_eq!(
            Poly::try_convert_from(&proto, &ctx, Some(Representation::NttShoup))
                .expect_err("Should fail because of mismatched representations")
                .message(),
            "The representation asked for does not match the representation in the serialization"
        );
    }

    let ctx = Rc::new(Context::new(MODULI, 8).unwrap());
    let p = Poly::random(&ctx, Representation::PowerBasis);
    let proto: RqRecord = p.to_record();
    assert!(Poly::try_convert_from(&proto, &ctx, None).is_ok_and(|q| q == p));
    assert!(Poly::try_convert_from(&proto, &ctx, None).is_ok_and(|q| q == p));
    assert_eq!(
        Poly::try_convert_from(&proto, &ctx, Some(Representation::Ntt))
            .expect_err("Should fail because of mismatched representations")
            .message(),
        "The representation asked for does not match the representation in the serialization"
    );
    assert_eq!(
        Poly::try_convert_from(&proto, &ctx, Some(Representation::NttShoup))
            .expect_err("Should fail because of mismatched representations")
            .message(),
        "The representation asked for does not match the representation in the serialization"
    );

    let ctx = Rc::new(Context::new(&MODULI[0..1], 8).unwrap());
    assert_eq!(
        Poly::try_convert_from(&proto, &ctx, None)
            .expect_err("Should fail because of incorrect context")
            .message(),
        "Invalid coefficients"
    );
    assert_eq!(proto.representation, WireRepresentation::PowerBasis);
}

#[test]
fn test_biguint() {
    for modulus in MODULI {
        let ctx = Rc::new(Context::new(&[*modulus], 8).unwrap());
        let p = Poly::random(&ctx, Representation::PowerBasis);
        let p_coeffs = p.to_biguint_vec();
        let q = Poly::try_convert_from(
            p_coeffs.as_slice(),
            &ctx,
            Some(Representation::PowerBasis),
        )
        .unwrap();
        assert_eq!(p, q);
    }

    let ctx = Rc::new(Context::new(MODULI, 8).unwrap());
    let p = Poly::random(&ctx, Representation::PowerBasis);
    let p_coeffs = p.to_biguint_vec();
    assert_eq!(p_coeffs.len(), ctx.degree());
    let q = Poly::try_convert_from(
        p_coeffs.as_slice(),
        &ctx,
        Some(Representation::PowerBasis),
    )
    .unwrap();
    assert_eq!(p, q);
}
