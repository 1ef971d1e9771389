use rq_math::context::Context;
use rq_math::error::Error;
use rq_math::ntt::supports_ntt;
use std::sync::Arc;

const MODULI: &[u64; 5] = &[
    1153,
    4611686018326724609,
    4611686018309947393,
    4611686018232352769,
    4611686018171535361,
];

const MODULI3: &[u64; 3] = &[1153, 4611686018326724609, 4611686018309947393];

#[test]
fn mod_test_context_constructor() {
    for modulus in MODULI3 {
        assert!(Context::new(&[*modulus], 8).is_ok());
        if supports_ntt(*modulus, 128) {
            assert!(Context::new(&[*modulus], 128).is_ok());
        } else {
            assert!(Context::new(&[*modulus], 128).is_err());
        }
    }

    assert!(Context::new(MODULI3, 8).is_ok());
    assert!(Context::new(MODULI3, 128).is_err());
}

#[test]
fn context_test_context_constructor() {
    for modulus in MODULI {
        // modulus is = 1 modulo 2 * 8
        assert!(Context::new(&[*modulus], 8).is_ok());

        if supports_ntt(*modulus, 128) {
            assert!(Context::new(&[*modulus], 128).is_ok());
        } else {
            assert!(Context::new(&[*modulus], 128).is_err());
        }
    }

    // All moduli in MODULI are = 1 modulo 2 * 8
    assert!(Context::new(MODULI, 8).is_ok());

    // This should fail since 1153 != 1 moduli 2 * 128
    assert!(Context::new(MODULI, 128).is_err());
}

#[test]
fn test_next_context() {
    // A context should have a children pointing to a context with one less modulus.
    let context = Arc::new(Context::new(MODULI, 8).unwrap());
    assert_eq!(
        context.next_context(),
        Some(Arc::new(
            Context::new(&MODULI[..MODULI.len() - 1], 8).unwrap()
        ))
    );

    // We can go down the chain of the MODULI.len() - 1 context's.
    let mut number_of_children = 0;
    let mut current = context.clone();
    while current.next_context().is_some() {
        number_of_children += 1;
        current = current.next_context().unwrap();
    }
    assert_eq!(number_of_children, MODULI.len() - 1);
}

#[test]
fn test_niterations_to() {
    // A context should have a children pointing to a context with one less modulus.
    let context = Arc::new(Context::new(MODULI, 8).unwrap());

    assert_eq!(context.niterations_to(&context).ok(), Some(0));

    assert_eq!(
        context
            .niterations_to(&Arc::new(Context::new(&MODULI[1..], 8).unwrap()))
            .err(),
        Some(Error::InvalidContext)
    );

    for i in 1..MODULI.len() {
        assert_eq!(
            context
                .niterations_to(&Arc::new(
                    Context::new(&MODULI[..MODULI.len() - i], 8).unwrap()
                ))
                .ok(),
            Some(i)
        );
    }
}
