use num_bigint::BigUint;
use rand::{thread_rng, Rng};
use rq_math::array::ResidueArray;
use rq_math::context::Context;
use rq_math::convert::TryConvertFrom;
use rq_math::error::Error;
use rq_math::poly::{Poly, Representation};
use rq_math::sampling::{sample_cbd, sample_vec_cbd, samples_of_stream};
use rq_math::wire::{RqRecord, WireRepresentation};
use rq_math::zq::Modulus;
use std::rc::Rc;
use std::sync::Arc;

const MODULI: &[u64; 3] = &[1153, 4611686018326724609, 4611686018309947393];

fn random_words(n: usize) -> Vec<u64> {
    let mut rng = thread_rng();
    (0..n).map(|_| rng.gen::<u64>()).collect()
}

fn reduced_table(words: &[u64], moduli: &[u64], n: usize) -> Vec<u64> {
    let mut out = vec![];
    for (i, q) in moduli.iter().enumerate() {
        out.extend(words[i * n..(i + 1) * n].iter().map(|x| x % q));
    }
    out
}

fn pointwise(a: &[u64], b: &[u64], moduli: &[u64], n: usize, f: fn(u128, u128, u128) -> u128) -> Vec<u64> {
    let mut out = vec![];
    for (i, q) in moduli.iter().enumerate() {
        for j in 0..n {
            out.push(f(a[i * n + j] as u128, b[i * n + j] as u128, *q as u128) as u64);
        }
    }
    out
}

#[test]
fn test_add() {
    for _ in 0..16 {
        let a = random_words(8);
        let b = random_words(8);
        for modulus in MODULI {
            let ctx = Rc::new(Context::new(&[*modulus], 8).unwrap());
            let c: Vec<u64> = a.iter().map(|x| x % modulus).collect();
            let d: Vec<u64> = b.iter().map(|x| x % modulus).collect();
            let sum = pointwise(&c, &d, &[*modulus], 8, |x, y, q| (x + y) % q);
            for representation in [Representation::PowerBasis, Representation::Ntt] {
                let p = Poly::try_convert_from(c.as_slice(), &ctx, Some(representation)).unwrap();
                let q = Poly::try_convert_from(d.as_slice(), &ctx, Some(representation)).unwrap();
                let r = &p + &q;
                assert_eq!(r.representation(), representation);
                assert_eq!(r.to_u64_vec(), sum);
                let mut s = p.clone();
                s.add_assign(&q);
                assert_eq!(s, r);
                // the clone is a table of its own
                assert_eq!(p.to_u64_vec(), c);
            }
        }

        let ctx = Rc::new(Context::new(MODULI, 8).unwrap());
        let mut reference = vec![];
        for modulus in MODULI {
            reference.extend((0..8).map(|j| {
                (((a[j] % modulus) as u128 + (b[j] % modulus) as u128) % (*modulus as u128)) as u64
            }));
        }
        let p = Poly::try_convert_from(a.as_slice(), &ctx, Some(Representation::PowerBasis)).unwrap();
        let q = Poly::try_convert_from(b.as_slice(), &ctx, Some(Representation::PowerBasis)).unwrap();
        let r = &p + &q;
        assert_eq!(r.representation(), Representation::PowerBasis);
        assert_eq!(r.to_u64_vec(), reference);
    }
}

#[test]
fn test_sub() {
    for _ in 0..16 {
        let a = reduced_table(&random_words(24), MODULI, 8);
        let b = reduced_table(&random_words(24), MODULI, 8);
        let ctx = Rc::new(Context::new(MODULI, 8).unwrap());
        let difference = pointwise(&a, &b, MODULI, 8, |x, y, q| (x + q - y) % q);
        for representation in [Representation::PowerBasis, Representation::Ntt] {
            let p = Poly::try_convert_from(a.as_slice(), &ctx, Some(representation)).unwrap();
            let q = Poly::try_convert_from(b.as_slice(), &ctx, Some(representation)).unwrap();
            let r = &p - &q;
            assert_eq!(r.representation(), representation);
            assert_eq!(r.to_u64_vec(), difference);
            let mut s = p.clone();
            s.sub_assign(&q);
            assert_eq!(s, r);
            // in variable time the difference is the same
            let mut t = p.clone();
            t.allow_variable_time_computations();
            let mut u = &t - &q;
            assert_ne!(u, r);
            u.disallow_variable_time_computations();
            assert_eq!(u, r);
        }
    }
}

#[test]
fn test_mul() {
    for _ in 0..16 {
        let a = reduced_table(&random_words(24), MODULI, 8);
        let b = reduced_table(&random_words(24), MODULI, 8);
        let ctx = Rc::new(Context::new(MODULI, 8).unwrap());
        let product = pointwise(&a, &b, MODULI, 8, |x, y, q| (x * y) % q);
        let p = Poly::try_convert_from(a.as_slice(), &ctx, Some(Representation::Ntt)).unwrap();
        let q = Poly::try_convert_from(b.as_slice(), &ctx, Some(Representation::Ntt)).unwrap();
        let r = &p * &q;
        assert_eq!(r.representation(), Representation::Ntt);
        assert_eq!(r.to_u64_vec(), product);
        let mut s = p.clone();
        s.mul_assign(&q);
        assert_eq!(s, r);
        let mut t = p.clone();
        t.allow_variable_time_computations();
        t.mul_assign(&q);
        assert_eq!(t.to_u64_vec(), product);
    }
}

#[test]
fn test_mul_shoup() {
    for _ in 0..16 {
        let a = reduced_table(&random_words(24), MODULI, 8);
        let b = reduced_table(&random_words(24), MODULI, 8);
        let ctx = Rc::new(Context::new(MODULI, 8).unwrap());
        let product = pointwise(&a, &b, MODULI, 8, |x, y, q| (x * y) % q);
        let p = Poly::try_convert_from(a.as_slice(), &ctx, Some(Representation::Ntt)).unwrap();
        let q = Poly::try_convert_from(b.as_slice(), &ctx, Some(Representation::NttShoup)).unwrap();
        let r = &p * &q;
        assert_eq!(r.representation(), Representation::Ntt);
        assert_eq!(r.to_u64_vec(), product);
        // with the Shoup encoding on the left, or on both sides
        let l = &q * &p;
        assert_eq!(l, r);
        let p_shoup =
            Poly::try_convert_from(a.as_slice(), &ctx, Some(Representation::NttShoup)).unwrap();
        assert_eq!(&p_shoup * &q, r);
        let mut t = p.clone();
        t.allow_variable_time_computations();
        t.mul_assign(&q);
        assert_eq!(t.to_u64_vec(), product);
    }
}

#[test]
fn test_neg() {
    for _ in 0..16 {
        let a = reduced_table(&random_words(24), MODULI, 8);
        let ctx = Rc::new(Context::new(MODULI, 8).unwrap());
        let opposite = pointwise(&a, &a, MODULI, 8, |x, _, q| (q - x) % q);
        for representation in [
            Representation::PowerBasis,
            Representation::Ntt,
            Representation::NttShoup,
        ] {
            let p = Poly::try_convert_from(a.as_slice(), &ctx, Some(representation)).unwrap();
            let r = -&p;
            assert_eq!(r.representation(), representation);
            assert_eq!(r.to_u64_vec(), opposite);
            assert_eq!(-&r, p);
            // the Shoup encoding follows the residues
            assert_eq!(
                r,
                Poly::try_convert_from(opposite.as_slice(), &ctx, Some(representation)).unwrap()
            );
            let mut v = p.clone();
            v.allow_variable_time_computations();
            assert_eq!((-&v).to_u64_vec(), opposite);
        }
    }
}

fn negacyclic(a: &[u64], b: &[u64], p: u64) -> Vec<u64> {
    let n = a.len();
    let m = p as u128;
    let mut c = vec![0u64; n];
    for i in 0..n {
        for j in 0..n {
            let t = (a[i] as u128 * b[j] as u128) % m;
            let k = (i + j) % n;
            if i + j < n {
                c[k] = ((c[k] as u128 + t) % m) as u64;
            } else {
                c[k] = ((c[k] as u128 + m - t) % m) as u64;
            }
        }
    }
    c
}

#[test]
fn product_of_polynomials() {
    let ctx = Rc::new(Context::new(MODULI, 16).unwrap());
    for _ in 0..8 {
        let a = reduced_table(&random_words(48), MODULI, 16);
        let b = reduced_table(&random_words(48), MODULI, 16);
        let mut p = Poly::try_convert_from(a.as_slice(), &ctx, Some(Representation::PowerBasis)).unwrap();
        let mut q = Poly::try_convert_from(b.as_slice(), &ctx, Some(Representation::PowerBasis)).unwrap();
        p.change_representation(Representation::Ntt);
        q.change_representation(Representation::NttShoup);
        let mut r = &p * &q;
        r.change_representation(Representation::PowerBasis);
        let mut expected = vec![];
        for (i, modulus) in MODULI.iter().enumerate() {
            expected.extend(negacyclic(&a[16 * i..16 * i + 16], &b[16 * i..16 * i + 16], *modulus));
        }
        assert_eq!(r.to_u64_vec(), expected);
        // X * X^15 = X^16 = -1
        let x = Poly::try_convert_from(&[0u64, 1], &ctx, Some(Representation::PowerBasis)).unwrap();
        let mut high = vec![0u64; 16];
        high[15] = 1;
        let mut y = Poly::try_convert_from(high.as_slice(), &ctx, Some(Representation::PowerBasis)).unwrap();
        let mut x = x;
        x.change_representation(Representation::Ntt);
        y.change_representation(Representation::Ntt);
        let mut minus_one = &x * &y;
        minus_one.change_representation(Representation::PowerBasis);
        assert_eq!(
            minus_one,
            -&Poly::try_convert_from(1u64, &ctx, Some(Representation::PowerBasis)).unwrap()
        );
    }
}

#[test]
fn representation_changes() {
    let ctx = Rc::new(Context::new(MODULI, 16).unwrap());
    let a = reduced_table(&random_words(48), MODULI, 16);
    let p = Poly::try_convert_from(a.as_slice(), &ctx, Some(Representation::PowerBasis)).unwrap();

    let mut q = p.clone();
    q.change_representation(Representation::PowerBasis);
    assert_eq!(q, p);

    q.change_representation(Representation::Ntt);
    assert_eq!(q.representation(), Representation::Ntt);
    assert_ne!(q.to_u64_vec(), a);
    let in_ntt = q.clone();
    q.change_representation(Representation::Ntt);
    assert_eq!(q, in_ntt);

    q.change_representation(Representation::PowerBasis);
    assert_eq!(q, p);

    q.change_representation(Representation::NttShoup);
    assert_eq!(q.representation(), Representation::NttShoup);
    assert_eq!(q.to_u64_vec(), in_ntt.to_u64_vec());
    let in_shoup = q.clone();
    q.change_representation(Representation::NttShoup);
    assert_eq!(q, in_shoup);

    q.change_representation(Representation::Ntt);
    assert_eq!(q, in_ntt);
    q.change_representation(Representation::NttShoup);
    assert_eq!(q, in_shoup);
    q.change_representation(Representation::PowerBasis);
    assert_eq!(q, p);

    // an override leaves the residues as they are
    let mut o = p.clone();
    o.override_representation(Representation::Ntt);
    assert_eq!(o.representation(), Representation::Ntt);
    assert_eq!(o.to_u64_vec(), a);
    o.override_representation(Representation::NttShoup);
    assert_eq!(
        o,
        Poly::try_convert_from(a.as_slice(), &ctx, Some(Representation::NttShoup)).unwrap()
    );
    o.override_representation(Representation::PowerBasis);
    assert_eq!(o, p);
    assert_eq!(Representation::default(), Representation::PowerBasis);
}

#[test]
fn shoup_buffer_leaves_wiped() {
    let ctx = Rc::new(Context::new(MODULI, 8).unwrap());
    let a = reduced_table(&random_words(24), MODULI, 8);
    let mut p = Poly::try_convert_from(a.as_slice(), &ctx, Some(Representation::NttShoup)).unwrap();
    let released = p.release_shoup().unwrap();
    assert_eq!(released.dim(), (3, 8));
    assert_eq!(released.to_flat(), vec![0u64; 24]);
    assert!(p.release_shoup().is_none());
    assert_eq!(p.to_u64_vec(), a);

    let mut q = Poly::try_convert_from(a.as_slice(), &ctx, Some(Representation::NttShoup)).unwrap();
    q.zeroize();
    assert_eq!(q, Poly::zero(&ctx, Representation::NttShoup));
    let mut r = Poly::try_convert_from(a.as_slice(), &ctx, Some(Representation::Ntt)).unwrap();
    r.zeroize();
    assert_eq!(r, Poly::zero(&ctx, Representation::Ntt));
}

#[test]
fn conversion_errors() {
    let ctx = Rc::new(Context::new(MODULI, 8).unwrap());
    let pb = Some(Representation::PowerBasis);
    let ntt = Some(Representation::Ntt);
    let shoup = Some(Representation::NttShoup);
    let e = |r: Result<Poly, Error>| r.err();

    assert_eq!(e(Poly::try_convert_from(5u64, &ctx, ntt)), Some(Error::ScalarNeedsPowerBasis));
    assert_eq!(e(Poly::try_convert_from(5u64, &ctx, None)), Some(Error::ScalarNeedsPowerBasis));
    assert_eq!(e(Poly::try_convert_from(vec![1u64; 8], &ctx, None)), Some(Error::RepresentationNeeded));
    assert_eq!(e(Poly::try_convert_from(vec![1u64; 8], &ctx, ntt)), Some(Error::NttNeedsAllCoefficients));
    assert_eq!(e(Poly::try_convert_from(vec![1u64; 25], &ctx, ntt)), Some(Error::NttNeedsAllCoefficients));
    assert_eq!(e(Poly::try_convert_from(vec![1u64; 23], &ctx, shoup)), Some(Error::NttShoupNeedsAllCoefficients));
    assert_eq!(e(Poly::try_convert_from(vec![1u64; 9], &ctx, pb)), Some(Error::PowerBasisWrongLength));
    assert_eq!(e(Poly::try_convert_from(vec![1u64; 25], &ctx, pb)), Some(Error::PowerBasisWrongLength));
    assert_eq!(e(Poly::try_convert_from(&[1i64; 8][..], &ctx, ntt)), Some(Error::SignedNeedsPowerBasis));
    assert_eq!(e(Poly::try_convert_from(&[1i64; 8][..], &ctx, None)), Some(Error::SignedNeedsPowerBasis));
    assert_eq!(e(Poly::try_convert_from(&[1i64; 9][..], &ctx, pb)), Some(Error::SignedTooLong));
    let big: Vec<BigUint> = (0..9u64).map(BigUint::from).collect();
    assert_eq!(e(Poly::try_convert_from(big.as_slice(), &ctx, pb)), Some(Error::TooManyBigIntegers));
    assert_eq!(e(Poly::try_convert_from(&big[..8], &ctx, None)), Some(Error::RepresentationNeeded));
    let wrong = ResidueArray::from_shape_vec(8, 3, vec![0u64; 24]).unwrap();
    assert_eq!(e(Poly::try_convert_from(wrong, &ctx, pb)), Some(Error::ArrayShapeMismatch));
    let right = ResidueArray::from_shape_vec(3, 8, vec![0u64; 24]).unwrap();
    assert_eq!(e(Poly::try_convert_from(right, &ctx, None)), Some(Error::ArrayRepresentationNeeded));
    assert!(ResidueArray::from_shape_vec(3, 8, vec![0u64; 23]).is_none());
    assert_eq!(
        Error::PowerBasisWrongLength.message(),
        "In PowerBasis representation, either all coefficients must be specified, or only coefficients up to the degree"
    );
    assert_eq!(Error::InvalidVariance.message(), "The variance should be an integer between 1 and 16");
}

#[test]
fn conversions_of_values() {
    let ctx = Rc::new(Context::new(MODULI, 8).unwrap());
    let pb = Some(Representation::PowerBasis);

    // one word is the constant term, reduced for each modulus
    let p = Poly::try_convert_from(u64::MAX, &ctx, pb).unwrap();
    let mut expected = vec![0u64; 24];
    for (i, q) in MODULI.iter().enumerate() {
        expected[8 * i] = u64::MAX % q;
    }
    assert_eq!(p.to_u64_vec(), expected);

    // signed words
    let signed: Vec<i64> = vec![-1, 2, -3, i64::MIN, i64::MAX];
    let p = Poly::try_convert_from(signed.as_slice(), &ctx, pb).unwrap();
    let mut expected = vec![0u64; 24];
    for (i, q) in MODULI.iter().enumerate() {
        for (j, s) in signed.iter().enumerate() {
            expected[8 * i + j] = (*s as i128).rem_euclid(*q as i128) as u64;
        }
    }
    assert_eq!(p.to_u64_vec(), expected);
    assert_eq!(p.representation(), Representation::PowerBasis);

    // a table, in every representation
    let a = reduced_table(&random_words(24), MODULI, 8);
    for representation in [
        Representation::PowerBasis,
        Representation::Ntt,
        Representation::NttShoup,
    ] {
        let table = ResidueArray::from_shape_vec(3, 8, a.clone()).unwrap();
        assert_eq!(table.row(1), &a[8..16]);
        let p = Poly::try_convert_from(table, &ctx, Some(representation)).unwrap();
        assert_eq!(p.to_u64_vec(), a);
        assert_eq!(p.coefficients().to_flat(), a);
        assert_eq!(
            p,
            Poly::try_convert_from(a.clone(), &ctx, Some(representation)).unwrap()
        );
    }

    // big integers: the constant that is the product of the moduli minus one
    let minus_one = ctx.modulus() - BigUint::from(1u64);
    let p = Poly::try_convert_from(&[minus_one.clone()][..], &ctx, pb).unwrap();
    let mut expected = vec![0u64; 24];
    for (i, q) in MODULI.iter().enumerate() {
        expected[8 * i] = q - 1;
    }
    assert_eq!(p.to_u64_vec(), expected);
    let lifted = p.to_biguint_vec();
    assert_eq!(lifted[0], minus_one);
    assert_eq!(lifted[1], BigUint::from(0u64));
    let s = Poly::try_convert_from(&[minus_one][..], &ctx, Some(Representation::NttShoup)).unwrap();
    assert_eq!(s.representation(), Representation::NttShoup);
    assert_eq!(s.to_u64_vec(), expected);
}

#[test]
fn scalar_multiplication() {
    let ctx = Rc::new(Context::new(MODULI, 8).unwrap());
    let a = reduced_table(&random_words(24), MODULI, 8);
    let scalar = BigUint::from(0xFFFF_FFFF_FFFF_FFFFu64) * BigUint::from(12345u64);
    let p = Poly::try_convert_from(a.as_slice(), &ctx, Some(Representation::PowerBasis)).unwrap();
    let r = &p * &scalar;
    assert_eq!(r, p.mul_scalar(&scalar));
    assert_eq!(r, &scalar * &p);
    assert_eq!(r.representation(), Representation::PowerBasis);
    let mut expected = vec![];
    for (i, q) in MODULI.iter().enumerate() {
        let s = u64::try_from(&scalar % q).unwrap() as u128;
        expected.extend((0..8).map(|j| ((a[8 * i + j] as u128 * s) % (*q as u128)) as u64));
    }
    assert_eq!(r.to_u64_vec(), expected);
    let mut s = p.clone();
    s.mul_assign_scalar(&scalar);
    assert_eq!(s, r);
    let lifted = r.to_biguint_vec();
    let coefficients = p.to_biguint_vec();
    for j in 0..8 {
        assert_eq!(lifted[j], (&coefficients[j] * &scalar) % ctx.modulus());
    }
}

#[test]
fn small_polynomials() {
    let ctx = Rc::new(Context::new(MODULI, 8).unwrap());
    assert_eq!(Poly::small(&ctx, Representation::PowerBasis, 0).err(), Some(Error::InvalidVariance));
    assert_eq!(Poly::small(&ctx, Representation::PowerBasis, 17).err(), Some(Error::InvalidVariance));
    assert_eq!(Poly::small(&ctx, Representation::Ntt, 17).err(), Some(Error::InvalidVariance));
    assert_eq!(Poly::small(&ctx, Representation::Ntt, 1).err(), Some(Error::SignedNeedsPowerBasis));
    assert_eq!(
        Poly::small_from_seed(&ctx, Representation::NttShoup, 16, [1u8; 32]).err(),
        Some(Error::SignedNeedsPowerBasis)
    );

    for variance in 1..=16usize {
        let p = Poly::small(&ctx, Representation::PowerBasis, variance).unwrap();
        let coefficients = p.to_biguint_vec();
        for c in coefficients {
            let centered = if c > (ctx.modulus() >> 1) {
                ctx.modulus() - &c
            } else {
                c
            };
            assert!(centered <= BigUint::from(2 * variance));
        }
    }
    let p = Poly::small_from_seed(&ctx, Representation::PowerBasis, 8, [3u8; 32]).unwrap();
    let q = Poly::small_from_seed(&ctx, Representation::PowerBasis, 8, [3u8; 32]).unwrap();
    assert_eq!(p, q);
    let r = Poly::small_from_seed(&ctx, Representation::PowerBasis, 8, [4u8; 32]).unwrap();
    assert_ne!(p, r);

    // the samples are wiped once they are converted, or refused
    let mut samples: Vec<i64> = vec![-2, -1, 0, 1, 2];
    let p = Poly::small_from_samples(&ctx, Representation::PowerBasis, &mut samples).unwrap();
    assert_eq!(samples, vec![0i64; 5]);
    assert_eq!(
        p,
        Poly::try_convert_from(&[-2i64, -1, 0, 1, 2][..], &ctx, Some(Representation::PowerBasis))
            .unwrap()
    );
    let mut samples: Vec<i64> = vec![1; 9];
    assert_eq!(
        Poly::small_from_samples(&ctx, Representation::PowerBasis, &mut samples).err(),
        Some(Error::SignedTooLong)
    );
    assert_eq!(samples, vec![0i64; 9]);
    let drawn = sample_vec_cbd(64, 3, [9u8; 32]);
    assert_eq!(drawn.len(), 64);
    assert_eq!(drawn, sample_vec_cbd(64, 3, [9u8; 32]));
    assert!(drawn.iter().all(|x| -6 <= *x && *x <= 6));
    assert!(drawn.iter().any(|x| *x != 0));

    // one sample for every eight bytes of a stream
    let mut stream = vec![0u8; 20];
    stream[0] = 0b0111;
    stream[8] = 0b1101;
    assert_eq!(samples_of_stream(&stream, 1), vec![1, -1]);
    assert_eq!(samples_of_stream(&stream, 2), vec![3, 3]);
    assert_eq!(samples_of_stream(&stream[..7], 2), Vec::<i64>::new());

    // a sample is the ones of the low bits minus the ones of the next bits
    assert_eq!(sample_cbd(0, 16), 0);
    assert_eq!(sample_cbd(u64::MAX, 16), 0);
    assert_eq!(sample_cbd(0x0000_0000_FFFF_FFFF, 16), 32);
    assert_eq!(sample_cbd(0xFFFF_FFFF_0000_0000, 16), -32);
    assert_eq!(sample_cbd(0b0111, 1), 1);
    assert_eq!(sample_cbd(0b1101, 1), -1);
    assert_eq!(sample_cbd(0b1101, 2), 3);
    assert_eq!(sample_cbd(0xF0, 2), -4);
}

#[test]
fn rows_from_seeds() {
    let ctx = Rc::new(Context::new(MODULI, 8).unwrap());
    let mut seeds = vec![0u8; 96];
    for (i, b) in seeds.iter_mut().enumerate() {
        *b = (i / 32) as u8 + 1;
    }
    let p = Poly::random_from_seeds(&ctx, Representation::Ntt, &seeds);
    let mut expected = vec![];
    for (i, q) in MODULI.iter().enumerate() {
        let seed = [i as u8 + 1; 32];
        expected.extend(Modulus::new(*q).unwrap().random_vec_from_seed(8, &seed));
    }
    assert_eq!(p.to_u64_vec(), expected);
    assert_eq!(p.representation(), Representation::Ntt);
    // one seed more for the last modulus, another last row
    seeds[95] = 0;
    let q = Poly::random_from_seeds(&ctx, Representation::Ntt, &seeds);
    assert_eq!(q.to_u64_vec()[..16], expected[..16]);
    assert_ne!(q.to_u64_vec()[16..], expected[16..]);
}

#[test]
fn records() {
    let ctx = Rc::new(Context::new(MODULI, 8).unwrap());
    let a = reduced_table(&random_words(24), MODULI, 8);
    for (representation, tag) in [
        (Representation::PowerBasis, WireRepresentation::PowerBasis),
        (Representation::Ntt, WireRepresentation::Ntt),
        (Representation::NttShoup, WireRepresentation::NttShoup),
    ] {
        let p = Poly::try_convert_from(a.as_slice(), &ctx, Some(representation)).unwrap();
        let record = p.to_record();
        assert_eq!(record.representation, tag);
        assert_eq!(record.degree, 8);
        assert_eq!(record.coefficients.len(), 3 * 8 * 8);
        let mut bytes = vec![];
        for (i, q) in MODULI.iter().enumerate() {
            bytes.extend(Modulus::new(*q).unwrap().serialize_vec(&a[8 * i..8 * i + 8]));
        }
        assert_eq!(record.coefficients, bytes);
        assert_eq!(Poly::try_convert_from(&record, &ctx, None).unwrap(), p);
        assert_eq!(Poly::try_convert_from(&record, &ctx, Some(representation)).unwrap(), p);
    }

    let p = Poly::try_convert_from(a.as_slice(), &ctx, Some(Representation::Ntt)).unwrap();
    let good = p.to_record();
    let e = |r: &RqRecord, asked: Option<Representation>| Poly::try_convert_from(r, &ctx, asked).err();

    let unknown = RqRecord {
        representation: WireRepresentation::Unknown,
        degree: 8,
        coefficients: good.coefficients.clone(),
    };
    assert_eq!(e(&unknown, None), Some(Error::UnknownRepresentation));
    assert_eq!(e(&unknown, Some(Representation::Ntt)), Some(Error::UnknownRepresentation));
    assert_eq!(e(&good, Some(Representation::PowerBasis)), Some(Error::RepresentationMismatch));
    for degree in [0u32, 4, 12, 9] {
        let bad = RqRecord {
            representation: WireRepresentation::Ntt,
            degree,
            coefficients: good.coefficients.clone(),
        };
        assert_eq!(e(&bad, None), Some(Error::InvalidRecordDegree));
    }
    let short = RqRecord {
        representation: WireRepresentation::Ntt,
        degree: 8,
        coefficients: good.coefficients[1..].to_vec(),
    };
    assert_eq!(e(&short, None), Some(Error::InvalidCoefficients));
    let other_degree = RqRecord {
        representation: WireRepresentation::Ntt,
        degree: 16,
        coefficients: good.coefficients.clone(),
    };
    assert_eq!(e(&other_degree, None), Some(Error::InvalidCoefficients));
    // a word of the first modulus that is no residue
    let mut bytes = good.coefficients.clone();
    bytes[0] = 0xFF;
    bytes[1] = 0xFF;
    let spoiled = RqRecord {
        representation: WireRepresentation::Ntt,
        degree: 8,
        coefficients: bytes,
    };
    assert_eq!(e(&spoiled, None), Some(Error::UndecodableCoefficients));
    // a record of another degree than the context, which decodes and is then no whole table
    let tiny = Rc::new(Context::new(&MODULI[..1], 16).unwrap());
    let eight = RqRecord {
        representation: WireRepresentation::Ntt,
        degree: 8,
        coefficients: good.coefficients[..64].to_vec(),
    };
    assert_eq!(
        Poly::try_convert_from(&eight, &tiny, None).err(),
        Some(Error::NttNeedsAllCoefficients)
    );
}

#[test]
fn context_errors_and_levels() {
    assert_eq!(Context::new(MODULI, 7).err(), Some(Error::InvalidDegree));
    assert_eq!(Context::new(MODULI, 12).err(), Some(Error::InvalidDegree));
    assert_eq!(Context::new(MODULI, 4).err(), Some(Error::InvalidDegree));
    assert_eq!(Context::new(MODULI, 0).err(), Some(Error::InvalidDegree));
    assert_eq!(Context::new(&[], 8).err(), Some(Error::EmptyModuli));
    assert_eq!(Context::new(&[1153, 1], 8).err(), Some(Error::InvalidModulus(1)));
    assert_eq!(Context::new(&[1 << 62], 8).err(), Some(Error::InvalidModulus(1 << 62)));
    assert_eq!(Context::new(&[1153, 1153], 8).err(), Some(Error::ModuliNotCoprime));
    assert_eq!(Context::new(&[1153, 19], 8).err(), Some(Error::NttNotSupported(19)));
    assert_eq!(Context::new(&[33], 8).err(), Some(Error::NttNotSupported(33)));
    assert_eq!(Context::new(MODULI, 128).err(), Some(Error::NttNotSupported(1153)));
    assert_eq!(Error::InvalidDegree.message(), "The degree is not a power of two larger or equal to 8");
    assert_eq!(Error::NttNotSupported(3).message(), "Impossible to construct a Ntt operator");
    assert_eq!(Error::NoContextAtLevel.message(), "No context at the specified level");

    let context = Context::new(MODULI, 8).unwrap();
    assert_eq!(context.moduli(), MODULI);
    assert_eq!(context.degree(), 8);
    assert_eq!(context.len(), 3);
    assert_eq!(
        context.modulus(),
        &(BigUint::from(MODULI[0]) * BigUint::from(MODULI[1]) * BigUint::from(MODULI[2]))
    );
    assert_eq!(context.modulus_at(1).modulus(), MODULI[1]);
    assert_eq!(context.bitrev(), &[0, 4, 2, 6, 1, 5, 3, 7]);
    let inverses = context.inv_last_qi_mod_qj();
    let encoded = context.inv_last_qi_mod_qj_shoup();
    assert_eq!(inverses.len(), 2);
    assert_eq!(encoded.len(), 2);
    for j in 0..2 {
        let q = MODULI[j] as u128;
        assert_eq!((inverses[j] as u128 * (MODULI[2] as u128 % q)) % q, 1);
        assert_eq!(encoded[j] as u128, ((inverses[j] as u128) << 64) / q);
    }
    assert!(Context::new(&MODULI[..1], 8).unwrap().inv_last_qi_mod_qj().is_empty());
    assert_eq!(context.clone(), context);
    assert_ne!(context, Context::new(MODULI, 16).unwrap());
    assert_ne!(context, Context::new(&MODULI[..2], 8).unwrap());

    for i in 0..MODULI.len() {
        let level = context.context_at_level(i).unwrap();
        assert_eq!(level.moduli(), &MODULI[..MODULI.len() - i]);
        assert_eq!(level.degree(), 8);
        assert_eq!(context.niterations_to(&level), Ok(i));
        assert_eq!(level.niterations_to(&level), Ok(0));
        if i > 0 {
            assert_eq!(level.niterations_to(&Arc::new(context.clone())), Err(Error::InvalidContext));
        }
    }
    assert_eq!(context.context_at_level(3).err(), Some(Error::NoContextAtLevel));
    assert_eq!(context.context_at_level(usize::MAX).err(), Some(Error::NoContextAtLevel));
    assert_eq!(
        context.niterations_to(&Arc::new(Context::new(MODULI, 16).unwrap())),
        Err(Error::InvalidContext)
    );
    assert!(context.context_at_level(2).unwrap().next_context().is_none());
}
