use rq_math::error::Error;
use rq_math::ntt::{bit_reverse_table, is_power_of_two, supports_ntt, NttOperator};
use rq_math::rns::RnsContext;
use rq_math::zq::Modulus;
use num_bigint::BigUint;

const P: u64 = 1153;
const Q: u64 = 4611686018326724609;

#[test]
fn modulus_range() {
    assert_eq!(Modulus::new(0).err(), Some(Error::InvalidModulus(0)));
    assert_eq!(Modulus::new(1).err(), Some(Error::InvalidModulus(1)));
    assert_eq!(Modulus::new(1 << 62).err(), Some(Error::InvalidModulus(1 << 62)));
    assert!(Modulus::new(2).is_ok());
    assert!(Modulus::new((1 << 62) - 1).is_ok());
    assert_eq!(Modulus::new(P).unwrap().modulus(), P);
}

#[test]
fn scalar_formulas() {
    let p = Modulus::new(P).unwrap();
    assert_eq!(p.add(1152, 5), 4);
    assert_eq!(p.add_vt(1152, 5), 4);
    assert_eq!(p.add(0, 0), 0);
    assert_eq!(p.sub(3, 5), 1151);
    assert_eq!(p.sub_vt(3, 5), 1151);
    assert_eq!(p.sub(5, 5), 0);
    assert_eq!(p.neg(0), 0);
    assert_eq!(p.neg_vt(0), 0);
    assert_eq!(p.neg(1), 1152);
    assert_eq!(p.neg_vt(1152), 1);
    assert_eq!(p.mul(1152, 1152), 1);
    assert_eq!(p.mul_vt(1152, 1152), 1);
    assert_eq!(p.mul(2, 577), 1);
    assert_eq!(p.reduce(1153), 0);
    assert_eq!(p.reduce(u64::MAX), u64::MAX % P);
    assert_eq!(p.reduce_vt(u64::MAX), u64::MAX % P);
    assert_eq!(p.reduce_once(1153), 0);
    assert_eq!(p.reduce_once(2305), 1152);
    assert_eq!(p.reduce_once_vt(1152), 1152);
    assert_eq!(p.reduce_i64(-1), 1152);
    assert_eq!(p.reduce_i64(0), 0);
    assert_eq!(p.reduce_i64(1154), 1);
    assert_eq!(p.reduce_i64(i64::MAX), (i64::MAX as u64) % P);
    assert_eq!(p.reduce_i64(i64::MIN), {
        let r = ((1u128 << 63) % (P as u128)) as u64;
        (P - r) % P
    });
    assert_eq!(p.pow(2, 10), 1024);
    assert_eq!(p.pow(2, 0), 1);
    assert_eq!(p.pow(5, 1152), 1);
    assert_eq!(p.inv(2), Some(577));
    assert_eq!(p.inv(0), None);
    assert_eq!(p.inv(1), Some(1));
    assert_eq!(p.shoup(1), ((1u128 << 64) / (P as u128)) as u64);
    assert_eq!(p.shoup(0), 0);

    let q = Modulus::new(Q).unwrap();
    let a = Q - 1;
    let b = Q - 2;
    assert_eq!(q.add(a, b), Q - 3);
    assert_eq!(q.sub(b, a), Q - 1);
    assert_eq!(q.mul(a, b), 2);
    assert_eq!(q.mul_shoup(a, b, q.shoup(b)), 2);
    assert_eq!(q.mul_shoup_vt(a, b, q.shoup(b)), 2);
    assert_eq!(q.reduce(u64::MAX), u64::MAX % Q);
    assert_eq!(q.reduce_i64(-5), Q - 5);
    let i = q.inv(12345).unwrap();
    assert_eq!(q.mul(i, 12345), 1);

    // a modulus that is no prime: the inverse exists for the units only
    let c = Modulus::new(15).unwrap();
    assert_eq!(c.inv(3), None);
    assert_eq!(c.inv(2), Some(8));
}

#[test]
fn vector_operations() {
    for modulus in [P, Q] {
        let q = Modulus::new(modulus).unwrap();
        let a: Vec<u64> = (0..16u64).map(|i| (i * 0x9E3779B97F4A7C15) % modulus).collect();
        let b: Vec<u64> = (0..16u64).map(|i| (i * 0xC2B2AE3D27D4EB4F + 7) % modulus).collect();
        let m = modulus as u128;

        let mut c = a.clone();
        q.add_vec(&mut c, &b);
        let mut d = a.clone();
        q.add_vec_vt(&mut d, &b);
        for i in 0..16 {
            assert_eq!(c[i] as u128, (a[i] as u128 + b[i] as u128) % m);
        }
        assert_eq!(c, d);

        let mut c = a.clone();
        q.sub_vec(&mut c, &b);
        let mut d = a.clone();
        q.sub_vec_vt(&mut d, &b);
        for i in 0..16 {
            assert_eq!(c[i] as u128, (a[i] as u128 + m - b[i] as u128) % m);
        }
        assert_eq!(c, d);

        let mut c = a.clone();
        q.mul_vec(&mut c, &b);
        let mut d = a.clone();
        q.mul_vec_vt(&mut d, &b);
        let mut e = a.clone();
        let b_shoup = q.shoup_vec(&b);
        q.mul_shoup_vec(&mut e, &b, &b_shoup);
        let mut f = a.clone();
        q.mul_shoup_vec_vt(&mut f, &b, &b_shoup);
        for i in 0..16 {
            assert_eq!(c[i] as u128, (a[i] as u128 * b[i] as u128) % m);
            assert_eq!(b_shoup[i] as u128, ((b[i] as u128) << 64) / m);
        }
        assert_eq!(c, d);
        assert_eq!(c, e);
        assert_eq!(c, f);

        let mut c = a.clone();
        q.neg_vec(&mut c);
        let mut d = a.clone();
        q.neg_vec_vt(&mut d);
        for i in 0..16 {
            assert_eq!(c[i] as u128, (m - a[i] as u128) % m);
        }
        assert_eq!(c, d);

        let mut raw: Vec<u64> = (0..16u64).map(|i| i.wrapping_mul(0xD6E8FEB86659FD93)).collect();
        let expected: Vec<u64> = raw.iter().map(|x| x % modulus).collect();
        q.reduce_vec(&mut raw);
        assert_eq!(raw, expected);

        let signed: Vec<i64> = vec![-1, 0, 1, i64::MIN, i64::MAX, -1153, 4611686018326724609];
        let r = q.reduce_vec_i64(&signed);
        for i in 0..signed.len() {
            assert_eq!(r[i] as i128, (signed[i] as i128).rem_euclid(modulus as i128));
        }
    }
}

#[test]
fn serialization_of_residues() {
    let q = Modulus::new(Q).unwrap();
    let a: Vec<u64> = vec![0, 1, 255, 256, Q - 1, 0x0102030405060708, 7, 8];
    assert_eq!(q.serialization_length(8), 64);
    let bytes = q.serialize_vec(&a);
    assert_eq!(bytes.len(), 64);
    assert_eq!(&bytes[0..8], &[0u8; 8]);
    assert_eq!(&bytes[8..16], &[1u8, 0, 0, 0, 0, 0, 0, 0]);
    assert_eq!(&bytes[40..48], &[8u8, 7, 6, 5, 4, 3, 2, 1]);
    assert_eq!(q.deserialize_vec(&bytes), Some(a));
    // not a whole number of words
    assert_eq!(q.deserialize_vec(&bytes[..63]), None);
    // a word that is no residue
    let p = Modulus::new(P).unwrap();
    assert_eq!(p.deserialize_vec(&bytes), None);
    assert_eq!(p.deserialize_vec(&bytes[..32]), Some(vec![0, 1, 255, 256]));
    assert_eq!(p.deserialize_vec(&[]), Some(vec![]));
}

#[test]
fn seeded_residues() {
    let q = Modulus::new(Q).unwrap();
    let seed = [7u8; 32];
    let a = q.random_vec_from_seed(64, &seed);
    let b = q.random_vec_from_seed(64, &seed);
    assert_eq!(a.len(), 64);
    assert_eq!(a, b);
    assert!(a.iter().all(|x| *x < Q));
    let other = [8u8; 32];
    let c = q.random_vec_from_seed(64, &other);
    assert_ne!(a, c);
    // the residues are no copy of the seed
    assert!(a.iter().any(|x| *x != 0x0707070707070707 % Q));
    let p = Modulus::new(P).unwrap();
    let d = p.random_vec_from_seed(1024, &seed);
    assert!(d.iter().all(|x| *x < P));
    // every value below a small modulus is hit now and then
    assert!(d.iter().any(|x| *x > P / 2));
    assert!(d.iter().any(|x| *x < P / 2));
}

#[test]
fn residues_of_a_stream() {
    let p = Modulus::new(P).unwrap();
    let mut stream = vec![0u8; 33];
    stream[0] = 5;
    stream[1] = 1;
    for b in stream[16..32].iter_mut() {
        *b = 0xFF;
    }
    assert_eq!(p.reduce_stream(&stream), vec![261, (u128::MAX % (P as u128)) as u64]);
    assert_eq!(p.reduce_stream(&stream[..15]), Vec::<u64>::new());
    let q = Modulus::new(Q).unwrap();
    stream[15] = 0x80;
    assert_eq!(
        q.reduce_stream(&stream[..16]),
        vec![((261u128 + (0x80u128 << 120)) % (Q as u128)) as u64]
    );
}

#[test]
fn transform_conditions() {
    assert!(is_power_of_two(1));
    assert!(is_power_of_two(8));
    assert!(is_power_of_two(1 << 20));
    assert!(!is_power_of_two(0));
    assert!(!is_power_of_two(12));
    assert!(supports_ntt(P, 8));
    assert!(supports_ntt(P, 64));
    assert!(!supports_ntt(P, 128));
    assert!(supports_ntt(17, 8));
    // 33 = 1 modulo 16, and no prime
    assert!(!supports_ntt(33, 8));
    // a prime that is not 1 modulo 16
    assert!(!supports_ntt(19, 8));
    assert!(!supports_ntt(1, 8));
    assert!(supports_ntt(Q, 8));
    assert_eq!(bit_reverse_table(8), vec![0, 4, 2, 6, 1, 5, 3, 7]);
    assert_eq!(
        bit_reverse_table(16),
        vec![0, 8, 4, 12, 2, 10, 6, 14, 1, 9, 5, 13, 3, 11, 7, 15]
    );

    let q = Modulus::new(P).unwrap();
    assert!(NttOperator::new(&q, 8).is_some());
    assert!(NttOperator::new(&q, 128).is_none());
    assert!(NttOperator::new(&q, 4).is_none());
    assert!(NttOperator::new(&q, 12).is_none());
    assert!(NttOperator::new(&Modulus::new(33).unwrap(), 8).is_none());
}

fn negacyclic(a: &[u64], b: &[u64], p: u64) -> Vec<u64> {
    let n = a.len();
    let m = p as u128;
    let mut c = vec![0u64; n];
    for i in 0..n {
        for j in 0..n {
            let t = ((a[i] as u128 * b[j] as u128) % m) as u64;
            let k = (i + j) % n;
            if i + j < n {
                c[k] = ((c[k] as u128 + t as u128) % m) as u64;
            } else {
                c[k] = ((c[k] as u128 + m - t as u128) % m) as u64;
            }
        }
    }
    c
}

#[test]
fn transform_roundtrip_and_convolution() {
    for (modulus, n) in [(P, 8usize), (P, 64), (Q, 8), (Q, 128), (17, 8)] {
        if !supports_ntt(modulus, n) {
            continue;
        }
        let q = Modulus::new(modulus).unwrap();
        let op = NttOperator::new(&q, n).unwrap();
        let a: Vec<u64> = (0..n as u64)
            .map(|i| (i.wrapping_mul(0x9E3779B97F4A7C15) ^ 0x1234) % modulus)
            .collect();
        let b: Vec<u64> = (0..n as u64)
            .map(|i| (i.wrapping_mul(0xC2B2AE3D27D4EB4F) + 99) % modulus)
            .collect();

        let mut fa = a.clone();
        op.forward(&mut fa);
        assert_ne!(fa, a);
        let mut back = fa.clone();
        op.backward(&mut back);
        assert_eq!(back, a);

        let mut bb = a.clone();
        op.backward(&mut bb);
        op.forward(&mut bb);
        assert_eq!(bb, a);

        // the transform of a constant is the constant in every entry
        let mut one = vec![0u64; n];
        one[0] = 5 % modulus;
        op.forward(&mut one);
        assert_eq!(one, vec![5 % modulus; n]);

        // the product of the transforms is the transform of the product modulo x^n + 1
        let mut fb = b.clone();
        op.forward(&mut fb);
        q.mul_vec(&mut fa, &fb);
        op.backward(&mut fa);
        assert_eq!(fa, negacyclic(&a, &b, modulus));
    }
}

#[test]
fn residue_number_system() {
    assert_eq!(RnsContext::new(&[]).err(), Some(Error::EmptyModuli));
    assert_eq!(RnsContext::new(&[3, 1, 0]).err(), Some(Error::InvalidModulus(1)));
    assert_eq!(RnsContext::new(&[3, 5, 9]).err(), Some(Error::ModuliNotCoprime));
    assert_eq!(RnsContext::new(&[7, 7]).err(), Some(Error::ModuliNotCoprime));

    let rns = RnsContext::new(&[3, 5, 7]).unwrap();
    assert_eq!(rns.modulus(), &BigUint::from(105u64));
    assert_eq!(rns.arith(1).modulus(), 5);
    assert_eq!(rns.project(&BigUint::from(52u64)), vec![1, 2, 3]);
    assert_eq!(rns.lift(&[1, 2, 3]), BigUint::from(52u64));
    assert_eq!(rns.lift(&[0, 0, 0]), BigUint::from(0u64));
    assert_eq!(rns.lift(&[2, 4, 6]), BigUint::from(104u64));
    for x in 0..105u64 {
        let rests = rns.project(&BigUint::from(x));
        assert_eq!(rests, vec![x % 3, x % 5, x % 7]);
        assert_eq!(rns.lift(&rests), BigUint::from(x));
    }

    let big = RnsContext::new(&[P, Q, 4611686018309947393]).unwrap();
    let product = BigUint::from(P) * BigUint::from(Q) * BigUint::from(4611686018309947393u64);
    assert_eq!(big.modulus(), &product);
    let x = &product - BigUint::from(12345u64);
    let rests = big.project(&x);
    assert_eq!(rests[0], P - 12345 % P);
    assert_eq!(rests[1], Q - 12345);
    assert_eq!(big.lift(&rests), x);
    // a number beyond the product is lifted to its remainder
    let y = &product + BigUint::from(9u64);
    assert_eq!(big.lift(&big.project(&y)), BigUint::from(9u64));
}
