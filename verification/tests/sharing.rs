use num_bigint::BigUint;
use num_traits::Zero;
use rand::seq::SliceRandom;
use rand::Rng;
use sss_rs::field::Field;
use sss_rs::polynomial::Polynomial;
use sss_rs::{distribute, reconstruct};
use std::rc::Rc;

#[test]
#[should_panic]
fn test_uintsub() {
    let a = BigUint::from(3u32);
    let b = BigUint::from(4u32);
    let _ = a - b;
}

#[test]
fn test_sss() {
    const SECRET: &str = "abcdefghijklmnopqrstuvwxyz";
    const SIZE: usize = 10;
    const THRESHOLD: usize = 8;

    let mut shares = distribute(SECRET.as_bytes(), 8, SIZE, THRESHOLD).unwrap();
    println!("origin is {:x?}", SECRET.as_bytes());

    let act = reconstruct(&shares[..THRESHOLD + 1]).unwrap();
    println!("acture1 is {:x?}", act.as_slice());
    let res = std::str::from_utf8(act.as_slice()).unwrap();
    assert_eq!(SECRET, res);

    let mut rng = rand::thread_rng();
    shares.shuffle(&mut rng);
    let act = reconstruct(&shares[..THRESHOLD + 1]).unwrap();
    println!("acture2 is {:x?}", act.as_slice());
    let res = std::str::from_utf8(act.as_slice()).unwrap();
    assert_eq!(SECRET, res);

    shares.shuffle(&mut rng);
    let act = reconstruct(&shares[..THRESHOLD + 1]).unwrap();
    println!("acture3 is {:x?}", act.as_slice());
    let res = std::str::from_utf8(act.as_slice()).unwrap();
    assert_eq!(SECRET, res);
}

#[test]
fn test_multi_times() {
    let size = 10;
    let threshold = 10;

    let mut rng = rand::thread_rng();

    (0..100).for_each(|_| {
        let secret: Vec<u8> = (0..rng.gen_range(1, 1024)).map(|_| rng.gen()).collect();

        let mut shares = distribute(&secret, 16, size, size).unwrap();
        shares.shuffle(&mut rng);
        let act = reconstruct(&shares[0..threshold]).unwrap();
        assert_eq!(secret.to_vec(), act);
    });
}

#[test]
fn test_polynomial() {
    let field = Rc::new(Field::new(32).unwrap());
    let threshold = 2;
    let polynomial = Polynomial::new(field.clone(), BigUint::zero(), threshold - 1);
    assert_eq!(polynomial.coefficients().len(), 1);
    assert_eq!(polynomial.call(0), BigUint::zero());
    assert_eq!(polynomial.call(1), polynomial.coefficients()[0]);
}
