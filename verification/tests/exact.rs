use num_bigint::BigUint;
use sss_rs::field::Field;
use sss_rs::polynomial::Polynomial;
use sss_rs::{
    beta_wrapper, blank_shares, deal_chunk, distribute, distribute_in, mod_sub, reconstruct,
    reconstruct_strict, SSSError, Share,
};
use std::rc::Rc;

const P17: u32 = 65537;

fn field17() -> Rc<Field> {
    Rc::new(Field::from_prime(BigUint::from(P17), 17).unwrap())
}

fn big(n: u64) -> BigUint {
    BigUint::from(n)
}

/// Shares of the two-byte chunk 1234 by 1234 + 166 x + 94 x^2 over 65537.
fn small_shares(n: usize) -> Vec<Share> {
    let field = field17();
    let polynomial =
        Polynomial::with_coefficients(field.clone(), big(1234), vec![big(166), big(94)]);
    let mut shares = blank_shares(n, &field);
    deal_chunk(&mut shares, &polynomial, 2);
    shares
}

fn pick(shares: Vec<Share>, keys: &[usize]) -> Vec<Share> {
    let mut slots: Vec<Option<Share>> = shares.into_iter().map(Some).collect();
    keys.iter().map(|k| slots[*k - 1].take().unwrap()).collect()
}

#[test]
fn from_prime_wants_the_exact_bit_length() {
    assert!(Field::from_prime(big(65537), 17).is_some());
    assert!(Field::from_prime(big(131071), 17).is_some());
    assert!(Field::from_prime(big(65536), 17).is_some());
    assert!(Field::from_prime(big(65535), 17).is_none());
    assert!(Field::from_prime(big(131072), 17).is_none());
    assert!(Field::from_prime(big(65537), 18).is_none());
    assert!(Field::from_prime(big(0), 17).is_none());
}

#[test]
fn from_prime_refuses_sixteen_bits_or_fewer() {
    assert!(Field::from_prime(big(65521), 16).is_none());
    assert!(Field::from_prime(big(3), 2).is_none());
    assert!(Field::from_prime(big(0), 0).is_none());
}

#[test]
fn from_draw_wants_a_passed_test_and_the_exact_bit_length() {
    assert!(Field::from_draw(big(65537), true, 17).is_some());
    assert!(Field::from_draw(big(65537), false, 17).is_none());
    assert!(Field::from_draw(big(131071), false, 17).is_none());
    assert!(Field::from_draw(big(65535), true, 17).is_none());
    assert!(Field::from_draw(big(131072), true, 17).is_none());
    assert!(Field::from_draw(big(65537), true, 18).is_none());
    assert!(Field::from_draw(big(65521), true, 16).is_none());
    assert!(Field::from_draw(big(3), true, 2).is_none());
    let field = Field::from_draw(big(131071), true, 17).unwrap();
    assert_eq!(*field.prime(), big(131071));
}

#[test]
fn from_prime_keeps_the_modulus() {
    let field = Field::from_prime(big(65537), 17).unwrap();
    assert_eq!(*field.prime(), big(65537));
}

#[test]
fn new_field_has_the_bits_asked_for() {
    for bits in [17usize, 18, 32, 65, 129, 257] {
        let field = Field::new(bits).unwrap();
        assert_eq!(field.prime().bits(), bits as u64);
    }
}

#[test]
fn new_field_of_seventeen_bits_again_and_again() {
    for _ in 0..200 {
        let field = Field::new(17).unwrap();
        assert!(*field.prime() > big(65536));
        assert!(*field.prime() < big(131072));
        assert_eq!(field.prime() % big(2), big(1));
    }
}

#[test]
fn sharing_over_a_given_modulus() {
    let secret = [0x34u8, 0x12, 0xff, 0xff, 0x07];
    let shares = distribute_in(&field17(), &secret, 2, 5, 3);
    assert_eq!(shares.len(), 5);
    for (k, share) in shares.iter().enumerate() {
        assert_eq!(share.key(), k + 1);
        assert_eq!(*share.prime(), big(65537));
        let sizes: Vec<usize> = share.values().iter().map(|v| v.chunk_size()).collect();
        assert_eq!(sizes, vec![2, 2, 1]);
        for value in share.values() {
            assert!(*value.number() < big(65537));
        }
    }
    assert_eq!(reconstruct(&shares[..3]), Ok(secret.to_vec()));
    assert_eq!(reconstruct(&shares[2..]), Ok(secret.to_vec()));
    assert_eq!(reconstruct(&pick(shares, &[5, 1, 3, 2])), Ok(secret.to_vec()));
}

#[test]
fn sharing_over_a_given_modulus_with_threshold_one() {
    let secret = [0x34u8, 0x12, 0xff, 0xff, 0x07];
    let shares = distribute_in(&field17(), &secret, 2, 3, 1);
    for share in &shares {
        assert_eq!(*share.values()[0].number(), big(0x1234));
        assert_eq!(*share.values()[1].number(), big(0xffff));
        assert_eq!(*share.values()[2].number(), big(0x07));
    }
}

#[test]
fn sharing_over_a_given_modulus_draws_fresh_coefficients() {
    let secret = [1u8; 64];
    let shares = distribute_in(&field17(), &secret, 2, 2, 2);
    let first: Vec<BigUint> = shares[0].values().iter().map(|v| v.number().clone()).collect();
    assert_eq!(first.len(), 32);
    assert!(first.iter().any(|v| *v != first[0]));
}

#[test]
fn sharing_nothing_over_a_given_modulus() {
    let shares = distribute_in(&field17(), &[], 2, 3, 2);
    assert_eq!(shares.len(), 3);
    assert!(shares.iter().all(|s| s.values().is_empty()));
    assert!(distribute_in(&field17(), b"ab", 2, 0, 1).is_empty());
}

#[test]
fn keys_congruent_modulo_the_modulus_are_not_told_apart() {
    // 65538 = 1 + 65537: the shares of the keys 1 and 65538 hold the same values
    let shares = distribute_in(&field17(), &[9u8, 9], 2, 65538, 2);
    assert_eq!(shares[0].values()[0].number(), shares[65537].values()[0].number());
}

#[test]
fn polynomial_values_without_reduction() {
    let p = Polynomial::with_coefficients(field17(), big(1234), vec![big(166), big(94)]);
    assert_eq!(p.call(0), big(1234));
    assert_eq!(p.call(1), big(1494));
    assert_eq!(p.call(2), big(1942));
    assert_eq!(p.call(3), big(2578));
    assert_eq!(p.call(4), big(3402));
}

#[test]
fn polynomial_values_are_reduced() {
    let p = Polynomial::with_coefficients(field17(), big(1234), vec![big(65000), big(60000)]);
    assert_eq!(p.call(1), big(60697));
    assert_eq!(p.call(2), big(43549));
    // 1234 + 65000 * 65537 + 60000 * 65537^2 is 1234 modulo 65537
    assert_eq!(p.call(65537), big(1234));
}

#[test]
fn polynomial_of_degree_zero_is_constant() {
    let p = Polynomial::with_coefficients(field17(), big(4321), Vec::new());
    assert_eq!(p.coefficients().len(), 0);
    for key in [0usize, 1, 2, 77, 70000] {
        assert_eq!(p.call(key), big(4321));
    }
}

#[test]
fn polynomial_keeps_its_coefficients() {
    let p = Polynomial::with_coefficients(field17(), big(1), vec![big(7), big(0), big(9)]);
    assert_eq!(*p.coefficients(), vec![big(7), big(0), big(9)]);
    assert_eq!(p.call(2), big(1 + 14 + 72));
}

#[test]
fn random_polynomial_has_reduced_coefficients() {
    let field = field17();
    let p = Polynomial::new(field.clone(), big(5), 40);
    assert_eq!(p.coefficients().len(), 40);
    for c in p.coefficients() {
        assert!(c < field.prime());
    }
    assert_eq!(p.call(0), big(5));
}

#[test]
fn blank_shares_have_keys_from_one() {
    let shares = blank_shares(4, &field17());
    assert_eq!(shares.len(), 4);
    for (k, share) in shares.iter().enumerate() {
        assert_eq!(share.key(), k + 1);
        assert_eq!(share.values().len(), 0);
        assert_eq!(*share.prime(), big(65537));
    }
    assert_eq!(blank_shares(0, &field17()).len(), 0);
}

#[test]
fn deal_chunk_appends_one_value_per_share() {
    let shares = small_shares(4);
    let expected = [1494u64, 1942, 2578, 3402];
    for (k, share) in shares.iter().enumerate() {
        assert_eq!(share.values().len(), 1);
        assert_eq!(share.values()[0].chunk_size(), 2);
        assert_eq!(*share.values()[0].number(), big(expected[k]));
    }
}

#[test]
fn deal_chunk_keeps_earlier_values() {
    let field = field17();
    let first = Polynomial::with_coefficients(field.clone(), big(10), vec![big(1)]);
    let second = Polynomial::with_coefficients(field.clone(), big(20), vec![big(2)]);
    let mut shares = blank_shares(2, &field);
    deal_chunk(&mut shares, &first, 2);
    deal_chunk(&mut shares, &second, 1);
    assert_eq!(*shares[0].values()[0].number(), big(11));
    assert_eq!(*shares[0].values()[1].number(), big(22));
    assert_eq!(*shares[1].values()[0].number(), big(12));
    assert_eq!(*shares[1].values()[1].number(), big(24));
    assert_eq!(shares[1].values()[0].chunk_size(), 2);
    assert_eq!(shares[1].values()[1].chunk_size(), 1);
}

#[test]
fn differences_are_residues() {
    assert_eq!(mod_sub(&big(5), &big(3), &big(7)), big(2));
    assert_eq!(mod_sub(&big(3), &big(5), &big(7)), big(5));
    assert_eq!(mod_sub(&big(3), &big(3), &big(7)), big(0));
    assert_eq!(mod_sub(&big(3), &big(7), &big(7)), big(3));
    assert_eq!(mod_sub(&big(20), &big(1), &big(7)), big(5));
    assert_eq!(mod_sub(&big(1), &big(20), &big(7)), big(2));
    assert_eq!(mod_sub(&big(0), &big(0), &big(1)), big(0));
}

#[test]
fn weights_of_three_keys() {
    let shares = small_shares(3);
    let prime = big(65537);
    // 2/(2-1) * 3/(3-1), 1/(1-2) * 3/(3-2), 1/(1-3) * 2/(2-3)
    assert_eq!(beta_wrapper(&prime, &shares[0], &shares), big(3));
    assert_eq!(beta_wrapper(&prime, &shares[1], &shares), big(65534));
    assert_eq!(beta_wrapper(&prime, &shares[2], &shares), big(1));
}

#[test]
fn weights_of_two_keys() {
    let shares = pick(small_shares(5), &[2, 5]);
    let prime = big(65537);
    // 1/3 is 21846: 5/(5-2) = 5 * 21846 = 43693, 2/(2-5) = -2 * 21846 = 21845
    assert_eq!(beta_wrapper(&prime, &shares[0], &shares), big(43693));
    assert_eq!(beta_wrapper(&prime, &shares[1], &shares), big(21845));
}

#[test]
fn weight_of_a_single_share_is_one() {
    let shares = pick(small_shares(3), &[2]);
    assert_eq!(beta_wrapper(&big(65537), &shares[0], &shares), big(1));
}

#[test]
fn weight_in_another_modulus() {
    let shares = small_shares(2);
    // modulo 7: 2/(2-1) = 2, 1/(1-2) = -1 = 6
    assert_eq!(beta_wrapper(&big(7), &shares[0], &shares), big(2));
    assert_eq!(beta_wrapper(&big(7), &shares[1], &shares), big(6));
}

#[test]
fn weight_skips_shares_with_the_same_key() {
    let mut shares = small_shares(2);
    shares.extend(small_shares(2));
    // keys 1, 2, 1, 2: for key 1 the factor 2/(2-1) is taken twice
    assert_eq!(beta_wrapper(&big(65537), &shares[0], &shares), big(4));
}

#[test]
fn three_shares_give_the_chunk() {
    let shares = small_shares(3);
    assert_eq!(reconstruct(&shares), Ok(vec![0xd2, 0x04]));
}

#[test]
fn any_three_of_five_give_the_chunk() {
    for keys in [[1usize, 2, 3], [3, 2, 1], [5, 1, 4], [2, 4, 5], [4, 3, 1]] {
        let shares = pick(small_shares(5), &keys);
        assert_eq!(reconstruct(&shares), Ok(vec![0xd2, 0x04]));
    }
}

#[test]
fn more_than_the_threshold_give_the_chunk() {
    assert_eq!(reconstruct(&pick(small_shares(5), &[5, 4, 2, 1])), Ok(vec![0xd2, 0x04]));
    assert_eq!(reconstruct(&small_shares(5)), Ok(vec![0xd2, 0x04]));
}

#[test]
fn two_of_three_give_something_else() {
    // 2 * 1494 - 1942 = 1046
    let shares = pick(small_shares(3), &[1, 2]);
    assert_eq!(reconstruct(&shares), Ok(vec![0x16, 0x04]));
}

#[test]
fn no_shares_is_an_error() {
    let shares: Vec<Share> = Vec::new();
    assert_eq!(reconstruct(&shares), Err(SSSError::NoShares));
}

#[test]
fn shares_without_values_give_no_bytes() {
    let shares = blank_shares(3, &field17());
    assert_eq!(reconstruct(&shares), Ok(Vec::new()));
}

#[test]
fn recovered_number_is_padded_to_the_chunk_length() {
    let field = field17();
    let polynomial = Polynomial::with_coefficients(field.clone(), big(5), Vec::new());
    let mut shares = blank_shares(1, &field);
    deal_chunk(&mut shares, &polynomial, 2);
    assert_eq!(reconstruct(&shares), Ok(vec![5, 0]));
}

#[test]
fn recovered_number_is_cut_to_the_chunk_length() {
    let field = field17();
    let polynomial = Polynomial::with_coefficients(field.clone(), big(0x1234), Vec::new());
    let mut shares = blank_shares(1, &field);
    deal_chunk(&mut shares, &polynomial, 1);
    deal_chunk(&mut shares, &polynomial, 0);
    deal_chunk(&mut shares, &polynomial, 3);
    assert_eq!(reconstruct(&shares), Ok(vec![0x34, 0x34, 0x12, 0x00]));
}

#[test]
fn zero_is_written_as_zero_bytes() {
    let field = field17();
    let polynomial = Polynomial::with_coefficients(field.clone(), big(0), Vec::new());
    let mut shares = blank_shares(2, &field);
    deal_chunk(&mut shares, &polynomial, 2);
    assert_eq!(reconstruct(&shares), Ok(vec![0, 0]));
}

#[test]
fn error_messages() {
    assert_eq!(SSSError::NoShares.message(), "No shares");
    assert_eq!(SSSError::NoPrime.message(), "No prime");
    assert_eq!(SSSError::MismatchedField.message(), "Shares of different fields");
    assert_eq!(SSSError::MismatchedLength.message(), "Shares of different lengths");
    assert_eq!(SSSError::DuplicateKey.message(), "Shares with the same key");
    assert_ne!(SSSError::NoShares, SSSError::NoPrime);
}

#[test]
fn strict_reconstruction_of_good_shares() {
    assert_eq!(reconstruct_strict(&small_shares(3)), Ok(vec![0xd2, 0x04]));
    assert_eq!(reconstruct_strict(&pick(small_shares(5), &[4, 1, 3])), Ok(vec![0xd2, 0x04]));
    let secret = b"strictly the same";
    let shares = distribute(secret, 4, 5, 3).unwrap();
    assert_eq!(reconstruct_strict(&shares[2..]), Ok(secret.to_vec()));
}

#[test]
fn strict_reconstruction_wants_shares() {
    let shares: Vec<Share> = Vec::new();
    assert_eq!(reconstruct_strict(&shares), Err(SSSError::NoShares));
}

#[test]
fn strict_reconstruction_wants_one_field() {
    let other = Rc::new(Field::from_prime(big(131071), 17).unwrap());
    let polynomial = Polynomial::with_coefficients(other.clone(), big(1234), vec![big(166)]);
    let mut foreign = blank_shares(3, &other);
    deal_chunk(&mut foreign, &polynomial, 2);
    let mut shares = pick(small_shares(3), &[1, 2]);
    shares.push(foreign.pop().unwrap());
    assert_eq!(reconstruct_strict(&shares), Err(SSSError::MismatchedField));
}

#[test]
fn strict_reconstruction_wants_equal_lengths() {
    let field = field17();
    let polynomial = Polynomial::with_coefficients(field.clone(), big(7), Vec::new());
    let mut long = blank_shares(2, &field);
    deal_chunk(&mut long, &polynomial, 2);
    deal_chunk(&mut long, &polynomial, 2);
    let mut shares = pick(small_shares(3), &[3]);
    shares.push(long.pop().unwrap());
    assert_eq!(reconstruct_strict(&shares), Err(SSSError::MismatchedLength));
    shares.reverse();
    assert_eq!(reconstruct_strict(&shares), Err(SSSError::MismatchedLength));
}

#[test]
fn strict_reconstruction_wants_distinct_keys() {
    let mut shares = small_shares(3);
    shares.extend(pick(small_shares(3), &[2]));
    assert_eq!(reconstruct_strict(&shares), Err(SSSError::DuplicateKey));
}

#[test]
fn strict_reconstruction_reports_the_field_first() {
    let other = Rc::new(Field::from_prime(big(131071), 17).unwrap());
    let mut shares = small_shares(2);
    shares.extend(blank_shares(2, &other));
    // another modulus, no values, and keys that are taken
    assert_eq!(reconstruct_strict(&shares), Err(SSSError::MismatchedField));
    let mut shares = small_shares(2);
    shares.extend(blank_shares(2, &field17()));
    assert_eq!(reconstruct_strict(&shares), Err(SSSError::MismatchedLength));
}

#[test]
fn distribute_gives_n_shares_with_one_value_per_chunk() {
    let secret = b"abcdefghijklmnopqrstuvwxyz";
    let shares = distribute(secret, 8, 10, 8).unwrap();
    assert_eq!(shares.len(), 10);
    for (k, share) in shares.iter().enumerate() {
        assert_eq!(share.key(), k + 1);
        assert_eq!(share.prime(), shares[0].prime());
        assert_eq!(share.prime().bits(), 65);
        let sizes: Vec<usize> = share.values().iter().map(|v| v.chunk_size()).collect();
        assert_eq!(sizes, vec![8, 8, 8, 2]);
        for value in share.values() {
            assert!(value.number() < share.prime());
        }
    }
}

#[test]
fn distribute_makes_an_odd_modulus() {
    for chunk_size in [2usize, 3, 8, 16] {
        let shares = distribute(b"odd", chunk_size, 2, 2).unwrap();
        assert_eq!(shares[0].prime() % big(2), big(1));
        assert_eq!(shares[0].prime().bits(), 8 * chunk_size as u64 + 1);
    }
}

#[test]
fn recorded_lengths_add_up_to_the_length_of_the_secret() {
    for len in [0usize, 1, 4, 5, 9, 12, 13] {
        let secret = vec![0xabu8; len];
        let shares = distribute_in(&field17(), &secret, 2, 3, 2);
        for share in &shares {
            let sizes: Vec<usize> = share.values().iter().map(|v| v.chunk_size()).collect();
            assert_eq!(sizes.len(), (len + 1) / 2);
            assert_eq!(sizes.iter().sum::<usize>(), len);
            for (j, size) in sizes.iter().enumerate() {
                assert_eq!(*size, std::cmp::min(2, len - 2 * j));
            }
        }
        // one share is below the threshold: the bytes may differ, their number does not
        assert_eq!(reconstruct(&shares[..1]).unwrap().len(), len);
    }
}

#[test]
fn distribute_of_an_exact_multiple_has_no_short_chunk() {
    let shares = distribute(&[7u8; 16], 4, 3, 2).unwrap();
    let sizes: Vec<usize> = shares[2].values().iter().map(|v| v.chunk_size()).collect();
    assert_eq!(sizes, vec![4, 4, 4, 4]);
    assert_eq!(reconstruct(&shares[1..]), Ok(vec![7u8; 16]));
}

#[test]
fn distribute_of_the_empty_secret() {
    let shares = distribute(&[], 8, 4, 2).unwrap();
    assert_eq!(shares.len(), 4);
    assert!(shares.iter().all(|s| s.values().is_empty()));
    assert_eq!(reconstruct(&shares), Ok(Vec::new()));
}

#[test]
fn distribute_to_nobody() {
    let shares = distribute(b"secret", 2, 0, 1).unwrap();
    assert!(shares.is_empty());
    assert_eq!(reconstruct(&shares), Err(SSSError::NoShares));
}

#[test]
fn threshold_one_hands_out_the_chunks_themselves() {
    let secret = b"\x01\x02\x03\x04\x05";
    let shares = distribute(secret, 2, 4, 1).unwrap();
    for share in &shares {
        assert_eq!(*share.values()[0].number(), big(0x0201));
        assert_eq!(*share.values()[1].number(), big(0x0403));
        assert_eq!(*share.values()[2].number(), big(0x05));
    }
    for share in shares {
        assert_eq!(reconstruct(&[share]), Ok(secret.to_vec()));
    }
}

#[test]
fn secrets_whose_length_is_no_multiple_of_the_chunk_size() {
    for len in [1usize, 2, 3, 7, 8, 9, 15, 17, 31] {
        let secret: Vec<u8> = (0..len).map(|i| (i * 37 + 11) as u8).collect();
        let shares = distribute(&secret, 8, 5, 3).unwrap();
        assert_eq!(shares[0].values().len(), (len + 7) / 8);
        assert_eq!(reconstruct(&shares[1..4]), Ok(secret));
    }
}

#[test]
fn chunks_with_trailing_zero_bytes_come_back() {
    let secret = vec![0u8, 0, 0, 0, 9, 0, 0, 0, 0, 0];
    let shares = distribute(&secret, 4, 3, 2).unwrap();
    assert_eq!(reconstruct(&shares[..2]), Ok(secret));
}

#[test]
fn chunks_of_all_ones_come_back() {
    let secret = vec![0xffu8; 12];
    let shares = distribute(&secret, 3, 6, 6).unwrap();
    assert_eq!(reconstruct(&shares), Ok(secret));
}

#[test]
fn order_of_the_shares_does_not_matter() {
    let secret = b"order does not matter";
    let shares = distribute(secret, 5, 6, 4).unwrap();
    let forward = reconstruct(&shares[..4]).unwrap();
    let mut reversed = pick(shares, &[4, 3, 2, 1]);
    assert_eq!(reconstruct(&reversed), Ok(forward.clone()));
    reversed.swap(0, 2);
    assert_eq!(reconstruct(&reversed), Ok(forward.clone()));
    assert_eq!(forward, secret.to_vec());
}

#[test]
fn scenario_nine_of_ten() {
    let secret = "abcdefghijklmnopqrstuvwxyz";
    for skip in 1..=10usize {
        let keys: Vec<usize> = (1..=10).rev().filter(|k| *k != skip).collect();
        assert_eq!(keys.len(), 9);
        let shares = distribute(secret.as_bytes(), 8, 10, 8).unwrap();
        assert_eq!(reconstruct(&pick(shares, &keys)), Ok(secret.as_bytes().to_vec()));
    }
}
