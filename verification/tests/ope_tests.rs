use ope::hgd::{hypergeometric_hyp, Coins, PRNG};
use ope::ope::{Ope, OpeError, ValueRange};
use ope::stats::{sample_hgd, sample_uniform};
use ope::utils::{byte_to_bitstring, data_to_byte_list, str_to_bitstring};

#[test]
fn test_value_range_new() {
    assert!(ValueRange::new(5, 3).is_err());
    assert_eq!(ValueRange::new(3, 5), Ok(ValueRange { start: 3, end: 5 }));
}

#[test]
fn test_value_range_size() {
    let range = ValueRange::new(3, 5).unwrap();
    assert_eq!(range.size(), 3);

    let range = ValueRange::new(-3, -1).unwrap();
    assert_eq!(range.size(), 3);
}

#[test]
fn test_value_range_contains() {
    let range = ValueRange::new(3, 5).unwrap();
    assert!(range.contains(4));
    assert!(!range.contains(6));
}

#[test]
#[should_panic]
fn test_ope_new() {
    let key = b"test_key";
    assert!(Ope::new(key, Some(ValueRange::new(5, 3).unwrap()), None).is_err());
    assert!(Ope::new(key, None, None).is_err());
}

#[test]
fn test_ope_encrypt_decrypt() {
    let key = b"test_key";
    let ope = Ope::new(key, None, None).unwrap();

    let plaintext = 5;
    let ciphertext = ope.encrypt(plaintext).unwrap();
    assert!(ope.out_range.contains(ciphertext));

    let decrypted = ope.decrypt(ciphertext).unwrap();
    assert_eq!(plaintext, decrypted);
}

#[test]
fn test_ope_order_preserving_encryption() {
    let key = b"test_key";
    let ope = Ope::new(key, None, None).unwrap();

    let mut plaintexts = vec![3, 1, 4, 5, 9, 2, 6, 5];
    let mut ciphertexts = Vec::new();

    for &plaintext in plaintexts.iter() {
        let ciphertext = ope.encrypt(plaintext).unwrap();
        ciphertexts.push(ciphertext);
    }

    plaintexts.sort();
    ciphertexts.sort();

    for (index, &plaintext) in plaintexts.iter().enumerate() {
        let original_ciphertext = ope.encrypt(plaintext).unwrap();
        assert_eq!(original_ciphertext, ciphertexts[index]);
    }
}

#[test]
fn test_ope_new_out_of_range() {
    let key = b"test_key";
    let in_range = ValueRange::new(0, 10).unwrap();
    let out_range = ValueRange::new(0, 5).unwrap();
    assert_eq!(
        Ope::new(key, Some(in_range), Some(out_range)).err(),
        Some(OpeError::OutOfRangeError)
    );

    let ope = Ope::new(key, None, None).unwrap();
    assert_eq!(ope.in_range, ValueRange { start: 0, end: 32767 });
    assert_eq!(ope.out_range, ValueRange { start: 0, end: 32767 });
}

#[test]
fn test_ope_encrypt_rejects_values_outside_domain() {
    let key = b"test_key";
    let ope = Ope::new(key, None, None).unwrap();
    assert_eq!(ope.encrypt(32768).err(), Some(OpeError::OutOfRangeError));
    assert_eq!(ope.decrypt(-1).err(), Some(OpeError::OutOfRangeError));
}

#[test]
fn test_ope_encrypt_stays_in_out_range() {
    let key = b"test_key";
    let ope = Ope::new(key, None, None).unwrap();
    let ciphertext = ope.encrypt(5).unwrap();
    assert!(ope.out_range.contains(ciphertext));
}

#[test]
fn test_ope_encrypt_deterministic() {
    let key = b"test_key";
    let first = Ope::new(key, None, None).unwrap();
    let second = Ope::new(key, None, None).unwrap();
    for value in [0, 1, 5, 100, 32767] {
        assert_eq!(first.encrypt(value).unwrap(), second.encrypt(value).unwrap());
    }
}

#[test]
fn test_ope_round_trip_shifted_ranges() {
    let key = b"test_key";
    let in_range = ValueRange::new(0, 10).unwrap();
    let out_range = ValueRange::new(100, 110).unwrap();
    let ope = Ope::new(key, Some(in_range), Some(out_range)).unwrap();
    for value in 0..=10 {
        let ciphertext = ope.encrypt(value).unwrap();
        assert_eq!(ciphertext, value + 100);
        assert_eq!(ope.decrypt(ciphertext).unwrap(), value);
    }
}

#[test]
fn test_ope_unequal_ranges_round_trip() {
    // The ciphertext domain is one value larger than the plaintext domain,
    // so the hypergeometric split genuinely runs.
    let key = b"test_key";
    let in_range = ValueRange::new(0, 1).unwrap();
    let out_range = ValueRange::new(254, 256).unwrap();
    let ope = Ope::new(key, Some(in_range), Some(out_range)).unwrap();
    let first = ope.encrypt(0).unwrap();
    let second = ope.encrypt(1).unwrap();
    assert_eq!(first, 254);
    assert_eq!(second, 256);
    assert!(first < second);
    assert_eq!(ope.decrypt(first), Ok(0));
    assert_eq!(ope.decrypt(second), Ok(1));
}

#[test]
fn test_ope_encrypt_runs_out_of_coins() {
    // A genuinely random split needs more than the 32 coins one tape holds.
    let key = b"test_key";
    let in_range = ValueRange::new(0, 1).unwrap();
    let out_range = ValueRange::new(0, 3).unwrap();
    let ope = Ope::new(key, Some(in_range), Some(out_range)).unwrap();
    assert_eq!(ope.encrypt(0).err(), Some(OpeError::NotEnoughCoinsError));
}

#[test]
fn test_sample_uniform_singleton_consumes_nothing() {
    let range = ValueRange::new(7, 7).unwrap();
    let mut coins = Coins::new(vec![true, false, true]);
    assert_eq!(sample_uniform(range, &mut coins), Ok(7));
    assert_eq!(coins.remaining_len(), 3);
}

#[test]
fn test_sample_uniform_bisection() {
    let range = ValueRange::new(0, 3).unwrap();
    let mut coins = Coins::new(vec![false, true]);
    assert_eq!(sample_uniform(range, &mut coins), Ok(1));
    assert_eq!(coins.remaining_len(), 0);
}

#[test]
fn test_sample_uniform_runs_out_of_coins() {
    let range = ValueRange::new(0, 3).unwrap();
    let mut coins = Coins::new(vec![false]);
    assert_eq!(sample_uniform(range, &mut coins), Err(OpeError::NotEnoughCoinsError));
}

#[test]
fn test_sample_uniform_rejects_malformed_range() {
    let range = ValueRange { start: 5, end: 3 };
    let mut coins = Coins::new(vec![false, true]);
    assert_eq!(sample_uniform(range, &mut coins), Err(OpeError::InvalidRangeLimitsError));
}

#[test]
fn test_sample_hgd_identity_consumes_nothing() {
    let in_range = ValueRange::new(0, 9).unwrap();
    let out_range = ValueRange::new(10, 19).unwrap();
    let mut coins = Coins::new(vec![true, true, false]);
    assert_eq!(sample_hgd(in_range, out_range, 14, &mut coins), Ok(4));
    assert_eq!(coins.remaining_len(), 3);
}

#[test]
fn test_sample_hgd_rejects_midpoint_outside_range() {
    let in_range = ValueRange::new(0, 9).unwrap();
    let out_range = ValueRange::new(10, 19).unwrap();
    let mut coins = Coins::new(vec![true, true, false]);
    assert_eq!(sample_hgd(in_range, out_range, 25, &mut coins), Err(OpeError::OutOfRangeError));
}

#[test]
fn test_sample_hgd_rejects_oversized_in_range() {
    let in_range = ValueRange::new(0, 9).unwrap();
    let out_range = ValueRange::new(0, 4).unwrap();
    let mut coins = Coins::new(vec![true, true, false]);
    assert_eq!(sample_hgd(in_range, out_range, 2, &mut coins), Err(OpeError::OutOfRangeError));
}

#[test]
fn test_sample_hgd_rejects_unmappable_count() {
    // Four all-zero draws keep the remaining-good count at 1 until the last
    // draw, and a final all-one draw pushes it below zero: the count of good
    // items comes out as 2 from a single-value plaintext interval.
    let mut bits = vec![false; 128];
    bits.extend(vec![true; 32]);
    let in_range = ValueRange::new(0, 0).unwrap();
    let out_range = ValueRange::new(0, 4).unwrap();
    let mut coins = Coins::new(bits);
    assert_eq!(sample_hgd(in_range, out_range, 4, &mut coins), Err(OpeError::InvalidCoinError));
    assert_eq!(coins.remaining_len(), 0);
}

#[test]
fn test_hypergeometric_no_good_items_yields_zero() {
    let mut coins = Coins::new(vec![true; 64]);
    assert_eq!(hypergeometric_hyp(&mut coins, 0, 5, 3), Ok(0));
    assert_eq!(coins.remaining_len(), 64);
}

#[test]
fn test_hypergeometric_no_bad_items_yields_sample_size() {
    let mut coins = Coins::new(vec![true; 64]);
    assert_eq!(hypergeometric_hyp(&mut coins, 7, 0, 4), Ok(4));
    assert_eq!(coins.remaining_len(), 64);
}

#[test]
fn test_prng_draw_packs_most_significant_bit_first() {
    let mut bits = vec![true];
    bits.extend(vec![false; 31]);
    let mut prng = PRNG::new(Coins::new(bits));
    assert_eq!(prng.draw(), Ok(0x8000_0000));
    assert_eq!(prng.coins.remaining_len(), 0);

    let mut short = PRNG::new(Coins::new(vec![true; 31]));
    assert_eq!(short.draw(), Err(OpeError::NotEnoughCoinsError));
}

#[test]
fn test_byte_to_bitstring() {
    assert_eq!(byte_to_bitstring(176), vec![1, 0, 1, 1, 0, 0, 0, 0]);
    assert_eq!(byte_to_bitstring(0), vec![0; 8]);
    assert_eq!(byte_to_bitstring(255), vec![1; 8]);
}

#[test]
fn test_data_to_byte_list() {
    assert_eq!(data_to_byte_list(&vec![1, 2, 3]), vec![1, 2, 3]);
}

#[test]
fn test_str_to_bitstring() {
    assert_eq!(
        str_to_bitstring(vec![1, 128]),
        vec![0, 0, 0, 0, 0, 0, 0, 1, 1, 0, 0, 0, 0, 0, 0, 0]
    );
    assert_eq!(str_to_bitstring(vec![]), Vec::<u8>::new());
}
