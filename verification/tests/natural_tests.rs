use timelock_chain::encoding::{be_bytes_of, strip_leading_zeros};
use timelock_chain::error::from_backend;
use timelock_chain::natural::prime_of_length;
use timelock_chain::{Error, Natural};

fn hex_bytes(s: &str) -> Vec<u8> {
    let digits: Vec<u8> = s
        .bytes()
        .map(|b| match b {
            b'0'..=b'9' => b - b'0',
            b'a'..=b'f' => b - b'a' + 10,
            _ => panic!("not a hex digit"),
        })
        .collect();
    digits.chunks(2).map(|pair| pair[0] * 16 + pair[1]).collect()
}

fn natural(bytes: &[u8]) -> Natural {
    Natural::from_be_bytes(bytes).unwrap()
}

#[test]
fn strip_leading_zeros_drops_only_the_leading_ones() {
    assert_eq!(strip_leading_zeros(&[0, 0, 1, 0, 2, 0]), vec![1, 0, 2, 0]);
    assert_eq!(strip_leading_zeros(&[7]), vec![7]);
    assert_eq!(strip_leading_zeros(&[0, 0, 0]), Vec::<u8>::new());
    assert_eq!(strip_leading_zeros(&[]), Vec::<u8>::new());
}

#[test]
fn be_bytes_of_gives_the_shortest_encoding() {
    assert_eq!(be_bytes_of(0), Vec::<u8>::new());
    assert_eq!(be_bytes_of(1), vec![1]);
    assert_eq!(be_bytes_of(255), vec![255]);
    assert_eq!(be_bytes_of(256), vec![1, 0]);
    assert_eq!(be_bytes_of(0x0102_0304), vec![1, 2, 3, 4]);
    assert_eq!(be_bytes_of(u64::MAX), vec![255; 8]);
}

#[test]
fn natural_from_bytes_ignores_leading_zeros() {
    assert_eq!(natural(&[0, 0, 0x12, 0x00, 0x34]), natural(&[0x12, 0x00, 0x34]));
    assert_eq!(natural(&[0, 0, 0x12, 0x00, 0x34]).to_be_bytes(), vec![0x12, 0x00, 0x34]);
    assert_eq!(natural(&[0x12, 0x00, 0x34]), Natural::from_u64(0x120034));
}

#[test]
fn natural_from_bytes_refuses_what_the_backend_cannot_take() {
    let too_long = vec![0u8; 0x8000_0000];
    assert_eq!(Natural::from_be_bytes(&too_long), Err(Error::OperandTooLong));
}

#[test]
fn natural_zero_is_the_empty_string() {
    assert_eq!(natural(&[]).to_be_bytes(), Vec::<u8>::new());
    assert_eq!(natural(&[0, 0]).to_be_bytes(), Vec::<u8>::new());
    assert_eq!(Natural::from_u64(0).to_be_bytes(), Vec::<u8>::new());
    assert!(natural(&[0]).is_zero());
    assert!(!natural(&[1]).is_zero());
    assert!(!natural(&[1, 0]).is_zero());
}

#[test]
fn natural_is_at_most_one() {
    assert!(Natural::from_u64(0).is_at_most_one());
    assert!(Natural::from_u64(1).is_at_most_one());
    assert!(!Natural::from_u64(2).is_at_most_one());
    assert!(!Natural::from_u64(256).is_at_most_one());
    assert!(!Natural::from_u64(257).is_at_most_one());
    assert!(natural(&[0, 0, 1]).is_at_most_one());
}

#[test]
fn natural_from_u64_round_trips() {
    assert_eq!(Natural::from_u64(100160063).to_be_bytes(), hex_bytes("05f8523f"));
    assert_eq!(Natural::from_u64(u64::MAX).to_be_bytes(), vec![255; 8]);
}

#[test]
fn times_multiplies() {
    let product = Natural::from_u64(6).times(&Natural::from_u64(7)).unwrap();
    assert_eq!(product, Natural::from_u64(42));
    let square = Natural::from_u64(u64::MAX).times(&Natural::from_u64(u64::MAX)).unwrap();
    assert_eq!(square.to_be_bytes(), hex_bytes("fffffffffffffffe0000000000000001"));
    let zero = Natural::from_u64(0).times(&Natural::from_u64(12345)).unwrap();
    assert!(zero.is_zero());
}

#[test]
fn times_on_long_numbers() {
    let a: Vec<u8> = (1..=40).collect();
    let b: Vec<u8> = (101..=120).collect();
    let product = natural(&a).times(&natural(&b)).unwrap();
    assert_eq!(
        product.to_be_bytes(),
        hex_bytes("663266020777529a4f7306097e65c08fd48fc26d17c26d17c26d17c26d17c26d17c26d17c26d17b21efd4c0a36d0d749256b192eaa8bd17a85f2c0")
    );
}

#[test]
fn minus_subtracts() {
    let diff = Natural::from_u64(10).minus(&Natural::from_u64(3)).unwrap();
    assert_eq!(diff, Natural::from_u64(7));
    let none = Natural::from_u64(10).minus(&Natural::from_u64(10)).unwrap();
    assert!(none.is_zero());
    let borrow = Natural::from_u64(0x1_0000).minus(&Natural::from_u64(1)).unwrap();
    assert_eq!(borrow.to_be_bytes(), vec![0xff, 0xff]);
    let a: Vec<u8> = (1..=40).collect();
    let b: Vec<u8> = (101..=120).collect();
    assert_eq!(
        natural(&a).minus(&natural(&b)).unwrap().to_be_bytes(),
        hex_bytes("0102030405060708090a0b0c0d0e0f1011121313afafafafafafafafafafafafafafafafafafafb0")
    );
}

#[test]
fn modulo_reduces() {
    let r = Natural::from_u64(100).modulo(&Natural::from_u64(7)).unwrap();
    assert_eq!(r, Natural::from_u64(2));
    let exact = Natural::from_u64(49).modulo(&Natural::from_u64(7)).unwrap();
    assert!(exact.is_zero());
    let small = Natural::from_u64(5).modulo(&Natural::from_u64(7)).unwrap();
    assert_eq!(small, Natural::from_u64(5));
    let a: Vec<u8> = (1..=40).collect();
    let b: Vec<u8> = (101..=120).collect();
    assert_eq!(
        natural(&a).modulo(&natural(&b)).unwrap().to_be_bytes(),
        hex_bytes("340a920579677848a683cd8290281b6bba534508")
    );
}

#[test]
fn modulo_zero_is_refused() {
    let r = Natural::from_u64(100).modulo(&Natural::from_u64(0));
    assert_eq!(r, Err(Error::ZeroModulus));
    let r = Natural::from_u64(0).modulo(&natural(&[0, 0]));
    assert_eq!(r, Err(Error::ZeroModulus));
}

#[test]
fn mod_pow_raises_and_reduces() {
    let r = Natural::from_u64(3)
        .mod_pow(&Natural::from_u64(16), &Natural::from_u64(143))
        .unwrap();
    assert_eq!(r, Natural::from_u64(3));
    let r = Natural::from_u64(2)
        .mod_pow(&Natural::from_u64(10), &Natural::from_u64(1000))
        .unwrap();
    assert_eq!(r, Natural::from_u64(24));
    let r = Natural::from_u64(2)
        .mod_pow(&Natural::from_u64(200), &Natural::from_u64(1_000_000_007))
        .unwrap();
    assert_eq!(r, Natural::from_u64(499445072));
}

#[test]
fn mod_pow_edge_cases() {
    let seven = Natural::from_u64(7);
    let zero = Natural::from_u64(0);
    let one = Natural::from_u64(1);
    // Anything to the power 0 is 1, also 0.
    assert_eq!(Natural::from_u64(5).mod_pow(&zero, &seven).unwrap(), one);
    assert_eq!(zero.mod_pow(&zero, &seven).unwrap(), one);
    // 0 to a positive power is 0.
    assert!(zero.mod_pow(&seven, &seven).unwrap().is_zero());
    // Modulo 1 everything is 0.
    assert!(Natural::from_u64(5).mod_pow(&seven, &one).unwrap().is_zero());
    assert!(Natural::from_u64(5).mod_pow(&zero, &one).unwrap().is_zero());
    // An even modulus.
    assert_eq!(
        Natural::from_u64(3).mod_pow(&Natural::from_u64(4), &Natural::from_u64(10)).unwrap(),
        one
    );
    // A base above the modulus.
    assert_eq!(
        Natural::from_u64(100).mod_pow(&Natural::from_u64(2), &seven).unwrap(),
        Natural::from_u64(4)
    );
}

#[test]
fn mod_pow_on_long_numbers() {
    let a: Vec<u8> = (1..=40).collect();
    let b: Vec<u8> = (101..=120).collect();
    let modulus = natural(&a).minus(&Natural::from_u64(0)).unwrap();
    let modulus = Natural::from_be_bytes(&{
        let mut bytes = modulus.to_be_bytes();
        let last = bytes.len() - 1;
        bytes[last] += 2;
        bytes
    })
    .unwrap();
    assert_eq!(
        natural(&a).mod_pow(&natural(&b), &modulus).unwrap().to_be_bytes(),
        hex_bytes("0ce02368871425a999af0aea44a0b3bed35fba5062a0cd3c564aaf3a8d087020dd6f6988012578")
    );
}

#[test]
fn mod_pow_zero_modulus_is_refused() {
    let r = Natural::from_u64(3).mod_pow(&Natural::from_u64(2), &Natural::from_u64(0));
    assert_eq!(r, Err(Error::ZeroModulus));
}

#[test]
fn power_of_two_sets_one_bit() {
    assert_eq!(Natural::power_of_two(0).unwrap(), Natural::from_u64(1));
    assert_eq!(Natural::power_of_two(1).unwrap(), Natural::from_u64(2));
    assert_eq!(Natural::power_of_two(8).unwrap().to_be_bytes(), vec![1, 0]);
    assert_eq!(Natural::power_of_two(63).unwrap(), Natural::from_u64(1 << 63));
    let big = Natural::power_of_two(100).unwrap().to_be_bytes();
    assert_eq!(big.len(), 13);
    assert_eq!(big[0], 0x10);
    assert!(big[1..].iter().all(|b| *b == 0));
}

#[test]
fn power_of_two_beyond_the_bit_index_is_refused() {
    assert_eq!(Natural::power_of_two(0x8000_0000), Err(Error::OperandTooLong));
    assert_eq!(Natural::power_of_two(u32::MAX), Err(Error::OperandTooLong));
}

#[test]
fn random_prime_has_the_length_asked_for() {
    let p = Natural::random_prime(64).unwrap().to_be_bytes();
    assert_eq!(p.len(), 8);
    assert!(p[0] >= 0x80);
    assert_eq!(p[7] % 2, 1);
    let q = Natural::random_prime(20).unwrap().to_be_bytes();
    assert_eq!(q.len(), 3);
    assert!(q[0] >= 0x08);
}

#[test]
fn random_prime_is_fresh_each_time() {
    let p = Natural::random_prime(128).unwrap();
    let q = Natural::random_prime(128).unwrap();
    assert_ne!(p, q);
}

#[test]
fn random_prime_of_too_few_bits_is_refused() {
    assert_eq!(Natural::random_prime(1), Err(Error::PrimeTooShort));
    assert_eq!(Natural::random_prime(0), Err(Error::PrimeTooShort));
    assert_eq!(Natural::random_prime(-5), Err(Error::PrimeTooShort));
    assert_eq!(Natural::random_prime(i32::MIN), Err(Error::PrimeTooShort));
}

#[test]
fn random_prime_of_two_bits_is_two_or_three() {
    for _ in 0..8 {
        let p = Natural::random_prime(2).unwrap();
        assert!(p == Natural::from_u64(2) || p == Natural::from_u64(3));
    }
}

#[test]
fn random_prime_has_exactly_the_bits_asked_for() {
    for bits in [2, 3, 7, 8, 9, 16, 31, 64, 100] {
        let p = Natural::random_prime(bits).unwrap();
        assert_eq!(p.bit_length(), bits as u64);
    }
}

#[test]
fn bit_length_counts_binary_digits() {
    assert_eq!(Natural::from_u64(0).bit_length(), 0);
    assert_eq!(Natural::from_u64(1).bit_length(), 1);
    assert_eq!(Natural::from_u64(2).bit_length(), 2);
    assert_eq!(Natural::from_u64(3).bit_length(), 2);
    assert_eq!(Natural::from_u64(4).bit_length(), 3);
    assert_eq!(Natural::from_u64(127).bit_length(), 7);
    assert_eq!(Natural::from_u64(128).bit_length(), 8);
    assert_eq!(Natural::from_u64(255).bit_length(), 8);
    assert_eq!(Natural::from_u64(256).bit_length(), 9);
    assert_eq!(Natural::from_u64(0x1234).bit_length(), 13);
    assert_eq!(Natural::from_u64(u64::MAX).bit_length(), 64);
    assert_eq!(Natural::power_of_two(100).unwrap().bit_length(), 101);
    assert_eq!(natural(&[0, 0, 0x40, 0, 0]).bit_length(), 23);
}

#[test]
fn prime_of_length_hands_on_only_the_length_asked_for() {
    assert_eq!(prime_of_length(Natural::from_u64(200), 8), Ok(Natural::from_u64(200)));
    assert_eq!(prime_of_length(Natural::from_u64(128), 8), Ok(Natural::from_u64(128)));
    assert_eq!(prime_of_length(Natural::from_u64(255), 8), Ok(Natural::from_u64(255)));
    assert_eq!(prime_of_length(Natural::from_u64(3), 2), Ok(Natural::from_u64(3)));
    // Too long, too short, and 0.
    assert_eq!(prime_of_length(Natural::from_u64(256), 8), Err(Error::Backend));
    assert_eq!(prime_of_length(Natural::from_u64(127), 8), Err(Error::Backend));
    assert_eq!(prime_of_length(Natural::from_u64(200), 9), Err(Error::Backend));
    assert_eq!(prime_of_length(Natural::from_u64(0), 2), Err(Error::Backend));
    assert_eq!(prime_of_length(Natural::from_u64(1), 2), Err(Error::Backend));
}

#[test]
fn from_backend_keeps_values_and_folds_failures() {
    let kept: Result<u32, Error> = from_backend(Ok(17));
    assert_eq!(kept, Ok(17));
    let folded: Result<u32, Error> = from_backend(Err(openssl::error::ErrorStack::get()));
    assert_eq!(folded, Err(Error::Backend));
}
