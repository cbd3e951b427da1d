use timelock_chain::{eval, eval_trap, setup, trapdoor_exponent, DelayStep, Error, Natural};

fn from_hex(s: &str) -> Vec<u8> {
    let digits: Vec<u8> = s
        .bytes()
        .map(|b| match b {
            b'0'..=b'9' => b - b'0',
            b'a'..=b'f' => b - b'a' + 10,
            _ => panic!("not a hex digit"),
        })
        .collect();
    digits.chunks(2).map(|pair| pair[0] * 16 + pair[1]).collect()
}

#[test]
fn eval_squares_two_to_the_t_times() {
    let n = Natural::from_u64(143);
    // t = 0: one squaring.
    assert_eq!(eval(&[3], &n, 0).unwrap(), vec![9]);
    // t = 1: two squarings, 3^4 = 81.
    assert_eq!(eval(&[3], &n, 1).unwrap(), vec![81]);
    // t = 2: four squarings, 3^16 mod 143 = 3.
    assert_eq!(eval(&[3], &n, 2).unwrap(), vec![3]);
    // t = 3: eight squarings, 3^256 mod 143 = 3.
    assert_eq!(eval(&[3], &n, 3).unwrap(), vec![3]);
}

#[test]
fn eval_known_value() {
    let n = Natural::from_u64(1000003);
    assert_eq!(eval(&[2], &n, 4).unwrap(), from_hex("08032d"));
    let n = Natural::from_u64(0xffff);
    assert_eq!(eval(&[1, 0], &n, 1).unwrap(), vec![1]);
}

#[test]
fn eval_reads_big_endian_and_ignores_leading_zeros() {
    let n = Natural::from_u64(1000003);
    assert_eq!(eval(&[0, 0, 2], &n, 4).unwrap(), eval(&[2], &n, 4).unwrap());
    // 0x0100 = 256; 256^2 mod 1000003 = 65536.
    assert_eq!(eval(&[1, 0], &n, 0).unwrap(), vec![1, 0, 0]);
}

#[test]
fn eval_result_is_the_shortest_encoding() {
    let n = Natural::from_u64(143);
    assert_eq!(eval(&[], &n, 3).unwrap(), Vec::<u8>::new());
    assert_eq!(eval(&[0, 0], &n, 3).unwrap(), Vec::<u8>::new());
    assert_eq!(eval(&[5], &Natural::from_u64(1), 3).unwrap(), Vec::<u8>::new());
    assert_eq!(eval(&[1], &n, 5).unwrap(), vec![1]);
}

#[test]
fn eval_refuses_a_depth_beyond_its_counter() {
    let n = Natural::from_u64(143);
    assert_eq!(eval(&[3], &n, 64), Err(Error::DepthOutOfRange));
    assert_eq!(eval(&[3], &n, usize::MAX), Err(Error::DepthOutOfRange));
    // The depth is looked at before the modulus.
    assert_eq!(eval(&[3], &Natural::from_u64(0), 64), Err(Error::DepthOutOfRange));
}

#[test]
fn eval_refuses_an_input_that_the_backend_cannot_take() {
    let too_long = vec![0u8; 0x8000_0000];
    let n = Natural::from_u64(143);
    assert_eq!(eval(&too_long, &n, 2), Err(Error::OperandTooLong));
    assert_eq!(eval_trap(&too_long, &n, &Natural::from_u64(16)), Err(Error::OperandTooLong));
    // The length is looked at before the depth and before the modulus.
    assert_eq!(eval(&too_long, &Natural::from_u64(0), 64), Err(Error::OperandTooLong));
    assert_eq!(
        DelayStep::Sequential { n: &Natural::from_u64(0), t: 64 }.step(&too_long),
        Err(Error::OperandTooLong)
    );
}

#[test]
fn eval_refuses_a_zero_modulus() {
    assert_eq!(eval(&[3], &Natural::from_u64(0), 2), Err(Error::ZeroModulus));
}

#[test]
fn eval_trap_is_one_modular_exponentiation() {
    let n = Natural::from_u64(143);
    assert_eq!(eval_trap(&[3], &n, &Natural::from_u64(16)).unwrap(), vec![3]);
    assert_eq!(eval_trap(&[3], &n, &Natural::from_u64(2)).unwrap(), vec![9]);
    assert_eq!(eval_trap(&[3], &n, &Natural::from_u64(0)).unwrap(), vec![1]);
    assert_eq!(eval_trap(&[], &n, &Natural::from_u64(5)).unwrap(), Vec::<u8>::new());
    assert_eq!(
        eval_trap(&[2], &Natural::from_u64(1_000_000_007), &Natural::from_u64(200)).unwrap(),
        from_hex("1dc4ed50")
    );
}

#[test]
fn eval_trap_refuses_a_zero_modulus() {
    assert_eq!(
        eval_trap(&[3], &Natural::from_u64(0), &Natural::from_u64(2)),
        Err(Error::ZeroModulus)
    );
}

#[test]
fn trapdoor_exponent_reduces_modulo_the_totient() {
    let p = Natural::from_u64(11);
    let q = Natural::from_u64(13);
    // (p - 1)(q - 1) = 120.
    assert_eq!(trapdoor_exponent(&p, &q, 0).unwrap(), Natural::from_u64(2));
    assert_eq!(trapdoor_exponent(&p, &q, 1).unwrap(), Natural::from_u64(4));
    assert_eq!(trapdoor_exponent(&p, &q, 2).unwrap(), Natural::from_u64(16));
    // 2^8 = 256 = 2 * 120 + 16.
    assert_eq!(trapdoor_exponent(&p, &q, 3).unwrap(), Natural::from_u64(16));
}

#[test]
fn trapdoor_exponent_known_values() {
    let p = Natural::from_u64(10007);
    let q = Natural::from_u64(10009);
    assert_eq!(trapdoor_exponent(&p, &q, 4).unwrap(), Natural::from_u64(65536));
    assert_eq!(trapdoor_exponent(&p, &q, 5).unwrap(), Natural::from_u64(89085280));
}

#[test]
fn trapdoor_exponent_at_a_deep_depth() {
    let p = Natural::from_u64(10007);
    let q = Natural::from_u64(10009);
    assert_eq!(trapdoor_exponent(&p, &q, 28).unwrap(), Natural::from_u64(54591568));
}

#[test]
fn trapdoor_exponent_at_the_deepest_depth() {
    // A number of 2^30 bits may be more than the backend is willing to hold:
    // then the failure is the backend's, not a refusal of the depth.
    let p = Natural::from_u64(10007);
    let q = Natural::from_u64(10009);
    match trapdoor_exponent(&p, &q, 30) {
        Ok(e) => assert_eq!(e, Natural::from_u64(30265648)),
        Err(err) => assert_eq!(err, Error::Backend),
    }
}

#[test]
fn trapdoor_exponent_can_be_zero() {
    // (3 - 1)(5 - 1) = 8 divides 2^4.
    let e = trapdoor_exponent(&Natural::from_u64(3), &Natural::from_u64(5), 2).unwrap();
    assert!(e.is_zero());
}

#[test]
fn trapdoor_exponent_refuses_a_depth_out_of_range() {
    let p = Natural::from_u64(11);
    let q = Natural::from_u64(13);
    assert_eq!(trapdoor_exponent(&p, &q, -1), Err(Error::DepthOutOfRange));
    assert_eq!(trapdoor_exponent(&p, &q, 31), Err(Error::DepthOutOfRange));
    assert_eq!(trapdoor_exponent(&p, &q, i32::MAX), Err(Error::DepthOutOfRange));
    assert_eq!(trapdoor_exponent(&p, &q, i32::MIN), Err(Error::DepthOutOfRange));
    // The depth is looked at before the factors.
    assert_eq!(trapdoor_exponent(&Natural::from_u64(1), &q, 31), Err(Error::DepthOutOfRange));
}

#[test]
fn trapdoor_exponent_refuses_degenerate_factors() {
    let q = Natural::from_u64(13);
    for small in [0u64, 1] {
        let p = Natural::from_u64(small);
        assert_eq!(trapdoor_exponent(&p, &q, 2), Err(Error::DegenerateTrapdoor));
        assert_eq!(trapdoor_exponent(&q, &p, 2), Err(Error::DegenerateTrapdoor));
    }
    // 2 is the smallest factor that is taken.
    assert_eq!(
        trapdoor_exponent(&Natural::from_u64(2), &Natural::from_u64(3), 0).unwrap(),
        Natural::from_u64(0)
    );
}

#[test]
fn eval_trap_with_the_reduced_exponent_matches_eval() {
    let p = Natural::from_u64(10007);
    let q = Natural::from_u64(10009);
    let n = p.times(&q).unwrap();
    for t in 0..8 {
        let e = trapdoor_exponent(&p, &q, t).unwrap();
        for x in [vec![2u8], vec![0x12, 0x34, 0x56], vec![0xff; 32]] {
            assert_eq!(eval_trap(&x, &n, &e).unwrap(), eval(&x, &n, t as usize).unwrap());
        }
    }
}

#[test]
fn eval_trap_matches_eval_on_a_multiple_of_a_factor() {
    // 11 divides the base; the reduced exponent 16 is not 0.
    let p = Natural::from_u64(11);
    let q = Natural::from_u64(13);
    let n = p.times(&q).unwrap();
    let e = trapdoor_exponent(&p, &q, 3).unwrap();
    assert_eq!(eval_trap(&[22], &n, &e).unwrap(), eval(&[22], &n, 3).unwrap());
}

#[test]
fn setup_gives_two_different_numbers_of_half_the_length() {
    let (p, q) = setup(256).unwrap();
    let p_bytes = p.to_be_bytes();
    let q_bytes = q.to_be_bytes();
    assert_eq!(p_bytes.len(), 16);
    assert_eq!(q_bytes.len(), 16);
    assert!(p_bytes[0] >= 0x80);
    assert!(q_bytes[0] >= 0x80);
    assert_ne!(p, q);
    assert!(!p.is_at_most_one());
    assert!(!q.is_at_most_one());
}

#[test]
fn setup_of_an_odd_length_rounds_down() {
    let (p, q) = setup(41).unwrap();
    assert!(p.to_be_bytes().len() == 3 && p.to_be_bytes()[0] >= 0x08);
    assert!(q.to_be_bytes().len() == 3 && q.to_be_bytes()[0] >= 0x08);
}

#[test]
fn setup_of_too_few_bits_is_refused() {
    assert_eq!(setup(3), Err(Error::PrimeTooShort));
    assert_eq!(setup(2), Err(Error::PrimeTooShort));
    assert_eq!(setup(0), Err(Error::PrimeTooShort));
    assert_eq!(setup(-1), Err(Error::PrimeTooShort));
    assert_eq!(setup(-8), Err(Error::PrimeTooShort));
    assert_eq!(setup(i32::MIN), Err(Error::PrimeTooShort));
}

#[test]
fn setup_of_the_shortest_length_gives_factors_of_two_bits() {
    for n_bits in [4, 5] {
        for _ in 0..8 {
            let (p, q) = setup(n_bits).unwrap();
            assert_eq!(p.bit_length(), 2);
            assert_eq!(q.bit_length(), 2);
            assert!(p == Natural::from_u64(2) || p == Natural::from_u64(3));
            assert!(q == Natural::from_u64(2) || q == Natural::from_u64(3));
        }
    }
}

#[test]
fn setup_factors_have_exactly_half_the_length() {
    for n_bits in [6, 16, 17, 64, 100, 512] {
        let (p, q) = setup(n_bits).unwrap();
        assert_eq!(p.bit_length(), (n_bits / 2) as u64);
        assert_eq!(q.bit_length(), (n_bits / 2) as u64);
    }
}

#[test]
fn setup_output_runs_both_steps_alike() {
    let (p, q) = setup(128).unwrap();
    let n = p.times(&q).unwrap();
    let e = trapdoor_exponent(&p, &q, 6).unwrap();
    let x = [0xa5u8; 32];
    assert_eq!(eval_trap(&x, &n, &e).unwrap(), eval(&x, &n, 6).unwrap());
}

#[test]
fn delay_step_dispatches_to_the_evaluators() {
    let n = Natural::from_u64(143);
    let e = Natural::from_u64(16);
    let fast = DelayStep::Trapdoor { n: &n, e: &e };
    let slow = DelayStep::Sequential { n: &n, t: 2 };
    assert_eq!(fast.step(&[5]).unwrap(), eval_trap(&[5], &n, &e).unwrap());
    assert_eq!(slow.step(&[5]).unwrap(), eval(&[5], &n, 2).unwrap());
    assert_eq!(fast.step(&[5]).unwrap(), slow.step(&[5]).unwrap());
    assert_eq!(fast.check(), None);
    assert_eq!(slow.check(), None);
}

#[test]
fn delay_step_check_names_the_refusal() {
    let zero = Natural::from_u64(0);
    let n = Natural::from_u64(143);
    let e = Natural::from_u64(16);
    assert_eq!(DelayStep::Trapdoor { n: &zero, e: &e }.check(), Some(Error::ZeroModulus));
    assert_eq!(DelayStep::Sequential { n: &zero, t: 2 }.check(), Some(Error::ZeroModulus));
    assert_eq!(DelayStep::Sequential { n: &n, t: 64 }.check(), Some(Error::DepthOutOfRange));
    assert_eq!(DelayStep::Sequential { n: &zero, t: 64 }.check(), Some(Error::DepthOutOfRange));
    assert_eq!(DelayStep::Sequential { n: &n, t: 63 }.check(), None);
    assert_eq!(DelayStep::Sequential { n: &zero, t: 2 }.step(&[5]), Err(Error::ZeroModulus));
    assert_eq!(DelayStep::Sequential { n: &n, t: 64 }.step(&[5]), Err(Error::DepthOutOfRange));
}
