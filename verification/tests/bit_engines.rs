use secret_bits::bits::{bits_to_secret, clear_bits_of, secret_bits_of_clear};
use secret_bits::carry::{bit_add, bit_increment, half_adder_pairs};
use secret_bits::compare::{bit_lt, bit_lt_clear, eq_indicator, le};
use secret_bits::decompose::{bit_dec, bit_dec_full};
use secret_bits::field::SecretModp;
use secret_bits::params::{require_bit_length, FIELD_BITS, FIELD_PRIME, KAPPA, K_BITS};
use secret_bits::prefix::prefix_or;
use secret_bits::rng::RandomSource;

fn sec(v: u64) -> SecretModp {
    SecretModp::from_clear(v)
}

fn secret_bits_of(v: u64, k: usize) -> Vec<SecretModp> {
    secret_bits_of_clear(&clear_bits_of(v, k))
}

fn value_of_bits(bits: &Vec<SecretModp>) -> u64 {
    bits_to_secret(bits).reveal_to_all()
}

fn reveal_bits(bits: &Vec<SecretModp>) -> Vec<u64> {
    bits.iter().map(|b| b.reveal_to_all()).collect()
}

#[test]
fn prefix_or_running_or() {
    let input = vec![sec(0), sec(0), sec(1), sec(0)];
    let out = prefix_or(&input);
    assert_eq!(reveal_bits(&out), vec![0, 0, 1, 1]);

    let zeros = vec![sec(0), sec(0), sec(0), sec(0)];
    let out = prefix_or(&zeros);
    assert_eq!(reveal_bits(&out), vec![0, 0, 0, 0]);
}

#[test]
fn prefix_or_single_element_unchanged() {
    let one = vec![sec(1)];
    assert_eq!(reveal_bits(&prefix_or(&one)), vec![1]);
    let zero = vec![sec(0)];
    assert_eq!(reveal_bits(&prefix_or(&zero)), vec![0]);
}

#[test]
fn prefix_or_odd_length() {
    let input = vec![sec(0), sec(1), sec(0), sec(0), sec(1), sec(0), sec(0)];
    assert_eq!(reveal_bits(&prefix_or(&input)), vec![0, 1, 1, 1, 1, 1, 1]);
}

fn check_add(x: u64, y: u64, k: usize) {
    let a = secret_bits_of(x, k);
    let b = secret_bits_of(y, k);
    let cin = sec(0);
    let sum = bit_add(&a, &b, &cin);
    assert_eq!(sum.len(), k + 1);
    assert_eq!(value_of_bits(&sum), x + y);
    // the carry-out bit alone
    let carry = sum[k].reveal_to_all();
    assert_eq!(carry, (x + y) >> k);
}

#[test]
fn carry_addition_exhaustive_4_bit() {
    for x in 0u64..16 {
        for y in 0u64..16 {
            check_add(x, y, 4);
        }
    }
}

#[test]
fn carry_addition_swept_8_bit() {
    for x in (0u64..256).step_by(7) {
        for y in (0u64..256).step_by(13) {
            check_add(x, y, 8);
        }
    }
    check_add(255, 255, 8);
    check_add(0, 0, 8);
    check_add(255, 1, 8);
}

#[test]
fn carry_addition_swept_16_bit() {
    for x in (0u64..65536).step_by(4099) {
        for y in (0u64..65536).step_by(5003) {
            check_add(x, y, 16);
        }
    }
    check_add(65535, 65535, 16);
    check_add(65535, 1, 16);
    check_add(32768, 32768, 16);
}

#[test]
fn carry_addition_with_carry_in() {
    let a = secret_bits_of(9, 4);
    let b = secret_bits_of(6, 4);
    let sum = bit_add(&a, &b, &sec(1));
    assert_eq!(value_of_bits(&sum), 16);
}

#[test]
fn increment_adds_one() {
    for x in [0u64, 1, 7, 127, 255] {
        let a = secret_bits_of(x, 8);
        let out = bit_increment(&a);
        assert_eq!(out.len(), 9);
        assert_eq!(value_of_bits(&out), x + 1);
    }
}

#[test]
fn half_adder_pairs_shape() {
    let a = secret_bits_of(5, 3);
    let b = secret_bits_of(3, 3);
    let pairs = half_adder_pairs(&a, &b);
    // 101 and 011: propagate = 110, generate = 001
    assert_eq!(pairs[0].p.reveal_to_all(), 0);
    assert_eq!(pairs[0].g.reveal_to_all(), 1);
    assert_eq!(pairs[1].p.reveal_to_all(), 1);
    assert_eq!(pairs[1].g.reveal_to_all(), 0);
    assert_eq!(pairs[2].p.reveal_to_all(), 1);
    assert_eq!(pairs[2].g.reveal_to_all(), 0);
}

#[test]
fn bit_lt_clear_sweeps_8_bit_domain() {
    for a in 0u64..256 {
        for b in 0u64..256 {
            let bb = secret_bits_of(b, 8);
            let r = bit_lt_clear(a, &bb).reveal_to_all();
            assert_eq!(r == 1, a < b, "BitLT mismatch at {} {}", a, b);
        }
    }
}

#[test]
fn bit_lt_secret_rows() {
    for (x, y) in [(0u64, 0u64), (0, 1), (1, 0), (12, 12), (3, 200), (200, 3), (255, 254)] {
        let a = secret_bits_of(x, 8);
        let b = secret_bits_of(y, 8);
        let r = bit_lt(&a, &b).reveal_to_all();
        assert_eq!(r == 1, x < y, "bit_lt mismatch at {} {}", x, y);
    }
}

#[test]
fn decomposition_round_trip_full_width() {
    let mut rng = RandomSource::new(0x1234_5678);
    let k = K_BITS;
    let mut failures = 0u64;
    for trial in 0u64..300 {
        let a = (trial * 2654435761) % 65536;
        let bits = bit_dec(&sec(a), k, k, &mut rng);
        assert_eq!(bits.len(), k);
        if value_of_bits(&bits) != a {
            failures += 1;
        }
    }
    assert_eq!(failures, 0);
}

#[test]
fn decomposition_low_bits_only() {
    let mut rng = RandomSource::new(42);
    let a = 0b1011_0110u64;
    let bits = bit_dec(&sec(a), 8, 5, &mut rng);
    assert_eq!(bits.len(), 5);
    assert_eq!(value_of_bits(&bits), a % 32);
}

#[test]
fn full_field_decomposition_round_trip() {
    let mut rng = RandomSource::new(0xDEAD_BEEF);
    let samples = [
        0u64,
        1,
        2,
        65535,
        FIELD_PRIME - 1,
        FIELD_PRIME / 2,
        1 << 60,
        (1 << 61) - 2,
    ];
    for &a in samples.iter() {
        let a = a % FIELD_PRIME;
        let bits = bit_dec_full(&sec(a), &mut rng);
        assert_eq!(bits.len(), FIELD_BITS);
        assert_eq!(value_of_bits(&bits), a, "full decomposition failed at {}", a);
    }
    // repeated trials so both wrap cases of the masked reveal occur
    for t in 0u64..40 {
        let a = (t * 0x9E37_79B9) % FIELD_PRIME;
        let bits = bit_dec_full(&sec(a), &mut rng);
        assert_eq!(value_of_bits(&bits), a);
    }
}

#[test]
fn le_and_equality_indicators() {
    let mut rng = RandomSource::new(7);
    for (x, y) in [(0u64, 0u64), (1, 2), (2, 1), (500, 500), (65535, 0), (0, 65535)] {
        let l = le(&sec(x), &sec(y), &mut rng).reveal_to_all();
        assert_eq!(l == 1, x <= y);
        let e = eq_indicator(&sec(x), &sec(y), &mut rng).reveal_to_all();
        assert_eq!(e == 1, x == y);
    }
}

#[test]
fn field_arithmetic_behaves() {
    let a = sec(5);
    let b = sec(9);
    assert_eq!(a.add(&b).reveal_to_all(), 14);
    assert_eq!(a.sub(&b).reveal_to_all(), FIELD_PRIME - 4);
    assert_eq!(a.mul(&b).reveal_to_all(), 45);
    assert_eq!(a.neg().reveal_to_all(), FIELD_PRIME - 5);
    assert_eq!(sec(FIELD_PRIME - 1).add(&sec(2)).reveal_to_all(), 1);
    assert_eq!(sec(0).neg().reveal_to_all(), 0);
}

#[test]
fn bit_length_assertion() {
    assert!(require_bit_length(FIELD_BITS));
    assert!(require_bit_length(K_BITS + KAPPA + 1));
    assert!(!require_bit_length(FIELD_BITS + 1));
}
