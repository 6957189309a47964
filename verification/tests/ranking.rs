use secret_bits::field::SecretModp;
use secret_bits::params::FIELD_PRIME;
use secret_bits::rank::{cmp, rescale, secretly_rank};
use secret_bits::rng::RandomSource;

fn sec(v: u64) -> SecretModp {
    SecretModp::from_clear(v)
}

fn secrets(vs: &[u64]) -> Vec<SecretModp> {
    vs.iter().map(|&v| sec(v)).collect()
}

fn reveal_all(vs: &Vec<SecretModp>) -> Vec<u64> {
    vs.iter().map(|v| v.reveal_to_all()).collect()
}

#[test]
fn ranking_three_values_descending() {
    let mut rng = RandomSource::new(11);
    let ranks = secretly_rank(&secrets(&[11, 33, 22]), true, &mut rng);
    assert_eq!(reveal_all(&ranks), vec![3, 1, 2]);
}

#[test]
fn ranking_three_values_ascending() {
    let mut rng = RandomSource::new(11);
    let ranks = secretly_rank(&secrets(&[11, 33, 22]), false, &mut rng);
    assert_eq!(reveal_all(&ranks), vec![1, 3, 2]);
}

#[test]
fn ranking_ties_follow_the_left_operand_convention() {
    // equal inputs do not share a rank: the "left is at most right" tie
    // convention orders them by position, ascending by index for the
    // ascending order and the reverse for the descending one
    let mut rng = RandomSource::new(5);
    let ranks = secretly_rank(&secrets(&[5, 5, 5]), false, &mut rng);
    assert_eq!(reveal_all(&ranks), vec![1, 2, 3]);
    let ranks = secretly_rank(&secrets(&[5, 5, 5]), true, &mut rng);
    assert_eq!(reveal_all(&ranks), vec![3, 2, 1]);
}

#[test]
fn ranking_single_value() {
    let mut rng = RandomSource::new(1);
    let ranks = secretly_rank(&secrets(&[999]), true, &mut rng);
    assert_eq!(reveal_all(&ranks), vec![1]);
}

#[test]
fn ranking_longer_sequence_both_orders() {
    let mut rng = RandomSource::new(77);
    let vals = [40u64, 10, 50, 20, 30];
    let asc = secretly_rank(&secrets(&vals), false, &mut rng);
    assert_eq!(reveal_all(&asc), vec![4, 1, 5, 2, 3]);
    let desc = secretly_rank(&secrets(&vals), true, &mut rng);
    assert_eq!(reveal_all(&desc), vec![2, 5, 1, 4, 3]);
}

#[test]
fn cmp_returns_signed_secret_indicator() {
    let mut rng = RandomSource::new(3);
    // -1 in the field when left <= right
    assert_eq!(cmp(&sec(4), &sec(9), &mut rng).reveal_to_all(), FIELD_PRIME - 1);
    assert_eq!(cmp(&sec(9), &sec(9), &mut rng).reveal_to_all(), FIELD_PRIME - 1);
    // +1 otherwise
    assert_eq!(cmp(&sec(10), &sec(9), &mut rng).reveal_to_all(), 1);
}

#[test]
fn rescale_maps_accumulators_to_dense_ranks() {
    // three values: raw accumulators -2, 0, 2 become ranks 1, 2, 3
    let raw = vec![sec(FIELD_PRIME - 2), sec(0), sec(2)];
    let out = rescale(&raw);
    assert_eq!(reveal_all(&out), vec![1, 2, 3]);
}
