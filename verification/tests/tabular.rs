use secret_bits::field::SecretModp;
use secret_bits::rank::secretly_rank;
use secret_bits::rng::RandomSource;
use secret_bits::table::{find_tabular, read_tabular, Column, PlayerRows, TableError};

fn sec(v: u64) -> SecretModp {
    SecretModp::from_clear(v)
}

fn scalar_row(vs: &[u64]) -> Vec<Column> {
    vs.iter().map(|&v| Column::Scalar(sec(v))).collect()
}

fn store(rows: &[&[u64]]) -> PlayerRows {
    PlayerRows { rows: rows.iter().map(|r| scalar_row(r)).collect() }
}

fn reveal_all(vs: &Vec<SecretModp>) -> Vec<u64> {
    vs.iter().map(|v| v.reveal_to_all()).collect()
}

#[test]
fn read_tabular_returns_rows_then_end() {
    let mut player = store(&[&[2019, 10], &[2020, 20]]);
    let first = read_tabular(&mut player, 2).unwrap().unwrap();
    assert_eq!(reveal_all(&first), vec![2019, 10]);
    let second = read_tabular(&mut player, 2).unwrap().unwrap();
    assert_eq!(reveal_all(&second), vec![2020, 20]);
    assert!(read_tabular(&mut player, 2).unwrap().is_none());
}

#[test]
fn read_tabular_ignores_extra_columns() {
    let mut player = store(&[&[1, 2, 3, 4]]);
    let row = read_tabular(&mut player, 2).unwrap().unwrap();
    assert_eq!(reveal_all(&row), vec![1, 2]);
}

#[test]
fn read_tabular_short_row_is_fatal() {
    let mut player = store(&[&[2019]]);
    assert!(matches!(read_tabular(&mut player, 2), Err(TableError::ShortRow)));
}

#[test]
fn read_tabular_nested_column_is_fatal() {
    let mut player = PlayerRows {
        rows: vec![vec![
            Column::Scalar(sec(2019)),
            Column::Array(vec![sec(1), sec(2)]),
        ]],
    };
    assert!(matches!(read_tabular(&mut player, 2), Err(TableError::NestedColumn)));
}

#[test]
fn search_absent_target_consumes_whole_stream() {
    let mut rng = RandomSource::new(23);
    let mut player = store(&[&[2018, 1], &[2019, 2], &[2020, 3]]);
    let r = find_tabular(&mut player, 0, &sec(2025), 2, &mut rng).unwrap();
    assert!(r.is_none());
    // the observable iteration count is the stream length: nothing is left
    assert_eq!(player.rows.len(), 0);
}

#[test]
fn search_finds_row_and_stops_there() {
    let mut rng = RandomSource::new(24);
    let mut player = store(&[&[2018, 1], &[2019, 2], &[2020, 3], &[2021, 4]]);
    let row = find_tabular(&mut player, 0, &sec(2019), 2, &mut rng).unwrap().unwrap();
    // the matched row's other columns come back untouched
    assert_eq!(reveal_all(&row), vec![2019, 2]);
    // exactly two rows were scanned; the rest of the stream is unread
    assert_eq!(player.rows.len(), 2);
}

#[test]
fn search_matches_on_the_designated_column() {
    let mut rng = RandomSource::new(25);
    let mut player = store(&[&[2018, 7], &[2019, 9]]);
    let row = find_tabular(&mut player, 1, &sec(9), 2, &mut rng).unwrap().unwrap();
    assert_eq!(reveal_all(&row), vec![2019, 9]);
}

#[test]
fn search_reports_malformed_rows() {
    let mut rng = RandomSource::new(26);
    let mut player = store(&[&[2018, 1], &[2019]]);
    let r = find_tabular(&mut player, 0, &sec(2030), 2, &mut rng);
    assert!(matches!(r, Err(TableError::ShortRow)));
}

// The joint computation of the three players, end to end on buffered
// fixture data: for each of the first player's years, find the matching
// rows of the other two, total the wealth, and rank the three wealths
// without revealing them.
#[test]
fn test_example() {
    let num_cols = 2;
    let mut rng = RandomSource::new(4711);
    let mut alice = store(&[&[2019, 10], &[2020, 20]]);
    let mut bob = store(&[&[2019, 5], &[2020, 30]]);
    let mut charlie = store(&[&[2019, 7], &[2020, 15]]);

    let mut outputs: Vec<(u64, u64, Vec<u64>)> = Vec::new();
    loop {
        let alice_row = match read_tabular(&mut alice, num_cols).unwrap() {
            None => break,
            Some(row) => row,
        };
        let alice_year = alice_row[0];
        let alice_wealth = alice_row[1];
        let bob_row = match find_tabular(&mut bob, 0, &alice_year, num_cols, &mut rng).unwrap() {
            None => break,
            Some(row) => row,
        };
        let bob_wealth = bob_row[1];
        let charlie_row =
            match find_tabular(&mut charlie, 0, &alice_year, num_cols, &mut rng).unwrap() {
                None => break,
                Some(row) => row,
            };
        let charlie_wealth = charlie_row[1];

        let total = alice_wealth.add(&bob_wealth).add(&charlie_wealth);
        let wealths = vec![alice_wealth, bob_wealth, charlie_wealth];
        let ranks = secretly_rank(&wealths, true, &mut rng);
        outputs.push((
            alice_year.reveal_to_all(),
            total.reveal_to_all(),
            reveal_all(&ranks),
        ));
    }

    let expected = vec![
        (2019u64, 22u64, vec![1u64, 3, 2]),
        (2020u64, 65u64, vec![2u64, 1, 3]),
    ];
    assert!(outputs == expected, "success_test");
}
