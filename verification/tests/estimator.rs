use portfolio_solver::estimator::{expected_min, expected_min_with_spread, SpreadTable};
use portfolio_solver::fixed::SCALE;

fn fixed(x: f64) -> u64 {
    (x * SCALE as f64).round() as u64
}

fn spreads(upto: u32) -> SpreadTable {
    let values = (1..=upto).map(|s| fixed((2.0 * (s as f64).ln()).sqrt())).collect();
    SpreadTable::new(values).unwrap()
}

#[test]
fn single_replica_expects_the_mean_or_the_lower_bound() {
    let table = spreads(8);
    assert_eq!(expected_min(fixed(10.0), fixed(2.5), 1, fixed(4.0), &table), Some(fixed(10.0)));
    assert_eq!(expected_min(fixed(10.0), fixed(2.5), 1, fixed(12.0), &table), Some(fixed(12.0)));
    assert_eq!(expected_min(fixed(10.0), 0, 1, 0, &table), Some(fixed(10.0)));
}

#[test]
fn expected_minimum_of_two_replicas() {
    // sqrt(2 ln 2) = 1.177410, so 10 - 2 * 1.177410 = 7.645180
    let table = spreads(8);
    assert_eq!(expected_min(fixed(10.0), fixed(2.0), 2, fixed(4.0), &table), Some(7_645_180));
    assert_eq!(expected_min_with_spread(fixed(10.0), fixed(2.0), 1_177_410, 0), 7_645_180);
}

#[test]
fn expected_minimum_never_rises_with_more_replicas() {
    let table = spreads(64);
    let mut last = u64::MAX;
    for s in 1..=64 {
        let e_min = expected_min(fixed(100.0), fixed(30.0), s, fixed(25.0), &table).unwrap();
        assert!(e_min <= last);
        assert!(e_min >= fixed(25.0));
        last = e_min;
    }
    assert_eq!(last, fixed(25.0));
}

#[test]
fn expected_minimum_is_held_to_the_lower_bound() {
    assert_eq!(expected_min_with_spread(fixed(1.0), fixed(5.0), fixed(3.0), fixed(0.5)),
        fixed(0.5));
    assert_eq!(expected_min_with_spread(fixed(1.0), fixed(5.0), fixed(3.0), 0), 0);
    assert_eq!(expected_min_with_spread(u64::MAX, u64::MAX, u64::MAX, 7), 7);
}

#[test]
fn expected_minimum_needs_a_spread_for_the_sample_size() {
    let table = spreads(4);
    assert_eq!(table.len(), 4);
    assert_eq!(expected_min(fixed(10.0), fixed(2.0), 0, 0, &table), None);
    assert_eq!(expected_min(fixed(10.0), fixed(2.0), 5, 0, &table), None);
    assert!(expected_min(fixed(10.0), fixed(2.0), 4, 0, &table).is_some());
    assert_eq!(table.spread(1), Some(0));
    assert_eq!(table.spread(0), None);
}

#[test]
fn spread_tables_start_at_zero_and_never_fall() {
    assert!(SpreadTable::new(vec![]).is_some());
    assert!(SpreadTable::new(vec![0]).is_some());
    assert!(SpreadTable::new(vec![0, 0, 3, 3, 9]).is_some());
    assert!(SpreadTable::new(vec![1, 2, 3]).is_none());
    assert!(SpreadTable::new(vec![0, 5, 4]).is_none());
}
