use beacon::threshold::{checked_total_stake, find_threshold};

fn covered(amounts: &[u64], t: u128) -> u128 {
    amounts.iter().map(|a| *a as u128 / t).sum()
}

#[test]
fn test_find_threshold() {
    assert_eq!(find_threshold(&[1000000, 1000000, 10], 10).unwrap(), 200000);
    assert_eq!(find_threshold(&[1000000000, 10], 10).unwrap(), 100000000);
    assert_eq!(find_threshold(&[1000000000], 1000000000).unwrap(), 1);
    assert_eq!(find_threshold(&[1000, 1, 1, 1, 1, 1, 1, 1, 1, 1], 1).unwrap(), 1000);
    assert!(find_threshold(&[1, 1, 2], 100).is_err());
}

#[test]
fn find_threshold_names_the_first_low_amount() {
    assert_eq!(
        find_threshold(&[500, 7, 3], 100).unwrap_err(),
        "Proposed 7 must be higher then number of seats 100"
    );
    assert_eq!(
        find_threshold(&[0], 18446744073709551615).unwrap_err(),
        "Proposed 0 must be higher then number of seats 18446744073709551615"
    );
}

#[test]
fn find_threshold_is_maximal() {
    let cases: Vec<(Vec<u64>, u64)> = vec![
        (vec![100, 100, 100, 100], 4),
        (vec![100, 100, 100], 4),
        (vec![5, 7], 3),
        (vec![4, 4, 4, 4], 4),
        (vec![6, 4, 4], 4),
        (vec![300, 100, 100, 100, 100], 4),
        (vec![1_000_000, 1_000_000, 10], 10),
        (vec![u64::MAX, u64::MAX, u64::MAX], 3),
    ];
    for (amounts, seats) in cases {
        let t = find_threshold(&amounts, seats).unwrap() as u128;
        assert!(t >= 1);
        assert!(covered(&amounts, t) >= seats as u128);
        assert!(covered(&amounts, t + 1) < seats as u128);
    }
}

#[test]
fn find_threshold_exact_values() {
    assert_eq!(find_threshold(&[100, 100, 100, 100], 4).unwrap(), 100);
    assert_eq!(find_threshold(&[100, 100, 100], 4).unwrap(), 50);
    assert_eq!(find_threshold(&[5, 7], 3).unwrap(), 3);
    assert_eq!(find_threshold(&[6, 4, 4], 4).unwrap(), 3);
}

#[test]
fn find_threshold_single_proposer_with_exactly_the_seats() {
    assert_eq!(find_threshold(&[4], 4).unwrap(), 1);
    assert_eq!(find_threshold(&[1], 1).unwrap(), 1);
}

#[test]
fn find_threshold_of_nothing_is_one() {
    assert_eq!(find_threshold(&[], 5).unwrap(), 1);
    assert_eq!(find_threshold(&[], 0).unwrap(), 1);
}

#[test]
fn find_threshold_without_seats_is_the_search_limit() {
    assert_eq!(find_threshold(&[7], 0).unwrap(), 7);
    assert_eq!(find_threshold(&[3, 4], 0).unwrap(), 7);
    assert_eq!(find_threshold(&[1], 0).unwrap(), 1);
}

#[test]
fn find_threshold_survives_a_sum_beyond_64_bits() {
    assert_eq!(find_threshold(&[u64::MAX, u64::MAX], 1).unwrap(), u64::MAX);
    assert_eq!(find_threshold(&[u64::MAX, u64::MAX], 2).unwrap(), u64::MAX);
    assert_eq!(find_threshold(&[u64::MAX, u64::MAX], 3).unwrap(), u64::MAX / 2);
    assert_eq!(find_threshold(&[u64::MAX], 1).unwrap(), u64::MAX);
}

#[test]
fn checked_total_stake_adds_or_gives_up() {
    assert_eq!(checked_total_stake(&[]), Some(0));
    assert_eq!(checked_total_stake(&[1, 2, 3]), Some(6));
    assert_eq!(checked_total_stake(&[u64::MAX - 1, 1]), Some(u64::MAX));
    assert_eq!(checked_total_stake(&[u64::MAX, 1]), None);
}
