use beacon::authority::{Authority, AuthorityError};
use beacon::primitives::{CryptoHash, PublicKey};
use beacon::types::{
    AuthorityConfig, AuthorityProposal, BeaconBlockHeaderBody, SelectedAuthority,
    SignedBeaconBlockHeader,
};

fn config_with(amount: u64, num_authorities: u32, epoch_length: u64, num_seats_per_slot: u64) -> AuthorityConfig {
    let mut initial_authorities = vec![];
    for i in 0..num_authorities {
        let public_key = PublicKey([i as u8; 32]);
        initial_authorities.push(AuthorityProposal { account_id: i.to_string(), public_key, amount });
    }
    AuthorityConfig { initial_authorities, epoch_length, num_seats_per_slot }
}

fn get_test_config(num_authorities: u32, epoch_length: u64, num_seats_per_slot: u64) -> AuthorityConfig {
    config_with(100, num_authorities, epoch_length, num_seats_per_slot)
}

fn header(index: u64, authority_proposal: Vec<AuthorityProposal>, authority_mask: Vec<bool>) -> SignedBeaconBlockHeader {
    SignedBeaconBlockHeader {
        body: BeaconBlockHeaderBody { index, authority_proposal },
        authority_mask,
    }
}

fn proposal(account: &str, key: u8, amount: u64) -> AuthorityProposal {
    AuthorityProposal { account_id: account.to_string(), public_key: PublicKey([key; 32]), amount }
}

fn seats_of(config: &AuthorityConfig) -> Vec<SelectedAuthority> {
    config
        .initial_authorities
        .iter()
        .map(|a| SelectedAuthority { account_id: a.account_id.clone(), public_key: a.public_key })
        .collect()
}

fn seats_held(authority: &Authority, indices: &[u64], account: &str) -> usize {
    indices
        .iter()
        .map(|i| {
            authority.get_authorities(*i).unwrap().iter().filter(|s| s.account_id == account).count()
        })
        .sum()
}

#[test]
fn test_authority_genesis() {
    let authority_config = get_test_config(4, 2, 2);
    let initial_authorities = seats_of(&authority_config);
    let mut authority = Authority::new(authority_config, &[]);
    assert_eq!(authority.get_authorities(0).unwrap(), vec![]);
    assert_eq!(
        authority.get_authorities(1).unwrap(),
        vec![initial_authorities[0].clone(), initial_authorities[3].clone()]
    );
    assert_eq!(
        authority.get_authorities(2).unwrap(),
        vec![initial_authorities[2].clone(), initial_authorities[1].clone()]
    );
    assert_eq!(
        authority.get_authorities(3).unwrap(),
        vec![initial_authorities[0].clone(), initial_authorities[3].clone()]
    );
    assert_eq!(
        authority.get_authorities(4).unwrap(),
        vec![initial_authorities[2].clone(), initial_authorities[1].clone()]
    );
    assert!(authority.get_authorities(5).is_err());
    let mut header1 = header(1, vec![], vec![]);
    // Authority #1 didn't show up.
    header1.authority_mask = vec![true, false];
    let mut header2 = header(2, vec![], vec![]);
    header2.authority_mask = vec![true, true];
    authority.process_block_header(&header1);
    authority.process_block_header(&header2);
    assert_eq!(
        authority.get_authorities(5).unwrap(),
        vec![initial_authorities[1].clone(), initial_authorities[0].clone()]
    );
    assert_eq!(
        authority.get_authorities(6).unwrap(),
        vec![initial_authorities[0].clone(), initial_authorities[2].clone()]
    );
}

#[test]
fn new_engine_seats_two_epochs() {
    let authority = Authority::try_new(get_test_config(4, 2, 2), &[]).unwrap();
    assert_eq!(authority.current_epoch(), 0);
    assert_eq!(authority.get_authorities(0).unwrap(), vec![]);
    for index in 1..=4u64 {
        let committee = authority.get_authorities(index).unwrap();
        assert_eq!(committee.len(), 2);
        for seat in committee.iter() {
            assert!(["0", "1", "2", "3"].contains(&seat.account_id.as_str()));
        }
    }
    assert_eq!(authority.get_authorities(1).unwrap(), authority.get_authorities(3).unwrap());
    assert_eq!(authority.get_authorities(2).unwrap(), authority.get_authorities(4).unwrap());
    assert!(authority.get_authorities(5).is_err());
    assert_eq!(authority.threshold(0), Some(100));
    assert_eq!(authority.threshold(1), Some(100));
    assert_eq!(authority.threshold(2), None);
    let initial = get_test_config(4, 2, 2).initial_authorities;
    assert_eq!(authority.accepted_proposals(0), Some(initial.clone()));
    assert_eq!(authority.accepted_proposals(1), Some(initial));
    assert_eq!(authority.accepted_proposals(2), None);
}

#[test]
fn unknown_index_is_reported_with_the_current_window() {
    let mut authority = Authority::try_new(get_test_config(4, 2, 2), &[]).unwrap();
    assert_eq!(
        authority.get_authorities(5).unwrap_err(),
        "Authority for index 5 is not found, current epoch 0 has indices [0, 2]"
    );
    assert_eq!(authority.try_process_block_header(&header(1, vec![], vec![true, true])), Ok(()));
    assert_eq!(authority.try_process_block_header(&header(2, vec![], vec![true, true])), Ok(()));
    assert_eq!(
        authority.get_authorities(18446744073709551615).unwrap_err(),
        "Authority for index 18446744073709551615 is not found, current epoch 1 has indices [2, 4]"
    );
}

#[test]
fn missed_block_costs_one_threshold() {
    let mut authority = Authority::try_new(get_test_config(4, 2, 2), &[]).unwrap();
    let missing = authority.get_authorities(1).unwrap()[1].account_id.clone();
    assert_eq!(authority.try_process_block_header(&header(1, vec![], vec![true, false])), Ok(()));
    assert_eq!(authority.current_epoch(), 0);
    assert_eq!(authority.recorded_stake(&missing), -100);
    assert_eq!(authority.recorded_stake(&"0".to_string()), 0);
    assert_eq!(authority.try_process_block_header(&header(2, vec![], vec![true, true])), Ok(()));
    assert_eq!(authority.current_epoch(), 1);
    assert_eq!(authority.recorded_stake(&missing), 0);
    assert_eq!(authority.threshold(0), Some(100));
    assert_eq!(authority.threshold(1), Some(50));
    let carried: Vec<AuthorityProposal> = get_test_config(4, 2, 2)
        .initial_authorities
        .into_iter()
        .filter(|p| p.account_id != missing)
        .collect();
    assert_eq!(authority.accepted_proposals(1), Some(carried));
    assert_eq!(authority.get_authorities(5).unwrap().len(), 2);
    assert_eq!(authority.get_authorities(6).unwrap().len(), 2);
    assert_eq!(seats_held(&authority, &[5, 6], &missing), 0);
    assert!(authority.get_authorities(7).is_err());
}

#[test]
fn penalized_authority_that_keeps_stake_is_carried_over() {
    let mut config = get_test_config(4, 2, 2);
    config.initial_authorities[3].amount = 101;
    let mut authority = Authority::try_new(config, &[]).unwrap();
    assert_eq!(authority.threshold(0), Some(100));
    let missing = authority.get_authorities(1).unwrap()[1].account_id.clone();
    assert_eq!(missing, "3");
    assert_eq!(authority.try_process_block_header(&header(1, vec![], vec![true, false])), Ok(()));
    assert_eq!(authority.try_process_block_header(&header(2, vec![], vec![true, true])), Ok(()));
    let accepted = authority.accepted_proposals(1).unwrap();
    assert_eq!(accepted.len(), 4);
    assert_eq!(accepted[3], proposal("3", 3, 101));
    assert_eq!(authority.threshold(1), Some(100));
}

#[test]
fn genesis_header_changes_nothing() {
    let mut authority = Authority::try_new(get_test_config(4, 2, 2), &[]).unwrap();
    let before: Vec<_> = (0..=6u64).map(|i| authority.get_authorities(i)).collect();
    let genesis = header(0, vec![proposal("x", 9, 500)], vec![false, false, false]);
    assert_eq!(authority.try_process_block_header(&genesis), Ok(()));
    authority.process_block_header(&genesis);
    let after: Vec<_> = (0..=6u64).map(|i| authority.get_authorities(i)).collect();
    assert_eq!(before, after);
    assert_eq!(authority.current_epoch(), 0);
    assert_eq!(authority.recorded_stake(&"x".to_string()), 0);
    assert_eq!(authority.recorded_stake(&"0".to_string()), 0);
    assert_eq!(authority.threshold(0), Some(100));
}

#[test]
fn full_participation_only_adds_proposals() {
    let mut authority = Authority::try_new(get_test_config(4, 2, 2), &[]).unwrap();
    let block = header(1, vec![proposal("x", 9, 500), proposal("1", 1, 7)], vec![true, true]);
    assert_eq!(authority.try_process_block_header(&block), Ok(()));
    assert_eq!(authority.recorded_stake(&"x".to_string()), 500);
    assert_eq!(authority.recorded_stake(&"1".to_string()), 7);
    for account in ["0", "2", "3"] {
        assert_eq!(authority.recorded_stake(&account.to_string()), 0);
    }
}

#[test]
fn new_stake_is_seated_two_epochs_later() {
    let mut authority = Authority::try_new(config_with(4, 2, 2, 2), &[]).unwrap();
    assert_eq!(authority.threshold(0), Some(2));
    let first = header(1, vec![proposal("x", 9, 6)], vec![true, true]);
    assert_eq!(authority.try_process_block_header(&first), Ok(()));
    assert_eq!(authority.try_process_block_header(&header(2, vec![], vec![true, true])), Ok(()));
    assert_eq!(authority.current_epoch(), 1);
    assert_eq!(authority.threshold(1), Some(3));
    assert_eq!(
        authority.accepted_proposals(1),
        Some(vec![proposal("x", 9, 6), proposal("0", 0, 4), proposal("1", 1, 4)])
    );
    assert_eq!(seats_held(&authority, &[1, 2, 3, 4], "x"), 0);
    assert_eq!(seats_held(&authority, &[5, 6], "x"), 2);
    assert_eq!(seats_held(&authority, &[5, 6], "0"), 1);
    assert_eq!(seats_held(&authority, &[5, 6], "1"), 1);
    let seated = authority.get_authorities(5).unwrap();
    let x = seated.iter().chain(authority.get_authorities(6).unwrap().iter()).find(|s| s.account_id == "x").cloned();
    assert_eq!(x.unwrap().public_key, PublicKey([9; 32]));
}

#[test]
fn amount_below_the_new_threshold_gets_no_seat() {
    let mut authority = Authority::try_new(get_test_config(4, 2, 2), &[]).unwrap();
    let first = header(1, vec![proposal("y", 9, 60)], vec![true, true]);
    assert_eq!(authority.try_process_block_header(&first), Ok(()));
    assert_eq!(authority.try_process_block_header(&header(2, vec![], vec![true, true])), Ok(()));
    assert_eq!(authority.threshold(1), Some(100));
    assert_eq!(authority.accepted_proposals(1).unwrap()[0], proposal("y", 9, 60));
    assert_eq!(seats_held(&authority, &[5, 6], "y"), 0);
}

#[test]
fn every_epoch_has_all_its_seats() {
    let mut authority = Authority::try_new(get_test_config(5, 3, 2), &[]).unwrap();
    for index in 1..=9u64 {
        assert_eq!(authority.try_process_block_header(&header(index, vec![], vec![true, true])), Ok(()));
    }
    assert_eq!(authority.current_epoch(), 3);
    for epoch in 0..5u64 {
        let seats: usize =
            (epoch * 3 + 1..=(epoch + 1) * 3).map(|i| authority.get_authorities(i).unwrap().len()).sum();
        assert_eq!(seats, 6);
    }
    assert!(authority.get_authorities(16).is_err());
}

#[test]
fn wiped_authority_keeps_the_seats_already_drawn() {
    let mut authority = Authority::try_new(config_with(4, 4, 2, 2), &[]).unwrap();
    assert_eq!(authority.threshold(0), Some(4));
    let wiped = authority.get_authorities(1).unwrap()[0].account_id.clone();
    assert_eq!(authority.try_process_block_header(&header(1, vec![], vec![false, true])), Ok(()));
    assert_eq!(authority.try_process_block_header(&header(2, vec![], vec![true, true])), Ok(()));
    assert_eq!(authority.threshold(1), Some(2));
    let accepted = authority.accepted_proposals(1).unwrap();
    assert_eq!(accepted.len(), 3);
    assert!(accepted.iter().all(|p| p.account_id != wiped));
    assert_eq!(authority.get_authorities(3).unwrap()[0].account_id, wiped);
    for index in [5u64, 6] {
        for seat in authority.get_authorities(index).unwrap() {
            assert!(accepted.iter().any(|p| p.account_id == seat.account_id));
        }
    }
}

#[test]
fn two_engines_agree() {
    let headers = vec![
        header(1, vec![proposal("x", 9, 300)], vec![true, false]),
        header(2, vec![], vec![true, true]),
        header(3, vec![proposal("z", 8, 150)], vec![false, true]),
        header(4, vec![], vec![true, true]),
        header(5, vec![], vec![true, true]),
    ];
    let replayed = Authority::try_new(get_test_config(4, 2, 2), &headers).unwrap();
    let mut stepped = Authority::new(get_test_config(4, 2, 2), &[]);
    for h in headers.iter() {
        stepped.process_block_header(h);
    }
    assert_eq!(replayed.current_epoch(), 2);
    assert_eq!(stepped.current_epoch(), 2);
    for index in 0..=10u64 {
        assert_eq!(replayed.get_authorities(index), stepped.get_authorities(index));
    }
    for epoch in 0..=3u64 {
        assert_eq!(replayed.threshold(epoch), stepped.threshold(epoch));
        assert_eq!(replayed.accepted_proposals(epoch), stepped.accepted_proposals(epoch));
    }
    assert!(replayed.get_authorities(8).is_ok());
    assert!(replayed.get_authorities(9).is_err());
}

#[test]
fn everyone_absent_leaves_nobody_to_seat() {
    let mut authority = Authority::try_new(get_test_config(4, 2, 2), &[]).unwrap();
    assert_eq!(authority.try_process_block_header(&header(1, vec![], vec![false, false])), Ok(()));
    let last = header(2, vec![], vec![false, false]);
    assert_eq!(authority.try_process_block_header(&last), Err(AuthorityError::InvalidProposals));
    assert_eq!(authority.current_epoch(), 0);
    assert!(authority.get_authorities(5).is_err());
    let absent_first = authority.get_authorities(1).unwrap();
    let absent_last = authority.get_authorities(2).unwrap();
    for seat in absent_first.iter() {
        assert_eq!(authority.recorded_stake(&seat.account_id), -100);
    }
    for seat in absent_last.iter() {
        assert_eq!(authority.recorded_stake(&seat.account_id), 0);
    }
}

#[test]
fn low_restake_stops_the_boundary() {
    let mut authority = Authority::try_new(get_test_config(4, 2, 2), &[]).unwrap();
    let first = header(1, vec![proposal("tiny", 9, 3)], vec![true, true]);
    assert_eq!(authority.try_process_block_header(&first), Ok(()));
    let last = header(2, vec![], vec![true, true]);
    assert_eq!(authority.try_process_block_header(&last), Err(AuthorityError::InvalidProposals));
    assert_eq!(authority.current_epoch(), 0);
    assert_eq!(authority.recorded_stake(&"tiny".to_string()), 3);
}

#[test]
fn configuration_is_checked() {
    assert_eq!(Authority::try_new(get_test_config(4, 0, 2), &[]).err(), Some(AuthorityError::InvalidConfig));
    assert_eq!(Authority::try_new(get_test_config(4, 2, 0), &[]).err(), Some(AuthorityError::InvalidConfig));
    assert_eq!(
        Authority::try_new(get_test_config(4, 1 << 40, 1 << 40), &[]).err(),
        Some(AuthorityError::InvalidConfig)
    );
    assert_eq!(
        Authority::try_new(config_with(u64::MAX, 1, (1 << 63) + 1, 1), &[]).err(),
        Some(AuthorityError::IndexOverflow)
    );
    assert_eq!(Authority::try_new(get_test_config(0, 2, 2), &[]).err(), Some(AuthorityError::InvalidProposals));
    assert_eq!(Authority::try_new(config_with(3, 4, 2, 2), &[]).err(), Some(AuthorityError::InvalidProposals));
    assert_eq!(Authority::try_seed(get_test_config(4, 0, 2)).err(), Some(AuthorityError::InvalidConfig));
    assert!(Authority::try_seed(get_test_config(1, 1, 1)).is_ok());
}

#[test]
fn header_without_committee_is_rejected() {
    let mut authority = Authority::try_new(get_test_config(4, 2, 2), &[]).unwrap();
    let far = header(5, vec![proposal("x", 9, 500)], vec![true, true]);
    assert_eq!(authority.try_process_block_header(&far), Err(AuthorityError::IndexOutOfWindow));
    assert_eq!(authority.recorded_stake(&"x".to_string()), 0);
    assert_eq!(
        Authority::try_new(get_test_config(4, 2, 2), &[far]).err(),
        Some(AuthorityError::IndexOutOfWindow)
    );
}

#[test]
fn mask_of_wrong_length_is_rejected() {
    let mut authority = Authority::try_new(get_test_config(4, 2, 2), &[]).unwrap();
    let short = header(1, vec![proposal("x", 9, 500)], vec![true]);
    assert_eq!(authority.try_process_block_header(&short), Err(AuthorityError::MaskLength));
    let long = header(1, vec![], vec![true, true, false]);
    assert_eq!(authority.try_process_block_header(&long), Err(AuthorityError::MaskLength));
    assert_eq!(authority.current_epoch(), 0);
    assert_eq!(authority.recorded_stake(&"x".to_string()), 0);
}

#[test]
fn penalty_beyond_the_signed_range_is_rejected() {
    let mut authority = Authority::try_new(config_with(1 << 63, 1, 1, 1), &[]).unwrap();
    assert_eq!(authority.threshold(0), Some(1 << 63));
    let missed = header(1, vec![], vec![false]);
    assert_eq!(authority.try_process_block_header(&missed), Err(AuthorityError::StakeOverflow));
    assert_eq!(authority.current_epoch(), 0);
    assert_eq!(authority.recorded_stake(&"0".to_string()), 0);
}

#[test]
fn proposals_are_seated_by_block_index() {
    let authority = Authority::try_new(get_test_config(4, 2, 2), &[]).unwrap();
    let proposals = get_test_config(4, 2, 2).initial_authorities;
    let (committees, threshold) = authority.proposals_to_authority(&CryptoHash::default(), &proposals, 2);
    assert_eq!(threshold, 100);
    let mut indices: Vec<u64> = committees.keys().cloned().collect();
    indices.sort();
    assert_eq!(indices, vec![5, 6]);
    assert_eq!(committees[&5], authority.get_authorities(1).unwrap());
    assert_eq!(committees[&6], authority.get_authorities(2).unwrap());
    let (same, _) = authority.try_proposals_to_authority(&CryptoHash::default(), &proposals, 2).unwrap();
    assert_eq!(same, committees);
    let (other, _) = authority.try_proposals_to_authority(&CryptoHash([5; 32]), &proposals, 0).unwrap();
    let mut other_indices: Vec<u64> = other.keys().cloned().collect();
    other_indices.sort();
    assert_eq!(other_indices, vec![1, 2]);
}

#[test]
fn proposals_that_cannot_be_seated() {
    let authority = Authority::try_new(get_test_config(4, 2, 2), &[]).unwrap();
    let seed = CryptoHash::default();
    assert_eq!(
        authority.try_proposals_to_authority(&seed, &[], 2).err(),
        Some(AuthorityError::InvalidProposals)
    );
    assert_eq!(
        authority.try_proposals_to_authority(&seed, &[proposal("a", 1, 100), proposal("b", 2, 3)], 2).err(),
        Some(AuthorityError::InvalidProposals)
    );
    let proposals = get_test_config(4, 2, 2).initial_authorities;
    assert_eq!(
        authority.try_proposals_to_authority(&seed, &proposals, u64::MAX).err(),
        Some(AuthorityError::IndexOverflow)
    );
    assert_eq!(
        authority.try_proposals_to_authority(&seed, &proposals, u64::MAX / 2).err(),
        Some(AuthorityError::IndexOverflow)
    );
    assert!(authority.try_proposals_to_authority(&seed, &proposals, u64::MAX / 2 - 1).is_ok());
}
