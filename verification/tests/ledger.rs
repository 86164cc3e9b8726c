use beacon::ledger::ProposalLedger;
use beacon::primitives::{to_signed, PublicKey};
use beacon::types::{AuthorityProposal, SelectedAuthority};

fn proposal(account: &str, key: u8, amount: u64) -> AuthorityProposal {
    AuthorityProposal { account_id: account.to_string(), public_key: PublicKey([key; 32]), amount }
}

fn seat(account: &str, key: u8) -> SelectedAuthority {
    SelectedAuthority { account_id: account.to_string(), public_key: PublicKey([key; 32]) }
}

#[test]
fn new_ledger_holds_nothing() {
    let ledger = ProposalLedger::new();
    assert_eq!(ledger.len(), 0);
    assert_eq!(ledger.stake_of(&"alice".to_string()), 0);
    assert_eq!(ledger.find(&"alice".to_string()), None);
}

#[test]
fn record_overwrites_key_and_stake() {
    let mut ledger = ProposalLedger::new();
    ledger.record(&proposal("alice", 1, 300));
    ledger.record(&proposal("bob", 2, 50));
    ledger.record(&proposal("alice", 9, 70));
    assert_eq!(ledger.len(), 2);
    assert_eq!(ledger.entry(0).account_id, "alice");
    assert_eq!(ledger.entry(0).public_key, PublicKey([9; 32]));
    assert_eq!(ledger.entry(0).stake, 70);
    assert_eq!(ledger.entry(1).account_id, "bob");
    assert_eq!(ledger.stake_of(&"alice".to_string()), 70);
    assert_eq!(ledger.stake_of(&"bob".to_string()), 50);
    assert_eq!(ledger.find(&"bob".to_string()), Some(1));
}

#[test]
fn record_all_takes_the_proposals_in_order() {
    let mut ledger = ProposalLedger::new();
    ledger.record_all(&vec![proposal("b", 1, 5), proposal("a", 2, 6), proposal("b", 3, 7)]);
    assert_eq!(ledger.len(), 2);
    assert_eq!(ledger.entry(0).account_id, "b");
    assert_eq!(ledger.entry(0).stake, 7);
    assert_eq!(ledger.entry(0).public_key, PublicKey([3; 32]));
    assert_eq!(ledger.entry(1).account_id, "a");
}

#[test]
fn amounts_are_read_as_signed() {
    assert_eq!(to_signed(0), 0);
    assert_eq!(to_signed(100), 100);
    assert_eq!(to_signed(i64::MAX as u64), i64::MAX);
    assert_eq!(to_signed(1 << 63), i64::MIN);
    assert_eq!(to_signed(u64::MAX), -1);
    let mut ledger = ProposalLedger::new();
    ledger.record(&proposal("whale", 1, u64::MAX));
    assert_eq!(ledger.stake_of(&"whale".to_string()), -1);
}

#[test]
fn penalty_creates_an_entry_with_the_authority_key() {
    let mut ledger = ProposalLedger::new();
    assert!(ledger.penalize(&seat("carol", 7), 100));
    assert_eq!(ledger.len(), 1);
    assert_eq!(ledger.entry(0).account_id, "carol");
    assert_eq!(ledger.entry(0).public_key, PublicKey([7; 32]));
    assert_eq!(ledger.entry(0).stake, -100);
}

#[test]
fn penalties_stack_and_keep_the_recorded_key() {
    let mut ledger = ProposalLedger::new();
    ledger.record(&proposal("carol", 1, 300));
    assert!(ledger.penalize(&seat("carol", 7), 100));
    assert_eq!(ledger.stake_of(&"carol".to_string()), 200);
    assert!(ledger.penalize(&seat("carol", 7), 100));
    assert!(ledger.penalize(&seat("carol", 7), 100));
    assert!(ledger.penalize(&seat("carol", 7), 100));
    assert_eq!(ledger.stake_of(&"carol".to_string()), -100);
    assert_eq!(ledger.entry(0).public_key, PublicKey([1; 32]));
    assert_eq!(ledger.len(), 1);
}

#[test]
fn penalty_that_does_not_fit_changes_nothing() {
    let mut ledger = ProposalLedger::new();
    assert!(!ledger.penalize(&seat("dave", 1), 1 << 63));
    assert_eq!(ledger.len(), 0);
    ledger.record(&proposal("erin", 2, (1 << 63) + 5));
    assert_eq!(ledger.stake_of(&"erin".to_string()), i64::MIN + 5);
    assert!(!ledger.penalize(&seat("erin", 2), 6));
    assert_eq!(ledger.stake_of(&"erin".to_string()), i64::MIN + 5);
    assert!(ledger.penalize(&seat("erin", 2), 5));
    assert_eq!(ledger.stake_of(&"erin".to_string()), i64::MIN);
}

#[test]
fn penalize_absent_follows_the_mask() {
    let mut ledger = ProposalLedger::new();
    let committee = vec![seat("a", 1), seat("b", 2), seat("a", 1)];
    assert!(ledger.penalize_absent(&committee, &vec![false, true, false], 10));
    assert_eq!(ledger.len(), 1);
    assert_eq!(ledger.stake_of(&"a".to_string()), -20);
    assert_eq!(ledger.stake_of(&"b".to_string()), 0);
    assert!(ledger.penalize_absent(&committee, &vec![true, true, true], 10));
    assert_eq!(ledger.stake_of(&"a".to_string()), -20);
    assert_eq!(ledger.len(), 1);
}

#[test]
fn next_proposals_are_restakes_then_survivors() {
    let mut ledger = ProposalLedger::new();
    ledger.record(&proposal("a", 1, 300));
    assert!(ledger.penalize(&seat("b", 2), 50));
    assert!(ledger.penalize(&seat("d", 4), 100));
    assert!(ledger.penalize(&seat("e", 5), 101));
    ledger.record(&proposal("f", 6, 1));
    ledger.record(&proposal("g", 7, 0));
    let accepted = vec![
        proposal("b", 2, 100),
        proposal("c", 3, 100),
        proposal("d", 4, 100),
        proposal("a", 1, 100),
        proposal("e", 5, 100),
        proposal("g", 7, 100),
    ];
    let next = ledger.next_proposals(&accepted);
    assert_eq!(
        next,
        vec![
            proposal("a", 1, 300),
            proposal("f", 6, 1),
            proposal("b", 2, 100),
            proposal("c", 3, 100),
            proposal("g", 7, 100),
        ]
    );
}

#[test]
fn survivor_rule_at_the_lowest_stake() {
    let mut ledger = ProposalLedger::new();
    ledger.record(&proposal("x", 1, 1 << 63));
    assert_eq!(ledger.stake_of(&"x".to_string()), i64::MIN);
    let exactly = ledger.next_proposals(&vec![proposal("x", 1, 1 << 63)]);
    assert!(exactly.is_empty());
    let above = ledger.next_proposals(&vec![proposal("x", 1, (1 << 63) + 1)]);
    assert_eq!(above, vec![proposal("x", 1, (1 << 63) + 1)]);
}

#[test]
fn duplicate_is_independent() {
    let mut ledger = ProposalLedger::new();
    ledger.record(&proposal("a", 1, 5));
    let copy = ledger.duplicate();
    ledger.record(&proposal("a", 1, 6));
    assert_eq!(copy.stake_of(&"a".to_string()), 5);
    assert_eq!(ledger.stake_of(&"a".to_string()), 6);
}
