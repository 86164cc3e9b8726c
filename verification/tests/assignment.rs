use beacon::assignment::{committee_at, seat_tokens_of, shuffle_tokens};
use beacon::primitives::{CryptoHash, PublicKey};
use beacon::types::{AuthorityProposal, SelectedAuthority};

fn proposal(account: &str, amount: u64) -> AuthorityProposal {
    AuthorityProposal { account_id: account.to_string(), public_key: PublicKey([1; 32]), amount }
}

fn seat(account: &str) -> SelectedAuthority {
    SelectedAuthority { account_id: account.to_string(), public_key: PublicKey([1; 32]) }
}

fn numbered(n: usize) -> Vec<SelectedAuthority> {
    (0..n).map(|i| seat(&i.to_string())).collect()
}

fn names(seats: &[SelectedAuthority]) -> Vec<String> {
    seats.iter().map(|s| s.account_id.clone()).collect()
}

#[test]
fn seat_tokens_repeat_each_proposal_in_order() {
    let tokens = seat_tokens_of(&[proposal("a", 100), proposal("b", 250), proposal("c", 99)], 100);
    assert_eq!(tokens, vec![seat("a"), seat("b"), seat("b")]);
    let none = seat_tokens_of(&[proposal("a", 3)], 4);
    assert!(none.is_empty());
    let one_each = seat_tokens_of(&[proposal("a", 1), proposal("b", 2)], 1);
    assert_eq!(one_each, vec![seat("a"), seat("b"), seat("b")]);
}

#[test]
fn zero_seed_order_of_four() {
    let shuffled = shuffle_tokens(&CryptoHash::default(), &numbered(4));
    assert_eq!(names(&shuffled), vec!["0", "3", "2", "1"]);
}

#[test]
fn shuffle_repeats_itself() {
    let tokens = numbered(20);
    let seed = CryptoHash([7; 32]);
    assert_eq!(shuffle_tokens(&seed, &tokens), shuffle_tokens(&seed, &tokens));
    assert_eq!(
        shuffle_tokens(&CryptoHash::default(), &tokens),
        shuffle_tokens(&CryptoHash([0; 32]), &tokens)
    );
}

#[test]
fn shuffle_rearranges() {
    let tokens = numbered(20);
    let shuffled = shuffle_tokens(&CryptoHash([7; 32]), &tokens);
    assert_eq!(shuffled.len(), 20);
    let mut sorted = names(&shuffled);
    sorted.sort();
    let mut expected = names(&tokens);
    expected.sort();
    assert_eq!(sorted, expected);
    assert_ne!(names(&shuffled), names(&tokens));
}

#[test]
fn shuffle_depends_on_the_seed() {
    let tokens = numbered(20);
    let zero = shuffle_tokens(&CryptoHash::default(), &tokens);
    let others: Vec<Vec<SelectedAuthority>> =
        (1u8..=3).map(|b| shuffle_tokens(&CryptoHash([b; 32]), &tokens)).collect();
    assert!(others.iter().any(|o| *o != zero));
}

#[test]
fn shuffle_of_few_tokens() {
    assert!(shuffle_tokens(&CryptoHash::default(), &vec![]).is_empty());
    assert_eq!(shuffle_tokens(&CryptoHash::default(), &numbered(1)), numbered(1));
}

#[test]
fn committee_at_cuts_consecutive_seats() {
    let tokens = numbered(7);
    assert_eq!(names(&committee_at(&tokens, 0, 3)), vec!["0", "1", "2"]);
    assert_eq!(names(&committee_at(&tokens, 1, 3)), vec!["3", "4", "5"]);
    assert_eq!(names(&committee_at(&tokens, 2, 2)), vec!["4", "5"]);
    assert!(committee_at(&tokens, 5, 0).is_empty());
}
