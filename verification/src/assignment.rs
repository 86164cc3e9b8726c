//! Seat assignment: proposals become seat tokens, the tokens are shuffled
//! from a seed, and the shuffled tokens are cut into the committees of the
//! slots of one epoch.

use crate::primitives::CryptoHash;
use crate::threshold::{has_low_stake, seats_covered, threshold};
use crate::types::{
    amounts_of, proposal_views, seat_of, seat_views, AuthorityProposal, ProposalView, SeatView,
    SelectedAuthority,
};
use rand::{Rng, SeedableRng, StdRng};
use vstd::arithmetic::div_mod::{lemma_basic_div, lemma_div_pos_is_pos};
use vstd::prelude::*;

verus! {

/// `n` seats of one occupant.
pub open spec fn copies(seat: SeatView, n: int) -> Seq<SeatView> {
    Seq::new(n as nat, |i: int| seat)
}

/// The seat tokens of a proposal list at `threshold` of stake per seat:
/// for each proposal, in order, as many tokens as the threshold goes into
/// its amount.
pub open spec fn seat_tokens(proposals: Seq<ProposalView>, threshold: int) -> Seq<SeatView>
    decreases proposals.len(),
{
    if proposals.len() == 0 {
        Seq::empty()
    } else {
        seat_tokens(proposals.drop_last(), threshold) + copies(
            seat_of(proposals.last()),
            proposals.last().amount as int / threshold,
        )
    }
}

/// The positions `0, 1, .., n - 1`, in order.
pub open spec fn identity_order(n: nat) -> Seq<usize> {
    Seq::new(n, |i: int| i as usize)
}

/// What the seeded shuffle makes of a list of numbers: the list that
/// `rand::Rng::shuffle` leaves when it is run on `items` with a
/// `rand::StdRng` that `rand::SeedableRng::from_seed` made from the bytes
/// of `seed`, one word per byte, on a machine whose words have
/// `word_bits` bits.
pub uninterp spec fn seeded_shuffle(seed: Seq<u8>, items: Seq<usize>, word_bits: u32) -> Seq<usize>;

/// The order in which `n` tokens are seated under `seed`: position `i` of
/// the result names the token that comes to stand at `i`.
pub open spec fn seat_order(seed: Seq<u8>, n: nat) -> Seq<usize> {
    seeded_shuffle(seed, identity_order(n), usize::BITS)
}

/// The position that `order` names at `i`: `order[i]` where that is a
/// position below `n`, and `i` itself where `order` names none.
pub open spec fn named_position(order: Seq<usize>, i: int, n: nat) -> int {
    if 0 <= i < order.len() && order[i] < n {
        order[i] as int
    } else {
        i
    }
}

/// The tokens rearranged: position `i` holds the token whose position
/// `order` names there.
pub open spec fn arranged(tokens: Seq<SeatView>, order: Seq<usize>) -> Seq<SeatView> {
    Seq::new(tokens.len(), |i: int| tokens[named_position(order, i, tokens.len())])
}

/// The tokens in the order in which they are seated under `seed`.
pub open spec fn shuffled_tokens(seed: Seq<u8>, tokens: Seq<SeatView>) -> Seq<SeatView> {
    arranged(tokens, seat_order(seed, tokens.len()))
}

/// The committee of slot `slot` of an epoch: the next `seats` tokens after
/// those of the slots before it.
pub open spec fn slot_committee(tokens: Seq<SeatView>, slot: int, seats: int) -> Seq<SeatView> {
    tokens.subrange(slot * seats, (slot + 1) * seats)
}

/// The proposals can fill the seats: there is at least one, and none has
/// an amount below the number of seats.
pub open spec fn assignable(proposals: Seq<ProposalView>, total_seats: u64) -> bool {
    proposals.len() > 0 && !has_low_stake(amounts_of(proposals), total_seats)
}

/// The stake per seat at which the proposals are seated.
pub open spec fn drawn_threshold(proposals: Seq<ProposalView>, total_seats: u64) -> int {
    threshold(amounts_of(proposals), total_seats)
}

/// The seat tokens of the proposals at their threshold, in the order in
/// which they are seated under `seed`.
pub open spec fn drawn_tokens(seed: Seq<u8>, proposals: Seq<ProposalView>, total_seats: u64) -> Seq<
    SeatView,
> {
    shuffled_tokens(seed, seat_tokens(proposals, drawn_threshold(proposals, total_seats)))
}

/// The committees of epoch `epoch`: block index `epoch * epoch_length + 1`
/// gets the committee of slot 0, and so on to the last block of the epoch,
/// `(epoch + 1) * epoch_length`.
pub open spec fn epoch_committees(
    tokens: Seq<SeatView>,
    epoch: int,
    epoch_length: int,
    seats: int,
) -> Map<u64, Seq<SeatView>> {
    Map::new(
        |index: u64| epoch * epoch_length < index <= (epoch + 1) * epoch_length,
        |index: u64| slot_committee(tokens, index - epoch * epoch_length - 1, seats),
    )
}

/// Shuffles `items` with a generator seeded from the 32 bytes of `seed`.
///
/// Calls `rand::Rng::shuffle` on a `rand::StdRng` that
/// `rand::SeedableRng::from_seed` made from the seed's bytes, each widened
/// to one word. The generator is ISAAC with 32-bit words and ISAAC-64 with
/// 64-bit words, so the outcome is a function of the seed, the items and
/// the word size, and of nothing else. The shuffle only swaps items:
/// what it leaves is a rearrangement of what it was given.
#[verifier::external_body]
fn shuffle_seeded(seed: &CryptoHash, items: &mut Vec<usize>)
    ensures
        final(items)@ == seeded_shuffle(seed@, old(items)@, usize::BITS),
        final(items)@.to_multiset() == old(items)@.to_multiset(),
{
    let words: Vec<usize> = seed.0.iter().map(|byte| *byte as usize).collect();
    let mut rng: StdRng = SeedableRng::from_seed(words.as_slice());
    rng.shuffle(items.as_mut_slice());
}

/// A rearrangement of `0 .. n` has length `n` and names only positions
/// below `n`.
pub proof fn lemma_rearranged_positions(order: Seq<usize>, n: nat)
    requires
        n <= usize::MAX,
        order.to_multiset() == identity_order(n).to_multiset(),
    ensures
        order.len() == n,
        forall|i: int| 0 <= i < n ==> 0 <= #[trigger] order[i] < n,
{
    let identity = identity_order(n);
    order.to_multiset_ensures();
    identity.to_multiset_ensures();
    assert forall|i: int| 0 <= i < n implies 0 <= #[trigger] order[i] < n by {
        assert(order.contains(order[i]));
        assert(order.to_multiset().count(order[i]) > 0);
        assert(identity.to_multiset().count(order[i]) > 0);
        assert(identity.contains(order[i]));
        let j = choose|j: int| 0 <= j < identity.len() && identity[j] == order[i];
        assert(identity[j] == j as usize);
    }
}

/// The seat tokens of the proposals at `threshold` of stake per seat.
pub fn seat_tokens_of(proposals: &[AuthorityProposal], threshold: u64) -> (tokens: Vec<
    SelectedAuthority,
>)
    requires
        threshold >= 1,
    ensures
        seat_views(tokens@) == seat_tokens(proposal_views(proposals@), threshold as int),
{
    let mut tokens: Vec<SelectedAuthority> = Vec::new();
    let mut i: usize = 0;
    assert(seat_views(tokens@) =~= seat_tokens(
        proposal_views(proposals@).take(0),
        threshold as int,
    ));
    while i < proposals.len()
        invariant
            0 <= i <= proposals.len(),
            threshold >= 1,
            seat_views(tokens@) == seat_tokens(
                proposal_views(proposals@).take(i as int),
                threshold as int,
            ),
        decreases proposals.len() - i,
    {
        let item = &proposals[i];
        let count = item.amount / threshold;
        let ghost before = seat_views(tokens@);
        let mut c: u64 = 0;
        assert(seat_views(tokens@) =~= before + copies(seat_of(item@), 0));
        while c < count
            invariant
                0 <= c <= count,
                seat_views(tokens@) == before + copies(seat_of(item@), c as int),
            decreases count - c,
        {
            let ghost held = seat_views(tokens@);
            tokens.push(
                SelectedAuthority {
                    account_id: item.account_id.clone(),
                    public_key: item.public_key,
                },
            );
            assert(seat_views(tokens@) =~= held.push(seat_of(item@)));
            assert(held.push(seat_of(item@)) =~= before + copies(seat_of(item@), c + 1));
            c = c + 1;
        }
        proof {
            let views = proposal_views(proposals@);
            assert(views.take(i + 1).drop_last() =~= views.take(i as int));
            assert(views.take(i + 1).last() == item@);
        }
        i = i + 1;
    }
    proof {
        let views = proposal_views(proposals@);
        assert(views.take(i as int) =~= views);
    }
    tokens
}

/// The tokens in the order in which they are seated under `seed`.
pub fn shuffle_tokens(seed: &CryptoHash, tokens: &Vec<SelectedAuthority>) -> (shuffled: Vec<
    SelectedAuthority,
>)
    ensures
        seat_views(shuffled@) == shuffled_tokens(seed@, seat_views(tokens@)),
        shuffled@.len() == tokens@.len(),
{
    let n = tokens.len();
    let mut order: Vec<usize> = Vec::new();
    let mut i: usize = 0;
    while i < n
        invariant
            0 <= i <= n,
            order@ == identity_order(i as nat),
        decreases n - i,
    {
        order.push(i);
        assert(order@ =~= identity_order((i + 1) as nat));
        i = i + 1;
    }
    shuffle_seeded(seed, &mut order);
    proof {
        lemma_rearranged_positions(order@, n as nat);
    }
    let mut shuffled: Vec<SelectedAuthority> = Vec::new();
    let mut k: usize = 0;
    while k < n
        invariant
            0 <= k <= n,
            n == tokens.len(),
            order@.len() == n,
            forall|i: int| 0 <= i < n ==> 0 <= #[trigger] order@[i] < n,
            seat_views(shuffled@) == arranged(seat_views(tokens@), order@).take(k as int),
        decreases n - k,
    {
        let ghost held = seat_views(shuffled@);
        shuffled.push(tokens[order[k]].clone());
        assert(seat_views(shuffled@) =~= held.push(tokens@[order@[k as int] as int]@));
        assert(seat_views(shuffled@) =~= arranged(seat_views(tokens@), order@).take(k + 1));
        k = k + 1;
    }
    assert(seat_views(shuffled@) =~= arranged(seat_views(tokens@), order@));
    assert(seat_views(shuffled@).len() == shuffled@.len());
    shuffled
}

/// The committee of slot `slot`: a copy of the `seats` tokens from
/// position `slot * seats` on.
pub fn committee_at(tokens: &Vec<SelectedAuthority>, slot: u64, seats: u64) -> (committee: Vec<
    SelectedAuthority,
>)
    requires
        (slot + 1) * seats <= tokens@.len(),
    ensures
        seat_views(committee@) == slot_committee(seat_views(tokens@), slot as int, seats as int),
        committee@.len() == seats,
{
    let n = tokens.len();
    assert((slot + 1) * seats == slot * seats + seats) by (nonlinear_arith);
    assert(0 <= slot * seats) by (nonlinear_arith)
        requires
            slot >= 0,
            seats >= 0,
    ;
    let start = slot * seats;
    let mut committee: Vec<SelectedAuthority> = Vec::new();
    let mut seat: u64 = 0;
    while seat < seats
        invariant
            0 <= seat <= seats,
            n == tokens@.len(),
            start + seats <= n,
            committee@.len() == seat,
            seat_views(committee@) == seat_views(tokens@).subrange(start as int, start + seat),
        decreases seats - seat,
    {
        let ghost held = seat_views(committee@);
        committee.push(tokens[(start + seat) as usize].clone());
        assert(seat_views(committee@) =~= held.push(tokens@[start + seat]@));
        assert(seat_views(committee@) =~= seat_views(tokens@).subrange(
            start as int,
            start + seat + 1,
        ));
        seat = seat + 1;
    }
    committee
}

/// There are as many seat tokens as the amounts cover seats.
pub proof fn lemma_seat_tokens_len(proposals: Seq<ProposalView>, threshold: int)
    requires
        threshold >= 1,
    ensures
        seat_tokens(proposals, threshold).len() == seats_covered(amounts_of(proposals), threshold),
    decreases proposals.len(),
{
    if proposals.len() > 0 {
        lemma_seat_tokens_len(proposals.drop_last(), threshold);
        assert(amounts_of(proposals).drop_last() =~= amounts_of(proposals.drop_last()));
        lemma_div_pos_is_pos(proposals.last().amount as int, threshold);
    }
}

/// Every seat token stands for a proposal whose amount reaches the
/// threshold.
pub proof fn lemma_seat_tokens_origin(proposals: Seq<ProposalView>, threshold: int, k: int)
    requires
        threshold >= 1,
        0 <= k < seat_tokens(proposals, threshold).len(),
    ensures
        exists|i: int|
            0 <= i < proposals.len() && proposals[i].amount >= threshold && seat_of(
                #[trigger] proposals[i],
            ) == seat_tokens(proposals, threshold)[k],
    decreases proposals.len(),
{
    let before = seat_tokens(proposals.drop_last(), threshold);
    if k < before.len() {
        lemma_seat_tokens_origin(proposals.drop_last(), threshold, k);
        let i = choose|i: int|
            0 <= i < proposals.drop_last().len() && proposals.drop_last()[i].amount >= threshold
                && seat_of(#[trigger] proposals.drop_last()[i]) == before[k];
        assert(proposals[i] == proposals.drop_last()[i]);
    } else {
        let last = proposals.len() - 1;
        lemma_div_pos_is_pos(proposals[last].amount as int, threshold);
        if proposals[last].amount < threshold {
            lemma_basic_div(proposals[last].amount as int, threshold);
        }
        assert(seat_of(proposals[last]) == seat_tokens(proposals, threshold)[k]);
    }
}

/// Every shuffled token is one of the tokens, and there are as many.
pub proof fn lemma_shuffled_tokens_origin(seed: Seq<u8>, tokens: Seq<SeatView>, k: int)
    requires
        0 <= k < tokens.len(),
    ensures
        shuffled_tokens(seed, tokens).len() == tokens.len(),
        exists|j: int|
            0 <= j < tokens.len() && #[trigger] tokens[j] == shuffled_tokens(seed, tokens)[k],
{
    let j = named_position(seat_order(seed, tokens.len()), k, tokens.len());
    assert(tokens[j] == shuffled_tokens(seed, tokens)[k]);
}

} // verus!
