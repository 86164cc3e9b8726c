//! The data that the authority engine is configured with, is fed and
//! hands out, each with its mathematical view.

use crate::primitives::{AccountId, PublicKey};
use vstd::prelude::*;

verus! {

/// A stake declaration that was recorded on the chain.
#[derive(Debug, PartialEq, Eq)]
pub struct AuthorityProposal {
    /// Account that stakes money.
    pub account_id: AccountId,
    /// Public key of the proposed authority.
    pub public_key: PublicKey,
    /// Stake / weight of the authority.
    pub amount: u64,
}

/// What an `AuthorityProposal` holds.
pub struct ProposalView {
    pub account_id: Seq<char>,
    pub public_key: PublicKey,
    pub amount: u64,
}

impl View for AuthorityProposal {
    type V = ProposalView;

    open spec fn view(&self) -> ProposalView {
        ProposalView {
            account_id: self.account_id@,
            public_key: self.public_key,
            amount: self.amount,
        }
    }
}

impl Clone for AuthorityProposal {
    fn clone(&self) -> (copy: Self)
        ensures
            copy == *self,
    {
        AuthorityProposal {
            account_id: self.account_id.clone(),
            public_key: self.public_key,
            amount: self.amount,
        }
    }
}

/// The occupant of one seat: a proposal without its amount.
#[derive(Debug, PartialEq, Eq)]
pub struct SelectedAuthority {
    pub account_id: AccountId,
    pub public_key: PublicKey,
}

/// What a `SelectedAuthority` holds.
pub struct SeatView {
    pub account_id: Seq<char>,
    pub public_key: PublicKey,
}

impl View for SelectedAuthority {
    type V = SeatView;

    open spec fn view(&self) -> SeatView {
        SeatView { account_id: self.account_id@, public_key: self.public_key }
    }
}

impl Clone for SelectedAuthority {
    fn clone(&self) -> (copy: Self)
        ensures
            copy == *self,
    {
        SelectedAuthority { account_id: self.account_id.clone(), public_key: self.public_key }
    }
}

/// The views of a list of proposals, in the same order.
pub open spec fn proposal_views(proposals: Seq<AuthorityProposal>) -> Seq<ProposalView> {
    proposals.map_values(|p: AuthorityProposal| p@)
}

/// The views of a list of seat occupants, in the same order.
pub open spec fn seat_views(seats: Seq<SelectedAuthority>) -> Seq<SeatView> {
    seats.map_values(|s: SelectedAuthority| s@)
}

/// The stake amounts of a list of proposals, in the same order.
pub open spec fn amounts_of(proposals: Seq<ProposalView>) -> Seq<u64> {
    proposals.map_values(|p: ProposalView| p.amount)
}

/// The seat that a proposal earns: its account and key.
pub open spec fn seat_of(proposal: ProposalView) -> SeatView {
    SeatView { account_id: proposal.account_id, public_key: proposal.public_key }
}

/// Configure the authority rotation.
pub struct AuthorityConfig {
    /// List of initial authorities at genesis block.
    pub initial_authorities: Vec<AuthorityProposal>,
    /// Authority epoch length.
    pub epoch_length: u64,
    /// Number of seats per slot.
    pub num_seats_per_slot: u64,
}

/// What an `AuthorityConfig` holds.
pub struct ConfigView {
    pub initial_authorities: Seq<ProposalView>,
    pub epoch_length: u64,
    pub num_seats_per_slot: u64,
}

impl View for AuthorityConfig {
    type V = ConfigView;

    open spec fn view(&self) -> ConfigView {
        ConfigView {
            initial_authorities: proposal_views(self.initial_authorities@),
            epoch_length: self.epoch_length,
            num_seats_per_slot: self.num_seats_per_slot,
        }
    }
}

impl ConfigView {
    /// The seats of one epoch: slots times seats per slot.
    pub open spec fn total_seats(self) -> int {
        self.epoch_length * self.num_seats_per_slot
    }

    /// An epoch has at least one slot, a slot at least one seat, and the
    /// seats of one epoch can be counted in 64 bits.
    pub open spec fn valid(self) -> bool {
        &&& self.epoch_length >= 1
        &&& self.num_seats_per_slot >= 1
        &&& self.total_seats() <= u64::MAX
    }
}

/// The body of a beacon block header: what was decided for the block.
pub struct BeaconBlockHeaderBody {
    /// The block's position in the chain; the genesis block has index 0.
    pub index: u64,
    /// The stake declarations that the block records.
    pub authority_proposal: Vec<AuthorityProposal>,
}

/// A beacon block header together with the record of who signed it.
pub struct SignedBeaconBlockHeader {
    pub body: BeaconBlockHeaderBody,
    /// One bit per seat of the block's committee: whether its occupant
    /// took part.
    pub authority_mask: Vec<bool>,
}

/// What the engine reads of a header.
pub struct HeaderView {
    pub index: u64,
    pub proposals: Seq<ProposalView>,
    pub mask: Seq<bool>,
}

impl View for SignedBeaconBlockHeader {
    type V = HeaderView;

    open spec fn view(&self) -> HeaderView {
        HeaderView {
            index: self.body.index,
            proposals: proposal_views(self.body.authority_proposal@),
            mask: self.authority_mask@,
        }
    }
}

/// The views of a list of headers, in the same order.
pub open spec fn header_views(headers: Seq<SignedBeaconBlockHeader>) -> Seq<HeaderView> {
    headers.map_values(|h: SignedBeaconBlockHeader| h@)
}

/// Copies a list of seat occupants.
pub fn clone_seats(seats: &Vec<SelectedAuthority>) -> (copy: Vec<SelectedAuthority>)
    ensures
        copy@ == seats@,
{
    let mut copy: Vec<SelectedAuthority> = Vec::new();
    let mut i: usize = 0;
    while i < seats.len()
        invariant
            0 <= i <= seats.len(),
            copy@ == seats@.take(i as int),
        decreases seats.len() - i,
    {
        copy.push(seats[i].clone());
        proof {
            assert(seats@.take(i + 1) =~= seats@.take(i as int).push(seats@[i as int]));
        }
        i = i + 1;
    }
    proof {
        assert(seats@.take(i as int) =~= seats@);
    }
    copy
}

/// Copies a list of proposals.
pub fn clone_proposals(proposals: &Vec<AuthorityProposal>) -> (copy: Vec<AuthorityProposal>)
    ensures
        copy@ == proposals@,
{
    let mut copy: Vec<AuthorityProposal> = Vec::new();
    let mut i: usize = 0;
    while i < proposals.len()
        invariant
            0 <= i <= proposals.len(),
            copy@ == proposals@.take(i as int),
        decreases proposals.len() - i,
    {
        copy.push(proposals[i].clone());
        proof {
            assert(proposals@.take(i + 1) =~= proposals@.take(i as int).push(
                proposals@[i as int],
            ));
        }
        i = i + 1;
    }
    proof {
        assert(proposals@.take(i as int) =~= proposals@);
    }
    copy
}

} // verus!
