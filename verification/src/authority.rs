//! The authority engine: which accounts may sign which block, and how the
//! committees rotate at epoch boundaries.

use crate::assignment::{
    assignable, committee_at, drawn_threshold, drawn_tokens, epoch_committees,
    lemma_seat_tokens_len, seat_tokens_of, shuffle_tokens, slot_committee,
};
use crate::decimal::{decimal_text, push_decimal};
use crate::ledger::{
    absences_penalized, all_recorded, distinct_accounts, next_proposals, penalties_fit, stake_of,
    ProposalLedger, RecordedView,
};
use crate::primitives::{AccountId, CryptoHash};
use crate::threshold::{
    find_threshold, lemma_threshold_maximal,
};
use crate::types::{
    amounts_of, clone_proposals, clone_seats, header_views, proposal_views, seat_views,
    AuthorityConfig, AuthorityProposal, ConfigView, HeaderView, ProposalView, SeatView,
    SelectedAuthority, SignedBeaconBlockHeader,
};
use std::collections::HashMap;
use vstd::prelude::*;
use vstd::std_specs::hash::*;
use vstd::string::*;

verus! {

broadcast use group_hash_axioms;

/// Why the engine turns down a configuration, a header or a proposal list.
#[derive(Clone, Copy, Debug, PartialEq, Eq)]
pub enum AuthorityError {
    /// An epoch without slots, a slot without seats, or more seats in an
    /// epoch than 64 bits count.
    InvalidConfig,
    /// The proposal list is empty, or one of its amounts is smaller than
    /// the number of seats of an epoch.
    InvalidProposals,
    /// No committee is known for the block index.
    IndexOutOfWindow,
    /// The participation mask does not have one bit for each seat.
    MaskLength,
    /// A penalty takes a stake out of the signed 64-bit range.
    StakeOverflow,
    /// The block indices of the epoch to seat do not fit in 64 bits.
    IndexOverflow,
}

/// The seed of every shuffle: the hash whose bytes are all zero.
pub open spec fn zero_seed() -> Seq<u8> {
    Seq::new(32, |i: int| 0u8)
}

/// What the committees of a cache hold, by block index.
pub open spec fn committee_views(committees: Map<u64, Vec<SelectedAuthority>>) -> Map<
    u64,
    Seq<SeatView>,
> {
    Map::new(|index: u64| committees.contains_key(index), |index: u64| seat_views(committees[index]@))
}

/// What the proposal lists of a cache hold, by epoch.
pub open spec fn accepted_views(accepted: Map<u64, Vec<AuthorityProposal>>) -> Map<
    u64,
    Seq<ProposalView>,
> {
    Map::new(|epoch: u64| accepted.contains_key(epoch), |epoch: u64| proposal_views(accepted[epoch]@))
}

/// The state of the engine.
pub struct AuthorityState {
    pub config: ConfigView,
    /// The epoch of the last block that was processed.
    pub current_epoch: u64,
    /// The committee of each block index that has one.
    pub committees: Map<u64, Seq<SeatView>>,
    /// The stake per seat that was recorded for each epoch.
    pub thresholds: Map<u64, u64>,
    /// The ledger of the running epoch.
    pub proposals: Seq<RecordedView>,
    /// The proposal list that was recorded for each epoch.
    pub accepted_proposals: Map<u64, Seq<ProposalView>>,
}

impl ConfigView {
    /// The committees that the proposals earn in epoch `epoch`.
    pub open spec fn drawn_committees(
        self,
        seed: Seq<u8>,
        proposals: Seq<ProposalView>,
        epoch: int,
    ) -> Map<u64, Seq<SeatView>> {
        epoch_committees(
            drawn_tokens(seed, proposals, self.total_seats() as u64),
            epoch,
            self.epoch_length as int,
            self.num_seats_per_slot as int,
        )
    }
}

impl AuthorityState {
    /// What holds of every state that the engine reaches.
    pub open spec fn valid(self) -> bool {
        &&& self.config.valid()
        &&& self.thresholds.contains_key(self.current_epoch)
        &&& self.accepted_proposals.contains_key(self.current_epoch)
        &&& distinct_accounts(self.proposals)
        &&& !self.committees.contains_key(0)
        &&& forall|index: u64| #[trigger]
            self.committees.contains_key(index) ==> self.committees[index].len()
                == self.config.num_seats_per_slot
    }

    /// Why no engine can be started from the configuration, or `None` if
    /// one can.
    pub open spec fn seed_rejection(config: ConfigView) -> Option<AuthorityError> {
        if !config.valid() {
            Some(AuthorityError::InvalidConfig)
        } else if 2 * config.epoch_length > u64::MAX {
            Some(AuthorityError::IndexOverflow)
        } else if !assignable(config.initial_authorities, config.total_seats() as u64) {
            Some(AuthorityError::InvalidProposals)
        } else {
            None
        }
    }

    /// The state of a new engine: the initial authorities are seated in
    /// epoch 0, epoch 1 repeats the committees of epoch 0 slot by slot,
    /// and both epochs have the initial authorities and their threshold
    /// on record.
    pub open spec fn seeded(config: ConfigView) -> AuthorityState {
        let first = config.drawn_committees(zero_seed(), config.initial_authorities, 0);
        let threshold = drawn_threshold(config.initial_authorities, config.total_seats() as u64);
        AuthorityState {
            config,
            current_epoch: 0,
            committees: Map::new(
                |index: u64| 1 <= index <= 2 * config.epoch_length,
                |index: u64|
                    if index <= config.epoch_length {
                        first[index]
                    } else {
                        first[(index - config.epoch_length) as u64]
                    },
            ),
            thresholds: Map::<u64, u64>::empty().insert(0, threshold as u64).insert(
                1,
                threshold as u64,
            ),
            proposals: Seq::empty(),
            accepted_proposals: Map::<u64, Seq<ProposalView>>::empty().insert(
                0,
                config.initial_authorities,
            ).insert(1, config.initial_authorities),
        }
    }

    /// Why the proposals cannot be seated `epoch_offset` epochs ahead of
    /// the current one, or `None` if they can.
    pub open spec fn assignment_rejection(
        self,
        proposals: Seq<ProposalView>,
        epoch_offset: u64,
    ) -> Option<AuthorityError> {
        if !assignable(proposals, self.config.total_seats() as u64) {
            Some(AuthorityError::InvalidProposals)
        } else if (self.current_epoch + epoch_offset + 1) * self.config.epoch_length > u64::MAX {
            Some(AuthorityError::IndexOverflow)
        } else {
            None
        }
    }

    /// The ledger once the stake declarations of the header are recorded.
    pub open spec fn ledger_recorded(self, header: HeaderView) -> Seq<RecordedView> {
        all_recorded(self.proposals, header.proposals)
    }

    /// The ledger once the header is accounted for: its stake declarations
    /// are recorded, and then every seat of the block's committee whose
    /// mask bit is false is penalized by the threshold on record for the
    /// current epoch.
    pub open spec fn ledger_after(self, header: HeaderView) -> Seq<RecordedView> {
        absences_penalized(
            self.ledger_recorded(header),
            self.committees[header.index],
            header.mask,
            self.thresholds[self.current_epoch],
            header.mask.len() as int,
        )
    }

    /// The epoch that the header's index falls into.
    pub open spec fn header_epoch(self, header: HeaderView) -> u64 {
        (header.index / self.config.epoch_length) as u64
    }

    /// The proposals that are seated when the header crosses an epoch
    /// boundary: the positive stakes of the ledger, then the proposals on
    /// record for the current epoch that survive it.
    pub open spec fn boundary_proposals(self, header: HeaderView) -> Seq<ProposalView> {
        next_proposals(self.ledger_after(header), self.accepted_proposals[self.current_epoch])
    }

    /// Why the header cannot be processed, or `None` if it can.
    pub open spec fn rejection(self, header: HeaderView) -> Option<AuthorityError> {
        if header.index == 0 {
            None
        } else if !self.committees.contains_key(header.index) {
            Some(AuthorityError::IndexOutOfWindow)
        } else if header.mask.len() != self.config.num_seats_per_slot {
            Some(AuthorityError::MaskLength)
        } else if !penalties_fit(
            self.ledger_recorded(header),
            self.committees[header.index],
            header.mask,
            self.thresholds[self.current_epoch],
            header.mask.len() as int,
        ) {
            Some(AuthorityError::StakeOverflow)
        } else if self.header_epoch(header) == self.current_epoch {
            None
        } else {
            self.assignment_rejection(self.boundary_proposals(header), 2)
        }
    }

    /// The header can be processed.
    pub open spec fn accepts(self, header: HeaderView) -> bool {
        self.rejection(header) is None
    }

    /// The state after the header was processed.
    ///
    /// The genesis header changes nothing. Any other header is accounted
    /// for in the ledger. If its epoch is not the current one, the
    /// boundary proposals are seated two epochs ahead of the current one,
    /// their threshold and list are recorded under the header's epoch,
    /// which becomes the current one, and the ledger starts anew.
    pub open spec fn step(self, header: HeaderView) -> AuthorityState {
        if header.index == 0 {
            self
        } else if self.header_epoch(header) == self.current_epoch {
            AuthorityState { proposals: self.ledger_after(header), ..self }
        } else {
            let new_proposals = self.boundary_proposals(header);
            let next_epoch = self.header_epoch(header);
            AuthorityState {
                config: self.config,
                current_epoch: next_epoch,
                committees: self.committees.union_prefer_right(
                    self.config.drawn_committees(
                        zero_seed(),
                        new_proposals,
                        self.current_epoch + 2,
                    ),
                ),
                thresholds: self.thresholds.insert(
                    next_epoch,
                    drawn_threshold(new_proposals, self.config.total_seats() as u64) as u64,
                ),
                proposals: Seq::empty(),
                accepted_proposals: self.accepted_proposals.insert(next_epoch, new_proposals),
            }
        }
    }

    /// The state after the headers were processed in order.
    pub open spec fn replayed(self, headers: Seq<HeaderView>) -> AuthorityState
        decreases headers.len(),
    {
        if headers.len() == 0 {
            self
        } else {
            self.replayed(headers.drop_last()).step(headers.last())
        }
    }

    /// Each of the headers can be processed when its turn comes.
    pub open spec fn replay_accepted(self, headers: Seq<HeaderView>) -> bool
        decreases headers.len(),
    {
        if headers.len() == 0 {
            true
        } else {
            &&& self.replay_accepted(headers.drop_last())
            &&& self.replayed(headers.drop_last()).accepts(headers.last())
        }
    }
}

/// The committees of consecutive block indices from `first_index` on, one
/// for each slot.
pub open spec fn slot_views(first_index: u64, slots: Seq<Vec<SelectedAuthority>>) -> Map<
    u64,
    Seq<SeatView>,
> {
    Map::new(
        |index: u64| first_index <= index < first_index + slots.len(),
        |index: u64| seat_views(slots[index - first_index]@),
    )
}

/// If the headers are accepted one after the other, so is every shorter
/// run of them.
pub proof fn lemma_replay_accepted_prefix(state: AuthorityState, headers: Seq<HeaderView>, k: int)
    requires
        0 <= k <= headers.len(),
        state.replay_accepted(headers),
    ensures
        state.replay_accepted(headers.take(k)),
    decreases headers.len(),
{
    if k == headers.len() {
        assert(headers.take(k) =~= headers);
    } else {
        lemma_replay_accepted_prefix(state, headers.drop_last(), k);
        assert(headers.drop_last().take(k) =~= headers.take(k));
    }
}

/// Keeps track and selects authorities for given blockchain.
pub struct Authority {
    /// Authority configuration.
    authority_config: AuthorityConfig,
    /// Current epoch that is cached.
    current_epoch: u64,
    /// Cache of current authorities for given index.
    current: HashMap<u64, Vec<SelectedAuthority>>,
    /// Cache of current threshold.
    current_threshold: HashMap<u64, u64>,
    /// Proposals in the given epoch.
    proposals: ProposalLedger,
    /// Proposals per epoch.
    accepted_proposals: HashMap<u64, Vec<AuthorityProposal>>,
}

impl View for Authority {
    type V = AuthorityState;

    closed spec fn view(&self) -> AuthorityState {
        AuthorityState {
            config: self.authority_config@,
            current_epoch: self.current_epoch,
            committees: committee_views(self.current@),
            thresholds: self.current_threshold@,
            proposals: self.proposals@,
            accepted_proposals: accepted_views(self.accepted_proposals@),
        }
    }
}

/// The stake amounts of the proposals, in order.
fn proposal_amounts(proposals: &[AuthorityProposal]) -> (amounts: Vec<u64>)
    ensures
        amounts@ == amounts_of(proposal_views(proposals@)),
{
    let mut amounts: Vec<u64> = Vec::new();
    let mut i: usize = 0;
    while i < proposals.len()
        invariant
            0 <= i <= proposals.len(),
            amounts@ == amounts_of(proposal_views(proposals@)).take(i as int),
        decreases proposals.len() - i,
    {
        amounts.push(proposals[i].amount);
        assert(amounts@ =~= amounts_of(proposal_views(proposals@)).take(i + 1));
        i = i + 1;
    }
    assert(amounts@ =~= amounts_of(proposal_views(proposals@)));
    amounts
}

/// Copies the committees of the slots of an epoch.
fn clone_slots(slots: &Vec<Vec<SelectedAuthority>>) -> (copy: Vec<Vec<SelectedAuthority>>)
    ensures
        copy@.len() == slots@.len(),
        forall|slot: int| 0 <= slot < slots@.len() ==> (#[trigger] copy@[slot])@ == slots@[slot]@,
{
    let mut copy: Vec<Vec<SelectedAuthority>> = Vec::new();
    let mut i: usize = 0;
    while i < slots.len()
        invariant
            0 <= i <= slots.len(),
            copy@.len() == i,
            forall|slot: int| 0 <= slot < i ==> (#[trigger] copy@[slot])@ == slots@[slot]@,
        decreases slots.len() - i,
    {
        copy.push(clone_seats(&slots[i]));
        i = i + 1;
    }
    copy
}

/// Puts the committees of consecutive block indices into the cache, from
/// `first_index` on. A committee that the cache held for one of these
/// indices is replaced.
fn insert_slots(
    cache: &mut HashMap<u64, Vec<SelectedAuthority>>,
    first_index: u64,
    slots: Vec<Vec<SelectedAuthority>>,
)
    requires
        first_index + slots@.len() <= u64::MAX + 1,
    ensures
        committee_views(final(cache)@) == committee_views(old(cache)@).union_prefer_right(
            slot_views(first_index, slots@),
        ),
{
    let mut slots = slots;
    let ghost all = slots@;
    let ghost held = committee_views(cache@);
    assert(committee_views(cache@) =~= held.union_prefer_right(
        Map::new(
            |index: u64| first_index + slots@.len() <= index < first_index + all.len(),
            |index: u64| seat_views(all[index - first_index]@),
        ),
    ));
    while slots.len() > 0
        invariant
            first_index + all.len() <= u64::MAX + 1,
            slots@ == all.take(slots@.len() as int),
            slots@.len() <= all.len(),
            committee_views(cache@) == held.union_prefer_right(
                Map::new(
                    |index: u64| first_index + slots@.len() <= index < first_index + all.len(),
                    |index: u64| seat_views(all[index - first_index]@),
                ),
            ),
        decreases slots@.len(),
    {
        let slot = slots.len() - 1;
        let ghost before = committee_views(cache@);
        let committee = slots.pop().unwrap();
        let ghost added = seat_views(committee@);
        cache.insert(first_index + slot as u64, committee);
        assert(slots@ =~= all.take(slot as int));
        assert(committee_views(cache@) =~= before.insert((first_index + slot) as u64, added));
        assert(committee_views(cache@) =~= held.union_prefer_right(
            Map::new(
                |index: u64| first_index + slot <= index < first_index + all.len(),
                |index: u64| seat_views(all[index - first_index]@),
            ),
        ));
    }
    assert(committee_views(cache@) =~= held.union_prefer_right(slot_views(first_index, all)));
}

impl Authority {
    /// What holds of every engine: its state is valid.
    pub open spec fn wf(&self) -> bool {
        self@.valid()
    }

    /// Finds the threshold of the proposals, turns them into seat tokens,
    /// shuffles the tokens from the seed and cuts them into one committee
    /// for each slot of the epoch `epoch_offset` epochs ahead of the
    /// current one. Returns the first block index of that epoch, the
    /// committees in slot order, and the threshold.
    fn draw_slots(&self, seed: &CryptoHash, proposals: &[AuthorityProposal], epoch_offset: u64) -> (result:
        Result<(u64, Vec<Vec<SelectedAuthority>>, u64), AuthorityError>)
        requires
            self@.config.valid(),
        ensures
            match result {
                Ok((first_index, slots, threshold)) => {
                    &&& self@.assignment_rejection(proposal_views(proposals@), epoch_offset)
                        is None
                    &&& first_index == (self@.current_epoch + epoch_offset)
                        * self@.config.epoch_length + 1
                    &&& threshold == drawn_threshold(
                        proposal_views(proposals@),
                        self@.config.total_seats() as u64,
                    )
                    &&& slots@.len() == self@.config.epoch_length
                    &&& slot_views(first_index, slots@) == self@.config.drawn_committees(
                        seed@,
                        proposal_views(proposals@),
                        self@.current_epoch + epoch_offset,
                    )
                    &&& forall|slot: int|
                        0 <= slot < slots@.len() ==> (#[trigger] slots@[slot])@.len()
                            == self@.config.num_seats_per_slot
                },
                Err(error) => self@.assignment_rejection(proposal_views(proposals@), epoch_offset)
                    == Some(error),
            },
    {
        let epoch_length = self.authority_config.epoch_length;
        let seats = self.authority_config.num_seats_per_slot;
        assert(seats * epoch_length == epoch_length * seats && epoch_length * seats >= 1)
            by (nonlinear_arith)
            requires
                seats >= 1,
                epoch_length >= 1,
        ;
        let num_seats = seats * epoch_length;
        let ghost views = proposal_views(proposals@);
        let proposal_amounts = proposal_amounts(proposals);
        let threshold = match find_threshold(proposal_amounts.as_slice(), num_seats) {
            Ok(threshold) => threshold,
            Err(_) => {
                return Err(AuthorityError::InvalidProposals);
            },
        };
        if proposals.len() == 0 {
            return Err(AuthorityError::InvalidProposals);
        }
        let first_index = match self.first_index_of(epoch_offset) {
            Some(index) => index,
            None => {
                return Err(AuthorityError::IndexOverflow);
            },
        };
        proof {
            lemma_threshold_maximal(amounts_of(views), num_seats);
            lemma_seat_tokens_len(views, threshold as int);
        }
        let dup_proposals = seat_tokens_of(proposals, threshold);
        assert(seat_views(dup_proposals@).len() == dup_proposals@.len());
        let shuffled = shuffle_tokens(seed, &dup_proposals);
        let ghost tokens = seat_views(shuffled@);
        let ghost epoch = self.current_epoch + epoch_offset;
        assert((epoch + 1) * epoch_length == epoch * epoch_length + epoch_length)
            by (nonlinear_arith);
        let mut slots: Vec<Vec<SelectedAuthority>> = Vec::new();
        let mut i: u64 = 0;
        while i < epoch_length
            invariant
                0 <= i <= epoch_length,
                tokens == seat_views(shuffled@),
                epoch_length * seats <= shuffled@.len(),
                slots@.len() == i,
                forall|slot: int|
                    0 <= slot < i ==> seat_views((#[trigger] slots@[slot])@) == slot_committee(
                        tokens,
                        slot,
                        seats as int,
                    ) && slots@[slot]@.len() == seats,
            decreases epoch_length - i,
        {
            assert((i + 1) * seats <= epoch_length * seats) by (nonlinear_arith)
                requires
                    i < epoch_length,
                    seats >= 0,
            ;
            let committee = committee_at(&shuffled, i, seats);
            slots.push(committee);
            i = i + 1;
        }
        assert(slot_views(first_index, slots@) =~= self@.config.drawn_committees(
            seed@,
            views,
            epoch,
        ));
        Ok((first_index, slots, threshold))
    }

    /// Seats the proposals `epoch_offset` epochs ahead of the current one,
    /// if they can be seated there: finds their threshold, turns them into
    /// seat tokens, shuffles the tokens from the seed and cuts them into
    /// one committee for each block index of that epoch. Returns the
    /// committees by block index, and the threshold.
    pub fn try_proposals_to_authority(
        &self,
        seed: &CryptoHash,
        proposals: &[AuthorityProposal],
        epoch_offset: u64,
    ) -> (result: Result<(HashMap<u64, Vec<SelectedAuthority>>, u64), AuthorityError>)
        requires
            self@.config.valid(),
        ensures
            match result {
                Ok((committees, threshold)) => {
                    &&& self@.assignment_rejection(proposal_views(proposals@), epoch_offset)
                        is None
                    &&& threshold == drawn_threshold(
                        proposal_views(proposals@),
                        self@.config.total_seats() as u64,
                    )
                    &&& committee_views(committees@) == self@.config.drawn_committees(
                        seed@,
                        proposal_views(proposals@),
                        self@.current_epoch + epoch_offset,
                    )
                },
                Err(error) => self@.assignment_rejection(proposal_views(proposals@), epoch_offset)
                    == Some(error),
            },
    {
        match self.draw_slots(seed, proposals, epoch_offset) {
            Ok((first_index, slots, threshold)) => {
                let ghost drawn = slot_views(first_index, slots@);
                let mut result: HashMap<u64, Vec<SelectedAuthority>> = HashMap::new();
                assert((self@.current_epoch + epoch_offset + 1) * self@.config.epoch_length == (
                self@.current_epoch + epoch_offset) * self@.config.epoch_length
                    + self@.config.epoch_length) by (nonlinear_arith);
                insert_slots(&mut result, first_index, slots);
                assert(committee_views(result@) =~= drawn);
                Ok((result, threshold))
            },
            Err(error) => Err(error),
        }
    }

    /// Seats the proposals `epoch_offset` epochs ahead of the current one.
    pub fn proposals_to_authority(
        &self,
        seed: &CryptoHash,
        proposals: &[AuthorityProposal],
        epoch_offset: u64,
    ) -> (result: (HashMap<u64, Vec<SelectedAuthority>>, u64))
        requires
            self@.config.valid(),
            self@.assignment_rejection(proposal_views(proposals@), epoch_offset) is None,
        ensures
            result.1 == drawn_threshold(
                proposal_views(proposals@),
                self@.config.total_seats() as u64,
            ),
            committee_views(result.0@) == self@.config.drawn_committees(
                seed@,
                proposal_views(proposals@),
                self@.current_epoch + epoch_offset,
            ),
    {
        match self.try_proposals_to_authority(seed, proposals, epoch_offset) {
            Ok(drawn) => drawn,
            Err(_) => vstd::pervasive::unreached(),
        }
    }

    /// The first block index of the epoch `epoch_offset` epochs ahead of
    /// the current one, or `None` if the last block index of that epoch
    /// does not fit in 64 bits.
    fn first_index_of(&self, epoch_offset: u64) -> (first: Option<u64>)
        requires
            self@.config.epoch_length >= 1,
        ensures
            first is None <==> (self@.current_epoch + epoch_offset + 1) * self@.config.epoch_length
                > u64::MAX,
            first matches Some(index) ==> index == (self@.current_epoch + epoch_offset)
                * self@.config.epoch_length + 1,
    {
        let epoch_length = self.authority_config.epoch_length;
        let ghost target = self.current_epoch + epoch_offset + 1;
        assert(target * epoch_length >= target) by (nonlinear_arith)
            requires
                target >= 0,
                epoch_length >= 1,
        ;
        assert(target * epoch_length == (target - 1) * epoch_length + epoch_length)
            by (nonlinear_arith);
        let epoch = match self.current_epoch.checked_add(epoch_offset) {
            Some(epoch) => epoch,
            None => {
                return None;
            },
        };
        let next = match epoch.checked_add(1) {
            Some(next) => next,
            None => {
                return None;
            },
        };
        match next.checked_mul(epoch_length) {
            Some(last) => Some(last - epoch_length + 1),
            None => None,
        }
    }
}

/// The text that reports a block index without a committee.
pub open spec fn out_of_window_message(index: u64, current_epoch: u64, epoch_length: u64) -> Seq<
    char,
> {
    "Authority for index "@ + decimal_text(index as nat) + " is not found, current epoch "@
        + decimal_text(current_epoch as nat) + " has indices ["@ + decimal_text(
        (current_epoch * epoch_length) as nat,
    ) + ", "@ + decimal_text(((current_epoch + 1) * epoch_length) as nat) + "]"@
}

/// Builds the text that reports a block index without a committee.
fn out_of_window_text(index: u64, current_epoch: u64, epoch_length: u64) -> (msg: String)
    ensures
        msg@ == out_of_window_message(index, current_epoch, epoch_length),
{
    assert(0 <= current_epoch * epoch_length <= (current_epoch + 1) * epoch_length
        <= 0xffff_ffff_ffff_ffff_ffff_ffff_ffff_ffff) by (nonlinear_arith)
        requires
            0 <= current_epoch <= 0xffff_ffff_ffff_ffff,
            0 <= epoch_length <= 0xffff_ffff_ffff_ffff,
    ;
    let first = (current_epoch as u128) * (epoch_length as u128);
    let last = (current_epoch as u128 + 1) * (epoch_length as u128);
    let mut msg = String::from_str("Authority for index ");
    push_decimal(&mut msg, index as u128);
    msg.append(" is not found, current epoch ");
    push_decimal(&mut msg, current_epoch as u128);
    msg.append(" has indices [");
    push_decimal(&mut msg, first);
    msg.append(", ");
    push_decimal(&mut msg, last);
    msg.append("]");
    msg
}

impl Authority {
    /// Current epoch that is cached.
    pub fn current_epoch(&self) -> (epoch: u64)
        ensures
            epoch == self@.current_epoch,
    {
        self.current_epoch
    }

    /// The stake per seat on record for the epoch, if there is one.
    pub fn threshold(&self, epoch: u64) -> (threshold: Option<u64>)
        ensures
            threshold is Some <==> self@.thresholds.contains_key(epoch),
            threshold matches Some(t) ==> t == self@.thresholds[epoch],
    {
        match self.current_threshold.get(&epoch) {
            Some(threshold) => Some(*threshold),
            None => None,
        }
    }

    /// A copy of the proposal list on record for the epoch, if there is
    /// one.
    pub fn accepted_proposals(&self, epoch: u64) -> (accepted: Option<Vec<AuthorityProposal>>)
        ensures
            accepted is Some <==> self@.accepted_proposals.contains_key(epoch),
            accepted matches Some(list) ==> proposal_views(list@)
                == self@.accepted_proposals[epoch],
    {
        match self.accepted_proposals.get(&epoch) {
            Some(list) => Some(clone_proposals(list)),
            None => None,
        }
    }

    /// The stake on record for the account in the running epoch; an
    /// account without an entry has none.
    pub fn recorded_stake(&self, account_id: &AccountId) -> (stake: i64)
        requires
            self.wf(),
        ensures
            stake == stake_of(self@.proposals, account_id@),
    {
        self.proposals.stake_of(account_id)
    }

    /// Returns authorities for given block number.
    ///
    /// The genesis block has none. For any other index the result is a
    /// copy of the committee that is cached for it; an index without a
    /// committee is reported together with the current epoch and its
    /// block indices.
    pub fn get_authorities(&self, index: u64) -> (result: Result<Vec<SelectedAuthority>, String>)
        ensures
            match result {
                Ok(committee) => {
                    &&& index == 0 || self@.committees.contains_key(index)
                    &&& index == 0 ==> committee@.len() == 0
                    &&& index != 0 ==> seat_views(committee@) == self@.committees[index]
                },
                Err(msg) => {
                    &&& index != 0
                    &&& !self@.committees.contains_key(index)
                    &&& msg@ == out_of_window_message(
                        index,
                        self@.current_epoch,
                        self@.config.epoch_length,
                    )
                },
            },
    {
        if index == 0 {
            // Genesis block has no authorities.
            Ok(Vec::new())
        } else {
            match self.current.get(&index) {
                Some(committee) => Ok(clone_seats(committee)),
                None => Err(
                    out_of_window_text(
                        index,
                        self.current_epoch,
                        self.authority_config.epoch_length,
                    ),
                ),
            }
        }
    }

    /// Processes a header if it can be processed, and says why not if it
    /// cannot; the engine is then left as it was.
    pub fn try_process_block_header(&mut self, header: &SignedBeaconBlockHeader) -> (result: Result<
        (),
        AuthorityError,
    >)
        requires
            old(self).wf(),
        ensures
            final(self).wf(),
            match result {
                Ok(_) => old(self)@.rejection(header@) is None && final(self)@ == old(self)@.step(
                    header@,
                ),
                Err(error) => old(self)@.rejection(header@) == Some(error) && final(self)@ == old(
                    self,
                )@,
            },
    {
        // Always skip genesis block.
        if header.body.index == 0 {
            return Ok(());
        }
        let mut ledger = self.proposals.duplicate();
        ledger.record_all(&header.body.authority_proposal);
        let fits = match self.current.get(&header.body.index) {
            Some(header_authorities) => {
                if header.authority_mask.len() != header_authorities.len() {
                    return Err(AuthorityError::MaskLength);
                }
                let threshold = match self.current_threshold.get(&self.current_epoch) {
                    Some(threshold) => *threshold,
                    None => vstd::pervasive::unreached(),
                };
                ledger.penalize_absent(header_authorities, &header.authority_mask, threshold)
            },
            None => {
                return Err(AuthorityError::IndexOutOfWindow);
            },
        };
        if !fits {
            return Err(AuthorityError::StakeOverflow);
        }
        let next_epoch = header.body.index / self.authority_config.epoch_length;
        if next_epoch == self.current_epoch {
            self.proposals = ledger;
            return Ok(());
        }
        let new_proposals = match self.accepted_proposals.get(&self.current_epoch) {
            Some(accepted) => ledger.next_proposals(accepted),
            None => vstd::pervasive::unreached(),
        };
        let seed = CryptoHash::default();
        let (first_index, slots, threshold) = match self.draw_slots(
            &seed,
            new_proposals.as_slice(),
            2,
        ) {
            Ok(drawn) => drawn,
            Err(error) => {
                return Err(error);
            },
        };
        proof {
            let epoch = self@.current_epoch + 2;
            let length = self@.config.epoch_length;
            assert((epoch + 1) * length == epoch * length + length && epoch * length >= 0)
                by (nonlinear_arith)
                requires
                    epoch >= 0,
                    length >= 0,
            ;
        }
        let ghost drawn = slot_views(first_index, slots@);
        let ghost held = committee_views(self.current@);
        insert_slots(&mut self.current, first_index, slots);
        self.current_threshold.insert(next_epoch, threshold);
        self.current_epoch = next_epoch;
        self.proposals = ProposalLedger::new();
        let ghost recorded = accepted_views(self.accepted_proposals@);
        let ghost listed = proposal_views(new_proposals@);
        self.accepted_proposals.insert(next_epoch, new_proposals);
        proof {
            assert(accepted_views(self.accepted_proposals@) =~= recorded.insert(
                next_epoch,
                listed,
            ));
            assert forall|index: u64| #[trigger]
                self@.committees.contains_key(index) implies self@.committees[index].len()
                == self@.config.num_seats_per_slot by {
                if drawn.contains_key(index) {
                    assert(seat_views(slots@[index - first_index]@).len() == slots@[index
                        - first_index]@.len());
                } else {
                    assert(held.contains_key(index));
                }
            }
        }
        Ok(())
    }

    /// Processes a header: accounts for its stake declarations and for
    /// the seats that missed it, and seats new committees if it crosses an
    /// epoch boundary.
    pub fn process_block_header(&mut self, header: &SignedBeaconBlockHeader)
        requires
            old(self).wf(),
            old(self)@.accepts(header@),
        ensures
            final(self).wf(),
            final(self)@ == old(self)@.step(header@),
    {
        let _ = self.try_process_block_header(header);
    }

    /// Starts an engine from the configuration, if one can be started:
    /// the initial authorities are seated in epochs 0 and 1.
    pub fn try_seed(authority_config: AuthorityConfig) -> (result: Result<Authority, AuthorityError>)
        ensures
            match result {
                Ok(authority) => {
                    &&& AuthorityState::seed_rejection(authority_config@) is None
                    &&& authority@ == AuthorityState::seeded(authority_config@)
                    &&& authority.wf()
                },
                Err(error) => AuthorityState::seed_rejection(authority_config@) == Some(error),
            },
    {
        let epoch_length = authority_config.epoch_length;
        let seats = authority_config.num_seats_per_slot;
        if epoch_length == 0 || seats == 0 || epoch_length.checked_mul(seats).is_none() {
            return Err(AuthorityError::InvalidConfig);
        }
        let ghost config = authority_config@;
        let mut authority = Authority {
            authority_config,
            current_epoch: 0,
            current: HashMap::new(),
            current_threshold: HashMap::new(),
            proposals: ProposalLedger::new(),
            accepted_proposals: HashMap::new(),
        };
        if epoch_length.checked_add(epoch_length).is_none() {
            return Err(AuthorityError::IndexOverflow);
        }
        let seed = CryptoHash::default();
        // Initial authorities operate for first two epochs.
        let (first_index, slots, threshold) = match authority.draw_slots(
            &seed,
            authority.authority_config.initial_authorities.as_slice(),
            0,
        ) {
            Ok(drawn) => drawn,
            Err(error) => {
                proof {
                    let epoch = authority@.current_epoch;
                    let length = config.epoch_length;
                    assert((epoch + 0 + 1) * length == length) by (nonlinear_arith)
                        requires
                            epoch == 0,
                    ;
                }
                return Err(error);
            },
        };
        let repeated = clone_slots(&slots);
        let ghost first = slot_views(first_index, slots@);
        let ghost second = slot_views((epoch_length + 1) as u64, repeated@);
        insert_slots(&mut authority.current, first_index, slots);
        insert_slots(&mut authority.current, epoch_length + 1, repeated);
        authority.current_threshold.insert(0, threshold);
        authority.current_threshold.insert(1, threshold);
        let initial = clone_proposals(&authority.authority_config.initial_authorities);
        let again = clone_proposals(&authority.authority_config.initial_authorities);
        authority.accepted_proposals.insert(0, initial);
        authority.accepted_proposals.insert(1, again);
        proof {
            let seeded = AuthorityState::seeded(config);
            assert(authority@.config == config);
            assert(authority@.committees =~= seeded.committees) by {
                assert forall|index: u64| authority@.committees.contains_key(index) implies (
                #[trigger] authority@.committees[index]) == seeded.committees[index] by {
                    if second.contains_key(index) {
                        assert(repeated@[index - (epoch_length + 1)]@ == slots@[index - (
                        epoch_length + 1)]@);
                        assert(first.contains_key((index - epoch_length) as u64));
                    }
                }
            }
            assert(authority@.thresholds =~= seeded.thresholds);
            assert(authority@.accepted_proposals =~= seeded.accepted_proposals);
            assert(authority@.proposals =~= seeded.proposals);
            assert forall|index: u64| #[trigger]
                authority@.committees.contains_key(index) implies authority@.committees[index].len()
                == config.num_seats_per_slot by {
                if second.contains_key(index) {
                    assert(seat_views(repeated@[index - (epoch_length + 1)]@).len()
                        == repeated@[index - (epoch_length + 1)]@.len());
                    assert(repeated@[index - (epoch_length + 1)]@ == slots@[index - (epoch_length
                        + 1)]@);
                } else {
                    assert(first.contains_key(index));
                    assert(seat_views(slots@[index - first_index]@).len() == slots@[index
                        - first_index]@.len());
                }
            }
        }
        Ok(authority)
    }

    /// Starts an engine from the configuration and feeds it the headers,
    /// in order. Stops at the first header that cannot be processed and
    /// says why.
    pub fn try_new(authority_config: AuthorityConfig, headers: &[SignedBeaconBlockHeader]) -> (result:
        Result<Authority, AuthorityError>)
        ensures
            match result {
                Ok(authority) => {
                    &&& AuthorityState::seed_rejection(authority_config@) is None
                    &&& AuthorityState::seeded(authority_config@).replay_accepted(
                        header_views(headers@),
                    )
                    &&& authority@ == AuthorityState::seeded(authority_config@).replayed(
                        header_views(headers@),
                    )
                    &&& authority.wf()
                },
                Err(error) => {
                    ||| AuthorityState::seed_rejection(authority_config@) == Some(error)
                    ||| {
                        &&& AuthorityState::seed_rejection(authority_config@) is None
                        &&& exists|k: int|
                            0 <= k < headers@.len() && AuthorityState::seeded(
                                authority_config@,
                            ).replay_accepted(header_views(headers@).take(k))
                                && AuthorityState::seeded(authority_config@).replayed(
                                #[trigger] header_views(headers@).take(k),
                            ).rejection(header_views(headers@)[k]) == Some(error)
                    }
                },
            },
    {
        let ghost config = authority_config@;
        let ghost seeded = AuthorityState::seeded(config);
        let ghost views = header_views(headers@);
        let mut authority = match Authority::try_seed(authority_config) {
            Ok(authority) => authority,
            Err(error) => {
                return Err(error);
            },
        };
        let mut i: usize = 0;
        while i < headers.len()
            invariant
                0 <= i <= headers.len(),
                views == header_views(headers@),
                config == authority_config@,
                seeded == AuthorityState::seeded(config),
                AuthorityState::seed_rejection(config) is None,
                authority.wf(),
                seeded.replay_accepted(views.take(i as int)),
                authority@ == seeded.replayed(views.take(i as int)),
            decreases headers.len() - i,
        {
            proof {
                assert(views.take(i + 1).drop_last() =~= views.take(i as int));
                assert(views.take(i + 1).last() == headers@[i as int]@);
            }
            match authority.try_process_block_header(&headers[i]) {
                Ok(_) => {},
                Err(error) => {
                    proof {
                        let k = i as int;
                        assert(views[k] == headers@[k]@);
                        assert(0 <= k < headers@.len() && seeded.replay_accepted(views.take(k))
                            && seeded.replayed(#[trigger] views.take(k)).rejection(views[k])
                            == Some(error));
                    }
                    return Err(error);
                },
            }
            i = i + 1;
        }
        proof {
            assert(views.take(i as int) =~= views);
        }
        Ok(authority)
    }

    /// Builds authority for given valid blockchain: starts an engine from
    /// the configuration and feeds it the headers of the chain, in order.
    pub fn new(authority_config: AuthorityConfig, headers: &[SignedBeaconBlockHeader]) -> (authority:
        Self)
        requires
            AuthorityState::seed_rejection(authority_config@) is None,
            AuthorityState::seeded(authority_config@).replay_accepted(header_views(headers@)),
        ensures
            authority@ == AuthorityState::seeded(authority_config@).replayed(
                header_views(headers@),
            ),
            authority.wf(),
    {
        let ghost seeded = AuthorityState::seeded(authority_config@);
        let ghost views = header_views(headers@);
        match Authority::try_new(authority_config, headers) {
            Ok(authority) => authority,
            Err(error) => {
                proof {
                    let k = choose|k: int|
                        0 <= k < headers@.len() && seeded.replay_accepted(views.take(k))
                            && seeded.replayed(#[trigger] views.take(k)).rejection(views[k])
                            == Some(error);
                    lemma_replay_accepted_prefix(seeded, views, k + 1);
                    assert(views.take(k + 1).drop_last() =~= views.take(k));
                    assert(views.take(k + 1).last() == views[k]);
                }
                vstd::pervasive::unreached()
            },
        }
    }
}


} // verus!
