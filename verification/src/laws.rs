//! What holds of the engine whatever it is fed: the laws that relate its
//! functions to one another, each proved from their definitions.

use crate::assignment::{
    assignable, drawn_threshold, drawn_tokens, lemma_seat_tokens_len, lemma_seat_tokens_origin,
    lemma_shuffled_tokens_origin, seat_tokens, shuffled_tokens,
};
use crate::authority::{zero_seed, AuthorityState};
use crate::ledger::{
    absences_penalized, all_recorded, carried_over, distinct_accounts, lemma_penalized_distinct,
    lemma_recorded_distinct, penalties_fit, restaked, survives, RecordedView,
};
use crate::primitives::CryptoHash;
use crate::threshold::lemma_threshold_maximal;
use crate::types::{
    amounts_of, header_views, proposal_views, seat_of, AuthorityConfig, AuthorityProposal,
    ConfigView, HeaderView, ProposalView, SeatView, SignedBeaconBlockHeader,
};
use vstd::prelude::*;

verus! {

/// The seats of the committees of `count` consecutive block indices from
/// `first` on.
pub open spec fn seats_in_slots(committees: Map<u64, Seq<SeatView>>, first: int, count: int) -> int
    decreases count,
{
    if count <= 0 {
        0
    } else {
        seats_in_slots(committees, first, count - 1) + committees[(first + count - 1) as u64].len()
    }
}

/// The seats of the committees of epoch `epoch`.
pub open spec fn seats_in_epoch(committees: Map<u64, Seq<SeatView>>, epoch: int, epoch_length: int) -> int {
    seats_in_slots(committees, epoch * epoch_length + 1, epoch_length)
}

/// Every block index of epoch `epoch` has a committee.
pub open spec fn epoch_seated(state: AuthorityState, epoch: int) -> bool {
    forall|index: u64|
        epoch * state.config.epoch_length < index <= (epoch + 1) * state.config.epoch_length
            ==> #[trigger] state.committees.contains_key(index)
}

/// Every block index from 1 to the last one of the epoch after the next
/// has a committee.
pub open spec fn window_seated(state: AuthorityState) -> bool {
    forall|index: u64|
        1 <= index <= (state.current_epoch + 2) * state.config.epoch_length
            ==> #[trigger] state.committees.contains_key(index)
}

/// Committees of a common size add up to that size for each of them.
proof fn lemma_seats_in_slots_uniform(
    committees: Map<u64, Seq<SeatView>>,
    first: int,
    count: int,
    seats: int,
)
    requires
        0 <= count,
        forall|index: u64|
            first <= index < first + count ==> (#[trigger] committees[index]).len() == seats,
        0 <= first,
        first + count <= u64::MAX + 1,
    ensures
        seats_in_slots(committees, first, count) == count * seats,
    decreases count,
{
    if count > 0 {
        lemma_seats_in_slots_uniform(committees, first, count - 1, seats);
        let last = (first + count - 1) as u64;
        assert(committees[last].len() == seats);
        assert(count * seats == (count - 1) * seats + seats) by (nonlinear_arith);
    } else {
        assert(count * seats == 0) by (nonlinear_arith)
            requires
                count == 0,
        ;
    }
}

/// The proposals that can fill the seats have at least as many seat
/// tokens as there are seats, shuffled or not.
pub proof fn lemma_enough_tokens(seed: Seq<u8>, proposals: Seq<ProposalView>, total_seats: u64)
    requires
        total_seats >= 1,
        assignable(proposals, total_seats),
    ensures
        drawn_threshold(proposals, total_seats) >= 1,
        drawn_tokens(seed, proposals, total_seats).len() == seat_tokens(
            proposals,
            drawn_threshold(proposals, total_seats),
        ).len(),
        drawn_tokens(seed, proposals, total_seats).len() >= total_seats,
{
    lemma_threshold_maximal(amounts_of(proposals), total_seats);
    lemma_seat_tokens_len(proposals, drawn_threshold(proposals, total_seats));
}

/// The committees that are drawn for an epoch are those of its block
/// indices, and each fills every seat of its slot.
pub proof fn lemma_drawn_committees_shape(
    config: ConfigView,
    seed: Seq<u8>,
    proposals: Seq<ProposalView>,
    epoch: int,
)
    requires
        config.valid(),
        assignable(proposals, config.total_seats() as u64),
        0 <= epoch,
        (epoch + 1) * config.epoch_length <= u64::MAX,
    ensures
        forall|index: u64|
            epoch * config.epoch_length < index <= (epoch + 1) * config.epoch_length
                <==> #[trigger] config.drawn_committees(seed, proposals, epoch).contains_key(
                index,
            ),
        forall|index: u64| #[trigger]
            config.drawn_committees(seed, proposals, epoch).contains_key(index)
                ==> config.drawn_committees(seed, proposals, epoch)[index].len()
                == config.num_seats_per_slot,
{
    let length = config.epoch_length as int;
    let seats = config.num_seats_per_slot as int;
    assert(length * seats >= 1) by (nonlinear_arith)
        requires
            length >= 1,
            seats >= 1,
    ;
    lemma_enough_tokens(seed, proposals, config.total_seats() as u64);
    let tokens = drawn_tokens(seed, proposals, config.total_seats() as u64);
    let drawn = config.drawn_committees(seed, proposals, epoch);
    assert((epoch + 1) * length == epoch * length + length) by (nonlinear_arith);
    assert forall|index: u64| #[trigger] drawn.contains_key(index) implies drawn[index].len()
        == config.num_seats_per_slot by {
        let slot = index - epoch * length - 1;
        assert(0 <= slot * seats && (slot + 1) * seats <= length * seats && (slot + 1) * seats
            == slot * seats + seats) by (nonlinear_arith)
            requires
                0 <= slot < length,
                seats >= 1,
        ;
    }
}

/// Every seat of a drawn committee is the seat of one of the proposals,
/// and that proposal's amount reaches the threshold.
pub proof fn lemma_drawn_seat_origin(
    config: ConfigView,
    seed: Seq<u8>,
    proposals: Seq<ProposalView>,
    epoch: int,
    index: u64,
    k: int,
)
    requires
        config.valid(),
        assignable(proposals, config.total_seats() as u64),
        0 <= epoch,
        (epoch + 1) * config.epoch_length <= u64::MAX,
        epoch * config.epoch_length < index <= (epoch + 1) * config.epoch_length,
        0 <= k < config.num_seats_per_slot,
    ensures
        exists|i: int|
            0 <= i < proposals.len() && proposals[i].amount >= drawn_threshold(
                proposals,
                config.total_seats() as u64,
            ) && seat_of(#[trigger] proposals[i]) == config.drawn_committees(
                seed,
                proposals,
                epoch,
            )[index][k],
{
    let length = config.epoch_length as int;
    let seats = config.num_seats_per_slot as int;
    let total = config.total_seats() as u64;
    assert(length * seats >= 1) by (nonlinear_arith)
        requires
            length >= 1,
            seats >= 1,
    ;
    lemma_enough_tokens(seed, proposals, total);
    let threshold = drawn_threshold(proposals, total);
    let tokens = seat_tokens(proposals, threshold);
    assert((epoch + 1) * length == epoch * length + length) by (nonlinear_arith);
    let slot = index - epoch * length - 1;
    assert(0 <= slot * seats && (slot + 1) * seats <= length * seats && (slot + 1) * seats == slot
        * seats + seats) by (nonlinear_arith)
        requires
            0 <= slot < length,
            seats >= 1,
    ;
    let position = slot * seats + k;
    lemma_shuffled_tokens_origin(seed, tokens, position);
    let shuffled = shuffled_tokens(seed, tokens);
    let j = choose|j: int| 0 <= j < tokens.len() && #[trigger] tokens[j] == shuffled[position];
    lemma_seat_tokens_origin(proposals, threshold, j);
    assert(config.drawn_committees(seed, proposals, epoch)[index][k] == shuffled[position]);
}

/// An account whose every proposal has an amount below the threshold of
/// the list gets no seat in the epoch that is drawn from the list.
pub proof fn lemma_below_threshold_gets_no_seat(
    config: ConfigView,
    seed: Seq<u8>,
    proposals: Seq<ProposalView>,
    epoch: int,
    account_id: Seq<char>,
    index: u64,
    k: int,
)
    requires
        config.valid(),
        assignable(proposals, config.total_seats() as u64),
        0 <= epoch,
        (epoch + 1) * config.epoch_length <= u64::MAX,
        epoch * config.epoch_length < index <= (epoch + 1) * config.epoch_length,
        0 <= k < config.num_seats_per_slot,
        forall|i: int|
            0 <= i < proposals.len() && (#[trigger] proposals[i]).account_id == account_id
                ==> proposals[i].amount < drawn_threshold(proposals, config.total_seats() as u64),
    ensures
        config.drawn_committees(seed, proposals, epoch)[index][k].account_id != account_id,
{
    lemma_drawn_seat_origin(config, seed, proposals, epoch, index, k);
}

/// Every epoch that is drawn has as many seats as the epoch has slots
/// times the seats of a slot.
pub proof fn lemma_drawn_epoch_seat_count(
    config: ConfigView,
    seed: Seq<u8>,
    proposals: Seq<ProposalView>,
    epoch: int,
)
    requires
        config.valid(),
        assignable(proposals, config.total_seats() as u64),
        0 <= epoch,
        (epoch + 1) * config.epoch_length <= u64::MAX,
    ensures
        seats_in_epoch(
            config.drawn_committees(seed, proposals, epoch),
            epoch,
            config.epoch_length as int,
        ) == config.epoch_length * config.num_seats_per_slot,
{
    lemma_drawn_committees_shape(config, seed, proposals, epoch);
    let length = config.epoch_length as int;
    assert((epoch + 1) * length == epoch * length + length && epoch * length >= 0)
        by (nonlinear_arith)
        requires
            epoch >= 0,
            length >= 0,
    ;
    let drawn = config.drawn_committees(seed, proposals, epoch);
    assert forall|index: u64|
        epoch * length + 1 <= index < epoch * length + 1 + length implies (
    #[trigger] drawn[index]).len() == config.num_seats_per_slot by {
        assert(drawn.contains_key(index));
    }
    lemma_seats_in_slots_uniform(
        config.drawn_committees(seed, proposals, epoch),
        epoch * length + 1,
        length,
        config.num_seats_per_slot as int,
    );
}

/// In a valid state, an epoch whose block indices all have a committee
/// has as many seats as the epoch has slots times the seats of a slot.
pub proof fn lemma_epoch_seat_count(state: AuthorityState, epoch: int)
    requires
        state.valid(),
        0 <= epoch,
        (epoch + 1) * state.config.epoch_length <= u64::MAX,
        epoch_seated(state, epoch),
    ensures
        seats_in_epoch(state.committees, epoch, state.config.epoch_length as int)
            == state.config.epoch_length * state.config.num_seats_per_slot,
{
    let length = state.config.epoch_length as int;
    assert((epoch + 1) * length == epoch * length + length && epoch * length >= 0)
        by (nonlinear_arith)
        requires
            epoch >= 0,
            length >= 0,
    ;
    assert forall|index: u64|
        epoch * length + 1 <= index < epoch * length + 1 + length implies (
    #[trigger] state.committees[index]).len() == state.config.num_seats_per_slot by {
        assert(state.committees.contains_key(index));
    }
    lemma_seats_in_slots_uniform(
        state.committees,
        epoch * length + 1,
        length,
        state.config.num_seats_per_slot as int,
    );
}

/// Recording stake declarations leaves no account with two entries.
pub proof fn lemma_all_recorded_distinct(entries: Seq<RecordedView>, proposals: Seq<ProposalView>)
    requires
        distinct_accounts(entries),
    ensures
        distinct_accounts(all_recorded(entries, proposals)),
    decreases proposals.len(),
{
    if proposals.len() > 0 {
        lemma_all_recorded_distinct(entries, proposals.drop_last());
        lemma_recorded_distinct(all_recorded(entries, proposals.drop_last()), proposals.last());
    }
}

/// Penalties leave no account with two entries.
pub proof fn lemma_absences_penalized_distinct(
    entries: Seq<RecordedView>,
    committee: Seq<SeatView>,
    mask: Seq<bool>,
    threshold: u64,
    k: int,
)
    requires
        distinct_accounts(entries),
    ensures
        distinct_accounts(absences_penalized(entries, committee, mask, threshold, k)),
    decreases k,
{
    if k > 0 {
        lemma_absences_penalized_distinct(entries, committee, mask, threshold, k - 1);
        lemma_penalized_distinct(
            absences_penalized(entries, committee, mask, threshold, k - 1),
            committee[k - 1],
            threshold,
        );
    }
}

/// A header whose every mask bit is true penalizes no account: the ledger
/// holds the stake declarations of the header and is otherwise as it was.
pub proof fn lemma_full_participation_penalizes_nobody(state: AuthorityState, header: HeaderView)
    requires
        forall|i: int| 0 <= i < header.mask.len() ==> header.mask[i],
    ensures
        state.ledger_after(header) == state.ledger_recorded(header),
        penalties_fit(
            state.ledger_recorded(header),
            state.committees[header.index],
            header.mask,
            state.thresholds[state.current_epoch],
            header.mask.len() as int,
        ),
{
    lemma_no_absence_no_penalty(
        state.ledger_recorded(header),
        state.committees[header.index],
        header.mask,
        state.thresholds[state.current_epoch],
        header.mask.len() as int,
    );
}

/// Where the first `k` mask bits are true, the first `k` seats bring no
/// penalty.
proof fn lemma_no_absence_no_penalty(
    entries: Seq<RecordedView>,
    committee: Seq<SeatView>,
    mask: Seq<bool>,
    threshold: u64,
    k: int,
)
    requires
        k <= mask.len(),
        forall|i: int| 0 <= i < k ==> mask[i],
    ensures
        absences_penalized(entries, committee, mask, threshold, k) == entries,
        penalties_fit(entries, committee, mask, threshold, k),
    decreases k,
{
    if k > 0 {
        lemma_no_absence_no_penalty(entries, committee, mask, threshold, k - 1);
    }
}

/// The genesis header is accepted in every state and changes nothing.
pub proof fn lemma_genesis_header_changes_nothing(state: AuthorityState, header: HeaderView)
    requires
        header.index == 0,
    ensures
        state.accepts(header),
        state.step(header) == state,
{
}

/// A new engine is in a valid state, and epochs 0 and 1 are seated.
pub proof fn lemma_seeded_valid(config: ConfigView)
    requires
        AuthorityState::seed_rejection(config) is None,
    ensures
        AuthorityState::seeded(config).valid(),
        window_seated(AuthorityState::seeded(config)),
        epoch_seated(AuthorityState::seeded(config), 0),
        epoch_seated(AuthorityState::seeded(config), 1),
        forall|index: u64|
            1 <= index <= config.epoch_length ==> AuthorityState::seeded(config).committees[(index
                + config.epoch_length) as u64] == #[trigger] AuthorityState::seeded(
                config,
            ).committees[index],
{
    let seeded = AuthorityState::seeded(config);
    let length = config.epoch_length as int;
    assert((0 + 1) * length == length && 0 * length == 0 && (1 + 1) * length == 2 * length && (0
        + 2) * length == 2 * length) by (nonlinear_arith);
    lemma_drawn_committees_shape(config, zero_seed(), config.initial_authorities, 0);
    let first = config.drawn_committees(zero_seed(), config.initial_authorities, 0);
    assert forall|index: u64| #[trigger] seeded.committees.contains_key(index) implies seeded.committees[index].len()
        == config.num_seats_per_slot by {
        if index <= length {
            assert(first.contains_key(index));
        } else {
            assert(first.contains_key((index - length) as u64));
        }
    }
}

/// Processing an accepted header leaves a valid state valid.
pub proof fn lemma_step_valid(state: AuthorityState, header: HeaderView)
    requires
        state.valid(),
        state.accepts(header),
    ensures
        state.step(header).valid(),
{
    if header.index != 0 {
        lemma_all_recorded_distinct(state.proposals, header.proposals);
        lemma_absences_penalized_distinct(
            state.ledger_recorded(header),
            state.committees[header.index],
            header.mask,
            state.thresholds[state.current_epoch],
            header.mask.len() as int,
        );
        if state.header_epoch(header) != state.current_epoch {
            lemma_boundary_seats_epoch(state, header);
        }
    }
}

/// A header that crosses an epoch boundary seats the epoch after the next
/// of the current one: each of its block indices gets the committee that
/// is drawn for it from the boundary proposals, with every seat filled,
/// and no other committee changes.
pub proof fn lemma_boundary_seats_epoch(state: AuthorityState, header: HeaderView)
    requires
        state.valid(),
        state.accepts(header),
        header.index != 0,
        state.header_epoch(header) != state.current_epoch,
    ensures
        epoch_seated(state.step(header), state.current_epoch + 2),
        forall|index: u64|
            (state.current_epoch + 2) * state.config.epoch_length < index <= (state.current_epoch
                + 3) * state.config.epoch_length ==> #[trigger] state.step(
                header,
            ).committees[index] == state.config.drawn_committees(
                zero_seed(),
                state.boundary_proposals(header),
                state.current_epoch + 2,
            )[index] && state.step(header).committees[index].len()
                == state.config.num_seats_per_slot,
        forall|index: u64|
            !((state.current_epoch + 2) * state.config.epoch_length < index <= (
            state.current_epoch + 3) * state.config.epoch_length) ==> (#[trigger] state.step(
                header,
            ).committees.contains_key(index) <==> state.committees.contains_key(index)),
        forall|index: u64|
            !((state.current_epoch + 2) * state.config.epoch_length < index <= (
            state.current_epoch + 3) * state.config.epoch_length) && state.committees.contains_key(
                index,
            ) ==> (#[trigger] state.step(header).committees[index]) == state.committees[index],
{
    let epoch = state.current_epoch + 2;
    let length = state.config.epoch_length as int;
    assert((epoch + 1) * length == (state.current_epoch + 2 + 1) * length);
    assert(epoch * length >= 0) by (nonlinear_arith)
        requires
            epoch >= 0,
            length >= 0,
    ;
    lemma_drawn_committees_shape(
        state.config,
        zero_seed(),
        state.boundary_proposals(header),
        epoch,
    );
}

/// What an engine that is fed in order keeps: if every block index
/// up to the end of the epoch after the next has a committee, and the
/// header belongs to the current epoch or the next, the same holds after
/// the header.
pub proof fn lemma_step_keeps_window_seated(state: AuthorityState, header: HeaderView)
    requires
        state.valid(),
        state.accepts(header),
        window_seated(state),
        state.header_epoch(header) == state.current_epoch || state.header_epoch(header)
            == state.current_epoch + 1,
    ensures
        window_seated(state.step(header)),
{
    if header.index != 0 && state.header_epoch(header) != state.current_epoch {
        lemma_boundary_seats_epoch(state, header);
        let after = state.step(header);
        let length = state.config.epoch_length as int;
        let epoch = state.current_epoch as int;
        assert((epoch + 1 + 2) * length == (epoch + 3) * length);
        assert((epoch + 2) * length >= 0) by (nonlinear_arith)
            requires
                epoch >= 0,
                length >= 0,
        ;
        assert forall|index: u64|
            1 <= index <= (after.current_epoch + 2) * length implies #[trigger] after.committees.contains_key(
            index,
        ) by {
            if index <= (epoch + 2) * length {
                assert(state.committees.contains_key(index));
            }
        }
    }
}

/// Every proposal that the ledger restakes stands for an entry with a
/// positive stake: same account, same key, the stake as its amount.
pub proof fn lemma_restaked_origin(entries: Seq<RecordedView>, i: int)
    requires
        0 <= i < restaked(entries).len(),
    ensures
        exists|j: int|
            0 <= j < entries.len() && (#[trigger] entries[j]).stake > 0 && entries[j].account_id
                == restaked(entries)[i].account_id && entries[j].public_key == restaked(
                entries,
            )[i].public_key && entries[j].stake == restaked(entries)[i].amount,
    decreases entries.len(),
{
    let before = restaked(entries.drop_last());
    if i < before.len() {
        lemma_restaked_origin(entries.drop_last(), i);
        let j = choose|j: int|
            0 <= j < entries.drop_last().len() && (#[trigger] entries.drop_last()[j]).stake > 0
                && entries.drop_last()[j].account_id == before[i].account_id
                && entries.drop_last()[j].public_key == before[i].public_key
                && entries.drop_last()[j].stake == before[i].amount;
        assert(entries[j] == entries.drop_last()[j]);
    } else {
        let j = entries.len() - 1;
        assert(entries[j].stake > 0);
    }
}

/// Every proposal that is carried over is one of the accepted proposals,
/// and it survives.
pub proof fn lemma_carried_over_origin(
    entries: Seq<RecordedView>,
    accepted: Seq<ProposalView>,
    i: int,
)
    requires
        0 <= i < carried_over(entries, accepted).len(),
    ensures
        exists|j: int|
            0 <= j < accepted.len() && #[trigger] accepted[j] == carried_over(entries, accepted)[i]
                && survives(entries, accepted[j]),
    decreases accepted.len(),
{
    let before = carried_over(entries, accepted.drop_last());
    if i < before.len() {
        lemma_carried_over_origin(entries, accepted.drop_last(), i);
        let j = choose|j: int|
            0 <= j < accepted.drop_last().len() && #[trigger] accepted.drop_last()[j] == before[i]
                && survives(entries, accepted.drop_last()[j]);
        assert(accepted[j] == accepted.drop_last()[j]);
    } else {
        let j = accepted.len() - 1;
        assert(accepted[j] == carried_over(entries, accepted)[i]);
    }
}

/// No seat of the committees that a boundary draws goes to an account
/// that neither has a positive stake in the ledger nor is carried over:
/// the occupant of every such seat has an entry with a positive stake, or
/// has a proposal on record for the current epoch that survives.
pub proof fn lemma_new_seats_from_stake_or_carry_over(
    state: AuthorityState,
    header: HeaderView,
    index: u64,
    k: int,
)
    requires
        state.valid(),
        state.accepts(header),
        header.index != 0,
        state.header_epoch(header) != state.current_epoch,
        (state.current_epoch + 2) * state.config.epoch_length < index <= (state.current_epoch + 3)
            * state.config.epoch_length,
        0 <= k < state.config.num_seats_per_slot,
    ensures
        ({
            let seat = state.step(header).committees[index][k];
            let ledger = state.ledger_after(header);
            let accepted = state.accepted_proposals[state.current_epoch];
            ||| exists|j: int|
                0 <= j < ledger.len() && (#[trigger] ledger[j]).stake > 0 && ledger[j].account_id
                    == seat.account_id
            ||| exists|j: int|
                0 <= j < accepted.len() && survives(ledger, #[trigger] accepted[j])
                    && accepted[j].account_id == seat.account_id
        }),
{
    let epoch = state.current_epoch + 2;
    let length = state.config.epoch_length as int;
    let proposals = state.boundary_proposals(header);
    let ledger = state.ledger_after(header);
    let accepted = state.accepted_proposals[state.current_epoch];
    assert((epoch + 1) * length == (state.current_epoch + 2 + 1) * length);
    lemma_boundary_seats_epoch(state, header);
    lemma_drawn_seat_origin(state.config, zero_seed(), proposals, epoch, index, k);
    let seat = state.step(header).committees[index][k];
    let i = choose|i: int|
        0 <= i < proposals.len() && proposals[i].amount >= drawn_threshold(
            proposals,
            state.config.total_seats() as u64,
        ) && seat_of(#[trigger] proposals[i]) == seat;
    if i < restaked(ledger).len() {
        lemma_restaked_origin(ledger, i);
        let j = choose|j: int|
            0 <= j < ledger.len() && (#[trigger] ledger[j]).stake > 0 && ledger[j].account_id
                == restaked(ledger)[i].account_id && ledger[j].public_key == restaked(
                ledger,
            )[i].public_key && ledger[j].stake == restaked(ledger)[i].amount;
        assert(ledger[j].account_id == seat.account_id);
    } else {
        let c = i - restaked(ledger).len();
        lemma_carried_over_origin(ledger, accepted, c);
        let j = choose|j: int|
            0 <= j < accepted.len() && #[trigger] accepted[j] == carried_over(ledger, accepted)[c]
                && survives(ledger, accepted[j]);
        assert(accepted[j].account_id == seat.account_id);
    }
}

/// The occupant of every seat that a boundary draws has a proposal in the
/// list that the boundary puts on record, under the epoch that becomes
/// the current one.
pub proof fn lemma_new_seats_are_on_record(
    state: AuthorityState,
    header: HeaderView,
    index: u64,
    k: int,
)
    requires
        state.valid(),
        state.accepts(header),
        header.index != 0,
        state.header_epoch(header) != state.current_epoch,
        (state.current_epoch + 2) * state.config.epoch_length < index <= (state.current_epoch + 3)
            * state.config.epoch_length,
        0 <= k < state.config.num_seats_per_slot,
    ensures
        ({
            let after = state.step(header);
            let seat = after.committees[index][k];
            let accepted = after.accepted_proposals[after.current_epoch];
            exists|i: int|
                0 <= i < accepted.len() && (#[trigger] accepted[i]).account_id == seat.account_id
        }),
{
    let epoch = state.current_epoch + 2;
    let length = state.config.epoch_length as int;
    let proposals = state.boundary_proposals(header);
    assert((epoch + 1) * length == (state.current_epoch + 2 + 1) * length);
    lemma_boundary_seats_epoch(state, header);
    lemma_drawn_seat_origin(state.config, zero_seed(), proposals, epoch, index, k);
    let after = state.step(header);
    let seat = after.committees[index][k];
    let accepted = after.accepted_proposals[after.current_epoch];
    assert(accepted == proposals);
    let i = choose|i: int|
        0 <= i < proposals.len() && proposals[i].amount >= drawn_threshold(
            proposals,
            state.config.total_seats() as u64,
        ) && seat_of(#[trigger] proposals[i]) == seat;
    assert(accepted[i].account_id == seat.account_id);
}

/// In a new engine the occupant of every seat, of epoch 0 and of epoch 1,
/// is one of the initial authorities, which are on record for both
/// epochs.
pub proof fn lemma_seeded_seats_are_on_record(config: ConfigView, epoch: u64, index: u64, k: int)
    requires
        AuthorityState::seed_rejection(config) is None,
        epoch == 0 || epoch == 1,
        epoch * config.epoch_length < index <= (epoch + 1) * config.epoch_length,
        0 <= k < config.num_seats_per_slot,
    ensures
        ({
            let seeded = AuthorityState::seeded(config);
            let seat = seeded.committees[index][k];
            let accepted = seeded.accepted_proposals[epoch];
            exists|i: int|
                0 <= i < accepted.len() && (#[trigger] accepted[i]).account_id == seat.account_id
        }),
{
    let length = config.epoch_length as int;
    assert((0 + 1) * length == length && 0 * length == 0 && (1 + 1) * length == 2 * length && 1
        * length == length) by (nonlinear_arith);
    let source = if epoch == 0 {
        index
    } else {
        (index - length) as u64
    };
    lemma_drawn_seat_origin(config, zero_seed(), config.initial_authorities, 0, source, k);
    let seeded = AuthorityState::seeded(config);
    let seat = seeded.committees[index][k];
    let accepted = seeded.accepted_proposals[epoch];
    let initial = config.initial_authorities;
    assert(accepted == initial);
    assert(seat == config.drawn_committees(zero_seed(), initial, 0)[source][k]);
    let i = choose|i: int|
        0 <= i < initial.len() && initial[i].amount >= drawn_threshold(
            initial,
            config.total_seats() as u64,
        ) && seat_of(#[trigger] initial[i]) == seat;
    assert(accepted[i].account_id == seat.account_id);
}

/// The committees that are drawn depend on what the seed and the
/// proposals hold, and on nothing else: equal seeds and equal proposal
/// lists give the same committees.
pub proof fn lemma_assignment_deterministic(
    config: ConfigView,
    seed_a: CryptoHash,
    seed_b: CryptoHash,
    proposals_a: Seq<AuthorityProposal>,
    proposals_b: Seq<AuthorityProposal>,
    epoch: int,
)
    requires
        seed_a@ == seed_b@,
        proposal_views(proposals_a) == proposal_views(proposals_b),
    ensures
        config.drawn_committees(seed_a@, proposal_views(proposals_a), epoch)
            == config.drawn_committees(seed_b@, proposal_views(proposals_b), epoch),
        drawn_threshold(proposal_views(proposals_a), config.total_seats() as u64)
            == drawn_threshold(proposal_views(proposals_b), config.total_seats() as u64),
{
}

/// Two engines that were given configurations that hold the same, and
/// were fed headers that hold the same, are in the same state: they have
/// the same committee, or none, for every block index.
pub proof fn lemma_replay_deterministic(
    config_a: AuthorityConfig,
    config_b: AuthorityConfig,
    headers_a: Seq<SignedBeaconBlockHeader>,
    headers_b: Seq<SignedBeaconBlockHeader>,
)
    requires
        config_a@ == config_b@,
        header_views(headers_a) == header_views(headers_b),
    ensures
        AuthorityState::seeded(config_a@).replayed(header_views(headers_a))
            == AuthorityState::seeded(config_b@).replayed(header_views(headers_b)),
        forall|index: u64|
            AuthorityState::seeded(config_a@).replayed(
                header_views(headers_a),
            ).committees.contains_key(index) == AuthorityState::seeded(config_b@).replayed(
                header_views(headers_b),
            ).committees.contains_key(index) && AuthorityState::seeded(config_a@).replayed(
                header_views(headers_a),
            ).committees[index] == AuthorityState::seeded(config_b@).replayed(
                header_views(headers_b),
            ).committees[index],
{
}

/// Replaying accepted headers from a valid state ends in a valid state.
pub proof fn lemma_replayed_valid(state: AuthorityState, headers: Seq<HeaderView>)
    requires
        state.valid(),
        state.replay_accepted(headers),
    ensures
        state.replayed(headers).valid(),
    decreases headers.len(),
{
    if headers.len() > 0 {
        lemma_replayed_valid(state, headers.drop_last());
        lemma_step_valid(state.replayed(headers.drop_last()), headers.last());
    }
}

} // verus!
