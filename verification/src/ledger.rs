//! The proposal ledger of the running epoch: what each account has staked
//! since the last epoch boundary, and what it has lost by missing blocks.
//!
//! Entries are kept in the order in which their accounts first appeared,
//! so that every node walks them in the same order.

use crate::primitives::{as_signed, to_signed, AccountId, PublicKey};
use crate::types::{proposal_views, seat_views, AuthorityProposal, ProposalView, SeatView, SelectedAuthority};
use vstd::prelude::*;

verus! {

/// The stake that one account has on record in the running epoch.
pub struct RecordedProposal {
    pub account_id: AccountId,
    pub public_key: PublicKey,
    /// Stake is either positive for proposal or negative for kicked out accounts.
    pub stake: i64,
}

/// What a `RecordedProposal` holds.
pub struct RecordedView {
    pub account_id: Seq<char>,
    pub public_key: PublicKey,
    pub stake: i64,
}

impl View for RecordedProposal {
    type V = RecordedView;

    open spec fn view(&self) -> RecordedView {
        RecordedView {
            account_id: self.account_id@,
            public_key: self.public_key,
            stake: self.stake,
        }
    }
}

impl Clone for RecordedProposal {
    fn clone(&self) -> (copy: Self)
        ensures
            copy == *self,
    {
        RecordedProposal {
            account_id: self.account_id.clone(),
            public_key: self.public_key,
            stake: self.stake,
        }
    }
}

/// The account has an entry.
pub open spec fn has_account(entries: Seq<RecordedView>, id: Seq<char>) -> bool {
    exists|j: int| 0 <= j < entries.len() && entries[j].account_id == id
}

/// Where the account's entry stands, if it has one.
pub open spec fn position(entries: Seq<RecordedView>, id: Seq<char>) -> int {
    choose|j: int| 0 <= j < entries.len() && entries[j].account_id == id
}

/// No account has two entries.
pub open spec fn distinct_accounts(entries: Seq<RecordedView>) -> bool {
    forall|i: int, j: int|
        0 <= i < j < entries.len() ==> entries[i].account_id != entries[j].account_id
}

/// The stake on record for the account; an account without an entry has
/// none.
pub open spec fn stake_of(entries: Seq<RecordedView>, id: Seq<char>) -> int {
    if has_account(entries, id) {
        entries[position(entries, id)].stake as int
    } else {
        0
    }
}

/// The entry that a stake declaration leaves: its amount read as a signed
/// number.
pub open spec fn entry_of(proposal: ProposalView) -> RecordedView {
    RecordedView {
        account_id: proposal.account_id,
        public_key: proposal.public_key,
        stake: as_signed(proposal.amount) as i64,
    }
}

/// The entries after a stake declaration: it replaces the account's entry,
/// key and stake, or is added at the end.
pub open spec fn recorded(entries: Seq<RecordedView>, proposal: ProposalView) -> Seq<
    RecordedView,
> {
    if has_account(entries, proposal.account_id) {
        entries.update(position(entries, proposal.account_id), entry_of(proposal))
    } else {
        entries.push(entry_of(proposal))
    }
}

/// The entries after a list of stake declarations, taken in order.
pub open spec fn all_recorded(entries: Seq<RecordedView>, proposals: Seq<ProposalView>) -> Seq<
    RecordedView,
>
    decreases proposals.len(),
{
    if proposals.len() == 0 {
        entries
    } else {
        recorded(all_recorded(entries, proposals.drop_last()), proposals.last())
    }
}

/// The account's stake less one threshold is a signed 64-bit number.
pub open spec fn penalty_fits(entries: Seq<RecordedView>, seat: SeatView, threshold: u64) -> bool {
    i64::MIN <= stake_of(entries, seat.account_id) - as_signed(threshold) <= i64::MAX
}

/// The entries after the occupant of a seat missed its block: one
/// threshold, read as a signed number, is taken from the stake of its
/// account. An account without an entry gets one, with the occupant's key
/// and no stake, before that.
pub open spec fn penalized(entries: Seq<RecordedView>, seat: SeatView, threshold: u64) -> Seq<
    RecordedView,
> {
    if has_account(entries, seat.account_id) {
        let j = position(entries, seat.account_id);
        entries.update(
            j,
            RecordedView {
                account_id: entries[j].account_id,
                public_key: entries[j].public_key,
                stake: (entries[j].stake - as_signed(threshold)) as i64,
            },
        )
    } else {
        entries.push(
            RecordedView {
                account_id: seat.account_id,
                public_key: seat.public_key,
                stake: (0 - as_signed(threshold)) as i64,
            },
        )
    }
}

/// The entries after the first `k` seats of a committee were held to the
/// participation mask: each seat whose bit is false is penalized, in seat
/// order.
pub open spec fn absences_penalized(
    entries: Seq<RecordedView>,
    committee: Seq<SeatView>,
    mask: Seq<bool>,
    threshold: u64,
    k: int,
) -> Seq<RecordedView>
    decreases k,
{
    if k <= 0 {
        entries
    } else {
        let before = absences_penalized(entries, committee, mask, threshold, k - 1);
        if mask[k - 1] {
            before
        } else {
            penalized(before, committee[k - 1], threshold)
        }
    }
}

/// Every penalty among the first `k` seats fits when its turn comes.
pub open spec fn penalties_fit(
    entries: Seq<RecordedView>,
    committee: Seq<SeatView>,
    mask: Seq<bool>,
    threshold: u64,
    k: int,
) -> bool
    decreases k,
{
    if k <= 0 {
        true
    } else {
        &&& penalties_fit(entries, committee, mask, threshold, k - 1)
        &&& mask[k - 1] || penalty_fits(
            absences_penalized(entries, committee, mask, threshold, k - 1),
            committee[k - 1],
            threshold,
        )
    }
}

/// The stake declarations that stand at the end of the epoch: every entry
/// with a positive stake, in ledger order, its stake as the amount.
pub open spec fn restaked(entries: Seq<RecordedView>) -> Seq<ProposalView>
    decreases entries.len(),
{
    if entries.len() == 0 {
        Seq::empty()
    } else {
        let before = restaked(entries.drop_last());
        let entry = entries.last();
        if entry.stake > 0 {
            before.push(
                ProposalView {
                    account_id: entry.account_id,
                    public_key: entry.public_key,
                    amount: entry.stake as u64,
                },
            )
        } else {
            before
        }
    }
}

/// An accepted proposal survives the epoch if its account has no stake on
/// record, or has lost less than the proposal's amount.
pub open spec fn survives(entries: Seq<RecordedView>, proposal: ProposalView) -> bool {
    let stake = stake_of(entries, proposal.account_id);
    stake == 0 || (stake < 0 && proposal.amount > -stake)
}

/// The accepted proposals that survive the epoch, in their order and with
/// their amounts.
pub open spec fn carried_over(entries: Seq<RecordedView>, accepted: Seq<ProposalView>) -> Seq<
    ProposalView,
>
    decreases accepted.len(),
{
    if accepted.len() == 0 {
        Seq::empty()
    } else {
        let before = carried_over(entries, accepted.drop_last());
        if survives(entries, accepted.last()) {
            before.push(accepted.last())
        } else {
            before
        }
    }
}

/// The proposals that the next committees are drawn from: the positive
/// stakes of the ledger, then the accepted proposals that survive.
pub open spec fn next_proposals(entries: Seq<RecordedView>, accepted: Seq<ProposalView>) -> Seq<
    ProposalView,
> {
    restaked(entries) + carried_over(entries, accepted)
}

/// In a ledger without double entries, an entry found for an account is
/// the account's entry.
pub proof fn lemma_position_found(entries: Seq<RecordedView>, id: Seq<char>, j: int)
    requires
        distinct_accounts(entries),
        0 <= j < entries.len(),
        entries[j].account_id == id,
    ensures
        has_account(entries, id),
        position(entries, id) == j,
{
}

/// Recording a stake declaration leaves no account with two entries.
pub proof fn lemma_recorded_distinct(entries: Seq<RecordedView>, proposal: ProposalView)
    requires
        distinct_accounts(entries),
    ensures
        distinct_accounts(recorded(entries, proposal)),
{
    let after = recorded(entries, proposal);
    if has_account(entries, proposal.account_id) {
        let p = position(entries, proposal.account_id);
        assert forall|i: int, j: int| 0 <= i < j < after.len() implies after[i].account_id
            != after[j].account_id by {
            assert(after[i].account_id == entries[i].account_id);
            assert(after[j].account_id == entries[j].account_id);
        }
    } else {
        assert forall|i: int, j: int| 0 <= i < j < after.len() implies after[i].account_id
            != after[j].account_id by {
            if j == entries.len() {
                assert(entries[i].account_id != proposal.account_id);
            }
        }
    }
}

/// A penalty leaves no account with two entries.
pub proof fn lemma_penalized_distinct(entries: Seq<RecordedView>, seat: SeatView, threshold: u64)
    requires
        distinct_accounts(entries),
    ensures
        distinct_accounts(penalized(entries, seat, threshold)),
{
    let after = penalized(entries, seat, threshold);
    if has_account(entries, seat.account_id) {
        assert forall|i: int, j: int| 0 <= i < j < after.len() implies after[i].account_id
            != after[j].account_id by {
            assert(after[i].account_id == entries[i].account_id);
            assert(after[j].account_id == entries[j].account_id);
        }
    } else {
        assert forall|i: int, j: int| 0 <= i < j < after.len() implies after[i].account_id
            != after[j].account_id by {
            if j == entries.len() {
                assert(entries[i].account_id != seat.account_id);
            }
        }
    }
}

/// The ledger of one epoch.
pub struct ProposalLedger {
    entries: Vec<RecordedProposal>,
}

impl View for ProposalLedger {
    type V = Seq<RecordedView>;

    closed spec fn view(&self) -> Seq<RecordedView> {
        self.entries@.map_values(|e: RecordedProposal| e@)
    }
}

impl ProposalLedger {
    /// No account has two entries.
    pub open spec fn wf(&self) -> bool {
        distinct_accounts(self@)
    }

    /// A ledger without entries.
    pub fn new() -> (ledger: Self)
        ensures
            ledger@ == Seq::<RecordedView>::empty(),
            ledger.wf(),
    {
        let ledger = ProposalLedger { entries: Vec::new() };
        assert(ledger@ =~= Seq::<RecordedView>::empty());
        ledger
    }

    /// The number of entries.
    pub fn len(&self) -> (n: usize)
        ensures
            n == self@.len(),
    {
        self.entries.len()
    }

    /// The entry at position `i`, in order of first appearance.
    pub fn entry(&self, i: usize) -> (entry: &RecordedProposal)
        requires
            i < self@.len(),
        ensures
            entry@ == self@[i as int],
    {
        &self.entries[i]
    }

    /// A copy of the ledger.
    pub fn duplicate(&self) -> (copy: Self)
        ensures
            copy@ == self@,
    {
        let mut entries: Vec<RecordedProposal> = Vec::new();
        let mut i: usize = 0;
        while i < self.entries.len()
            invariant
                0 <= i <= self.entries.len(),
                entries@ == self.entries@.take(i as int),
            decreases self.entries.len() - i,
        {
            entries.push(self.entries[i].clone());
            proof {
                assert(self.entries@.take(i + 1) =~= self.entries@.take(i as int).push(
                    self.entries@[i as int],
                ));
            }
            i = i + 1;
        }
        proof {
            assert(self.entries@.take(i as int) =~= self.entries@);
        }
        ProposalLedger { entries }
    }

    /// Where the account's entry stands, if it has one.
    pub fn find(&self, account_id: &AccountId) -> (found: Option<usize>)
        requires
            self.wf(),
        ensures
            found is Some <==> has_account(self@, account_id@),
            found matches Some(j) ==> j == position(self@, account_id@) && j < self@.len(),
    {
        let mut j: usize = 0;
        while j < self.entries.len()
            invariant
                0 <= j <= self.entries.len(),
                self.wf(),
                forall|i: int| 0 <= i < j ==> self@[i].account_id != account_id@,
            decreases self.entries.len() - j,
        {
            if self.entries[j].account_id == *account_id {
                proof {
                    lemma_position_found(self@, account_id@, j as int);
                }
                return Some(j);
            }
            j = j + 1;
        }
        None
    }

    /// The stake on record for the account; an account without an entry
    /// has none.
    pub fn stake_of(&self, account_id: &AccountId) -> (stake: i64)
        requires
            self.wf(),
        ensures
            stake == stake_of(self@, account_id@),
    {
        match self.find(account_id) {
            Some(j) => self.entries[j].stake,
            None => 0,
        }
    }

    /// Records a stake declaration: it replaces what the account had on
    /// record, key and stake.
    pub fn record(&mut self, proposal: &AuthorityProposal)
        requires
            old(self).wf(),
        ensures
            final(self).wf(),
            final(self)@ == recorded(old(self)@, proposal@),
    {
        let entry = RecordedProposal {
            account_id: proposal.account_id.clone(),
            public_key: proposal.public_key,
            stake: to_signed(proposal.amount),
        };
        proof {
            lemma_recorded_distinct(self@, proposal@);
        }
        match self.find(&proposal.account_id) {
            Some(j) => {
                self.entries.set(j, entry);
            },
            None => {
                self.entries.push(entry);
            },
        }
        assert(self@ =~= recorded(old(self)@, proposal@));
    }

    /// Records a list of stake declarations, in order.
    pub fn record_all(&mut self, proposals: &Vec<AuthorityProposal>)
        requires
            old(self).wf(),
        ensures
            final(self).wf(),
            final(self)@ == all_recorded(old(self)@, proposal_views(proposals@)),
    {
        let mut i: usize = 0;
        while i < proposals.len()
            invariant
                0 <= i <= proposals.len(),
                self.wf(),
                self@ == all_recorded(old(self)@, proposal_views(proposals@).take(i as int)),
            decreases proposals.len() - i,
        {
            proof {
                let views = proposal_views(proposals@);
                assert(views.take(i + 1).drop_last() =~= views.take(i as int));
                assert(views.take(i + 1).last() == proposals@[i as int]@);
            }
            self.record(&proposals[i]);
            i = i + 1;
        }
        proof {
            let views = proposal_views(proposals@);
            assert(views.take(i as int) =~= views);
        }
    }

    /// Penalizes the occupant of a seat for a missed block, if the
    /// resulting stake fits; says whether it did.
    pub fn penalize(&mut self, authority: &SelectedAuthority, threshold: u64) -> (fits: bool)
        requires
            old(self).wf(),
        ensures
            final(self).wf(),
            fits == penalty_fits(old(self)@, authority@, threshold),
            fits ==> final(self)@ == penalized(old(self)@, authority@, threshold),
            !fits ==> final(self)@ == old(self)@,
    {
        let penalty = to_signed(threshold);
        proof {
            lemma_penalized_distinct(self@, authority@, threshold);
        }
        match self.find(&authority.account_id) {
            Some(j) => {
                match self.entries[j].stake.checked_sub(penalty) {
                    Some(stake) => {
                        let entry = RecordedProposal {
                            account_id: self.entries[j].account_id.clone(),
                            public_key: self.entries[j].public_key,
                            stake,
                        };
                        self.entries.set(j, entry);
                        assert(self@ =~= penalized(old(self)@, authority@, threshold));
                        true
                    },
                    None => false,
                }
            },
            None => {
                match 0i64.checked_sub(penalty) {
                    Some(stake) => {
                        self.entries.push(
                            RecordedProposal {
                                account_id: authority.account_id.clone(),
                                public_key: authority.public_key,
                                stake,
                            },
                        );
                        assert(self@ =~= penalized(old(self)@, authority@, threshold));
                        true
                    },
                    None => false,
                }
            },
        }
    }

    /// Holds a committee to the participation mask of its block: every
    /// seat whose bit is false is penalized, in seat order. Stops at the
    /// first penalty that does not fit and says whether all did.
    pub fn penalize_absent(
        &mut self,
        committee: &Vec<SelectedAuthority>,
        mask: &Vec<bool>,
        threshold: u64,
    ) -> (fits: bool)
        requires
            old(self).wf(),
            mask.len() == committee.len(),
        ensures
            final(self).wf(),
            fits == penalties_fit(
                old(self)@,
                seat_views(committee@),
                mask@,
                threshold,
                mask.len() as int,
            ),
            fits ==> final(self)@ == absences_penalized(
                old(self)@,
                seat_views(committee@),
                mask@,
                threshold,
                mask.len() as int,
            ),
    {
        let mut i: usize = 0;
        while i < mask.len()
            invariant
                0 <= i <= mask.len(),
                mask.len() == committee.len(),
                self.wf(),
                penalties_fit(old(self)@, seat_views(committee@), mask@, threshold, i as int),
                self@ == absences_penalized(
                    old(self)@,
                    seat_views(committee@),
                    mask@,
                    threshold,
                    i as int,
                ),
            decreases mask.len() - i,
        {
            if !mask[i] {
                if !self.penalize(&committee[i], threshold) {
                    proof {
                        if penalties_fit(
                            old(self)@,
                            seat_views(committee@),
                            mask@,
                            threshold,
                            mask.len() as int,
                        ) {
                            lemma_penalties_fit_prefix(
                                old(self)@,
                                seat_views(committee@),
                                mask@,
                                threshold,
                                i + 1,
                                mask.len() as int,
                            );
                        }
                    }
                    return false;
                }
            }
            i = i + 1;
        }
        true
    }

    /// The proposals that the next committees are drawn from: the positive
    /// stakes of the ledger, in ledger order, then the accepted proposals
    /// that survive, in their order.
    pub fn next_proposals(&self, accepted: &Vec<AuthorityProposal>) -> (proposals: Vec<
        AuthorityProposal,
    >)
        requires
            self.wf(),
        ensures
            proposal_views(proposals@) == next_proposals(self@, proposal_views(accepted@)),
    {
        let mut proposals: Vec<AuthorityProposal> = Vec::new();
        let mut i: usize = 0;
        while i < self.entries.len()
            invariant
                0 <= i <= self.entries.len(),
                proposal_views(proposals@) == restaked(self@.take(i as int)),
            decreases self.entries.len() - i,
        {
            proof {
                assert(self@.take(i + 1).drop_last() =~= self@.take(i as int));
            }
            let ghost before = proposals@;
            if self.entries[i].stake > 0 {
                proposals.push(
                    AuthorityProposal {
                        account_id: self.entries[i].account_id.clone(),
                        public_key: self.entries[i].public_key,
                        amount: self.entries[i].stake as u64,
                    },
                );
                assert(proposal_views(proposals@) =~= proposal_views(before).push(
                    proposals@.last()@,
                ));
            }
            i = i + 1;
        }
        proof {
            assert(self@.take(i as int) =~= self@);
        }
        let mut k: usize = 0;
        while k < accepted.len()
            invariant
                0 <= k <= accepted.len(),
                self.wf(),
                proposal_views(proposals@) == restaked(self@) + carried_over(
                    self@,
                    proposal_views(accepted@).take(k as int),
                ),
            decreases accepted.len() - k,
        {
            proof {
                let views = proposal_views(accepted@);
                assert(views.take(k + 1).drop_last() =~= views.take(k as int));
                assert(views.take(k + 1).last() == accepted@[k as int]@);
            }
            let ghost before = proposals@;
            let stake = self.stake_of(&accepted[k].account_id);
            let survives = stake == 0 || (stake < 0 && lost_less(stake, accepted[k].amount));
            if survives {
                proposals.push(accepted[k].clone());
                assert(proposal_views(proposals@) =~= proposal_views(before).push(
                    accepted@[k as int]@,
                ));
            }
            k = k + 1;
        }
        proof {
            let views = proposal_views(accepted@);
            assert(views.take(k as int) =~= views);
        }
        proposals
    }
}

/// Whether a negative stake is a loss smaller than `amount`.
fn lost_less(stake: i64, amount: u64) -> (less: bool)
    requires
        stake < 0,
    ensures
        less == (amount > -stake),
{
    if stake == i64::MIN {
        amount > 0x8000_0000_0000_0000u64
    } else {
        amount > ((-stake) as u64)
    }
}

/// If the penalties among the first `n` seats all fit, so do those among
/// the first `k`, for any `k` up to `n`.
pub proof fn lemma_penalties_fit_prefix(
    entries: Seq<RecordedView>,
    committee: Seq<SeatView>,
    mask: Seq<bool>,
    threshold: u64,
    k: int,
    n: int,
)
    requires
        k <= n,
        penalties_fit(entries, committee, mask, threshold, n),
    ensures
        penalties_fit(entries, committee, mask, threshold, k),
    decreases n - k,
{
    if k < n {
        lemma_penalties_fit_prefix(entries, committee, mask, threshold, k, n - 1);
    }
}

} // verus!
