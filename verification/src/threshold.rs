//! The seat threshold: the largest stake-per-seat at which a list of stake
//! amounts still covers a given number of seats.

use crate::decimal::{decimal_text, push_decimal};
use vstd::arithmetic::div_mod::{lemma_basic_div, lemma_div_is_ordered_by_denominator, lemma_div_pos_is_pos};
use vstd::prelude::*;
use vstd::string::*;

verus! {

/// The sum of the stake amounts.
pub open spec fn total_stake(amounts: Seq<u64>) -> int
    decreases amounts.len(),
{
    if amounts.len() == 0 {
        0
    } else {
        total_stake(amounts.drop_last()) + amounts.last()
    }
}

/// The seats that the amounts cover at `t` of stake per seat: the sum of
/// `amount / t`, each quotient rounded down.
pub open spec fn seats_covered(amounts: Seq<u64>, t: int) -> int
    decreases amounts.len(),
{
    if amounts.len() == 0 {
        0
    } else {
        seats_covered(amounts.drop_last(), t) + amounts.last() as int / t
    }
}

/// Some amount is smaller than the number of seats.
pub open spec fn has_low_stake(amounts: Seq<u64>, num_seats: u64) -> bool {
    exists|i: int| 0 <= i < amounts.len() && amounts[i] < num_seats
}

/// The position of the first amount that is smaller than the number of
/// seats, or the length of the list if there is none.
pub open spec fn first_low_stake(amounts: Seq<u64>, num_seats: u64) -> int
    decreases amounts.len(),
{
    if amounts.len() == 0 {
        0
    } else if amounts[0] < num_seats {
        0
    } else {
        1 + first_low_stake(amounts.skip(1), num_seats)
    }
}

/// The largest `t` in `2 ..= hi` at which the amounts cover `num_seats`
/// seats, or 1 if there is none.
pub open spec fn highest_covering(amounts: Seq<u64>, num_seats: u64, hi: int) -> int
    decreases hi,
{
    if hi <= 1 {
        1
    } else if seats_covered(amounts, hi) >= num_seats {
        hi
    } else {
        highest_covering(amounts, num_seats, hi - 1)
    }
}

/// The highest stake-per-seat that is tried: the sum of the amounts, or
/// the largest 64-bit value if the sum is larger still.
pub open spec fn search_limit(amounts: Seq<u64>) -> int {
    if total_stake(amounts) <= u64::MAX {
        total_stake(amounts)
    } else {
        u64::MAX as int
    }
}

/// The seat threshold of the amounts: the largest stake-per-seat, from 2
/// up to `search_limit`, at which they cover `num_seats` seats; 1 if there
/// is no such value.
pub open spec fn threshold(amounts: Seq<u64>, num_seats: u64) -> int {
    highest_covering(amounts, num_seats, search_limit(amounts))
}

/// The text that reports an amount smaller than the number of seats.
pub open spec fn low_stake_message(amount: u64, num_seats: u64) -> Seq<char> {
    "Proposed "@ + decimal_text(amount as nat) + " must be higher then number of seats "@
        + decimal_text(num_seats as nat)
}

/// A prefix of the amounts sums to no more than the whole list.
pub proof fn lemma_total_stake_prefix(amounts: Seq<u64>, k: int)
    requires
        0 <= k <= amounts.len(),
    ensures
        0 <= total_stake(amounts.take(k)) <= total_stake(amounts),
    decreases amounts.len() - k,
{
    if k == amounts.len() {
        assert(amounts.take(k) =~= amounts);
        lemma_total_stake_nonnegative(amounts);
    } else {
        lemma_total_stake_prefix(amounts, k + 1);
        assert(amounts.take(k + 1).drop_last() =~= amounts.take(k));
        lemma_total_stake_nonnegative(amounts.take(k));
    }
}

/// The sum of the amounts is not negative.
pub proof fn lemma_total_stake_nonnegative(amounts: Seq<u64>)
    ensures
        0 <= total_stake(amounts),
    decreases amounts.len(),
{
    if amounts.len() > 0 {
        lemma_total_stake_nonnegative(amounts.drop_last());
    }
}

/// No amount exceeds the sum of all of them.
pub proof fn lemma_amount_within_total(amounts: Seq<u64>, i: int)
    requires
        0 <= i < amounts.len(),
    ensures
        amounts[i] <= total_stake(amounts),
    decreases amounts.len(),
{
    lemma_total_stake_nonnegative(amounts.drop_last());
    if i < amounts.len() - 1 {
        lemma_amount_within_total(amounts.drop_last(), i);
    }
}

/// At a positive stake-per-seat the amounts cover no more seats than
/// their sum, and never a negative number.
pub proof fn lemma_seats_covered_bounds(amounts: Seq<u64>, t: int)
    requires
        1 <= t,
    ensures
        0 <= seats_covered(amounts, t) <= total_stake(amounts),
    decreases amounts.len(),
{
    if amounts.len() > 0 {
        lemma_seats_covered_bounds(amounts.drop_last(), t);
        let a = amounts.last() as int;
        lemma_div_pos_is_pos(a, t);
        lemma_div_is_ordered_by_denominator(a, 1, t);
    }
}

/// A prefix of the amounts covers no more seats than the whole list.
pub proof fn lemma_seats_covered_prefix(amounts: Seq<u64>, k: int, t: int)
    requires
        0 <= k <= amounts.len(),
        1 <= t,
    ensures
        seats_covered(amounts.take(k), t) <= seats_covered(amounts, t),
    decreases amounts.len() - k,
{
    if k == amounts.len() {
        assert(amounts.take(k) =~= amounts);
    } else {
        lemma_seats_covered_prefix(amounts, k + 1, t);
        assert(amounts.take(k + 1).drop_last() =~= amounts.take(k));
        lemma_div_pos_is_pos(amounts[k] as int, t);
    }
}

/// A higher stake-per-seat covers no more seats.
pub proof fn lemma_seats_covered_antitone(amounts: Seq<u64>, t: int, u: int)
    requires
        1 <= t <= u,
    ensures
        seats_covered(amounts, u) <= seats_covered(amounts, t),
    decreases amounts.len(),
{
    if amounts.len() > 0 {
        lemma_seats_covered_antitone(amounts.drop_last(), t, u);
        lemma_div_is_ordered_by_denominator(amounts.last() as int, t, u);
    }
}

/// Above every single amount no seat is covered.
pub proof fn lemma_seats_covered_above_all(amounts: Seq<u64>, t: int)
    requires
        forall|i: int| 0 <= i < amounts.len() ==> amounts[i] < t,
    ensures
        seats_covered(amounts, t) == 0,
    decreases amounts.len(),
{
    if amounts.len() > 0 {
        assert forall|i: int| 0 <= i < amounts.drop_last().len() implies amounts.drop_last()[i]
            < t by {
            assert(amounts.drop_last()[i] == amounts[i]);
        }
        lemma_seats_covered_above_all(amounts.drop_last(), t);
        lemma_basic_div(amounts.last() as int, t);
    }
}

/// The threshold is maximal: where there is an amount, a seat to fill and
/// no amount below the number of seats, the amounts cover the seats at
/// the threshold and no longer cover them one above it.
pub proof fn lemma_threshold_maximal(amounts: Seq<u64>, num_seats: u64)
    requires
        amounts.len() > 0,
        num_seats >= 1,
        !has_low_stake(amounts, num_seats),
    ensures
        threshold(amounts, num_seats) >= 1,
        seats_covered(amounts, threshold(amounts, num_seats)) >= num_seats,
        seats_covered(amounts, threshold(amounts, num_seats) + 1) < num_seats,
{
    let limit = search_limit(amounts);
    let t = threshold(amounts, num_seats);
    lemma_highest_covering(amounts, num_seats, limit);
    lemma_amount_within_total(amounts, 0);
    if t == 1 {
        lemma_seats_covered_at_one(amounts);
    }
    if t + 1 > limit {
        assert forall|i: int| 0 <= i < amounts.len() implies amounts[i] < t + 1 by {
            lemma_amount_within_total(amounts, i);
        }
        lemma_seats_covered_above_all(amounts, t + 1);
    }
}

/// The threshold is the only stake-per-seat at which the amounts cover
/// the seats while they no longer cover them one above it.
pub proof fn lemma_threshold_unique(amounts: Seq<u64>, num_seats: u64, t: int)
    requires
        num_seats >= 1,
        1 <= t,
        seats_covered(amounts, t) >= num_seats,
        seats_covered(amounts, t + 1) < num_seats,
    ensures
        threshold(amounts, num_seats) == t,
{
    let limit = search_limit(amounts);
    if t > limit {
        assert forall|i: int| 0 <= i < amounts.len() implies amounts[i] < t by {
            lemma_amount_within_total(amounts, i);
        }
        lemma_seats_covered_above_all(amounts, t);
    }
    assert forall|u: int| t < u <= limit implies #[trigger] seats_covered(amounts, u)
        < num_seats by {
        lemma_seats_covered_antitone(amounts, t + 1, u);
    }
    lemma_highest_covering_unique(amounts, num_seats, limit, t);
}

/// At one of stake per seat the amounts cover as many seats as they sum to.
pub proof fn lemma_seats_covered_at_one(amounts: Seq<u64>)
    ensures
        seats_covered(amounts, 1) == total_stake(amounts),
    decreases amounts.len(),
{
    if amounts.len() > 0 {
        lemma_seats_covered_at_one(amounts.drop_last());
    }
}

/// What `highest_covering` returns: a value from 1 to `hi` that covers the
/// seats unless it is 1, above which nothing up to `hi` covers them.
pub proof fn lemma_highest_covering(amounts: Seq<u64>, num_seats: u64, hi: int)
    ensures
        1 <= highest_covering(amounts, num_seats, hi),
        hi >= 1 ==> highest_covering(amounts, num_seats, hi) <= hi,
        highest_covering(amounts, num_seats, hi) == 1 || seats_covered(
            amounts,
            highest_covering(amounts, num_seats, hi),
        ) >= num_seats,
        forall|u: int|
            highest_covering(amounts, num_seats, hi) < u <= hi ==> #[trigger] seats_covered(
                amounts,
                u,
            ) < num_seats,
    decreases hi,
{
    if hi > 1 && seats_covered(amounts, hi) < num_seats {
        lemma_highest_covering(amounts, num_seats, hi - 1);
    }
}

/// `highest_covering` is the only value with the properties that
/// `lemma_highest_covering` states.
pub proof fn lemma_highest_covering_unique(amounts: Seq<u64>, num_seats: u64, hi: int, t: int)
    requires
        1 <= t,
        t <= hi || t == 1,
        t == 1 || seats_covered(amounts, t) >= num_seats,
        forall|u: int| t < u <= hi ==> #[trigger] seats_covered(amounts, u) < num_seats,
    ensures
        highest_covering(amounts, num_seats, hi) == t,
    decreases hi,
{
    if hi > 1 && hi != t {
        if t > hi {
        } else {
            assert(seats_covered(amounts, hi) < num_seats);
            lemma_highest_covering_unique(amounts, num_seats, hi - 1, t);
        }
    }
}

/// Where the first low amount stands: every amount before it is at least
/// the number of seats, and it is within the list exactly if some amount
/// is low.
pub proof fn lemma_first_low_stake(amounts: Seq<u64>, num_seats: u64)
    ensures
        0 <= first_low_stake(amounts, num_seats) <= amounts.len(),
        forall|i: int|
            0 <= i < first_low_stake(amounts, num_seats) ==> amounts[i] >= num_seats,
        first_low_stake(amounts, num_seats) < amounts.len() ==> amounts[first_low_stake(
            amounts,
            num_seats,
        )] < num_seats,
        has_low_stake(amounts, num_seats) <==> first_low_stake(amounts, num_seats)
            < amounts.len(),
    decreases amounts.len(),
{
    if amounts.len() > 0 && amounts[0] >= num_seats {
        let rest = amounts.skip(1);
        lemma_first_low_stake(rest, num_seats);
        let f = first_low_stake(rest, num_seats);
        assert forall|i: int| 0 <= i < 1 + f implies amounts[i] >= num_seats by {
            if i > 0 {
                assert(amounts[i] == rest[i - 1]);
            }
        }
        if f < rest.len() {
            assert(amounts[1 + f] == rest[f]);
        }
        if has_low_stake(amounts, num_seats) {
            let i = choose|i: int| 0 <= i < amounts.len() && amounts[i] < num_seats;
            assert(rest[i - 1] == amounts[i]);
            assert(has_low_stake(rest, num_seats));
        }
    }
}

/// Builds the text that reports an amount smaller than the number of seats.
fn low_stake_text(amount: u64, num_seats: u64) -> (msg: String)
    ensures
        msg@ == low_stake_message(amount, num_seats),
{
    let mut msg = String::from_str("Proposed ");
    push_decimal(&mut msg, amount as u128);
    msg.append(" must be higher then number of seats ");
    push_decimal(&mut msg, num_seats as u128);
    msg
}

/// Whether the amounts cover `num_seats` seats at `t` of stake per seat.
fn covers(proposed: &[u64], num_seats: u64, t: u64) -> (ok: bool)
    requires
        1 <= t,
    ensures
        ok <==> seats_covered(proposed@, t as int) >= num_seats,
{
    if num_seats == 0 {
        proof {
            lemma_seats_covered_bounds(proposed@, t as int);
        }
        return true;
    }
    let mut current_sum: u64 = 0;
    let mut i: usize = 0;
    while i < proposed.len()
        invariant
            0 <= i <= proposed.len(),
            1 <= t,
            current_sum == seats_covered(proposed@.take(i as int), t as int),
            current_sum < num_seats,
        decreases proposed.len() - i,
    {
        proof {
            assert(proposed@.take(i + 1).drop_last() =~= proposed@.take(i as int));
            lemma_seats_covered_prefix(proposed@, i + 1, t as int);
        }
        match current_sum.checked_add(proposed[i] / t) {
            Some(next) => {
                current_sum = next;
            },
            None => {
                return true;
            },
        }
        if current_sum >= num_seats {
            return true;
        }
        i = i + 1;
    }
    proof {
        assert(proposed@.take(i as int) =~= proposed@);
    }
    false
}

/// The sum of the amounts, or `None` if it does not fit in 64 bits.
pub fn checked_total_stake(proposed: &[u64]) -> (total: Option<u64>)
    ensures
        match total {
            Some(sum) => sum == total_stake(proposed@),
            None => total_stake(proposed@) > u64::MAX,
        },
{
    let mut sum: u64 = 0;
    let mut i: usize = 0;
    while i < proposed.len()
        invariant
            0 <= i <= proposed.len(),
            sum == total_stake(proposed@.take(i as int)),
        decreases proposed.len() - i,
    {
        proof {
            assert(proposed@.take(i + 1).drop_last() =~= proposed@.take(i as int));
            lemma_total_stake_prefix(proposed@, i + 1);
        }
        match sum.checked_add(proposed[i]) {
            Some(next) => {
                sum = next;
            },
            None => {
                return None;
            },
        }
        i = i + 1;
    }
    proof {
        assert(proposed@.take(i as int) =~= proposed@);
    }
    Some(sum)
}

/// Finds the seat threshold of the proposed amounts.
///
/// Fails, naming the first offending amount, if any amount is smaller than
/// the number of seats. Otherwise the result is the largest stake-per-seat
/// from 2 up to the sum of the amounts at which they cover `num_seats`
/// seats, or 1 if there is no such value.
pub fn find_threshold(proposed: &[u64], num_seats: u64) -> (result: Result<u64, String>)
    ensures
        result is Err <==> has_low_stake(proposed@, num_seats),
        result matches Ok(t) ==> t == threshold(proposed@, num_seats),
        result matches Err(msg) ==> msg@ == low_stake_message(
            proposed@[first_low_stake(proposed@, num_seats)],
            num_seats,
        ),
{
    let limit = match checked_total_stake(proposed) {
        Some(sum) => sum,
        None => u64::MAX,
    };
    let mut k: usize = 0;
    while k < proposed.len()
        invariant
            0 <= k <= proposed.len(),
            forall|i: int| 0 <= i < k ==> proposed@[i] >= num_seats,
        decreases proposed.len() - k,
    {
        if proposed[k] < num_seats {
            proof {
                assert(has_low_stake(proposed@, num_seats));
                lemma_first_low_stake(proposed@, num_seats);
            }
            return Err(low_stake_text(proposed[k], num_seats));
        }
        k = k + 1;
    }
    if limit < 2 {
        return Ok(1);
    }
    let mut left: u64 = 2;
    let mut right: u64 = limit;
    let mut best: u64 = 1;
    while left <= right
        invariant
            2 <= left <= right + 1,
            right <= limit,
            limit == search_limit(proposed@),
            !has_low_stake(proposed@, num_seats),
            best == left - 1,
            best == 1 || seats_covered(proposed@, best as int) >= num_seats,
            forall|u: int| right < u <= limit ==> #[trigger] seats_covered(proposed@, u) < num_seats,
        decreases right + 1 - left,
    {
        let mid = left + (right - left) / 2;
        if covers(proposed, num_seats, mid) {
            if mid == right {
                proof {
                    lemma_highest_covering_unique(proposed@, num_seats, limit as int, mid as int);
                }
                return Ok(mid);
            }
            best = mid;
            left = mid + 1;
        } else {
            proof {
                assert forall|u: int| mid - 1 < u <= limit implies #[trigger] seats_covered(
                    proposed@,
                    u,
                ) < num_seats by {
                    lemma_seats_covered_antitone(proposed@, mid as int, u);
                }
            }
            right = mid - 1;
        }
    }
    proof {
        lemma_highest_covering_unique(proposed@, num_seats, limit as int, best as int);
    }
    Ok(best)
}

} // verus!
