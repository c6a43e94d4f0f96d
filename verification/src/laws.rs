//! Properties of the contract that span its operations.

use vstd::prelude::*;
use crate::model::{ContractView, fees_charged_before, plan_admissible};
use crate::fees::{spec_billed_cycles, spec_charge_period, spec_incurred_cost, spec_next_payment_due};
use crate::types::{ContractError, PlanView, SubscriptionState, SubscriptionView};

verus! {

/// A subscription that was never charged owes exactly one payment cycle at
/// the moment of its activation: its first cycle is paid upfront.
pub proof fn law_first_cycle_upfront(sub: SubscriptionView, plan: PlanView)
    requires
        plan.payment_cycle_length > 0,
        sub.state matches SubscriptionState::Active { ts } && ts >= plan.payment_cycle_length,
        sub.prev_charge_ts == 0,
        sub.payments_charged == 0,
    ensures
        spec_billed_cycles(sub, plan, sub.state->Active_ts) == Ok::<u64, ContractError>(1),
        spec_incurred_cost(sub, plan, sub.state->Active_ts) == Ok::<u128, ContractError>(plan.payment_cycle_rate),
{
    let ts = sub.state->Active_ts;
    let len = plan.payment_cycle_length as int;
    assert((ts - (ts - len)) / len == 1) by (nonlinear_arith)
        requires len > 0;
    assert(spec_charge_period(sub, plan, ts) == Ok::<(int, int), ContractError>((ts - len, ts as int)));
}

/// A canceled subscription is charged up to its cancelation, whatever the end
/// of the charge period.
pub proof fn law_canceled_cost_fixed(sub: SubscriptionView, plan: PlanView, end1: u64, end2: u64)
    requires
        sub.state is Canceled,
    ensures
        spec_incurred_cost(sub, plan, end1) == spec_incurred_cost(sub, plan, end2),
{
}

/// An invalid subscription incurs nothing.
pub proof fn law_invalid_costs_nothing(sub: SubscriptionView, plan: PlanView, end: u64)
    requires
        sub.state is Invalid,
    ensures
        spec_incurred_cost(sub, plan, end) == Ok::<u128, ContractError>(0),
{
}

/// What a subscription has incurred does not decrease as the end of the
/// charge period moves later.
pub proof fn law_cost_monotone(sub: SubscriptionView, plan: PlanView, end1: u64, end2: u64)
    requires
        plan.payment_cycle_length > 0,
        end1 <= end2,
        spec_incurred_cost(sub, plan, end1) is Ok,
        spec_incurred_cost(sub, plan, end2) is Ok,
    ensures
        spec_incurred_cost(sub, plan, end1).unwrap() <= spec_incurred_cost(sub, plan, end2).unwrap(),
{
    let len = plan.payment_cycle_length as int;
    let rate = plan.payment_cycle_rate as int;
    match sub.state {
        SubscriptionState::Active { ts } => {
            let upfront = ts - plan.payment_cycle_length;
            let start = if sub.prev_charge_ts >= upfront { sub.prev_charge_ts as int } else { upfront };
            let a = end1 - start;
            let b = end2 - start;
            assert(a / len <= b / len) by (nonlinear_arith)
                requires 0 <= a <= b, len > 0;
            let k1 = spec_billed_cycles(sub, plan, end1).unwrap() as int;
            let k2 = spec_billed_cycles(sub, plan, end2).unwrap() as int;
            assert(k1 <= k2);
            assert(k1 * rate <= k2 * rate) by (nonlinear_arith)
                requires 0 <= k1 <= k2, rate >= 0;
        },
        _ => {},
    }
}

/// The fees of the entries charged no later than another are never negative.
proof fn lemma_fees_charged_before_nonneg(entries: Seq<(u64, u128)>, t: int, n: int)
    ensures
        fees_charged_before(entries, t, n) >= 0,
    decreases n,
{
    if n > 0 {
        lemma_fees_charged_before_nonneg(entries, t, n - 1);
    }
}

/// The fund available to a subscription never exceeds what it has incurred,
/// nor the deposit of its subscriber.
pub proof fn law_available_fund_bounded(c: ContractView, id: Seq<char>, now: u64)
    requires
        c.valid(),
        c.available_fund(id, now) is Ok,
    ensures
        c.available_fund(id, now).unwrap().0 <= c.available_fund(id, now).unwrap().1,
        c.available_fund(id, now).unwrap().0 <= c.deposits[c.subscriptions[id].subscriber_id],
{
    let sub = c.subscriptions[id];
    let ids = c.subscriber_subscriptions[sub.subscriber_id];
    let entries = c.fund_entries(ids, now).unwrap();
    let t = ids.index_of(id);
    lemma_fees_charged_before_nonneg(entries, t, entries.len() as int);
}

/// A new subscription owes its first payment at once: right after `caller`
/// subscribes to a plan at `now`, the subscription has incurred the plan's rate.
pub proof fn law_new_subscription_owes_first_payment(c: ContractView, plan_id: Seq<char>, caller: Seq<char>, now: u64)
    requires
        c.valid(),
        c.subscribed(plan_id, caller, now) is Ok,
        now >= c.plans[plan_id].payment_cycle_length,
    ensures
        c.subscribed(plan_id, caller, now).unwrap().0.subscription_cost(
            c.subscribed(plan_id, caller, now).unwrap().1,
            None,
            now,
        ) == Ok::<u128, ContractError>(c.plans[plan_id].payment_cycle_rate),
{
    let (c2, id) = c.subscribed(plan_id, caller, now).unwrap();
    let sub = c2.subscriptions[id];
    assert(c.plans.contains_key(plan_id));
    law_first_cycle_upfront(sub, c.plans[plan_id]);
}

/// Canceling an active subscription leaves what it owes at the time of the
/// cancelation unchanged, so that the current cycle stays charged. (This
/// holds where the subscription was never charged, or last charged no earlier
/// than one cycle before its activation.)
pub proof fn law_cancel_keeps_what_is_owed(c: ContractView, id: Seq<char>, caller: Seq<char>, now: u64)
    requires
        c.valid(),
        c.cancel(id, caller, now) is Ok,
        c.subscriptions[id].state->Active_ts >= c.plans[c.subscriptions[id].plan_id].payment_cycle_length,
        c.subscriptions[id].prev_charge_ts == 0 || c.subscriptions[id].prev_charge_ts
            >= c.subscriptions[id].state->Active_ts - c.plans[c.subscriptions[id].plan_id].payment_cycle_length,
    ensures
        c.cancel(id, caller, now).unwrap().subscription_cost(id, None, now) == c.subscription_cost(id, None, now),
{
}

/// Collecting from one subscription moves exactly the charged amount from its
/// subscriber's deposit to the collected total, and touches no other deposit.
pub proof fn law_collect_step_conserves(c: ContractView, id: Seq<char>, total: u128, caller: Seq<char>, now: u64)
    requires
        c.valid(),
        c.subscriptions.contains_key(id),
        c.collect_step(id, total, caller, now) is Ok,
    ensures
        ({
            let (c2, _amount, new_total) = c.collect_step(id, total, caller, now).unwrap();
            let account = c.subscriptions[id].subscriber_id;
            &&& new_total >= total
            &&& c.deposits[account] >= new_total - total
            &&& c2.deposits == c.deposits.insert(account, (c.deposits[account] - (new_total - total)) as u128)
        }),
{
    let sub = c.subscriptions[id];
    assert(c.subscription_linked(id));
    if !(sub.state is Invalid) {
        law_available_fund_bounded(c, id, now);
    } else {
        assert(c.deposits.insert(sub.subscriber_id, c.deposits[sub.subscriber_id]) =~= c.deposits);
    }
}

/// Collecting fees lists each subscription of the plan once, in order.
pub proof fn law_collect_lists_each_subscription(c: ContractView, ids: Seq<Seq<char>>, caller: Seq<char>, now: u64)
    requires
        c.collect_all(ids, caller, now) is Ok,
    ensures
        c.collect_all(ids, caller, now).unwrap().1.len() == ids.len(),
        forall|i: int| 0 <= i < ids.len() ==> #[trigger] c.collect_all(ids, caller, now).unwrap().1[i].0 == ids[i],
    decreases ids.len(),
{
    if ids.len() > 0 {
        law_collect_lists_each_subscription(c, ids.drop_last(), caller, now);
    }
}

/// A withdrawal pays out no more than the deposit, takes exactly what it pays,
/// and leaves the fees that the subscriptions have incurred covered where they were.
pub proof fn law_withdrawal_keeps_fees_covered(c: ContractView, amount: Option<u128>, caller: Seq<char>, now: u64)
    requires
        c.withdrawal(amount, caller, now) is Ok,
    ensures
        ({
            let (c2, paid) = c.withdrawal(amount, caller, now).unwrap();
            let fees = c.subscriber_fees(caller, now).unwrap();
            &&& paid <= c.deposits[caller]
            &&& c2.deposits[caller] == c.deposits[caller] - paid
            &&& c.deposits[caller] >= fees ==> c2.deposits[caller] >= fees
        }),
{
}

/// An account without subscriptions can withdraw its whole deposit.
pub proof fn law_deposit_unlocked_without_subscriptions(c: ContractView, account: Seq<char>, now: u64)
    requires
        c.deposits.contains_key(account),
        !c.subscriber_subscriptions.contains_key(account),
    ensures
        c.unlocked_deposit(account, now) == Ok::<u128, ContractError>(c.deposits[account]),
{
}

/// The sum of the deposits of `accounts`.
pub open spec fn deposits_sum(deposits: Map<Seq<char>, u128>, accounts: Seq<Seq<char>>) -> int
    decreases accounts.len(),
{
    if accounts.len() == 0 {
        0
    } else {
        deposits_sum(deposits, accounts.drop_last()) + deposits[accounts.last()]
    }
}

/// Setting one deposit changes the sum of the deposits of a list that holds
/// its account once by the change of that deposit.
proof fn lemma_deposits_sum_insert(deposits: Map<Seq<char>, u128>, accounts: Seq<Seq<char>>, account: Seq<char>, amount: u128)
    requires
        accounts.no_duplicates(),
    ensures
        deposits_sum(deposits.insert(account, amount), accounts) == deposits_sum(deposits, accounts)
            + if accounts.contains(account) { amount - deposits[account] } else { 0 },
    decreases accounts.len(),
{
    if accounts.len() > 0 {
        let rest = accounts.drop_last();
        assert(rest.no_duplicates());
        lemma_deposits_sum_insert(deposits, rest, account, amount);
        if accounts.last() == account {
            assert(!rest.contains(account)) by {
                if rest.contains(account) {
                    let k = choose|k: int| 0 <= k < rest.len() && rest[k] == account;
                    assert(accounts[k] == accounts[accounts.len() - 1]);
                }
            }
        } else {
            assert(accounts.contains(account) == rest.contains(account)) by {
                if accounts.contains(account) {
                    let k = choose|k: int| 0 <= k < accounts.len() && accounts[k] == account;
                    assert(rest[k] == account);
                }
            }
        }
    }
}

/// What collecting fees pays to the provider is exactly what it takes out of
/// the deposits: over any list of the accounts that have a deposit, the sum of
/// their deposits falls by the total collected. The state keeps its invariant.
pub proof fn law_collect_conserves_deposits(c: ContractView, ids: Seq<Seq<char>>, caller: Seq<char>, now: u64, accounts: Seq<Seq<char>>)
    requires
        c.valid(),
        forall|i: int| 0 <= i < ids.len() ==> c.subscriptions.contains_key(#[trigger] ids[i]),
        accounts.no_duplicates(),
        forall|a: Seq<char>| #[trigger] c.deposits.contains_key(a) ==> accounts.contains(a),
        c.collect_all(ids, caller, now) is Ok,
    ensures
        ({
            let (c2, _listed, total) = c.collect_all(ids, caller, now).unwrap();
            &&& c2.valid()
            &&& c2.plans == c.plans
            &&& c2.subscriptions.dom() == c.subscriptions.dom()
            &&& c2.deposits.dom() == c.deposits.dom()
            &&& forall|a: Seq<char>| #[trigger] c.deposits.contains_key(a) ==> c2.deposits[a] <= c.deposits[a]
            &&& deposits_sum(c.deposits, accounts) - deposits_sum(c2.deposits, accounts) == total
        }),
    decreases ids.len(),
{
    if ids.len() > 0 {
        let rest = ids.drop_last();
        law_collect_conserves_deposits(c, rest, caller, now, accounts);
        let (c1, _l, total1) = c.collect_all(rest, caller, now).unwrap();
        let id = ids.last();
        assert(c.subscriptions.contains_key(ids[ids.len() - 1]));
        assert(c1.subscriptions.contains_key(id));
        c1.lemma_collect_step_valid(id, total1, caller, now);
        law_collect_step_conserves(c1, id, total1, caller, now);
        let (c2, _amount, total2) = c1.collect_step(id, total1, caller, now).unwrap();
        let account = c1.subscriptions[id].subscriber_id;
        assert(c1.subscription_linked(id));
        assert(c.deposits.contains_key(account));
        lemma_deposits_sum_insert(c1.deposits, accounts, account, (c1.deposits[account] - (total2 - total1)) as u128);
        assert forall|a: Seq<char>| #[trigger] c.deposits.contains_key(a) implies c2.deposits[a] <= c.deposits[a] by {
            assert(c1.deposits.contains_key(a));
        }
    } else {
        assert(c.collect_all(ids, caller, now).unwrap().0 =~= c);
    }
}

/// A collection of fees for a plan pays its provider exactly what it takes out
/// of the deposits, and keeps the state's invariant.
pub proof fn law_collect_fees_pays_what_it_takes(c: ContractView, plan_id: Seq<char>, charge_ts: Option<u64>, caller: Seq<char>, now: u64, accounts: Seq<Seq<char>>)
    requires
        c.valid(),
        accounts.no_duplicates(),
        forall|a: Seq<char>| #[trigger] c.deposits.contains_key(a) ==> accounts.contains(a),
        c.fees_collected(plan_id, charge_ts, caller, now) is Ok,
    ensures
        ({
            let (c2, _listed, total) = c.fees_collected(plan_id, charge_ts, caller, now).unwrap();
            &&& c2.valid()
            &&& forall|a: Seq<char>| #[trigger] c.deposits.contains_key(a) ==> c2.deposits[a] <= c.deposits[a]
            &&& deposits_sum(c.deposits, accounts) - deposits_sum(c2.deposits, accounts) == total
        }),
{
    let ids = c.plan_subscriptions[plan_id];
    assert(c.ids_known(ids));
    law_collect_conserves_deposits(c, ids, caller, now, accounts);
}

/// The sum of the amounts of a list of charges.
pub open spec fn charges_sum(listed: Seq<(Seq<char>, u128)>) -> int
    decreases listed.len(),
{
    if listed.len() == 0 {
        0
    } else {
        charges_sum(listed.drop_last()) + listed.last().1
    }
}

/// The amounts listed by a collection add up to the total paid to the provider.
pub proof fn law_collect_listed_sum(c: ContractView, ids: Seq<Seq<char>>, caller: Seq<char>, now: u64)
    requires
        c.collect_all(ids, caller, now) is Ok,
    ensures
        charges_sum(c.collect_all(ids, caller, now).unwrap().1) == c.collect_all(ids, caller, now).unwrap().2,
    decreases ids.len(),
{
    if ids.len() > 0 {
        law_collect_listed_sum(c, ids.drop_last(), caller, now);
        let (_c1, l1, _t1) = c.collect_all(ids.drop_last(), caller, now).unwrap();
        let (_c2, l2, _t2) = c.collect_all(ids, caller, now).unwrap();
        assert(l2.drop_last() =~= l1);
    }
}

/// What the subscription `id` may still be billed under a plan with a limited
/// number of payments: the rate of each payment that is left, and nothing once
/// the subscription is invalid.
pub open spec fn billing_left(c: ContractView, id: Seq<char>) -> int {
    let sub = c.subscriptions[id];
    let plan = c.plans[sub.plan_id];
    if sub.state is Invalid || plan.payment_cycle_count <= sub.payments_charged {
        0
    } else {
        (plan.payment_cycle_count - sub.payments_charged) * plan.payment_cycle_rate
    }
}

/// A collection step bills a subscription of a plan with a limited number of
/// payments no more than what is left of the plan for it, and what it bills
/// comes off what is left; a step for another subscription leaves it as it is.
pub proof fn law_collect_step_bills_within_plan(
    c: ContractView,
    x: Seq<char>,
    id: Seq<char>,
    total: u128,
    caller: Seq<char>,
    now: u64,
)
    requires
        c.valid(),
        c.subscriptions.contains_key(x),
        c.subscriptions.contains_key(id),
        c.collect_step(x, total, caller, now) is Ok,
        c.plans[c.subscriptions[id].plan_id].payment_cycle_count > 0,
    ensures
        ({
            let (c2, amount, _t) = c.collect_step(x, total, caller, now).unwrap();
            &&& c2.plans == c.plans
            &&& c2.subscriptions.contains_key(id)
            &&& c2.subscriptions[id].plan_id == c.subscriptions[id].plan_id
            &&& x == id ==> amount + billing_left(c2, id) <= billing_left(c, id)
            &&& x != id ==> c2.subscriptions[id] == c.subscriptions[id]
        }),
{
    let sub = c.subscriptions[id];
    let plan = c.plans[sub.plan_id];
    assert(c.subscription_linked(x));
    assert(c.subscription_linked(id));
    if x == id && !(sub.state is Invalid) {
        c.lemma_available_fund_fee(id, now);
        let (available, incurred) = c.available_fund(id, now).unwrap();
        let k = spec_billed_cycles(sub, plan, now).unwrap() as int;
        let rate = plan.payment_cycle_rate as int;
        let n = plan.payment_cycle_count as int;
        let pc = sub.payments_charged as int;
        assert(incurred == k * rate);
        assert(n <= pc ==> k == 0);
        assert(n > pc ==> k <= n - pc);
        if n > pc {
            assert(k * rate + (n - pc - k) * rate == (n - pc) * rate) by (nonlinear_arith);
            assert(k * rate <= (n - pc) * rate) by (nonlinear_arith)
                requires k <= n - pc, rate >= 0;
            assert((n - pc - k) * rate >= 0) by (nonlinear_arith)
                requires k <= n - pc, rate >= 0;
        } else {
            assert(k * rate == 0) by (nonlinear_arith) requires k == 0;
        }
    }
}

/// What the listing of a collection gives for the subscription `id`, summed.
pub open spec fn charged_to(listed: Seq<(Seq<char>, u128)>, id: Seq<char>) -> int
    decreases listed.len(),
{
    if listed.len() == 0 {
        0
    } else {
        charged_to(listed.drop_last(), id) + if listed.last().0 == id {
            listed.last().1 as int
        } else {
            0
        }
    }
}

/// Collecting from the subscriptions `ids` bills the subscription `id` no
/// more than what is left of its plan for it, and keeps the invariant.
proof fn lemma_collect_all_bills(c: ContractView, ids: Seq<Seq<char>>, id: Seq<char>, caller: Seq<char>, now: u64)
    requires
        c.valid(),
        forall|i: int| 0 <= i < ids.len() ==> c.subscriptions.contains_key(#[trigger] ids[i]),
        c.subscriptions.contains_key(id),
        c.plans[c.subscriptions[id].plan_id].payment_cycle_count > 0,
        c.collect_all(ids, caller, now) is Ok,
    ensures
        ({
            let (c2, listed, _t) = c.collect_all(ids, caller, now).unwrap();
            &&& c2.valid()
            &&& c2.plans == c.plans
            &&& c2.subscriptions.contains_key(id)
            &&& c2.subscriptions[id].plan_id == c.subscriptions[id].plan_id
            &&& charged_to(listed, id) + billing_left(c2, id) <= billing_left(c, id)
        }),
    decreases ids.len(),
{
    if ids.len() > 0 {
        let rest = ids.drop_last();
        assert forall|i: int| 0 <= i < rest.len() implies c.subscriptions.contains_key(#[trigger] rest[i]) by {
            assert(rest[i] == ids[i]);
        }
        lemma_collect_all_bills(c, rest, id, caller, now);
        lemma_collect_all_keeps_plans(c, rest, caller, now);
        let (c1, l1, t1) = c.collect_all(rest, caller, now).unwrap();
        assert(c.subscriptions.contains_key(ids[ids.len() - 1]));
        assert(c1.subscriptions.contains_key(ids.last()));
        law_collect_step_bills_within_plan(c1, ids.last(), id, t1, caller, now);
        c1.lemma_collect_step_valid(ids.last(), t1, caller, now);
        let (c2, l2, t2) = c.collect_all(ids, caller, now).unwrap();
        assert(l2.drop_last() =~= l1);
    }
}

/// Collections made one after another from `c`, each for the plan, with the
/// charge time, by the caller and at the time that `calls` gives in turn: the
/// state after them and what each listed. A refused call changes nothing and
/// lists nothing.
pub open spec fn collections(c: ContractView, calls: Seq<(Seq<char>, Option<u64>, Seq<char>, u64)>) -> (ContractView, Seq<Seq<(Seq<char>, u128)>>)
    decreases calls.len(),
{
    if calls.len() == 0 {
        (c, Seq::empty())
    } else {
        let (c1, lists) = collections(c, calls.drop_last());
        let call = calls.last();
        match c1.fees_collected(call.0, call.1, call.2, call.3) {
            Ok((c2, listed, _t)) => (c2, lists.push(listed)),
            Err(_) => (c1, lists.push(Seq::empty())),
        }
    }
}

/// What the listings `lists` give for the subscription `id`, summed.
pub open spec fn charged_over(lists: Seq<Seq<(Seq<char>, u128)>>, id: Seq<char>) -> int
    decreases lists.len(),
{
    if lists.len() == 0 {
        0
    } else {
        charged_over(lists.drop_last(), id) + charged_to(lists.last(), id)
    }
}

/// Over any sequence of collections, a subscription of a plan with a limited
/// number of payments is billed no more than what was left of the plan for
/// it, and so at most the plan's rate for each of the plan's payments.
pub proof fn law_collections_bill_within_plan(
    c: ContractView,
    calls: Seq<(Seq<char>, Option<u64>, Seq<char>, u64)>,
    id: Seq<char>,
)
    requires
        c.valid(),
        c.subscriptions.contains_key(id),
        c.plans[c.subscriptions[id].plan_id].payment_cycle_count > 0,
    ensures
        ({
            let (c2, lists) = collections(c, calls);
            let plan = c.plans[c.subscriptions[id].plan_id];
            &&& c2.valid()
            &&& c2.plans == c.plans
            &&& c2.subscriptions.contains_key(id)
            &&& c2.subscriptions[id].plan_id == c.subscriptions[id].plan_id
            &&& charged_over(lists, id) + billing_left(c2, id) <= billing_left(c, id)
            &&& charged_over(lists, id) <= plan.payment_cycle_count * plan.payment_cycle_rate
        }),
    decreases calls.len(),
{
    let sub = c.subscriptions[id];
    let plan = c.plans[sub.plan_id];
    if calls.len() > 0 {
        law_collections_bill_within_plan(c, calls.drop_last(), id);
        let (c1, lists1) = collections(c, calls.drop_last());
        let call = calls.last();
        let (c2, lists2) = collections(c, calls);
        assert(lists2.drop_last() =~= lists1);
        match c1.fees_collected(call.0, call.1, call.2, call.3) {
            Ok((_c, _l, _t)) => {
                let ids = c1.plan_subscriptions[call.0];
                assert(c1.ids_known(ids));
                lemma_collect_all_bills(c1, ids, id, call.2, call.3);
            },
            Err(_) => {
                assert(charged_to(Seq::<(Seq<char>, u128)>::empty(), id) == 0);
            },
        }
    }
    let (c2, lists) = collections(c, calls);
    let sub2 = c2.subscriptions[id];
    let n = plan.payment_cycle_count as int;
    let rate = plan.payment_cycle_rate as int;
    let pc = sub.payments_charged as int;
    let pc2 = sub2.payments_charged as int;
    if !(sub2.state is Invalid) && n > pc2 {
        assert((n - pc2) * rate >= 0) by (nonlinear_arith) requires n > pc2, rate >= 0;
    }
    if !(sub.state is Invalid) && n > pc {
        assert((n - pc) * rate <= n * rate) by (nonlinear_arith) requires pc >= 0, n > pc, rate >= 0;
    }
    assert(n * rate >= 0) by (nonlinear_arith) requires n >= 0, rate >= 0;
}

/// A collection marks a subscription that stays canceled as charged no later
/// than its cancelation, so that its cost stays computable.
pub proof fn law_collect_keeps_canceled_charge_time(c: ContractView, id: Seq<char>, total: u128, caller: Seq<char>, now: u64)
    requires
        c.valid(),
        c.subscriptions.contains_key(id),
        c.collect_step(id, total, caller, now) is Ok,
        c.subscriptions[id].state matches SubscriptionState::Canceled { ts } && c.subscriptions[id].prev_charge_ts <= ts,
        c.collect_step(id, total, caller, now).unwrap().0.subscriptions[id].state is Canceled,
    ensures
        c.collect_step(id, total, caller, now).unwrap().0.subscriptions[id].prev_charge_ts
            <= c.subscriptions[id].state->Canceled_ts,
{
    let sub = c.subscriptions[id];
    let plan = c.plans[sub.plan_id];
    assert(c.subscription_linked(id));
    assert(plan_admissible(plan));
    c.lemma_available_fund_fee(id, now);
    let (available, incurred) = c.available_fund(id, now).unwrap();
    let ts = sub.state->Canceled_ts;
    let len = plan.payment_cycle_length as int;
    let charge = if available < incurred { available } else { incurred };
    if charge > 0 {
        let k = spec_billed_cycles(sub, plan, now).unwrap() as int;
        let rate = plan.payment_cycle_rate as int;
        assert(incurred == k * rate);
        assert(k > 0) by (nonlinear_arith)
            requires incurred == k * rate, incurred > 0, k >= 0, rate >= 0;
        let cycles = (ts - sub.prev_charge_ts) / len;
        assert(cycles >= k);
        assert(ts - sub.prev_charge_ts >= len) by (nonlinear_arith)
            requires cycles == (ts - sub.prev_charge_ts) / len, cycles >= 1, len > 0, ts - sub.prev_charge_ts >= 0;
    }
}

/// A collection step cancels an active subscription whose available fund falls
/// short of what it has incurred, at the time of the collection, and charges
/// it what is available.
pub proof fn law_collect_cancels_short_fund(c: ContractView, id: Seq<char>, total: u128, caller: Seq<char>, now: u64)
    requires
        c.valid(),
        c.subscriptions.contains_key(id),
        c.subscriptions[id].state is Active,
        c.available_fund(id, now) is Ok,
        c.available_fund(id, now).unwrap().0 < c.available_fund(id, now).unwrap().1,
        c.collect_step(id, total, caller, now) is Ok,
    ensures
        c.collect_step(id, total, caller, now).unwrap().0.subscriptions[id].state
            == (SubscriptionState::Canceled { ts: now }),
        c.collect_step(id, total, caller, now).unwrap().1 == c.available_fund(id, now).unwrap().0,
{
}

/// Every canceled subscription of `c` was last charged no later than its
/// cancelation, so that its cost can be computed.
pub open spec fn canceled_charged_in_time(c: ContractView) -> bool {
    forall|s: Seq<char>| #[trigger] c.subscriptions.contains_key(s)
        ==> (c.subscriptions[s].state matches SubscriptionState::Canceled { ts }
            ==> c.subscriptions[s].prev_charge_ts <= ts)
}

/// One collection step keeps every canceled subscription charged no later than
/// its cancelation, the one that it cancels included.
proof fn lemma_collect_step_charged_in_time(c: ContractView, x: Seq<char>, total: u128, caller: Seq<char>, now: u64)
    requires
        c.valid(),
        c.subscriptions.contains_key(x),
        canceled_charged_in_time(c),
        c.collect_step(x, total, caller, now) is Ok,
    ensures
        canceled_charged_in_time(c.collect_step(x, total, caller, now).unwrap().0),
{
    let c2 = c.collect_step(x, total, caller, now).unwrap().0;
    let sub = c.subscriptions[x];
    let plan = c.plans[sub.plan_id];
    c.lemma_collect_step_valid(x, total, caller, now);
    assert(c.subscription_linked(x));
    assert(plan_admissible(plan));
    assert(c.subscriptions.contains_key(x));
    if sub.state is Canceled && c2.subscriptions[x].state is Canceled {
        law_collect_keeps_canceled_charge_time(c, x, total, caller, now);
    }
    if sub.state is Active && c2.subscriptions[x].state is Canceled {
        c.lemma_available_fund_fee(x, now);
        let (available, incurred) = c.available_fund(x, now).unwrap();
        let charge = if available < incurred { available } else { incurred };
        if charge == 0 {
            let ts = sub.state->Active_ts;
            let len = plan.payment_cycle_length as int;
            let k = spec_billed_cycles(sub, plan, now).unwrap() as int;
            let rate = plan.payment_cycle_rate as int;
            assert(incurred == k * rate);
            assert(incurred > 0);
            assert(k > 0) by (nonlinear_arith)
                requires incurred == k * rate, incurred > 0, k >= 0, rate >= 0;
            let (start, stop) = spec_charge_period(sub, plan, now).unwrap();
            let cycles = (stop - start) / len;
            assert(cycles >= k);
            assert(stop - start >= len) by (nonlinear_arith)
                requires cycles == (stop - start) / len, cycles >= 1, len > 0, stop - start >= 0;
        }
    }
    assert forall|s: Seq<char>| #[trigger] c2.subscriptions.contains_key(s) implies
        (c2.subscriptions[s].state matches SubscriptionState::Canceled { ts }
            ==> c2.subscriptions[s].prev_charge_ts <= ts) by {
        if s != x {
            assert(c.subscriptions.contains_key(s));
            assert(c2.subscriptions[s] == c.subscriptions[s]);
        }
    }
}

/// Collecting from the subscriptions `ids` keeps every canceled subscription
/// charged no later than its cancelation.
proof fn lemma_collect_all_charged_in_time(c: ContractView, ids: Seq<Seq<char>>, caller: Seq<char>, now: u64)
    requires
        c.valid(),
        forall|i: int| 0 <= i < ids.len() ==> c.subscriptions.contains_key(#[trigger] ids[i]),
        canceled_charged_in_time(c),
        c.collect_all(ids, caller, now) is Ok,
    ensures
        canceled_charged_in_time(c.collect_all(ids, caller, now).unwrap().0),
    decreases ids.len(),
{
    if ids.len() > 0 {
        let rest = ids.drop_last();
        assert forall|i: int| 0 <= i < rest.len() implies c.subscriptions.contains_key(#[trigger] rest[i]) by {
            assert(rest[i] == ids[i]);
        }
        lemma_collect_all_charged_in_time(c, rest, caller, now);
        lemma_collect_all_keeps_plans(c, rest, caller, now);
        let (c1, _l1, t1) = c.collect_all(rest, caller, now).unwrap();
        assert(c.subscriptions.contains_key(ids[ids.len() - 1]));
        assert(c1.subscriptions.contains_key(ids.last()));
        lemma_collect_step_charged_in_time(c1, ids.last(), t1, caller, now);
    }
}

/// After a whole collection of fees, every subscription that is canceled,
/// whether before or during the collection, was last charged no later than
/// its cancelation, where that held of every canceled subscription before.
pub proof fn law_collect_fees_keeps_canceled_charge_times(
    c: ContractView,
    plan_id: Seq<char>,
    charge_ts: Option<u64>,
    caller: Seq<char>,
    now: u64,
)
    requires
        c.valid(),
        canceled_charged_in_time(c),
        c.fees_collected(plan_id, charge_ts, caller, now) is Ok,
    ensures
        canceled_charged_in_time(c.fees_collected(plan_id, charge_ts, caller, now).unwrap().0),
{
    let ids = c.plan_subscriptions[plan_id];
    assert(c.ids_known(ids));
    lemma_collect_all_charged_in_time(c, ids, caller, now);
}

/// The fees that sum up from a list stay the same in a state where the
/// subscriptions of the list and the plans are the same.
proof fn lemma_fees_sum_same(c: ContractView, c2: ContractView, ids: Seq<Seq<char>>, now: u64)
    requires
        c2.plans == c.plans,
        forall|i: int| 0 <= i < ids.len() ==> (c2.subscriptions.contains_key(#[trigger] ids[i])
            == c.subscriptions.contains_key(ids[i])) && c2.subscriptions[ids[i]] == c.subscriptions[ids[i]],
    ensures
        c2.fees_sum(ids, now) == c.fees_sum(ids, now),
    decreases ids.len(),
{
    if ids.len() > 0 {
        let rest = ids.drop_last();
        assert forall|i: int| 0 <= i < rest.len() implies (c2.subscriptions.contains_key(#[trigger] rest[i])
            == c.subscriptions.contains_key(rest[i])) && c2.subscriptions[rest[i]] == c.subscriptions[rest[i]] by {
            assert(rest[i] == ids[i]);
        }
        lemma_fees_sum_same(c, c2, rest, now);
        assert(ids.last() == ids[ids.len() - 1]);
    }
}

/// Subscribing under a new identifier adds exactly the plan's rate to what the
/// subscriber's subscriptions have incurred at that time, and leaves the
/// deposits as they were: the subscriber's deposit less its incurred fees falls
/// by the rate.
pub proof fn law_subscribing_adds_first_payment(c: ContractView, plan_id: Seq<char>, caller: Seq<char>, now: u64)
    requires
        c.valid(),
        c.subscribed(plan_id, caller, now) is Ok,
        !c.subscriptions.contains_key(c.subscribed(plan_id, caller, now).unwrap().1),
        now >= c.plans[plan_id].payment_cycle_length,
        c.subscriber_fees(caller, now) is Ok,
        c.subscriber_fees(caller, now).unwrap() + c.plans[plan_id].payment_cycle_rate <= u128::MAX,
    ensures
        c.subscribed(plan_id, caller, now).unwrap().0.deposits == c.deposits,
        c.subscribed(plan_id, caller, now).unwrap().0.subscriber_fees(caller, now)
            == Ok::<u128, ContractError>((c.subscriber_fees(caller, now).unwrap() + c.plans[plan_id].payment_cycle_rate) as u128),
{
    let (c2, id) = c.subscribed(plan_id, caller, now).unwrap();
    law_new_subscription_owes_first_payment(c, plan_id, caller, now);
    let old_list = ContractView::listed(c.subscriber_subscriptions, caller);
    if c.subscriber_subscriptions.contains_key(caller) {
        assert(c.ids_known(old_list));
    }
    assert(!old_list.contains(id)) by {
        if old_list.contains(id) {
            let k = choose|k: int| 0 <= k < old_list.len() && old_list[k] == id;
            assert(c.subscriptions.contains_key(old_list[k]));
        }
    }
    assert(ContractView::unlisted(c.subscriber_subscriptions, c.subscriptions[id].subscriber_id, false, id)
        == c.subscriber_subscriptions);
    let new_list = c2.subscriber_subscriptions[caller];
    assert(new_list == old_list.push(id));
    assert(new_list.drop_last() =~= old_list);
    assert forall|i: int| 0 <= i < old_list.len() implies (c2.subscriptions.contains_key(#[trigger] old_list[i])
        == c.subscriptions.contains_key(old_list[i])) && c2.subscriptions[old_list[i]] == c.subscriptions[old_list[i]] by {
        assert(old_list[i] != id);
    }
    lemma_fees_sum_same(c, c2, old_list, now);
    if !c.subscriber_subscriptions.contains_key(caller) {
        assert(old_list.len() == 0);
    }
}

/// A stored plan is changed only by creating a plan with its identifier:
/// canceling, depositing, withdrawing, subscribing, collecting fees and
/// pruning leave the plans as they are, and creating a plan changes no plan
/// but the one under its identifier.
pub proof fn law_plans_change_only_by_plan_creation(
    c: ContractView,
    id: Seq<char>,
    account: Seq<char>,
    amount: u128,
    asked: Option<u128>,
    plan_id: Seq<char>,
    charge_ts: Option<u64>,
    provider_id: Option<Seq<char>>,
    payment_cycle_length: u64,
    payment_cycle_rate: u128,
    payment_cycle_count: u64,
    plan_name: Option<Seq<char>>,
    caller: Seq<char>,
    now: u64,
)
    requires
        c.valid(),
    ensures
        c.cancel(id, caller, now) is Ok ==> c.cancel(id, caller, now).unwrap().plans == c.plans,
        c.deposit_made(account, amount) is Ok ==> c.deposit_made(account, amount).unwrap().plans == c.plans,
        c.withdrawal(asked, caller, now) is Ok ==> c.withdrawal(asked, caller, now).unwrap().0.plans == c.plans,
        c.subscribed(plan_id, caller, now) is Ok ==> c.subscribed(plan_id, caller, now).unwrap().0.plans == c.plans,
        c.fees_collected(plan_id, charge_ts, caller, now) is Ok
            ==> c.fees_collected(plan_id, charge_ts, caller, now).unwrap().0.plans == c.plans,
        c.pruned().plans == c.plans,
        c.plan_created(provider_id, payment_cycle_length, payment_cycle_rate, payment_cycle_count, plan_name, caller, now) is Ok
            ==> ({
                let (c2, new_id) = c.plan_created(
                    provider_id, payment_cycle_length, payment_cycle_rate, payment_cycle_count, plan_name, caller, now,
                ).unwrap();
                forall|p: Seq<char>| p != new_id ==> #[trigger] c2.plans.contains_key(p) == c.plans.contains_key(p)
                    && c2.plans[p] == c.plans[p]
            }),
{
    if c.fees_collected(plan_id, charge_ts, caller, now) is Ok {
        let ids = c.plan_subscriptions[plan_id];
        assert(c.ids_known(ids));
        lemma_collect_all_keeps_plans(c, ids, caller, now);
    }
}

/// Collecting from the subscriptions `ids` keeps the invariant and the plans.
proof fn lemma_collect_all_keeps_plans(c: ContractView, ids: Seq<Seq<char>>, caller: Seq<char>, now: u64)
    requires
        c.valid(),
        forall|i: int| 0 <= i < ids.len() ==> c.subscriptions.contains_key(#[trigger] ids[i]),
        c.collect_all(ids, caller, now) is Ok,
    ensures
        c.collect_all(ids, caller, now).unwrap().0.valid(),
        c.collect_all(ids, caller, now).unwrap().0.plans == c.plans,
        c.collect_all(ids, caller, now).unwrap().0.subscriptions.dom() == c.subscriptions.dom(),
    decreases ids.len(),
{
    if ids.len() > 0 {
        let rest = ids.drop_last();
        lemma_collect_all_keeps_plans(c, rest, caller, now);
        let (c1, _l, total1) = c.collect_all(rest, caller, now).unwrap();
        assert(c.subscriptions.contains_key(ids[ids.len() - 1]));
        assert(c1.subscriptions.contains_key(ids.last()));
        c1.lemma_collect_step_valid(ids.last(), total1, caller, now);
    }
}


/// A call that changes the contract's state, with its arguments.
pub enum Operation {
    Cancel { id: Seq<char>, caller: Seq<char>, now: u64 },
    Deposit { account: Seq<char>, amount: u128 },
    Withdraw { asked: Option<u128>, caller: Seq<char>, now: u64 },
    Subscribe { plan_id: Seq<char>, caller: Seq<char>, now: u64 },
    Collect { plan_id: Seq<char>, charge_ts: Option<u64>, caller: Seq<char>, now: u64 },
    Prune,
    CreatePlan {
        provider_id: Option<Seq<char>>,
        payment_cycle_length: u64,
        payment_cycle_rate: u128,
        payment_cycle_count: u64,
        plan_name: Option<Seq<char>>,
        caller: Seq<char>,
        now: u64,
    },
}

/// The state after the call `op` on `c`; a refused call changes nothing.
pub open spec fn applied(c: ContractView, op: Operation) -> ContractView {
    match op {
        Operation::Cancel { id, caller, now } => match c.cancel(id, caller, now) {
            Ok(c2) => c2,
            Err(_) => c,
        },
        Operation::Deposit { account, amount } => match c.deposit_made(account, amount) {
            Ok(c2) => c2,
            Err(_) => c,
        },
        Operation::Withdraw { asked, caller, now } => match c.withdrawal(asked, caller, now) {
            Ok((c2, _paid)) => c2,
            Err(_) => c,
        },
        Operation::Subscribe { plan_id, caller, now } => match c.subscribed(plan_id, caller, now) {
            Ok((c2, _id)) => c2,
            Err(_) => c,
        },
        Operation::Collect { plan_id, charge_ts, caller, now } => match c.fees_collected(plan_id, charge_ts, caller, now) {
            Ok((c2, _listed, _total)) => c2,
            Err(_) => c,
        },
        Operation::Prune => c.pruned(),
        Operation::CreatePlan {
            provider_id,
            payment_cycle_length,
            payment_cycle_rate,
            payment_cycle_count,
            plan_name,
            caller,
            now,
        } => match c.plan_created(
            provider_id,
            payment_cycle_length,
            payment_cycle_rate,
            payment_cycle_count,
            plan_name,
            caller,
            now,
        ) {
            Ok((c2, _id)) => c2,
            Err(_) => c,
        },
    }
}

/// The state after the calls `ops` on `c`, one after another.
pub open spec fn applied_all(c: ContractView, ops: Seq<Operation>) -> ContractView
    decreases ops.len(),
{
    if ops.len() == 0 {
        c
    } else {
        applied(applied_all(c, ops.drop_last()), ops.last())
    }
}

/// Whether the call `op` on `c` stores a plan under the identifier `id`.
pub open spec fn stores_plan(c: ContractView, op: Operation, id: Seq<char>) -> bool {
    match op {
        Operation::CreatePlan {
            provider_id,
            payment_cycle_length,
            payment_cycle_rate,
            payment_cycle_count,
            plan_name,
            caller,
            now,
        } => match c.plan_created(
            provider_id,
            payment_cycle_length,
            payment_cycle_rate,
            payment_cycle_count,
            plan_name,
            caller,
            now,
        ) {
            Ok((_c2, new_id)) => new_id == id,
            Err(_) => false,
        },
        _ => false,
    }
}

/// Collecting fees changes no plan.
proof fn lemma_collect_all_plans_same(c: ContractView, ids: Seq<Seq<char>>, caller: Seq<char>, now: u64)
    requires
        c.collect_all(ids, caller, now) is Ok,
    ensures
        c.collect_all(ids, caller, now).unwrap().0.plans == c.plans,
    decreases ids.len(),
{
    if ids.len() > 0 {
        lemma_collect_all_plans_same(c, ids.drop_last(), caller, now);
    }
}

/// A call that stores no plan under `id` leaves the plan under `id` as it is.
proof fn lemma_applied_keeps_plan(c: ContractView, op: Operation, id: Seq<char>)
    requires
        !stores_plan(c, op, id),
    ensures
        applied(c, op).plans.contains_key(id) == c.plans.contains_key(id),
        applied(c, op).plans[id] == c.plans[id],
{
    if let Operation::Collect { plan_id, charge_ts, caller, now } = op {
        if c.fees_collected(plan_id, charge_ts, caller, now) is Ok {
            lemma_collect_all_plans_same(c, c.plan_subscriptions[plan_id], caller, now);
        }
    }
}

/// A plan is read back as it was created, whatever calls follow, until another
/// plan is created under its identifier.
pub proof fn law_plan_read_back(
    c: ContractView,
    provider_id: Option<Seq<char>>,
    payment_cycle_length: u64,
    payment_cycle_rate: u128,
    payment_cycle_count: u64,
    plan_name: Option<Seq<char>>,
    caller: Seq<char>,
    now: u64,
    ops: Seq<Operation>,
)
    requires
        c.plan_created(provider_id, payment_cycle_length, payment_cycle_rate, payment_cycle_count, plan_name, caller, now) is Ok,
        forall|i: int| 0 <= i < ops.len() ==> !stores_plan(
            applied_all(
                c.plan_created(provider_id, payment_cycle_length, payment_cycle_rate, payment_cycle_count, plan_name, caller, now).unwrap().0,
                ops.take(i),
            ),
            #[trigger] ops[i],
            c.plan_created(provider_id, payment_cycle_length, payment_cycle_rate, payment_cycle_count, plan_name, caller, now).unwrap().1,
        ),
    ensures
        ({
            let (c1, id) = c.plan_created(
                provider_id, payment_cycle_length, payment_cycle_rate, payment_cycle_count, plan_name, caller, now,
            ).unwrap();
            let after = applied_all(c1, ops);
            &&& after.plans.contains_key(id)
            &&& after.plans[id] == PlanView {
                provider_id: match provider_id {
                    Some(p) => p,
                    None => caller,
                },
                payment_cycle_length,
                payment_cycle_rate,
                payment_cycle_count,
                plan_name,
            }
        }),
    decreases ops.len(),
{
    let (c1, id) = c.plan_created(
        provider_id, payment_cycle_length, payment_cycle_rate, payment_cycle_count, plan_name, caller, now,
    ).unwrap();
    if ops.len() > 0 {
        let rest = ops.drop_last();
        assert forall|i: int| 0 <= i < rest.len() implies !stores_plan(applied_all(c1, rest.take(i)), #[trigger] rest[i], id) by {
            assert(rest.take(i) =~= ops.take(i));
            assert(rest[i] == ops[i]);
        }
        law_plan_read_back(c, provider_id, payment_cycle_length, payment_cycle_rate, payment_cycle_count, plan_name, caller, now, rest);
        let k = ops.len() - 1;
        assert(ops.take(k) =~= rest);
        assert(!stores_plan(applied_all(c1, ops.take(k)), ops[k], id));
        lemma_applied_keeps_plan(applied_all(c1, rest), ops.last(), id);
    }
}


/// Subscribing succeeds only where the caller's deposit, less what all the
/// caller's subscriptions have incurred at that time, covers the plan's rate;
/// where it does not, the call is refused for the first payment.
pub proof fn law_subscribe_needs_unlocked_rate(c: ContractView, plan_id: Seq<char>, caller: Seq<char>, now: u64)
    requires
        c.valid(),
    ensures
        c.subscribed(plan_id, caller, now) is Ok ==> {
            &&& c.deposits.contains_key(caller)
            &&& c.subscriber_fees(caller, now) is Ok
            &&& c.deposits[caller] >= c.subscriber_fees(caller, now).unwrap() + c.plans[plan_id].payment_cycle_rate
        },
        (c.plans.contains_key(plan_id) && c.deposits.contains_key(caller) && c.subscriber_fees(caller, now) is Ok
            && c.deposits[caller] < c.subscriber_fees(caller, now).unwrap() + c.plans[plan_id].payment_cycle_rate)
            ==> c.subscribed(plan_id, caller, now) == Err::<(ContractView, Seq<char>), ContractError>(
                ContractError::DepositBelowFirstPayment { rate: c.plans[plan_id].payment_cycle_rate },
            ),
        (c.plans.contains_key(plan_id) && c.deposits.contains_key(caller) && c.subscriber_fees(caller, now) is Ok
            && c.deposits[caller] >= c.subscriber_fees(caller, now).unwrap() + c.plans[plan_id].payment_cycle_rate)
            ==> c.subscribed(plan_id, caller, now) is Ok,
{
    if c.plans.contains_key(plan_id) {
        assert(plan_admissible(c.plans[plan_id]));
    }
}

/// Checked at `now` itself, a subscription is covered exactly when its
/// subscriber's deposit covers everything that the subscriber's
/// subscriptions have incurred.
pub proof fn law_validate_now_needs_all_fees(c: ContractView, id: Seq<char>, now: u64)
    requires
        c.valid(),
        c.subscription_covered(id, None, now) is Ok,
    ensures
        c.subscription_covered(id, None, now).unwrap()
            == (c.deposits[c.subscriptions[id].subscriber_id]
                >= c.subscriber_fees(c.subscriptions[id].subscriber_id, now).unwrap()),
{
}

/// A subscription is covered up to a charge time exactly when its
/// subscriber's deposit, less what the subscriber's other subscriptions have
/// incurred up to `now`, covers its cost up to that time: the deposit and the
/// subscription's own fee together reach all the subscriber's fees and the cost.
pub proof fn law_validate_against_other_fees(c: ContractView, id: Seq<char>, charge_ts: Option<u64>, now: u64)
    requires
        c.valid(),
        c.subscription_covered(id, charge_ts, now) is Ok,
    ensures
        ({
            let account = c.subscriptions[id].subscriber_id;
            let all_fees = c.subscriber_fees(account, now).unwrap();
            let own_fee = c.subscription_cost(id, None, now).unwrap();
            let cost = c.subscription_cost(id, charge_ts, now).unwrap();
            &&& own_fee <= all_fees
            &&& c.subscription_covered(id, charge_ts, now).unwrap() == (c.deposits[account] + own_fee >= all_fees + cost)
        }),
{
    let account = c.subscriptions[id].subscriber_id;
    assert(c.subscription_linked(id));
    c.lemma_fee_within_sum(c.subscriber_subscriptions[account], id, now);
}

/// The fees of those of the subscriptions `ids[0..n]` that fall due strictly
/// before `due`, or at `due` and stand before position `t`.
pub open spec fn fees_due_first(c: ContractView, ids: Seq<Seq<char>>, t: int, due: u64, n: int, now: u64) -> int
    decreases n,
{
    if n <= 0 {
        0
    } else {
        let sub = c.subscriptions[ids[n - 1]];
        let d = spec_next_payment_due(sub, c.plans[sub.plan_id]).unwrap();
        fees_due_first(c, ids, t, due, n - 1, now) + if d < due || (d == due && n - 1 < t) {
            c.subscription_cost(ids[n - 1], None, now).unwrap() as int
        } else {
            0
        }
    }
}

/// The entries of the fund of `ids` carry, in order, when each falls due.
proof fn lemma_fund_entries_dues(c: ContractView, ids: Seq<Seq<char>>, now: u64)
    requires
        c.fund_entries(ids, now) is Ok,
    ensures
        c.fund_entries(ids, now).unwrap().len() == ids.len(),
        forall|i: int| 0 <= i < ids.len() ==> {
            let sub = c.subscriptions[#[trigger] ids[i]];
            spec_next_payment_due(sub, c.plans[sub.plan_id]) == Ok::<u64, ContractError>(c.fund_entries(ids, now).unwrap()[i].0)
        },
    decreases ids.len(),
{
    if ids.len() > 0 {
        let rest = ids.drop_last();
        lemma_fund_entries_dues(c, rest, now);
        assert forall|i: int| 0 <= i < ids.len() implies {
            let sub = c.subscriptions[#[trigger] ids[i]];
            spec_next_payment_due(sub, c.plans[sub.plan_id]) == Ok::<u64, ContractError>(c.fund_entries(ids, now).unwrap()[i].0)
        } by {
            if i < rest.len() {
                assert(rest[i] == ids[i]);
            }
        }
    }
}

/// Summing the fees charged before the entry `t` is summing the fees of the
/// subscriptions due first.
proof fn lemma_fees_due_first(c: ContractView, ids: Seq<Seq<char>>, t: int, n: int, now: u64)
    requires
        c.fund_entries(ids, now) is Ok,
        0 <= t < ids.len(),
        0 <= n <= ids.len(),
    ensures
        fees_charged_before(c.fund_entries(ids, now).unwrap(), t, n)
            == fees_due_first(c, ids, t, c.fund_entries(ids, now).unwrap()[t].0, n, now),
    decreases n,
{
    if n > 0 {
        lemma_fees_due_first(c, ids, t, n - 1, now);
        lemma_fund_entries_dues(c, ids, now);
        c.lemma_fund_entries_fees(ids, now);
        assert(ids[n - 1] == ids[n - 1]);
    }
}

/// The fund available to a subscription is its subscriber's deposit less the
/// fees of the subscriber's subscriptions that fall due strictly before it, or
/// at the same time and were made before it, at least 0 and at most its own
/// fee: a subscription made later but due earlier is charged first, and those
/// due after it take nothing from its fund.
pub proof fn law_available_fund_by_due_time(c: ContractView, id: Seq<char>, now: u64)
    requires
        c.valid(),
        c.available_fund(id, now) is Ok,
    ensures
        ({
            let sub = c.subscriptions[id];
            let account = sub.subscriber_id;
            let ids = c.subscriber_subscriptions[account];
            let t = ids.index_of(id);
            let due = spec_next_payment_due(sub, c.plans[sub.plan_id]).unwrap();
            let fee = c.subscription_cost(id, None, now).unwrap();
            let earlier = fees_due_first(c, ids, t, due, ids.len() as int, now);
            let left = if c.deposits[account] >= earlier { c.deposits[account] - earlier } else { 0 };
            &&& c.subscription_cost(id, None, now) is Ok
            &&& spec_next_payment_due(sub, c.plans[sub.plan_id]) is Ok
            &&& ids[t] == id
            &&& c.available_fund(id, now).unwrap() == (if left < fee { left as u128 } else { fee }, fee)
        }),
{
    let sub = c.subscriptions[id];
    assert(c.subscription_linked(id));
    let ids = c.subscriber_subscriptions[sub.subscriber_id];
    let t = ids.index_of(id);
    assert(ids.contains(id));
    assert(ids[t] == id);
    lemma_fund_entries_dues(c, ids, now);
    c.lemma_fund_entries_fees(ids, now);
    lemma_fees_due_first(c, ids, t, ids.len() as int, now);
    assert(ids[t] == id);
}

} // verus!
