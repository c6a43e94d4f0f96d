//! The subscription contract: its state, the rules by which plans,
//! subscriptions and deposits change, and what each call returns.

use vstd::prelude::*;
use crate::fees::{billed_cycles, incurred_cost, next_payment_due, spec_next_payment_due};
use crate::ids::derive_id;
use crate::model::{
    ContractView, MIN_PAYMENT_CYCLE_LENGTH, fees_charged_before, filter_ids, lemma_take_one_more,
    list_views, opt_view, parts_acceptable, parts_model, plan_admissible, saturating_diff,
};
use crate::store::{IdList, StrMap, entry_keys, entry_views, string_views};
use crate::types::{
    ContractError, ContractParts, Duplicate, PlanView, Subscription, SubscriptionPlan, SubscriptionState,
    SubscriptionView, Transfer,
};

verus! {

/// The state of the contract.
pub struct Contract {
    owner: String,
    subscription_plan_by_id: StrMap<SubscriptionPlan>,
    subscription_by_id: StrMap<Subscription>,
    subscription_ids_by_plan_id: StrMap<IdList>,
    subscriptions_per_subscriber: StrMap<IdList>,
    deposit_by_account: StrMap<u128>,
}

impl View for Contract {
    type V = ContractView;

    closed spec fn view(&self) -> ContractView {
        ContractView {
            owner: self.owner@,
            plans: self.subscription_plan_by_id@,
            subscriptions: self.subscription_by_id@,
            plan_subscriptions: self.subscription_ids_by_plan_id@,
            subscriber_subscriptions: self.subscriptions_per_subscriber@,
            deposits: self.deposit_by_account@,
        }
    }
}

impl Contract {
    /// The collections are well formed and the state keeps its invariant.
    pub closed spec fn wf(&self) -> bool {
        &&& self.subscription_plan_by_id.wf()
        &&& self.subscription_by_id.wf()
        &&& self.subscription_ids_by_plan_id.wf()
        &&& self.subscriptions_per_subscriber.wf()
        &&& self.deposit_by_account.wf()
        &&& self@.valid()
    }

    /// A well-formed contract's state keeps the invariant.
    pub proof fn lemma_wf_valid(&self)
        requires
            self.wf(),
        ensures
            self@.valid(),
    {
    }

    /// A contract owned by `owner_id`, with no plans, subscriptions or deposits.
    pub fn new(owner_id: String) -> (c: Contract)
        ensures
            c.wf(),
            c@.owner == owner_id@,
            c@.plans == Map::<Seq<char>, PlanView>::empty(),
            c@.subscriptions == Map::<Seq<char>, SubscriptionView>::empty(),
            c@.plan_subscriptions == Map::<Seq<char>, Seq<Seq<char>>>::empty(),
            c@.subscriber_subscriptions == Map::<Seq<char>, Seq<Seq<char>>>::empty(),
            c@.deposits == Map::<Seq<char>, u128>::empty(),
    {
        Contract {
            owner: owner_id,
            subscription_plan_by_id: StrMap::new(),
            subscription_by_id: StrMap::new(),
            subscription_ids_by_plan_id: StrMap::new(),
            subscriptions_per_subscriber: StrMap::new(),
            deposit_by_account: StrMap::new(),
        }
    }

    /// The plan `plan_id`.
    pub fn get_plan(&self, plan_id: String) -> (r: Result<SubscriptionPlan, ContractError>)
        requires
            self.wf(),
        ensures
            match r {
                Ok(plan) => self@.plans.contains_key(plan_id@) && plan@ == self@.plans[plan_id@],
                Err(e) => !self@.plans.contains_key(plan_id@) && e == ContractError::NoSuchPlan,
            },
    {
        match self.subscription_plan_by_id.get(&plan_id) {
            Some(plan) => Ok(plan.duplicate()),
            None => Err(ContractError::NoSuchPlan),
        }
    }

    /// The subscription `subscription_id`.
    pub fn get_subscription(&self, subscription_id: String) -> (r: Result<Subscription, ContractError>)
        requires
            self.wf(),
        ensures
            match r {
                Ok(sub) => self@.subscriptions.contains_key(subscription_id@)
                    && sub@ == self@.subscriptions[subscription_id@],
                Err(e) => !self@.subscriptions.contains_key(subscription_id@)
                    && e == ContractError::NoSuchSubscription,
            },
    {
        match self.subscription_by_id.get(&subscription_id) {
            Some(sub) => Ok(sub.duplicate()),
            None => Err(ContractError::NoSuchSubscription),
        }
    }

    /// The subscriptions made to `plan_id`, with their identifiers, in the order
    /// in which they were made.
    pub fn list_subscriptions_by_plan_id(&self, plan_id: String) -> (r: Result<Vec<(String, Subscription)>, ContractError>)
        requires
            self.wf(),
        ensures
            match r {
                Ok(list) => {
                    &&& self@.plan_subscriptions.contains_key(plan_id@)
                    &&& list@.len() == self@.plan_subscriptions[plan_id@].len()
                    &&& forall|i: int| 0 <= i < list@.len() ==> {
                        &&& (#[trigger] list@[i]).0@ == self@.plan_subscriptions[plan_id@][i]
                        &&& list@[i].1@ == self@.subscriptions[list@[i].0@]
                        &&& list@[i].1.plan_id@ == plan_id@
                    }
                },
                Err(e) => !self@.plan_subscriptions.contains_key(plan_id@)
                    && e == ContractError::NoSubscriptionsOfPlan,
            },
    {
        let ids = match self.subscription_ids_by_plan_id.get(&plan_id) {
            Some(ids) => ids,
            None => return Err(ContractError::NoSubscriptionsOfPlan),
        };
        let ghost c = self@;
        assert(c.plan_subscriptions.contains_key(plan_id@));
        assert(c.ids_of_plan(plan_id@, ids@));
        let mut results: Vec<(String, Subscription)> = Vec::new();
        let n = ids.len();
        let mut i: usize = 0;
        while i < n
            invariant
                self.wf(),
                c == self@,
                c.plan_subscriptions.contains_key(plan_id@),
                ids@ == c.plan_subscriptions[plan_id@],
                n == ids@.len(),
                i <= n,
                results@.len() == i,
                c.ids_of_plan(plan_id@, ids@),
                forall|j: int| 0 <= j < i ==> {
                    &&& (#[trigger] results@[j]).0@ == ids@[j]
                    &&& results@[j].1@ == c.subscriptions[results@[j].0@]
                    &&& results@[j].1.plan_id@ == plan_id@
                },
            decreases n - i,
        {
            let id = ids.get(i);
            assert(c.subscriptions.contains_key(ids@[i as int]));
            assert(c.subscriptions[ids@[i as int]].plan_id == plan_id@);
            let sub = match self.subscription_by_id.get(id) {
                Some(s) => s.duplicate(),
                None => {
                    assert(false);
                    return Err(ContractError::NoSuchSubscription);
                },
            };
            results.push((id.clone(), sub));
            i = i + 1;
        }
        Ok(results)
    }
    /// What the subscription `subscription_id` has incurred when its charge
    /// period ends at `end_ts`, or at `now` when none is given.
    pub fn calcuate_subscription_incurred_cost(&self, subscription_id: &String, end_ts: Option<u64>, now: u64) -> (r: Result<u128, ContractError>)
        requires
            self.wf(),
        ensures
            r == self@.subscription_cost(subscription_id@, end_ts, now),
    {
        let sub = match self.subscription_by_id.get(subscription_id) {
            Some(s) => s,
            None => return Err(ContractError::NoSuchSubscription),
        };
        assert(self@.subscription_linked(subscription_id@));
        let plan = match self.subscription_plan_by_id.get(&sub.plan_id) {
            Some(p) => p,
            None => {
                assert(false);
                return Err(ContractError::NoSuchPlan);
            },
        };
        let end: u64 = match end_ts {
            Some(e) => e,
            None => now,
        };
        if end > now {
            return Err(ContractError::ChargeEndInFuture);
        }
        incurred_cost(sub, plan, end)
    }

    /// The sum of what the subscriptions of `subscriber_id` have incurred up to `now`.
    pub fn calculate_total_fees_for_subscriber(&self, subscriber_id: &String, now: u64) -> (r: Result<u128, ContractError>)
        requires
            self.wf(),
        ensures
            r == self@.subscriber_fees(subscriber_id@, now),
    {
        let ids = match self.subscriptions_per_subscriber.get(subscriber_id) {
            Some(ids) => ids,
            None => return Ok(0),
        };
        let ghost c = self@;
        let ghost all = ids@;
        let mut total_fees: u128 = 0;
        let n = ids.len();
        let mut i: usize = 0;
        while i < n
            invariant
                self.wf(),
                c == self@,
                all == ids@,
                c.subscriber_subscriptions.contains_key(subscriber_id@),
                c.subscriber_subscriptions[subscriber_id@] == all,
                n == all.len(),
                i <= n,
                c.fees_sum(all.take(i as int), now) == Ok::<u128, ContractError>(total_fees),
            decreases n - i,
        {
            let id = ids.get(i);
            assert(all.take(i + 1).drop_last() =~= all.take(i as int));
            assert(all.take(i + 1).last() == all[i as int]);
            let fee = match self.calcuate_subscription_incurred_cost(id, None, now) {
                Ok(f) => f,
                Err(e) => {
                    proof {
                        self.lemma_fees_sum_stops(all, i as int, now);
                    }
                    return Err(e);
                },
            };
            match total_fees.checked_add(fee) {
                Some(t) => total_fees = t,
                None => {
                    proof {
                        self.lemma_fees_sum_stops(all, i as int, now);
                    }
                    return Err(ContractError::Overflow);
                },
            }
            i = i + 1;
        }
        assert(all.take(n as int) =~= all);
        Ok(total_fees)
    }

    /// Once the sum of the fees of the first `i + 1` identifiers fails, the sum of all fails alike.
    proof fn lemma_fees_sum_stops(&self, all: Seq<Seq<char>>, i: int, now: u64)
        requires
            0 <= i < all.len(),
            self@.fees_sum(all.take(i + 1), now) is Err,
        ensures
            self@.fees_sum(all, now) == self@.fees_sum(all.take(i + 1), now),
        decreases all.len() - i,
    {
        if i + 1 < all.len() {
            assert(all.take(i + 2).drop_last() =~= all.take(i + 1));
            self.lemma_fees_sum_stops(all, i + 1, now);
        } else {
            assert(all.take(i + 1) =~= all);
        }
    }

    /// The deposit of `account` less all fees that its subscriptions have incurred, at least 0.
    pub fn get_unlocked_deposit(&self, account: &String, now: u64) -> (r: Result<u128, ContractError>)
        requires
            self.wf(),
        ensures
            r == self@.unlocked_deposit(account@, now),
    {
        let balance: u128 = match self.deposit_by_account.get(account) {
            Some(b) => *b,
            None => return Err(ContractError::NoDeposit),
        };
        let total_fees = self.calculate_total_fees_for_subscriber(account, now)?;
        Ok(balance.saturating_sub(total_fees))
    }

    /// Whether the subscriber's unlocked deposit covers what the subscription
    /// `subscription_id` has incurred up to `charge_ts`, or up to `now`.
    pub fn validate_subscription(&self, subscription_id: &String, charge_ts: Option<u64>, now: u64) -> (r: Result<bool, ContractError>)
        requires
            self.wf(),
        ensures
            r == self@.subscription_covered(subscription_id@, charge_ts, now),
    {
        let sub = match self.subscription_by_id.get(subscription_id) {
            Some(s) => s,
            None => return Err(ContractError::NoSuchSubscription),
        };
        let account = &sub.subscriber_id;
        let deposit: u128 = match self.deposit_by_account.get(account) {
            Some(d) => *d,
            None => return Err(ContractError::NoDeposit),
        };
        let all_fees = self.calculate_total_fees_for_subscriber(account, now)?;
        let own_fee = self.calcuate_subscription_incurred_cost(subscription_id, None, now)?;
        let cost = self.calcuate_subscription_incurred_cost(subscription_id, charge_ts, now)?;
        proof {
            assert(self@.subscription_linked(subscription_id@));
            self@.lemma_fee_within_sum(self@.subscriber_subscriptions[account@], subscription_id@, now);
        }
        let others: u128 = all_fees - own_fee;
        Ok(deposit >= others && deposit - others >= cost)
    }

    /// When the next payment of `sub` falls due.
    pub fn get_next_payment_due_ts(&self, sub: &Subscription) -> (r: Result<u64, ContractError>)
        requires
            self.wf(),
            self@.plans.contains_key(sub.plan_id@),
        ensures
            r == spec_next_payment_due(sub@, self@.plans[sub.plan_id@]),
    {
        let plan = match self.subscription_plan_by_id.get(&sub.plan_id) {
            Some(p) => p,
            None => {
                assert(false);
                return Err(ContractError::NoSuchPlan);
            },
        };
        next_payment_due(sub, plan)
    }
    /// Cancels the subscription `subscription_id` on behalf of `caller` at `now`.
    pub fn cancel_subscription(&mut self, subscription_id: &String, caller: &String, now: u64) -> (r: Result<(), ContractError>)
        requires
            old(self).wf(),
        ensures
            final(self).wf(),
            match old(self)@.cancel(subscription_id@, caller@, now) {
                Ok(c) => r is Ok && final(self)@ == c,
                Err(e) => r == Err::<(), ContractError>(e) && final(self)@ == old(self)@,
            },
    {
        let mut sub = match self.subscription_by_id.get(subscription_id) {
            Some(s) => s.duplicate(),
            None => return Err(ContractError::NoSuchSubscription),
        };
        assert(self@.subscription_linked(subscription_id@));
        let plan = match self.subscription_plan_by_id.get(&sub.plan_id) {
            Some(p) => p,
            None => {
                assert(false);
                return Err(ContractError::NoSuchPlan);
            },
        };
        if !(plan.provider_id == *caller || sub.subscriber_id == *caller) {
            return Err(ContractError::NotSubscriberOrProvider);
        }
        match sub.state {
            SubscriptionState::Active { ts } => {
                if sub.prev_charge_ts == 0 {
                    if ts < plan.payment_cycle_length {
                        return Err(ContractError::Overflow);
                    }
                    sub.prev_charge_ts = ts - plan.payment_cycle_length;
                }
                sub.state = SubscriptionState::Canceled { ts: now };
                proof {
                    old(self)@.lemma_relink(subscription_id@, sub@);
                }
                self.subscription_by_id.insert(subscription_id.clone(), sub);
                assert(self@ =~= old(self)@.cancel(subscription_id@, caller@, now).unwrap());
                Ok(())
            },
            _ => Err(ContractError::NotActive),
        }
    }

    /// Takes `amount` from the deposit of `account_id`, leaving at least 0,
    /// without moving any funds.
    fn internal_charge(&mut self, account_id: &String, amount: u128)
        requires
            old(self).wf(),
            old(self)@.deposits.contains_key(account_id@),
        ensures
            final(self).wf(),
            final(self)@ == old(self)@.with_deposit(
                account_id@,
                saturating_diff(old(self)@.deposits[account_id@] as int, amount as int) as u128,
            ),
    {
        let deposit: u128 = match self.deposit_by_account.get(account_id) {
            Some(d) => *d,
            None => {
                assert(false);
                0
            },
        };
        let left = deposit.saturating_sub(amount);
        proof {
            old(self)@.lemma_deposit_set(account_id@, left);
        }
        self.deposit_by_account.insert(account_id.clone(), left);
        assert(self@ =~= old(self)@.with_deposit(account_id@, left));
    }

    /// Once the entries of the first `i + 1` identifiers fail, the entries of all fail alike.
    proof fn lemma_fund_entries_stop(&self, all: Seq<Seq<char>>, i: int, now: u64)
        requires
            0 <= i < all.len(),
            self@.fund_entries(all.take(i + 1), now) is Err,
        ensures
            self@.fund_entries(all, now) == self@.fund_entries(all.take(i + 1), now),
        decreases all.len() - i,
    {
        if i + 1 < all.len() {
            assert(all.take(i + 2).drop_last() =~= all.take(i + 1));
            self.lemma_fund_entries_stop(all, i + 1, now);
        } else {
            assert(all.take(i + 1) =~= all);
        }
    }

    /// The part of its subscriber's deposit left for the subscription
    /// `subscription_id` once the subscriber's subscriptions are charged in
    /// order of their next due time, and what the subscription has incurred.
    pub fn get_available_fund_for_subscription(&self, subscription_id: &String, now: u64) -> (r: Result<(u128, u128), ContractError>)
        requires
            self.wf(),
        ensures
            r == self@.available_fund(subscription_id@, now),
    {
        let target_sub = match self.subscription_by_id.get(subscription_id) {
            Some(s) => s,
            None => return Err(ContractError::NoSuchSubscription),
        };
        let ghost c = self@;
        assert(c.subscription_linked(subscription_id@));
        let sub_ids = match self.subscriptions_per_subscriber.get(&target_sub.subscriber_id) {
            Some(l) => l,
            None => {
                assert(false);
                return Err(ContractError::NoSuchSubscription);
            },
        };
        let ghost all = sub_ids@;
        assert(c.ids_known(all));
        let n = sub_ids.len();
        let mut entries: Vec<(u64, u128)> = Vec::new();
        let mut i: usize = 0;
        while i < n
            invariant
                self.wf(),
                c == self@,
                all == sub_ids@,
                c.ids_known(all),
                c.subscriptions.contains_key(subscription_id@),
                c.subscriber_subscriptions[c.subscriptions[subscription_id@].subscriber_id] == all,
                n == all.len(),
                i <= n,
                entries@.len() == i,
                c.fund_entries(all.take(i as int), now) == Ok::<Seq<(u64, u128)>, ContractError>(entries@),
            decreases n - i,
        {
            let sub_id = sub_ids.get(i);
            assert(all.take(i + 1).drop_last() =~= all.take(i as int));
            assert(all.take(i + 1).last() == all[i as int]);
            assert(c.subscriptions.contains_key(all[i as int]));
            assert(c.subscription_linked(all[i as int]));
            let sub = match self.subscription_by_id.get(sub_id) {
                Some(s) => s,
                None => {
                    assert(false);
                    return Err(ContractError::NoSuchSubscription);
                },
            };
            let due = match self.get_next_payment_due_ts(sub) {
                Ok(d) => d,
                Err(e) => {
                    proof {
                        self.lemma_fund_entries_stop(all, i as int, now);
                    }
                    return Err(e);
                },
            };
            let fee = match self.calcuate_subscription_incurred_cost(sub_id, None, now) {
                Ok(f) => f,
                Err(e) => {
                    proof {
                        self.lemma_fund_entries_stop(all, i as int, now);
                    }
                    return Err(e);
                },
            };
            entries.push((due, fee));
            i = i + 1;
        }
        assert(all.take(n as int) =~= all);
        let ghost es = entries@;
        // the place of the subscription among its subscriber's subscriptions
        assert(all.contains(subscription_id@));
        let mut t: usize = 0;
        while t < n
            invariant
                all == sub_ids@,
                n == all.len(),
                t <= n,
                all.contains(subscription_id@),
                forall|j: int| 0 <= j < t ==> all[j] != subscription_id@,
            ensures
                t < n ==> all[t as int] == subscription_id@,
                forall|j: int| 0 <= j < t ==> all[j] != subscription_id@,
            decreases n - t,
        {
            if *sub_ids.get(t) == *subscription_id {
                break;
            }
            t = t + 1;
        }
        if t >= n {
            assert(false);
            return Err(ContractError::NoSuchSubscription);
        }
        assert(all.index_of(subscription_id@) == t) by {
            let k = all.index_of(subscription_id@);
            assert(all[k] == subscription_id@);
        }
        let incurred = entries[t].1;
        let deposit: u128 = match self.deposit_by_account.get(&target_sub.subscriber_id) {
            Some(d) => *d,
            None => {
                assert(false);
                0
            },
        };
        let mut pseudo_deposit: u128 = deposit;
        let mut j: usize = 0;
        while j < n
            invariant
                es == entries@,
                n == es.len(),
                t < n,
                j <= n,
                pseudo_deposit as int == saturating_diff(deposit as int, fees_charged_before(es, t as int, j as int)),
            decreases n - j,
        {
            if entries[j].0 < entries[t].0 || (entries[j].0 == entries[t].0 && j < t) {
                pseudo_deposit = pseudo_deposit.saturating_sub(entries[j].1);
            }
            j = j + 1;
        }
        if pseudo_deposit < incurred {
            Ok((pseudo_deposit, incurred))
        } else {
            Ok((incurred, incurred))
        }
    }

    /// A copy of the contract's state.
    pub fn duplicate(&self) -> (c: Self)
        requires
            self.wf(),
        ensures
            c.wf(),
            c@ == self@,
    {
        let c = Contract {
            owner: self.owner.clone(),
            subscription_plan_by_id: self.subscription_plan_by_id.duplicate(),
            subscription_by_id: self.subscription_by_id.duplicate(),
            subscription_ids_by_plan_id: self.subscription_ids_by_plan_id.duplicate(),
            subscriptions_per_subscriber: self.subscriptions_per_subscriber.duplicate(),
            deposit_by_account: self.deposit_by_account.duplicate(),
        };
        assert(c@ =~= self@);
        c
    }

    /// Collects the fees of the subscription `subscription_id`; see `ContractView::collect_step`.
    /// Where it fails, the state is left as it stands and must be dropped.
    fn collect_step(&mut self, subscription_id: &String, total: u128, caller: &String, now: u64) -> (r: Result<(u128, u128), ContractError>)
        requires
            old(self).wf(),
            old(self)@.subscriptions.contains_key(subscription_id@),
        ensures
            match old(self)@.collect_step(subscription_id@, total, caller@, now) {
                Ok((c, amount, new_total)) => {
                    &&& r == Ok::<(u128, u128), ContractError>((amount, new_total))
                    &&& final(self)@ == c
                    &&& final(self).wf()
                    &&& c.plans == old(self)@.plans
                    &&& c.plan_subscriptions == old(self)@.plan_subscriptions
                },
                Err(e) => r == Err::<(u128, u128), ContractError>(e),
            },
    {
        let ghost c0 = self@;
        let mut subscription = match self.subscription_by_id.get(subscription_id) {
            Some(s) => s.duplicate(),
            None => {
                assert(false);
                return Err(ContractError::NoSuchSubscription);
            },
        };
        assert(c0.subscription_linked(subscription_id@));
        if let SubscriptionState::Invalid = subscription.state {
            return Ok((0, total));
        }
        let (available_fund, incurred_fees) = self.get_available_fund_for_subscription(subscription_id, now)?;
        proof {
            c0.lemma_available_fund_fee(subscription_id@, now);
        }
        let short = available_fund < incurred_fees;
        let active = match subscription.state {
            SubscriptionState::Active { .. } => true,
            _ => false,
        };
        if short && active {
            self.cancel_subscription(subscription_id, caller, now)?;
        }
        let ghost c1 = self@;
        let internal_charge_amount: u128 = if short { available_fund } else { incurred_fees };
        let new_total = match total.checked_add(internal_charge_amount) {
            Some(t) => t,
            None => return Err(ContractError::Overflow),
        };
        self.internal_charge(&subscription.subscriber_id, internal_charge_amount);
        let ghost c2 = self@;
        // the subscription as it stands after a cancelation
        let mut current = match self.subscription_by_id.get(subscription_id) {
            Some(s) => s.duplicate(),
            None => {
                assert(false);
                return Err(ContractError::NoSuchSubscription);
            },
        };
        assert(current@ == c1.subscriptions[subscription_id@]);
        let plan = match self.subscription_plan_by_id.get(&subscription.plan_id) {
            Some(p) => p,
            None => {
                assert(false);
                return Err(ContractError::NoSuchPlan);
            },
        };
        if internal_charge_amount > 0 {
            current.prev_charge_ts = now;
            if plan.payment_cycle_count > 0 {
                let cycles: u64 = match billed_cycles(&subscription, plan, now) {
                    Ok(k) => k,
                    Err(_) => {
                        assert(false);
                        0
                    },
                };
                current.payments_charged = subscription.payments_charged + cycles;
            }
        }
        let canceled_before = match subscription.state {
            SubscriptionState::Canceled { .. } => true,
            _ => false,
        };
        if canceled_before {
            let payment_due_ts = next_payment_due(&subscription, plan)?;
            if payment_due_ts < now {
                // the subscription ends as it stood, only no longer valid
                let mut ended = subscription;
                ended.state = SubscriptionState::Invalid;
                proof {
                    c2.lemma_relink(subscription_id@, ended@);
                }
                self.subscription_by_id.insert(subscription_id.clone(), ended);
                assert(self@ =~= c2.with_subscription(subscription_id@, ended@));
                return Ok((internal_charge_amount, new_total));
            }
        }
        proof {
            c2.lemma_relink(subscription_id@, current@);
        }
        self.subscription_by_id.insert(subscription_id.clone(), current);
        assert(self@ =~= c2.with_subscription(subscription_id@, current@));
        Ok((internal_charge_amount, new_total))
    }

    /// Once collecting from the first `i + 1` identifiers fails, collecting from all fails alike.
    proof fn lemma_collect_all_stops(c: ContractView, all: Seq<Seq<char>>, i: int, caller: Seq<char>, now: u64)
        requires
            0 <= i < all.len(),
            c.collect_all(all.take(i + 1), caller, now) is Err,
        ensures
            c.collect_all(all, caller, now) == c.collect_all(all.take(i + 1), caller, now),
        decreases all.len() - i,
    {
        if i + 1 < all.len() {
            assert(all.take(i + 2).drop_last() =~= all.take(i + 1));
            Self::lemma_collect_all_stops(c, all, i + 1, caller, now);
        } else {
            assert(all.take(i + 1) =~= all);
        }
    }

    /// Whether the identifiers `ids`, listed under `key`, are known and each
    /// names a subscription of that plan (`for_plan`) or of that subscriber.
    fn list_known(&self, key: &String, ids: &IdList, for_plan: bool) -> (r: bool)
        requires
            self.subscription_by_id.wf(),
        ensures
            r == (self@.ids_known(ids@) && (for_plan ==> self@.ids_of_plan(key@, ids@))
                && (!for_plan ==> self@.ids_of_subscriber(key@, ids@))),
    {
        if !ids.no_duplicates() {
            return false;
        }
        let n = ids.len();
        let mut k: usize = 0;
        while k < n
            invariant
                self.subscription_by_id.wf(),
                n == ids@.len(),
                k <= n,
                ids@.no_duplicates(),
                forall|m: int| 0 <= m < k ==> self@.subscriptions.contains_key(#[trigger] ids@[m])
                    && (for_plan ==> self@.subscriptions[ids@[m]].plan_id == key@)
                    && (!for_plan ==> self@.subscriptions[ids@[m]].subscriber_id == key@),
            decreases n - k,
        {
            let id = ids.get(k);
            match self.subscription_by_id.get(id) {
                Some(sub) => {
                    let owner_ok = if for_plan { sub.plan_id == *key } else { sub.subscriber_id == *key };
                    if !owner_ok {
                        return false;
                    }
                },
                None => return false,
            }
            k = k + 1;
        }
        true
    }

    /// Whether the state keeps its invariant.
    fn valid_state(&self) -> (r: bool)
        requires
            self.subscription_plan_by_id.wf(),
            self.subscription_by_id.wf(),
            self.subscription_ids_by_plan_id.wf(),
            self.subscriptions_per_subscriber.wf(),
            self.deposit_by_account.wf(),
        ensures
            r == self@.valid(),
    {
        let ghost c = self@;
        // plans
        let plans = &self.subscription_plan_by_id;
        proof {
            plans.lemma_keys();
        }
        let n = plans.len();
        let mut i: usize = 0;
        while i < n
            invariant
                plans == &self.subscription_plan_by_id,
                plans.wf(),
                c == self@,
                n == plans.key_seq().len(),
                i <= n,
                forall|j: int| 0 <= j < i ==> plan_admissible(c.plans[#[trigger] plans.key_seq()[j]]),
            decreases n - i,
        {
            let p = plans.value_at(i);
            if !(p.payment_cycle_length >= MIN_PAYMENT_CYCLE_LENGTH && p.payment_cycle_rate > 0) {
                assert(c.plans.contains_key(plans.key_seq()[i as int]));
                return false;
            }
            i = i + 1;
        }
        assert forall|p: Seq<char>| #[trigger] c.plans.contains_key(p) implies plan_admissible(c.plans[p]) by {
            let j = choose|j: int| 0 <= j < n && plans.key_seq()[j] == p;
            assert(plan_admissible(c.plans[plans.key_seq()[j]]));
        }
        // subscriptions
        let subs = &self.subscription_by_id;
        proof {
            subs.lemma_keys();
        }
        let n = subs.len();
        let mut i: usize = 0;
        while i < n
            invariant
                subs == &self.subscription_by_id,
                self.subscription_plan_by_id.wf(),
                self.subscription_by_id.wf(),
                self.subscription_ids_by_plan_id.wf(),
                self.subscriptions_per_subscriber.wf(),
                self.deposit_by_account.wf(),
                c == self@,
                n == subs.key_seq().len(),
                i <= n,
                forall|j: int| 0 <= j < i ==> c.subscription_linked(#[trigger] subs.key_seq()[j]),
            decreases n - i,
        {
            let id = subs.key_at(i);
            let sub = subs.value_at(i);
            let linked = self.subscription_plan_by_id.contains_key(&sub.plan_id) && match self.subscription_ids_by_plan_id.get(&sub.plan_id) {
                Some(l) => l.contains(id),
                None => false,
            } && match self.subscriptions_per_subscriber.get(&sub.subscriber_id) {
                Some(l) => l.contains(id),
                None => false,
            } && self.deposit_by_account.contains_key(&sub.subscriber_id);
            if !linked {
                assert(c.subscriptions.contains_key(subs.key_seq()[i as int]));
                assert(!c.subscription_linked(subs.key_seq()[i as int]));
                return false;
            }
            i = i + 1;
        }
        assert forall|s: Seq<char>| #[trigger] c.subscriptions.contains_key(s) implies c.subscription_linked(s) by {
            let j = choose|j: int| 0 <= j < n && subs.key_seq()[j] == s;
            assert(c.subscription_linked(subs.key_seq()[j]));
        }
        // lists of plans
        let lists = &self.subscription_ids_by_plan_id;
        proof {
            lists.lemma_keys();
        }
        let n = lists.len();
        let mut i: usize = 0;
        while i < n
            invariant
                lists == &self.subscription_ids_by_plan_id,
                lists.wf(),
                self.subscription_by_id.wf(),
                c == self@,
                n == lists.key_seq().len(),
                i <= n,
                forall|j: int| 0 <= j < i ==> c.ids_known(c.plan_subscriptions[#[trigger] lists.key_seq()[j]])
                    && c.ids_of_plan(lists.key_seq()[j], c.plan_subscriptions[lists.key_seq()[j]]),
            decreases n - i,
        {
            let key = lists.key_at(i);
            let l = lists.value_at(i);
            if !self.list_known(key, l, true) {
                assert(c.plan_subscriptions.contains_key(lists.key_seq()[i as int]));
                return false;
            }
            i = i + 1;
        }
        assert forall|p: Seq<char>| #[trigger] c.plan_subscriptions.contains_key(p) implies c.ids_known(c.plan_subscriptions[p])
            && c.ids_of_plan(p, c.plan_subscriptions[p]) by {
            let j = choose|j: int| 0 <= j < n && lists.key_seq()[j] == p;
            assert(c.ids_known(c.plan_subscriptions[lists.key_seq()[j]]));
        }
        // lists of subscribers
        let lists = &self.subscriptions_per_subscriber;
        proof {
            lists.lemma_keys();
        }
        let n = lists.len();
        let mut i: usize = 0;
        while i < n
            invariant
                lists == &self.subscriptions_per_subscriber,
                lists.wf(),
                self.subscription_by_id.wf(),
                c == self@,
                n == lists.key_seq().len(),
                i <= n,
                forall|j: int| 0 <= j < i ==> c.ids_known(c.subscriber_subscriptions[#[trigger] lists.key_seq()[j]])
                    && c.ids_of_subscriber(lists.key_seq()[j], c.subscriber_subscriptions[lists.key_seq()[j]]),
            decreases n - i,
        {
            let key = lists.key_at(i);
            let l = lists.value_at(i);
            if !self.list_known(key, l, false) {
                assert(c.subscriber_subscriptions.contains_key(lists.key_seq()[i as int]));
                return false;
            }
            i = i + 1;
        }
        assert forall|a: Seq<char>| #[trigger] c.subscriber_subscriptions.contains_key(a) implies c.ids_known(c.subscriber_subscriptions[a])
            && c.ids_of_subscriber(a, c.subscriber_subscriptions[a]) by {
            let j = choose|j: int| 0 <= j < n && lists.key_seq()[j] == a;
            assert(c.ids_known(c.subscriber_subscriptions[lists.key_seq()[j]]));
        }
        true
    }

    /// The lists of identifiers of `entries` as lists of the contract.
    fn id_lists(entries: &Vec<(String, Vec<String>)>) -> (r: Vec<(String, IdList)>)
        ensures
            entry_keys(r@) == entry_keys(entries@),
            entry_views(r@) == list_views(entries@),
    {
        let n = entries.len();
        let mut out: Vec<(String, IdList)> = Vec::new();
        let mut i: usize = 0;
        while i < n
            invariant
                n == entries@.len(),
                i <= n,
                out@.len() == i,
                forall|j: int| 0 <= j < i ==> (#[trigger] out@[j]).0@ == entries@[j].0@
                    && out@[j].1@ == string_views(entries@[j].1@),
            decreases n - i,
        {
            out.push((entries[i].0.clone(), IdList::from_strings(&entries[i].1)));
            i = i + 1;
        }
        assert(entry_keys(out@) =~= entry_keys(entries@));
        assert(entry_views(out@) =~= list_views(entries@));
        out
    }

    /// The entries of lists of identifiers, as plain strings.
    fn id_strings(entries: &Vec<(String, IdList)>) -> (r: Vec<(String, Vec<String>)>)
        ensures
            entry_keys(r@) == entry_keys(entries@),
            list_views(r@) == entry_views(entries@),
    {
        let n = entries.len();
        let mut out: Vec<(String, Vec<String>)> = Vec::new();
        let mut i: usize = 0;
        while i < n
            invariant
                n == entries@.len(),
                i <= n,
                out@.len() == i,
                forall|j: int| 0 <= j < i ==> (#[trigger] out@[j]).0@ == entries@[j].0@
                    && string_views(out@[j].1@) == entries@[j].1@,
            decreases n - i,
        {
            out.push((entries[i].0.clone(), entries[i].1.to_strings()));
            i = i + 1;
        }
        assert(entry_keys(out@) =~= entry_keys(entries@));
        assert(list_views(out@) =~= entry_views(entries@));
        out
    }

    /// The state as plain lists of entries, to be stored.
    pub fn to_parts(&self) -> (parts: ContractParts)
        requires
            self.wf(),
        ensures
            parts_acceptable(parts),
            parts_model(parts) == self@,
    {
        let plans = self.subscription_plan_by_id.entries();
        let subscriptions = self.subscription_by_id.entries();
        let plan_subscriptions = Self::id_strings(&self.subscription_ids_by_plan_id.entries());
        let subscriber_subscriptions = Self::id_strings(&self.subscriptions_per_subscriber.entries());
        let deposits = self.deposit_by_account.entries();
        let parts = ContractParts {
            owner: self.owner.clone(),
            plans,
            subscriptions,
            plan_subscriptions,
            subscriber_subscriptions,
            deposits,
        };
        proof {
            self.subscription_plan_by_id.lemma_keys();
            self.subscription_by_id.lemma_keys();
            self.subscription_ids_by_plan_id.lemma_keys();
            self.subscriptions_per_subscriber.lemma_keys();
            self.deposit_by_account.lemma_keys();
        }
        assert(parts_model(parts) =~= self@);
        parts
    }

    /// The contract whose state `parts` describes, unless a key occurs twice
    /// in a list or the state breaks the invariant.
    pub fn from_parts(parts: &ContractParts) -> (r: Option<Contract>)
        ensures
            match r {
                Some(c) => parts_acceptable(*parts) && c.wf() && c@ == parts_model(*parts),
                None => !parts_acceptable(*parts),
            },
    {
        let plans = match StrMap::from_entries(&parts.plans) {
            Some(m) => m,
            None => return None,
        };
        let subs = match StrMap::from_entries(&parts.subscriptions) {
            Some(m) => m,
            None => return None,
        };
        let plan_lists = match StrMap::from_entries(&Self::id_lists(&parts.plan_subscriptions)) {
            Some(m) => m,
            None => return None,
        };
        let subscriber_lists = match StrMap::from_entries(&Self::id_lists(&parts.subscriber_subscriptions)) {
            Some(m) => m,
            None => return None,
        };
        let deposits = match StrMap::from_entries(&parts.deposits) {
            Some(m) => m,
            None => return None,
        };
        let c = Contract {
            owner: parts.owner.clone(),
            subscription_plan_by_id: plans,
            subscription_by_id: subs,
            subscription_ids_by_plan_id: plan_lists,
            subscriptions_per_subscriber: subscriber_lists,
            deposit_by_account: deposits,
        };
        assert(c@ =~= parts_model(*parts));
        if c.valid_state() {
            Some(c)
        } else {
            None
        }
    }

    /// The list `ids` without the subscriptions that pruning removes.
    fn pruned_ids(&self, ids: &IdList) -> (r: IdList)
        requires
            self.wf(),
        ensures
            r@ == filter_ids(ids@, self@.keeper()),
    {
        let ghost all = ids@;
        let ghost keep = self@.keeper();
        let n = ids.len();
        let mut kept = IdList::new();
        let mut i: usize = 0;
        while i < n
            invariant
                self.wf(),
                all == ids@,
                keep == (self@.keeper()),
                n == all.len(),
                i <= n,
                kept@ == filter_ids(all.take(i as int), keep),
            decreases n - i,
        {
            assert(all.take(i + 1).drop_last() =~= all.take(i as int));
            assert(all.take(i + 1).last() == all[i as int]);
            let id = ids.get(i);
            let keeps = match self.subscription_by_id.get(id) {
                Some(s) => match s.state {
                    SubscriptionState::Invalid => false,
                    _ => true,
                },
                None => false,
            };
            if keeps {
                kept.push(id.clone());
            }
            i = i + 1;
        }
        assert(all.take(n as int) =~= all);
        kept
    }

    /// The lists of `lists` without the subscriptions that pruning removes.
    fn pruned_lists(&self, lists: &StrMap<IdList>) -> (r: StrMap<IdList>)
        requires
            self.wf(),
            lists.wf(),
        ensures
            r.wf(),
            r@ == Map::new(
                |k: Seq<char>| lists@.contains_key(k),
                |k: Seq<char>| filter_ids(lists@[k], self@.keeper()),
            ),
    {
        let ghost keys = lists.key_seq();
        proof {
            lists.lemma_keys();
        }
        let n = lists.len();
        let mut out: StrMap<IdList> = StrMap::new();
        let mut i: usize = 0;
        while i < n
            invariant
                self.wf(),
                lists.wf(),
                keys == lists.key_seq(),
                keys.no_duplicates(),
                forall|k: Seq<char>| #[trigger] lists@.contains_key(k) <==> keys.contains(k),
                n == keys.len(),
                i <= n,
                out.wf(),
                out@ == Map::new(
                    |k: Seq<char>| keys.take(i as int).contains(k),
                    |k: Seq<char>| filter_ids(lists@[k], self@.keeper()),
                ),
            decreases n - i,
        {
            let k = lists.key_at(i);
            let l = lists.value_at(i);
            let pl = self.pruned_ids(l);
            let ghost before = out@;
            out.insert(k.clone(), pl);
            proof {
                lemma_take_one_more(keys, i as int);
            }
            assert(out@ =~= Map::new(
                |k: Seq<char>| keys.take(i + 1).contains(k),
                |k: Seq<char>| filter_ids(lists@[k], self@.keeper()),
            ));
            i = i + 1;
        }
        assert(keys.take(n as int) =~= keys);
        assert(out@ =~= Map::new(
            |k: Seq<char>| lists@.contains_key(k),
            |k: Seq<char>| filter_ids(lists@[k], self@.keeper()),
        ));
        out
    }

    /// The subscriptions that pruning keeps.
    fn kept_subscriptions(&self) -> (r: StrMap<Subscription>)
        requires
            self.wf(),
        ensures
            r.wf(),
            r@ == Map::new(|id: Seq<char>| self@.keeps(id), |id: Seq<char>| self@.subscriptions[id]),
    {
        let subs = &self.subscription_by_id;
        let ghost keys = subs.key_seq();
        proof {
            subs.lemma_keys();
        }
        let n = subs.len();
        let mut out: StrMap<Subscription> = StrMap::new();
        let mut i: usize = 0;
        while i < n
            invariant
                self.wf(),
                subs == &self.subscription_by_id,
                keys == subs.key_seq(),
                keys.no_duplicates(),
                forall|k: Seq<char>| #[trigger] subs@.contains_key(k) <==> keys.contains(k),
                n == keys.len(),
                i <= n,
                out.wf(),
                out@ == Map::new(
                    |k: Seq<char>| keys.take(i as int).contains(k) && self@.keeps(k),
                    |k: Seq<char>| self@.subscriptions[k],
                ),
            decreases n - i,
        {
            let k = subs.key_at(i);
            let v = subs.value_at(i);
            proof {
                lemma_take_one_more(keys, i as int);
            }
            let valid_sub = match v.state {
                SubscriptionState::Invalid => false,
                _ => true,
            };
            if valid_sub {
                out.insert(k.clone(), v.duplicate());
            }
            assert(out@ =~= Map::new(
                |q: Seq<char>| keys.take(i + 1).contains(q) && self@.keeps(q),
                |q: Seq<char>| self@.subscriptions[q],
            ));
            i = i + 1;
        }
        assert(keys.take(n as int) =~= keys);
        assert(out@ =~= Map::new(|id: Seq<char>| self@.keeps(id), |id: Seq<char>| self@.subscriptions[id]));
        out
    }

    /// Removes the invalid subscriptions from storage, and their identifiers
    /// from the lists of their plans and subscribers.
    pub fn prune_subscriptions(&mut self)
        requires
            old(self).wf(),
        ensures
            final(self).wf(),
            final(self)@ == old(self)@.pruned(),
    {
        let subs = self.kept_subscriptions();
        let plan_lists = self.pruned_lists(&self.subscription_ids_by_plan_id);
        let subscriber_lists = self.pruned_lists(&self.subscriptions_per_subscriber);
        proof {
            old(self)@.lemma_pruned_valid();
        }
        self.subscription_by_id = subs;
        self.subscription_ids_by_plan_id = plan_lists;
        self.subscriptions_per_subscriber = subscriber_lists;
        assert(self@ =~= old(self)@.pruned());
    }
}

/// A state whose invariant can be required by the actions on it.
pub trait ContractState {
    /// The state keeps its invariant.
    spec fn well_formed(&self) -> bool;

    /// The mathematical model of the state.
    spec fn model(&self) -> ContractView;
}

impl ContractState for Contract {
    open spec fn well_formed(&self) -> bool {
        self.wf()
    }

    open spec fn model(&self) -> ContractView {
        self@
    }
}

/// The actions of a subscriber.
pub trait SubscriberActions: ContractState {
    /// Subscribes `caller` to the plan `plan_id` at `now`.
    fn create_subscription(&mut self, plan_id: String, caller: &String, now: u64) -> (r: Result<String, ContractError>)
        requires
            old(self).well_formed(),
        ensures
            final(self).well_formed(),
            match old(self).model().subscribed(plan_id@, caller@, now) {
                Ok((c, id)) => r is Ok && r.unwrap()@ == id && final(self).model() == c,
                Err(e) => r == Err::<String, ContractError>(e) && final(self).model() == old(self).model(),
            },
    ;

    /// Adds `amount` to the deposit of `subscriber_id`; anyone may deposit for anyone.
    fn deposit(&mut self, subscriber_id: String, amount: u128) -> (r: Result<(), ContractError>)
        requires
            old(self).well_formed(),
        ensures
            final(self).well_formed(),
            match old(self).model().deposit_made(subscriber_id@, amount) {
                Ok(c) => r is Ok && final(self).model() == c,
                Err(e) => r == Err::<(), ContractError>(e) && final(self).model() == old(self).model(),
            },
    ;

    /// Pays `amount` of the unlocked deposit of `caller` back to it, or all of
    /// it when no amount is given.
    fn withdraw(&mut self, amount: Option<u128>, caller: &String, now: u64) -> (r: Result<Transfer, ContractError>)
        requires
            old(self).well_formed(),
        ensures
            final(self).well_formed(),
            match old(self).model().withdrawal(amount, caller@, now) {
                Ok((c, paid)) => r is Ok && r.unwrap()@.receiver_id == caller@ && r.unwrap()@.amount == paid
                    && final(self).model() == c,
                Err(e) => r is Err && r == Err::<Transfer, ContractError>(e) && final(self).model() == old(self).model(),
            },
    ;
}

impl SubscriberActions for Contract {
    fn create_subscription(&mut self, plan_id: String, caller: &String, now: u64) -> (r: Result<String, ContractError>) {
        let rate: u128 = match self.subscription_plan_by_id.get(&plan_id) {
            Some(p) => p.payment_cycle_rate,
            None => return Err(ContractError::NoSuchPlan),
        };
        let valid_deposit = self.get_unlocked_deposit(caller, now)?;
        if valid_deposit < rate {
            return Err(ContractError::DepositBelowFirstPayment { rate });
        }
        let subscription_id = derive_id(caller, now);
        let ghost c0 = self@;
        let ghost old_sub = c0.subscriptions[subscription_id@];
        let ghost existed = c0.subscriptions.contains_key(subscription_id@);
        // a subscription that had this identifier leaves the lists of its plan
        // and subscriber where the new one belongs elsewhere
        let (old_plan, old_subscriber): (Option<String>, Option<String>) = match self.subscription_by_id.get(&subscription_id) {
            Some(s) => (Some(s.plan_id.clone()), Some(s.subscriber_id.clone())),
            None => (None, None),
        };
        if let Some(p) = old_plan {
            if !(p == plan_id) {
                let moved = match self.subscription_ids_by_plan_id.get(&p) {
                    Some(l) => {
                        let mut l2 = l.duplicate();
                        l2.remove(&subscription_id);
                        Some(l2)
                    },
                    None => None,
                };
                if let Some(l2) = moved {
                    self.subscription_ids_by_plan_id.insert(p, l2);
                }
            }
        }
        assert(self@.plan_subscriptions =~= ContractView::unlisted(
            c0.plan_subscriptions,
            old_sub.plan_id,
            existed && old_sub.plan_id != plan_id@,
            subscription_id@,
        ));
        if let Some(a) = old_subscriber {
            if !(a == *caller) {
                let moved = match self.subscriptions_per_subscriber.get(&a) {
                    Some(l) => {
                        let mut l2 = l.duplicate();
                        l2.remove(&subscription_id);
                        Some(l2)
                    },
                    None => None,
                };
                if let Some(l2) = moved {
                    self.subscriptions_per_subscriber.insert(a, l2);
                }
            }
        }
        assert(self@.subscriber_subscriptions =~= ContractView::unlisted(
            c0.subscriber_subscriptions,
            old_sub.subscriber_id,
            existed && old_sub.subscriber_id != caller@,
            subscription_id@,
        ));
        let new_subscription = Subscription {
            subscriber_id: caller.clone(),
            plan_id: plan_id.clone(),
            state: SubscriptionState::Active { ts: now },
            prev_charge_ts: 0,
            payments_charged: 0,
        };
        proof {
            c0.lemma_subscribed_valid(plan_id@, caller@, now);
        }
        self.subscription_by_id.insert(subscription_id.clone(), new_subscription);
        let mut plan_ids = match self.subscription_ids_by_plan_id.get(&plan_id) {
            Some(l) => l.duplicate(),
            None => IdList::new(),
        };
        plan_ids.insert(subscription_id.clone());
        self.subscription_ids_by_plan_id.insert(plan_id, plan_ids);
        let mut subscriber_ids = match self.subscriptions_per_subscriber.get(caller) {
            Some(l) => l.duplicate(),
            None => IdList::new(),
        };
        subscriber_ids.insert(subscription_id.clone());
        self.subscriptions_per_subscriber.insert(caller.clone(), subscriber_ids);
        assert(self@ =~= old(self)@.subscribed(plan_id@, caller@, now).unwrap().0);
        Ok(subscription_id)
    }

    fn deposit(&mut self, subscriber_id: String, amount: u128) -> (r: Result<(), ContractError>) {
        if amount == 0 {
            return Err(ContractError::DepositNotPositive);
        }
        let balance: u128 = match self.deposit_by_account.get(&subscriber_id) {
            Some(b) => *b,
            None => 0,
        };
        let new_balance = match balance.checked_add(amount) {
            Some(b) => b,
            None => return Err(ContractError::Overflow),
        };
        proof {
            old(self)@.lemma_deposit_set(subscriber_id@, new_balance);
        }
        let ghost account = subscriber_id@;
        self.deposit_by_account.insert(subscriber_id, new_balance);
        assert(self@ =~= old(self)@.with_deposit(account, new_balance));
        Ok(())
    }

    fn withdraw(&mut self, amount: Option<u128>, caller: &String, now: u64) -> (r: Result<Transfer, ContractError>) {
        let withdrawable_fund = self.get_unlocked_deposit(caller, now)?;
        let asking_amount: u128 = match amount {
            Some(a) => a,
            None => withdrawable_fund,
        };
        if withdrawable_fund < asking_amount {
            return Err(ContractError::NotEnoughFund);
        }
        let balance: u128 = match self.deposit_by_account.get(caller) {
            Some(b) => *b,
            None => {
                assert(false);
                return Err(ContractError::NoDeposit);
            },
        };
        let new_balance = balance.saturating_sub(asking_amount);
        proof {
            old(self)@.lemma_deposit_set(caller@, new_balance);
        }
        self.deposit_by_account.insert(caller.clone(), new_balance);
        assert(self@ =~= old(self)@.with_deposit(caller@, new_balance));
        Ok(Transfer { receiver_id: caller.clone(), amount: asking_amount })
    }
}

/// The actions of a provider.
pub trait ProviderActions: ContractState {
    /// Creates a plan on behalf of `caller` at `now`, owned by `provider_id`
    /// or, when none is given, by the caller.
    fn create_subscription_plan(
        &mut self,
        provider_id: Option<String>,
        payment_cycle_length: u64,
        payment_cycle_rate: u128,
        payment_cycle_count: u64,
        plan_name: Option<String>,
        caller: &String,
        now: u64,
    ) -> (r: Result<String, ContractError>)
        requires
            old(self).well_formed(),
        ensures
            final(self).well_formed(),
            match old(self).model().plan_created(
                opt_view(provider_id),
                payment_cycle_length,
                payment_cycle_rate,
                payment_cycle_count,
                opt_view(plan_name),
                caller@,
                now,
            ) {
                Ok((c, id)) => r is Ok && r.unwrap()@ == id && final(self).model() == c,
                Err(e) => r == Err::<String, ContractError>(e) && final(self).model() == old(self).model(),
            },
    ;
    /// Collects the fees of the subscriptions of the plan `plan_id` on behalf
    /// of `caller` at `now`, and pays their total to the plan's provider.
    /// Lists each subscription with the amount charged for it.
    fn collect_fees(&mut self, plan_id: String, charge_ts: Option<u64>, caller: &String, now: u64) -> (r: Result<(Vec<(String, u128)>, Transfer), ContractError>)
        requires
            old(self).well_formed(),
        ensures
            final(self).well_formed(),
            match old(self).model().fees_collected(plan_id@, charge_ts, caller@, now) {
                Ok((c, listed, total)) => {
                    &&& r is Ok
                    &&& final(self).model() == c
                    &&& r.unwrap().0@.len() == listed.len()
                    &&& forall|i: int| 0 <= i < listed.len() ==> {
                        &&& (#[trigger] r.unwrap().0@[i]).0@ == listed[i].0
                        &&& r.unwrap().0@[i].1 == listed[i].1
                    }
                    &&& r.unwrap().1@.receiver_id == old(self).model().plans[plan_id@].provider_id
                    &&& r.unwrap().1@.amount == total
                },
                Err(e) => r is Err && r == Err::<(Vec<(String, u128)>, Transfer), ContractError>(e)
                    && final(self).model() == old(self).model(),
            },
    ;
}

impl ProviderActions for Contract {
    fn create_subscription_plan(
        &mut self,
        provider_id: Option<String>,
        payment_cycle_length: u64,
        payment_cycle_rate: u128,
        payment_cycle_count: u64,
        plan_name: Option<String>,
        caller: &String,
        now: u64,
    ) -> (r: Result<String, ContractError>) {
        let provider: String = match provider_id {
            Some(p) => p,
            None => caller.clone(),
        };
        if payment_cycle_length < MIN_PAYMENT_CYCLE_LENGTH {
            return Err(ContractError::CycleTooShort);
        }
        if payment_cycle_rate == 0 {
            return Err(ContractError::RateNotPositive);
        }
        let plan_id = derive_id(&provider, now);
        let a_plan = SubscriptionPlan {
            provider_id: provider,
            payment_cycle_length,
            payment_cycle_rate,
            payment_cycle_count,
            plan_name,
        };
        let ghost c1 = old(self)@;
        self.subscription_plan_by_id.insert(plan_id.clone(), a_plan);
        proof {
            let c2 = self@;
            assert forall|p: Seq<char>| #[trigger] c2.plans.contains_key(p) implies plan_admissible(c2.plans[p]) by {
                if p != plan_id@ {
                    assert(c1.plans.contains_key(p));
                }
            }
            assert forall|s: Seq<char>| #[trigger] c2.subscriptions.contains_key(s) implies c2.subscription_linked(s) by {
                assert(c1.subscription_linked(s));
            }
            assert forall|p: Seq<char>| #[trigger] c2.plan_subscriptions.contains_key(p) implies c2.ids_known(c2.plan_subscriptions[p]) by {
                assert(c1.ids_known(c1.plan_subscriptions[p]));
            }
            assert forall|a: Seq<char>| #[trigger] c2.subscriber_subscriptions.contains_key(a) implies c2.ids_known(c2.subscriber_subscriptions[a]) by {
                assert(c1.ids_known(c1.subscriber_subscriptions[a]));
            }
        }
        assert(self@ =~= c1.plan_created(
            opt_view(provider_id),
            payment_cycle_length,
            payment_cycle_rate,
            payment_cycle_count,
            opt_view(plan_name),
            caller@,
            now,
        ).unwrap().0);
        Ok(plan_id)
    }

    fn collect_fees(&mut self, plan_id: String, charge_ts: Option<u64>, caller: &String, now: u64) -> (r: Result<(Vec<(String, u128)>, Transfer), ContractError>) {
        let charge_end: u64 = match charge_ts {
            Some(t) => t,
            None => now,
        };
        if charge_end > now {
            return Err(ContractError::ChargeInFuture);
        }
        let provider: String = match self.subscription_plan_by_id.get(&plan_id) {
            Some(p) => p.provider_id.clone(),
            None => return Err(ContractError::NoSuchPlan),
        };
        let subscription_ids = match self.subscription_ids_by_plan_id.get(&plan_id) {
            Some(l) => l.duplicate(),
            None => return Err(ContractError::NoExistingSubscriptions),
        };
        let ghost c0 = self@;
        let ghost all = subscription_ids@;
        let mut work = self.duplicate();
        let mut total_fees: u128 = 0;
        let mut result: Vec<(String, u128)> = Vec::new();
        let ghost mut listed: Seq<(Seq<char>, u128)> = Seq::empty();
        let n = subscription_ids.len();
        let mut i: usize = 0;
        assert(all.take(0) =~= Seq::<Seq<char>>::empty());
        while i < n
            invariant
                work.wf(),
                self.wf(),
                self@ == c0,
                c0.fees_collected(plan_id@, charge_ts, caller@, now) == c0.collect_all(all, caller@, now),
                c0.plan_subscriptions.contains_key(plan_id@),
                all == c0.plan_subscriptions[plan_id@],
                all == subscription_ids@,
                n == all.len(),
                i <= n,
                work@.plans == c0.plans,
                work@.plan_subscriptions == c0.plan_subscriptions,
                c0.collect_all(all.take(i as int), caller@, now) == Ok::<(ContractView, Seq<(Seq<char>, u128)>, u128), ContractError>((work@, listed, total_fees)),
                result@.len() == listed.len(),
                forall|j: int| 0 <= j < listed.len() ==> {
                    &&& (#[trigger] result@[j]).0@ == listed[j].0
                    &&& result@[j].1 == listed[j].1
                },
            decreases n - i,
        {
            let subscription_id = subscription_ids.get(i);
            assert(all.take(i + 1).drop_last() =~= all.take(i as int));
            assert(all.take(i + 1).last() == all[i as int]);
            assert(work@.ids_known(work@.plan_subscriptions[plan_id@]));
            assert(work@.subscriptions.contains_key(all[i as int]));
            match work.collect_step(subscription_id, total_fees, caller, now) {
                Ok((amount, new_total)) => {
                    total_fees = new_total;
                    result.push((subscription_id.clone(), amount));
                    proof {
                        listed = listed.push((all[i as int], amount));
                    }
                },
                Err(e) => {
                    proof {
                        Self::lemma_collect_all_stops(c0, all, i as int, caller@, now);
                    }
                    return Err(e);
                },
            }
            i = i + 1;
        }
        assert(all.take(n as int) =~= all);
        *self = work;
        Ok((result, Transfer { receiver_id: provider, amount: total_fees }))
    }
}

} // verus!
