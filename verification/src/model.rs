//! The mathematical model of the contract: its state as maps and sequences,
//! the invariant of that state, and what each call returns and leaves behind.

use vstd::prelude::*;
use crate::fees::{spec_incurred_cost, spec_next_payment_due, spec_payments_after_charge};
use crate::ids::spec_derive_id;
use crate::store::{entry_keys, entry_views, keyed_map, string_views};
use crate::types::{ContractError, ContractParts, PlanView, SubscriptionState, SubscriptionView};

verus! {

/// The shortest payment cycle that a plan may have.
pub const MIN_PAYMENT_CYCLE_LENGTH: u64 = 60;

/// The view of the contract's state.
#[verifier::ext_equal]
pub struct ContractView {
    /// The owner of the service.
    pub owner: Seq<char>,
    /// The plans, by identifier.
    pub plans: Map<Seq<char>, PlanView>,
    /// The subscriptions, by identifier.
    pub subscriptions: Map<Seq<char>, SubscriptionView>,
    /// The identifiers of the subscriptions made to each plan, in order.
    pub plan_subscriptions: Map<Seq<char>, Seq<Seq<char>>>,
    /// The identifiers of the subscriptions made by each subscriber, in order.
    pub subscriber_subscriptions: Map<Seq<char>, Seq<Seq<char>>>,
    /// The deposit of each account.
    pub deposits: Map<Seq<char>, u128>,
}

/// A plan as `create_subscription_plan` admits it.
pub open spec fn plan_admissible(plan: PlanView) -> bool {
    &&& plan.payment_cycle_length >= MIN_PAYMENT_CYCLE_LENGTH
    &&& plan.payment_cycle_rate > 0
}

/// `a - b`, or 0 where `b` exceeds `a`.
pub open spec fn saturating_diff(a: int, b: int) -> int {
    if a >= b { a - b } else { 0 }
}

/// `ids` with `id` added at the end, unless it is there already.
pub open spec fn with_id(ids: Seq<Seq<char>>, id: Seq<char>) -> Seq<Seq<char>> {
    if ids.contains(id) { ids } else { ids.push(id) }
}

/// Whether the entry `j` is charged before the entry `t`: it falls due
/// earlier, or at the same time and comes earlier.
pub open spec fn charged_before(entries: Seq<(u64, u128)>, j: int, t: int) -> bool {
    entries[j].0 < entries[t].0 || (entries[j].0 == entries[t].0 && j < t)
}

/// The identifiers of `ids` that `keep` holds of, in order.
pub open spec fn filter_ids(ids: Seq<Seq<char>>, keep: spec_fn(Seq<char>) -> bool) -> Seq<Seq<char>>
    decreases ids.len(),
{
    if ids.len() == 0 {
        Seq::empty()
    } else if keep(ids.last()) {
        filter_ids(ids.drop_last(), keep).push(ids.last())
    } else {
        filter_ids(ids.drop_last(), keep)
    }
}

/// Whether an identifier differs from `id`.
pub open spec fn other_than(id: Seq<char>) -> spec_fn(Seq<char>) -> bool {
    |x: Seq<char>| x != id
}

/// `ids` without `id`.
pub open spec fn without_id(ids: Seq<Seq<char>>, id: Seq<char>) -> Seq<Seq<char>> {
    filter_ids(ids, other_than(id))
}

/// An element of the first `i + 1` elements of `s` is one of the first `i`, or the element at `i`.
pub proof fn lemma_take_one_more<A>(s: Seq<A>, i: int)
    requires
        0 <= i < s.len(),
    ensures
        forall|q: A| #[trigger] s.take(i + 1).contains(q) <==> (s.take(i).contains(q) || q == s[i]),
{
    assert forall|q: A| #[trigger] s.take(i + 1).contains(q) <==> (s.take(i).contains(q) || q == s[i]) by {
        if s.take(i + 1).contains(q) {
            let j = choose|j: int| 0 <= j < i + 1 && #[trigger] s.take(i + 1)[j] == q;
            if j < i {
                assert(s.take(i)[j] == q);
            }
        }
        if s.take(i).contains(q) {
            let j = choose|j: int| 0 <= j < i && #[trigger] s.take(i)[j] == q;
            assert(s.take(i + 1)[j] == q);
        }
        if q == s[i] {
            assert(s.take(i + 1)[i] == q);
        }
    }
}

/// The identifiers kept are those of `ids` that `keep` holds of, and a list
/// without repetitions stays so.
pub proof fn lemma_filter_ids(ids: Seq<Seq<char>>, keep: spec_fn(Seq<char>) -> bool)
    ensures
        forall|i: int| 0 <= i < filter_ids(ids, keep).len() ==> ids.contains(#[trigger] filter_ids(ids, keep)[i])
            && keep(filter_ids(ids, keep)[i]),
        forall|x: Seq<char>| #[trigger] filter_ids(ids, keep).contains(x) <==> (ids.contains(x) && keep(x)),
        ids.no_duplicates() ==> filter_ids(ids, keep).no_duplicates(),
    decreases ids.len(),
{
    if ids.len() > 0 {
        let rest = ids.drop_last();
        let r = filter_ids(rest, keep);
        lemma_filter_ids(rest, keep);
        let f = filter_ids(ids, keep);
        assert forall|i: int| 0 <= i < f.len() implies ids.contains(#[trigger] f[i]) && keep(f[i]) by {
            if i < r.len() {
                assert(rest.contains(r[i]));
                let k = choose|k: int| 0 <= k < rest.len() && rest[k] == r[i];
                assert(ids[k] == r[i]);
            } else {
                assert(ids[ids.len() - 1] == f[i]);
            }
        }
        assert forall|x: Seq<char>| #[trigger] f.contains(x) <==> (ids.contains(x) && keep(x)) by {
            if f.contains(x) {
                let k = choose|k: int| 0 <= k < f.len() && f[k] == x;
                assert(ids.contains(f[k]) && keep(f[k]));
            }
            if ids.contains(x) && keep(x) {
                let k = choose|k: int| 0 <= k < ids.len() && ids[k] == x;
                if k < ids.len() - 1 {
                    assert(rest[k] == x);
                    assert(r.contains(x));
                    let m = choose|m: int| 0 <= m < r.len() && r[m] == x;
                    assert(f[m] == x);
                } else {
                    assert(f[f.len() - 1] == x);
                }
            }
        }
        if ids.no_duplicates() {
            assert(rest.no_duplicates());
            if keep(ids.last()) {
                assert(!r.contains(ids.last())) by {
                    if r.contains(ids.last()) {
                        let k = choose|k: int| 0 <= k < rest.len() && rest[k] == ids.last();
                        assert(ids[k] == ids[ids.len() - 1]);
                    }
                }
                assert forall|i: int, j: int| 0 <= i < f.len() && 0 <= j < f.len() && i != j implies f[i] != f[j] by {
                    if i == f.len() - 1 || j == f.len() - 1 {
                        if i < r.len() { assert(r.contains(r[i])); }
                        if j < r.len() { assert(r.contains(r[j])); }
                    }
                }
            }
        }
    }
}

/// The sum of the fees of the first `n` entries that are charged before the entry `t`.
pub open spec fn fees_charged_before(entries: Seq<(u64, u128)>, t: int, n: int) -> int
    decreases n,
{
    if n <= 0 {
        0
    } else {
        fees_charged_before(entries, t, n - 1) + if charged_before(entries, n - 1, t) {
            entries[n - 1].1 as int
        } else {
            0
        }
    }
}

impl ContractView {
    /// Every identifier of `ids` names a subscription, and none occurs twice.
    pub open spec fn ids_known(self, ids: Seq<Seq<char>>) -> bool {
        &&& ids.no_duplicates()
        &&& forall|i: int| 0 <= i < ids.len() ==> self.subscriptions.contains_key(#[trigger] ids[i])
    }

    /// What the subscription `id` refers to exists, and the subscription is
    /// listed under its plan and under its subscriber, who has a deposit.
    pub open spec fn subscription_linked(self, id: Seq<char>) -> bool {
        let sub = self.subscriptions[id];
        &&& self.plans.contains_key(sub.plan_id)
        &&& self.plan_subscriptions.contains_key(sub.plan_id)
        &&& self.plan_subscriptions[sub.plan_id].contains(id)
        &&& self.subscriber_subscriptions.contains_key(sub.subscriber_id)
        &&& self.subscriber_subscriptions[sub.subscriber_id].contains(id)
        &&& self.deposits.contains_key(sub.subscriber_id)
    }

    /// Every subscription of `ids` is one to the plan `plan_id`.
    pub open spec fn ids_of_plan(self, plan_id: Seq<char>, ids: Seq<Seq<char>>) -> bool {
        forall|i: int| 0 <= i < ids.len() ==> self.subscriptions[#[trigger] ids[i]].plan_id == plan_id
    }

    /// Every subscription of `ids` is one of the subscriber `account`.
    pub open spec fn ids_of_subscriber(self, account: Seq<char>, ids: Seq<Seq<char>>) -> bool {
        forall|i: int| 0 <= i < ids.len() ==> self.subscriptions[#[trigger] ids[i]].subscriber_id == account
    }

    /// The invariant of the contract's state: plans are admissible, every
    /// subscription is linked, and each list names only existing subscriptions
    /// of its own plan or subscriber, each once.
    pub open spec fn valid(self) -> bool {
        &&& forall|p: Seq<char>| #[trigger] self.plans.contains_key(p) ==> plan_admissible(self.plans[p])
        &&& forall|s: Seq<char>| #[trigger] self.subscriptions.contains_key(s) ==> self.subscription_linked(s)
        &&& forall|p: Seq<char>| #[trigger] self.plan_subscriptions.contains_key(p)
            ==> self.ids_known(self.plan_subscriptions[p]) && self.ids_of_plan(p, self.plan_subscriptions[p])
        &&& forall|a: Seq<char>| #[trigger] self.subscriber_subscriptions.contains_key(a)
            ==> self.ids_known(self.subscriber_subscriptions[a])
                && self.ids_of_subscriber(a, self.subscriber_subscriptions[a])
    }

    /// The state with the subscription `id` set to `sub`.
    pub open spec fn with_subscription(self, id: Seq<char>, sub: SubscriptionView) -> ContractView {
        ContractView { subscriptions: self.subscriptions.insert(id, sub), ..self }
    }

    /// The state with the deposit of `account` set to `amount`.
    pub open spec fn with_deposit(self, account: Seq<char>, amount: u128) -> ContractView {
        ContractView { deposits: self.deposits.insert(account, amount), ..self }
    }

    /// What `calcuate_subscription_incurred_cost` returns.
    pub open spec fn subscription_cost(self, id: Seq<char>, end_ts: Option<u64>, now: u64) -> Result<u128, ContractError> {
        if !self.subscriptions.contains_key(id) {
            Err(ContractError::NoSuchSubscription)
        } else {
            let end = match end_ts {
                Some(e) => e,
                None => now,
            };
            if end > now {
                Err(ContractError::ChargeEndInFuture)
            } else {
                let sub = self.subscriptions[id];
                spec_incurred_cost(sub, self.plans[sub.plan_id], end)
            }
        }
    }

    /// The sum of what the subscriptions `ids` have incurred up to `now`, taken in order.
    pub open spec fn fees_sum(self, ids: Seq<Seq<char>>, now: u64) -> Result<u128, ContractError>
        decreases ids.len(),
    {
        if ids.len() == 0 {
            Ok(0)
        } else {
            match self.fees_sum(ids.drop_last(), now) {
                Err(e) => Err(e),
                Ok(total) => match self.subscription_cost(ids.last(), None, now) {
                    Err(e) => Err(e),
                    Ok(fee) => if total + fee > u128::MAX {
                        Err(ContractError::Overflow)
                    } else {
                        Ok((total + fee) as u128)
                    },
                },
            }
        }
    }

    /// What `calculate_total_fees_for_subscriber` returns.
    pub open spec fn subscriber_fees(self, account: Seq<char>, now: u64) -> Result<u128, ContractError> {
        if self.subscriber_subscriptions.contains_key(account) {
            self.fees_sum(self.subscriber_subscriptions[account], now)
        } else {
            Ok(0)
        }
    }

    /// What `get_unlocked_deposit` returns: the deposit less all incurred fees, at least 0.
    pub open spec fn unlocked_deposit(self, account: Seq<char>, now: u64) -> Result<u128, ContractError> {
        if !self.deposits.contains_key(account) {
            Err(ContractError::NoDeposit)
        } else {
            match self.subscriber_fees(account, now) {
                Err(e) => Err(e),
                Ok(fees) => Ok(saturating_diff(self.deposits[account] as int, fees as int) as u128),
            }
        }
    }

    /// What `validate_subscription` returns: whether the subscriber's deposit,
    /// less what the subscriber's other subscriptions have incurred up to
    /// `now`, covers what the subscription `id` has incurred up to `charge_ts`
    /// (or `now`).
    pub open spec fn subscription_covered(self, id: Seq<char>, charge_ts: Option<u64>, now: u64) -> Result<bool, ContractError> {
        if !self.subscriptions.contains_key(id) {
            Err(ContractError::NoSuchSubscription)
        } else {
            let account = self.subscriptions[id].subscriber_id;
            if !self.deposits.contains_key(account) {
                Err(ContractError::NoDeposit)
            } else {
                match self.subscriber_fees(account, now) {
                    Err(e) => Err(e),
                    Ok(all_fees) => match self.subscription_cost(id, None, now) {
                        Err(e) => Err(e),
                        Ok(own_fee) => match self.subscription_cost(id, charge_ts, now) {
                            Err(e) => Err(e),
                            Ok(cost) => Ok(self.deposits[account] - (all_fees - own_fee) >= cost),
                        },
                    },
                }
            }
        }
    }
    /// The state after the subscription `id` is canceled by `caller` at `now`:
    /// only an active subscription can be canceled, by its subscriber or by the
    /// provider of its plan. One that was never charged is marked as charged
    /// one cycle before its activation, so that its first cycle stays owed.
    pub open spec fn cancel(self, id: Seq<char>, caller: Seq<char>, now: u64) -> Result<ContractView, ContractError> {
        if !self.subscriptions.contains_key(id) {
            Err(ContractError::NoSuchSubscription)
        } else {
            let sub = self.subscriptions[id];
            let plan = self.plans[sub.plan_id];
            if plan.provider_id != caller && sub.subscriber_id != caller {
                Err(ContractError::NotSubscriberOrProvider)
            } else {
                match sub.state {
                    SubscriptionState::Active { ts } => {
                        if sub.prev_charge_ts == 0 && ts < plan.payment_cycle_length {
                            Err(ContractError::Overflow)
                        } else {
                            let prev = if sub.prev_charge_ts == 0 {
                                (ts - plan.payment_cycle_length) as u64
                            } else {
                                sub.prev_charge_ts
                            };
                            Ok(self.with_subscription(
                                id,
                                SubscriptionView {
                                    state: SubscriptionState::Canceled { ts: now },
                                    prev_charge_ts: prev,
                                    ..sub
                                },
                            ))
                        }
                    },
                    _ => Err(ContractError::NotActive),
                }
            }
        }
    }

    /// The state after `amount` is deposited for `account`.
    pub open spec fn deposit_made(self, account: Seq<char>, amount: u128) -> Result<ContractView, ContractError> {
        if amount == 0 {
            Err(ContractError::DepositNotPositive)
        } else {
            let balance: int = if self.deposits.contains_key(account) { self.deposits[account] as int } else { 0 };
            if balance + amount > u128::MAX {
                Err(ContractError::Overflow)
            } else {
                Ok(self.with_deposit(account, (balance + amount) as u128))
            }
        }
    }

    /// The state after `caller` withdraws `amount`, or all of the unlocked
    /// deposit when no amount is given, and the amount paid out.
    pub open spec fn withdrawal(self, amount: Option<u128>, caller: Seq<char>, now: u64) -> Result<(ContractView, u128), ContractError> {
        match self.unlocked_deposit(caller, now) {
            Err(e) => Err(e),
            Ok(withdrawable) => {
                let asking = match amount {
                    Some(a) => a,
                    None => withdrawable,
                };
                if withdrawable < asking {
                    Err(ContractError::NotEnoughFund)
                } else {
                    Ok((
                        self.with_deposit(
                            caller,
                            saturating_diff(self.deposits[caller] as int, asking as int) as u128,
                        ),
                        asking,
                    ))
                }
            },
        }
    }

    /// The state after a plan is created by `caller` at `now`, and the plan's
    /// identifier. The plan belongs to `provider_id`, or to the caller when
    /// none is given; its identifier is derived from that account and `now`.
    pub open spec fn plan_created(
        self,
        provider_id: Option<Seq<char>>,
        payment_cycle_length: u64,
        payment_cycle_rate: u128,
        payment_cycle_count: u64,
        plan_name: Option<Seq<char>>,
        caller: Seq<char>,
        now: u64,
    ) -> Result<(ContractView, Seq<char>), ContractError> {
        let provider = match provider_id {
            Some(p) => p,
            None => caller,
        };
        if payment_cycle_length < MIN_PAYMENT_CYCLE_LENGTH {
            Err(ContractError::CycleTooShort)
        } else if payment_cycle_rate == 0 {
            Err(ContractError::RateNotPositive)
        } else {
            let id = spec_derive_id(provider, now);
            let plan = PlanView {
                provider_id: provider,
                payment_cycle_length,
                payment_cycle_rate,
                payment_cycle_count,
                plan_name,
            };
            Ok((ContractView { plans: self.plans.insert(id, plan), ..self }, id))
        }
    }

    /// The identifiers listed under `key` in `lists`, none if there is no list.
    pub open spec fn listed(lists: Map<Seq<char>, Seq<Seq<char>>>, key: Seq<char>) -> Seq<Seq<char>> {
        if lists.contains_key(key) { lists[key] } else { Seq::empty() }
    }

    /// The lists `lists` with `id` taken out of the one under `key`, where `id`
    /// was listed under `key` and is to be listed elsewhere.
    pub open spec fn unlisted(lists: Map<Seq<char>, Seq<Seq<char>>>, key: Seq<char>, moved: bool, id: Seq<char>) -> Map<Seq<char>, Seq<Seq<char>>> {
        if moved && lists.contains_key(key) {
            lists.insert(key, without_id(lists[key], id))
        } else {
            lists
        }
    }

    /// The state after `caller` subscribes to `plan_id` at `now`, and the
    /// subscription's identifier, derived from the caller and `now`. The
    /// caller's unlocked deposit must cover the first payment of the plan.
    /// A subscription that had the same identifier is replaced, and taken out
    /// of the lists of its plan and subscriber where those differ.
    pub open spec fn subscribed(self, plan_id: Seq<char>, caller: Seq<char>, now: u64) -> Result<(ContractView, Seq<char>), ContractError> {
        if !self.plans.contains_key(plan_id) {
            Err(ContractError::NoSuchPlan)
        } else {
            let rate = self.plans[plan_id].payment_cycle_rate;
            match self.unlocked_deposit(caller, now) {
                Err(e) => Err(e),
                Ok(deposit) => if deposit < rate {
                    Err(ContractError::DepositBelowFirstPayment { rate })
                } else {
                    let id = spec_derive_id(caller, now);
                    let sub = SubscriptionView {
                        subscriber_id: caller,
                        plan_id,
                        state: SubscriptionState::Active { ts: now },
                        prev_charge_ts: 0,
                        payments_charged: 0,
                    };
                    let existed = self.subscriptions.contains_key(id);
                    let old = self.subscriptions[id];
                    let plan_lists = Self::unlisted(
                        self.plan_subscriptions,
                        old.plan_id,
                        existed && old.plan_id != plan_id,
                        id,
                    );
                    let subscriber_lists = Self::unlisted(
                        self.subscriber_subscriptions,
                        old.subscriber_id,
                        existed && old.subscriber_id != caller,
                        id,
                    );
                    Ok((
                        ContractView {
                            subscriptions: self.subscriptions.insert(id, sub),
                            plan_subscriptions: plan_lists.insert(
                                plan_id,
                                with_id(Self::listed(plan_lists, plan_id), id),
                            ),
                            subscriber_subscriptions: subscriber_lists.insert(
                                caller,
                                with_id(Self::listed(subscriber_lists, caller), id),
                            ),
                            ..self
                        },
                        id,
                    ))
                },
            }
        }
    }

    /// When the next payment of each subscription of `ids` falls due, and what
    /// it has incurred up to `now`, in the order of `ids`.
    pub open spec fn fund_entries(self, ids: Seq<Seq<char>>, now: u64) -> Result<Seq<(u64, u128)>, ContractError>
        decreases ids.len(),
    {
        if ids.len() == 0 {
            Ok(Seq::empty())
        } else {
            match self.fund_entries(ids.drop_last(), now) {
                Err(e) => Err(e),
                Ok(entries) => {
                    let sub = self.subscriptions[ids.last()];
                    match spec_next_payment_due(sub, self.plans[sub.plan_id]) {
                        Err(e) => Err(e),
                        Ok(due) => match self.subscription_cost(ids.last(), None, now) {
                            Err(e) => Err(e),
                            Ok(fee) => Ok(entries.push((due, fee))),
                        },
                    }
                },
            }
        }
    }

    /// What `get_available_fund_for_subscription` returns: the part of its
    /// subscriber's deposit left for the subscription `id`, and what it has
    /// incurred. The subscriber's subscriptions are charged in order of their
    /// next due time, those due at the same time in the order in which they
    /// were made; the deposit, less the fees of those charged before `id` and
    /// at least 0, is available to `id` up to its own fee.
    pub open spec fn available_fund(self, id: Seq<char>, now: u64) -> Result<(u128, u128), ContractError> {
        if !self.subscriptions.contains_key(id) {
            Err(ContractError::NoSuchSubscription)
        } else {
            let sub = self.subscriptions[id];
            let ids = self.subscriber_subscriptions[sub.subscriber_id];
            match self.fund_entries(ids, now) {
                Err(e) => Err(e),
                Ok(entries) => {
                    let t = ids.index_of(id);
                    let fee = entries[t].1;
                    let left = saturating_diff(
                        self.deposits[sub.subscriber_id] as int,
                        fees_charged_before(entries, t, entries.len() as int),
                    );
                    Ok((if left < fee { left as u128 } else { fee }, fee))
                },
            }
        }
    }

    /// Collecting the fees of the subscription `id` on behalf of `caller` at
    /// `now`, after `total` was collected from the subscriptions before it: the
    /// state after, the amount charged for the subscription, and the total
    /// collected so far. An invalid subscription is skipped. Otherwise the
    /// subscription is charged what is available to it, at most what it has
    /// incurred, and taken from the subscriber's deposit; an active one whose
    /// fund falls short is canceled at `now`. When funds are taken, the
    /// subscription is marked as charged at `now` for the cycles that it owed.
    /// One that was canceled before and whose next payment was due before `now`
    /// becomes invalid instead, and keeps its other fields as they were.
    pub open spec fn collect_step(self, id: Seq<char>, total: u128, caller: Seq<char>, now: u64) -> Result<(ContractView, u128, u128), ContractError> {
        let sub = self.subscriptions[id];
        let plan = self.plans[sub.plan_id];
        if sub.state is Invalid {
            Ok((self, 0, total))
        } else {
            match self.available_fund(id, now) {
                Err(e) => Err(e),
                Ok((available, incurred)) => {
                    let short = available < incurred;
                    let canceled = if short && sub.state is Active { self.cancel(id, caller, now) } else { Ok(self) };
                    match canceled {
                        Err(e) => Err(e),
                        Ok(c1) => {
                            let charge = if short { available } else { incurred };
                            if total + charge > u128::MAX {
                                Err(ContractError::Overflow)
                            } else {
                                let c2 = c1.with_deposit(
                                    sub.subscriber_id,
                                    saturating_diff(c1.deposits[sub.subscriber_id] as int, charge as int) as u128,
                                );
                                let new_total = (total + charge) as u128;
                                let sub1 = c1.subscriptions[id];
                                let charged = if charge > 0 {
                                    SubscriptionView {
                                        prev_charge_ts: now,
                                        payments_charged: spec_payments_after_charge(sub, plan, now),
                                        ..sub1
                                    }
                                } else {
                                    sub1
                                };
                                if sub.state is Canceled {
                                    match spec_next_payment_due(sub, plan) {
                                        Err(e) => Err(e),
                                        Ok(due) => if due < now {
                                            Ok((
                                                c2.with_subscription(
                                                    id,
                                                    SubscriptionView { state: SubscriptionState::Invalid, ..sub1 },
                                                ),
                                                charge,
                                                new_total,
                                            ))
                                        } else {
                                            Ok((c2.with_subscription(id, charged), charge, new_total))
                                        },
                                    }
                                } else {
                                    Ok((c2.with_subscription(id, charged), charge, new_total))
                                }
                            }
                        },
                    }
                },
            }
        }
    }

    /// Collecting the fees of the subscriptions `ids`, in order: the state
    /// after, each subscription with the amount charged for it, and the total collected.
    pub open spec fn collect_all(self, ids: Seq<Seq<char>>, caller: Seq<char>, now: u64) -> Result<(ContractView, Seq<(Seq<char>, u128)>, u128), ContractError>
        decreases ids.len(),
    {
        if ids.len() == 0 {
            Ok((self, Seq::empty(), 0))
        } else {
            match self.collect_all(ids.drop_last(), caller, now) {
                Err(e) => Err(e),
                Ok((c, listed, total)) => match c.collect_step(ids.last(), total, caller, now) {
                    Err(e) => Err(e),
                    Ok((c2, amount, total2)) => Ok((c2, listed.push((ids.last(), amount)), total2)),
                },
            }
        }
    }

    /// What `collect_fees` does for the plan `plan_id`, called by `caller` at
    /// `now`: the state after, each subscription of the plan with the amount
    /// charged for it, and the total, which is paid to the plan's provider.
    /// `charge_ts` may not lie after `now`.
    pub open spec fn fees_collected(self, plan_id: Seq<char>, charge_ts: Option<u64>, caller: Seq<char>, now: u64) -> Result<(ContractView, Seq<(Seq<char>, u128)>, u128), ContractError> {
        let ts = match charge_ts {
            Some(t) => t,
            None => now,
        };
        if ts > now {
            Err(ContractError::ChargeInFuture)
        } else if !self.plans.contains_key(plan_id) {
            Err(ContractError::NoSuchPlan)
        } else if !self.plan_subscriptions.contains_key(plan_id) {
            Err(ContractError::NoExistingSubscriptions)
        } else {
            self.collect_all(self.plan_subscriptions[plan_id], caller, now)
        }
    }

    /// The fee of a subscription listed among `ids` is part of their sum.
    pub proof fn lemma_fee_within_sum(self, ids: Seq<Seq<char>>, id: Seq<char>, now: u64)
        requires
            self.fees_sum(ids, now) is Ok,
            ids.contains(id),
        ensures
            self.subscription_cost(id, None, now) is Ok,
            self.subscription_cost(id, None, now).unwrap() <= self.fees_sum(ids, now).unwrap(),
        decreases ids.len(),
    {
        let rest = ids.drop_last();
        if ids.last() != id {
            let k = choose|k: int| 0 <= k < ids.len() && ids[k] == id;
            assert(rest[k] == id);
            self.lemma_fee_within_sum(rest, id, now);
        }
    }

    /// The entries of the fund of `ids` are, in order, the due times and fees of `ids`.
    pub proof fn lemma_fund_entries_fees(self, ids: Seq<Seq<char>>, now: u64)
        requires
            self.fund_entries(ids, now) is Ok,
        ensures
            self.fund_entries(ids, now).unwrap().len() == ids.len(),
            forall|i: int| 0 <= i < ids.len() ==> self.subscription_cost(#[trigger] ids[i], None, now)
                == Ok::<u128, ContractError>(self.fund_entries(ids, now).unwrap()[i].1),
        decreases ids.len(),
    {
        if ids.len() > 0 {
            let rest = ids.drop_last();
            self.lemma_fund_entries_fees(rest, now);
            assert forall|i: int| 0 <= i < ids.len() implies self.subscription_cost(#[trigger] ids[i], None, now)
                == Ok::<u128, ContractError>(self.fund_entries(ids, now).unwrap()[i].1) by {
                if i < rest.len() {
                    assert(rest[i] == ids[i]);
                }
            }
        }
    }

    /// The fee in the fund of a subscription is what it has incurred up to `now`.
    pub proof fn lemma_available_fund_fee(self, id: Seq<char>, now: u64)
        requires
            self.valid(),
            self.available_fund(id, now) is Ok,
        ensures
            self.subscription_cost(id, None, now) == Ok::<u128, ContractError>(self.available_fund(id, now).unwrap().1),
    {
        let sub = self.subscriptions[id];
        assert(self.subscription_linked(id));
        let ids = self.subscriber_subscriptions[sub.subscriber_id];
        self.lemma_fund_entries_fees(ids, now);
        let t = ids.index_of(id);
        assert(ids[t] == id);
    }

    /// Collecting from one subscription keeps the invariant, the plans, the
    /// lists of subscriptions, and which subscriptions and deposits exist.
    pub proof fn lemma_collect_step_valid(self, id: Seq<char>, total: u128, caller: Seq<char>, now: u64)
        requires
            self.valid(),
            self.subscriptions.contains_key(id),
            self.collect_step(id, total, caller, now) is Ok,
        ensures
            ({
                let c2 = self.collect_step(id, total, caller, now).unwrap().0;
                &&& c2.valid()
                &&& c2.plans == self.plans
                &&& c2.plan_subscriptions == self.plan_subscriptions
                &&& c2.subscriber_subscriptions == self.subscriber_subscriptions
                &&& c2.subscriptions.dom() == self.subscriptions.dom()
                &&& c2.deposits.dom() == self.deposits.dom()
            }),
    {
        let sub = self.subscriptions[id];
        assert(self.subscription_linked(id));
        if !(sub.state is Invalid) {
            let (available, incurred) = self.available_fund(id, now).unwrap();
            let short = available < incurred;
            let c1 = if short && sub.state is Active { self.cancel(id, caller, now).unwrap() } else { self };
            if short && sub.state is Active {
                let s1 = c1.subscriptions[id];
                self.lemma_relink(id, s1);
                assert(c1.subscriptions.dom() =~= self.subscriptions.dom());
            }
            let charge = if short { available } else { incurred };
            let c2 = c1.with_deposit(
                sub.subscriber_id,
                saturating_diff(c1.deposits[sub.subscriber_id] as int, charge as int) as u128,
            );
            c1.lemma_deposit_set(sub.subscriber_id, c2.deposits[sub.subscriber_id]);
            assert(c2.deposits.dom() =~= self.deposits.dom());
            let sub1 = c1.subscriptions[id];
            let plan = self.plans[sub.plan_id];
            let charged = if charge > 0 {
                SubscriptionView {
                    prev_charge_ts: now,
                    payments_charged: spec_payments_after_charge(sub, plan, now),
                    ..sub1
                }
            } else {
                sub1
            };
            c2.lemma_relink(id, charged);
            c2.lemma_relink(id, SubscriptionView { state: SubscriptionState::Invalid, ..charged });
            assert(c2.subscriptions.insert(id, charged).dom() =~= self.subscriptions.dom());
            assert(c2.subscriptions.insert(id, SubscriptionView { state: SubscriptionState::Invalid, ..charged }).dom() =~= self.subscriptions.dom());
        }
    }

    /// Setting a subscription to one with the same subscriber and plan keeps the invariant.
    pub proof fn lemma_relink(self, id: Seq<char>, sub: SubscriptionView)
        requires
            self.valid(),
            self.subscriptions.contains_key(id),
            sub.subscriber_id == self.subscriptions[id].subscriber_id,
            sub.plan_id == self.subscriptions[id].plan_id,
        ensures
            self.with_subscription(id, sub).valid(),
    {
        let c2 = self.with_subscription(id, sub);
        assert forall|s: Seq<char>| #[trigger] c2.subscriptions.contains_key(s) implies c2.subscription_linked(s) by {
            assert(self.subscription_linked(s));
        }
        assert forall|p: Seq<char>| #[trigger] c2.plan_subscriptions.contains_key(p) implies c2.ids_known(c2.plan_subscriptions[p])
            && c2.ids_of_plan(p, c2.plan_subscriptions[p]) by {
            let l = self.plan_subscriptions[p];
            assert(self.ids_known(l) && self.ids_of_plan(p, l));
            assert forall|i: int| 0 <= i < l.len() implies c2.subscriptions[#[trigger] l[i]].plan_id == p by {
                assert(self.subscriptions[l[i]].plan_id == p);
            }
        }
        assert forall|a: Seq<char>| #[trigger] c2.subscriber_subscriptions.contains_key(a) implies c2.ids_known(c2.subscriber_subscriptions[a])
            && c2.ids_of_subscriber(a, c2.subscriber_subscriptions[a]) by {
            let l = self.subscriber_subscriptions[a];
            assert(self.ids_known(l) && self.ids_of_subscriber(a, l));
            assert forall|i: int| 0 <= i < l.len() implies c2.subscriptions[#[trigger] l[i]].subscriber_id == a by {
                assert(self.subscriptions[l[i]].subscriber_id == a);
            }
        }
    }

    /// Setting the deposit of an account keeps the invariant.
    pub proof fn lemma_deposit_set(self, account: Seq<char>, amount: u128)
        requires
            self.valid(),
        ensures
            self.with_deposit(account, amount).valid(),
    {
        let c2 = self.with_deposit(account, amount);
        assert forall|s: Seq<char>| #[trigger] c2.subscriptions.contains_key(s) implies c2.subscription_linked(s) by {
            assert(self.subscription_linked(s));
        }
    }

    /// A list of the state after subscribing: where it held `id`, `id` now
    /// names a subscription of `key`; every other element is an element of
    /// the list before, with the same subscription.
    proof fn lemma_subscribed_list(
        self,
        c2: ContractView,
        id: Seq<char>,
        old_list: Seq<Seq<char>>,
        new_list: Seq<Seq<char>>,
        for_plan: bool,
        key: Seq<char>,
    )
        requires
            self.ids_known(old_list),
            for_plan ==> self.ids_of_plan(key, old_list),
            !for_plan ==> self.ids_of_subscriber(key, old_list),
            new_list.no_duplicates(),
            forall|i: int| 0 <= i < new_list.len() ==> #[trigger] new_list[i] == id || old_list.contains(new_list[i]),
            new_list.contains(id) ==> c2.subscriptions.contains_key(id) && (for_plan ==> c2.subscriptions[id].plan_id == key)
                && (!for_plan ==> c2.subscriptions[id].subscriber_id == key),
            forall|x: Seq<char>| x != id ==> #[trigger] c2.subscriptions.contains_key(x) == self.subscriptions.contains_key(x),
            forall|x: Seq<char>| x != id && self.subscriptions.contains_key(x) ==> #[trigger] c2.subscriptions[x] == self.subscriptions[x],
        ensures
            c2.ids_known(new_list),
            for_plan ==> c2.ids_of_plan(key, new_list),
            !for_plan ==> c2.ids_of_subscriber(key, new_list),
    {
        assert forall|i: int| 0 <= i < new_list.len() implies c2.subscriptions.contains_key(#[trigger] new_list[i])
            && (for_plan ==> c2.subscriptions[new_list[i]].plan_id == key)
            && (!for_plan ==> c2.subscriptions[new_list[i]].subscriber_id == key) by {
            let x = new_list[i];
            if x == id {
                assert(new_list.contains(id));
            } else {
                assert(old_list.contains(x));
                let k = choose|k: int| 0 <= k < old_list.len() && old_list[k] == x;
                assert(self.subscriptions.contains_key(old_list[k]));
            }
        }
    }

    /// Subscribing keeps the invariant.
    pub proof fn lemma_subscribed_valid(self, plan_id: Seq<char>, caller: Seq<char>, now: u64)
        requires
            self.valid(),
            self.subscribed(plan_id, caller, now) is Ok,
        ensures
            self.subscribed(plan_id, caller, now).unwrap().0.valid(),
    {
        let (c2, id) = self.subscribed(plan_id, caller, now).unwrap();
        assert(self.deposits.contains_key(caller));
        let existed = self.subscriptions.contains_key(id);
        let old = self.subscriptions[id];
        let moved_p = existed && old.plan_id != plan_id;
        let moved_s = existed && old.subscriber_id != caller;
        let pls = Self::unlisted(self.plan_subscriptions, old.plan_id, moved_p, id);
        let sls = Self::unlisted(self.subscriber_subscriptions, old.subscriber_id, moved_s, id);
        let keep = other_than(id);
        // the lists before the new one is added
        assert forall|p: Seq<char>| #[trigger] pls.contains_key(p) implies pls[p].no_duplicates()
            && forall|i: int| 0 <= i < pls[p].len() ==> #[trigger] self.plan_subscriptions[p].contains(pls[p][i]) by {
            assert(self.plan_subscriptions.contains_key(p));
            let l = self.plan_subscriptions[p];
            assert(self.ids_known(l));
            if moved_p && p == old.plan_id {
                lemma_filter_ids(l, keep);
                assert(pls[p] == filter_ids(l, keep));
            } else {
                assert forall|i: int| 0 <= i < l.len() implies #[trigger] l.contains(l[i]) by {}
            }
        }
        assert forall|a: Seq<char>| #[trigger] sls.contains_key(a) implies sls[a].no_duplicates()
            && forall|i: int| 0 <= i < sls[a].len() ==> #[trigger] self.subscriber_subscriptions[a].contains(sls[a][i]) by {
            assert(self.subscriber_subscriptions.contains_key(a));
            let l = self.subscriber_subscriptions[a];
            assert(self.ids_known(l));
            if moved_s && a == old.subscriber_id {
                lemma_filter_ids(l, keep);
                assert(sls[a] == filter_ids(l, keep));
            } else {
                assert forall|i: int| 0 <= i < l.len() implies #[trigger] l.contains(l[i]) by {}
            }
        }
        // an old subscription other than `id` stays listed
        assert forall|x: Seq<char>, p: Seq<char>| x != id && #[trigger] self.plan_subscriptions.contains_key(p)
            && #[trigger] self.plan_subscriptions[p].contains(x) implies pls.contains_key(p) && pls[p].contains(x) by {
            if moved_p && p == old.plan_id {
                lemma_filter_ids(self.plan_subscriptions[p], keep);
            }
        }
        assert forall|x: Seq<char>, a: Seq<char>| x != id && #[trigger] self.subscriber_subscriptions.contains_key(a)
            && #[trigger] self.subscriber_subscriptions[a].contains(x) implies sls.contains_key(a) && sls[a].contains(x) by {
            if moved_s && a == old.subscriber_id {
                lemma_filter_ids(self.subscriber_subscriptions[a], keep);
            }
        }
        // `id` is listed under an old key only where its old subscription was
        assert forall|p: Seq<char>| #[trigger] pls.contains_key(p) && p != plan_id implies !pls[p].contains(id) by {
            let l = self.plan_subscriptions[p];
            assert(self.ids_of_plan(p, l));
            if moved_p && p == old.plan_id {
                lemma_filter_ids(l, keep);
            } else if l.contains(id) {
                let k = choose|k: int| 0 <= k < l.len() && l[k] == id;
                assert(self.subscriptions[l[k]].plan_id == p);
            }
        }
        assert forall|a: Seq<char>| #[trigger] sls.contains_key(a) && a != caller implies !sls[a].contains(id) by {
            let l = self.subscriber_subscriptions[a];
            assert(self.ids_of_subscriber(a, l));
            if moved_s && a == old.subscriber_id {
                lemma_filter_ids(l, keep);
            } else if l.contains(id) {
                let k = choose|k: int| 0 <= k < l.len() && l[k] == id;
                assert(self.subscriptions[l[k]].subscriber_id == a);
            }
        }
        let pl = with_id(Self::listed(pls, plan_id), id);
        let sl = with_id(Self::listed(sls, caller), id);
        assert(pl.contains(id)) by {
            if !Self::listed(pls, plan_id).contains(id) {
                assert(pl[pl.len() - 1] == id);
            }
        }
        assert(sl.contains(id)) by {
            if !Self::listed(sls, caller).contains(id) {
                assert(sl[sl.len() - 1] == id);
            }
        }
        // every subscription is linked
        assert forall|s: Seq<char>| #[trigger] c2.subscriptions.contains_key(s) implies c2.subscription_linked(s) by {
            if s != id {
                assert(self.subscription_linked(s));
                let sub = self.subscriptions[s];
                assert(pls.contains_key(sub.plan_id) && pls[sub.plan_id].contains(s));
                assert(sls.contains_key(sub.subscriber_id) && sls[sub.subscriber_id].contains(s));
                if sub.plan_id == plan_id {
                    let l = pls[plan_id];
                    let k = choose|k: int| 0 <= k < l.len() && l[k] == s;
                    assert(pl[k] == s);
                }
                if sub.subscriber_id == caller {
                    let l = sls[caller];
                    let k = choose|k: int| 0 <= k < l.len() && l[k] == s;
                    assert(sl[k] == s);
                }
            }
        }
        // the lists of plans
        assert forall|p: Seq<char>| #[trigger] c2.plan_subscriptions.contains_key(p) implies c2.ids_known(c2.plan_subscriptions[p])
            && c2.ids_of_plan(p, c2.plan_subscriptions[p]) by {
            let nl = c2.plan_subscriptions[p];
            if p == plan_id {
                let base = Self::listed(pls, plan_id);
                let ol = Self::listed(self.plan_subscriptions, plan_id);
                if self.plan_subscriptions.contains_key(plan_id) {
                    assert(self.ids_known(ol) && self.ids_of_plan(plan_id, ol));
                } else {
                    assert(ol.len() == 0);
                }
                assert(base.no_duplicates());
                assert(nl.no_duplicates()) by {
                    if !base.contains(id) {
                        assert forall|i: int, j: int| 0 <= i < nl.len() && 0 <= j < nl.len() && i != j implies nl[i] != nl[j] by {
                            if i < base.len() { assert(base.contains(base[i])); }
                            if j < base.len() { assert(base.contains(base[j])); }
                        }
                    }
                }
                assert forall|i: int| 0 <= i < nl.len() implies #[trigger] nl[i] == id || ol.contains(nl[i]) by {
                    if i < base.len() && base[i] != id {
                        assert(self.plan_subscriptions[plan_id].contains(base[i]));
                    }
                }
                self.lemma_subscribed_list(c2, id, ol, nl, true, plan_id);
            } else {
                assert(pls.contains_key(p));
                assert(nl == pls[p]);
                let ol = self.plan_subscriptions[p];
                assert(self.ids_known(ol) && self.ids_of_plan(p, ol));
                assert forall|i: int| 0 <= i < nl.len() implies #[trigger] nl[i] == id || ol.contains(nl[i]) by {}
                self.lemma_subscribed_list(c2, id, ol, nl, true, p);
            }
        }
        // the lists of subscribers
        assert forall|a: Seq<char>| #[trigger] c2.subscriber_subscriptions.contains_key(a) implies c2.ids_known(c2.subscriber_subscriptions[a])
            && c2.ids_of_subscriber(a, c2.subscriber_subscriptions[a]) by {
            let nl = c2.subscriber_subscriptions[a];
            if a == caller {
                let base = Self::listed(sls, caller);
                let ol = Self::listed(self.subscriber_subscriptions, caller);
                if self.subscriber_subscriptions.contains_key(caller) {
                    assert(self.ids_known(ol) && self.ids_of_subscriber(caller, ol));
                } else {
                    assert(ol.len() == 0);
                }
                assert(base.no_duplicates());
                assert(nl.no_duplicates()) by {
                    if !base.contains(id) {
                        assert forall|i: int, j: int| 0 <= i < nl.len() && 0 <= j < nl.len() && i != j implies nl[i] != nl[j] by {
                            if i < base.len() { assert(base.contains(base[i])); }
                            if j < base.len() { assert(base.contains(base[j])); }
                        }
                    }
                }
                assert forall|i: int| 0 <= i < nl.len() implies #[trigger] nl[i] == id || ol.contains(nl[i]) by {
                    if i < base.len() && base[i] != id {
                        assert(self.subscriber_subscriptions[caller].contains(base[i]));
                    }
                }
                self.lemma_subscribed_list(c2, id, ol, nl, false, caller);
            } else {
                assert(sls.contains_key(a));
                assert(nl == sls[a]);
                let ol = self.subscriber_subscriptions[a];
                assert(self.ids_known(ol) && self.ids_of_subscriber(a, ol));
                assert forall|i: int| 0 <= i < nl.len() implies #[trigger] nl[i] == id || ol.contains(nl[i]) by {}
                self.lemma_subscribed_list(c2, id, ol, nl, false, a);
            }
        }
    }

    /// Whether pruning keeps the subscription `id`: it exists and is not invalid.
    pub open spec fn keeps(self, id: Seq<char>) -> bool {
        self.subscriptions.contains_key(id) && !(self.subscriptions[id].state is Invalid)
    }

    /// The identifiers that pruning keeps.
    pub open spec fn keeper(self) -> spec_fn(Seq<char>) -> bool {
        |x: Seq<char>| self.keeps(x)
    }

    /// The state after `prune_subscriptions`: the invalid subscriptions are
    /// removed, and so are their identifiers from every list.
    pub open spec fn pruned(self) -> ContractView {
        ContractView {
            subscriptions: Map::new(|id: Seq<char>| self.keeps(id), |id: Seq<char>| self.subscriptions[id]),
            plan_subscriptions: Map::new(
                |p: Seq<char>| self.plan_subscriptions.contains_key(p),
                |p: Seq<char>| filter_ids(self.plan_subscriptions[p], self.keeper()),
            ),
            subscriber_subscriptions: Map::new(
                |a: Seq<char>| self.subscriber_subscriptions.contains_key(a),
                |a: Seq<char>| filter_ids(self.subscriber_subscriptions[a], self.keeper()),
            ),
            ..self
        }
    }

    /// Pruning keeps the invariant.
    pub proof fn lemma_pruned_valid(self)
        requires
            self.valid(),
        ensures
            self.pruned().valid(),
    {
        let c2 = self.pruned();
        let keep = self.keeper();
        assert forall|s: Seq<char>| #[trigger] c2.subscriptions.contains_key(s) implies c2.subscription_linked(s) by {
            assert(self.subscription_linked(s));
            let sub = self.subscriptions[s];
            lemma_filter_ids(self.plan_subscriptions[sub.plan_id], keep);
            lemma_filter_ids(self.subscriber_subscriptions[sub.subscriber_id], keep);
        }
        assert forall|p: Seq<char>| #[trigger] c2.plan_subscriptions.contains_key(p) implies c2.ids_known(c2.plan_subscriptions[p])
            && c2.ids_of_plan(p, c2.plan_subscriptions[p]) by {
            let l = self.plan_subscriptions[p];
            assert(self.ids_known(l) && self.ids_of_plan(p, l));
            lemma_filter_ids(l, keep);
            let f = filter_ids(l, keep);
            assert forall|i: int| 0 <= i < f.len() implies c2.subscriptions.contains_key(#[trigger] f[i])
                && c2.subscriptions[f[i]].plan_id == p by {
                assert(l.contains(f[i]));
                let k = choose|k: int| 0 <= k < l.len() && l[k] == f[i];
                assert(self.subscriptions[l[k]].plan_id == p);
            }
        }
        assert forall|a: Seq<char>| #[trigger] c2.subscriber_subscriptions.contains_key(a) implies c2.ids_known(c2.subscriber_subscriptions[a])
            && c2.ids_of_subscriber(a, c2.subscriber_subscriptions[a]) by {
            let l = self.subscriber_subscriptions[a];
            assert(self.ids_known(l) && self.ids_of_subscriber(a, l));
            lemma_filter_ids(l, keep);
            let f = filter_ids(l, keep);
            assert forall|i: int| 0 <= i < f.len() implies c2.subscriptions.contains_key(#[trigger] f[i])
                && c2.subscriptions[f[i]].subscriber_id == a by {
                assert(l.contains(f[i]));
                let k = choose|k: int| 0 <= k < l.len() && l[k] == f[i];
                assert(self.subscriptions[l[k]].subscriber_id == a);
            }
        }
    }
}

/// The identifiers of each list of a list of entries.
pub open spec fn list_views(entries: Seq<(String, Vec<String>)>) -> Seq<Seq<Seq<char>>> {
    entries.map_values(|e: (String, Vec<String>)| string_views(e.1@))
}

/// The state that `parts` describes.
pub open spec fn parts_model(parts: ContractParts) -> ContractView {
    ContractView {
        owner: parts.owner@,
        plans: keyed_map(entry_keys(parts.plans@), entry_views(parts.plans@)),
        subscriptions: keyed_map(entry_keys(parts.subscriptions@), entry_views(parts.subscriptions@)),
        plan_subscriptions: keyed_map(entry_keys(parts.plan_subscriptions@), list_views(parts.plan_subscriptions@)),
        subscriber_subscriptions: keyed_map(
            entry_keys(parts.subscriber_subscriptions@),
            list_views(parts.subscriber_subscriptions@),
        ),
        deposits: keyed_map(entry_keys(parts.deposits@), entry_views(parts.deposits@)),
    }
}

/// Whether `parts` describes a state of the contract: no key occurs twice in
/// a list, and the state keeps the invariant.
pub open spec fn parts_acceptable(parts: ContractParts) -> bool {
    &&& entry_keys(parts.plans@).no_duplicates()
    &&& entry_keys(parts.subscriptions@).no_duplicates()
    &&& entry_keys(parts.plan_subscriptions@).no_duplicates()
    &&& entry_keys(parts.subscriber_subscriptions@).no_duplicates()
    &&& entry_keys(parts.deposits@).no_duplicates()
    &&& parts_model(parts).valid()
}

/// The views of an optional string.
pub open spec fn opt_view(o: Option<String>) -> Option<Seq<char>> {
    match o {
        Some(s) => Some(s@),
        None => None,
    }
}

} // verus!
