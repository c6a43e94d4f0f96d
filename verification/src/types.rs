//! The records that the contract stores, their mathematical views, and the
//! errors with which a call is refused.

use vstd::prelude::*;

verus! {

/// Where a subscription stands.
#[derive(Clone, Copy, Debug, PartialEq, Eq, Structural)]
pub enum SubscriptionState {
    /// Active since the timestamp `ts`.
    Active { ts: u64 },
    /// Canceled at the timestamp `ts`.
    Canceled { ts: u64 },
    /// Past its last payment cycle after a cancelation; it incurs nothing more.
    Invalid,
}

/// A payment plan that a provider offers.
#[derive(Debug)]
pub struct SubscriptionPlan {
    /// The account that offers the plan and receives its fees.
    pub provider_id: String,
    /// The length of one payment cycle.
    pub payment_cycle_length: u64,
    /// The cost of one payment cycle.
    pub payment_cycle_rate: u128,
    /// The number of payments of the plan; 0 for a plan without end.
    pub payment_cycle_count: u64,
    /// The name of the plan.
    pub plan_name: Option<String>,
}

/// A subscription of one subscriber to one plan.
#[derive(Debug)]
pub struct Subscription {
    /// The account that pays for the subscription.
    pub subscriber_id: String,
    /// The plan subscribed to.
    pub plan_id: String,
    /// Where the subscription stands.
    pub state: SubscriptionState,
    /// When funds were last taken for it; 0 while nothing was charged.
    pub prev_charge_ts: u64,
    /// How many payment cycles have been charged for it; they count against
    /// a plan with a limited number of payments.
    pub payments_charged: u64,
}

/// A payment that the contract makes out of its own balance.
#[derive(Debug)]
pub struct Transfer {
    /// The account that receives the payment.
    pub receiver_id: String,
    /// The amount paid.
    pub amount: u128,
}

/// The contract's state as plain lists of entries, each key once, in the
/// order of the contract's own collections.
#[derive(Debug)]
pub struct ContractParts {
    /// The owner of the service.
    pub owner: String,
    /// The plans, by identifier.
    pub plans: Vec<(String, SubscriptionPlan)>,
    /// The subscriptions, by identifier.
    pub subscriptions: Vec<(String, Subscription)>,
    /// The identifiers of the subscriptions of each plan.
    pub plan_subscriptions: Vec<(String, Vec<String>)>,
    /// The identifiers of the subscriptions of each subscriber.
    pub subscriber_subscriptions: Vec<(String, Vec<String>)>,
    /// The deposit of each account.
    pub deposits: Vec<(String, u128)>,
}

/// Why a call is refused. A refused call changes nothing.
#[derive(Clone, Copy, Debug, PartialEq, Eq, Structural)]
pub enum ContractError {
    /// No plan has the given identifier.
    NoSuchPlan,
    /// No subscription has the given identifier.
    NoSuchSubscription,
    /// The plan has no subscriptions to list.
    NoSubscriptionsOfPlan,
    /// The plan has no subscriptions to collect fees from.
    NoExistingSubscriptions,
    /// The account has never deposited.
    NoDeposit,
    /// The end of a charge period lies after the current time.
    ChargeEndInFuture,
    /// A collection is asked for a time after the current time.
    ChargeInFuture,
    /// The caller is neither the subscriber nor the provider of the subscription.
    NotSubscriberOrProvider,
    /// Only an active subscription can be canceled.
    NotActive,
    /// The payment cycle is shorter than a minute.
    CycleTooShort,
    /// The rate of a payment cycle is zero.
    RateNotPositive,
    /// The unlocked deposit does not cover the first payment of the plan.
    DepositBelowFirstPayment { rate: u128 },
    /// A deposit of nothing.
    DepositNotPositive,
    /// The unlocked deposit is less than the amount asked for.
    NotEnoughFund,
    /// A computation leaves the range of its integer type.
    Overflow,
}

/// The view of a plan.
pub struct PlanView {
    pub provider_id: Seq<char>,
    pub payment_cycle_length: u64,
    pub payment_cycle_rate: u128,
    pub payment_cycle_count: u64,
    pub plan_name: Option<Seq<char>>,
}

/// The view of a subscription.
pub struct SubscriptionView {
    pub subscriber_id: Seq<char>,
    pub plan_id: Seq<char>,
    pub state: SubscriptionState,
    pub prev_charge_ts: u64,
    pub payments_charged: u64,
}

/// The view of a transfer.
pub struct TransferView {
    pub receiver_id: Seq<char>,
    pub amount: u128,
}

impl View for SubscriptionPlan {
    type V = PlanView;

    open spec fn view(&self) -> PlanView {
        PlanView {
            provider_id: self.provider_id@,
            payment_cycle_length: self.payment_cycle_length,
            payment_cycle_rate: self.payment_cycle_rate,
            payment_cycle_count: self.payment_cycle_count,
            plan_name: match self.plan_name {
                Some(n) => Some(n@),
                None => None,
            },
        }
    }
}

impl View for Subscription {
    type V = SubscriptionView;

    open spec fn view(&self) -> SubscriptionView {
        SubscriptionView {
            subscriber_id: self.subscriber_id@,
            plan_id: self.plan_id@,
            state: self.state,
            prev_charge_ts: self.prev_charge_ts,
            payments_charged: self.payments_charged,
        }
    }
}

impl View for Transfer {
    type V = TransferView;

    open spec fn view(&self) -> TransferView {
        TransferView { receiver_id: self.receiver_id@, amount: self.amount }
    }
}

/// A value that can be copied with its view kept.
pub trait Duplicate: View + Sized {
    fn duplicate(&self) -> (r: Self)
        ensures
            r@ == self@,
    ;
}

impl Duplicate for u128 {
    fn duplicate(&self) -> (r: Self) {
        *self
    }
}

impl Duplicate for SubscriptionPlan {
    fn duplicate(&self) -> (r: Self) {
        SubscriptionPlan {
            provider_id: self.provider_id.clone(),
            payment_cycle_length: self.payment_cycle_length,
            payment_cycle_rate: self.payment_cycle_rate,
            payment_cycle_count: self.payment_cycle_count,
            plan_name: match &self.plan_name {
                Some(n) => Some(n.clone()),
                None => None,
            },
        }
    }
}

impl Duplicate for Subscription {
    fn duplicate(&self) -> (r: Self) {
        Subscription {
            subscriber_id: self.subscriber_id.clone(),
            plan_id: self.plan_id.clone(),
            state: self.state,
            prev_charge_ts: self.prev_charge_ts,
            payments_charged: self.payments_charged,
        }
    }
}

} // verus!
