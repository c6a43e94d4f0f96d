//! What one subscription costs over a charge period, and when its next payment
//! is due.

use vstd::prelude::*;
use crate::types::{ContractError, PlanView, Subscription, SubscriptionPlan, SubscriptionState, SubscriptionView};

verus! {

/// The charge period of `sub` under `plan` when it ends at `end`: an active
/// subscription is charged from its last charge, or from one cycle before its
/// activation when that is later, so that a new subscription pays its first
/// cycle upfront; a canceled one from its last charge up to its cancelation,
/// whatever `end` is.
pub open spec fn spec_charge_period(sub: SubscriptionView, plan: PlanView, end: u64) -> Result<(int, int), ContractError> {
    match sub.state {
        SubscriptionState::Active { ts } => {
            if ts < plan.payment_cycle_length {
                Err(ContractError::Overflow)
            } else {
                let upfront = ts - plan.payment_cycle_length;
                let start = if sub.prev_charge_ts >= upfront { sub.prev_charge_ts as int } else { upfront };
                Ok((start, end as int))
            }
        },
        SubscriptionState::Canceled { ts } => Ok((sub.prev_charge_ts as int, ts as int)),
        SubscriptionState::Invalid => Ok((0, 0)),
    }
}

/// The payment cycles that `sub` owes under `plan` when the charge period
/// ends at `end`: the whole cycles of the period, but no more than the plan's
/// payments that are left when the plan has a limited number of them. An
/// invalid subscription owes none.
pub open spec fn spec_billed_cycles(sub: SubscriptionView, plan: PlanView, end: u64) -> Result<u64, ContractError> {
    if sub.state is Invalid {
        Ok(0)
    } else {
        match spec_charge_period(sub, plan, end) {
            Err(e) => Err(e),
            Ok((start, stop)) => if stop < start {
                Err(ContractError::Overflow)
            } else {
                let cycles = (stop - start) / (plan.payment_cycle_length as int);
                if plan.payment_cycle_count == 0 {
                    Ok(cycles as u64)
                } else if plan.payment_cycle_count <= sub.payments_charged {
                    Ok(0)
                } else {
                    let left = plan.payment_cycle_count - sub.payments_charged;
                    Ok((if cycles < left { cycles } else { left }) as u64)
                }
            },
        }
    }
}

/// What `sub` has incurred under `plan` when the charge period ends at `end`:
/// the rate of each cycle that it owes.
pub open spec fn spec_incurred_cost(sub: SubscriptionView, plan: PlanView, end: u64) -> Result<u128, ContractError> {
    match spec_billed_cycles(sub, plan, end) {
        Err(e) => Err(e),
        Ok(cycles) => if cycles * plan.payment_cycle_rate > u128::MAX {
            Err(ContractError::Overflow)
        } else {
            Ok((cycles * plan.payment_cycle_rate) as u128)
        },
    }
}

/// The payments counted for `sub` once it is charged for the cycles that it
/// owes at `end`; a plan without end counts none.
pub open spec fn spec_payments_after_charge(sub: SubscriptionView, plan: PlanView, end: u64) -> u64 {
    if plan.payment_cycle_count == 0 {
        sub.payments_charged
    } else {
        (sub.payments_charged + spec_billed_cycles(sub, plan, end).unwrap()) as u64
    }
}

/// When the next payment of `sub` falls due under `plan`: never for an invalid
/// one, one cycle after the last charge when there was one, else at the
/// activation of an active one, else at 0.
pub open spec fn spec_next_payment_due(sub: SubscriptionView, plan: PlanView) -> Result<u64, ContractError> {
    match sub.state {
        SubscriptionState::Invalid => Ok(u64::MAX),
        _ => {
            if sub.prev_charge_ts > 0 {
                if sub.prev_charge_ts + plan.payment_cycle_length > u64::MAX {
                    Err(ContractError::Overflow)
                } else {
                    Ok((sub.prev_charge_ts + plan.payment_cycle_length) as u64)
                }
            } else {
                match sub.state {
                    SubscriptionState::Active { ts } => Ok(ts),
                    _ => Ok(0),
                }
            }
        },
    }
}

/// The payment cycles that `sub` owes under `plan` when the charge period ends at `end`.
pub fn billed_cycles(sub: &Subscription, plan: &SubscriptionPlan, end: u64) -> (r: Result<u64, ContractError>)
    requires
        plan.payment_cycle_length > 0,
    ensures
        r == spec_billed_cycles(sub@, plan@, end),
{
    let (start, stop): (u64, u64) = match sub.state {
        SubscriptionState::Active { ts } => {
            if ts < plan.payment_cycle_length {
                return Err(ContractError::Overflow);
            }
            let upfront: u64 = ts - plan.payment_cycle_length;
            (if sub.prev_charge_ts >= upfront { sub.prev_charge_ts } else { upfront }, end)
        },
        SubscriptionState::Canceled { ts } => (sub.prev_charge_ts, ts),
        SubscriptionState::Invalid => return Ok(0),
    };
    if stop < start {
        return Err(ContractError::Overflow);
    }
    let cycles: u64 = (stop - start) / plan.payment_cycle_length;
    if plan.payment_cycle_count == 0 {
        Ok(cycles)
    } else if plan.payment_cycle_count <= sub.payments_charged {
        Ok(0)
    } else {
        let left: u64 = plan.payment_cycle_count - sub.payments_charged;
        Ok(if cycles < left { cycles } else { left })
    }
}

/// What `sub` has incurred under `plan` when the charge period ends at `end`.
pub fn incurred_cost(sub: &Subscription, plan: &SubscriptionPlan, end: u64) -> (r: Result<u128, ContractError>)
    requires
        plan.payment_cycle_length > 0,
    ensures
        r == spec_incurred_cost(sub@, plan@, end),
{
    let cycles = billed_cycles(sub, plan, end)?;
    let wide: u128 = cycles as u128;
    match wide.checked_mul(plan.payment_cycle_rate) {
        Some(c) => Ok(c),
        None => Err(ContractError::Overflow),
    }
}

/// When the next payment of `sub` falls due under `plan`.
pub fn next_payment_due(sub: &Subscription, plan: &SubscriptionPlan) -> (r: Result<u64, ContractError>)
    ensures
        r == spec_next_payment_due(sub@, plan@),
{
    if let SubscriptionState::Invalid = sub.state {
        return Ok(u64::MAX);
    }
    if sub.prev_charge_ts > 0 {
        match sub.prev_charge_ts.checked_add(plan.payment_cycle_length) {
            Some(d) => Ok(d),
            None => Err(ContractError::Overflow),
        }
    } else if let SubscriptionState::Active { ts } = sub.state {
        Ok(ts)
    } else {
        Ok(0)
    }
}

} // verus!
