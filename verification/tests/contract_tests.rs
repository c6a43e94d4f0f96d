use contract::{
    Contract, ContractError, ContractParts, ProviderActions, SubscriberActions, SubscriptionState,
};

fn s(x: &str) -> String {
    x.to_string()
}

const PLAN_ID: &str = "2EvcEd4FqVNnj"; // alice at 1000
const SUB_ID: &str = "4jMZJqaLD5"; // bob at 1000

/// alice offers a plan of 10 per 60 at 1000; bob deposits `deposit` and subscribes at 1000.
fn setup(deposit: u128) -> Contract {
    let mut c = Contract::new(s("owner"));
    let plan_id = c
        .create_subscription_plan(None, 60, 10, 12, Some(s("basic")), &s("alice"), 1000)
        .unwrap();
    assert_eq!(plan_id, PLAN_ID);
    c.deposit(s("bob"), deposit).unwrap();
    let sub_id = c.create_subscription(s(PLAN_ID), &s("bob"), 1000).unwrap();
    assert_eq!(sub_id, SUB_ID);
    c
}

#[test]
fn test_new() {
    let contract = Contract::new(s("bob"));
    assert_eq!(contract.get_plan(s("any")).unwrap_err(), ContractError::NoSuchPlan);
}

#[test]
fn plan_id_is_base58_of_provider_and_time() {
    let mut c = Contract::new(s("owner"));
    let id = c
        .create_subscription_plan(Some(s("provider.near")), 60, 1, 1, None, &s("alice"), 1000)
        .unwrap();
    assert_eq!(id, "24Hfxph3ssoaa4iGBWvPugpo");
    let plan = c.get_plan(id).unwrap();
    assert_eq!(plan.provider_id, "provider.near");
    assert_eq!(plan.payment_cycle_length, 60);
    assert_eq!(plan.plan_name, None);
    let own = c.create_subscription_plan(None, 60, 1, 1, None, &s("alice"), 2000).unwrap();
    assert_eq!(own, "2EvcEd4FryN55");
    assert_eq!(c.get_plan(own).unwrap().provider_id, "alice");
}

#[test]
fn plan_rules() {
    let mut c = Contract::new(s("owner"));
    assert_eq!(
        c.create_subscription_plan(None, 59, 10, 1, None, &s("alice"), 1000),
        Err(ContractError::CycleTooShort)
    );
    assert_eq!(
        c.create_subscription_plan(None, 60, 0, 1, None, &s("alice"), 1000),
        Err(ContractError::RateNotPositive)
    );
    assert_eq!(c.get_plan(s(PLAN_ID)).unwrap_err(), ContractError::NoSuchPlan);
    // a count of 0 stands for a plan without end
    let id = c.create_subscription_plan(None, 60, 10, 0, None, &s("alice"), 1000).unwrap();
    assert_eq!(c.get_plan(id).unwrap().payment_cycle_count, 0);
}

#[test]
fn new_subscription_pays_first_cycle_upfront() {
    let c = setup(100);
    let sub = c.get_subscription(s(SUB_ID)).unwrap();
    assert_eq!(sub.subscriber_id, "bob");
    assert_eq!(sub.plan_id, PLAN_ID);
    assert_eq!(sub.state, SubscriptionState::Active { ts: 1000 });
    assert_eq!(sub.prev_charge_ts, 0);
    assert_eq!(c.calcuate_subscription_incurred_cost(&s(SUB_ID), None, 1000), Ok(10));
    assert_eq!(c.calcuate_subscription_incurred_cost(&s(SUB_ID), None, 1059), Ok(10));
    assert_eq!(c.calcuate_subscription_incurred_cost(&s(SUB_ID), None, 1060), Ok(20));
    assert_eq!(c.calcuate_subscription_incurred_cost(&s(SUB_ID), Some(1000), 1130), Ok(10));
    assert_eq!(c.calculate_total_fees_for_subscriber(&s("bob"), 1130), Ok(30));
    assert_eq!(c.calculate_total_fees_for_subscriber(&s("carol"), 1130), Ok(0));
    assert_eq!(c.get_unlocked_deposit(&s("bob"), 1000), Ok(90));
    assert_eq!(c.get_unlocked_deposit(&s("bob"), 10000), Ok(0));
    assert_eq!(c.validate_subscription(&s(SUB_ID), None, 1000), Ok(true));
    assert_eq!(c.validate_subscription(&s(SUB_ID), Some(1000), 10000), Ok(true));
    assert_eq!(c.validate_subscription(&s(SUB_ID), None, 1300), Ok(true));
    // the plan's 12 payments come to 120, more than the 100 deposited
    assert_eq!(c.validate_subscription(&s(SUB_ID), None, 3000), Ok(false));
}

#[test]
fn listing_subscriptions_of_a_plan() {
    let c = setup(100);
    let list = c.list_subscriptions_by_plan_id(s(PLAN_ID)).unwrap();
    assert_eq!(list.len(), 1);
    assert_eq!(list[0].0, SUB_ID);
    assert_eq!(list[0].1.subscriber_id, "bob");
    let mut c2 = Contract::new(s("owner"));
    let p = c2.create_subscription_plan(None, 60, 10, 1, None, &s("alice"), 1000).unwrap();
    assert_eq!(c2.list_subscriptions_by_plan_id(p.clone()).unwrap_err(), ContractError::NoSubscriptionsOfPlan);
    assert_eq!(c2.collect_fees(p, None, &s("alice"), 1000).unwrap_err(), ContractError::NoExistingSubscriptions);
}

#[test]
fn subscribing_needs_first_payment() {
    let mut c = Contract::new(s("owner"));
    c.create_subscription_plan(None, 60, 10, 12, None, &s("alice"), 1000).unwrap();
    assert_eq!(c.create_subscription(s("nope"), &s("bob"), 1000), Err(ContractError::NoSuchPlan));
    assert_eq!(c.create_subscription(s(PLAN_ID), &s("bob"), 1000), Err(ContractError::NoDeposit));
    c.deposit(s("bob"), 5).unwrap();
    assert_eq!(
        c.create_subscription(s(PLAN_ID), &s("bob"), 1000),
        Err(ContractError::DepositBelowFirstPayment { rate: 10 })
    );
    assert_eq!(c.get_subscription(s(SUB_ID)).unwrap_err(), ContractError::NoSuchSubscription);
    c.deposit(s("bob"), 5).unwrap();
    assert_eq!(c.create_subscription(s(PLAN_ID), &s("bob"), 1000), Ok(s(SUB_ID)));
}

#[test]
fn deposits_add_up() {
    let mut c = Contract::new(s("owner"));
    assert_eq!(c.deposit(s("bob"), 0), Err(ContractError::DepositNotPositive));
    c.deposit(s("bob"), 7).unwrap();
    c.deposit(s("bob"), 8).unwrap();
    assert_eq!(c.get_unlocked_deposit(&s("bob"), 0), Ok(15));
    assert_eq!(c.deposit(s("bob"), u128::MAX), Err(ContractError::Overflow));
    assert_eq!(c.get_unlocked_deposit(&s("bob"), 0), Ok(15));
    assert_eq!(c.get_unlocked_deposit(&s("carol"), 0), Err(ContractError::NoDeposit));
}

#[test]
fn withdrawing_unlocked_deposit() {
    let mut c = setup(100);
    assert_eq!(c.withdraw(Some(91), &s("bob"), 1000).unwrap_err(), ContractError::NotEnoughFund);
    let t = c.withdraw(Some(40), &s("bob"), 1000).unwrap();
    assert_eq!(t.receiver_id, "bob");
    assert_eq!(t.amount, 40);
    assert_eq!(c.get_unlocked_deposit(&s("bob"), 1000), Ok(50));
    let t = c.withdraw(None, &s("bob"), 1000).unwrap();
    assert_eq!(t.amount, 50);
    assert_eq!(c.get_unlocked_deposit(&s("bob"), 1000), Ok(0));
    assert_eq!(c.withdraw(None, &s("carol"), 1000).unwrap_err(), ContractError::NoDeposit);
}

#[test]
fn whole_deposit_unlocked_without_subscriptions() {
    let mut c = Contract::new(s("owner"));
    c.deposit(s("carol"), 33).unwrap();
    assert_eq!(c.get_unlocked_deposit(&s("carol"), 99999), Ok(33));
    assert_eq!(c.withdraw(None, &s("carol"), 99999).unwrap().amount, 33);
}

#[test]
fn cost_errors() {
    let c = setup(100);
    assert_eq!(
        c.calcuate_subscription_incurred_cost(&s("nope"), None, 1000),
        Err(ContractError::NoSuchSubscription)
    );
    assert_eq!(
        c.calcuate_subscription_incurred_cost(&s(SUB_ID), Some(1001), 1000),
        Err(ContractError::ChargeEndInFuture)
    );
    assert_eq!(c.validate_subscription(&s("nope"), None, 1000), Err(ContractError::NoSuchSubscription));
    // activation earlier than one cycle after time 0
    let mut c2 = Contract::new(s("owner"));
    c2.create_subscription_plan(None, 60, 10, 1, None, &s("alice"), 1000).unwrap();
    c2.deposit(s("bob"), 100).unwrap();
    let id = c2.create_subscription(s(PLAN_ID), &s("bob"), 30).unwrap();
    assert_eq!(c2.calcuate_subscription_incurred_cost(&id, None, 100), Err(ContractError::Overflow));
    assert_eq!(c2.get_unlocked_deposit(&s("bob"), 100), Err(ContractError::Overflow));
}

#[test]
fn collecting_then_canceling() {
    let mut c = setup(100);
    let (listed, transfer) = c.collect_fees(s(PLAN_ID), None, &s("alice"), 1130).unwrap();
    assert_eq!(listed, vec![(s(SUB_ID), 30)]);
    assert_eq!(transfer.receiver_id, "alice");
    assert_eq!(transfer.amount, 30);
    assert_eq!(c.get_unlocked_deposit(&s("bob"), 1130), Ok(70));
    let sub = c.get_subscription(s(SUB_ID)).unwrap();
    assert_eq!(sub.prev_charge_ts, 1130);
    assert_eq!(sub.state, SubscriptionState::Active { ts: 1000 });
    assert_eq!(c.calcuate_subscription_incurred_cost(&s(SUB_ID), None, 1130), Ok(0));
    assert_eq!(c.calcuate_subscription_incurred_cost(&s(SUB_ID), None, 1190), Ok(10));

    assert_eq!(c.cancel_subscription(&s(SUB_ID), &s("carol"), 1200), Err(ContractError::NotSubscriberOrProvider));
    assert_eq!(c.cancel_subscription(&s("nope"), &s("bob"), 1200), Err(ContractError::NoSuchSubscription));
    c.cancel_subscription(&s(SUB_ID), &s("bob"), 1200).unwrap();
    let sub = c.get_subscription(s(SUB_ID)).unwrap();
    assert_eq!(sub.state, SubscriptionState::Canceled { ts: 1200 });
    assert_eq!(sub.prev_charge_ts, 1130);
    assert_eq!(c.cancel_subscription(&s(SUB_ID), &s("alice"), 1250), Err(ContractError::NotActive));
    // a canceled subscription is charged up to its cancelation, whenever asked
    assert_eq!(c.calcuate_subscription_incurred_cost(&s(SUB_ID), None, 1200), Ok(10));
    assert_eq!(c.calcuate_subscription_incurred_cost(&s(SUB_ID), None, 9999), Ok(10));

    let (listed, transfer) = c.collect_fees(s(PLAN_ID), Some(1250), &s("alice"), 1300).unwrap();
    assert_eq!(listed, vec![(s(SUB_ID), 10)]);
    assert_eq!(transfer.amount, 10);
    assert_eq!(c.get_subscription(s(SUB_ID)).unwrap().state, SubscriptionState::Invalid);
    assert_eq!(c.get_unlocked_deposit(&s("bob"), 1300), Ok(60));
    // an invalid subscription costs nothing and is skipped
    assert_eq!(c.calcuate_subscription_incurred_cost(&s(SUB_ID), None, 5000), Ok(0));
    let (listed, transfer) = c.collect_fees(s(PLAN_ID), None, &s("alice"), 5000).unwrap();
    assert_eq!(listed, vec![(s(SUB_ID), 0)]);
    assert_eq!(transfer.amount, 0);
    assert_eq!(c.cancel_subscription(&s(SUB_ID), &s("bob"), 5000), Err(ContractError::NotActive));
}

#[test]
fn cancel_of_uncharged_subscription_keeps_first_cycle() {
    let mut c = setup(100);
    assert_eq!(c.calcuate_subscription_incurred_cost(&s(SUB_ID), None, 1070), Ok(20));
    c.cancel_subscription(&s(SUB_ID), &s("alice"), 1070).unwrap();
    let sub = c.get_subscription(s(SUB_ID)).unwrap();
    assert_eq!(sub.prev_charge_ts, 940);
    assert_eq!(c.calcuate_subscription_incurred_cost(&s(SUB_ID), None, 1070), Ok(20));
    assert_eq!(c.calcuate_subscription_incurred_cost(&s(SUB_ID), None, 3000), Ok(20));
}

#[test]
fn collect_errors_change_nothing() {
    let mut c = setup(15);
    assert_eq!(
        c.collect_fees(s(PLAN_ID), Some(1131), &s("alice"), 1130).unwrap_err(),
        ContractError::ChargeInFuture
    );
    assert_eq!(c.collect_fees(s("nope"), None, &s("alice"), 1130).unwrap_err(), ContractError::NoSuchPlan);
    // the fund falls short of the fee, and carol may not cancel the subscription
    assert_eq!(
        c.collect_fees(s(PLAN_ID), None, &s("carol"), 1130).unwrap_err(),
        ContractError::NotSubscriberOrProvider
    );
    assert_eq!(c.get_subscription(s(SUB_ID)).unwrap().prev_charge_ts, 0);
    assert_eq!(c.get_unlocked_deposit(&s("bob"), 1000), Ok(5));
}

#[test]
fn collecting_short_fund() {
    let mut c = setup(15);
    // 30 incurred, 15 available: the 15 are charged and the subscription is canceled
    assert_eq!(c.get_available_fund_for_subscription(&s(SUB_ID), 1130), Ok((15, 30)));
    let (listed, transfer) = c.collect_fees(s(PLAN_ID), None, &s("alice"), 1130).unwrap();
    assert_eq!(listed, vec![(s(SUB_ID), 15)]);
    assert_eq!(transfer.amount, 15);
    let sub = c.get_subscription(s(SUB_ID)).unwrap();
    assert_eq!(sub.state, SubscriptionState::Canceled { ts: 1130 });
    assert_eq!(sub.prev_charge_ts, 1130);
    assert_eq!(sub.payments_charged, 3);
    assert_eq!(c.get_unlocked_deposit(&s("bob"), 1130), Ok(0));
}

#[test]
fn fund_goes_to_earlier_due_subscriptions_first() {
    let mut c = Contract::new(s("owner"));
    let a = c.create_subscription_plan(None, 60, 10, 12, None, &s("alice"), 1000).unwrap();
    let b = c.create_subscription_plan(None, 60, 20, 12, None, &s("carol"), 1000).unwrap();
    c.deposit(s("bob"), 140).unwrap();
    let sa = c.create_subscription(a, &s("bob"), 1000).unwrap();
    let sb = c.create_subscription(b, &s("bob"), 5000).unwrap();
    assert_eq!(sb, "4jMZJwWHLT");
    // plan a's 12 payments are all due by now
    assert_eq!(c.calcuate_subscription_incurred_cost(&sa, None, 5060), Ok(120));
    assert_eq!(c.calcuate_subscription_incurred_cost(&sb, None, 5060), Ok(40));
    assert_eq!(c.get_available_fund_for_subscription(&sa, 5060), Ok((120, 120)));
    assert_eq!(c.get_available_fund_for_subscription(&sb, 5060), Ok((20, 40)));
    assert_eq!(c.get_available_fund_for_subscription(&s("nope"), 5060), Err(ContractError::NoSuchSubscription));
}

#[test]
fn next_payment_due() {
    let mut c = setup(100);
    let sub = c.get_subscription(s(SUB_ID)).unwrap();
    assert_eq!(c.get_next_payment_due_ts(&sub), Ok(1000));
    c.collect_fees(s(PLAN_ID), None, &s("alice"), 1130).unwrap();
    let sub = c.get_subscription(s(SUB_ID)).unwrap();
    assert_eq!(c.get_next_payment_due_ts(&sub), Ok(1190));
}

#[test]
fn pruning_removes_invalid_subscriptions() {
    let mut c = setup(100);
    c.prune_subscriptions();
    assert!(c.get_subscription(s(SUB_ID)).is_ok());
    c.collect_fees(s(PLAN_ID), None, &s("alice"), 1130).unwrap();
    c.cancel_subscription(&s(SUB_ID), &s("bob"), 1200).unwrap();
    c.collect_fees(s(PLAN_ID), None, &s("alice"), 1300).unwrap();
    assert_eq!(c.get_subscription(s(SUB_ID)).unwrap().state, SubscriptionState::Invalid);
    c.prune_subscriptions();
    assert_eq!(c.get_subscription(s(SUB_ID)).unwrap_err(), ContractError::NoSuchSubscription);
    assert_eq!(c.list_subscriptions_by_plan_id(s(PLAN_ID)).unwrap().len(), 0);
    assert_eq!(c.calculate_total_fees_for_subscriber(&s("bob"), 1300), Ok(0));
}

/// alice deposits 150 and subscribes at 1000 to bob's plan of 100 per 60.
fn setup_150() -> (Contract, String, String) {
    let mut c = Contract::new(s("carol"));
    let p = c.create_subscription_plan(None, 60, 100, 12, None, &s("bob"), 1000).unwrap();
    c.deposit(s("alice"), 150).unwrap();
    let sub = c.create_subscription(p.clone(), &s("alice"), 1000).unwrap();
    (c, p, sub)
}

#[test]
fn whole_deposit_available_to_a_single_subscription() {
    let (c, _p, sub) = setup_150();
    assert_eq!(c.get_available_fund_for_subscription(&sub, 1000), Ok((100, 100)));
    assert_eq!(c.validate_subscription(&sub, None, 1000), Ok(true));
}

#[test]
fn collecting_a_covered_fee() {
    let (mut c, p, sub) = setup_150();
    let (listed, transfer) = c.collect_fees(p, None, &s("bob"), 1000).unwrap();
    assert_eq!(listed, vec![(sub.clone(), 100)]);
    assert_eq!(transfer.receiver_id, "bob");
    assert_eq!(transfer.amount, 100);
    assert_eq!(c.get_unlocked_deposit(&s("alice"), 1000), Ok(50));
    let st = c.get_subscription(sub).unwrap();
    assert_eq!(st.state, SubscriptionState::Active { ts: 1000 });
    assert_eq!(st.prev_charge_ts, 1000);
    assert_eq!(st.payments_charged, 1);
}

#[test]
fn nothing_charged_keeps_charge_time() {
    let mut c = setup(100);
    c.collect_fees(s(PLAN_ID), None, &s("alice"), 1130).unwrap();
    let (listed, _t) = c.collect_fees(s(PLAN_ID), None, &s("alice"), 1150).unwrap();
    assert_eq!(listed, vec![(s(SUB_ID), 0)]);
    assert_eq!(c.get_subscription(s(SUB_ID)).unwrap().prev_charge_ts, 1130);
}

#[test]
fn canceled_and_ended_subscription_becomes_invalid_without_funds() {
    let mut c = setup(30);
    // charged at 1000 for the first cycle, canceled at 1030, the rest withdrawn
    c.collect_fees(s(PLAN_ID), None, &s("alice"), 1000).unwrap();
    c.cancel_subscription(&s(SUB_ID), &s("bob"), 1030).unwrap();
    c.withdraw(None, &s("bob"), 1030).unwrap();
    let (listed, transfer) = c.collect_fees(s(PLAN_ID), None, &s("alice"), 1200).unwrap();
    assert_eq!(listed, vec![(s(SUB_ID), 0)]);
    assert_eq!(transfer.amount, 0);
    assert_eq!(c.get_subscription(s(SUB_ID)).unwrap().state, SubscriptionState::Invalid);
}

#[test]
fn canceled_subscription_collected_before_its_cycle_ends() {
    let mut c = setup(100);
    c.collect_fees(s(PLAN_ID), None, &s("alice"), 1000).unwrap();
    c.cancel_subscription(&s(SUB_ID), &s("bob"), 1030).unwrap();
    let (listed, _t) = c.collect_fees(s(PLAN_ID), None, &s("alice"), 1050).unwrap();
    assert_eq!(listed, vec![(s(SUB_ID), 0)]);
    let sub = c.get_subscription(s(SUB_ID)).unwrap();
    assert_eq!(sub.state, SubscriptionState::Canceled { ts: 1030 });
    assert_eq!(sub.prev_charge_ts, 1000);
    assert_eq!(c.calcuate_subscription_incurred_cost(&s(SUB_ID), None, 1050), Ok(0));
}

#[test]
fn plan_bills_at_most_its_payments() {
    let mut c = Contract::new(s("owner"));
    let p = c.create_subscription_plan(None, 60, 100, 1, None, &s("alice"), 1000).unwrap();
    c.deposit(s("bob"), 3000).unwrap();
    let sub = c.create_subscription(p.clone(), &s("bob"), 1000).unwrap();
    let (listed, _t) = c.collect_fees(p.clone(), None, &s("alice"), 1180).unwrap();
    assert_eq!(listed, vec![(sub.clone(), 100)]);
    let (listed, _t) = c.collect_fees(p.clone(), None, &s("alice"), 5000).unwrap();
    assert_eq!(listed, vec![(sub.clone(), 0)]);
    assert_eq!(c.get_subscription(sub).unwrap().payments_charged, 1);
    // a plan without end keeps billing
    let q = c.create_subscription_plan(None, 60, 10, 0, None, &s("alice"), 2000).unwrap();
    let s2 = c.create_subscription(q, &s("bob"), 2000).unwrap();
    assert_eq!(c.calcuate_subscription_incurred_cost(&s2, None, 8000), Ok(1010));
}

#[test]
fn reused_identifier_moves_to_the_new_plan() {
    let mut c = Contract::new(s("owner"));
    let a = c.create_subscription_plan(None, 60, 10, 12, None, &s("alice"), 1000).unwrap();
    let b = c.create_subscription_plan(None, 60, 10, 12, None, &s("carol"), 1000).unwrap();
    c.deposit(s("bob"), 100).unwrap();
    let s1 = c.create_subscription(a.clone(), &s("bob"), 1000).unwrap();
    let s2 = c.create_subscription(b.clone(), &s("bob"), 1000).unwrap();
    assert_eq!(s1, s2);
    assert_eq!(c.list_subscriptions_by_plan_id(a).unwrap().len(), 0);
    let lb = c.list_subscriptions_by_plan_id(b.clone()).unwrap();
    assert_eq!(lb.len(), 1);
    assert_eq!(lb[0].1.plan_id, b);
}

#[test]
fn cost_grows_with_time() {
    let c = setup(100);
    let mut last = 0u128;
    for now in [1000u64, 1059, 1060, 1119, 1120, 2000, 5000] {
        let cost = c.calcuate_subscription_incurred_cost(&s(SUB_ID), None, now).unwrap();
        assert!(cost >= last);
        last = cost;
    }
    assert_eq!(last, 120);
}

#[test]
fn collected_total_equals_deposits_taken() {
    let mut c = Contract::new(s("owner"));
    let plan = c.create_subscription_plan(None, 60, 10, 12, None, &s("alice"), 1000).unwrap();
    c.deposit(s("bob"), 100).unwrap();
    c.deposit(s("dave"), 25).unwrap();
    let sb = c.create_subscription(plan.clone(), &s("bob"), 1000).unwrap();
    let sd = c.create_subscription(plan.clone(), &s("dave"), 1000).unwrap();
    let (listed, transfer) = c.collect_fees(plan, None, &s("alice"), 1130).unwrap();
    // bob pays his 30; dave has 25 for 30 incurred: he pays 25 and is canceled
    assert_eq!(listed, vec![(sb, 30), (sd.clone(), 25)]);
    assert_eq!(transfer.amount, 55);
    assert_eq!(c.get_unlocked_deposit(&s("bob"), 1130), Ok(70));
    assert_eq!(c.get_unlocked_deposit(&s("dave"), 1130), Ok(0));
    assert_eq!(c.get_subscription(sd).unwrap().state, SubscriptionState::Canceled { ts: 1130 });
}

#[test]
fn canceled_subscription_charged_before_its_last_cycle_ends() {
    let mut c = setup(100);
    c.collect_fees(s(PLAN_ID), None, &s("alice"), 1130).unwrap();
    c.cancel_subscription(&s(SUB_ID), &s("bob"), 1200).unwrap();
    // the next payment falls due at 1190, not before 1150: the subscription stays canceled
    let (listed, transfer) = c.collect_fees(s(PLAN_ID), None, &s("alice"), 1150).unwrap();
    assert_eq!(listed, vec![(s(SUB_ID), 10)]);
    assert_eq!(transfer.amount, 10);
    let sub = c.get_subscription(s(SUB_ID)).unwrap();
    assert_eq!(sub.state, SubscriptionState::Canceled { ts: 1200 });
    assert_eq!(sub.prev_charge_ts, 1150);
    assert_eq!(c.calcuate_subscription_incurred_cost(&s(SUB_ID), None, 1150), Ok(0));
    assert_eq!(c.get_unlocked_deposit(&s("bob"), 1150), Ok(60));
}

#[test]
fn stored_parts_rebuild_the_same_state() {
    let mut c = setup(100);
    c.collect_fees(s(PLAN_ID), None, &s("alice"), 1130).unwrap();
    let parts = c.to_parts();
    assert_eq!(parts.owner, "owner");
    assert_eq!(parts.plans.len(), 1);
    assert_eq!(parts.subscriptions.len(), 1);
    assert_eq!(parts.plan_subscriptions, vec![(s(PLAN_ID), vec![s(SUB_ID)])]);
    assert_eq!(parts.subscriber_subscriptions, vec![(s("bob"), vec![s(SUB_ID)])]);
    assert_eq!(parts.deposits, vec![(s("bob"), 70)]);
    let back = Contract::from_parts(&parts).unwrap();
    assert_eq!(format!("{:?}", back.get_plan(s(PLAN_ID))), format!("{:?}", c.get_plan(s(PLAN_ID))));
    assert_eq!(
        format!("{:?}", back.get_subscription(s(SUB_ID))),
        format!("{:?}", c.get_subscription(s(SUB_ID)))
    );
    assert_eq!(back.get_unlocked_deposit(&s("bob"), 1130), c.get_unlocked_deposit(&s("bob"), 1130));
    assert_eq!(
        format!("{:?}", back.list_subscriptions_by_plan_id(s(PLAN_ID))),
        format!("{:?}", c.list_subscriptions_by_plan_id(s(PLAN_ID)))
    );
}

#[test]
fn stored_parts_with_a_repeated_key_are_refused() {
    let c = setup(100);
    let parts = c.to_parts();
    let mut deposits = parts.deposits.clone();
    deposits.push((s("bob"), 5));
    let bad = ContractParts { deposits, ..parts };
    assert!(Contract::from_parts(&bad).is_none());
}

#[test]
fn subscription_turned_invalid_keeps_its_charge_record() {
    let mut c = setup(100);
    c.collect_fees(s(PLAN_ID), None, &s("alice"), 1000).unwrap();
    c.cancel_subscription(&s(SUB_ID), &s("bob"), 1130).unwrap();
    // two whole cycles ran from 1000 to the cancelation; the next payment fell due at 1060
    let (listed, transfer) = c.collect_fees(s(PLAN_ID), None, &s("alice"), 1300).unwrap();
    assert_eq!(listed, vec![(s(SUB_ID), 20)]);
    assert_eq!(transfer.amount, 20);
    let sub = c.get_subscription(s(SUB_ID)).unwrap();
    assert_eq!(sub.state, SubscriptionState::Invalid);
    assert_eq!(sub.prev_charge_ts, 1000);
    assert_eq!(sub.payments_charged, 1);
    assert_eq!(c.get_unlocked_deposit(&s("bob"), 1300), Ok(70));
}

#[test]
fn subscription_canceled_by_a_collection_keeps_an_earlier_charge_time() {
    let mut c = setup(10);
    c.collect_fees(s(PLAN_ID), None, &s("alice"), 1000).unwrap();
    let (listed, _t) = c.collect_fees(s(PLAN_ID), None, &s("alice"), 1200).unwrap();
    assert_eq!(listed, vec![(s(SUB_ID), 0)]);
    let sub = c.get_subscription(s(SUB_ID)).unwrap();
    assert_eq!(sub.state, SubscriptionState::Canceled { ts: 1200 });
    assert_eq!(sub.prev_charge_ts, 1000);
    assert_eq!(c.calcuate_subscription_incurred_cost(&s(SUB_ID), None, 1200), Ok(30));
}

#[test]
fn repeated_collections_bill_at_most_the_plan() {
    let mut c = Contract::new(s("owner"));
    let p = c.create_subscription_plan(None, 60, 100, 3, None, &s("alice"), 1000).unwrap();
    c.deposit(s("bob"), 10_000).unwrap();
    let sub = c.create_subscription(p.clone(), &s("bob"), 1000).unwrap();
    let mut billed: u128 = 0;
    for now in [1000u64, 1070, 1130, 1400, 2000, 9000] {
        let (listed, _t) = c.collect_fees(p.clone(), None, &s("alice"), now).unwrap();
        billed += listed.iter().filter(|e| e.0 == sub).map(|e| e.1).sum::<u128>();
    }
    assert_eq!(billed, 300);
    assert_eq!(c.get_subscription(sub).unwrap().payments_charged, 3);
    assert_eq!(c.get_unlocked_deposit(&s("bob"), 9000), Ok(9_700));
}

#[test]
fn plan_is_read_back_after_other_calls() {
    let mut c = Contract::new(s("owner"));
    let p = c.create_subscription_plan(Some(s("dave")), 90, 7, 4, Some(s("gold")), &s("alice"), 1000).unwrap();
    c.deposit(s("bob"), 100).unwrap();
    let sub = c.create_subscription(p.clone(), &s("bob"), 1100).unwrap();
    c.collect_fees(p.clone(), None, &s("dave"), 1200).unwrap();
    c.cancel_subscription(&sub, &s("bob"), 1250).unwrap();
    c.withdraw(Some(10), &s("bob"), 1260).unwrap();
    c.prune_subscriptions();
    c.create_subscription_plan(None, 60, 1, 0, None, &s("alice"), 2000).unwrap();
    let plan = c.get_plan(p).unwrap();
    assert_eq!(plan.provider_id, "dave");
    assert_eq!(plan.payment_cycle_length, 90);
    assert_eq!(plan.payment_cycle_rate, 7);
    assert_eq!(plan.payment_cycle_count, 4);
    assert_eq!(plan.plan_name, Some(s("gold")));
}
