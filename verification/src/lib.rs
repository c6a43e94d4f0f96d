//! A subscription service: providers publish payment plans, subscribers keep a
//! deposit and subscribe to plans, and providers collect the fees that the
//! subscriptions have incurred.

pub mod contract;
pub mod fees;
pub mod ids;
pub mod laws;
pub mod model;
pub mod store;
pub mod types;

pub use crate::contract::{Contract, ContractState, ProviderActions, SubscriberActions};
pub use crate::model::ContractView;
pub use crate::types::{
    ContractError, ContractParts, Subscription, SubscriptionPlan, SubscriptionState, Transfer,
};
