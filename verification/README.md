# contract

A subscription service for NEAR: providers publish payment plans, subscribers
keep a deposit with the service and subscribe to plans, and providers collect
the fees that subscriptions have incurred. The service's rules are written in
Verus and proved against a mathematical model of its state.

- `src/types.rs`: plans, subscriptions, payments, errors, and their views.
- `src/store.rs`: a map keyed by strings and an ordered set of identifiers.
- `src/ids.rs`: identifiers derived from an account and a time (Base58).
- `src/fees.rs`: what a subscription costs over a charge period; due times.
- `src/model.rs`: the state as maps, its invariant, and the result of each call.
- `src/contract.rs`: the contract itself, with each call proved to meet the model.
- `src/laws.rs`: properties that span calls (upfront payment, conservation of
  funds in fee collection, and others).
- `app/lib.rs`: the NEAR entry points; they read the caller, the block time and
  the attached deposit, call the library, and make the payments it decides.
