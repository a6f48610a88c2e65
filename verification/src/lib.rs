//! Aggregation of relative token-balance deltas into absolute balances.
//!
//! The crate has two halves, meant to be consumed in sequence:
//!
//! * an accumulator ([`accumulate::store_balance_changes`]) that folds an ordered stream of
//!   relative balance deltas into an additive key/value store, enforcing
//!   strictly increasing sequence positions per store key, and
//! * a reconciler ([`reconcile::aggregate_balances_changes`]) that zips the store's
//!   change-log with the same delta stream and regroups the absolute values
//!   per transaction, keeping the last change per token (last-write-wins).

pub mod accumulate;
pub mod bigint;
pub mod bytes;
pub mod hexs;
pub mod num;
pub mod reconcile;
pub mod store;
pub mod types;
