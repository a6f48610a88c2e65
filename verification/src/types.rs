//! The data the two components exchange: relative balance deltas coming in,
//! store change-log entries and per-transaction absolute balance changes
//! going out, and the error taxonomy of both components.

use vstd::prelude::*;

verus! {

/// Immutable identity of one unit of work; `hash` is the aggregation key.
#[derive(Debug, Clone, PartialEq, Eq)]
pub struct Transaction {
    pub hash: Vec<u8>,
    pub from: Vec<u8>,
    pub to: Vec<u8>,
    pub index: u32,
}

/// Mathematical image of a [`Transaction`].
pub struct TransactionView {
    pub hash: Seq<u8>,
    pub from: Seq<u8>,
    pub to: Seq<u8>,
    pub index: u32,
}

impl View for Transaction {
    type V = TransactionView;

    open spec fn view(&self) -> TransactionView {
        TransactionView { hash: self.hash@, from: self.from@, to: self.to@, index: self.index }
    }
}

/// One relative change to one token's balance within one component,
/// attributed to one transaction. `ord` is the monotonic sequence position,
/// `delta` a signed big-endian two's-complement byte string.
#[derive(Debug, Clone, PartialEq, Eq)]
pub struct BalanceDelta {
    pub ord: u64,
    pub tx: Option<Transaction>,
    pub token: Vec<u8>,
    pub delta: Vec<u8>,
    pub component_id: Vec<u8>,
}

/// Mathematical image of a [`BalanceDelta`].
pub struct BalanceDeltaView {
    pub ord: u64,
    pub tx: Option<TransactionView>,
    pub token: Seq<u8>,
    pub delta: Seq<u8>,
    pub component_id: Seq<u8>,
}

impl View for BalanceDelta {
    type V = BalanceDeltaView;

    open spec fn view(&self) -> BalanceDeltaView {
        BalanceDeltaView {
            ord: self.ord,
            tx: match self.tx {
                Some(t) => Some(t@),
                None => None,
            },
            token: self.token@,
            delta: self.delta@,
            component_id: self.component_id@,
        }
    }
}

/// One block's worth of relative balance deltas, in stream order.
#[derive(Debug, Clone, PartialEq, Eq)]
pub struct BlockBalanceDeltas {
    pub balance_deltas: Vec<BalanceDelta>,
}

impl View for BlockBalanceDeltas {
    type V = Seq<BalanceDeltaView>;

    open spec fn view(&self) -> Seq<BalanceDeltaView> {
        self.balance_deltas@.map_values(|d: BalanceDelta| d@)
    }
}

/// One change-log entry of the additive store: the absolute value under a
/// key before and after one addition, both as ASCII base-10 byte strings.
#[derive(Debug, Clone, PartialEq, Eq)]
pub struct StoreDelta {
    pub ordinal: u64,
    pub key: Vec<u8>,
    pub old_value: Vec<u8>,
    pub new_value: Vec<u8>,
}

/// Mathematical image of a [`StoreDelta`].
pub struct StoreDeltaView {
    pub ordinal: u64,
    pub key: Seq<u8>,
    pub old_value: Seq<u8>,
    pub new_value: Seq<u8>,
}

impl View for StoreDelta {
    type V = StoreDeltaView;

    open spec fn view(&self) -> StoreDeltaView {
        StoreDeltaView {
            ordinal: self.ordinal,
            key: self.key@,
            old_value: self.old_value@,
            new_value: self.new_value@,
        }
    }
}

/// The ordered change-log of the additive store over one block.
#[derive(Debug, Clone, PartialEq, Eq)]
pub struct StoreDeltas {
    pub deltas: Vec<StoreDelta>,
}

impl View for StoreDeltas {
    type V = Seq<StoreDeltaView>;

    open spec fn view(&self) -> Seq<StoreDeltaView> {
        self.deltas@.map_values(|d: StoreDelta| d@)
    }
}

/// One absolute balance snapshot: the token, its accumulated balance as an
/// unsigned big-endian magnitude, and the owning component.
#[derive(Debug, Clone, PartialEq, Eq)]
pub struct BalanceChange {
    pub token: Vec<u8>,
    pub balance: Vec<u8>,
    pub component_id: Vec<u8>,
}

/// Mathematical image of a [`BalanceChange`].
pub struct BalanceChangeView {
    pub token: Seq<u8>,
    pub balance: Seq<u8>,
    pub component_id: Seq<u8>,
}

impl View for BalanceChange {
    type V = BalanceChangeView;

    open spec fn view(&self) -> BalanceChangeView {
        BalanceChangeView {
            token: self.token@,
            balance: self.balance@,
            component_id: self.component_id@,
        }
    }
}

/// All balance changes of one transaction: the transaction of the first
/// delta seen under its hash, and one change per token (the last seen).
#[derive(Debug, Clone, PartialEq, Eq)]
pub struct TxAggregate {
    pub tx: Transaction,
    pub balances: Vec<BalanceChange>,
}

/// A fatal defect of the input; the whole invocation is rejected.
#[derive(Debug, Clone, PartialEq, Eq)]
pub enum BalanceError {
    /// A delta's sequence position does not strictly exceed the last one
    /// recorded under the same store key.
    OrderingViolation { key: Vec<u8>, previous: u64, current: u64 },
    /// A delta's component id is not valid UTF-8.
    InvalidComponentId { component_id: Vec<u8> },
    /// A change-log key has no `:`-separated token segment.
    InvalidKey { key: Vec<u8> },
    /// The token segment of a change-log key is not valid hex.
    InvalidTokenHex { segment: Vec<u8> },
    /// A change-log value is not an ASCII base-10 integer.
    InvalidValue { value: Vec<u8> },
    /// A delta carries no transaction.
    MissingTransaction { ord: u64 },
}

/// Mathematical image of a [`BalanceError`].
pub enum BalanceErrorView {
    OrderingViolation { key: Seq<u8>, previous: u64, current: u64 },
    InvalidComponentId { component_id: Seq<u8> },
    InvalidKey { key: Seq<u8> },
    InvalidTokenHex { segment: Seq<u8> },
    InvalidValue { value: Seq<u8> },
    MissingTransaction { ord: u64 },
}

impl View for BalanceError {
    type V = BalanceErrorView;

    open spec fn view(&self) -> BalanceErrorView {
        match self {
            BalanceError::OrderingViolation { key, previous, current } => {
                BalanceErrorView::OrderingViolation {
                    key: key@,
                    previous: *previous,
                    current: *current,
                }
            },
            BalanceError::InvalidComponentId { component_id } => {
                BalanceErrorView::InvalidComponentId { component_id: component_id@ }
            },
            BalanceError::InvalidKey { key } => BalanceErrorView::InvalidKey { key: key@ },
            BalanceError::InvalidTokenHex { segment } => {
                BalanceErrorView::InvalidTokenHex { segment: segment@ }
            },
            BalanceError::InvalidValue { value } => {
                BalanceErrorView::InvalidValue { value: value@ }
            },
            BalanceError::MissingTransaction { ord } => {
                BalanceErrorView::MissingTransaction { ord: *ord }
            },
        }
    }
}

} // verus!
