use std::str::FromStr;
use substreams::scalar::BigInt;
use tycho_balances::accumulate::{balance_key, store_balance_changes};
use tycho_balances::reconcile::aggregate_balances_changes;
use tycho_balances::store::AddStore;
use tycho_balances::types::{
    BalanceChange, BalanceDelta, BalanceError, BlockBalanceDeltas, StoreDelta, StoreDeltas,
    Transaction, TxAggregate,
};

fn tx_01() -> Transaction {
    Transaction { hash: vec![0, 1], from: vec![9, 9], to: vec![8, 8], index: 0 }
}

fn delta(ord: u64, token: &[u8], amount: &str, comp_id: &[u8]) -> BalanceDelta {
    BalanceDelta {
        ord,
        tx: Some(tx_01()),
        token: token.to_vec(),
        delta: BigInt::from_str(amount).unwrap().to_signed_bytes_be(),
        component_id: comp_id.to_vec(),
    }
}

fn block_balance_deltas() -> BlockBalanceDeltas {
    let comp_id = "0x42c0ffee".to_string().as_bytes().to_vec();
    let token_0 = hex::decode("bad999").unwrap();
    let token_1 = hex::decode("babe00").unwrap();
    BlockBalanceDeltas {
        balance_deltas: vec![
            delta(0, &token_0, "+1000", &comp_id),
            delta(2, &token_1, "+100", &comp_id),
            delta(3, &token_1, "50", &comp_id),
            delta(10, &token_0, "-1", &comp_id),
        ],
    }
}

fn store_deltas() -> StoreDeltas {
    let comp_id = "0x42c0ffee".to_string();
    let t0_key = format!("{}:{}", comp_id, "bad999").into_bytes();
    let t1_key = format!("{}:{}", comp_id, "babe00").into_bytes();
    let entry = |ordinal: u64, key: &Vec<u8>, old: i64, new: i64| StoreDelta {
        ordinal,
        key: key.clone(),
        old_value: BigInt::from(old).to_string().into_bytes(),
        new_value: BigInt::from(new).to_string().into_bytes(),
    };
    StoreDeltas {
        deltas: vec![
            entry(0, &t0_key, 0, 1000),
            entry(2, &t1_key, 0, 100),
            entry(3, &t1_key, 100, 150),
            entry(10, &t0_key, 1000, 999),
        ],
    }
}

#[test]
fn test_store_balances() {
    let comp_id = "0x42c0ffee".to_string().as_bytes().to_vec();
    let token_0 = hex::decode("bad999").unwrap();
    let token_1 = hex::decode("babe00").unwrap();
    let deltas = block_balance_deltas();
    let mut store = AddStore::new();

    store_balance_changes(&deltas, &mut store).unwrap();
    let key_0 = balance_key(&comp_id, &token_0).unwrap();
    let key_1 = balance_key(&comp_id, &token_1).unwrap();
    let res_0 = store.get_last(&key_0);
    let res_1 = store.get_last(&key_1);

    let exp_0 = BigInt::from_str("+999").unwrap().to_string().into_bytes();
    let exp_1 = BigInt::from_str("+150").unwrap().to_string().into_bytes();
    assert_eq!(res_0, Some(exp_0));
    assert_eq!(res_1, Some(exp_1));
}

#[test]
fn test_aggregate_balances_changes() {
    let store_deltas = store_deltas();
    let balance_deltas = block_balance_deltas();
    let comp_id = "0x42c0ffee".to_string().as_bytes().to_vec();
    let token_0 = hex::decode("bad999").unwrap();
    let token_1 = hex::decode("babe00").unwrap();

    let exp = vec![TxAggregate {
        tx: tx_01(),
        balances: vec![
            BalanceChange {
                token: token_0,
                balance: BigInt::from(999).to_signed_bytes_be(),
                component_id: comp_id.clone(),
            },
            BalanceChange { token: token_1, balance: vec![150], component_id: comp_id.clone() },
        ],
    }];

    let res = aggregate_balances_changes(&store_deltas, &balance_deltas).unwrap();
    assert_eq!(res, exp);
}

#[test]
fn accumulate_then_reconcile_round_trip() {
    // The change-log the accumulator produced feeds the reconciler directly.
    let deltas = block_balance_deltas();
    let mut store = AddStore::new();
    store_balance_changes(&deltas, &mut store).unwrap();
    let log = store.take_changelog();
    assert_eq!(log.deltas.len(), 4);
    assert_eq!(log.deltas[0].old_value, b"0".to_vec());
    assert_eq!(log.deltas[0].new_value, b"1000".to_vec());
    assert_eq!(log.deltas[3].old_value, b"1000".to_vec());
    assert_eq!(log.deltas[3].new_value, b"999".to_vec());

    let res = aggregate_balances_changes(&log, &deltas).unwrap();
    assert_eq!(res.len(), 1);
    assert_eq!(res[0].tx, tx_01());
    assert_eq!(res[0].balances.len(), 2);
    assert_eq!(res[0].balances[0].balance, vec![3, 231]);
    assert_eq!(res[0].balances[1].balance, vec![150]);

    // Re-deriving the store key from each reported change finds the same
    // absolute value in the store.
    for bc in &res[0].balances {
        let key = balance_key(&bc.component_id, &bc.token).unwrap();
        let stored = store.get_last(&key).unwrap();
        let magnitude = BigInt::from_str(core::str::from_utf8(&stored).unwrap())
            .unwrap()
            .to_bytes_be()
            .1;
        assert_eq!(magnitude, bc.balance);
    }
}

#[test]
fn equal_ordinals_are_rejected() {
    let comp_id = b"C".to_vec();
    let token_0 = b"\x01".to_vec();
    let deltas = BlockBalanceDeltas {
        balance_deltas: vec![
            delta(5, &token_0, "7", &comp_id),
            delta(5, &token_0, "8", &comp_id),
        ],
    };
    let mut store = AddStore::new();
    let err = store_balance_changes(&deltas, &mut store).unwrap_err();
    let key = balance_key(&comp_id, &token_0).unwrap();
    assert_eq!(err, BalanceError::OrderingViolation { key: key.clone(), previous: 5, current: 5 });
    // The first delta was applied, the offender was not.
    assert_eq!(store.get_last(&key), Some(b"7".to_vec()));
}

#[test]
fn decreasing_ordinals_are_rejected() {
    let comp_id = b"C".to_vec();
    let token_0 = b"\x01".to_vec();
    let deltas = BlockBalanceDeltas {
        balance_deltas: vec![
            delta(9, &token_0, "7", &comp_id),
            delta(3, &token_0, "8", &comp_id),
        ],
    };
    let mut store = AddStore::new();
    let err = store_balance_changes(&deltas, &mut store).unwrap_err();
    let key = balance_key(&comp_id, &token_0).unwrap();
    assert_eq!(err, BalanceError::OrderingViolation { key, previous: 9, current: 3 });
}

#[test]
fn invalid_component_id_is_rejected() {
    let bad = vec![0xffu8, 0xfe];
    let deltas = BlockBalanceDeltas { balance_deltas: vec![delta(0, b"\x01", "1", &bad)] };
    let mut store = AddStore::new();
    let err = store_balance_changes(&deltas, &mut store).unwrap_err();
    assert_eq!(err, BalanceError::InvalidComponentId { component_id: bad });
}

fn one_pair(key: &[u8], new_value: &[u8], tx: Option<Transaction>) -> (StoreDeltas, BlockBalanceDeltas) {
    let sd = StoreDeltas {
        deltas: vec![StoreDelta {
            ordinal: 0,
            key: key.to_vec(),
            old_value: b"0".to_vec(),
            new_value: new_value.to_vec(),
        }],
    };
    let ds = BlockBalanceDeltas {
        balance_deltas: vec![BalanceDelta {
            ord: 0,
            tx,
            token: vec![1],
            delta: vec![1],
            component_id: b"C".to_vec(),
        }],
    };
    (sd, ds)
}

#[test]
fn key_without_token_segment_is_rejected() {
    let (sd, ds) = one_pair(b"nocolon", b"5", Some(tx_01()));
    let err = aggregate_balances_changes(&sd, &ds).unwrap_err();
    assert_eq!(err, BalanceError::InvalidKey { key: b"nocolon".to_vec() });
}

#[test]
fn invalid_token_hex_is_rejected() {
    let (sd, ds) = one_pair(b"C:zz", b"5", Some(tx_01()));
    let err = aggregate_balances_changes(&sd, &ds).unwrap_err();
    assert_eq!(err, BalanceError::InvalidTokenHex { segment: b"zz".to_vec() });
}

#[test]
fn non_integer_value_is_rejected() {
    let (sd, ds) = one_pair(b"C:01", b"x9", Some(tx_01()));
    let err = aggregate_balances_changes(&sd, &ds).unwrap_err();
    assert_eq!(err, BalanceError::InvalidValue { value: b"x9".to_vec() });
}

#[test]
fn missing_transaction_is_rejected() {
    let (sd, ds) = one_pair(b"C:01", b"5", None);
    let err = aggregate_balances_changes(&sd, &ds).unwrap_err();
    assert_eq!(err, BalanceError::MissingTransaction { ord: 0 });
}

#[test]
fn empty_inputs_give_empty_output() {
    let sd = StoreDeltas { deltas: vec![] };
    let ds = BlockBalanceDeltas { balance_deltas: vec![] };
    assert_eq!(aggregate_balances_changes(&sd, &ds).unwrap(), vec![]);
    let mut store = AddStore::new();
    store_balance_changes(&ds, &mut store).unwrap();
    assert_eq!(store.get_last(b"C:01"), None);
}

#[test]
fn one_group_per_distinct_transaction_hash() {
    let comp = "C".to_string();
    let key = format!("{}:{}", comp, "01").into_bytes();
    let entry = |ordinal: u64, new: i64| StoreDelta {
        ordinal,
        key: key.clone(),
        old_value: b"0".to_vec(),
        new_value: BigInt::from(new).to_string().into_bytes(),
    };
    let mk_tx = |h: u8| Transaction { hash: vec![h], from: vec![], to: vec![], index: 0 };
    let mk_delta = |ord: u64, h: u8| BalanceDelta {
        ord,
        tx: Some(mk_tx(h)),
        token: vec![1],
        delta: vec![1],
        component_id: b"C".to_vec(),
    };
    let sd = StoreDeltas { deltas: vec![entry(0, 5), entry(1, 6), entry(2, 7)] };
    let ds = BlockBalanceDeltas {
        balance_deltas: vec![mk_delta(0, 1), mk_delta(1, 2), mk_delta(2, 1)],
    };
    let res = aggregate_balances_changes(&sd, &ds).unwrap();
    assert_eq!(res.len(), 2);
    // Group order follows first appearance; last write per (hash, token) wins.
    assert_eq!(res[0].tx, mk_tx(1));
    assert_eq!(res[0].balances, vec![BalanceChange {
        token: vec![1],
        balance: vec![7],
        component_id: b"C".to_vec(),
    }]);
    assert_eq!(res[1].tx, mk_tx(2));
    assert_eq!(res[1].balances[0].balance, vec![6]);
}

#[test]
fn mismatched_lengths_truncate_to_shorter() {
    let (sd, _) = one_pair(b"C:01", b"5", Some(tx_01()));
    let ds = BlockBalanceDeltas { balance_deltas: vec![] };
    assert_eq!(aggregate_balances_changes(&sd, &ds).unwrap(), vec![]);
}
