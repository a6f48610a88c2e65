//! The reconciler: zips the store's change-log positionally with the raw
//! delta stream, rebuilds one absolute balance change per pair, and regroups
//! the changes per transaction hash, keeping the last change per token.

use crate::accumulate::{
    applied, delta_key, key_total, log_entry_of, store_key_of,
};
use crate::bigint::dec_to_magnitude;
use crate::bytes::{bytes_eq, copy_bytes, find_first, first_pos, lemma_first_pos_unique, sub_bytes};
use crate::hexs::{hex_bytes_of, hex_decode, hex_decoded, is_hex_str, lemma_hex_round_trip};
use crate::num::{
    be_val, dec_repr, int_mag, lemma_dec_repr_val, lemma_mag_be_val,
    lemma_signed_decimal_parseable, mag_be, parseable_decimal, parsed_dec_val,
};
use crate::store::AddStore;
use crate::types::{
    BalanceChange, BalanceChangeView, BalanceDeltaView, BalanceError, BalanceErrorView,
    BlockBalanceDeltas, StoreDeltaView, StoreDeltas, Transaction, TxAggregate,
};
use vstd::prelude::*;

verus! {

/// The component segment of a composite store key: everything before the
/// first `:` (the whole key where there is none).
pub open spec fn key_component(k: Seq<u8>) -> Seq<u8> {
    k.take(first_pos(k, 58))
}

/// Whether a composite store key has a token segment, that is, a `:`.
pub open spec fn key_has_token(k: Seq<u8>) -> bool {
    first_pos(k, 58) < k.len()
}

/// The token segment of a composite store key: everything between the first
/// `:` and the next `:` or the end.
pub open spec fn key_token_hex(k: Seq<u8>) -> Seq<u8> {
    let rest = k.skip(first_pos(k, 58) + 1);
    rest.take(first_pos(rest, 58))
}

/// The number of positionally aligned pairs: the shorter of the two inputs.
pub open spec fn pair_count(sd: Seq<StoreDeltaView>, ds: Seq<BalanceDeltaView>) -> int {
    if sd.len() <= ds.len() {
        sd.len() as int
    } else {
        ds.len() as int
    }
}

/// Whether one aligned pair can be reconciled: the key has a token segment
/// of valid hex, the new value is a base-10 integer, and the delta carries a
/// transaction.
#[verifier::opaque]
pub open spec fn pair_ok(s: StoreDeltaView, d: BalanceDeltaView) -> bool {
    &&& key_has_token(s.key)
    &&& is_hex_str(key_token_hex(s.key))
    &&& parseable_decimal(s.new_value)
    &&& d.tx is Some
}

/// Whether the first `n` aligned pairs can all be reconciled.
pub open spec fn pairs_clean(sd: Seq<StoreDeltaView>, ds: Seq<BalanceDeltaView>, n: int) -> bool {
    forall|i: int| 0 <= i < n ==> pair_ok(sd[i], #[trigger] ds[i])
}

/// The error reported for the first pair that cannot be reconciled.
#[verifier::opaque]
pub open spec fn pair_defect(s: StoreDeltaView, d: BalanceDeltaView) -> BalanceErrorView {
    if !key_has_token(s.key) {
        BalanceErrorView::InvalidKey { key: s.key }
    } else if !is_hex_str(key_token_hex(s.key)) {
        BalanceErrorView::InvalidTokenHex { segment: key_token_hex(s.key) }
    } else if !parseable_decimal(s.new_value) {
        BalanceErrorView::InvalidValue { value: s.new_value }
    } else {
        BalanceErrorView::MissingTransaction { ord: d.ord }
    }
}

/// The absolute balance change one change-log entry denotes: the token
/// decoded from the key, the new value re-encoded as a big-endian magnitude,
/// and the component segment of the key.
#[verifier::opaque]
pub open spec fn change_of(s: StoreDeltaView) -> BalanceChangeView {
    BalanceChangeView {
        token: hex_decoded(key_token_hex(s.key)),
        balance: mag_be(int_mag(parsed_dec_val(s.new_value))),
        component_id: key_component(s.key),
    }
}

/// The transaction hash an aligned pair is grouped under.
pub open spec fn pair_hash(d: BalanceDeltaView) -> Seq<u8> {
    d.tx.unwrap().hash
}

/// The hash of the transaction an output group stands for.
pub open spec fn group_hash(g: TxAggregate) -> Seq<u8> {
    g.tx@.hash
}

/// The index of the last pair among the first `n` that carries hash `h` and
/// token `t`, or `-1` if there is none.
pub open spec fn last_match(
    sd: Seq<StoreDeltaView>,
    ds: Seq<BalanceDeltaView>,
    n: int,
    h: Seq<u8>,
    t: Seq<u8>,
) -> int
    decreases n,
{
    if n <= 0 {
        -1
    } else if pair_hash(ds[n - 1]) == h && change_of(sd[n - 1]).token == t {
        n - 1
    } else {
        last_match(sd, ds, n - 1, h, t)
    }
}

/// The group's transaction is the one of the first pair under its hash.
#[verifier::opaque]
pub open spec fn first_tx_ok(g: TxAggregate, ds: Seq<BalanceDeltaView>, n: int) -> bool {
    exists|j: int|
        #![auto]
        0 <= j < n && ds[j].tx == Some(g.tx@) && (forall|j2: int|
            0 <= j2 < j ==> pair_hash(#[trigger] ds[j2]) != group_hash(g))
}

/// No two balance entries of a group carry the same token.
pub open spec fn tokens_unique(g: TxAggregate) -> bool {
    forall|b1: int, b2: int|
        0 <= b1 < b2 < g.balances@.len() ==> g.balances@[b1].token@ != g.balances@[b2].token@
}

/// Whether some group carries the transaction hash.
#[verifier::opaque]
pub open spec fn hash_present(gs: Seq<TxAggregate>, h: Seq<u8>) -> bool {
    exists|g: int| 0 <= g < gs.len() && #[trigger] group_hash(gs[g]) == h
}

/// Whether a group holds a balance entry for the token.
#[verifier::opaque]
pub open spec fn has_token(g: TxAggregate, t: Seq<u8>) -> bool {
    exists|b: int| 0 <= b < g.balances@.len() && (#[trigger] g.balances@[b].token@) == t
}

/// A balance entry reports the change of the last pair on its (hash, token).
pub open spec fn entry_is_last(
    g: TxAggregate,
    b: int,
    sd: Seq<StoreDeltaView>,
    ds: Seq<BalanceDeltaView>,
    n: int,
) -> bool {
    let li = last_match(sd, ds, n, group_hash(g), g.balances@[b].token@);
    0 <= li < n && g.balances@[b]@ == change_of(sd[li])
}

/// Full description of the reconciler's output over the first `n` aligned
/// pairs: one group per distinct transaction hash, carrying the transaction
/// of the hash's first pair, and per token exactly the change of the last
/// pair on that (hash, token) — last-write-wins.
#[verifier::opaque]
pub open spec fn groups_ok(
    gs: Seq<TxAggregate>,
    sd: Seq<StoreDeltaView>,
    ds: Seq<BalanceDeltaView>,
    n: int,
) -> bool {
    &&& forall|g1: int, g2: int|
        0 <= g1 < g2 < gs.len() ==> group_hash(gs[g1]) != group_hash(gs[g2])
    &&& forall|g: int| 0 <= g < gs.len() ==> first_tx_ok(#[trigger] gs[g], ds, n)
    &&& forall|i: int| 0 <= i < n ==> hash_present(gs, pair_hash(#[trigger] ds[i]))
    &&& forall|g: int| 0 <= g < gs.len() ==> tokens_unique(#[trigger] gs[g])
    &&& forall|g: int, b: int|
        #![trigger gs[g].balances@[b]]
        0 <= g < gs.len() && 0 <= b < gs[g].balances@.len() ==> entry_is_last(gs[g], b, sd, ds, n)
    &&& forall|g: int, i: int|
        #![trigger gs[g], ds[i]]
        0 <= g < gs.len() && 0 <= i < n && pair_hash(ds[i]) == group_hash(gs[g]) ==> has_token(
            gs[g],
            change_of(sd[i]).token,
        )
}

fn find_group(gs: &Vec<TxAggregate>, h: &[u8]) -> (r: Option<usize>)
    ensures
        match r {
            Some(g) => g < gs@.len() && group_hash(gs@[g as int]) == h@,
            None => forall|g: int| 0 <= g < gs@.len() ==> group_hash(#[trigger] gs@[g]) != h@,
        },
{
    let n = gs.len();
    let mut g: usize = 0;
    while g < n
        invariant
            0 <= g <= n,
            n == gs@.len(),
            forall|j: int| 0 <= j < g ==> group_hash(#[trigger] gs@[j]) != h@,
        decreases n - g,
    {
        if bytes_eq(gs[g].tx.hash.as_slice(), h) {
            return Some(g);
        }
        g += 1;
    }
    None
}

fn find_token(g: &TxAggregate, t: &[u8]) -> (r: Option<usize>)
    ensures
        match r {
            Some(b) => b < g.balances@.len() && g.balances@[b as int].token@ == t@,
            None => !has_token(*g, t@),
        },
{
    let n = g.balances.len();
    let mut b: usize = 0;
    while b < n
        invariant
            0 <= b <= n,
            n == g.balances@.len(),
            forall|j: int| 0 <= j < b ==> (#[trigger] g.balances@[j].token@) != t@,
        decreases n - b,
    {
        if bytes_eq(g.balances[b].token.as_slice(), t) {
            return Some(b);
        }
        b += 1;
    }
    proof {
        reveal(has_token);
    }
    None
}

fn clone_tx(t: &Transaction) -> (r: Transaction)
    ensures
        r@ == t@,
{
    Transaction {
        hash: copy_bytes(t.hash.as_slice()),
        from: copy_bytes(t.from.as_slice()),
        to: copy_bytes(t.to.as_slice()),
        index: t.index,
    }
}

/// An empty output describes zero consumed pairs.
proof fn lemma_groups_empty(sd: Seq<StoreDeltaView>, ds: Seq<BalanceDeltaView>) 
    ensures
        groups_ok(Seq::<TxAggregate>::empty(), sd, ds, 0),
{
    reveal(groups_ok);
}

/// A pair outside the reach of the `n`-th pair's hash or token keeps its
/// last match when the count grows by one.
proof fn lemma_last_match_skip(
    sd: Seq<StoreDeltaView>,
    ds: Seq<BalanceDeltaView>,
    n: int,
    h: Seq<u8>,
    t: Seq<u8>,
)
    requires
        n >= 0,
        !(pair_hash(ds[n]) == h && change_of(sd[n]).token == t),
    ensures
        last_match(sd, ds, n + 1, h, t) == last_match(sd, ds, n, h, t),
{
}

/// Aggregates absolute balances per transaction and token.
///
/// Zips the change-log of the additive store positionally with the relative
/// delta stream (truncating to the shorter), turns each pair into an
/// absolute [`BalanceChange`], and groups the changes by transaction hash,
/// keeping only the last change per token within a transaction.
///
/// Succeeds exactly when every consumed pair can be reconciled; otherwise
/// it reports the first defective pair.
pub fn aggregate_balances_changes(balance_store: &StoreDeltas, deltas: &BlockBalanceDeltas) -> (r:
    Result<Vec<TxAggregate>, BalanceError>)
    ensures
        r is Ok <==> pairs_clean(balance_store@, deltas@, pair_count(balance_store@, deltas@)),
        r matches Ok(v) ==> groups_ok(v@, balance_store@, deltas@, pair_count(
            balance_store@,
            deltas@,
        )),
        r matches Err(e) ==> exists|m: int|
            #![auto]
            0 <= m < pair_count(balance_store@, deltas@) && pairs_clean(balance_store@, deltas@, m)
                && !pair_ok(balance_store@[m], deltas@[m]) && e@ == pair_defect(
                balance_store@[m],
                deltas@[m],
            ),
{
    let ghost sd = balance_store@;
    let ghost ds = deltas@;
    let ghost n_g = pair_count(sd, ds);
    let n = if balance_store.deltas.len() <= deltas.balance_deltas.len() {
        balance_store.deltas.len()
    } else {
        deltas.balance_deltas.len()
    };
    let mut groups: Vec<TxAggregate> = Vec::new();
    proof {
        lemma_groups_empty(sd, ds);
        assert(groups@ =~= Seq::<TxAggregate>::empty());
    }
    let mut i: usize = 0;
    while i < n
        invariant
            0 <= i <= n,
            n == n_g,
            sd == balance_store@,
            ds == deltas@,
            n_g == pair_count(sd, ds),
            pairs_clean(sd, ds, i as int),
            groups_ok(groups@, sd, ds, i as int),
        decreases n - i,
    {
        let ghost gi = i as int;
        let s = &balance_store.deltas[i];
        let d = &deltas.balance_deltas[i];
        proof {
            assert(s@ == sd[gi]);
            assert(d@ == ds[gi]);
        }
        let key_len = s.key.len();
        let ci = find_first(s.key.as_slice(), 0, 58);
        if ci == key_len {
            proof {
                reveal(pair_ok);
                reveal(pair_defect);
                lemma_first_pos_unique(sd[gi].key, 58, ci as int);
                assert(!key_has_token(sd[gi].key));
                assert(!pair_ok(sd[gi], ds[gi]));
            }
            return Err(BalanceError::InvalidKey { key: copy_bytes(s.key.as_slice()) });
        }
        proof {
            lemma_first_pos_unique(sd[gi].key, 58, ci as int);
        }
        let comp = sub_bytes(s.key.as_slice(), 0, ci);
        let t2 = find_first(s.key.as_slice(), ci + 1, 58);
        let token_hex = sub_bytes(s.key.as_slice(), ci + 1, t2);
        proof {
            let rest = sd[gi].key.skip(ci + 1);
            assert(rest.len() == key_len - ci - 1);
            assert forall|x: int| 0 <= x < rest.len() implies rest[x] == sd[gi].key[x + ci + 1] by {}
            lemma_first_pos_unique(rest, 58, t2 - ci - 1);
            assert(token_hex@ =~= rest.take(first_pos(rest, 58)));
            assert(token_hex@ == key_token_hex(sd[gi].key));
            assert(comp@ =~= key_component(sd[gi].key));
        }
        let token = match hex_decode(token_hex.as_slice()) {
            Some(t) => t,
            None => {
                proof {
                    reveal(pair_ok);
                    reveal(pair_defect);
                    assert(!pair_ok(sd[gi], ds[gi]));
                    assert(pair_defect(sd[gi], ds[gi]) == BalanceErrorView::InvalidTokenHex {
                        segment: key_token_hex(sd[gi].key),
                    });
                }
                return Err(BalanceError::InvalidTokenHex { segment: token_hex });
            },
        };
        let balance = match dec_to_magnitude(s.new_value.as_slice()) {
            Some(b) => b,
            None => {
                proof {
                    reveal(pair_ok);
                    reveal(pair_defect);
                    assert(!pair_ok(sd[gi], ds[gi]));
                }
                return Err(BalanceError::InvalidValue { value: copy_bytes(s.new_value.as_slice()) });
            },
        };
        let tx = match &d.tx {
            Some(t) => t,
            None => {
                proof {
                    reveal(pair_ok);
                    reveal(pair_defect);
                    assert(ds[gi].tx is None);
                    assert(!pair_ok(sd[gi], ds[gi]));
                }
                return Err(BalanceError::MissingTransaction { ord: d.ord });
            },
        };
        let bc = BalanceChange { token, balance, component_id: comp };
        proof {
            reveal(pair_ok);
            reveal(change_of);
            assert(ds[gi].tx == Some(tx@));
            assert(pair_ok(sd[gi], ds[gi]));
            assert(bc@ == change_of(sd[gi]));
            assert(pair_hash(ds[gi]) == tx.hash@);
        }
        let ghost gs0 = groups@;
        match find_group(&groups, tx.hash.as_slice()) {
            Some(g) => {
                let ghost grp0 = gs0[g as int];
                match find_token(&groups[g], bc.token.as_slice()) {
                    Some(b) => {
                        groups[g].balances[b] = bc;
                        proof {
                            let gs1 = groups@;
                            let grp1 = gs1[g as int];
                            assert(gs1 =~= gs0.update(
                                g as int,
                                TxAggregate { tx: grp0.tx, balances: grp1.balances },
                            ));
                            assert(grp1.balances@ =~= grp0.balances@.update(b as int, bc));
                            lemma_groups_step_update(gs0, gs1, sd, ds, gi, g as int, b as int, bc);
                        }
                    },
                    None => {
                        groups[g].balances.push(bc);
                        proof {
                            let gs1 = groups@;
                            let grp1 = gs1[g as int];
                            assert(gs1 =~= gs0.update(
                                g as int,
                                TxAggregate { tx: grp0.tx, balances: grp1.balances },
                            ));
                            assert(grp1.balances@ =~= grp0.balances@.push(bc));
                            lemma_groups_step_push_token(gs0, gs1, sd, ds, gi, g as int, bc);
                        }
                    },
                }
            },
            None => {
                let mut bal: Vec<BalanceChange> = Vec::new();
                bal.push(bc);
                let new_group = TxAggregate { tx: clone_tx(tx), balances: bal };
                groups.push(new_group);
                proof {
                    let gs1 = groups@;
                    assert(gs1 =~= gs0.push(new_group));
                    assert(new_group.tx@ == tx@);
                    assert(new_group.balances@.len() == 1 && new_group.balances@[0] == bc);
                    lemma_groups_step_new_group(gs0, gs1, sd, ds, gi, new_group);
                }
            },
        }
        i += 1;
    }
    Ok(groups)
}

/// A group's own hash is present among the groups.
proof fn lemma_hash_present_at(gs: Seq<TxAggregate>, g: int)
    requires
        0 <= g < gs.len(),
    ensures
        hash_present(gs, group_hash(gs[g])),
{
    reveal(hash_present);
}

/// A hash stays present when every group keeps its hash.
proof fn lemma_hash_present_same(gs0: Seq<TxAggregate>, gs1: Seq<TxAggregate>, h: Seq<u8>)
    requires
        hash_present(gs0, h),
        gs1.len() >= gs0.len(),
        forall|g: int| 0 <= g < gs0.len() ==> group_hash(#[trigger] gs1[g]) == group_hash(gs0[g]),
    ensures
        hash_present(gs1, h),
{
    reveal(hash_present);
    let g = choose|g: int| 0 <= g < gs0.len() && #[trigger] group_hash(gs0[g]) == h;
    assert(group_hash(gs1[g]) == h);
}

/// A present hash differs from any hash no group carries.
proof fn lemma_hash_present_neq(gs: Seq<TxAggregate>, h2: Seq<u8>, h: Seq<u8>)
    requires
        hash_present(gs, h2),
        forall|g: int| 0 <= g < gs.len() ==> group_hash(#[trigger] gs[g]) != h,
    ensures
        h2 != h,
{
    reveal(hash_present);
    let g = choose|g: int| 0 <= g < gs.len() && #[trigger] group_hash(gs[g]) == h2;
    assert(group_hash(gs[g]) != h);
}

/// A balance entry witnesses its own token.
proof fn lemma_has_token_at(g: TxAggregate, b: int)
    requires
        0 <= b < g.balances@.len(),
    ensures
        has_token(g, g.balances@[b].token@),
{
    reveal(has_token);
}

/// A token stays present when the entries keep their tokens positionwise.
proof fn lemma_has_token_preserved(g0: TxAggregate, g1: TxAggregate, t: Seq<u8>)
    requires
        has_token(g0, t),
        g1.balances@.len() >= g0.balances@.len(),
        forall|b: int|
            0 <= b < g0.balances@.len() ==> (#[trigger] g1.balances@[b].token@)
                == g0.balances@[b].token@,
    ensures
        has_token(g1, t),
{
    reveal(has_token);
    let b = choose|b: int| 0 <= b < g0.balances@.len() && (#[trigger] g0.balances@[b].token@) == t;
    assert(g1.balances@[b].token@ == t);
}

/// The pair at `j` makes its group's transaction the first of its hash.
proof fn lemma_first_tx_intro(g: TxAggregate, ds: Seq<BalanceDeltaView>, n: int, j: int)
    requires
        0 <= j < n,
        ds[j].tx == Some(g.tx@),
        forall|j2: int| 0 <= j2 < j ==> pair_hash(#[trigger] ds[j2]) != group_hash(g),
    ensures
        first_tx_ok(g, ds, n),
{
    reveal(first_tx_ok);
}

/// A group's transaction stays the first of its hash when one more pair is
/// consumed and the group keeps its transaction.
proof fn lemma_first_tx_extend(g0: TxAggregate, g1: TxAggregate, ds: Seq<BalanceDeltaView>, n: int)
    requires
        first_tx_ok(g0, ds, n),
        g1.tx@ == g0.tx@,
        n >= 0,
    ensures
        first_tx_ok(g1, ds, n + 1),
{
    reveal(first_tx_ok);
    let j = choose|j: int|
        #![auto]
        0 <= j < n && ds[j].tx == Some(g0.tx@) && (forall|j2: int|
            0 <= j2 < j ==> pair_hash(#[trigger] ds[j2]) != group_hash(g0));
    assert(group_hash(g1) == group_hash(g0));
    assert(0 <= j < n + 1 && ds[j].tx == Some(g1.tx@) && (forall|j2: int|
        0 <= j2 < j ==> pair_hash(#[trigger] ds[j2]) != group_hash(g1)));
}

/// Overwriting the entry of an existing (hash, token) keeps the output
/// description, now over one more pair.
#[verifier::spinoff_prover]
proof fn lemma_groups_step_update(
    gs0: Seq<TxAggregate>,
    gs1: Seq<TxAggregate>,
    sd: Seq<StoreDeltaView>,
    ds: Seq<BalanceDeltaView>,
    i: int,
    g: int,
    b: int,
    bc: BalanceChange,
)
    requires
        groups_ok(gs0, sd, ds, i),
        0 <= i < pair_count(sd, ds),
        pair_ok(sd[i], ds[i]),
        0 <= g < gs0.len(),
        0 <= b < gs0[g].balances@.len(),
        group_hash(gs0[g]) == pair_hash(ds[i]),
        gs0[g].balances@[b].token@ == change_of(sd[i]).token,
        bc@ == change_of(sd[i]),
        gs1 == gs0.update(g, TxAggregate { tx: gs0[g].tx, balances: gs1[g].balances }),
        gs1.len() == gs0.len(),
        gs1[g].balances@ == gs0[g].balances@.update(b, bc),
    ensures
        groups_ok(gs1, sd, ds, i + 1),
{
    reveal(groups_ok);
    let h = pair_hash(ds[i]);
    let t = change_of(sd[i]).token;
    assert forall|g2: int| 0 <= g2 < gs1.len() implies first_tx_ok(#[trigger] gs1[g2], ds, i + 1)
        && tokens_unique(gs1[g2]) by {
        lemma_first_tx_extend(gs0[g2], gs1[g2], ds, i);
        if g2 == g {
            assert forall|b1: int, b2: int|
                0 <= b1 < b2 < gs1[g2].balances@.len() implies gs1[g2].balances@[b1].token@
                != gs1[g2].balances@[b2].token@ by {
                assert(gs0[g2].balances@[b1].token@ != gs0[g2].balances@[b2].token@);
                assert(bc.token@ == t);
            }
        } else {
            assert(tokens_unique(gs0[g2]));
        }
    }
    assert forall|i2: int| 0 <= i2 < i + 1 implies hash_present(gs1, pair_hash(#[trigger] ds[i2]))
        by {
        if i2 < i {
            lemma_hash_present_same(gs0, gs1, pair_hash(ds[i2]));
        } else {
            lemma_hash_present_at(gs1, g);
        }
    }
    assert forall|g2: int, b2: int|
        #![trigger gs1[g2].balances@[b2]]
        0 <= g2 < gs1.len() && 0 <= b2 < gs1[g2].balances@.len() implies entry_is_last(
        gs1[g2],
        b2,
        sd,
        ds,
        i + 1,
    ) by {
        let gh = group_hash(gs1[g2]);
        let bt = gs1[g2].balances@[b2].token@;
        if g2 == g && b2 == b {
            assert(gs1[g2].balances@[b2] == bc);
            assert(last_match(sd, ds, i + 1, gh, bt) == i);
        } else {
            assert(entry_is_last(gs0[g2], b2, sd, ds, i));
            assert(gs1[g2].balances@[b2] == gs0[g2].balances@[b2]);
            if gh == h && bt == t {
                assert(g2 == g);
                assert(gs0[g].balances@[b2].token@ == t && gs0[g].balances@[b].token@ == t);
                assert(tokens_unique(gs0[g]));
                assert(b2 == b);
                assert(false);
            }
            lemma_last_match_skip(sd, ds, i, gh, bt);
        }
    }
    assert forall|g2: int, i2: int|
        #![trigger gs1[g2], ds[i2]]
        0 <= g2 < gs1.len() && 0 <= i2 < i + 1 && pair_hash(ds[i2]) == group_hash(gs1[g2]) implies
        has_token(gs1[g2], change_of(sd[i2]).token) by {
        if i2 < i {
            assert(has_token(gs0[g2], change_of(sd[i2]).token));
            lemma_has_token_preserved(gs0[g2], gs1[g2], change_of(sd[i2]).token);
        } else {
            assert(g2 == g);
            lemma_has_token_at(gs1[g], b);
        }
    }
}

/// Adding a new token entry to an existing group keeps the output
/// description, now over one more pair.
#[verifier::spinoff_prover]
proof fn lemma_groups_step_push_token(
    gs0: Seq<TxAggregate>,
    gs1: Seq<TxAggregate>,
    sd: Seq<StoreDeltaView>,
    ds: Seq<BalanceDeltaView>,
    i: int,
    g: int,
    bc: BalanceChange,
)
    requires
        groups_ok(gs0, sd, ds, i),
        0 <= i < pair_count(sd, ds),
        pair_ok(sd[i], ds[i]),
        0 <= g < gs0.len(),
        group_hash(gs0[g]) == pair_hash(ds[i]),
        !has_token(gs0[g], change_of(sd[i]).token),
        bc@ == change_of(sd[i]),
        gs1 == gs0.update(g, TxAggregate { tx: gs0[g].tx, balances: gs1[g].balances }),
        gs1.len() == gs0.len(),
        gs1[g].balances@ == gs0[g].balances@.push(bc),
    ensures
        groups_ok(gs1, sd, ds, i + 1),
{
    reveal(groups_ok);
    let h = pair_hash(ds[i]);
    let t = change_of(sd[i]).token;
    let nb = gs0[g].balances@.len() as int;
    assert forall|g2: int| 0 <= g2 < gs1.len() implies first_tx_ok(#[trigger] gs1[g2], ds, i + 1)
        && tokens_unique(gs1[g2]) by {
        lemma_first_tx_extend(gs0[g2], gs1[g2], ds, i);
        if g2 == g {
            assert forall|b1: int, b2: int|
                0 <= b1 < b2 < gs1[g2].balances@.len() implies gs1[g2].balances@[b1].token@
                != gs1[g2].balances@[b2].token@ by {
                if b2 < nb {
                    assert(gs0[g2].balances@[b1].token@ != gs0[g2].balances@[b2].token@);
                } else {
                    assert(gs1[g2].balances@[b2] == bc);
                    lemma_has_token_at(gs0[g], b1);
                }
            }
        } else {
            assert(tokens_unique(gs0[g2]));
        }
    }
    assert forall|i2: int| 0 <= i2 < i + 1 implies hash_present(gs1, pair_hash(#[trigger] ds[i2]))
        by {
        if i2 < i {
            lemma_hash_present_same(gs0, gs1, pair_hash(ds[i2]));
        } else {
            lemma_hash_present_at(gs1, g);
        }
    }
    assert forall|g2: int, b2: int|
        #![trigger gs1[g2].balances@[b2]]
        0 <= g2 < gs1.len() && 0 <= b2 < gs1[g2].balances@.len() implies entry_is_last(
        gs1[g2],
        b2,
        sd,
        ds,
        i + 1,
    ) by {
        let gh = group_hash(gs1[g2]);
        let bt = gs1[g2].balances@[b2].token@;
        if g2 == g && b2 == nb {
            assert(gs1[g2].balances@[b2] == bc);
            assert(last_match(sd, ds, i + 1, gh, bt) == i);
        } else {
            assert(entry_is_last(gs0[g2], b2, sd, ds, i));
            assert(gs1[g2].balances@[b2] == gs0[g2].balances@[b2]);
            if gh == h && bt == t {
                assert(g2 == g);
                lemma_has_token_at(gs0[g], b2);
                assert(false);
            }
            lemma_last_match_skip(sd, ds, i, gh, bt);
        }
    }
    assert forall|g2: int, i2: int|
        #![trigger gs1[g2], ds[i2]]
        0 <= g2 < gs1.len() && 0 <= i2 < i + 1 && pair_hash(ds[i2]) == group_hash(gs1[g2]) implies
        has_token(gs1[g2], change_of(sd[i2]).token) by {
        if i2 < i {
            assert(has_token(gs0[g2], change_of(sd[i2]).token));
            lemma_has_token_preserved(gs0[g2], gs1[g2], change_of(sd[i2]).token);
        } else {
            assert(g2 == g);
            lemma_has_token_at(gs1[g], nb);
        }
    }
}

/// Opening a group for a hash not seen before keeps the output description,
/// now over one more pair.
#[verifier::spinoff_prover]
proof fn lemma_groups_step_new_group(
    gs0: Seq<TxAggregate>,
    gs1: Seq<TxAggregate>,
    sd: Seq<StoreDeltaView>,
    ds: Seq<BalanceDeltaView>,
    i: int,
    new_group: TxAggregate,
)
    requires
        groups_ok(gs0, sd, ds, i),
        0 <= i < pair_count(sd, ds),
        pair_ok(sd[i], ds[i]),
        forall|g: int| 0 <= g < gs0.len() ==> group_hash(#[trigger] gs0[g]) != pair_hash(ds[i]),
        ds[i].tx == Some(new_group.tx@),
        new_group.balances@.len() == 1,
        new_group.balances@[0]@ == change_of(sd[i]),
        gs1 == gs0.push(new_group),
    ensures
        groups_ok(gs1, sd, ds, i + 1),
{
    reveal(groups_ok);
    let h = pair_hash(ds[i]);
    let t = change_of(sd[i]).token;
    let ng = gs0.len() as int;
    assert(group_hash(new_group) == h);
    assert(new_group.balances@[0].token@ == t);
    // No earlier pair carries this hash: each earlier pair's hash is among
    // the old groups, and no old group carries this hash.
    assert forall|j2: int| 0 <= j2 < i implies pair_hash(#[trigger] ds[j2]) != h by {
        lemma_hash_present_neq(gs0, pair_hash(ds[j2]), h);
    }
    assert forall|g2: int| 0 <= g2 < gs1.len() implies first_tx_ok(#[trigger] gs1[g2], ds, i + 1)
        && tokens_unique(gs1[g2]) by {
        if g2 < ng {
            assert(gs1[g2] == gs0[g2]);
            lemma_first_tx_extend(gs0[g2], gs1[g2], ds, i);
            assert(tokens_unique(gs0[g2]));
        } else {
            assert(gs1[g2] == new_group);
            lemma_first_tx_intro(new_group, ds, i + 1, i);
        }
    }
    assert forall|i2: int| 0 <= i2 < i + 1 implies hash_present(gs1, pair_hash(#[trigger] ds[i2]))
        by {
        if i2 < i {
            lemma_hash_present_same(gs0, gs1, pair_hash(ds[i2]));
        } else {
            lemma_hash_present_at(gs1, ng);
        }
    }
    assert forall|g2: int, b2: int|
        #![trigger gs1[g2].balances@[b2]]
        0 <= g2 < gs1.len() && 0 <= b2 < gs1[g2].balances@.len() implies entry_is_last(
        gs1[g2],
        b2,
        sd,
        ds,
        i + 1,
    ) by {
        let gh = group_hash(gs1[g2]);
        let bt = gs1[g2].balances@[b2].token@;
        if g2 == ng {
            assert(gs1[g2].balances@[b2] == new_group.balances@[0]);
            assert(last_match(sd, ds, i + 1, gh, bt) == i);
        } else {
            assert(gs1[g2] == gs0[g2]);
            assert(entry_is_last(gs0[g2], b2, sd, ds, i));
            assert(gh != h);
            lemma_last_match_skip(sd, ds, i, gh, bt);
        }
    }
    assert forall|g2: int, i2: int|
        #![trigger gs1[g2], ds[i2]]
        0 <= g2 < gs1.len() && 0 <= i2 < i + 1 && pair_hash(ds[i2]) == group_hash(gs1[g2]) implies
        has_token(gs1[g2], change_of(sd[i2]).token) by {
        if g2 == ng {
            assert(pair_hash(ds[i2]) == h);
            assert(i2 == i);
            lemma_has_token_at(new_group, 0);
        } else {
            assert(gs1[g2] == gs0[g2]);
            assert(group_hash(gs1[g2]) != h);
            assert(i2 < i);
            assert(has_token(gs0[g2], change_of(sd[i2]).token));
        }
    }
}

/// Law: reconciliation inverts key derivation — a store key built from a
/// component id free of `:` and a token parses back to exactly that
/// component id and token.
pub proof fn lemma_key_round_trip(c: Seq<u8>, t: Seq<u8>)
    requires
        !c.contains(58),
    ensures
        key_has_token(store_key_of(c, t)),
        key_component(store_key_of(c, t)) == c,
        is_hex_str(key_token_hex(store_key_of(c, t))),
        hex_decoded(key_token_hex(store_key_of(c, t))) == t,
{
    let k = store_key_of(c, t);
    let hx = hex_bytes_of(t);
    lemma_hex_round_trip(t);
    assert(k.len() == c.len() + 1 + hx.len());
    assert(k[c.len() as int] == 58);
    assert forall|j: int| 0 <= j < c.len() implies k[j] != 58 by {
        assert(k[j] == c[j]);
        if c[j] == 58 {
            assert(c.contains(58));
            assert(false);
        }
    }
    lemma_first_pos_unique(k, 58, c.len() as int);
    assert(key_component(k) =~= c);
    let rest = k.skip(c.len() as int + 1);
    assert(rest =~= hx);
    assert forall|j: int| 0 <= j < rest.len() implies rest[j] != 58 by {
        assert(rest[j] == hx[j]);
    }
    lemma_first_pos_unique(rest, 58, rest.len() as int);
    assert(key_token_hex(k) =~= hx);
}

/// Law: the reconciler reproduces the accumulator — a reconciled change
/// re-derives its store key, and when its pair is the last change of that
/// key, the balance it reports decodes to the magnitude of exactly the
/// value the accumulator's store holds under that key.
pub proof fn lemma_reconcile_matches_store(
    init: AddStore,
    post: AddStore,
    ds: Seq<BalanceDeltaView>,
    i: int,
)
    requires
        applied(init, post, ds, ds.len() as int),
        init.changelog() == Seq::<StoreDeltaView>::empty(),
        0 <= i < ds.len(),
        forall|j: int| i < j < ds.len() ==> delta_key(#[trigger] ds[j]) != delta_key(ds[i]),
        !ds[i].component_id.contains(58),
    ensures
        ({
            let sd = post.changelog();
            let e = change_of(sd[i]);
            &&& sd.len() == ds.len()
            &&& store_key_of(e.component_id, e.token) == delta_key(ds[i])
            &&& be_val(e.balance) == int_mag(post.total_of(delta_key(ds[i])))
        }),
{
    reveal(change_of);
    let k = delta_key(ds[i]);
    let sd = post.changelog();
    assert(sd =~= Seq::new(ds.len() as nat, |j: int| log_entry_of(init, ds, j)));
    assert(sd[i] == log_entry_of(init, ds, i));
    lemma_key_round_trip(ds[i].component_id, ds[i].token);
    assert(sd[i].key == k);
    let v = init.total_of(k) + key_total(ds, i + 1, k);
    assert(sd[i].new_value == dec_repr(v));
    lemma_dec_repr_val(v);
    lemma_signed_decimal_parseable(dec_repr(v));
    assert(parsed_dec_val(sd[i].new_value) == v);
    assert(change_of(sd[i]).component_id == ds[i].component_id);
    assert(change_of(sd[i]).token == ds[i].token);
    crate::accumulate::lemma_key_total_stable(ds, i + 1, ds.len() as int, k);
    assert(post.total_of(k) == init.total_of(k) + key_total(ds, ds.len() as int, k));
    lemma_mag_be_val(int_mag(v));
    assert(change_of(sd[i]).balance == mag_be(int_mag(v)));
}

/// Law: grouping is complete — the groups' hashes never repeat and form
/// exactly the set of transaction hashes occurring among the consumed
/// pairs, so the output has one entry per distinct hash.
pub proof fn lemma_grouping_completeness(
    gs: Seq<TxAggregate>,
    sd: Seq<StoreDeltaView>,
    ds: Seq<BalanceDeltaView>,
    n: int,
)
    requires
        groups_ok(gs, sd, ds, n),
    ensures
        gs.map_values(|g: TxAggregate| group_hash(g)).no_duplicates(),
        gs.map_values(|g: TxAggregate| group_hash(g)).to_set() == Set::new(
            |h: Seq<u8>| exists|i: int| 0 <= i < n && pair_hash(#[trigger] ds[i]) == h,
        ),
        gs.len() == Set::new(
            |h: Seq<u8>| exists|i: int| 0 <= i < n && pair_hash(#[trigger] ds[i]) == h,
        ).len(),
{
    reveal(groups_ok);
    reveal(hash_present);
    reveal(first_tx_ok);
    let hs = gs.map_values(|g: TxAggregate| group_hash(g));
    assert(forall|g: int| 0 <= g < gs.len() ==> hs[g] == group_hash(#[trigger] gs[g]));
    assert forall|h: Seq<u8>| #[trigger] hs.to_set().contains(h) implies (exists|i: int|
        0 <= i < n && pair_hash(#[trigger] ds[i]) == h) by {
        let g = choose|g: int| 0 <= g < hs.len() && hs[g] == h;
        assert(first_tx_ok(gs[g], ds, n));
        let j = choose|j: int|
            #![auto]
            0 <= j < n && ds[j].tx == Some(gs[g].tx@) && (forall|j2: int|
                0 <= j2 < j ==> pair_hash(#[trigger] ds[j2]) != group_hash(gs[g]));
        assert(pair_hash(ds[j]) == h);
    }
    assert forall|h: Seq<u8>| (exists|i: int| 0 <= i < n && pair_hash(#[trigger] ds[i]) == h)
        implies #[trigger] hs.to_set().contains(h) by {
        let i = choose|i: int| 0 <= i < n && pair_hash(#[trigger] ds[i]) == h;
        assert(hash_present(gs, pair_hash(ds[i])));
        let g = choose|g: int| 0 <= g < gs.len() && #[trigger] group_hash(gs[g]) == h;
        assert(hs[g] == h);
        assert(hs.contains(h));
    }
    assert(hs.to_set() =~= Set::new(
        |h: Seq<u8>| exists|i: int| 0 <= i < n && pair_hash(#[trigger] ds[i]) == h,
    ));
    hs.unique_seq_to_set();
}

} // verus!
