//! The accumulator: folds an ordered stream of relative balance deltas into
//! the additive store, enforcing strictly increasing sequence positions per
//! store key, and failing fatally on the first defective delta.

use crate::bytes::{bytes_eq, copy_bytes, is_utf8, utf8_check};
use crate::hexs::{hex_bytes_of, hex_encode};
use crate::num::{dec_repr, sbe_val};
use crate::store::AddStore;
use crate::types::{BalanceDeltaView, BalanceError, BalanceErrorView, BlockBalanceDeltas,
    StoreDeltaView};
use vstd::prelude::*;

verus! {

/// The composite store key of a component and a token:
/// the component id, `:`, then the lowercase hex rendering of the token.
pub open spec fn store_key_of(component_id: Seq<u8>, token: Seq<u8>) -> Seq<u8> {
    component_id + seq![58u8] + hex_bytes_of(token)
}

/// The store key a delta writes under.
pub open spec fn delta_key(d: BalanceDeltaView) -> Seq<u8> {
    store_key_of(d.component_id, d.token)
}

/// The last sequence position recorded per store key after the first `n`
/// deltas.
pub open spec fn ord_map(ds: Seq<BalanceDeltaView>, n: int) -> Map<Seq<u8>, u64>
    decreases n,
{
    if n <= 0 {
        Map::empty()
    } else {
        ord_map(ds, n - 1).insert(delta_key(ds[n - 1]), ds[n - 1].ord)
    }
}

/// Whether the `i`-th delta is acceptable after the first `i` were applied:
/// its component id is UTF-8 and its sequence position strictly exceeds the
/// last one recorded under its key.
pub open spec fn delta_ok(ds: Seq<BalanceDeltaView>, i: int) -> bool {
    &&& is_utf8(ds[i].component_id)
    &&& (ord_map(ds, i).dom().contains(delta_key(ds[i])) ==> ord_map(ds, i)[delta_key(ds[i])]
        < ds[i].ord)
}

/// Whether the first `n` deltas are all acceptable.
pub open spec fn clean_prefix(ds: Seq<BalanceDeltaView>, n: int) -> bool {
    forall|i: int| 0 <= i < n ==> delta_ok(ds, i)
}

/// The error reported for the first unacceptable delta.
pub open spec fn delta_defect(ds: Seq<BalanceDeltaView>, i: int) -> BalanceErrorView {
    if !is_utf8(ds[i].component_id) {
        BalanceErrorView::InvalidComponentId { component_id: ds[i].component_id }
    } else {
        BalanceErrorView::OrderingViolation {
            key: delta_key(ds[i]),
            previous: ord_map(ds, i)[delta_key(ds[i])],
            current: ds[i].ord,
        }
    }
}

/// The signed sum of the deltas among the first `n` that write under key
/// `k`.
pub open spec fn key_total(ds: Seq<BalanceDeltaView>, n: int, k: Seq<u8>) -> int
    decreases n,
{
    if n <= 0 {
        0
    } else {
        key_total(ds, n - 1, k) + if delta_key(ds[n - 1]) == k {
            sbe_val(ds[n - 1].delta)
        } else {
            0
        }
    }
}

/// The change-log entry the `i`-th delta appends to a store that started as
/// `init`.
pub open spec fn log_entry_of(init: AddStore, ds: Seq<BalanceDeltaView>, i: int) -> StoreDeltaView {
    StoreDeltaView {
        ordinal: ds[i].ord,
        key: delta_key(ds[i]),
        old_value: dec_repr(init.total_of(delta_key(ds[i])) + key_total(ds, i, delta_key(ds[i]))),
        new_value: dec_repr(
            init.total_of(delta_key(ds[i])) + key_total(ds, i + 1, delta_key(ds[i])),
        ),
    }
}

/// How a store that started as `init` looks after the first `m` deltas were
/// applied: which keys exist, what each key's total is, and which change-log
/// entries were appended.
pub open spec fn applied(
    init: AddStore,
    post: AddStore,
    ds: Seq<BalanceDeltaView>,
    m: int,
) -> bool {
    &&& forall|k: Seq<u8>|
        post.contains_key(k) <==> init.contains_key(k) || exists|j: int|
            0 <= j < m && delta_key(#[trigger] ds[j]) == k
    &&& forall|k: Seq<u8>| post.total_of(k) == init.total_of(k) + key_total(ds, m, k)
    &&& post.changelog() == init.changelog() + Seq::new(m as nat, |j: int| log_entry_of(init, ds, j))
}

struct OrdEntry {
    key: Vec<u8>,
    ord: u64,
}

spec fn tracker_unique(s: Seq<OrdEntry>) -> bool {
    forall|i: int, j: int| 0 <= i < j < s.len() ==> s[i].key@ != s[j].key@
}

spec fn tracker_has(s: Seq<OrdEntry>, k: Seq<u8>) -> bool {
    exists|i: int| 0 <= i < s.len() && (#[trigger] s[i].key@) == k
}

spec fn tracker_idx(s: Seq<OrdEntry>, k: Seq<u8>) -> int {
    choose|i: int| 0 <= i < s.len() && (#[trigger] s[i].key@) == k
}

spec fn tracker_matches(s: Seq<OrdEntry>, m: Map<Seq<u8>, u64>) -> bool {
    &&& forall|k: Seq<u8>| tracker_has(s, k) <==> m.dom().contains(k)
    &&& forall|k: Seq<u8>| tracker_has(s, k) ==> s[tracker_idx(s, k)].ord == m[k]
}

proof fn lemma_tracker_at(s: Seq<OrdEntry>, k: Seq<u8>, i: int)
    requires
        tracker_unique(s),
        0 <= i < s.len(),
        s[i].key@ == k,
    ensures
        tracker_has(s, k),
        tracker_idx(s, k) == i,
{
    assert(tracker_has(s, k));
    let j = tracker_idx(s, k);
    assert(0 <= j < s.len() && s[j].key@ == k);
    if i != j {
        assert(false);
    }
}

fn find_tracker(tracker: &Vec<OrdEntry>, key: &[u8]) -> (r: Option<usize>)
    ensures
        match r {
            Some(i) => i < tracker@.len() && tracker@[i as int].key@ == key@,
            None => !tracker_has(tracker@, key@),
        },
{
    let n = tracker.len();
    let mut t: usize = 0;
    while t < n
        invariant
            0 <= t <= n,
            n == tracker@.len(),
            forall|j: int| 0 <= j < t ==> (#[trigger] tracker@[j].key@) != key@,
        decreases n - t,
    {
        if bytes_eq(tracker[t].key.as_slice(), key) {
            return Some(t);
        }
        t += 1;
    }
    None
}

/// Builds the composite store key; the caller already knows the component id
/// is UTF-8.
fn build_key(component_id: &[u8], token: &[u8]) -> (r: Vec<u8>)
    ensures
        r@ == store_key_of(component_id@, token@),
{
    let mut r = copy_bytes(component_id);
    r.push(58u8);
    let mut h = hex_encode(token);
    r.append(&mut h);
    proof {
        assert(r@ =~= component_id@ + seq![58u8] + hex_bytes_of(token@));
    }
    r
}

/// The composite store key of a component id and a token, or `None` when the
/// component id is not valid UTF-8.
pub fn balance_key(component_id: &[u8], token: &[u8]) -> (r: Option<Vec<u8>>)
    ensures
        r is Some <==> is_utf8(component_id@),
        r matches Some(k) ==> k@ == store_key_of(component_id@, token@),
{
    if utf8_check(component_id) {
        Some(build_key(component_id, token))
    } else {
        None
    }
}

/// Stores relative balance changes additively: every delta adds its signed
/// value to the store slot of its (component, token) key, at its sequence
/// position.
///
/// Succeeds exactly when every component id is valid UTF-8 and the sequence
/// positions per key are strictly increasing; otherwise it stops at the
/// first defective delta, reports it, and leaves the store exactly as the
/// deltas before the defect left it.
pub fn store_balance_changes(deltas: &BlockBalanceDeltas, store: &mut AddStore) -> (r: Result<
    (),
    BalanceError,
>)
    requires
        old(store).wf(),
    ensures
        final(store).wf(),
        r is Ok <==> clean_prefix(deltas@, deltas@.len() as int),
        r is Ok ==> applied(*old(store), *final(store), deltas@, deltas@.len() as int),
        r matches Err(e) ==> exists|m: int|
            #![auto]
            0 <= m < deltas@.len() && clean_prefix(deltas@, m) && !delta_ok(deltas@, m) && e@
                == delta_defect(deltas@, m) && applied(*old(store), *final(store), deltas@, m),
{
    let ghost ds = deltas@;
    let ghost init = *old(store);
    let n = deltas.balance_deltas.len();
    let mut tracker: Vec<OrdEntry> = Vec::new();
    let mut i: usize = 0;
    while i < n
        invariant
            0 <= i <= n,
            n == ds.len(),
            ds == deltas@,
            old(store).wf(),
            init == *old(store),
            store.wf(),
            clean_prefix(ds, i as int),
            tracker_unique(tracker@),
            tracker_matches(tracker@, ord_map(ds, i as int)),
            applied(init, *store, ds, i as int),
        decreases n - i,
    {
        let ghost gi = i as int;
        let d = &deltas.balance_deltas[i];
        proof {
            assert(d@ == ds[gi]);
        }
        if !utf8_check(d.component_id.as_slice()) {
            proof {
                assert(!delta_ok(ds, gi));
                assert(BalanceErrorView::InvalidComponentId { component_id: ds[gi].component_id }
                    == delta_defect(ds, gi));
            }
            return Err(BalanceError::InvalidComponentId {
                component_id: copy_bytes(d.component_id.as_slice()),
            });
        }
        let key = build_key(d.component_id.as_slice(), d.token.as_slice());
        let ghost k = delta_key(ds[gi]);
        proof {
            assert(key@ == k);
        }
        let found = find_tracker(&tracker, key.as_slice());
        match found {
            Some(j) => {
                proof {
                    lemma_tracker_at(tracker@, k, j as int);
                    assert(ord_map(ds, gi).dom().contains(k));
                    assert(tracker@[j as int].ord == ord_map(ds, gi)[k]);
                }
                let prev = tracker[j].ord;
                if prev >= d.ord {
                    proof {
                        assert(!delta_ok(ds, gi));
                        assert(BalanceErrorView::OrderingViolation {
                            key: k,
                            previous: ord_map(ds, gi)[k],
                            current: ds[gi].ord,
                        } == delta_defect(ds, gi));
                    }
                    return Err(BalanceError::OrderingViolation {
                        key,
                        previous: prev,
                        current: d.ord,
                    });
                }
                let ghost tr0 = tracker@;
                tracker[j].ord = d.ord;
                proof {
                    let tr1 = tracker@;
                    assert(tr1 =~= tr0.update(
                        j as int,
                        OrdEntry { key: tr0[j as int].key, ord: ds[gi].ord },
                    ));
                    assert(tracker_unique(tr1));
                    assert forall|k2: Seq<u8>| tracker_has(tr1, k2) <==> tracker_has(tr0, k2) by {
                        if tracker_has(tr1, k2) {
                            let w = choose|w: int|
                                0 <= w < tr1.len() && (#[trigger] tr1[w].key@) == k2;
                            assert(tr0[w].key@ == k2);
                        }
                        if tracker_has(tr0, k2) {
                            let w = choose|w: int|
                                0 <= w < tr0.len() && (#[trigger] tr0[w].key@) == k2;
                            assert(tr1[w].key@ == k2);
                        }
                    }
                    assert(tracker_matches(tr1, ord_map(ds, gi + 1))) by {
                        lemma_tracker_at(tr1, k, j as int);
                        assert forall|k2: Seq<u8>| tracker_has(tr1, k2) implies tr1[tracker_idx(
                            tr1,
                            k2,
                        )].ord == ord_map(ds, gi + 1)[k2] by {
                            if k2 != k {
                                let w = tracker_idx(tr1, k2);
                                assert(0 <= w < tr1.len() && tr1[w].key@ == k2);
                                assert(w != j as int);
                                lemma_tracker_at(tr0, k2, w);
                            }
                        }
                    }
                }
            },
            None => {
                proof {
                    assert(!tracker_has(tracker@, k));
                    assert(!ord_map(ds, gi).dom().contains(k));
                    assert(delta_ok(ds, gi));
                }
                let ghost tr0 = tracker@;
                let new_entry = OrdEntry { key: copy_bytes(key.as_slice()), ord: d.ord };
                tracker.push(new_entry);
                proof {
                    let tr1 = tracker@;
                    let n0 = tr0.len() as int;
                    assert(tr1 =~= tr0.push(new_entry));
                    assert(tr1[n0].key@ == k);
                    assert(tracker_unique(tr1)) by {
                        assert(forall|j: int| 0 <= j < n0 ==> (#[trigger] tr0[j].key@) != k);
                    }
                    assert forall|k2: Seq<u8>|
                        tracker_has(tr1, k2) <==> tracker_has(tr0, k2) || k2 == k by {
                        if tracker_has(tr1, k2) {
                            let w = choose|w: int|
                                0 <= w < tr1.len() && (#[trigger] tr1[w].key@) == k2;
                            if w < n0 {
                                assert(tr0[w].key@ == k2);
                            }
                        }
                        if tracker_has(tr0, k2) {
                            let w = choose|w: int|
                                0 <= w < tr0.len() && (#[trigger] tr0[w].key@) == k2;
                            assert(tr1[w].key@ == k2);
                        }
                        if k2 == k {
                            assert(tr1[n0].key@ == k2);
                        }
                    }
                    assert(tracker_matches(tr1, ord_map(ds, gi + 1))) by {
                        lemma_tracker_at(tr1, k, n0);
                        assert forall|k2: Seq<u8>| tracker_has(tr1, k2) implies tr1[tracker_idx(
                            tr1,
                            k2,
                        )].ord == ord_map(ds, gi + 1)[k2] by {
                            if k2 != k {
                                let w = tracker_idx(tr1, k2);
                                assert(0 <= w < tr1.len() && tr1[w].key@ == k2);
                                assert(w != n0);
                                lemma_tracker_at(tr0, k2, w);
                            }
                        }
                    }
                }
            },
        }
        let ghost pre = *store;
        store.apply_delta(d.ord, key.as_slice(), d.delta.as_slice());
        proof {
            assert(clean_prefix(ds, gi + 1));
            assert forall|k2: Seq<u8>|
                store.total_of(k2) == init.total_of(k2) + key_total(ds, gi + 1, k2) by {
                if k2 == k {
                    assert(store.total_of(k2) == pre.total_of(k2) + sbe_val(ds[gi].delta));
                } else {
                    assert(store.total_of(k2) == pre.total_of(k2));
                }
            }
            assert forall|k2: Seq<u8>|
                store.contains_key(k2) <==> init.contains_key(k2) || exists|j: int|
                    0 <= j < gi + 1 && delta_key(#[trigger] ds[j]) == k2 by {
                if store.contains_key(k2) {
                    if !pre.contains_key(k2) {
                        assert(k2 == k);
                        assert(delta_key(ds[gi]) == k2);
                    }
                } else {
                }
                if k2 == k {
                    assert(delta_key(ds[gi]) == k2);
                    assert(store.contains_key(k2));
                }
            }
            assert(store.changelog() == init.changelog() + Seq::new(
                (gi + 1) as nat,
                |j: int| log_entry_of(init, ds, j),
            )) by {
                assert(pre.total_of(k) == init.total_of(k) + key_total(ds, gi, k));
                assert(key_total(ds, gi + 1, k) == key_total(ds, gi, k) + sbe_val(ds[gi].delta));
                assert(store.changelog() == pre.changelog().push(
                    StoreDeltaView {
                        ordinal: ds[gi].ord,
                        key: k,
                        old_value: dec_repr(pre.total_of(k)),
                        new_value: dec_repr(pre.total_of(k) + sbe_val(ds[gi].delta)),
                    },
                ));
                assert(pre.changelog().push(log_entry_of(init, ds, gi)) =~= init.changelog()
                    + Seq::new((gi + 1) as nat, |j: int| log_entry_of(init, ds, j)));
            }
        }
        i += 1;
    }
    proof {
        assert(clean_prefix(ds, ds.len() as int));
    }
    Ok(())
}

/// Law: the accumulated total under a key is the signed sum of exactly that
/// key's deltas — deltas written under any other key never contribute.
pub proof fn lemma_total_isolation(ds: Seq<BalanceDeltaView>, k: Seq<u8>)
    ensures
        key_total(ds, ds.len() as int, k) == key_total(
            ds.filter(|d: BalanceDeltaView| delta_key(d) == k),
            ds.filter(|d: BalanceDeltaView| delta_key(d) == k).len() as int,
            k,
        ),
    decreases ds.len(),
{
    reveal(Seq::filter);
    let pred = |d: BalanceDeltaView| delta_key(d) == k;
    if ds.len() > 0 {
        let dl = ds.drop_last();
        lemma_total_isolation(dl, k);
        lemma_key_total_prefix(ds, dl, dl.len() as int, k);
        if pred(ds.last()) {
            let f = dl.filter(pred);
            assert(ds.filter(pred) == f.push(ds.last()));
            assert(f.push(ds.last()).last() == ds.last());
            assert(f.push(ds.last()).drop_last() =~= f);
            lemma_key_total_prefix(f.push(ds.last()), f, f.len() as int, k);
        } else {
            assert(ds.filter(pred) == dl.filter(pred));
        }
    }
}

/// The sum over the first `n` deltas only depends on those deltas.
pub proof fn lemma_key_total_prefix(
    ds1: Seq<BalanceDeltaView>,
    ds2: Seq<BalanceDeltaView>,
    n: int,
    k: Seq<u8>,
)
    requires
        n <= ds1.len(),
        n <= ds2.len(),
        forall|j: int| 0 <= j < n ==> ds1[j] == ds2[j],
    ensures
        key_total(ds1, n, k) == key_total(ds2, n, k),
    decreases n,
{
    if n > 0 {
        lemma_key_total_prefix(ds1, ds2, n - 1, k);
    }
}

/// Law: deltas on other keys never change a key's running total.
pub proof fn lemma_key_total_stable(ds: Seq<BalanceDeltaView>, a: int, b: int, k: Seq<u8>)
    requires
        0 <= a <= b <= ds.len(),
        forall|j: int| a <= j < b ==> delta_key(#[trigger] ds[j]) != k,
    ensures
        key_total(ds, b, k) == key_total(ds, a, k),
    decreases b - a,
{
    if b > a {
        lemma_key_total_stable(ds, a, b - 1, k);
    }
}

/// After a clean prefix, the recorded position of a key bounds from above
/// the position of every delta on that key inside the prefix.
proof fn lemma_ord_map_bound(ds: Seq<BalanceDeltaView>, n: int, i: int)
    requires
        clean_prefix(ds, n),
        0 <= i < n <= ds.len(),
    ensures
        ord_map(ds, n).dom().contains(delta_key(ds[i])),
        ord_map(ds, n)[delta_key(ds[i])] >= ds[i].ord,
    decreases n,
{
    let k = delta_key(ds[i]);
    if i == n - 1 {
    } else {
        lemma_ord_map_bound(ds, n - 1, i);
        if delta_key(ds[n - 1]) == k {
            assert(delta_ok(ds, n - 1));
        }
    }
}

/// Law: a delta whose sequence position does not strictly exceed that of an
/// earlier delta on the same key makes the stream unacceptable, so the
/// accumulator always rejects such a stream before applying the offender.
pub proof fn lemma_ordering_violation_rejected(ds: Seq<BalanceDeltaView>, i: int, j: int)
    requires
        0 <= i < j < ds.len(),
        delta_key(ds[i]) == delta_key(ds[j]),
        ds[j].ord <= ds[i].ord,
    ensures
        !clean_prefix(ds, ds.len() as int),
{
    if clean_prefix(ds, ds.len() as int) {
        assert(clean_prefix(ds, j));
        lemma_ord_map_bound(ds, j, i);
        assert(delta_ok(ds, j));
        assert(false);
    }
}

} // verus!
