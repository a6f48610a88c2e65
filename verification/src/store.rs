//! An in-memory additive key/value store with an append-only change-log:
//! the collaborator the accumulator writes into. Updates add to the current
//! value; values are kept as canonical ASCII base-10 renderings, and every
//! successful addition appends one change-log entry with the value before
//! and after.

use crate::bigint::dec_add_sbe;
use crate::bytes::{bytes_eq, copy_bytes};
use crate::num::{dec_repr, dec_signed_val, lemma_dec_repr_val, sbe_val};
use crate::types::{StoreDelta, StoreDeltaView, StoreDeltas};
use vstd::prelude::*;

verus! {

struct StoreEntry {
    key: Vec<u8>,
    value: Vec<u8>,
}

spec fn unique_keys(s: Seq<StoreEntry>) -> bool {
    forall|i: int, j: int| 0 <= i < j < s.len() ==> s[i].key@ != s[j].key@
}

spec fn canonical_values(s: Seq<StoreEntry>) -> bool {
    forall|i: int|
        0 <= i < s.len() ==> (#[trigger] s[i].value@) == dec_repr(dec_signed_val(s[i].value@))
}

spec fn has_key(s: Seq<StoreEntry>, k: Seq<u8>) -> bool {
    exists|i: int| 0 <= i < s.len() && (#[trigger] s[i].key@) == k
}

spec fn entry_idx(s: Seq<StoreEntry>, k: Seq<u8>) -> int {
    choose|i: int| 0 <= i < s.len() && (#[trigger] s[i].key@) == k
}

spec fn val_of(s: Seq<StoreEntry>, k: Seq<u8>) -> int {
    if has_key(s, k) {
        dec_signed_val(s[entry_idx(s, k)].value@)
    } else {
        0
    }
}

proof fn lemma_val_at(s: Seq<StoreEntry>, k: Seq<u8>, i: int)
    requires
        unique_keys(s),
        0 <= i < s.len(),
        s[i].key@ == k,
    ensures
        has_key(s, k),
        entry_idx(s, k) == i,
        val_of(s, k) == dec_signed_val(s[i].value@),
{
    assert(has_key(s, k));
    let j = entry_idx(s, k);
    assert(0 <= j < s.len() && s[j].key@ == k);
    if i != j {
        assert(false);
    }
}

/// The additive store: one accumulated value per key, and the ordered
/// change-log of every addition made so far.
pub struct AddStore {
    entries: Vec<StoreEntry>,
    log: Vec<StoreDelta>,
}

impl AddStore {
    /// Internal consistency: keys are unique and every stored value is a
    /// canonical base-10 rendering.
    pub closed spec fn wf(self) -> bool {
        unique_keys(self.entries@) && canonical_values(self.entries@)
    }

    /// Whether any addition was made under the key.
    pub closed spec fn contains_key(self, k: Seq<u8>) -> bool {
        has_key(self.entries@, k)
    }

    /// The accumulated signed value under a key; zero where no addition was
    /// made yet.
    pub closed spec fn total_of(self, k: Seq<u8>) -> int {
        val_of(self.entries@, k)
    }

    /// The change-log so far, oldest entry first.
    pub closed spec fn changelog(self) -> Seq<StoreDeltaView> {
        self.log@.map_values(|d: StoreDelta| d@)
    }

    /// Creates an empty store.
    pub fn new() -> (s: Self)
        ensures
            s.wf(),
            forall|k: Seq<u8>| !s.contains_key(k),
            s.changelog() == Seq::<StoreDeltaView>::empty(),
    {
        let s = AddStore { entries: Vec::new(), log: Vec::new() };
        proof {
            assert(s.changelog() =~= Seq::<StoreDeltaView>::empty());
        }
        s
    }

    fn find_entry(&self, key: &[u8]) -> (r: Option<usize>)
        ensures
            match r {
                Some(i) => i < self.entries@.len() && self.entries@[i as int].key@ == key@,
                None => !has_key(self.entries@, key@),
            },
    {
        let n = self.entries.len();
        let mut i: usize = 0;
        while i < n
            invariant
                0 <= i <= n,
                n == self.entries@.len(),
                forall|j: int| 0 <= j < i ==> (#[trigger] self.entries@[j].key@) != key@,
            decreases n - i,
        {
            if bytes_eq(self.entries[i].key.as_slice(), key) {
                return Some(i);
            }
            i += 1;
        }
        None
    }

    /// Adds a signed big-endian delta to the value under `key` at sequence
    /// position `ord`, and logs the change.
    pub fn apply_delta(&mut self, ord: u64, key: &[u8], delta: &[u8])
        requires
            old(self).wf(),
        ensures
            final(self).wf(),
            forall|k: Seq<u8>|
                final(self).contains_key(k) <==> old(self).contains_key(k) || k == key@,
            final(self).total_of(key@) == old(self).total_of(key@) + sbe_val(delta@),
            forall|k: Seq<u8>|
                k != key@ ==> final(self).total_of(k) == old(self).total_of(k),
            final(self).changelog() == old(self).changelog().push(
                StoreDeltaView {
                    ordinal: ord,
                    key: key@,
                    old_value: dec_repr(old(self).total_of(key@)),
                    new_value: dec_repr(old(self).total_of(key@) + sbe_val(delta@)),
                },
            ),
    {
        let ghost s0 = self.entries@;
        let found = self.find_entry(key);
        let old_dec: Vec<u8> = match found {
            Some(i) => copy_bytes(self.entries[i].value.as_slice()),
            None => {
                let mut z: Vec<u8> = Vec::new();
                z.push(48u8);
                proof {
                    assert(z@ =~= dec_repr(0));
                }
                z
            },
        };
        proof {
            match found {
                Some(i) => {
                    lemma_val_at(s0, key@, i as int);
                    lemma_dec_repr_val(dec_signed_val(s0[i as int].value@));
                    assert(old_dec@ == dec_repr(val_of(s0, key@)));
                },
                None => {
                    lemma_dec_repr_val(0);
                    assert(old_dec@ == dec_repr(val_of(s0, key@)));
                },
            }
        }
        let new_dec = dec_add_sbe(old_dec.as_slice(), delta);
        let ghost total1 = val_of(s0, key@) + sbe_val(delta@);
        proof {
            lemma_dec_repr_val(total1);
        }
        let entry_value = copy_bytes(new_dec.as_slice());
        match found {
            Some(i) => {
                self.entries[i].value = entry_value;
                proof {
                    let s1 = self.entries@;
                    assert(s1 =~= s0.update(i as int, StoreEntry { key: s0[i as int].key, value: entry_value }));
                    assert forall|k: Seq<u8>| has_key(s1, k) <==> has_key(s0, k) || k == key@ by {
                        if has_key(s1, k) {
                            let w = choose|w: int| 0 <= w < s1.len() && (#[trigger] s1[w].key@) == k;
                            assert(s0[w].key@ == k);
                        }
                        if has_key(s0, k) {
                            let w = choose|w: int| 0 <= w < s0.len() && (#[trigger] s0[w].key@) == k;
                            assert(s1[w].key@ == k);
                        }
                        if k == key@ {
                            assert(s1[i as int].key@ == k);
                        }
                    }
                    assert(unique_keys(s1));
                    lemma_val_at(s1, key@, i as int);
                    assert(val_of(s1, key@) == total1);
                    assert forall|k: Seq<u8>| k != key@ implies val_of(s1, k) == val_of(s0, k) by {
                        if has_key(s1, k) {
                            let w = entry_idx(s1, k);
                            assert(w != i as int);
                            lemma_val_at(s0, k, w);
                        } else {
                            assert(!has_key(s0, k)) by {
                                if has_key(s0, k) {
                                    let w = choose|w: int|
                                        0 <= w < s0.len() && (#[trigger] s0[w].key@) == k;
                                    assert(s1[w].key@ == k);
                                }
                            }
                        }
                    }
                    assert(canonical_values(s1));
                }
            },
            None => {
                let new_entry = StoreEntry { key: copy_bytes(key), value: entry_value };
                self.entries.push(new_entry);
                proof {
                    let s1 = self.entries@;
                    let n0 = s0.len() as int;
                    assert(s1 =~= s0.push(new_entry));
                    assert(s1[n0].key@ == key@);
                    assert forall|k: Seq<u8>| has_key(s1, k) <==> has_key(s0, k) || k == key@ by {
                        if has_key(s1, k) {
                            let w = choose|w: int| 0 <= w < s1.len() && (#[trigger] s1[w].key@) == k;
                            if w < n0 {
                                assert(s0[w].key@ == k);
                            }
                        }
                        if has_key(s0, k) {
                            let w = choose|w: int| 0 <= w < s0.len() && (#[trigger] s0[w].key@) == k;
                            assert(s1[w].key@ == k);
                        }
                    }
                    assert(unique_keys(s1)) by {
                        assert(forall|j: int| 0 <= j < n0 ==> (#[trigger] s0[j].key@) != key@);
                    }
                    lemma_val_at(s1, key@, n0);
                    assert(!has_key(s0, key@));
                    assert(val_of(s1, key@) == total1);
                    assert forall|k: Seq<u8>| k != key@ implies val_of(s1, k) == val_of(s0, k) by {
                        if has_key(s1, k) {
                            let w = entry_idx(s1, k);
                            assert(w != n0);
                            lemma_val_at(s0, k, w);
                        } else {
                            assert(!has_key(s0, k)) by {
                                if has_key(s0, k) {
                                    let w = choose|w: int|
                                        0 <= w < s0.len() && (#[trigger] s0[w].key@) == k;
                                    assert(s1[w].key@ == k);
                                }
                            }
                        }
                    }
                    assert(canonical_values(s1));
                }
            },
        }
        let ghost log0 = self.log@;
        let log_entry = StoreDelta {
            ordinal: ord,
            key: copy_bytes(key),
            old_value: old_dec,
            new_value: new_dec,
        };
        self.log.push(log_entry);
        proof {
            assert(self.log@.map_values(|d: StoreDelta| d@) =~= log0.map_values(
                |d: StoreDelta| d@,
            ).push(log_entry@));
        }
    }

    /// Reads the accumulated value under a key as its canonical base-10
    /// rendering, or `None` where no addition was ever made.
    pub fn get_last(&self, key: &[u8]) -> (r: Option<Vec<u8>>)
        requires
            self.wf(),
        ensures
            r is Some <==> self.contains_key(key@),
            r matches Some(v) ==> v@ == dec_repr(self.total_of(key@)),
    {
        match self.find_entry(key) {
            Some(i) => {
                proof {
                    lemma_val_at(self.entries@, key@, i as int);
                }
                Some(copy_bytes(self.entries[i].value.as_slice()))
            },
            None => None,
        }
    }

    /// Hands out the change-log accumulated so far and empties it; the
    /// stored totals stay.
    pub fn take_changelog(&mut self) -> (r: StoreDeltas)
        ensures
            r@ == old(self).changelog(),
            final(self).changelog() == Seq::<StoreDeltaView>::empty(),
            final(self).wf() == old(self).wf(),
            forall|k: Seq<u8>| final(self).contains_key(k) == old(self).contains_key(k),
            forall|k: Seq<u8>| final(self).total_of(k) == old(self).total_of(k),
    {
        let mut l: Vec<StoreDelta> = Vec::new();
        core::mem::swap(&mut l, &mut self.log);
        proof {
            assert(self.log@.map_values(|d: StoreDelta| d@) =~= Seq::<StoreDeltaView>::empty());
        }
        StoreDeltas { deltas: l }
    }
}

} // verus!
