//! The key-value engine: one owned store holding each key's value and,
//! when set, its absolute expiry instant in milliseconds since the epoch.
//! Value and expiry live in one slot, so a write updates both together
//! and an expiry entry can never outlive its key. Every read applies the
//! lazy-expiry rule: a key whose instant is at or before "now" is absent,
//! whether or not it has been physically removed yet.

use vstd::prelude::*;
use crate::numbers::{int_bytes, spec_parse_i64, parse_i64, i64_to_dec, lemma_parse_int_bytes};
use crate::bytes::bytes_eq;

verus! {

/// A stored value. Only byte strings exist today; the tag leaves room
/// for further kinds without changing the engine's contracts.
#[derive(Debug, PartialEq, Eq)]
pub enum DataTypes {
    Str(Vec<u8>),
}

impl DataTypes {
    /// The bytes a stored value holds.
    pub open spec fn bytes(self) -> Seq<u8> {
        match self {
            DataTypes::Str(b) => b@,
        }
    }

    /// An owned copy of a stored value.
    pub fn duplicate(&self) -> (r: DataTypes)
        ensures
            r.bytes() == self.bytes(),
    {
        match self {
            DataTypes::Str(b) => DataTypes::Str(vstd::slice::slice_to_vec(b.as_slice())),
        }
    }
}

/// One key with its value and optional absolute expiry (ms since epoch).
pub struct Slot {
    pub key: Vec<u8>,
    pub value: DataTypes,
    pub expires_at: Option<i64>,
}

/// What a slot means: the stored bytes and the expiry instant, if any.
pub open spec fn slot_model(s: Slot) -> (Seq<u8>, Option<int>) {
    (
        s.value.bytes(),
        match s.expires_at {
            Option::Some(t) => Option::Some(t as int),
            Option::None => Option::None,
        },
    )
}

/// The abstract store: each key's bytes, with its expiry instant if any.
pub type StoreModel = Map<Seq<u8>, (Seq<u8>, Option<int>)>;

/// The mapping a run of slots stands for; later slots win, though the
/// engine keeps keys unique so the question never arises.
pub open spec fn map_of(entries: Seq<Slot>) -> Map<Seq<u8>, (Seq<u8>, Option<int>)>
    decreases entries.len(),
{
    if entries.len() == 0 {
        Map::empty()
    } else {
        map_of(entries.drop_last()).insert(entries.last().key@, slot_model(entries.last()))
    }
}

/// Keys are pairwise distinct.
pub open spec fn unique_keys(entries: Seq<Slot>) -> bool {
    forall|i: int, j: int|
        0 <= i < j < entries.len() ==> (#[trigger] entries[i].key@) != (#[trigger] entries[j].key@)
}

/// Whether an entry is alive at `now`: no expiry, or an instant still in
/// the future. An instant at or before `now` means the key is gone.
pub open spec fn live_at(entry: (Seq<u8>, Option<int>), now: int) -> bool {
    match entry.1 {
        Option::Some(t) => t > now,
        Option::None => true,
    }
}

/// The value a read of `k` at `now` yields: present and alive, or absent.
pub open spec fn spec_get(
    m: Map<Seq<u8>, (Seq<u8>, Option<int>)>,
    k: Seq<u8>,
    now: int,
) -> Option<Seq<u8>> {
    if m.contains_key(k) && live_at(m[k], now) {
        Option::Some(m[k].0)
    } else {
        Option::None
    }
}

/// A key stands in the mapping exactly when a slot holds it.
pub proof fn lemma_map_of_contains(entries: Seq<Slot>, k: Seq<u8>)
    ensures
        map_of(entries).contains_key(k) <==> exists|i: int|
            0 <= i < entries.len() && (#[trigger] entries[i].key@) == k,
    decreases entries.len(),
{
    if entries.len() > 0 {
        lemma_map_of_contains(entries.drop_last(), k);
        let d = entries.drop_last();
        if map_of(entries).contains_key(k) {
            if entries.last().key@ == k {
                assert(entries[entries.len() - 1].key@ == k);
            } else {
                let i = choose|i: int| 0 <= i < d.len() && (#[trigger] d[i].key@) == k;
                assert(entries[i].key@ == k);
            }
        }
        if exists|i: int| 0 <= i < entries.len() && (#[trigger] entries[i].key@) == k {
            let i = choose|i: int| 0 <= i < entries.len() && (#[trigger] entries[i].key@) == k;
            if i < entries.len() - 1 {
                assert(d[i].key@ == k);
            }
        }
    }
}

/// With unique keys, the mapping at a slot's key is that slot's meaning.
pub proof fn lemma_map_of_index(entries: Seq<Slot>, i: int)
    requires
        unique_keys(entries),
        0 <= i < entries.len(),
    ensures
        map_of(entries).contains_key(entries[i].key@),
        map_of(entries)[entries[i].key@] == slot_model(entries[i]),
    decreases entries.len(),
{
    let d = entries.drop_last();
    if i == entries.len() - 1 {
    } else {
        assert(unique_keys(d)) by {
            assert(forall|x: int, y: int|
                0 <= x < y < d.len() ==> d[x].key@ == entries[x].key@ && d[y].key@
                    == entries[y].key@);
        }
        lemma_map_of_index(d, i);
        assert(entries[i].key@ != entries.last().key@) by {
            assert(entries.last() == entries[entries.len() - 1]);
        }
        assert(d[i] == entries[i]);
    }
}

/// Replacing the slot at `i` by one with the same key updates just that
/// key's meaning.
pub proof fn lemma_map_of_update(entries: Seq<Slot>, i: int, slot: Slot)
    requires
        unique_keys(entries),
        0 <= i < entries.len(),
        slot.key@ == entries[i].key@,
    ensures
        map_of(entries.update(i, slot)) == map_of(entries).insert(slot.key@, slot_model(slot)),
        unique_keys(entries.update(i, slot)),
    decreases entries.len(),
{
    let u = entries.update(i, slot);
    assert(unique_keys(u)) by {
        assert(forall|x: int|
            0 <= x < entries.len() ==> (#[trigger] u[x].key@) == entries[x].key@);
    }
    if i == entries.len() - 1 {
        assert(u.drop_last() =~= entries.drop_last());
        assert(u.last() == slot);
        assert(map_of(u) =~= map_of(entries).insert(slot.key@, slot_model(slot)));
    } else {
        let d = entries.drop_last();
        assert(unique_keys(d)) by {
            assert(forall|x: int|
                0 <= x < d.len() ==> (#[trigger] d[x].key@) == entries[x].key@);
        }
        assert(d[i] == entries[i]);
        lemma_map_of_update(d, i, slot);
        assert(u.drop_last() =~= d.update(i, slot));
        assert(u.last() == entries.last());
        assert(slot.key@ != entries.last().key@) by {
            assert(entries.last() == entries[entries.len() - 1]);
        }
        assert(map_of(u) == map_of(d.update(i, slot)).insert(
            entries.last().key@,
            slot_model(entries.last()),
        ));
        assert(map_of(u) =~= map_of(entries).insert(slot.key@, slot_model(slot)));
    }
}

/// Removing the slot at `i` removes just that key's meaning.
pub proof fn lemma_map_of_remove(entries: Seq<Slot>, i: int)
    requires
        unique_keys(entries),
        0 <= i < entries.len(),
    ensures
        map_of(entries.remove(i)) == map_of(entries).remove(entries[i].key@),
        unique_keys(entries.remove(i)),
    decreases entries.len(),
{
    let r = entries.remove(i);
    let k = entries[i].key@;
    assert(unique_keys(r)) by {
        assert(forall|x: int|
            0 <= x < r.len() ==> (#[trigger] r[x].key@) == (if x < i {
                entries[x].key@
            } else {
                entries[x + 1].key@
            }));
    }
    let d = entries.drop_last();
    assert(unique_keys(d)) by {
        assert(forall|x: int| 0 <= x < d.len() ==> (#[trigger] d[x].key@) == entries[x].key@);
    }
    if i == entries.len() - 1 {
        assert(r =~= d);
        lemma_map_of_contains(d, k);
        assert(!map_of(d).contains_key(k)) by {
            if exists|x: int| 0 <= x < d.len() && (#[trigger] d[x].key@) == k {
                let x = choose|x: int| 0 <= x < d.len() && (#[trigger] d[x].key@) == k;
                assert(entries[x].key@ == entries[i].key@);
            }
        }
        assert(map_of(r) =~= map_of(entries).remove(k));
    } else {
        lemma_map_of_remove(d, i);
        assert(d[i] == entries[i]);
        assert(r.drop_last() =~= d.remove(i));
        assert(r.last() == entries.last());
        assert(k != entries.last().key@) by {
            assert(entries.last() == entries[entries.len() - 1]);
        }
        assert(map_of(r) == map_of(d.remove(i)).insert(
            entries.last().key@,
            slot_model(entries.last()),
        ));
        assert(map_of(r) =~= map_of(entries).remove(k));
    }
}

/// Appending a slot with a fresh key adds just that key's meaning.
pub proof fn lemma_map_of_push(entries: Seq<Slot>, slot: Slot)
    requires
        unique_keys(entries),
        forall|i: int| 0 <= i < entries.len() ==> (#[trigger] entries[i].key@) != slot.key@,
    ensures
        map_of(entries.push(slot)) == map_of(entries).insert(slot.key@, slot_model(slot)),
        unique_keys(entries.push(slot)),
{
    let p = entries.push(slot);
    assert(p.drop_last() =~= entries);
    assert(p.last() == slot);
    assert(unique_keys(p)) by {
        assert(forall|x: int|
            0 <= x < entries.len() ==> (#[trigger] p[x].key@) == entries[x].key@);
        assert(p[p.len() - 1] == slot);
    }
}

/// The key-value store. All operations go through `&self`/`&mut self`
/// methods, so one owned instance behind one lock serialises every
/// compound read-modify-write.
pub struct DatabaseOps {
    entries: Vec<Slot>,
}

impl View for DatabaseOps {
    type V = Map<Seq<u8>, (Seq<u8>, Option<int>)>;

    closed spec fn view(&self) -> Map<Seq<u8>, (Seq<u8>, Option<int>)> {
        map_of(self.entries@)
    }
}

impl DatabaseOps {
    /// The store's internal invariant: one slot per key.
    pub closed spec fn wf(self) -> bool {
        unique_keys(self.entries@)
    }

    /// An empty store.
    pub fn new() -> (r: DatabaseOps)
        ensures
            r.wf(),
            r@ == Map::<Seq<u8>, (Seq<u8>, Option<int>)>::empty(),
    {
        DatabaseOps { entries: Vec::new() }
    }

    /// The index of the slot holding `key`, if one does.
    fn find_index(&self, key: &[u8]) -> (r: Option<usize>)
        ensures
            match r {
                Option::Some(i) => i < self.entries@.len() && self.entries@[i as int].key@ == key@,
                Option::None => forall|i: int|
                    0 <= i < self.entries@.len() ==> (#[trigger] self.entries@[i].key@) != key@,
            },
    {
        let mut i: usize = 0;
        while i < self.entries.len()
            invariant
                i <= self.entries@.len(),
                forall|j: int| 0 <= j < i ==> (#[trigger] self.entries@[j].key@) != key@,
            decreases self.entries@.len() - i,
        {
            if bytes_eq(self.entries[i].key.as_slice(), key) {
                return Some(i);
            }
            i += 1;
        }
        None
    }

    /// Reads `key` at `now_ms`, lazily treating an expired entry as
    /// absent.
    pub fn get(&self, key: &[u8], now_ms: i64) -> (r: Option<DataTypes>)
        requires
            self.wf(),
        ensures
            match r {
                Option::Some(v) => spec_get(self@, key@, now_ms as int) == Option::Some(v.bytes()),
                Option::None => spec_get(self@, key@, now_ms as int) is None,
            },
    {
        match self.find_index(key) {
            None => {
                proof {
                    lemma_map_of_contains(self.entries@, key@);
                }
                None
            },
            Some(i) => {
                proof {
                    lemma_map_of_index(self.entries@, i as int);
                }
                let alive = match self.entries[i].expires_at {
                    Option::Some(t) => t > now_ms,
                    Option::None => true,
                };
                if alive {
                    Some(self.entries[i].value.duplicate())
                } else {
                    None
                }
            },
        }
    }

    /// Writes `key`, gated by `nx` (only if absent) and `xx` (only if
    /// present), presence judged lazily at `now_ms`. A write installs
    /// `expires_at` wholesale, clearing any prior expiry; a gated-out
    /// call changes nothing. Returns whether the write happened.
    pub fn set(
        &mut self,
        key: Vec<u8>,
        value: DataTypes,
        expires_at: Option<i64>,
        nx: bool,
        xx: bool,
        now_ms: i64,
    ) -> (written: bool)
        requires
            old(self).wf(),
        ensures
            final(self).wf(),
            ({
                let present = spec_get(old(self)@, key@, now_ms as int) is Some;
                let allowed = (!nx || !present) && (!xx || present);
                &&& written == allowed
                &&& allowed ==> final(self)@ == old(self)@.insert(
                    key@,
                    (
                        value.bytes(),
                        match expires_at {
                            Option::Some(t) => Option::Some(t as int),
                            Option::None => Option::None::<int>,
                        },
                    ),
                )
                &&& !allowed ==> final(self)@ == old(self)@
            }),
    {
        let idx = self.find_index(key.as_slice());
        let present = match idx {
            Some(i) => {
                proof {
                    lemma_map_of_index(self.entries@, i as int);
                }
                match self.entries[i].expires_at {
                    Option::Some(t) => t > now_ms,
                    Option::None => true,
                }
            },
            None => {
                proof {
                    lemma_map_of_contains(self.entries@, key@);
                }
                false
            },
        };
        if (nx && present) || (xx && !present) {
            return false;
        }
        let slot = Slot { key, value, expires_at };
        match idx {
            Some(i) => {
                proof {
                    lemma_map_of_update(self.entries@, i as int, slot);
                }
                self.entries[i] = slot;
            },
            None => {
                proof {
                    lemma_map_of_push(self.entries@, slot);
                }
                self.entries.push(slot);
            },
        }
        true
    }

    /// Removes `key` and any expiry with it; yields the stored value if
    /// the key was alive at `now_ms`, nothing if it was absent or
    /// already expired.
    pub fn del(&mut self, key: &[u8], now_ms: i64) -> (r: Option<DataTypes>)
        requires
            old(self).wf(),
        ensures
            final(self).wf(),
            final(self)@ == old(self)@.remove(key@),
            match r {
                Option::Some(v) => spec_get(old(self)@, key@, now_ms as int) == Option::Some(
                    v.bytes(),
                ),
                Option::None => spec_get(old(self)@, key@, now_ms as int) is None,
            },
    {
        match self.find_index(key) {
            None => {
                proof {
                    lemma_map_of_contains(self.entries@, key@);
                    assert(self@.remove(key@) =~= self@);
                }
                None
            },
            Some(i) => {
                proof {
                    lemma_map_of_index(self.entries@, i as int);
                    lemma_map_of_remove(self.entries@, i as int);
                }
                let slot = self.entries.remove(i);
                let alive = match slot.expires_at {
                    Option::Some(t) => t > now_ms,
                    Option::None => true,
                };
                if alive {
                    Some(slot.value)
                } else {
                    None
                }
            },
        }
    }

    /// Every key alive at `now_ms`, each exactly once, in store order.
    #[verifier::rlimit(60)]
    pub fn keys(&self, now_ms: i64) -> (r: Vec<Vec<u8>>)
        requires
            self.wf(),
        ensures
            forall|i: int|
                0 <= i < r@.len() ==> spec_get(self@, (#[trigger] r@[i])@, now_ms as int) is Some,
            forall|k: Seq<u8>|
                spec_get(self@, k, now_ms as int) is Some ==> exists|i: int|
                    0 <= i < r@.len() && (#[trigger] r@[i])@ == k,
            forall|i: int, j: int| 0 <= i < j < r@.len() ==> (#[trigger] r@[i])@ != (#[trigger] r@[j])@,
    {
        let mut r: Vec<Vec<u8>> = Vec::new();
        let ghost mut w: Seq<int> = Seq::empty();
        let mut i: usize = 0;
        while i < self.entries.len()
            invariant
                self.wf(),
                i <= self.entries@.len(),
                w.len() == r@.len(),
                forall|x: int|
                    0 <= x < w.len() ==> 0 <= (#[trigger] w[x]) < i && (r@[x])@
                        == self.entries@[w[x]].key@ && live_at(
                        slot_model(self.entries@[w[x]]),
                        now_ms as int,
                    ),
                forall|x: int, y: int| 0 <= x < y < w.len() ==> (#[trigger] w[x]) < (#[trigger] w[y]),
                forall|t: int|
                    0 <= t < i && live_at(slot_model(#[trigger] self.entries@[t]), now_ms as int)
                        ==> exists|x: int| 0 <= x < r@.len() && (#[trigger] r@[x])@
                        == self.entries@[t].key@,
            decreases self.entries@.len() - i,
        {
            let ghost old_r = r@;
            let ghost old_w = w;
            let alive = match self.entries[i].expires_at {
                Option::Some(t) => t > now_ms,
                Option::None => true,
            };
            if alive {
                let k = vstd::slice::slice_to_vec(self.entries[i].key.as_slice());
                r.push(k);
                proof {
                    w = old_w.push(i as int);
                    assert(r@ == old_r.push(k));
                    assert(forall|x: int|
                        0 <= x < old_w.len() ==> w[x] == old_w[x] && r@[x] == old_r[x]);
                    assert(w[w.len() - 1] == i as int);
                    assert((r@[r@.len() - 1])@ == self.entries@[i as int].key@);
                    assert(live_at(slot_model(self.entries@[i as int]), now_ms as int));
                    assert forall|t: int|
                        0 <= t < i + 1 && live_at(
                            slot_model(#[trigger] self.entries@[t]),
                            now_ms as int,
                        ) implies exists|x: int| 0 <= x < r@.len() && (#[trigger] r@[x])@
                        == self.entries@[t].key@ by {
                        if t == i as int {
                            assert((r@[r@.len() - 1])@ == self.entries@[t].key@);
                        } else {
                            let x = choose|x: int|
                                0 <= x < old_r.len() && (#[trigger] old_r[x])@
                                    == self.entries@[t].key@;
                            assert((r@[x])@ == self.entries@[t].key@);
                        }
                    }
                }
            } else {
                proof {
                    assert(!live_at(slot_model(self.entries@[i as int]), now_ms as int));
                    assert forall|t: int|
                        0 <= t < i + 1 && live_at(
                            slot_model(#[trigger] self.entries@[t]),
                            now_ms as int,
                        ) implies exists|x: int| 0 <= x < r@.len() && (#[trigger] r@[x])@
                        == self.entries@[t].key@ by {
                        assert(0 <= t < i);
                    }
                }
            }
            i += 1;
        }
        proof {
            assert forall|x: int|
                0 <= x < r@.len() implies spec_get(self@, (r@[x])@, now_ms as int) is Some by {
                lemma_map_of_index(self.entries@, w[x]);
            }
            assert forall|k: Seq<u8>|
                spec_get(self@, k, now_ms as int) is Some implies exists|x: int|
                0 <= x < r@.len() && (#[trigger] r@[x])@ == k by {
                lemma_map_of_contains(self.entries@, k);
                let t = choose|t: int|
                    0 <= t < self.entries@.len() && (#[trigger] self.entries@[t].key@) == k;
                lemma_map_of_index(self.entries@, t);
                assert(live_at(slot_model(self.entries@[t]), now_ms as int));
                let x = choose|x: int|
                    0 <= x < r@.len() && (#[trigger] r@[x])@ == self.entries@[t].key@;
                assert((r@[x])@ == k);
            }
            assert forall|x: int, y: int| 0 <= x < y < r@.len() implies (#[trigger] r@[x])@
                != (#[trigger] r@[y])@ by {
                assert(w[x] != w[y]);
                assert(self.entries@[w[x]].key@ != self.entries@[w[y]].key@);
            }
        }
        r
    }

    /// Installs an absolute expiry on a key alive at `now_ms`; a dead or
    /// absent key is left untouched. Returns whether it applied.
    pub fn expire(&mut self, key: &[u8], at_unix_ms: i64, now_ms: i64) -> (r: bool)
        requires
            old(self).wf(),
        ensures
            final(self).wf(),
            r == (spec_get(old(self)@, key@, now_ms as int) is Some),
            r ==> final(self)@ == old(self)@.insert(
                key@,
                (old(self)@[key@].0, Option::Some(at_unix_ms as int)),
            ),
            !r ==> final(self)@ == old(self)@,
    {
        match self.find_index(key) {
            None => {
                proof {
                    lemma_map_of_contains(self.entries@, key@);
                }
                false
            },
            Some(i) => {
                proof {
                    lemma_map_of_index(self.entries@, i as int);
                }
                let alive = match self.entries[i].expires_at {
                    Option::Some(t) => t > now_ms,
                    Option::None => true,
                };
                if alive {
                    let slot = Slot {
                        key: vstd::slice::slice_to_vec(key),
                        value: self.entries[i].value.duplicate(),
                        expires_at: Some(at_unix_ms),
                    };
                    proof {
                        lemma_map_of_update(self.entries@, i as int, slot);
                    }
                    self.entries[i] = slot;
                    true
                } else {
                    false
                }
            },
        }
    }

    /// Adds `delta` to the integer stored at `key`, an absent or expired
    /// key counting as 0. Yields the new value, which is stored as its
    /// decimal text; an alive key keeps its expiry. Nothing changes and
    /// nothing is yielded when the stored bytes are not a signed 64-bit
    /// decimal or the sum would leave the 64-bit range.
    pub fn incr_by(&mut self, key: &[u8], delta: i64, now_ms: i64) -> (r: Option<i64>)
        requires
            old(self).wf(),
        ensures
            final(self).wf(),
            ({
                let cur = spec_get(old(self)@, key@, now_ms as int);
                let base: Option<i64> = match cur {
                    Option::None => Option::Some(0i64),
                    Option::Some(b) => spec_parse_i64(b),
                };
                match r {
                    Option::Some(nv) => {
                        &&& base is Some
                        &&& nv == base->0 + delta
                        &&& final(self)@ == old(self)@.insert(
                            key@,
                            (
                                int_bytes(nv as int),
                                (if cur is Some {
                                    old(self)@[key@].1
                                } else {
                                    Option::None::<int>
                                }),
                            ),
                        )
                    },
                    Option::None => {
                        &&& (base is None || !(i64::MIN <= base->0 + delta <= i64::MAX))
                        &&& final(self)@ == old(self)@
                    },
                }
            }),
    {
        let idx = self.find_index(key);
        let mut base: i64 = 0;
        let mut alive_idx: Option<usize> = None;
        match idx {
            None => {
                proof {
                    lemma_map_of_contains(self.entries@, key@);
                }
            },
            Some(i) => {
                proof {
                    lemma_map_of_index(self.entries@, i as int);
                }
                let alive = match self.entries[i].expires_at {
                    Option::Some(t) => t > now_ms,
                    Option::None => true,
                };
                if alive {
                    match &self.entries[i].value {
                        DataTypes::Str(b) => {
                            match parse_i64(b.as_slice()) {
                                None => {
                                    return None;
                                },
                                Some(v) => {
                                    base = v;
                                },
                            }
                        },
                    }
                    alive_idx = Some(i);
                }
            },
        }
        let nv = match base.checked_add(delta) {
            None => {
                return None;
            },
            Some(nv) => nv,
        };
        let stored = DataTypes::Str(i64_to_dec(nv));
        match alive_idx {
            Some(i) => {
                let slot = Slot {
                    key: vstd::slice::slice_to_vec(key),
                    value: stored,
                    expires_at: self.entries[i].expires_at,
                };
                proof {
                    lemma_map_of_update(self.entries@, i as int, slot);
                }
                self.entries[i] = slot;
            },
            None => {
                match idx {
                    Some(i) => {
                        let slot = Slot {
                            key: vstd::slice::slice_to_vec(key),
                            value: stored,
                            expires_at: None,
                        };
                        proof {
                            lemma_map_of_update(self.entries@, i as int, slot);
                        }
                        self.entries[i] = slot;
                    },
                    None => {
                        let slot = Slot {
                            key: vstd::slice::slice_to_vec(key),
                            value: stored,
                            expires_at: None,
                        };
                        proof {
                            lemma_map_of_push(self.entries@, slot);
                        }
                        self.entries.push(slot);
                    },
                }
            },
        }
        Some(nv)
    }

    /// One sweep: physically removes every entry whose expiry instant is
    /// at or before `now_ms`. Live entries are untouched; reads never
    /// needed this, since they apply the expiry rule themselves.
    pub fn delete_expired_keys(&mut self, now_ms: i64)
        requires
            old(self).wf(),
        ensures
            final(self).wf(),
            forall|k: Seq<u8>|
                #[trigger] final(self)@.contains_key(k) ==> old(self)@.contains_key(k)
                    && final(self)@[k] == old(self)@[k]
                    && live_at(old(self)@[k], now_ms as int),
            forall|k: Seq<u8>|
                old(self)@.contains_key(k) && live_at(#[trigger] old(self)@[k], now_ms as int)
                    ==> final(self)@.contains_key(k),
    {
        let ghost m0 = self@;
        let mut i: usize = 0;
        while i < self.entries.len()
            invariant
                self.wf(),
                i <= self.entries@.len(),
                forall|t: int|
                    0 <= t < i ==> live_at(slot_model(#[trigger] self.entries@[t]), now_ms as int),
                forall|k: Seq<u8>|
                    #[trigger] self@.contains_key(k) ==> m0.contains_key(k) && self@[k] == m0[k],
                forall|k: Seq<u8>|
                    m0.contains_key(k) && live_at(#[trigger] m0[k], now_ms as int)
                        ==> self@.contains_key(k),
            decreases self.entries@.len() - i,
        {
            let dead = match self.entries[i].expires_at {
                Option::Some(t) => t <= now_ms,
                Option::None => false,
            };
            if dead {
                let ghost before = self.entries@;
                proof {
                    lemma_map_of_index(before, i as int);
                    lemma_map_of_remove(before, i as int);
                    assert(self@ == map_of(before));
                    assert(forall|k: Seq<u8>|
                        #[trigger] map_of(before).contains_key(k) ==> m0.contains_key(k) && map_of(
                            before,
                        )[k] == m0[k]);
                    assert(forall|k: Seq<u8>|
                        m0.contains_key(k) && live_at(#[trigger] m0[k], now_ms as int) ==> map_of(
                            before,
                        ).contains_key(k));
                }
                self.entries.remove(i);
                proof {
                    let k0 = before[i as int].key@;
                    assert(self.entries@ == before.remove(i as int));
                    assert(self@ == map_of(before).remove(k0));
                    before.remove_ensures(i as int);
                    assert(!live_at(map_of(before)[k0], now_ms as int));
                    assert forall|k: Seq<u8>| #[trigger] self@.contains_key(k) implies m0.contains_key(
                        k,
                    ) && self@[k] == m0[k] by {
                        assert(map_of(before).remove(k0).contains_key(k));
                        assert(map_of(before).contains_key(k));
                        assert(k != k0);
                        assert(self@[k] == map_of(before)[k]);
                        assert(m0.contains_key(k));
                        assert(map_of(before)[k] == m0[k]);
                    }
                    assert forall|k: Seq<u8>|
                        m0.contains_key(k) && live_at(#[trigger] m0[k], now_ms as int) implies self@
                        .contains_key(k) by {
                        assert(map_of(before).contains_key(k));
                        if k == k0 {
                            assert(map_of(before)[k0] == m0[k0]);
                            assert(false);
                        }
                    }
                }
            } else {
                i += 1;
            }
        }
        proof {
            assert forall|k: Seq<u8>| #[trigger] self@.contains_key(k) implies live_at(
                old(self)@[k],
                now_ms as int,
            ) by {
                lemma_map_of_contains(self.entries@, k);
                let t = choose|t: int|
                    0 <= t < self.entries@.len() && (#[trigger] self.entries@[t].key@) == k;
                lemma_map_of_index(self.entries@, t);
            }
        }
    }
}

/// After a write with no expiry, the key reads back as that value at
/// every instant: only a later write, a removal, or an expiry installed
/// by a later write can change what `get` yields.
pub proof fn lemma_set_then_get(m: StoreModel, k: Seq<u8>, v: Seq<u8>, now: int)
    ensures
        spec_get(m.insert(k, (v, Option::None)), k, now) == Option::Some(v),
{
}

/// An operation on one key never disturbs a read of another: writes and
/// removals of `k2` leave `k`'s reading unchanged.
pub proof fn lemma_other_key_preserved(
    m: StoreModel,
    k: Seq<u8>,
    k2: Seq<u8>,
    e: (Seq<u8>, Option<int>),
    now: int,
)
    requires
        k != k2,
    ensures
        spec_get(m.insert(k2, e), k, now) == spec_get(m, k, now),
        spec_get(m.remove(k2), k, now) == spec_get(m, k, now),
{
}

/// Removing a key makes the next read find nothing; and a key that is
/// not there reads as nothing, which is what a removal of an absent key
/// reports.
pub proof fn lemma_delete_then_get(m: StoreModel, k: Seq<u8>, now: int)
    ensures
        spec_get(m.remove(k), k, now) is None,
        !m.contains_key(k) ==> spec_get(m, k, now) is None,
{
}

/// Two back-to-back `SET ... NX` writes of one key, the key at first
/// absent: the first is allowed and lands; after it the key reads as
/// present at every instant, so the second NX write is gated out and the
/// value stays the first one.
pub proof fn lemma_set_nx_twice(m: StoreModel, k: Seq<u8>, v: Seq<u8>, now: int, now2: int)
    requires
        spec_get(m, k, now) is None,
    ensures
        spec_get(m.insert(k, (v, Option::None)), k, now2) == Option::Some(v),
{
}

/// A write whose expiry instant is at or before `now` leaves the key
/// unreadable from `now` on, whether or not the sweeper has run.
pub proof fn lemma_expired_write_unreadable(
    m: StoreModel,
    k: Seq<u8>,
    v: Seq<u8>,
    t: int,
    now: int,
)
    requires
        t <= now,
    ensures
        spec_get(m.insert(k, (v, Option::Some(t))), k, now) is None,
{
}

/// The store transition one successful `INCR` makes, per `incr_by`'s
/// contract with delta 1; a failing call leaves the store unchanged.
pub open spec fn spec_incr_step(m: StoreModel, k: Seq<u8>, now: int) -> StoreModel {
    let cur = spec_get(m, k, now);
    let base: Option<i64> = match cur {
        Option::None => Option::Some(0i64),
        Option::Some(b) => spec_parse_i64(b),
    };
    match base {
        Option::Some(b) => if i64::MIN <= b + 1 <= i64::MAX {
            m.insert(
                k,
                (
                    int_bytes(b + 1),
                    (if cur is Some {
                        m[k].1
                    } else {
                        Option::None
                    }),
                ),
            )
        } else {
            m
        },
        Option::None => m,
    }
}

/// `n` `INCR` transitions of one key, in sequence.
pub open spec fn iter_incr(m: StoreModel, k: Seq<u8>, now: int, n: nat) -> StoreModel
    decreases n,
{
    if n == 0 {
        m
    } else {
        spec_incr_step(iter_incr(m, k, now, (n - 1) as nat), k, now)
    }
}

/// No update is lost: `n` serialized `INCR`s of a key that starts
/// absent leave it holding exactly the decimal text of `n`, with no
/// expiry. The engine's single lock is what serializes the calls; this
/// is the transition each call makes while it holds the lock.
pub proof fn lemma_incr_n(m: StoreModel, k: Seq<u8>, now: int, n: nat)
    requires
        !m.contains_key(k),
        n <= i64::MAX,
    ensures
        n > 0 ==> iter_incr(m, k, now, n).contains_key(k) && iter_incr(m, k, now, n)[k] == (
            int_bytes(n as int),
            Option::None::<int>,
        ),
    decreases n,
{
    if n == 1 {
        assert(iter_incr(m, k, now, 0) == m);
        assert(iter_incr(m, k, now, 1) == spec_incr_step(m, k, now));
        assert(spec_get(m, k, now) is None);
        lemma_parse_int_bytes(1i64);
        assert(spec_incr_step(m, k, now) == m.insert(k, (int_bytes(1), Option::None::<int>)));
    } else if n > 1 {
        lemma_incr_n(m, k, now, (n - 1) as nat);
        let prev = iter_incr(m, k, now, (n - 1) as nat);
        assert(prev[k] == (int_bytes(n - 1), Option::None::<int>));
        assert(spec_get(prev, k, now) == Option::Some(int_bytes(n - 1)));
        lemma_parse_int_bytes((n - 1) as i64);
        assert(spec_parse_i64(int_bytes(n - 1)) == Option::Some((n - 1) as i64));
    }
}

} // verus!
