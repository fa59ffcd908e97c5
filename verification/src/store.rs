//! The expiring key-value store: the single point of truth for expiration
//! semantics.
//!
//! Keys are unique byte strings; a write overwrites any existing entry
//! under its key, including its expiration state. A timed entry whose
//! expiration instant has passed is logically absent: any operation that
//! encounters one treats it as a miss and removes it before proceeding.
//! Time is injected: every operation takes the caller's clock reading, so
//! expiry is decidable and testable without a real clock.

use vstd::prelude::*;
use vstd::slice::slice_to_vec;

verus! {

/// The mathematical model of a stored value.
#[verifier::ext_equal]
pub enum DbModel {
    Null,
    Boolean(bool),
    Integer(i64),
    Double(Seq<u8>),
    String(Seq<u8>),
    Error(Seq<u8>),
    Array(Seq<DbModel>),
    ValueSet(Seq<DbModel>),
    Mapping(Seq<(DbModel, DbModel)>),
}

/// A value as the store holds it: the protocol-adjacent reduction of the
/// wire value set. A double is kept as its wire token, so no floating-point
/// arithmetic enters the verified code.
#[derive(Debug)]
pub enum DatabaseValue {
    Null,
    Boolean(bool),
    Integer(i64),
    Double(Vec<u8>),
    String(Vec<u8>),
    Error(Vec<u8>),
    Array(Vec<DatabaseValue>),
    ValueSet(Vec<DatabaseValue>),
    Mapping(Vec<(DatabaseValue, DatabaseValue)>),
}

impl DatabaseValue {
    /// The mathematical model of this value.
    pub open spec fn model(self) -> DbModel
        decreases self,
    {
        match self {
            DatabaseValue::Null => DbModel::Null,
            DatabaseValue::Boolean(b) => DbModel::Boolean(b),
            DatabaseValue::Integer(i) => DbModel::Integer(i),
            DatabaseValue::Double(t) => DbModel::Double(t@),
            DatabaseValue::String(s) => DbModel::String(s@),
            DatabaseValue::Error(s) => DbModel::Error(s@),
            DatabaseValue::Array(elems) => DbModel::Array(Self::model_seq(elems@)),
            DatabaseValue::ValueSet(elems) => DbModel::ValueSet(Self::model_seq(elems@)),
            DatabaseValue::Mapping(entries) => DbModel::Mapping(Self::model_pairs(entries@)),
        }
    }

    /// The models of a sequence of values, in order.
    pub open spec fn model_seq(elems: Seq<DatabaseValue>) -> Seq<DbModel>
        decreases elems,
    {
        Seq::new(
            elems.len(),
            |i: int|
                if 0 <= i < elems.len() {
                    elems[i].model()
                } else {
                    DbModel::Null
                },
        )
    }

    /// The models of a sequence of key-value pairs, in order.
    pub open spec fn model_pairs(entries: Seq<(DatabaseValue, DatabaseValue)>) -> Seq<
        (DbModel, DbModel),
    >
        decreases entries,
    {
        Seq::new(
            entries.len(),
            |i: int|
                if 0 <= i < entries.len() {
                    (entries[i].0.model(), entries[i].1.model())
                } else {
                    (DbModel::Null, DbModel::Null)
                },
        )
    }

    /// A structurally identical copy.
    pub fn duplicate(&self) -> (r: DatabaseValue)
        ensures
            r.model() == self.model(),
        decreases self,
    {
        match self {
            DatabaseValue::Null => DatabaseValue::Null,
            DatabaseValue::Boolean(b) => DatabaseValue::Boolean(*b),
            DatabaseValue::Integer(i) => DatabaseValue::Integer(*i),
            DatabaseValue::Double(t) => DatabaseValue::Double(slice_to_vec(t.as_slice())),
            DatabaseValue::String(s) => DatabaseValue::String(slice_to_vec(s.as_slice())),
            DatabaseValue::Error(s) => DatabaseValue::Error(slice_to_vec(s.as_slice())),
            DatabaseValue::Array(elems) => DatabaseValue::Array(Self::duplicate_all(elems)),
            DatabaseValue::ValueSet(elems) => DatabaseValue::ValueSet(Self::duplicate_all(elems)),
            DatabaseValue::Mapping(entries) => DatabaseValue::Mapping(
                Self::duplicate_pairs(entries),
            ),
        }
    }

    /// Copies of every value in a vector, in order.
    fn duplicate_all(elems: &Vec<DatabaseValue>) -> (r: Vec<DatabaseValue>)
        ensures
            Self::model_seq(r@) == Self::model_seq(elems@),
        decreases elems,
    {
        let n = elems.len();
        let mut out: Vec<DatabaseValue> = Vec::new();
        let mut i: usize = 0;
        loop
            invariant
                0 <= i <= n,
                n == elems@.len(),
                out@.len() == i,
                forall|k: int| 0 <= k < i ==> Self::model_seq(out@)[k] == Self::model_seq(
                    elems@,
                )[k],
            decreases n - i,
        {
            if i >= n {
                proof {
                    assert(Self::model_seq(out@) =~= Self::model_seq(elems@));
                }
                return out;
            }
            let d = elems[i].duplicate();
            out.push(d);
            proof {
                assert(Self::model_seq(out@)[i as int] == out@[i as int].model());
            }
            i = i + 1;
        }
    }

    /// Copies of every pair in a vector, in order.
    fn duplicate_pairs(entries: &Vec<(DatabaseValue, DatabaseValue)>) -> (r: Vec<
        (DatabaseValue, DatabaseValue),
    >)
        ensures
            Self::model_pairs(r@) == Self::model_pairs(entries@),
        decreases entries,
    {
        let n = entries.len();
        let mut out: Vec<(DatabaseValue, DatabaseValue)> = Vec::new();
        let mut i: usize = 0;
        loop
            invariant
                0 <= i <= n,
                n == entries@.len(),
                out@.len() == i,
                forall|k: int| 0 <= k < i ==> Self::model_pairs(out@)[k] == Self::model_pairs(
                    entries@,
                )[k],
            decreases n - i,
        {
            if i >= n {
                proof {
                    assert(Self::model_pairs(out@) =~= Self::model_pairs(entries@));
                }
                return out;
            }
            let k = entries[i].0.duplicate();
            let v = entries[i].1.duplicate();
            out.push((k, v));
            proof {
                assert(Self::model_pairs(out@)[i as int] == (
                    out@[i as int].0.model(),
                    out@[i as int].1.model(),
                ));
            }
            i = i + 1;
        }
    }
}

/// The model of one store entry: its value and its optional absolute
/// expiration instant, in milliseconds of the injected clock.
#[verifier::ext_equal]
pub struct SlotModel {
    pub value: DbModel,
    pub expires: Option<u64>,
}

/// One store entry: a plain value, or a value with an absolute expiration
/// instant.
#[derive(Debug)]
pub enum DatabaseSlot {
    Simple(DatabaseValue),
    Timed { expires: u64, value: DatabaseValue },
}

impl DatabaseSlot {
    /// The mathematical model of this entry.
    pub open spec fn model(self) -> SlotModel {
        match self {
            DatabaseSlot::Simple(v) => SlotModel { value: v.model(), expires: None },
            DatabaseSlot::Timed { expires, value } => SlotModel {
                value: value.model(),
                expires: Some(expires),
            },
        }
    }
}

/// Whether an entry is still alive at the given instant: an entry whose
/// expiration instant has been reached is logically absent.
pub open spec fn live_at(slot: SlotModel, now: u64) -> bool {
    match slot.expires {
        Option::None => true,
        Option::Some(e) => e > now,
    }
}

/// The association-list entries folded into a map, later entries winning.
pub open spec fn entries_model(entries: Seq<(Vec<u8>, DatabaseSlot)>) -> Map<Seq<u8>, SlotModel>
    decreases entries.len(),
{
    if entries.len() == 0 {
        Map::empty()
    } else {
        entries_model(entries.drop_last()).insert(
            entries.last().0@,
            entries.last().1.model(),
        )
    }
}

/// Whether the entry keys are pairwise distinct.
pub open spec fn unique_keys(entries: Seq<(Vec<u8>, DatabaseSlot)>) -> bool {
    forall|i: int, j: int| 0 <= i < j < entries.len() ==> entries[i].0@ != entries[j].0@
}

/// A present key's entry gives its model value.
proof fn lemma_entries_model_at(entries: Seq<(Vec<u8>, DatabaseSlot)>, i: int)
    requires
        unique_keys(entries),
        0 <= i < entries.len(),
    ensures
        entries_model(entries).dom().contains(entries[i].0@),
        entries_model(entries)[entries[i].0@] == entries[i].1.model(),
    decreases entries.len(),
{
    if i == entries.len() - 1 {
    } else {
        assert(unique_keys(entries.drop_last()));
        assert(entries.drop_last()[i] == entries[i]);
        lemma_entries_model_at(entries.drop_last(), i);
        assert(entries[entries.len() - 1].0@ != entries[i].0@);
    }
}

/// A key no entry carries is not in the model.
proof fn lemma_entries_model_absent(entries: Seq<(Vec<u8>, DatabaseSlot)>, k: Seq<u8>)
    requires
        forall|i: int| 0 <= i < entries.len() ==> entries[i].0@ != k,
    ensures
        !entries_model(entries).dom().contains(k),
    decreases entries.len(),
{
    if entries.len() > 0 {
        assert(forall|i: int|
            0 <= i < entries.drop_last().len() ==> entries.drop_last()[i] == entries[i]);
        lemma_entries_model_absent(entries.drop_last(), k);
    }
}

/// Replacing the entry at a key's position models as a map insert.
proof fn lemma_entries_model_update(
    entries: Seq<(Vec<u8>, DatabaseSlot)>,
    i: int,
    kv: (Vec<u8>, DatabaseSlot),
)
    requires
        unique_keys(entries),
        0 <= i < entries.len(),
        kv.0@ == entries[i].0@,
    ensures
        entries_model(entries.update(i, kv)) == entries_model(entries).insert(
            kv.0@,
            kv.1.model(),
        ),
        unique_keys(entries.update(i, kv)),
    decreases entries.len(),
{
    let updated = entries.update(i, kv);
    assert(unique_keys(updated));
    if i == entries.len() - 1 {
        assert(updated.drop_last() =~= entries.drop_last());
        assert(updated.last() == kv);
        assert(entries_model(updated) =~= entries_model(entries).insert(kv.0@, kv.1.model()));
    } else {
        assert(updated.drop_last() =~= entries.drop_last().update(i, kv));
        assert(entries.drop_last()[i] == entries[i]);
        assert(unique_keys(entries.drop_last()));
        lemma_entries_model_update(entries.drop_last(), i, kv);
        assert(updated.last() == entries.last());
        assert(entries_model(updated) =~= entries_model(entries).insert(kv.0@, kv.1.model()));
    }
}

/// Removing the entry at a key's position models as a map remove.
proof fn lemma_entries_model_remove(entries: Seq<(Vec<u8>, DatabaseSlot)>, i: int)
    requires
        unique_keys(entries),
        0 <= i < entries.len(),
    ensures
        entries_model(entries.remove(i)) == entries_model(entries).remove(entries[i].0@),
        unique_keys(entries.remove(i)),
    decreases entries.len(),
{
    let removed = entries.remove(i);
    assert(forall|a: int, b: int| 0 <= a < b < removed.len() ==> removed[a].0@ != removed[b].0@)
        by {
        assert(forall|a: int|
            0 <= a < removed.len() ==> removed[a] == (if a < i {
                entries[a]
            } else {
                entries[a + 1]
            }));
    }
    if i == entries.len() - 1 {
        assert(removed =~= entries.drop_last());
        assert(forall|j: int|
            0 <= j < entries.drop_last().len() ==> entries.drop_last()[j].0@ != entries[i].0@);
        lemma_entries_model_absent(entries.drop_last(), entries[i].0@);
        assert(entries_model(entries) == entries_model(entries.drop_last()).insert(
            entries[i].0@,
            entries[i].1.model(),
        ));
        assert(entries_model(removed) =~= entries_model(entries).remove(entries[i].0@));
    } else {
        assert(removed.drop_last() =~= entries.drop_last().remove(i));
        assert(entries.drop_last()[i] == entries[i]);
        assert(unique_keys(entries.drop_last()));
        lemma_entries_model_remove(entries.drop_last(), i);
        assert(removed.last() == entries.last());
        assert(entries[i].0@ != entries.last().0@);
        assert(entries_model(removed) =~= entries_model(entries).remove(entries[i].0@));
    }
}

/// Appending an entry under a fresh key models as a map insert.
proof fn lemma_entries_model_push(entries: Seq<(Vec<u8>, DatabaseSlot)>, kv: (Vec<u8>, DatabaseSlot))
    requires
        unique_keys(entries),
        forall|i: int| 0 <= i < entries.len() ==> entries[i].0@ != kv.0@,
    ensures
        entries_model(entries.push(kv)) == entries_model(entries).insert(kv.0@, kv.1.model()),
        unique_keys(entries.push(kv)),
{
    let pushed = entries.push(kv);
    assert(pushed.drop_last() =~= entries);
    assert(pushed.last() == kv);
    assert(forall|a: int, b: int| 0 <= a < b < pushed.len() ==> pushed[a].0@ != pushed[b].0@) by {
        assert(forall|a: int| 0 <= a < entries.len() ==> pushed[a] == entries[a]);
    }
}

/// Decides equality of a stored key and a looked-up key.
fn key_matches(a: &Vec<u8>, b: &[u8]) -> (r: bool)
    ensures
        r == (a@ == b@),
{
    let n = a.len();
    if n != b.len() {
        return false;
    }
    let mut i: usize = 0;
    loop
        invariant
            0 <= i <= n,
            n == a@.len() == b@.len(),
            forall|k: int| 0 <= k < i ==> a@[k] == b@[k],
        decreases n - i,
    {
        if i >= n {
            proof {
                assert(a@ =~= b@);
            }
            return true;
        }
        if a[i] != b[i] {
            return false;
        }
        i = i + 1;
    }
}

/// The in-memory key-value store.
pub struct Database {
    values: Vec<(Vec<u8>, DatabaseSlot)>,
}

impl Database {
    /// The mapping the store currently represents.
    pub closed spec fn contents(self) -> Map<Seq<u8>, SlotModel> {
        entries_model(self.values@)
    }

    /// Keys are stored at most once.
    pub closed spec fn wf(self) -> bool {
        unique_keys(self.values@)
    }

    /// An empty store.
    pub fn new() -> (r: Database)
        ensures
            r.wf(),
            r.contents() == Map::<Seq<u8>, SlotModel>::empty(),
    {
        Database { values: Vec::new() }
    }

    /// The position of the entry under `key`, if one is stored.
    fn find(&self, key: &[u8]) -> (r: Option<usize>)
        requires
            self.wf(),
        ensures
            match r {
                Some(i) => i < self.values@.len() && self.values@[i as int].0@ == key@
                    && self.contents().dom().contains(key@) && self.contents()[key@]
                    == self.values@[i as int].1.model(),
                None => !self.contents().dom().contains(key@),
            },
    {
        let n = self.values.len();
        let mut i: usize = 0;
        loop
            invariant
                0 <= i <= n,
                n == self.values@.len(),
                unique_keys(self.values@),
                forall|k: int| 0 <= k < i ==> self.values@[k].0@ != key@,
            decreases n - i,
        {
            if i >= n {
                proof {
                    lemma_entries_model_absent(self.values@, key@);
                }
                return None;
            }
            if key_matches(&self.values[i].0, key) {
                proof {
                    lemma_entries_model_at(self.values@, i as int);
                }
                return Some(i);
            }
            i = i + 1;
        }
    }

    /// Inserts or overwrites the entry under `key`. With a time-to-live the
    /// entry expires at `now + ttl`, replacing any prior expiration state.
    pub fn set(&mut self, key: &[u8], value: DatabaseValue, ttl: Option<u64>, now: u64)
        requires
            old(self).wf(),
            ttl matches Some(t) ==> now + t <= u64::MAX,
        ensures
            final(self).wf(),
            final(self).contents() == old(self).contents().insert(
                key@,
                SlotModel {
                    value: value.model(),
                    expires: match ttl {
                        Option::None => None,
                        Option::Some(t) => Some((now + t) as u64),
                    },
                },
            ),
    {
        let slot = match ttl {
            None => DatabaseSlot::Simple(value),
            Some(t) => DatabaseSlot::Timed { expires: now + t, value },
        };
        let key_owned = slice_to_vec(key);
        let found = self.find(key);
        match found {
            Some(i) => {
                proof {
                    lemma_entries_model_update(self.values@, i as int, (key_owned, slot));
                }
                self.values[i] = (key_owned, slot);
            },
            None => {
                proof {
                    assert(forall|j: int|
                        0 <= j < self.values@.len() ==> self.values@[j].0@ != key@) by {
                        if exists|j: int|
                            0 <= j < self.values@.len() && self.values@[j].0@ == key@ {
                            let j = choose|j: int|
                                0 <= j < self.values@.len() && self.values@[j].0@ == key@;
                            lemma_entries_model_at(self.values@, j);
                        }
                    }
                    lemma_entries_model_push(self.values@, (key_owned, slot));
                }
                self.values.push((key_owned, slot));
            },
        }
    }

    /// Looks up `key`: the stored value while the entry is alive at `now`;
    /// nothing if the key is absent. An entry found expired is removed as a
    /// side effect of the read.
    pub fn get(&mut self, key: &[u8], now: u64) -> (r: Option<DatabaseValue>)
        requires
            old(self).wf(),
        ensures
            final(self).wf(),
            match r {
                Some(v) => old(self).contents().dom().contains(key@) && live_at(
                    old(self).contents()[key@],
                    now,
                ) && v.model() == old(self).contents()[key@].value && final(self).contents()
                    == old(self).contents(),
                None => {
                    &&& !(old(self).contents().dom().contains(key@) && live_at(
                        old(self).contents()[key@],
                        now,
                    ))
                    &&& final(self).contents() == (if old(self).contents().dom().contains(key@) {
                        old(self).contents().remove(key@)
                    } else {
                        old(self).contents()
                    })
                },
            },
    {
        let found = self.find(key);
        match found {
            Some(i) => {
                let alive = match &self.values[i].1 {
                    DatabaseSlot::Simple(_) => true,
                    DatabaseSlot::Timed { expires, .. } => *expires > now,
                };
                if alive {
                    let v = match &self.values[i].1 {
                        DatabaseSlot::Simple(v) => v.duplicate(),
                        DatabaseSlot::Timed { value, .. } => value.duplicate(),
                    };
                    Some(v)
                } else {
                    proof {
                        lemma_entries_model_remove(self.values@, i as int);
                    }
                    self.values.remove(i);
                    None
                }
            },
            None => {
                None
            },
        }
    }

    /// Removes the entry under `key` if one is stored, expired or not, and
    /// reports whether a live entry was removed: an expired entry counts as
    /// absent.
    pub fn delete(&mut self, key: &[u8], now: u64) -> (r: bool)
        requires
            old(self).wf(),
        ensures
            final(self).wf(),
            final(self).contents() == old(self).contents().remove(key@),
            r == (old(self).contents().dom().contains(key@) && live_at(
                old(self).contents()[key@],
                now,
            )),
    {
        let found = self.find(key);
        match found {
            Some(i) => {
                let alive = match &self.values[i].1 {
                    DatabaseSlot::Simple(_) => true,
                    DatabaseSlot::Timed { expires, .. } => *expires > now,
                };
                proof {
                    lemma_entries_model_remove(self.values@, i as int);
                }
                self.values.remove(i);
                alive
            },
            None => {
                proof {
                    assert(final(self).contents() =~= old(self).contents().remove(key@));
                }
                false
            },
        }
    }

    /// Reports whether `key` holds a live entry at `now`, removing it if it
    /// is found expired, exactly as a read would.
    pub fn exists_key(&mut self, key: &[u8], now: u64) -> (r: bool)
        requires
            old(self).wf(),
        ensures
            final(self).wf(),
            r == (old(self).contents().dom().contains(key@) && live_at(
                old(self).contents()[key@],
                now,
            )),
            final(self).contents() == (if old(self).contents().dom().contains(key@) && !live_at(
                old(self).contents()[key@],
                now,
            ) {
                old(self).contents().remove(key@)
            } else {
                old(self).contents()
            }),
    {
        let r = self.get(key, now);
        match r {
            Some(_) => true,
            None => false,
        }
    }
}

} // verus!
