//! An insertion-ordered mapping used for inline tables.
//!
//! Keys and values live in two index-aligned vectors.  A key's presence
//! is decided by deep structural equality against the existing keys,
//! and updating an existing key overwrites its value in place, keeping
//! the key's position.

use vstd::prelude::*;

use crate::parser::{vals_eq, vals_view, Value, ValueModel};

verus! {

/// An ordered key/value container; both keys and values are [`Value`]s.
pub struct Table {
    keys: Vec<Value>,
    values: Vec<Value>,
}

/// Mathematical image of a [`Table`]: two index-aligned sequences.
#[verifier::ext_equal]
pub struct TableModel {
    pub keys: Seq<ValueModel>,
    pub values: Seq<ValueModel>,
}

impl View for Table {
    type V = TableModel;

    closed spec fn view(&self) -> TableModel
        decreases self,
    {
        TableModel { keys: vals_view(self.keys@), values: vals_view(self.values@) }
    }
}

impl TableModel {
    /// The two sequences stay the same length.
    pub open spec fn wf(self) -> bool {
        self.keys.len() == self.values.len()
    }
}

/// First index at or after `i` whose key equals `k`, or `keys.len()`.
pub open spec fn key_slot(keys: Seq<ValueModel>, k: ValueModel, i: int) -> int
    decreases keys.len() - i,
{
    if 0 <= i < keys.len() {
        if keys[i] == k {
            i
        } else {
            key_slot(keys, k, i + 1)
        }
    } else {
        keys.len() as int
    }
}

pub proof fn lemma_key_slot(keys: Seq<ValueModel>, k: ValueModel, i: int)
    requires
        0 <= i <= keys.len(),
    ensures
        i <= key_slot(keys, k, i) <= keys.len(),
        key_slot(keys, k, i) < keys.len() ==> keys[key_slot(keys, k, i)] == k,
        forall|j: int| i <= j < key_slot(keys, k, i) ==> keys[j] != k,
    decreases keys.len() - i,
{
    if i < keys.len() && keys[i] != k {
        lemma_key_slot(keys, k, i + 1);
    }
}

/// What [`Table::update`] builds: overwrite in place when the key is
/// present, append otherwise.
pub open spec fn table_update_spec(m: TableModel, k: ValueModel, v: ValueModel) -> TableModel {
    let i = key_slot(m.keys, k, 0);
    if i < m.keys.len() {
        TableModel { keys: m.keys, values: m.values.update(i, v) }
    } else {
        TableModel { keys: m.keys.push(k), values: m.values.push(v) }
    }
}

/// Deep structural equality of two tables.
pub fn table_eq(a: &Table, b: &Table) -> (r: bool)
    ensures
        r == (a@ == b@),
    decreases a,
{
    let r = vals_eq(&a.keys, &b.keys) && vals_eq(&a.values, &b.values);
    proof {
        if r {
            assert(a@ =~= b@);
        }
    }
    r
}

impl Table {
    /// An empty table.
    pub fn new() -> (r: Self)
        ensures
            r@.keys == Seq::<ValueModel>::empty(),
            r@.values == Seq::<ValueModel>::empty(),
            r@.wf(),
    {
        let r = Table { keys: Vec::new(), values: Vec::new() };
        proof {
            assert(r@.keys =~= Seq::<ValueModel>::empty());
            assert(r@.values =~= Seq::<ValueModel>::empty());
        }
        r
    }

    /// Appends a pair unconditionally, even under a duplicate key.
    pub fn register(&mut self, key: Value, value: Value)
        ensures
            final(self)@.keys == old(self)@.keys.push(key@),
            final(self)@.values == old(self)@.values.push(value@),
            old(self)@.wf() ==> final(self)@.wf(),
    {
        let ghost old_keys = self.keys@;
        let ghost old_values = self.values@;
        self.keys.push(key);
        self.values.push(value);
        proof {
            assert(vals_view(self.keys@) =~= vals_view(old_keys).push(self.keys@.last()@));
            assert(vals_view(self.values@) =~= vals_view(old_values).push(self.values@.last()@));
        }
    }

    /// First index whose key deep-equals `key`, or nothing.
    pub fn index(&self, key: Value) -> (r: Option<usize>)
        ensures
            r == (if key_slot(self@.keys, key@, 0) < self@.keys.len() {
                Some(key_slot(self@.keys, key@, 0) as usize)
            } else {
                None::<usize>
            }),
    {
        let i = self.slot(&key);
        proof {
            lemma_key_slot(self@.keys, key@, 0);
        }
        if i < self.keys.len() {
            Some(i)
        } else {
            None
        }
    }

    /// First matching slot as an index, or the key count when absent.
    fn slot(&self, key: &Value) -> (r: usize)
        ensures
            r == key_slot(self@.keys, key@, 0),
    {
        let n = self.keys.len();
        let mut i: usize = 0;
        while i < n
            invariant
                0 <= i <= n,
                n == self@.keys.len(),
                n == self.keys@.len(),
                key_slot(self@.keys, key@, 0) == key_slot(self@.keys, key@, i as int),
            decreases n - i,
        {
            if crate::parser::value_eq(&self.keys[i], key) {
                proof {
                    assert(self@.keys[i as int] == self.keys@[i as int]@);
                }
                return i;
            }
            i = i + 1;
        }
        i
    }

    /// Overwrites the value at an existing key, keeping the key's
    /// position; appends the pair when the key is absent.
    pub fn update(&mut self, key: Value, value: Value)
        requires
            old(self)@.wf(),
        ensures
            final(self)@ == table_update_spec(old(self)@, key@, value@),
            final(self)@.wf(),
    {
        let i = self.slot(&key);
        proof {
            lemma_key_slot(self@.keys, key@, 0);
        }
        if i < self.values.len() {
            let ghost old_values = self.values@;
            self.values[i] = value;
            proof {
                assert(vals_view(self.values@) =~= vals_view(old_values).update(
                    i as int,
                    self.values@[i as int]@,
                ));
                assert(self@ =~= table_update_spec(old(self)@, key@, value@));
            }
        } else {
            self.register(key, value);
            proof {
                assert(self@ =~= table_update_spec(old(self)@, key@, value@));
            }
        }
    }
}

} // verus!
