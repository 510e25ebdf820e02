use vstd::prelude::*;

use crate::bytes::{lex_lt, lemma_lex_irrefl, lemma_lex_trans, valid_key, valid_value,
    valid_op, bytes_cmp};
use crate::errors::KvError;
use crate::engine::operation::{Operation, view_entries};
use crate::engine::wal::{Wal, wal_record, wf_record, parse_wal, lemma_parse_wal_wf};
use crate::model::{op_size, stored_weight, sorted_entries, has_key, map_of, apply_records,
    entries_size,
    lemma_map_of_insert, lemma_map_of_update, lemma_map_of_last, lemma_sorted_index_map,
    lemma_entries_size_insert, lemma_entries_size_update, lemma_entries_size_nonneg,
    lemma_entries_size_take_step};

verus! {

/// The in-memory table that absorbs writes: key/operation pairs kept in
/// strictly ascending key order, with a byte-size accumulator and a flush
/// threshold.
pub struct MemTable {
    store: Vec<(Vec<u8>, Operation)>,
    flush_threshold_bytes: usize,
    size_bytes: i64,
}

impl MemTable {
    /// The entries the table holds, in ascending key order.
    pub closed spec fn entries(self) -> Seq<(Seq<u8>, Option<Seq<u8>>)> {
        view_entries(self.store@)
    }

    /// The map the table denotes: tombstones are present, bound to `None`.
    pub open spec fn as_map(self) -> Map<Seq<u8>, Option<Seq<u8>>> {
        map_of(self.entries())
    }

    pub closed spec fn size(self) -> int {
        self.size_bytes as int
    }

    pub closed spec fn threshold(self) -> int {
        self.flush_threshold_bytes as int
    }

    /// Well-formedness: entries strictly sorted, every entry one the engine
    /// could have written, and the accumulator equal to the summed entry
    /// sizes (`len(key) + len(value)`, tombstones counting zero).
    pub open spec fn wf(self) -> bool {
        &&& sorted_entries(self.entries())
        &&& forall|i: int| 0 <= i < self.entries().len() ==> wf_record(#[trigger] self.entries()[i])
        &&& self.size() == entries_size(self.entries())
    }

    /// A fresh, empty table with the default flush threshold.
    pub fn new() -> (m: MemTable)
        ensures
            m.wf(),
            m.entries() =~= Seq::<(Seq<u8>, Option<Seq<u8>>)>::empty(),
            m.size() == 0,
            m.threshold() == 1024,
    {
        MemTable { store: Vec::new(), flush_threshold_bytes: 1024, size_bytes: 0 }
    }

    /// The operation recorded for `key`, if any.
    pub fn get(&self, key: &Vec<u8>) -> (r: Option<&Operation>)
        requires
            self.wf(),
        ensures
            match r {
                Some(op) => self.as_map().contains_key(key@) && op@ == self.as_map()[key@],
                None => !self.as_map().contains_key(key@),
            },
    {
        let (idx, found) = find_slot(&self.store, key);
        proof {
            lemma_map_of_last(self.entries(), key@);
        }
        if found {
            proof {
                lemma_sorted_index_map(self.entries(), idx as int);
            }
            Some(&self.store[idx].1)
        } else {
            None
        }
    }

    /// The accumulator: total bytes of the entries, key length plus value
    /// length each.
    pub fn size_bytes(&self) -> (n: i64)
        ensures
            n == self.size(),
    {
        self.size_bytes
    }

    pub fn is_full(&self) -> (r: bool)
        ensures
            r == (self.size() >= self.threshold()),
    {
        if self.size_bytes < 0 {
            false
        } else {
            self.size_bytes as u64 >= self.flush_threshold_bytes as u64
        }
    }

    pub fn is_empty(&self) -> (r: bool)
        ensures
            r == (self.entries().len() == 0),
    {
        self.store.len() == 0
    }

    /// The entries in ascending key order, for a caller that drains the
    /// table into a sorted run.
    pub fn iter(&self) -> (r: &Vec<(Vec<u8>, Operation)>)
        ensures
            view_entries(r@) == self.entries(),
    {
        &self.store
    }

    /// Records `key -> Insert(value)`: appends the `INSERT` record to the
    /// log first, then upserts the pair, adjusting the size accumulator by
    /// the delta against any previous entry for the key.
    pub fn set(&mut self, key: Vec<u8>, value: Vec<u8>, wal: &mut Wal)
        requires
            old(self).wf(),
            valid_key(key@),
            valid_value(value@),
            old(self).size() + key@.len() + value@.len() <= i64::MAX,
        ensures
            final(self).wf(),
            final(self).as_map() == old(self).as_map().insert(key@, Some(value@)),
            final(self).threshold() == old(self).threshold(),
            final(self).size() == old(self).size() + key@.len() + value@.len() - stored_weight(
                old(self).as_map(),
                key@,
            ),
            final(self).size() <= old(self).size() + key@.len() + value@.len(),
            final(wal)@ == old(wal)@ + wal_record((key@, Some(value@))),
    {
        wal.append_insert(&key, &value);
        self.upsert(key, Operation::Insert(value));
    }

    /// Records `key -> Delete`: appends the `DELETE` record to the log
    /// first, then upserts a tombstone.
    pub fn delete(&mut self, key: &Vec<u8>, wal: &mut Wal)
        requires
            old(self).wf(),
            valid_key(key@),
            old(self).size() + key@.len() <= i64::MAX,
        ensures
            final(self).wf(),
            final(self).as_map() == old(self).as_map().insert(key@, None),
            final(self).threshold() == old(self).threshold(),
            final(self).size() == old(self).size() + key@.len() - stored_weight(
                old(self).as_map(),
                key@,
            ),
            final(self).size() <= old(self).size() + key@.len(),
            final(wal)@ == old(wal)@ + wal_record((key@, None)),
    {
        wal.append_delete(key);
        let k = crate::bytes::clone_bytes(key);
        self.upsert(k, Operation::Delete);
    }

    /// Empties the table, resets the accumulator, and truncates the log.
    pub fn clear(&mut self, wal: &mut Wal)
        ensures
            final(self).wf(),
            final(self).entries() =~= Seq::<(Seq<u8>, Option<Seq<u8>>)>::empty(),
            final(self).size() == 0,
            final(self).threshold() == old(self).threshold(),
            final(wal)@ == Seq::<u8>::empty(),
    {
        self.store.clear();
        self.size_bytes = 0;
        wal.clear();
        proof {
            assert(view_entries(self.store@) =~= Seq::<(Seq<u8>, Option<Seq<u8>>)>::empty());
        }
    }

    /// Replays a decoded log into this table: each `INSERT` upserts its
    /// value, each `DELETE` upserts a tombstone — so a deletion replayed over
    /// an engine that still holds older runs keeps hiding their values,
    /// rather than being lost with the removed key. A corrupt log leaves the
    /// table untouched.
    pub fn replay_wal(&mut self, wal: &Wal) -> (r: Result<(), KvError>)
        requires
            old(self).wf(),
            old(self).size() + wal@.len() <= i64::MAX,
        ensures
            final(self).wf(),
            final(self).threshold() == old(self).threshold(),
            match parse_wal(wal@) {
                Some(recs) => r is Ok && final(self).as_map() == apply_records(
                    old(self).as_map(),
                    recs,
                ),
                None => r == Err::<(), KvError>(KvError::CorruptLog) && *final(self) == *old(
                    self,
                ),
            },
    {
        match wal.records() {
            Err(e) => Err(e),
            Ok(recs) => {
                let ghost rs = view_entries(recs@);
                proof {
                    lemma_parse_wal_wf(wal@);
                    lemma_entries_size_nonneg(rs);
                }
                let mut i: usize = 0;
                while i < recs.len()
                    invariant
                        0 <= i <= recs.len(),
                        rs == view_entries(recs@),
                        parse_wal(wal@) == Some(rs),
                        forall|j: int| 0 <= j < rs.len() ==> wf_record(#[trigger] rs[j]),
                        entries_size(rs) <= wal@.len(),
                        self.wf(),
                        self.threshold() == old(self).threshold(),
                        self.as_map() == apply_records(old(self).as_map(), rs.take(i as int)),
                        self.size() <= old(self).size() + entries_size(rs.take(i as int)),
                        old(self).size() + wal@.len() <= i64::MAX,
                    decreases recs.len() - i,
                {
                    proof {
                        lemma_entries_size_take_step(rs, i as int);
                        lemma_take_size_le(rs, i + 1);
                        assert(rs.take(i + 1).drop_last() =~= rs.take(i as int));
                        assert(rs.take(i + 1).last() == rs[i as int]);
                    }
                    let e = &recs[i];
                    let k = crate::bytes::clone_bytes(&e.0);
                    let op = e.1.clone();
                    proof {
                        assert(rs[i as int] == (e.0@, e.1@));
                    }
                    self.upsert(k, op);
                    i = i + 1;
                }
                proof {
                    assert(rs.take(rs.len() as int) =~= rs);
                }
                Ok(())
            },
        }
    }

    /// Inserts or replaces the entry for `key`, keeping the store sorted and
    /// the accumulator exact.
    fn upsert(&mut self, key: Vec<u8>, op: Operation)
        requires
            old(self).wf(),
            valid_key(key@),
            valid_op(op@),
            old(self).size() + key@.len() + op_size(op@) <= i64::MAX,
        ensures
            final(self).wf(),
            final(self).as_map() == old(self).as_map().insert(key@, op@),
            final(self).threshold() == old(self).threshold(),
            final(self).size() == old(self).size() + key@.len() + op_size(op@) - stored_weight(
                old(self).as_map(),
                key@,
            ),
            final(self).size() <= old(self).size() + key@.len() + op_size(op@),
    {
        let ghost pre = self.entries();
        let (idx, found) = find_slot(&self.store, &key);
        let new_weight: i64 = (key.len() as u64 + op.size_bytes() as u64) as i64;
        if found {
            let old_weight: i64 = (self.store[idx].0.len() as u64
                + self.store[idx].1.size_bytes() as u64) as i64;
            proof {
                lemma_entries_size_update(pre, idx as int, (key@, op@));
                lemma_entries_size_nonneg(pre.update(idx as int, (key@, op@)));
                lemma_map_of_update(pre, idx as int, (key@, op@));
                lemma_sorted_index_map(pre, idx as int);
                assert(stored_weight(old(self).as_map(), key@) == key@.len() + op_size(
                    pre[idx as int].1,
                ));
            }
            self.size_bytes = self.size_bytes - old_weight + new_weight;
            self.store.remove(idx);
            self.store.insert(idx, (key, op));
            proof {
                assert(self.entries() =~= pre.update(idx as int, (key@, op@)));
                assert forall|x: int, y: int|
                    0 <= x < y < self.entries().len() implies lex_lt(
                    self.entries()[x].0,
                    self.entries()[y].0,
                ) by {
                    if x != idx && y != idx {
                        assert(lex_lt(pre[x].0, pre[y].0));
                    }
                }
            }
        } else {
            proof {
                lemma_entries_size_insert(pre, idx as int, (key@, op@));
                lemma_entries_size_nonneg(pre);
                lemma_map_of_insert(pre, idx as int, (key@, op@));
                lemma_map_of_last(pre, key@);
                assert(stored_weight(old(self).as_map(), key@) == 0);
            }
            self.size_bytes = self.size_bytes + new_weight;
            self.store.insert(idx, (key, op));
            proof {
                assert(self.entries() =~= pre.insert(idx as int, (key@, op@)));
                assert forall|x: int, y: int|
                    0 <= x < y < self.entries().len() implies lex_lt(
                    self.entries()[x].0,
                    self.entries()[y].0,
                ) by {
                    let s = self.entries();
                    if y < idx {
                        assert(s[x] == pre[x] && s[y] == pre[y]);
                    } else if x > idx {
                        assert(s[x] == pre[x - 1] && s[y] == pre[y - 1]);
                    } else if x < idx && y > idx {
                        assert(s[x] == pre[x] && s[y] == pre[y - 1]);
                        lemma_lex_trans(pre[x].0, key@, pre[y - 1].0);
                    } else if x == idx {
                        assert(s[y] == pre[y - 1]);
                    } else {
                        assert(x < idx && y == idx);
                        assert(s[x] == pre[x]);
                    }
                }
            }
        }
    }
}

/// Locates `key` in a sorted store: the index of its entry when present,
/// else the position where it would be inserted.
fn find_slot(store: &Vec<(Vec<u8>, Operation)>, key: &Vec<u8>) -> (r: (usize, bool))
    requires
        sorted_entries(view_entries(store@)),
    ensures
        ({
            let (idx, found) = r;
            let s = view_entries(store@);
            &&& 0 <= idx <= s.len()
            &&& found ==> idx < s.len() && s[idx as int].0 == key@
            &&& !found ==> !has_key(s, key@)
            &&& forall|j: int| 0 <= j < idx ==> lex_lt(#[trigger] s[j].0, key@)
            &&& forall|j: int| idx < j < s.len() ==> lex_lt(key@, #[trigger] s[j].0)
            &&& (!found && idx < s.len()) ==> lex_lt(key@, s[idx as int].0)
        }),
{
    let ghost s = view_entries(store@);
    let mut i: usize = 0;
    while i < store.len()
        invariant
            0 <= i <= store@.len(),
            s == view_entries(store@),
            sorted_entries(s),
            forall|j: int| 0 <= j < i ==> lex_lt(#[trigger] s[j].0, key@),
        decreases store@.len() - i,
    {
        match bytes_cmp(&store[i].0, key) {
            core::cmp::Ordering::Less => {
                i = i + 1;
            },
            core::cmp::Ordering::Equal => {
                proof {
                    assert forall|j: int| i < j < s.len() implies lex_lt(key@, s[j].0) by {
                        assert(lex_lt(s[i as int].0, s[j].0));
                    }
                }
                return (i, true);
            },
            core::cmp::Ordering::Greater => {
                proof {
                    assert forall|j: int| i < j < s.len() implies lex_lt(key@, s[j].0) by {
                        assert(lex_lt(s[i as int].0, s[j].0));
                        lemma_lex_trans(key@, s[i as int].0, s[j].0);
                    }
                    if has_key(s, key@) {
                        let j = choose|j: int| 0 <= j < s.len() && s[j].0 == key@;
                        if j < i {
                            lemma_lex_irrefl(key@);
                        } else if j == i {
                            lemma_lex_irrefl(key@);
                        } else {
                            lemma_lex_irrefl(key@);
                        }
                    }
                }
                return (i, false);
            },
        }
    }
    proof {
        if has_key(s, key@) {
            let j = choose|j: int| 0 <= j < s.len() && s[j].0 == key@;
            lemma_lex_irrefl(key@);
        }
    }
    (i, false)
}

/// Sizes of a prefix never exceed the whole, entry sizes being nonnegative.
proof fn lemma_take_size_le(s: Seq<(Seq<u8>, Option<Seq<u8>>)>, i: int)
    requires
        0 <= i <= s.len(),
    ensures
        entries_size(s.take(i)) <= entries_size(s),
    decreases s.len() - i,
{
    if i == s.len() {
        assert(s.take(i) =~= s);
    } else {
        lemma_entries_size_take_step(s, i);
        lemma_take_size_le(s, i + 1);
    }
}

} // verus!
