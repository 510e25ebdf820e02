pub mod bytes;
pub mod compact;
pub mod engine;
pub mod errors;
pub mod model;
pub mod ql;

use vstd::prelude::*;

use crate::bytes::{valid_key, valid_value, clone_bytes, lex_lt, lemma_lex_asym, bytes_eq};
use crate::errors::KvError;
use crate::engine::memtable::MemTable;
use crate::engine::operation::{Operation, view_entries};
use crate::engine::sstable::{SSTable, sst_entry_ok, index_entry_ok, entries_ok, offset_of,
    stride_index_of};
use crate::engine::wal::{Wal, wal_record, wf_record, parse_wal};
use crate::model::{sorted_entries, has_key, map_of, apply_records, sstables_lookup, op_size,
    stored_weight, last_op, lemma_map_of_last, lemma_sstables_lookup_push,
    lemma_sstables_lookup_some, lemma_sorted_index_map};
use crate::compact::{CompactionPriorityQueueItem, mq_contents, mq_new, mq_len, mq_pop,
    mq_peek, merge_refill, vec_set, queue_inv, out_inv, tables_ok, window_covered, elem_ok,
    merge_le, out_has_key, remaining, lemma_remaining_nonneg, lemma_remaining_mono_at,
    lemma_head_of_window, lemma_consume, lemma_emit};
use vstd::multiset::Multiset;

verus! {

/// After a mutation of `key`, a read of `key` observes `value` and every
/// other key reads as before.
pub open spec fn set_outcome(
    pre: Database,
    post: Database,
    key: Seq<u8>,
    value: Option<Seq<u8>>,
) -> bool {
    forall|k: Seq<u8>|
        post.lookup(k) == (if k == key {
            Some(value)
        } else {
            pre.lookup(k)
        })
}

/// The in-memory table's byte size after recording `key -> value`: the new
/// entry's bytes replace whatever entry the key had before.
pub open spec fn size_after_write(pre: Database, key: Seq<u8>, value: Option<Seq<u8>>) -> int {
    pre.memtable_size() + key.len() + op_size(value) - stored_weight(pre.memtable_map(), key)
}

/// The follow-up a mutation of `key` leaves behind. While the grown table
/// stays under its flush threshold, exactly the mutation's record is appended
/// to the log, the runs are untouched, and the table holds the updated map at
/// its exact new size. A table at or over the threshold is flushed: the table
/// and the log are empty, and the updated map became the newest run — either
/// appended to the list, or, when that reached the compaction threshold,
/// merged with the list into a single run answering the same point lookups.
pub open spec fn write_outcome(
    pre: Database,
    post: Database,
    key: Seq<u8>,
    value: Option<Seq<u8>>,
) -> bool {
    let grown_map = pre.memtable_map().insert(key, value);
    if size_after_write(pre, key, value) < pre.memtable_threshold() {
        &&& post.wal_view() == pre.wal_view() + wal_record((key, value))
        &&& post.sst_views() == pre.sst_views()
        &&& post.memtable_map() == grown_map
        &&& post.memtable_size() == size_after_write(pre, key, value)
    } else {
        &&& post.memtable_entries().len() == 0
        &&& post.memtable_size() == 0
        &&& post.wal_view().len() == 0
        &&& if pre.sst_views().len() + 1 < pre.compaction_threshold() {
            &&& post.sst_views().len() == pre.sst_views().len() + 1
            &&& post.sst_views().drop_last() == pre.sst_views()
            &&& sorted_entries(post.sst_views().last())
            &&& map_of(post.sst_views().last()) == grown_map
        } else {
            &&& post.sst_views().len() == 1
            &&& sorted_entries(post.sst_views()[0])
            &&& forall|k2: Seq<u8>|
                #![auto]
                sstables_lookup(post.sst_views(), k2) == (if grown_map.contains_key(k2) {
                    Some(grown_map[k2])
                } else {
                    sstables_lookup(pre.sst_views(), k2)
                })
        }
    }
}

/// The storage engine: a write-ahead log, the in-memory table that absorbs
/// writes, and the ordered list of sorted runs flushed so far (index 0 the
/// oldest, the last the newest).
pub struct Database {
    wal: Wal,
    memtable: MemTable,
    sstables: Vec<SSTable>,
    sstable_compaction_threshold: usize,
    data_dir: String,
}

impl Database {
    /// The tables' entry sequences, oldest first.
    pub closed spec fn sst_views(self) -> Seq<Seq<(Seq<u8>, Option<Seq<u8>>)>> {
        self.sstables@.map(|i: int, t: SSTable| t.entries())
    }

    /// The map the in-memory table denotes.
    pub closed spec fn memtable_map(self) -> Map<Seq<u8>, Option<Seq<u8>>> {
        self.memtable.as_map()
    }

    pub closed spec fn memtable_entries(self) -> Seq<(Seq<u8>, Option<Seq<u8>>)> {
        self.memtable.entries()
    }

    pub closed spec fn memtable_size(self) -> int {
        self.memtable.size()
    }

    pub closed spec fn memtable_threshold(self) -> int {
        self.memtable.threshold()
    }

    /// The runs' sparse indexes, oldest run first: each a sequence of
    /// key/starting-offset pairs.
    pub closed spec fn sst_indexes(self) -> Seq<Seq<(Seq<u8>, int)>> {
        self.sstables@.map(|i: int, t: SSTable| t.index())
    }

    pub closed spec fn wal_view(self) -> Seq<u8> {
        self.wal@
    }

    pub closed spec fn compaction_threshold(self) -> int {
        self.sstable_compaction_threshold as int
    }

    pub closed spec fn data_dir_view(self) -> Seq<char> {
        self.data_dir@
    }

    /// What a read of `k` observes: the in-memory table first, then the runs
    /// from newest to oldest; `Some(None)` is a tombstone, `None` not found.
    pub open spec fn lookup(self, k: Seq<u8>) -> Option<Option<Seq<u8>>> {
        if self.memtable_map().contains_key(k) {
            Some(self.memtable_map()[k])
        } else {
            sstables_lookup(self.sst_views(), k)
        }
    }

    pub closed spec fn wf(self) -> bool {
        &&& self.memtable.wf()
        &&& forall|i: int| 0 <= i < self.sstables@.len() ==> (#[trigger] self.sstables@[i]).wf()
    }

    /// A fresh engine on `data_dir`: empty log, empty table, no runs, and
    /// the default compaction threshold.
    pub fn new(data_dir: &str) -> (d: Database)
        ensures
            d.wf(),
            d.memtable_entries().len() == 0,
            d.memtable_size() == 0,
            d.sst_views().len() == 0,
            d.wal_view().len() == 0,
            d.compaction_threshold() == 10,
            d.memtable_threshold() == 1024,
            d.data_dir_view() == data_dir@,
            forall|k: Seq<u8>| d.lookup(k) is None,
    {
        let d = Database {
            wal: Wal::new(),
            memtable: MemTable::new(),
            sstables: Vec::new(),
            sstable_compaction_threshold: 10,
            data_dir: data_dir.to_string(),
        };
        proof {
            broadcast use vstd::string::to_string_from_display_ensures_for_str;

            assert(d.sst_views() =~= Seq::<Seq<(Seq<u8>, Option<Seq<u8>>)>>::empty());
            assert forall|k: Seq<u8>| d.lookup(k) is None by {
                lemma_map_of_last(d.memtable_entries(), k);
            }
        }
        d
    }

    /// The current bytes of the write-ahead log, as an adoptable log value.
    pub fn wal_snapshot(&self) -> (w: Wal)
        ensures
            w@ == self.wal_view(),
    {
        Wal::from_data(clone_bytes(self.wal.bytes()))
    }

    /// The in-memory table's byte-size accumulator, for callers that must
    /// bound a write before attempting it.
    pub fn memtable_size_bytes(&self) -> (n: i64)
        ensures
            n == self.memtable_size(),
    {
        self.memtable.size_bytes()
    }

    /// The directory this engine was opened on.
    pub fn data_dir(&self) -> (r: &String)
        ensures
            r@ == self.data_dir_view(),
    {
        &self.data_dir
    }

    pub fn memtable_is_empty(&self) -> (r: bool)
        ensures
            r == (self.memtable_entries().len() == 0),
    {
        self.memtable.is_empty()
    }

    /// The flushed runs, oldest first; on a well-formed engine every returned
    /// run is itself well-formed, so it can be read and searched.
    pub fn sstables(&self) -> (r: &Vec<SSTable>)
        ensures
            r@.len() == self.sst_views().len(),
            forall|i: int|
                0 <= i < r@.len() ==> (#[trigger] r@[i]).entries() == self.sst_views()[i],
            self.wf() ==> forall|i: int| 0 <= i < r@.len() ==> (#[trigger] r@[i]).wf(),
    {
        &self.sstables
    }

    /// Reads `key`: the in-memory table first, then each run from newest to
    /// oldest; the first table holding the key decides (a tombstone hides any
    /// older value).
    pub fn get(&self, key: &Vec<u8>) -> (r: Option<Vec<u8>>)
        requires
            self.wf(),
        ensures
            match self.lookup(key@) {
                Some(Some(v)) => r matches Some(x) && x@ == v,
                _ => r is None,
            },
    {
        match self.memtable.get(key) {
            Some(op) => match op {
                Operation::Insert(v) => Some(clone_bytes(v)),
                Operation::Delete => None,
            },
            None => {
                let tv = Ghost(self.sst_views());
                let mut i: usize = self.sstables.len();
                proof {
                    assert(tv@.take(i as int) =~= tv@);
                }
                loop
                    invariant
                        self.wf(),
                        tv@ == self.sst_views(),
                        0 <= i <= self.sstables@.len(),
                        !self.memtable_map().contains_key(key@),
                        sstables_lookup(tv@, key@) == sstables_lookup(tv@.take(i as int), key@),
                    ensures
                        i == 0,
                        sstables_lookup(tv@, key@) == sstables_lookup(tv@.take(i as int), key@),
                    decreases i,
                {
                    if i == 0 {
                        break;
                    }
                    let t = &self.sstables[i - 1];
                    proof {
                        assert(t.entries() == tv@[i - 1]);
                        assert(tv@.take(i as int).last() == tv@[i - 1]);
                        assert(tv@.take(i as int).drop_last() =~= tv@.take(i - 1));
                        lemma_map_of_last(t.entries(), key@);
                    }
                    match t.find_key(key) {
                        Some(op) => {
                            proof {
                                assert(has_key(tv@[i - 1], key@));
                                assert(sstables_lookup(tv@.take(i as int), key@) == Some(
                                    map_of(tv@[i - 1])[key@],
                                ));
                            }
                            match op {
                                Operation::Insert(v) => {
                                    return Some(v);
                                },
                                Operation::Delete => {
                                    return None;
                                },
                            }
                        },
                        None => {
                            proof {
                                assert(!has_key(tv@[i - 1], key@));
                            }
                            i = i - 1;
                        },
                    }
                }
                proof {
                    assert(tv@.take(0) =~= Seq::<Seq<(Seq<u8>, Option<Seq<u8>>)>>::empty());
                }
                None
            },
        }
    }

    /// Drains the in-memory table, in ascending key order, into a new run
    /// appended to the list (sparse-indexing every stride-th record), then
    /// empties the table and truncates the log.
    pub fn flush_memtable_to_sstable(&mut self)
        requires
            old(self).wf(),
        ensures
            final(self).wf(),
            final(self).sst_views() == old(self).sst_views().push(old(self).memtable_entries()),
            final(self).memtable_entries().len() == 0,
            final(self).memtable_size() == 0,
            final(self).wal_view().len() == 0,
            final(self).compaction_threshold() == old(self).compaction_threshold(),
            final(self).memtable_threshold() == old(self).memtable_threshold(),
            final(self).data_dir_view() == old(self).data_dir_view(),
            final(self).sst_indexes() == old(self).sst_indexes().push(
                stride_index_of(old(self).memtable_entries()),
            ),
            forall|k: Seq<u8>| final(self).lookup(k) == old(self).lookup(k),
    {
        let ghost mt = self.memtable.entries();
        proof {
            assert forall|i: int| 0 <= i < mt.len() implies sst_entry_ok(#[trigger] mt[i]) by {
                assert(wf_record(mt[i]));
            }
        }
        let sst = build_run(self.memtable.iter());
        self.sstables.push(sst);
        self.memtable.clear(&mut self.wal);
        proof {
            assert(self.sst_views() =~= old(self).sst_views().push(mt));
            assert(self.sst_indexes() =~= old(self).sst_indexes().push(stride_index_of(mt)));
            assert forall|k: Seq<u8>| self.lookup(k) == old(self).lookup(k) by {
                lemma_sstables_lookup_push(old(self).sst_views(), mt, k);
                lemma_map_of_last(mt, k);
                lemma_map_of_last(self.memtable.entries(), k);
            }
        }
    }

    /// Records `key -> value`: the log is appended first, then the in-memory
    /// table updated; a table at or over its flush threshold is flushed to a
    /// new run, and a list that reaches the compaction threshold is compacted
    /// to a single run.
    pub fn set(&mut self, key: Vec<u8>, value: Vec<u8>)
        requires
            old(self).wf(),
            valid_key(key@),
            valid_value(value@),
            old(self).memtable_size() + key@.len() + value@.len() <= i64::MAX,
        ensures
            final(self).wf(),
            final(self).compaction_threshold() == old(self).compaction_threshold(),
            final(self).memtable_threshold() == old(self).memtable_threshold(),
            final(self).data_dir_view() == old(self).data_dir_view(),
            set_outcome(*old(self), *final(self), key@, Some(value@)),
            write_outcome(*old(self), *final(self), key@, Some(value@)),
    {
        let ghost k0 = key@;
        let ghost v0 = value@;
        self.memtable.set(key, value, &mut self.wal);
        proof {
            assert(self.sst_views() =~= old(self).sst_views());
            assert(self.memtable_size() == size_after_write(*old(self), k0, Some(v0)));
        }
        if self.memtable.is_full() {
            let ghost mid = *self;
            self.flush_memtable_to_sstable();
            proof {
                assert(set_outcome(*old(self), *self, k0, Some(v0))) by {
                    assert(set_outcome(*old(self), mid, k0, Some(v0)));
                    assert(forall|k: Seq<u8>| self.lookup(k) == mid.lookup(k));
                }
                assert(self.sst_views().drop_last() =~= old(self).sst_views());
                assert(self.sst_views().last() == mid.memtable_entries());
            }
            if self.sstables.len() >= self.sstable_compaction_threshold {
                let ghost mid2 = *self;
                self.compact_sstables();
                proof {
                    assert(set_outcome(*old(self), *self, k0, Some(v0))) by {
                        assert(set_outcome(*old(self), mid2, k0, Some(v0)));
                        assert(forall|k: Seq<u8>| self.lookup(k) == mid2.lookup(k));
                    }
                    let m = mid.memtable_entries();
                    assert forall|k2: Seq<u8>|
                        #![auto]
                        sstables_lookup(self.sst_views(), k2) == (if old(
                            self,
                        ).memtable_map().insert(k0, Some(v0)).contains_key(k2) {
                            Some(old(self).memtable_map().insert(k0, Some(v0))[k2])
                        } else {
                            sstables_lookup(old(self).sst_views(), k2)
                        }) by {
                        assert(sstables_lookup(self.sst_views(), k2) == sstables_lookup(
                            mid2.sst_views(),
                            k2,
                        ));
                        assert(mid2.sst_views() =~= old(self).sst_views().push(m));
                        lemma_sstables_lookup_push(old(self).sst_views(), m, k2);
                        lemma_map_of_last(m, k2);
                    }
                }
            }
        }
    }

    /// Records a tombstone for `key`, with the same log-first ordering and
    /// flush/compaction follow-up as `set`.
    pub fn delete(&mut self, key: &Vec<u8>)
        requires
            old(self).wf(),
            valid_key(key@),
            old(self).memtable_size() + key@.len() <= i64::MAX,
        ensures
            final(self).wf(),
            final(self).compaction_threshold() == old(self).compaction_threshold(),
            final(self).memtable_threshold() == old(self).memtable_threshold(),
            final(self).data_dir_view() == old(self).data_dir_view(),
            set_outcome(*old(self), *final(self), key@, None),
            write_outcome(*old(self), *final(self), key@, None),
    {
        let ghost k0 = key@;
        self.memtable.delete(key, &mut self.wal);
        proof {
            assert(self.sst_views() =~= old(self).sst_views());
            assert(self.memtable_size() == size_after_write(*old(self), k0, None));
        }
        if self.memtable.is_full() {
            let ghost mid = *self;
            self.flush_memtable_to_sstable();
            proof {
                assert(set_outcome(*old(self), *self, k0, None)) by {
                    assert(set_outcome(*old(self), mid, k0, None));
                    assert(forall|k: Seq<u8>| self.lookup(k) == mid.lookup(k));
                }
                assert(self.sst_views().drop_last() =~= old(self).sst_views());
                assert(self.sst_views().last() == mid.memtable_entries());
            }
            if self.sstables.len() >= self.sstable_compaction_threshold {
                let ghost mid2 = *self;
                self.compact_sstables();
                proof {
                    assert(set_outcome(*old(self), *self, k0, None)) by {
                        assert(set_outcome(*old(self), mid2, k0, None));
                        assert(forall|k: Seq<u8>| self.lookup(k) == mid2.lookup(k));
                    }
                    let m = mid.memtable_entries();
                    assert forall|k2: Seq<u8>|
                        #![auto]
                        sstables_lookup(self.sst_views(), k2) == (if old(
                            self,
                        ).memtable_map().insert(k0, None).contains_key(k2) {
                            Some(old(self).memtable_map().insert(k0, None)[k2])
                        } else {
                            sstables_lookup(old(self).sst_views(), k2)
                        }) by {
                        assert(sstables_lookup(self.sst_views(), k2) == sstables_lookup(
                            mid2.sst_views(),
                            k2,
                        ));
                        assert(mid2.sst_views() =~= old(self).sst_views().push(m));
                        lemma_sstables_lookup_push(old(self).sst_views(), m, k2);
                        lemma_map_of_last(m, k2);
                    }
                }
            }
        }
    }

    /// Applies the records of a foreign log into the in-memory table, without
    /// re-appending them to this engine's own log.
    pub fn replay_from_wal(&mut self, wal: &Wal) -> (r: Result<(), KvError>)
        requires
            old(self).wf(),
            old(self).memtable_size() + wal@.len() <= i64::MAX,
        ensures
            final(self).wf(),
            final(self).sst_views() == old(self).sst_views(),
            final(self).wal_view() == old(self).wal_view(),
            final(self).compaction_threshold() == old(self).compaction_threshold(),
            match parse_wal(wal@) {
                Some(recs) => r is Ok && final(self).memtable_map() == apply_records(
                    old(self).memtable_map(),
                    recs,
                ),
                None => r == Err::<(), KvError>(KvError::CorruptLog)
                    && final(self).memtable_map() == old(self).memtable_map(),
            },
    {
        let r = self.memtable.replay_wal(wal);
        proof {
            assert(self.sst_views() =~= old(self).sst_views());
        }
        r
    }

    /// Forgets all runs (their backing storage is the caller's to reclaim).
    pub fn delete_sstables(&mut self)
        requires
            old(self).wf(),
        ensures
            final(self).wf(),
            final(self).sst_views().len() == 0,
            final(self).memtable_map() == old(self).memtable_map(),
            final(self).wal_view() == old(self).wal_view(),
            final(self).compaction_threshold() == old(self).compaction_threshold(),
    {
        self.sstables.clear();
        proof {
            assert(self.sst_views() =~= Seq::<Seq<(Seq<u8>, Option<Seq<u8>>)>>::empty());
        }
    }
}

/// The key `k` is carried by one of the first `n` pairs.
pub open spec fn key_from_prefix(
    vp: Seq<(Seq<u8>, Option<Seq<u8>>)>,
    k: Seq<u8>,
    n: int,
) -> bool {
    exists|p: int| 0 <= p < n && (#[trigger] vp[p]).0 == k
}

pub(crate) proof fn lemma_key_from_prefix_mono(
    vp: Seq<(Seq<u8>, Option<Seq<u8>>)>,
    k: Seq<u8>,
    n1: int,
    n2: int,
)
    requires
        key_from_prefix(vp, k, n1),
        n1 <= n2,
    ensures
        key_from_prefix(vp, k, n2),
{
    let q = choose|p: int| 0 <= p < n1 && (#[trigger] vp[p]).0 == k;
    assert(0 <= q < n2 && vp[q].0 == k);
}

/// Builds one run from sorted pairs: writes them all, then records a sparse
/// index entry for every stride-th record.
pub(crate) fn build_run(pairs: &Vec<(Vec<u8>, Operation)>) -> (t: SSTable)
    requires
        sorted_entries(view_entries(pairs@)),
        entries_ok(view_entries(pairs@)),
    ensures
        t.wf(),
        t.entries() == view_entries(pairs@),
        t.index() == stride_index_of(view_entries(pairs@)),
{
    let ghost vp = view_entries(pairs@);
    let mut t = SSTable::new();
    let offsets = t.batch_write(pairs);
    let stride = t.index_stride();
    let mut i: usize = 0;
    while i < pairs.len()
        invariant
            vp == view_entries(pairs@),
            sorted_entries(vp),
            t.wf(),
            t.entries() == vp,
            t.stride() == 10,
            stride == 10,
            offsets@.len() == vp.len(),
            forall|j: int|
                0 <= j < vp.len() ==> #[trigger] offsets@[j] as int == offset_of(vp, j),
            0 <= i <= vp.len(),
            forall|j: int|
                0 <= j < t.index().len() ==> key_from_prefix(
                    vp,
                    (#[trigger] t.index()[j]).0,
                    i as int,
                ),
            t.index().len() == (i + 9) / 10,
            forall|j: int|
                0 <= j < t.index().len() ==> #[trigger] t.index()[j] == (
                    vp[10 * j].0,
                    offset_of(vp, 10 * j),
                ),
        decreases vp.len() - i,
    {
        if i % stride == 0 {
            let p = &pairs[i];
            proof {
                assert(vp[i as int] == (pairs@[i as int].0@, pairs@[i as int].1@));
                assert(index_entry_ok(t.entries(), (p.0@, offsets@[i as int] as int)));
                assert forall|j: int| 0 <= j < t.index().len() implies lex_lt(
                    (#[trigger] t.index()[j]).0,
                    p.0@,
                ) by {
                    let q = choose|q: int| 0 <= q < i && (#[trigger] vp[q]).0 == t.index()[j].0;
                    assert(lex_lt(vp[q].0, vp[i as int].0));
                }
            }
            let ghost pre_index = t.index();
            t.write_to_index(&p.0, offsets[i]);
            proof {
                assert forall|j: int|
                    0 <= j < t.index().len() implies key_from_prefix(
                    vp,
                    (#[trigger] t.index()[j]).0,
                    i + 1,
                ) by {
                    if j < pre_index.len() {
                        assert(t.index()[j] == pre_index[j]);
                        lemma_key_from_prefix_mono(vp, pre_index[j].0, i as int, i + 1);
                    } else {
                        assert(t.index()[j].0 == vp[i as int].0);
                        assert(0 <= i < i + 1 && vp[i as int].0 == t.index()[j].0);
                    }
                }
                assert(pre_index.len() == i as int / 10);
                assert(t.index().len() == i as int / 10 + 1);
                assert((i + 1 + 9) / 10 == i as int / 10 + 1);
                assert forall|j: int|
                    0 <= j < t.index().len() implies #[trigger] t.index()[j] == (
                    vp[10 * j].0,
                    offset_of(vp, 10 * j),
                ) by {
                    if j < pre_index.len() {
                        assert(t.index()[j] == pre_index[j]);
                    } else {
                        assert(j == i as int / 10);
                        assert(10 * j == i as int);
                    }
                }
            }
        } else {
            proof {
                assert forall|j: int|
                    0 <= j < t.index().len() implies key_from_prefix(
                    vp,
                    (#[trigger] t.index()[j]).0,
                    i + 1,
                ) by {
                    lemma_key_from_prefix_mono(vp, t.index()[j].0, i as int, i + 1);
                }
                assert((i + 1 + 9) / 10 == (i + 9) / 10);
            }
        }
        i = i + 1;
    }
    proof {
        assert(t.index() =~= stride_index_of(vp));
    }
    t
}


impl Database {
    /// Merges all runs into a single new one: records stream out of each run
    /// in batches of ten through a greatest-first candidate queue, the least
    /// key wins each round with the newest run breaking ties, shadowed
    /// duplicates of the winning key are drained away, and the merged output
    /// replaces the whole list. Tombstones are preserved.
    #[verifier::rlimit(100)]
    pub fn compact_sstables(&mut self)
        requires
            old(self).wf(),
        ensures
            final(self).wf(),
            final(self).sst_views().len() == 1,
            sorted_entries(final(self).sst_views()[0]),
            forall|k: Seq<u8>|
                #[trigger] sstables_lookup(final(self).sst_views(), k) == sstables_lookup(
                    old(self).sst_views(),
                    k,
                ),
            forall|k: Seq<u8>| #[trigger] final(self).lookup(k) == old(self).lookup(k),
            final(self).memtable_map() == old(self).memtable_map(),
            final(self).memtable_entries() == old(self).memtable_entries(),
            final(self).memtable_size() == old(self).memtable_size(),
            final(self).wal_view() == old(self).wal_view(),
            final(self).compaction_threshold() == old(self).compaction_threshold(),
            final(self).memtable_threshold() == old(self).memtable_threshold(),
            final(self).data_dir_view() == old(self).data_dir_view(),
            final(self).sst_indexes() == seq![stride_index_of(final(self).sst_views()[0])],
    {
        let ghost tv = self.sst_views();
        let n = self.sstables.len();
        proof {
            assert forall|i: int|
                0 <= i < tv.len() implies sorted_entries(#[trigger] tv[i]) && entries_ok(tv[i])
                    && self.sstables@[i].wf() && self.sstables@[i].entries() == tv[i] by {
                assert(self.sstables@[i].wf());
            }
        }
        let mut q = mq_new();
        let mut side: Vec<CompactionPriorityQueueItem> = Vec::new();
        let mut out: Vec<(Vec<u8>, Operation)> = Vec::new();
        let mut offs: Vec<usize> = Vec::new();
        let mut counts: Vec<usize> = Vec::new();
        let mut done: Vec<bool> = Vec::new();
        let mut ii: usize = 0;
        while ii < n
            invariant
                offs@.len() == ii,
                counts@.len() == ii,
                done@.len() == ii,
                0 <= ii <= n,
                forall|i: int| 0 <= i < ii ==> #[trigger] offs@[i] == 0,
                forall|i: int| 0 <= i < ii ==> #[trigger] counts@[i] == 0,
                forall|i: int| 0 <= i < ii ==> #[trigger] done@[i] == false,
            decreases n - ii,
        {
            offs.push(0);
            counts.push(0);
            done.push(false);
            ii = ii + 1;
        }
        let ghost mut p: Seq<int> = Seq::new(tv.len(), |i: int| 0);
        let ghost mut r: Seq<int> = Seq::new(tv.len(), |i: int| 0);
        let ghost mut src: Seq<(int, int)> = Seq::empty();
        proof {
            assert(queue_inv(tv, mq_contents(q), side@, src, p, r)) by {
                assert forall|e2: (u64, Seq<u8>, int)|
                    #[trigger] mq_contents(q).count(e2) == 0 by {
                    assert(mq_contents(q) == Multiset::<(u64, Seq<u8>, int)>::empty());
                }
            }
            assert(view_entries(out@) =~= Seq::<(Seq<u8>, Option<Seq<u8>>)>::empty());
            assert forall|i: int|
                0 <= i < tv.len() implies #[trigger] counts@[i] as int == r[i] - p[i] && offs@[i]
                    as int == offset_of(tv[i], r[i]) && !done@[i] by {
                assert(offs@[i] == 0);
                assert(counts@[i] == 0);
                assert(done@[i] == false);
                assert(r[i] == 0 && p[i] == 0);
            }
            assert forall|i: int|
                0 <= i < tv.len() && done@[i] implies #[trigger] r[i] == tv[i].len() by {
                assert(done@[i] == false);
            }
        }
        loop
            invariant
                *self == *old(self),
                old(self).wf(),
                n == tv.len(),
                tv == self.sst_views(),
                self.sstables@.len() == n,
                forall|i: int|
                    0 <= i < tv.len() ==> (#[trigger] self.sstables@[i]).wf()
                        && self.sstables@[i].entries() == tv[i],
                tables_ok(tv),
                queue_inv(tv, mq_contents(q), side@, src, p, r),
                offs@.len() == n,
                counts@.len() == n,
                done@.len() == n,
                forall|i: int|
                    0 <= i < tv.len() ==> #[trigger] offs@[i] as int == offset_of(tv[i], r[i]),
                forall|i: int|
                    0 <= i < tv.len() ==> #[trigger] counts@[i] as int == r[i] - p[i],
                forall|i: int|
                    0 <= i < tv.len() && done@[i] ==> #[trigger] r[i] == tv[i].len(),
                out_inv(tv, view_entries(out@), p),
            ensures
                *self == *old(self),
                out_inv(tv, view_entries(out@), p),
                forall|i: int| 0 <= i < tv.len() ==> #[trigger] p[i] == tv[i].len(),
            decreases remaining(tv, p, n as int),
        {
            proof {
                lemma_remaining_nonneg(tv, p, n as int);
            }
            let res = merge_refill(
                &self.sstables,
                &mut q,
                &mut side,
                &mut offs,
                &mut counts,
                &mut done,
                Ghost(tv),
                Ghost(p),
                Ghost(r),
                Ghost(src),
            );
            proof {
                r = res.0@;
                src = res.1@;
            }
            if mq_len(&q) == 0 {
                proof {
                    assert forall|i: int|
                        0 <= i < tv.len() implies #[trigger] p[i] == tv[i].len() by {
                        if p[i] < r[i] {
                            assert(window_covered(mq_contents(q), tv, src, i, p[i]));
                            let t0 = choose|t0: u64|
                                #[trigger] mq_contents(q).count((t0, tv[i][p[i]].0, i)) > 0 && 0
                                    <= t0 < src.len() && src[t0 as int] == (i, p[i]);
                            vstd::multiset::axiom_count_le_len(
                                mq_contents(q),
                                (t0, tv[i][p[i]].0, i),
                            );
                        }
                        assert(p[i] == r[i]);
                        assert(counts@[i] == 0);
                        assert(r[i] == tv[i].len());
                    }
                }
                break;
            }
            let ghost model_start = mq_contents(q);
            let ghost p_start = p;
            let ghost counts_rf = counts@;
            proof {
                assert forall|i: int|
                    0 <= i < tv.len() implies #[trigger] p_start[i] < r[i] || r[i]
                        == tv[i].len() by {
                    assert(counts_rf[i] as int == r[i] - p_start[i]);
                }
            }
            match mq_pop(&mut q) {
                None => {
                    proof {
                        assert(false);
                    }
                },
                Some(w) => {
                    let (t, kvec, iw) = w;
                    let ghost e = (t, kvec@, iw as int);
                    proof {
                        assert(model_start.count(e) > 0);
                        assert(elem_ok(tv, src, p_start, r, e));
                        assert forall|e2: (u64, Seq<u8>, int)|
                            #[trigger] model_start.count(e2) > 0 implies e2.1 == e.1 || lex_lt(
                            e.1,
                            e2.1,
                        ) by {
                            assert(merge_le(e2.1, e2.2, e.1, e.2));
                        }
                        lemma_head_of_window(tv, model_start, side@, src, p_start, r, e);
                        lemma_consume(tv, model_start, side@, src, p_start, r, e);
                        p = p.update(iw as int, p[iw as int] + 1);
                        assert(tv[iw as int][p_start[iw as int]].0 == e.1);
                    }
                    let ci = counts[iw];
                    vec_set(&mut counts, iw, ci - 1);
                    loop
                        invariant
                            tables_ok(tv),
                            n == tv.len(),
                            queue_inv(tv, mq_contents(q), side@, src, p, r),
                            counts@.len() == n,
                            forall|i: int|
                                0 <= i < tv.len() ==> #[trigger] counts@[i] as int == r[i]
                                    - p[i],
                            kvec@ == e.1,
                            e.2 == iw as int,
                            0 <= e.2 < tv.len(),
                            p_start.len() == tv.len(),
                            forall|e2: (u64, Seq<u8>, int)|
                                #[trigger] mq_contents(q).count(e2) > 0 ==> e2.1 == e.1
                                    || lex_lt(e.1, e2.1),
                            forall|i: int|
                                0 <= i < tv.len() ==> #[trigger] p_start[i] <= p[i],
                            forall|i: int, j: int|
                                #![trigger tv[i][j]]
                                0 <= i < tv.len() && p_start[i] <= j < p[i] ==> tv[i][j].0
                                    == e.1,
                            p[iw as int] >= p_start[iw as int] + 1,
                        ensures
                            queue_inv(tv, mq_contents(q), side@, src, p, r),
                            counts@.len() == n,
                            forall|i: int|
                                0 <= i < tv.len() ==> #[trigger] counts@[i] as int == r[i]
                                    - p[i],
                            forall|e2: (u64, Seq<u8>, int)|
                                #[trigger] mq_contents(q).count(e2) > 0 ==> e2.1 != e.1,
                            forall|e2: (u64, Seq<u8>, int)|
                                #[trigger] mq_contents(q).count(e2) > 0 ==> e2.1 == e.1
                                    || lex_lt(e.1, e2.1),
                            forall|i: int|
                                0 <= i < tv.len() ==> #[trigger] p_start[i] <= p[i],
                            forall|i: int, j: int|
                                #![trigger tv[i][j]]
                                0 <= i < tv.len() && p_start[i] <= j < p[i] ==> tv[i][j].0
                                    == e.1,
                            p[iw as int] >= p_start[iw as int] + 1,
                        decreases mq_contents(q).len(),
                    {
                        match mq_peek(&q) {
                            None => {
                                proof {
                                    assert forall|e2: (u64, Seq<u8>, int)|
                                        #[trigger] mq_contents(q).count(e2) > 0 implies e2.1
                                            != e.1 by {
                                        vstd::multiset::axiom_count_le_len(mq_contents(q), e2);
                                    }
                                }
                                break;
                            },
                            Some(pk) => {
                                let (t2, k2, i2) = pk;
                                if bytes_eq(&k2, &kvec) {
                                    let ghost model_d = mq_contents(q);
                                    let ghost e2g = (t2, k2@, i2 as int);
                                    match mq_pop(&mut q) {
                                        None => {
                                            proof {
                                                vstd::multiset::axiom_count_le_len(
                                                    model_d,
                                                    e2g,
                                                );
                                                assert(false);
                                            }
                                        },
                                        Some(pp) => {
                                            let (t3, k3, i3) = pp;
                                            let ghost e3 = (t3, k3@, i3 as int);
                                            proof {
                                                assert(k3@ == e.1) by {
                                                    assert(merge_le(e2g.1, e2g.2, e3.1, e3.2));
                                                    if k3@ != e.1 {
                                                        assert(lex_lt(e.1, k3@));
                                                        assert(lex_lt(k3@, e2g.1));
                                                        lemma_lex_asym(e.1, k3@);
                                                    }
                                                }
                                                assert forall|e4: (u64, Seq<u8>, int)|
                                                    #[trigger] model_d.count(e4)
                                                        > 0 implies e4.1 == e3.1 || lex_lt(
                                                    e3.1,
                                                    e4.1,
                                                ) by {}
                                                lemma_head_of_window(
                                                    tv,
                                                    model_d,
                                                    side@,
                                                    src,
                                                    p,
                                                    r,
                                                    e3,
                                                );
                                                lemma_consume(
                                                    tv,
                                                    model_d,
                                                    side@,
                                                    src,
                                                    p,
                                                    r,
                                                    e3,
                                                );
                                                assert(elem_ok(tv, src, p, r, e3));
                                                assert(tv[e3.2][p[e3.2]].0 == e.1);
                                                p = p.update(i3 as int, p[i3 as int] + 1);
                                            }
                                            let c3 = counts[i3];
                                            vec_set(&mut counts, i3, c3 - 1);
                                        },
                                    }
                                } else {
                                    proof {
                                        assert forall|e4: (u64, Seq<u8>, int)|
                                            #[trigger] mq_contents(q).count(e4)
                                                > 0 implies e4.1 != e.1 by {
                                            if e4.1 == e.1 {
                                                assert(merge_le(e4.1, e4.2, k2@, i2 as int));
                                                assert(k2@ != e.1);
                                                assert(lex_lt(e.1, k2@));
                                                if lex_lt(k2@, e4.1) {
                                                    lemma_lex_asym(e.1, k2@);
                                                }
                                            }
                                        }
                                    }
                                    break;
                                }
                            },
                        }
                    }
                    let ghost vout_old = view_entries(out@);
                    proof {
                        lemma_emit(
                            tv,
                            model_start,
                            mq_contents(q),
                            side@,
                            src,
                            p_start,
                            p,
                            r,
                            vout_old,
                            e,
                        );
                        assert(t < side@.len()) by {
                            assert(elem_ok(tv, src, p_start, r, e));
                        }
                    }
                    let sl2 = side.len();
                    let ti = t as usize;
                    let op = side[ti].operation.clone();
                    out.push((kvec, op));
                    proof {
                        assert(view_entries(out@) =~= vout_old.push(
                            (e.1, tv[e.2][p_start[e.2]].1),
                        ));
                        lemma_remaining_mono_at(tv, p_start, p, n as int, iw as int);
                        lemma_remaining_nonneg(tv, p, n as int);
                    }
                },
            }
        }
        let new_sst = crate::build_run(&out);
        let ghost vout = view_entries(out@);
        self.sstables.clear();
        self.sstables.push(new_sst);
        proof {
            assert(self.sst_views() =~= seq![vout]);
            assert(self.sst_indexes() =~= seq![stride_index_of(vout)]);
            assert forall|k: Seq<u8>|
                #[trigger] sstables_lookup(self.sst_views(), k) == sstables_lookup(tv, k) by {
                lemma_map_of_last(vout, k);
                lemma_sstables_lookup_some(tv, k);
                assert(self.sst_views().len() == 1);
                assert(self.sst_views().last() == vout);
                assert(self.sst_views().drop_last()
                    =~= Seq::<Seq<(Seq<u8>, Option<Seq<u8>>)>>::empty());
                assert(sstables_lookup(
                    Seq::<Seq<(Seq<u8>, Option<Seq<u8>>)>>::empty(),
                    k,
                ) is None);
                if has_key(vout, k) {
                    let x = choose|x: int| 0 <= x < vout.len() && vout[x].0 == k;
                    lemma_sorted_index_map(vout, x);
                    assert(sstables_lookup(tv, k) == Some(vout[x].1));
                    assert(sstables_lookup(self.sst_views(), k) == Some(map_of(vout)[k]));
                } else {
                    if sstables_lookup(tv, k) is Some {
                        let i = choose|i: int|
                            0 <= i < tv.len() && has_key(#[trigger] tv[i], k);
                        let j = choose|j: int| 0 <= j < tv[i].len() && tv[i][j].0 == k;
                        assert(p[i] == tv[i].len());
                        assert(out_has_key(vout, tv[i][j].0));
                        let x = choose|x: int|
                            0 <= x < vout.len() && (#[trigger] vout[x]).0 == tv[i][j].0;
                        assert(has_key(vout, k));
                    }
                }
            }
            assert forall|k: Seq<u8>|
                #[trigger] self.lookup(k) == old(self).lookup(k) by {
                assert(self.memtable_map() == old(self).memtable_map());
                assert(sstables_lookup(self.sst_views(), k) == sstables_lookup(
                    old(self).sst_views(),
                    k,
                ));
            }
        }
    }
}


/// The in-memory table's map is exactly the map its entry sequence denotes,
/// so a flushed run's record sequence is determined by the observed map.
pub proof fn lemma_memtable_map_is_entries(db: Database)
    ensures
        db.memtable_map() == map_of(db.memtable_entries()),
{
}

/// Last write wins over whole call sequences: start from an engine on which
/// every read misses, chain any run of mutations (each step related to the
/// next state as `set` and `delete` ensure), and a read of `k` observes
/// exactly the last mutation that named `k`, or misses if none did.
pub proof fn lemma_sequence_last_write_wins(
    states: Seq<Database>,
    recs: Seq<(Seq<u8>, Option<Seq<u8>>)>,
    k: Seq<u8>,
)
    requires
        states.len() == recs.len() + 1,
        forall|j: Seq<u8>| states[0].lookup(j) is None,
        forall|i: int|
            0 <= i < recs.len() ==> set_outcome(
                states[i],
                states[i + 1],
                (#[trigger] recs[i]).0,
                recs[i].1,
            ),
    ensures
        states.last().lookup(k) == last_op(recs, k),
    decreases recs.len(),
{
    if recs.len() == 0 {
        assert(states.last() == states[0]);
    } else {
        let n = recs.len() as int;
        assert(forall|i: int|
            0 <= i < n ==> #[trigger] states.drop_last()[i] == states[i]);
        assert(forall|i: int|
            0 <= i < recs.drop_last().len() ==> #[trigger] recs.drop_last()[i] == recs[i]);
        assert(states.drop_last()[0] == states[0]);
        assert forall|i: int|
            0 <= i < recs.drop_last().len() implies set_outcome(
            states.drop_last()[i],
            states.drop_last()[i + 1],
            (#[trigger] recs.drop_last()[i]).0,
            recs.drop_last()[i].1,
        ) by {
            assert(recs.drop_last()[i] == recs[i]);
            assert(states.drop_last()[i] == states[i]);
            assert(states.drop_last()[i + 1] == states[i + 1]);
        }
        lemma_sequence_last_write_wins(states.drop_last(), recs.drop_last(), k);
        assert(states.drop_last().last() == states[n - 1]);
        assert(set_outcome(states[n - 1], states[n], recs[n - 1].0, recs[n - 1].1));
        assert(states.last() == states[n]);
        assert(recs.last() == recs[n - 1]);
    }
}

/// Ordering of flushed runs: every run a well-formed engine holds — so every
/// run a flush or a compaction produced — is in strictly ascending key order,
/// with no duplicate keys.
pub proof fn lemma_runs_sorted(db: Database, i: int)
    requires
        db.wf(),
        0 <= i < db.sst_views().len(),
    ensures
        sorted_entries(db.sst_views()[i]),
{
    assert(db.sstables@[i].wf());
    assert(db.sst_views()[i] == db.sstables@[i].entries());
}

/// The size accumulator of a well-formed engine's in-memory table equals the
/// sum over its entries of key length plus value length, tombstones counting
/// zero value bytes.
pub proof fn lemma_memtable_size_exact(db: Database)
    requires
        db.wf(),
    ensures
        db.memtable_size() == crate::model::entries_size(db.memtable_entries()),
{
}

/// Idempotence at the engine level: a compaction of a single-run list, which
/// by `compact_sstables`'s contract yields one sorted run answering the same
/// point lookups, reproduces that run record for record.
pub proof fn lemma_compact_single_run_identity(pre: Database, post: Database)
    requires
        pre.wf(),
        pre.sst_views().len() == 1,
        post.sst_views().len() == 1,
        sorted_entries(post.sst_views()[0]),
        forall|k: Seq<u8>|
            #[trigger] sstables_lookup(post.sst_views(), k) == sstables_lookup(
                pre.sst_views(),
                k,
            ),
    ensures
        post.sst_views()[0] == pre.sst_views()[0],
{
    let t = pre.sst_views()[0];
    let m = post.sst_views()[0];
    assert(sorted_entries(t)) by {
        assert(pre.sstables@[0].wf());
        assert(pre.sst_views()[0] == pre.sstables@[0].entries());
    }
    assert(pre.sst_views() =~= seq![t]);
    assert(post.sst_views() =~= seq![m]);
    assert forall|k: Seq<u8>|
        #[trigger] sstables_lookup(seq![m], k) == sstables_lookup(seq![t], k) by {
        assert(sstables_lookup(post.sst_views(), k) == sstables_lookup(pre.sst_views(), k));
    }
    crate::model::lemma_compact_single_idempotent(t, m);
}

/// Maps an arbitrary index to a lower-case ASCII letter, cycling through
/// `a` to `y` (the span between `a` and `z`, 25 letters).
pub fn ascii_letter_from_index(index: u8) -> (c: char)
    ensures
        c as u32 == 97 + (index as u32 % 25),
{
    let ascii_a: u8 = 97;
    let ascii_z: u8 = 122;
    let ascii_offset = ascii_z - ascii_a;
    let ascii_index = ascii_a + (index % ascii_offset);
    ascii_index as char
}

} // verus!
