use vstd::prelude::*;
use vstd::multiset::Multiset;

use crate::bytes::{lex_lt, lemma_lex_irrefl, lemma_lex_asym, lemma_lex_trans, bytes_cmp,
    bytes_eq, clone_bytes};
use crate::engine::operation::{Operation, view_entries};
use crate::engine::sstable::{SSTable, entries_ok, sst_entry_ok, offset_of,
    lemma_batch_read_wf};
use crate::model::{sorted_entries, has_key, sstables_lookup, lemma_map_of_last,
    lemma_sorted_index_map, lemma_sstables_lookup_recency};

verus! {

/// One candidate record during compaction: the key, the index of the run it
/// came from, and its operation. The comparison orders by key descending and,
/// on equal keys, run index ascending, so that under a greatest-first queue
/// the least key emerges first, the newest run winning ties.
#[derive(Debug)]
pub struct CompactionPriorityQueueItem {
    pub key: Vec<u8>,
    pub sstable_index: usize,
    pub operation: Operation,
}

impl Clone for CompactionPriorityQueueItem {
    fn clone(&self) -> (r: Self)
        ensures
            r.key@ == self.key@,
            r.sstable_index == self.sstable_index,
            r.operation@ == self.operation@,
    {
        CompactionPriorityQueueItem {
            key: clone_bytes(&self.key),
            sstable_index: self.sstable_index,
            operation: self.operation.clone(),
        }
    }
}

/// The comparison the compactor's queue orders by: key descending, then run
/// index ascending.
pub open spec fn item_cmp_spec(
    a: CompactionPriorityQueueItem,
    b: CompactionPriorityQueueItem,
) -> core::cmp::Ordering {
    if a.key@ == b.key@ {
        if a.sstable_index < b.sstable_index {
            core::cmp::Ordering::Less
        } else if a.sstable_index == b.sstable_index {
            core::cmp::Ordering::Equal
        } else {
            core::cmp::Ordering::Greater
        }
    } else if lex_lt(a.key@, b.key@) {
        core::cmp::Ordering::Greater
    } else {
        core::cmp::Ordering::Less
    }
}

impl PartialEq for CompactionPriorityQueueItem {
    fn eq(&self, other: &Self) -> (r: bool) {
        bytes_eq(&self.key, &other.key) && self.sstable_index == other.sstable_index
            && crate::engine::operation::op_eq(&self.operation, &other.operation)
    }
}

impl vstd::std_specs::cmp::PartialEqSpecImpl for CompactionPriorityQueueItem {
    open spec fn obeys_eq_spec() -> bool {
        true
    }

    open spec fn eq_spec(&self, other: &Self) -> bool {
        self.key@ == other.key@ && self.sstable_index == other.sstable_index && self.operation@
            == other.operation@
    }
}

impl PartialOrd for CompactionPriorityQueueItem {
    fn partial_cmp(&self, other: &Self) -> (r: Option<core::cmp::Ordering>) {
        match bytes_cmp(&self.key, &other.key) {
            core::cmp::Ordering::Equal => {
                if self.sstable_index < other.sstable_index {
                    Some(core::cmp::Ordering::Less)
                } else if self.sstable_index == other.sstable_index {
                    Some(core::cmp::Ordering::Equal)
                } else {
                    Some(core::cmp::Ordering::Greater)
                }
            },
            core::cmp::Ordering::Less => Some(core::cmp::Ordering::Greater),
            core::cmp::Ordering::Greater => Some(core::cmp::Ordering::Less),
        }
    }
}

impl vstd::std_specs::cmp::PartialOrdSpecImpl for CompactionPriorityQueueItem {
    open spec fn obeys_partial_cmp_spec() -> bool {
        true
    }

    open spec fn partial_cmp_spec(&self, other: &Self) -> Option<core::cmp::Ordering> {
        Some(item_cmp_spec(*self, *other))
    }
}

/// `(k2, i2)` leaves a greatest-first merge queue no earlier than `(k, i)`:
/// its key sorts after `k`, or the keys tie and its run is no newer.
pub open spec fn merge_le(k2: Seq<u8>, i2: int, k: Seq<u8>, i: int) -> bool {
    lex_lt(k, k2) || (k2 == k && i2 <= i)
}

/// The compactor's candidate queue: a greatest-first priority queue of
/// tickets, prioritised by reversed key bytes and then run index. Each queued
/// triple is a ticket, the record's key, and the index of its run.
#[verifier::external_body]
pub struct MergeQueue {
    inner: priority_queue::PriorityQueue<u64, (core::cmp::Reverse<Vec<u8>>, usize)>,
}

/// What the queue holds: ticket, key bytes, run index.
pub uninterp spec fn mq_contents(q: MergeQueue) -> Multiset<(u64, Seq<u8>, int)>;

/// Relies on priority_queue::PriorityQueue::new: a new queue is empty.
#[verifier::external_body]
pub(crate) fn mq_new() -> (q: MergeQueue)
    ensures
        mq_contents(q) == Multiset::<(u64, Seq<u8>, int)>::empty(),
{
    MergeQueue { inner: priority_queue::PriorityQueue::new() }
}

/// Relies on priority_queue::PriorityQueue::len: the number of stored pairs.
#[verifier::external_body]
pub(crate) fn mq_len(q: &MergeQueue) -> (n: usize)
    ensures
        n == mq_contents(*q).len(),
{
    q.inner.len()
}

/// Relies on priority_queue::PriorityQueue::push: a pair whose item is not
/// yet stored is inserted as a new entry.
#[verifier::external_body]
pub(crate) fn mq_push(q: &mut MergeQueue, ticket: u64, key: Vec<u8>, table: usize)
    requires
        forall|k: Seq<u8>, t: int| mq_contents(*old(q)).count((ticket, k, t)) == 0,
    ensures
        mq_contents(*final(q)) == mq_contents(*old(q)).insert((ticket, key@, table as int)),
{
    q.inner.push(ticket, (core::cmp::Reverse(key), table));
}

/// Relies on priority_queue::PriorityQueue::pop: removes and returns a pair
/// of greatest priority, so one whose key sorts before every other queued
/// key, with ties going to the greatest run index. `std::cmp::Reverse` flips
/// the `Vec<u8>` ordering, which is bytewise lexicographic.
#[verifier::external_body]
pub(crate) fn mq_pop(q: &mut MergeQueue) -> (r: Option<(u64, Vec<u8>, usize)>)
    ensures
        match r {
            None => mq_contents(*old(q)).len() == 0 && mq_contents(*final(q)) == mq_contents(
                *old(q),
            ),
            Some((t, k, i)) => {
                &&& mq_contents(*old(q)).count((t, k@, i as int)) > 0
                &&& mq_contents(*final(q)) == mq_contents(*old(q)).remove((t, k@, i as int))
                &&& forall|e: (u64, Seq<u8>, int)|
                    mq_contents(*old(q)).count(e) > 0 ==> merge_le(e.1, e.2, k@, i as int)
            },
        },
{
    match q.inner.pop() {
        None => None,
        Some((t, p)) => Some((t, p.0.0, p.1)),
    }
}

/// Relies on priority_queue::PriorityQueue::peek: returns a pair of greatest
/// priority without removing it, under the same ordering as `mq_pop`.
#[verifier::external_body]
pub(crate) fn mq_peek(q: &MergeQueue) -> (r: Option<(u64, Vec<u8>, usize)>)
    ensures
        match r {
            None => mq_contents(*q).len() == 0,
            Some((t, k, i)) => {
                &&& mq_contents(*q).count((t, k@, i as int)) > 0
                &&& forall|e: (u64, Seq<u8>, int)|
                    mq_contents(*q).count(e) > 0 ==> merge_le(e.1, e.2, k@, i as int)
            },
        },
{
    match q.inner.peek() {
        None => None,
        Some((t, p)) => Some((*t, p.0.0.clone(), p.1)),
    }
}

/// Replaces one element of a vector.
pub(crate) fn vec_set<T>(v: &mut Vec<T>, i: usize, value: T)
    requires
        i < old(v)@.len(),
    ensures
        final(v)@ == old(v)@.update(i as int, value),
{
    v.remove(i);
    v.insert(i, value);
    proof {
        assert(v@ =~= old(v)@.update(i as int, value));
    }
}

} // verus!

verus! {

/// Each of the first `n` tables' entries not yet consumed, summed.
pub open spec fn remaining(tv: Seq<Seq<(Seq<u8>, Option<Seq<u8>>)>>, p: Seq<int>, n: int) -> int
    decreases n,
{
    if n <= 0 {
        0
    } else {
        remaining(tv, p, n - 1) + (tv[n - 1].len() - p[n - 1])
    }
}

pub(crate) proof fn lemma_remaining_nonneg(tv: Seq<Seq<(Seq<u8>, Option<Seq<u8>>)>>, p: Seq<int>, n: int)
    requires
        forall|i: int| 0 <= i < n ==> #[trigger] p[i] <= tv[i].len(),
    ensures
        remaining(tv, p, n) >= 0,
    decreases n,
{
    if n > 0 {
        lemma_remaining_nonneg(tv, p, n - 1);
    }
}

/// Ticket `t`'s stored item matches the record its source coordinates name.
pub open spec fn src_ok(
    tv: Seq<Seq<(Seq<u8>, Option<Seq<u8>>)>>,
    side: Seq<CompactionPriorityQueueItem>,
    src: Seq<(int, int)>,
    t: int,
) -> bool {
    &&& 0 <= src[t].0 < tv.len()
    &&& 0 <= src[t].1 < tv[src[t].0].len()
    &&& side[t].key@ == tv[src[t].0][src[t].1].0
    &&& side[t].operation@ == tv[src[t].0][src[t].1].1
    &&& side[t].sstable_index == src[t].0
}

/// A queued triple names a real ticket whose source lies in its run's
/// still-queued window and carries the triple's key.
pub open spec fn elem_ok(
    tv: Seq<Seq<(Seq<u8>, Option<Seq<u8>>)>>,
    src: Seq<(int, int)>,
    p: Seq<int>,
    r: Seq<int>,
    e: (u64, Seq<u8>, int),
) -> bool {
    &&& 0 <= e.0 < src.len()
    &&& 0 <= e.2 < tv.len()
    &&& src[e.0 as int].0 == e.2
    &&& p[e.2] <= src[e.0 as int].1 < r[e.2]
    &&& tv[e.2][src[e.0 as int].1].0 == e.1
}

/// The record at `(i, j)` has a queued triple sourced exactly there.
pub open spec fn window_covered(
    model: Multiset<(u64, Seq<u8>, int)>,
    tv: Seq<Seq<(Seq<u8>, Option<Seq<u8>>)>>,
    src: Seq<(int, int)>,
    i: int,
    j: int,
) -> bool {
    exists|t: u64|
        #[trigger] model.count((t, tv[i][j].0, i)) > 0 && 0 <= t < src.len() && src[t as int] == (
        i,
        j,
    )
}

/// The queue holds exactly one triple per record in each run's window
/// `[p[i], r[i])`, each triple truthful about its source.
pub open spec fn queue_inv(
    tv: Seq<Seq<(Seq<u8>, Option<Seq<u8>>)>>,
    model: Multiset<(u64, Seq<u8>, int)>,
    side: Seq<CompactionPriorityQueueItem>,
    src: Seq<(int, int)>,
    p: Seq<int>,
    r: Seq<int>,
) -> bool {
    &&& p.len() == tv.len()
    &&& r.len() == tv.len()
    &&& side.len() == src.len()
    &&& forall|i: int|
        0 <= i < tv.len() ==> 0 <= #[trigger] p[i] && p[i] <= r[i] && r[i] <= tv[i].len()
    &&& forall|t: int| 0 <= t < src.len() ==> src_ok(tv, side, src, t)
    &&& forall|e: (u64, Seq<u8>, int)| #[trigger] model.count(e) > 0 ==> elem_ok(tv, src, p, r, e)
    &&& forall|e: (u64, Seq<u8>, int)| #[trigger] model.count(e) <= 1
    &&& forall|i: int, j: int|
        #![trigger tv[i][j]]
        0 <= i < tv.len() && p[i] <= j < r[i] ==> window_covered(model, tv, src, i, j)
    &&& forall|e1: (u64, Seq<u8>, int), e2: (u64, Seq<u8>, int)|
        #![trigger model.count(e1), model.count(e2)]
        model.count(e1) > 0 && model.count(e2) > 0 && e1 != e2 ==> src[e1.0 as int] != src[e2.0
            as int]
}

/// Every run is strictly sorted and representable.
pub open spec fn tables_ok(tv: Seq<Seq<(Seq<u8>, Option<Seq<u8>>)>>) -> bool {
    forall|i: int|
        0 <= i < tv.len() ==> sorted_entries(#[trigger] tv[i]) && entries_ok(tv[i])
}

pub open spec fn out_has_key(vout: Seq<(Seq<u8>, Option<Seq<u8>>)>, k: Seq<u8>) -> bool {
    exists|x: int| 0 <= x < vout.len() && (#[trigger] vout[x]).0 == k
}

/// The merged output so far: sorted, representable, each entry the newest
/// binding of its key, every output key before every unconsumed key, and
/// every consumed key present in the output.
pub open spec fn out_inv(
    tv: Seq<Seq<(Seq<u8>, Option<Seq<u8>>)>>,
    vout: Seq<(Seq<u8>, Option<Seq<u8>>)>,
    p: Seq<int>,
) -> bool {
    &&& sorted_entries(vout)
    &&& entries_ok(vout)
    &&& forall|x: int|
        0 <= x < vout.len() ==> sstables_lookup(tv, (#[trigger] vout[x]).0) == Some(vout[x].1)
    &&& forall|x: int, i: int, j: int|
        #![trigger vout[x], tv[i][j]]
        0 <= x < vout.len() && 0 <= i < tv.len() && p[i] <= j < tv[i].len() ==> lex_lt(
            vout[x].0,
            tv[i][j].0,
        )
    &&& forall|i: int, j: int|
        #![trigger tv[i][j]]
        0 <= i < tv.len() && 0 <= j < p[i] ==> out_has_key(vout, tv[i][j].0)
}

/// Loads a batch of up to ten records into the queue from every run whose
/// candidates are exhausted, marking runs that are fully read.
#[verifier::rlimit(100)]
pub(crate) fn merge_refill(
    tables: &Vec<SSTable>,
    q: &mut MergeQueue,
    side: &mut Vec<CompactionPriorityQueueItem>,
    offs: &mut Vec<usize>,
    counts: &mut Vec<usize>,
    done: &mut Vec<bool>,
    Ghost(tv): Ghost<Seq<Seq<(Seq<u8>, Option<Seq<u8>>)>>>,
    Ghost(p): Ghost<Seq<int>>,
    Ghost(r0): Ghost<Seq<int>>,
    Ghost(src0): Ghost<Seq<(int, int)>>,
) -> (res: (Ghost<Seq<int>>, Ghost<Seq<(int, int)>>))
    requires
        tables@.len() == tv.len(),
        forall|i: int|
            0 <= i < tv.len() ==> (#[trigger] tables@[i]).wf() && tables@[i].entries() == tv[i],
        tables_ok(tv),
        queue_inv(tv, mq_contents(*old(q)), old(side)@, src0, p, r0),
        old(offs)@.len() == tv.len(),
        old(counts)@.len() == tv.len(),
        old(done)@.len() == tv.len(),
        forall|i: int|
            0 <= i < tv.len() ==> #[trigger] old(offs)@[i] as int == offset_of(tv[i], r0[i]),
        forall|i: int| 0 <= i < tv.len() ==> #[trigger] old(counts)@[i] as int == r0[i] - p[i],
        forall|i: int| 0 <= i < tv.len() && old(done)@[i] ==> #[trigger] r0[i] == tv[i].len(),
    ensures
        ({
            let (r, src) = res;
            &&& queue_inv(tv, mq_contents(*final(q)), final(side)@, src@, p, r@)
            &&& final(offs)@.len() == tv.len()
            &&& final(counts)@.len() == tv.len()
            &&& final(done)@.len() == tv.len()
            &&& forall|i: int|
                0 <= i < tv.len() ==> #[trigger] final(offs)@[i] as int == offset_of(
                    tv[i],
                    r@[i],
                )
            &&& forall|i: int|
                0 <= i < tv.len() ==> #[trigger] final(counts)@[i] as int == r@[i] - p[i]
            &&& forall|i: int|
                0 <= i < tv.len() && final(done)@[i] ==> #[trigger] r@[i] == tv[i].len()
            &&& forall|i: int|
                0 <= i < tv.len() ==> final(counts)@[i] > 0 || #[trigger] r@[i] == tv[i].len()
        }),
{
    let ghost mut r = r0;
    let ghost mut src = src0;
    let n = tables.len();
    let mut idx: usize = 0;
    while idx < n
        invariant
            n == tv.len(),
            tables@.len() == tv.len(),
            forall|i: int|
                0 <= i < tv.len() ==> (#[trigger] tables@[i]).wf() && tables@[i].entries()
                    == tv[i],
            tables_ok(tv),
            queue_inv(tv, mq_contents(*q), side@, src, p, r),
            offs@.len() == tv.len(),
            counts@.len() == tv.len(),
            done@.len() == tv.len(),
            forall|i: int|
                0 <= i < tv.len() ==> #[trigger] offs@[i] as int == offset_of(tv[i], r[i]),
            forall|i: int| 0 <= i < tv.len() ==> #[trigger] counts@[i] as int == r[i] - p[i],
            forall|i: int| 0 <= i < tv.len() && done@[i] ==> #[trigger] r[i] == tv[i].len(),
            forall|i: int|
                0 <= i < idx ==> counts@[i] > 0 || #[trigger] r[i] == tv[i].len(),
            0 <= idx <= n,
        decreases n - idx,
    {
        if counts[idx] == 0 && !done[idx] {
            let tbl = &tables[idx];
            let ghost rstart = r[idx as int];
            proof {
                lemma_batch_read_wf(tv[idx as int], rstart, 10);
            }
            match tbl.batch_read(10, offs[idx]) {
                Err(_) => {
                    proof {
                        assert(false);
                    }
                },
                Ok(recs_and_off) => {
                    let (recs, new_off) = recs_and_off;
                    let ghost stop = if rstart + 10 <= tv[idx as int].len() {
                        rstart + 10
                    } else {
                        tv[idx as int].len() as int
                    };
                    proof {
                        assert(view_entries(recs@) == tv[idx as int].subrange(rstart, stop));
                        assert(recs@.len() == stop - rstart);
                        assert(new_off as int == offset_of(tv[idx as int], stop));
                    }
                    if recs.len() == 0 {
                        proof {
                            assert(stop == rstart);
                            assert(rstart == tv[idx as int].len());
                        }
                        vec_set(done, idx, true);
                    } else {
                        let ghost r_at = r;
                        proof {
                            assert(r_at.update(idx as int, rstart) =~= r_at);
                        }
                        let mut m: usize = 0;
                        while m < recs.len()
                            invariant
                                0 <= m <= recs@.len(),
                                n == tv.len(),
                                tables_ok(tv),
                                0 <= idx < tv.len(),
                                view_entries(recs@) == tv[idx as int].subrange(rstart, stop),
                                rstart + recs@.len() == stop,
                                rstart == p[idx as int],
                                stop <= tv[idx as int].len(),
                                r_at.len() == tv.len(),
                                r_at[idx as int] == rstart,
                                r == r_at.update(idx as int, rstart + m),
                                queue_inv(tv, mq_contents(*q), side@, src, p, r),
                                counts@.len() == tv.len(),
                                forall|i: int|
                                    0 <= i < tv.len() ==> #[trigger] counts@[i] as int == r[i]
                                        - p[i],
                            decreases recs@.len() - m,
                        {
                            let e = &recs[m];
                            let ghost jj = rstart + m;
                            let ghost old_model = mq_contents(*q);
                            let ghost old_side = side@;
                            let ghost old_src = src;
                            let ghost old_r = r;
                            proof {
                                assert(view_entries(recs@)[m as int] == (
                                    recs@[m as int].0@,
                                    recs@[m as int].1@,
                                ));
                                assert(tv[idx as int].subrange(rstart, stop)[m as int]
                                    == tv[idx as int][jj]);
                                assert(e.0@ == tv[idx as int][jj].0);
                                assert(e.1@ == tv[idx as int][jj].1);
                            }
                            let sl = side.len();
                            let ticket: u64 = sl as u64;
                            proof {
                                assert forall|k2: Seq<u8>, t2: int|
                                    old_model.count((ticket, k2, t2)) == 0 by {
                                    if old_model.count((ticket, k2, t2)) > 0 {
                                        assert(elem_ok(tv, old_src, p, old_r, (ticket, k2, t2)));
                                    }
                                }
                            }
                            let item = CompactionPriorityQueueItem {
                                key: clone_bytes(&e.0),
                                sstable_index: idx,
                                operation: e.1.clone(),
                            };
                            side.push(item);
                            mq_push(q, ticket, clone_bytes(&e.0), idx);
                            proof {
                                src = old_src.push((idx as int, jj));
                                r = old_r.update(idx as int, jj + 1);
                                let model = mq_contents(*q);
                                let enew = (ticket, tv[idx as int][jj].0, idx as int);
                                assert(model == old_model.insert(enew));
                                assert(ticket as int == old_src.len());
                                assert(src[ticket as int] == (idx as int, jj));
                                assert(r =~= r_at.update(idx as int, rstart + (m + 1)));
                                assert forall|t: int|
                                    0 <= t < src.len() implies src_ok(tv, side@, src, t) by {
                                    if t < old_src.len() {
                                        assert(src_ok(tv, old_side, old_src, t));
                                        assert(side@[t] == old_side[t]);
                                        assert(src[t] == old_src[t]);
                                    } else {
                                        assert(t == ticket as int);
                                        assert(side@[t] == item);
                                    }
                                }
                                assert(elem_ok(tv, src, p, r, enew));
                                assert forall|e2: (u64, Seq<u8>, int)|
                                    #[trigger] model.count(e2) > 0 implies elem_ok(
                                    tv,
                                    src,
                                    p,
                                    r,
                                    e2,
                                ) by {
                                    if e2 != enew {
                                        assert(old_model.count(e2) > 0);
                                        assert(elem_ok(tv, old_src, p, old_r, e2));
                                        assert(src[e2.0 as int] == old_src[e2.0 as int]);
                                        assert(r[e2.2] >= old_r[e2.2]);
                                    }
                                }
                                assert forall|e2: (u64, Seq<u8>, int)|
                                    #[trigger] model.count(e2) <= 1 by {
                                    if e2 != enew {
                                        assert(model.count(e2) == old_model.count(e2));
                                    } else {
                                        assert(old_model.count(enew) == 0);
                                    }
                                }
                                assert forall|i: int, j: int|
                                    0 <= i < tv.len() && p[i] <= j
                                        < r[i] implies window_covered(model, tv, src, i, j) by {
                                    if i == idx as int && j == jj {
                                        assert(model.count((ticket, tv[i][j].0, i)) > 0);
                                        assert(0 <= ticket < src.len());
                                        assert(src[ticket as int] == (i, j));
                                    } else {
                                        assert(p[i] <= j < old_r[i]);
                                        assert(window_covered(old_model, tv, old_src, i, j));
                                        let t0 = choose|t0: u64|
                                            #[trigger] old_model.count((t0, tv[i][j].0, i)) > 0
                                                && 0 <= t0 < old_src.len() && old_src[t0 as int]
                                                == (i, j);
                                        assert(model.count((t0, tv[i][j].0, i)) > 0);
                                        assert(src[t0 as int] == (i, j));
                                    }
                                }
                                assert forall|e1: (u64, Seq<u8>, int), e2: (u64, Seq<u8>, int)|
                                    model.count(e1) > 0 && model.count(e2) > 0 && e1
                                        != e2 implies src[e1.0 as int] != src[e2.0 as int] by {
                                    if e1 == enew && e2 != enew {
                                        assert(old_model.count(e2) > 0);
                                        assert(elem_ok(tv, old_src, p, old_r, e2));
                                        assert(src[e2.0 as int] == old_src[e2.0 as int]);
                                        if e2.2 == idx as int {
                                            assert(old_src[e2.0 as int].1 < old_r[idx as int]);
                                        }
                                    } else if e2 == enew && e1 != enew {
                                        assert(old_model.count(e1) > 0);
                                        assert(elem_ok(tv, old_src, p, old_r, e1));
                                        assert(src[e1.0 as int] == old_src[e1.0 as int]);
                                        if e1.2 == idx as int {
                                            assert(old_src[e1.0 as int].1 < old_r[idx as int]);
                                        }
                                    } else if e1 != enew && e2 != enew {
                                        assert(old_model.count(e1) > 0);
                                        assert(old_model.count(e2) > 0);
                                        assert(src[e1.0 as int] == old_src[e1.0 as int]);
                                        assert(src[e2.0 as int] == old_src[e2.0 as int]);
                                    }
                                }
                            }
                            let c = counts[idx];
                            vec_set(counts, idx, c + 1);
                            m = m + 1;
                        }
                        vec_set(offs, idx, new_off);
                        proof {
                            assert(r[idx as int] == stop);
                            assert(counts@[idx as int] as int == r[idx as int] - p[idx as int]);
                        }
                    }
                },
            }
        }
        idx = idx + 1;
    }
    (Ghost(r), Ghost(src))
}

} // verus!

verus! {

pub(crate) proof fn lemma_remaining_mono_at(
    tv: Seq<Seq<(Seq<u8>, Option<Seq<u8>>)>>,
    p1: Seq<int>,
    p2: Seq<int>,
    n: int,
    x: int,
)
    requires
        n <= p1.len(),
        n <= p2.len(),
        0 <= x < n,
        forall|i: int| 0 <= i < n ==> #[trigger] p1[i] <= p2[i],
    ensures
        remaining(tv, p2, n) <= remaining(tv, p1, n) - (p2[x] - p1[x]),
    decreases n,
{
    if n > 0 {
        if x == n - 1 {
            lemma_remaining_mono(tv, p1, p2, n - 1);
        } else {
            lemma_remaining_mono_at(tv, p1, p2, n - 1, x);
        }
    }
}

pub(crate) proof fn lemma_remaining_mono(
    tv: Seq<Seq<(Seq<u8>, Option<Seq<u8>>)>>,
    p1: Seq<int>,
    p2: Seq<int>,
    n: int,
)
    requires
        n <= p1.len(),
        n <= p2.len(),
        forall|i: int| 0 <= i < n ==> #[trigger] p1[i] <= p2[i],
    ensures
        remaining(tv, p2, n) <= remaining(tv, p1, n),
    decreases n,
{
    if n > 0 {
        lemma_remaining_mono(tv, p1, p2, n - 1);
    }
}

/// A least-keyed queued triple is sourced at the very head of its run's
/// window: anything earlier in the window would carry a smaller key.
pub(crate) proof fn lemma_head_of_window(
    tv: Seq<Seq<(Seq<u8>, Option<Seq<u8>>)>>,
    model: Multiset<(u64, Seq<u8>, int)>,
    side: Seq<CompactionPriorityQueueItem>,
    src: Seq<(int, int)>,
    p: Seq<int>,
    r: Seq<int>,
    e: (u64, Seq<u8>, int),
)
    requires
        tables_ok(tv),
        queue_inv(tv, model, side, src, p, r),
        model.count(e) > 0,
        forall|e2: (u64, Seq<u8>, int)|
            #[trigger] model.count(e2) > 0 ==> e2.1 == e.1 || lex_lt(e.1, e2.1),
    ensures
        src[e.0 as int].1 == p[e.2],
{
    assert(elem_ok(tv, src, p, r, e));
    let i = e.2;
    let j = src[e.0 as int].1;
    if j > p[i] {
        assert(window_covered(model, tv, src, i, p[i]));
        let t0 = choose|t0: u64|
            #[trigger] model.count((t0, tv[i][p[i]].0, i)) > 0 && 0 <= t0 < src.len()
                && src[t0 as int] == (i, p[i]);
        assert(lex_lt(tv[i][p[i]].0, tv[i][j].0));
        if tv[i][p[i]].0 == e.1 {
            lemma_lex_irrefl(e.1);
        } else {
            assert(lex_lt(e.1, tv[i][p[i]].0));
            lemma_lex_asym(e.1, tv[i][p[i]].0);
        }
    }
}

/// Removing a window-head triple from the queue and advancing its run's
/// consumed mark keeps the queue truthful.
pub(crate) proof fn lemma_consume(
    tv: Seq<Seq<(Seq<u8>, Option<Seq<u8>>)>>,
    model0: Multiset<(u64, Seq<u8>, int)>,
    side: Seq<CompactionPriorityQueueItem>,
    src: Seq<(int, int)>,
    p: Seq<int>,
    r: Seq<int>,
    e: (u64, Seq<u8>, int),
)
    requires
        queue_inv(tv, model0, side, src, p, r),
        model0.count(e) > 0,
        src[e.0 as int].1 == p[e.2],
    ensures
        queue_inv(tv, model0.remove(e), side, src, p.update(e.2, p[e.2] + 1), r),
{
    let model1 = model0.remove(e);
    let p1 = p.update(e.2, p[e.2] + 1);
    assert(elem_ok(tv, src, p, r, e));
    assert forall|e2: (u64, Seq<u8>, int)|
        #[trigger] model1.count(e2) > 0 implies elem_ok(tv, src, p1, r, e2) by {
        assert(model0.count(e2) > 0);
        assert(elem_ok(tv, src, p, r, e2));
        if e2.2 == e.2 {
            assert(e2 != e) by {
                assert(model1.count(e) == 0);
            }
            assert(src[e2.0 as int] != src[e.0 as int]);
            assert(src[e2.0 as int].1 > p[e.2]);
        }
    }
    assert forall|i: int, j: int|
        0 <= i < tv.len() && p1[i] <= j < r[i] implies window_covered(model1, tv, src, i, j) by {
        assert(p[i] <= j < r[i]);
        assert(window_covered(model0, tv, src, i, j));
        let t0 = choose|t0: u64|
            #[trigger] model0.count((t0, tv[i][j].0, i)) > 0 && 0 <= t0 < src.len()
                && src[t0 as int] == (i, j);
        let e0 = (t0, tv[i][j].0, i);
        assert(e0 != e) by {
            if e0 == e {
                assert(src[e.0 as int] == (i, j));
                assert(j == p[e.2] && i == e.2);
                assert(!(p1[i] <= j));
            }
        }
        assert(model1.count(e0) > 0);
    }
    assert forall|e2: (u64, Seq<u8>, int)| #[trigger] model1.count(e2) <= 1 by {
        assert(model0.count(e2) <= 1);
    }
    assert forall|e1: (u64, Seq<u8>, int), e2: (u64, Seq<u8>, int)|
        model1.count(e1) > 0 && model1.count(e2) > 0 && e1 != e2 implies src[e1.0 as int]
            != src[e2.0 as int] by {
        assert(model0.count(e1) > 0 && model0.count(e2) > 0);
    }
}

} // verus!

verus! {

/// After a winner with key `e.1` from run `e.2` has been popped and every
/// queued duplicate of that key drained, the winner is the newest occurrence
/// of its key anywhere, and appending it keeps the output invariant.
#[verifier::rlimit(100)]
pub(crate) proof fn lemma_emit(
    tv: Seq<Seq<(Seq<u8>, Option<Seq<u8>>)>>,
    model_start: Multiset<(u64, Seq<u8>, int)>,
    model_end: Multiset<(u64, Seq<u8>, int)>,
    side: Seq<CompactionPriorityQueueItem>,
    src: Seq<(int, int)>,
    p_start: Seq<int>,
    p_end: Seq<int>,
    r: Seq<int>,
    vout: Seq<(Seq<u8>, Option<Seq<u8>>)>,
    e: (u64, Seq<u8>, int),
)
    requires
        tables_ok(tv),
        queue_inv(tv, model_start, side, src, p_start, r),
        queue_inv(tv, model_end, side, src, p_end, r),
        model_start.count(e) > 0,
        forall|e2: (u64, Seq<u8>, int)|
            #[trigger] model_start.count(e2) > 0 ==> merge_le(e2.1, e2.2, e.1, e.2),
        forall|e2: (u64, Seq<u8>, int)| #[trigger] model_end.count(e2) > 0 ==> e2.1 != e.1,
        forall|e2: (u64, Seq<u8>, int)|
            #[trigger] model_end.count(e2) > 0 ==> e2.1 == e.1 || lex_lt(e.1, e2.1),
        forall|i: int| 0 <= i < tv.len() ==> #[trigger] p_start[i] <= p_end[i],
        forall|i: int|
            0 <= i < tv.len() ==> #[trigger] p_start[i] < r[i] || r[i] == tv[i].len(),
        forall|i: int, j: int|
            #![trigger tv[i][j]]
            0 <= i < tv.len() && p_start[i] <= j < p_end[i] ==> tv[i][j].0 == e.1,
        p_end[e.2] > p_start[e.2],
        src[e.0 as int].1 == p_start[e.2],
        out_inv(tv, vout, p_start),
    ensures
        0 <= e.2 < tv.len(),
        0 <= p_start[e.2] < tv[e.2].len(),
        tv[e.2][p_start[e.2]].0 == e.1,
        side[e.0 as int].operation@ == tv[e.2][p_start[e.2]].1,
        sstables_lookup(tv, e.1) == Some(tv[e.2][p_start[e.2]].1),
        forall|x: int| 0 <= x < vout.len() ==> lex_lt((#[trigger] vout[x]).0, e.1),
        out_inv(tv, vout.push((e.1, tv[e.2][p_start[e.2]].1)), p_end),
{
    let kw = e.1;
    let iw = e.2;
    let jw = p_start[iw];
    assert(elem_ok(tv, src, p_start, r, e));
    assert(src_ok(tv, side, src, e.0 as int));
    assert(tv[iw][jw].0 == kw);
    let wop = tv[iw][jw].1;

    // Every old output key sorts before the winner's key.
    assert forall|x: int| 0 <= x < vout.len() implies lex_lt((#[trigger] vout[x]).0, kw) by {
        assert(lex_lt(vout[x].0, tv[iw][jw].0));
    }

    // No key of the output equals the winner's key.
    assert(!out_has_key(vout, kw)) by {
        if out_has_key(vout, kw) {
            let x = choose|x: int| 0 <= x < vout.len() && (#[trigger] vout[x]).0 == kw;
            lemma_lex_irrefl(kw);
        }
    }

    // No run newer than the winner's holds the key at all.
    assert forall|i: int| iw < i < tv.len() implies !has_key(#[trigger] tv[i], kw) by {
        if has_key(tv[i], kw) {
            let j = choose|j: int| 0 <= j < tv[i].len() && tv[i][j].0 == kw;
            if j < p_start[i] {
                assert(out_has_key(vout, tv[i][j].0));
            } else if j < r[i] {
                assert(window_covered(model_start, tv, src, i, j));
                let t0 = choose|t0: u64|
                    #[trigger] model_start.count((t0, tv[i][j].0, i)) > 0 && 0 <= t0 < src.len()
                        && src[t0 as int] == (i, j);
                assert(merge_le(kw, i, kw, iw));
                lemma_lex_irrefl(kw);
            } else {
                assert(r[i] < tv[i].len());
                assert(p_start[i] < r[i]);
                let hm = tv[i][p_start[i]].0;
                assert(window_covered(model_start, tv, src, i, p_start[i]));
                let t1 = choose|t1: u64|
                    #[trigger] model_start.count((t1, tv[i][p_start[i]].0, i)) > 0 && 0 <= t1
                        < src.len() && src[t1 as int] == (i, p_start[i]);
                assert(merge_le(hm, i, kw, iw));
                assert(lex_lt(hm, tv[i][j].0));
                if hm == kw {
                    lemma_lex_irrefl(kw);
                } else {
                    assert(lex_lt(kw, hm));
                    lemma_lex_asym(kw, hm);
                }
            }
        }
    }
    assert(has_key(tv[iw], kw));
    lemma_sorted_index_map(tv[iw], jw);
    lemma_map_of_last(tv[iw], kw);
    lemma_sstables_lookup_recency(tv, kw, iw);
    assert(sstables_lookup(tv, kw) == Some(wop));

    let vout2 = vout.push((kw, wop));

    // Sorted, representable, and each entry the newest binding of its key.
    assert forall|x: int, y: int|
        0 <= x < y < vout2.len() implies lex_lt(vout2[x].0, vout2[y].0) by {
        if y < vout.len() {
            assert(vout2[x] == vout[x] && vout2[y] == vout[y]);
        } else {
            assert(vout2[x] == vout[x] && vout2[y] == (kw, wop));
        }
    }
    assert(sst_entry_ok((kw, wop))) by {
        assert(entries_ok(tv[iw]));
        assert(sst_entry_ok(tv[iw][jw]));
    }
    assert forall|x: int|
        0 <= x < vout2.len() implies sstables_lookup(tv, (#[trigger] vout2[x]).0) == Some(
        vout2[x].1,
    ) by {
        if x < vout.len() {
            assert(vout2[x] == vout[x]);
        }
    }

    // Every key of the grown output sorts before every unconsumed key.
    assert forall|x: int, i: int, j: int|
        #![trigger vout2[x], tv[i][j]]
        0 <= x < vout2.len() && 0 <= i < tv.len() && p_end[i] <= j
            < tv[i].len() implies lex_lt(vout2[x].0, tv[i][j].0) by {
        if x < vout.len() {
            assert(vout2[x] == vout[x]);
            assert(p_start[i] <= j);
            assert(lex_lt(vout[x].0, tv[i][j].0));
        } else {
            assert(vout2[x].0 == kw);
            if j < r[i] {
                assert(window_covered(model_end, tv, src, i, j));
                let t0 = choose|t0: u64|
                    #[trigger] model_end.count((t0, tv[i][j].0, i)) > 0 && 0 <= t0 < src.len()
                        && src[t0 as int] == (i, j);
                assert(tv[i][j].0 != kw);
                assert(lex_lt(kw, tv[i][j].0));
            } else {
                assert(r[i] < tv[i].len());
                assert(p_start[i] < r[i]);
                if p_end[i] < r[i] {
                    let hm = tv[i][p_end[i]].0;
                    assert(window_covered(model_end, tv, src, i, p_end[i]));
                    let t1 = choose|t1: u64|
                        #[trigger] model_end.count((t1, tv[i][p_end[i]].0, i)) > 0 && 0 <= t1
                            < src.len() && src[t1 as int] == (i, p_end[i]);
                    assert(hm != kw);
                    assert(lex_lt(kw, hm));
                    assert(lex_lt(hm, tv[i][j].0));
                    lemma_lex_trans(kw, hm, tv[i][j].0);
                } else {
                    assert(p_end[i] == r[i]);
                    assert(p_start[i] <= r[i] - 1 < p_end[i]);
                    assert(tv[i][r[i] - 1].0 == kw);
                    assert(lex_lt(tv[i][r[i] - 1].0, tv[i][j].0));
                }
            }
        }
    }

    // Every consumed key is present in the grown output.
    assert forall|i: int, j: int|
        #![trigger tv[i][j]]
        0 <= i < tv.len() && 0 <= j < p_end[i] implies out_has_key(vout2, tv[i][j].0) by {
        if j < p_start[i] {
            assert(out_has_key(vout, tv[i][j].0));
            let x = choose|x: int|
                0 <= x < vout.len() && (#[trigger] vout[x]).0 == tv[i][j].0;
            assert(vout2[x] == vout[x]);
            assert((vout2[x]).0 == tv[i][j].0);
        } else {
            assert(tv[i][j].0 == kw);
            assert((vout2[vout.len() as int]).0 == tv[i][j].0);
        }
    }
}

} // verus!


