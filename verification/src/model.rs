use vstd::prelude::*;

use crate::bytes::{lex_lt, lemma_lex_irrefl, lemma_lex_asym};

verus! {

// An entry pairs a key with an operation: `Some(v)` is an inserted value,
// `None` is a tombstone. Sequences of entries model the MemTable's store,
// an SSTable's records, and a WAL's decoded records alike.

/// Bytes an entry accounts for: key length plus value length (tombstones
/// count zero value bytes).
pub open spec fn op_size(op: Option<Seq<u8>>) -> nat {
    match op {
        Some(v) => v.len(),
        None => 0nat,
    }
}

/// The bytes a map's entry for `k` accounts for: key length plus value
/// length when bound, zero when unbound.
pub open spec fn stored_weight(m: Map<Seq<u8>, Option<Seq<u8>>>, k: Seq<u8>) -> int {
    if m.contains_key(k) {
        k.len() + op_size(m[k]) as int
    } else {
        0
    }
}

/// Key/operation pairs in strictly ascending key order (hence no duplicates).
pub open spec fn sorted_entries(s: Seq<(Seq<u8>, Option<Seq<u8>>)>) -> bool {
    forall|i: int, j: int| 0 <= i < j < s.len() ==> lex_lt(s[i].0, s[j].0)
}

/// Some entry carries the key `k`.
pub open spec fn has_key(s: Seq<(Seq<u8>, Option<Seq<u8>>)>, k: Seq<u8>) -> bool {
    exists|i: int| 0 <= i < s.len() && s[i].0 == k
}

/// Applies the entries in order to a map: each entry overwrites the binding
/// of its key, a tombstone being recorded as `None` rather than removed.
pub open spec fn apply_records(
    m: Map<Seq<u8>, Option<Seq<u8>>>,
    recs: Seq<(Seq<u8>, Option<Seq<u8>>)>,
) -> Map<Seq<u8>, Option<Seq<u8>>>
    decreases recs.len(),
{
    if recs.len() == 0 {
        m
    } else {
        apply_records(m, recs.drop_last()).insert(recs.last().0, recs.last().1)
    }
}

/// The map an entry sequence denotes: later entries win.
pub open spec fn map_of(s: Seq<(Seq<u8>, Option<Seq<u8>>)>) -> Map<Seq<u8>, Option<Seq<u8>>> {
    apply_records(Map::empty(), s)
}

/// The operation of the last entry carrying `k`, if any.
pub open spec fn last_op(s: Seq<(Seq<u8>, Option<Seq<u8>>)>, k: Seq<u8>) -> Option<
    Option<Seq<u8>>,
>
    decreases s.len(),
{
    if s.len() == 0 {
        None
    } else if s.last().0 == k {
        Some(s.last().1)
    } else {
        last_op(s.drop_last(), k)
    }
}

pub proof fn lemma_last_op_has_key(s: Seq<(Seq<u8>, Option<Seq<u8>>)>, k: Seq<u8>)
    ensures
        last_op(s, k) is Some <==> has_key(s, k),
    decreases s.len(),
{
    if s.len() > 0 {
        lemma_last_op_has_key(s.drop_last(), k);
        if s.last().0 == k {
            assert(s[s.len() - 1].0 == k);
        } else if has_key(s, k) {
            let i = choose|i: int| 0 <= i < s.len() && s[i].0 == k;
            assert(s.drop_last()[i] == s[i]);
        } else {
            if has_key(s.drop_last(), k) {
                let i = choose|i: int| 0 <= i < s.drop_last().len() && s.drop_last()[i].0 == k;
                assert(s[i].0 == k);
            }
        }
    }
}

/// The heart of the write model: applying a record sequence leaves, for each
/// key, the operation of the last record that named it; keys no record names
/// keep their prior binding.
pub proof fn lemma_apply_records_last(
    m: Map<Seq<u8>, Option<Seq<u8>>>,
    recs: Seq<(Seq<u8>, Option<Seq<u8>>)>,
    k: Seq<u8>,
)
    ensures
        apply_records(m, recs).contains_key(k) <==> (has_key(recs, k) || m.contains_key(k)),
        last_op(recs, k) matches Some(op) ==> apply_records(m, recs)[k] == op,
        last_op(recs, k) is None && m.contains_key(k) ==> apply_records(m, recs)[k] == m[k],
    decreases recs.len(),
{
    lemma_last_op_has_key(recs, k);
    if recs.len() > 0 {
        lemma_apply_records_last(m, recs.drop_last(), k);
        lemma_last_op_has_key(recs.drop_last(), k);
        if recs.last().0 != k {
            if has_key(recs, k) {
                let i = choose|i: int| 0 <= i < recs.len() && recs[i].0 == k;
                assert(recs.drop_last()[i] == recs[i]);
            }
        }
    }
}

pub proof fn lemma_map_of_last(s: Seq<(Seq<u8>, Option<Seq<u8>>)>, k: Seq<u8>)
    ensures
        map_of(s).contains_key(k) <==> has_key(s, k),
        last_op(s, k) matches Some(op) ==> map_of(s)[k] == op,
{
    lemma_apply_records_last(Map::empty(), s, k);
}

/// In a sorted sequence each key appears once, so the entry at `i` is the
/// binding the denoted map holds for its key.
pub proof fn lemma_sorted_index_map(s: Seq<(Seq<u8>, Option<Seq<u8>>)>, i: int)
    requires
        sorted_entries(s),
        0 <= i < s.len(),
    ensures
        map_of(s).contains_key(s[i].0),
        map_of(s)[s[i].0] == s[i].1,
        last_op(s, s[i].0) == Some(s[i].1),
    decreases s.len(),
{
    lemma_map_of_last(s, s[i].0);
    if i == s.len() - 1 {
    } else {
        assert(lex_lt(s[i].0, s.last().0));
        lemma_lex_irrefl(s[i].0);
        assert(s.last().0 != s[i].0);
        assert(s.drop_last()[i] == s[i]);
        assert(sorted_entries(s.drop_last())) by {
            assert(forall|x: int, y: int|
                0 <= x < y < s.drop_last().len() ==> s.drop_last()[x] == s[x]
                    && s.drop_last()[y] == s[y]);
        }
        lemma_sorted_index_map(s.drop_last(), i);
    }
}

/// Dropping the last entry of a duplicate-free sequence removes exactly its
/// key's binding.
pub proof fn lemma_map_of_drop_last(s: Seq<(Seq<u8>, Option<Seq<u8>>)>)
    requires
        sorted_entries(s),
        s.len() > 0,
    ensures
        !has_key(s.drop_last(), s.last().0),
        map_of(s.drop_last()) == map_of(s).remove(s.last().0),
{
    if has_key(s.drop_last(), s.last().0) {
        let i = choose|i: int| 0 <= i < s.drop_last().len() && s.drop_last()[i].0 == s.last().0;
        assert(s[i] == s.drop_last()[i]);
        assert(lex_lt(s[i].0, s.last().0));
        lemma_lex_irrefl(s.last().0);
    }
    lemma_map_of_last(s.drop_last(), s.last().0);
    assert(map_of(s.drop_last()) =~= map_of(s).remove(s.last().0));
}

/// Sorted entry sequences that denote the same map are the same sequence.
pub proof fn lemma_sorted_maps_equal(
    s1: Seq<(Seq<u8>, Option<Seq<u8>>)>,
    s2: Seq<(Seq<u8>, Option<Seq<u8>>)>,
)
    requires
        sorted_entries(s1),
        sorted_entries(s2),
        map_of(s1) == map_of(s2),
    ensures
        s1 == s2,
    decreases s1.len(),
{
    if s1.len() == 0 && s2.len() == 0 {
        assert(s1 =~= s2);
    } else if s1.len() == 0 {
        lemma_sorted_index_map(s2, s2.len() - 1);
        lemma_map_of_last(s1, s2.last().0);
    } else if s2.len() == 0 {
        lemma_sorted_index_map(s1, s1.len() - 1);
        lemma_map_of_last(s2, s1.last().0);
    } else {
        let k1 = s1.last().0;
        let k2 = s2.last().0;
        lemma_sorted_index_map(s1, s1.len() - 1);
        lemma_sorted_index_map(s2, s2.len() - 1);
        lemma_map_of_last(s2, k1);
        lemma_map_of_last(s1, k2);
        assert(has_key(s2, k1));
        assert(has_key(s1, k2));
        let i2 = choose|i: int| 0 <= i < s2.len() && s2[i].0 == k1;
        let i1 = choose|i: int| 0 <= i < s1.len() && s1[i].0 == k2;
        if i2 < s2.len() - 1 {
            assert(lex_lt(k1, k2));
        }
        if i1 < s1.len() - 1 {
            assert(lex_lt(k2, k1));
        }
        if k1 != k2 {
            lemma_lex_asym(k1, k2);
            lemma_lex_asym(k2, k1);
            assert(false);
        }
        assert(s1.last().1 == map_of(s1)[k1]);
        assert(s2.last().1 == map_of(s2)[k1]);
        lemma_map_of_drop_last(s1);
        lemma_map_of_drop_last(s2);
        assert(sorted_entries(s1.drop_last())) by {
            assert(forall|x: int| 0 <= x < s1.len() - 1 ==> s1.drop_last()[x] == s1[x]);
        }
        assert(sorted_entries(s2.drop_last())) by {
            assert(forall|x: int| 0 <= x < s2.len() - 1 ==> s2.drop_last()[x] == s2[x]);
        }
        lemma_sorted_maps_equal(s1.drop_last(), s2.drop_last());
        assert(s1.len() == s2.len());
        assert(s1.last() == s2.last());
        assert forall|x: int| 0 <= x < s1.len() implies s1[x] == s2[x] by {
            if x < s1.len() - 1 {
                assert(s1.drop_last()[x] == s1[x]);
                assert(s2.drop_last()[x] == s2[x]);
                assert(s1.drop_last() == s2.drop_last());
            }
        }
        assert(s1 =~= s2);
    }
}

/// Inserting a fresh key's entry at any position adds exactly its binding.
pub proof fn lemma_map_of_insert(
    s: Seq<(Seq<u8>, Option<Seq<u8>>)>,
    idx: int,
    e: (Seq<u8>, Option<Seq<u8>>),
)
    requires
        0 <= idx <= s.len(),
        !has_key(s, e.0),
    ensures
        map_of(s.insert(idx, e)) == map_of(s).insert(e.0, e.1),
    decreases s.len(),
{
    let t = s.insert(idx, e);
    if idx == s.len() {
        assert(t.drop_last() =~= s);
        assert(t.last() == e);
    } else {
        assert(t.last() == s.last());
        assert(t.drop_last() =~= s.drop_last().insert(idx, e));
        if has_key(s.drop_last(), e.0) {
            let i = choose|i: int| 0 <= i < s.drop_last().len() && s.drop_last()[i].0 == e.0;
            assert(s[i] == s.drop_last()[i]);
        }
        lemma_map_of_insert(s.drop_last(), idx, e);
        assert(s.last().0 != e.0) by {
            assert(s[s.len() - 1].0 == s.last().0);
        }
        assert(map_of(t) =~= map_of(s).insert(e.0, e.1));
    }
}

/// Overwriting the entry at `idx` with one carrying the same key updates
/// exactly that key's binding.
pub proof fn lemma_map_of_update(
    s: Seq<(Seq<u8>, Option<Seq<u8>>)>,
    idx: int,
    e: (Seq<u8>, Option<Seq<u8>>),
)
    requires
        sorted_entries(s),
        0 <= idx < s.len(),
        s[idx].0 == e.0,
    ensures
        map_of(s.update(idx, e)) == map_of(s).insert(e.0, e.1),
    decreases s.len(),
{
    let t = s.update(idx, e);
    if idx == s.len() - 1 {
        assert(t.drop_last() =~= s.drop_last());
        assert(t.last() == e);
    } else {
        assert(t.last() == s.last());
        assert(t.drop_last() =~= s.drop_last().update(idx, e));
        assert(sorted_entries(s.drop_last())) by {
            assert(forall|x: int| 0 <= x < s.len() - 1 ==> s.drop_last()[x] == s[x]);
        }
        assert(s.drop_last()[idx] == s[idx]);
        lemma_map_of_update(s.drop_last(), idx, e);
        assert(s.last().0 != e.0) by {
            assert(lex_lt(s[idx].0, s.last().0));
            lemma_lex_irrefl(s.last().0);
        }
        assert(map_of(t) =~= map_of(s).insert(e.0, e.1));
    }
}

/// Total bytes of an entry sequence: key length plus stored value length,
/// summed over the entries.
pub open spec fn entries_size(s: Seq<(Seq<u8>, Option<Seq<u8>>)>) -> int
    decreases s.len(),
{
    if s.len() == 0 {
        0
    } else {
        entries_size(s.drop_last()) + s.last().0.len() + op_size(s.last().1)
    }
}

pub proof fn lemma_entries_size_insert(
    s: Seq<(Seq<u8>, Option<Seq<u8>>)>,
    idx: int,
    e: (Seq<u8>, Option<Seq<u8>>),
)
    requires
        0 <= idx <= s.len(),
    ensures
        entries_size(s.insert(idx, e)) == entries_size(s) + e.0.len() + op_size(e.1),
    decreases s.len(),
{
    let t = s.insert(idx, e);
    if idx == s.len() {
        assert(t.drop_last() =~= s);
        assert(t.last() == e);
    } else {
        assert(t.last() == s.last());
        assert(t.drop_last() =~= s.drop_last().insert(idx, e));
        lemma_entries_size_insert(s.drop_last(), idx, e);
    }
}

pub proof fn lemma_entries_size_update(
    s: Seq<(Seq<u8>, Option<Seq<u8>>)>,
    idx: int,
    e: (Seq<u8>, Option<Seq<u8>>),
)
    requires
        0 <= idx < s.len(),
    ensures
        entries_size(s.update(idx, e)) == entries_size(s) - s[idx].0.len() - op_size(s[idx].1)
            + e.0.len() + op_size(e.1),
    decreases s.len(),
{
    let t = s.update(idx, e);
    if idx == s.len() - 1 {
        assert(t.drop_last() =~= s.drop_last());
        assert(t.last() == e);
    } else {
        assert(t.last() == s.last());
        assert(t.drop_last() =~= s.drop_last().update(idx, e));
        assert(s.drop_last()[idx] == s[idx]);
        lemma_entries_size_update(s.drop_last(), idx, e);
    }
}

pub proof fn lemma_entries_size_nonneg(s: Seq<(Seq<u8>, Option<Seq<u8>>)>)
    ensures
        entries_size(s) >= 0,
    decreases s.len(),
{
    if s.len() > 0 {
        lemma_entries_size_nonneg(s.drop_last());
    }
}

pub proof fn lemma_entries_size_take_step(s: Seq<(Seq<u8>, Option<Seq<u8>>)>, i: int)
    requires
        0 <= i < s.len(),
    ensures
        entries_size(s.take(i + 1)) == entries_size(s.take(i)) + s[i].0.len() + op_size(s[i].1),
{
    assert(s.take(i + 1).drop_last() =~= s.take(i));
    assert(s.take(i + 1).last() == s[i]);
}

pub proof fn lemma_entries_size_cons(
    e: (Seq<u8>, Option<Seq<u8>>),
    rest: Seq<(Seq<u8>, Option<Seq<u8>>)>,
)
    ensures
        entries_size(seq![e] + rest) == e.0.len() + op_size(e.1) + entries_size(rest),
    decreases rest.len(),
{
    if rest.len() == 0 {
        assert(seq![e] + rest =~= seq![e]);
        assert(seq![e].drop_last() =~= Seq::<(Seq<u8>, Option<Seq<u8>>)>::empty());
        assert(entries_size(Seq::<(Seq<u8>, Option<Seq<u8>>)>::empty()) == 0);
    } else {
        assert((seq![e] + rest).drop_last() =~= seq![e] + rest.drop_last());
        assert((seq![e] + rest).last() == rest.last());
        lemma_entries_size_cons(e, rest.drop_last());
    }
}

/// Point lookup across a list of entry sequences, newest (last) first.
pub open spec fn sstables_lookup(
    tables: Seq<Seq<(Seq<u8>, Option<Seq<u8>>)>>,
    k: Seq<u8>,
) -> Option<Option<Seq<u8>>>
    decreases tables.len(),
{
    if tables.len() == 0 {
        None
    } else if has_key(tables.last(), k) {
        Some(map_of(tables.last())[k])
    } else {
        sstables_lookup(tables.drop_last(), k)
    }
}

/// Recency: when `k` appears in several tables, the lookup answers with the
/// binding of the newest (highest-indexed) table that holds it.
pub proof fn lemma_sstables_lookup_recency(
    tables: Seq<Seq<(Seq<u8>, Option<Seq<u8>>)>>,
    k: Seq<u8>,
    i: int,
)
    requires
        0 <= i < tables.len(),
        has_key(tables[i], k),
        forall|j: int| i < j < tables.len() ==> !has_key(tables[j], k),
    ensures
        sstables_lookup(tables, k) == Some(map_of(tables[i])[k]),
    decreases tables.len(),
{
    if i == tables.len() - 1 {
        assert(tables.last() == tables[i]);
    } else {
        assert(!has_key(tables.last(), k));
        assert(tables.drop_last()[i] == tables[i]);
        lemma_sstables_lookup_recency(tables.drop_last(), k, i);
    }
}

/// Appending a table makes it the first consulted.
pub proof fn lemma_sstables_lookup_push(
    tables: Seq<Seq<(Seq<u8>, Option<Seq<u8>>)>>,
    t: Seq<(Seq<u8>, Option<Seq<u8>>)>,
    k: Seq<u8>,
)
    ensures
        sstables_lookup(tables.push(t), k) == if has_key(t, k) {
            Some(map_of(t)[k])
        } else {
            sstables_lookup(tables, k)
        },
{
    assert(tables.push(t).drop_last() =~= tables);
    assert(tables.push(t).last() == t);
}

/// A lookup answers exactly when some table holds the key.
pub proof fn lemma_sstables_lookup_some(
    tables: Seq<Seq<(Seq<u8>, Option<Seq<u8>>)>>,
    k: Seq<u8>,
)
    ensures
        sstables_lookup(tables, k) is Some <==> exists|i: int|
            0 <= i < tables.len() && has_key(#[trigger] tables[i], k),
    decreases tables.len(),
{
    if tables.len() > 0 {
        lemma_sstables_lookup_some(tables.drop_last(), k);
        if has_key(tables.last(), k) {
            assert(tables[tables.len() - 1] == tables.last());
        } else if sstables_lookup(tables.drop_last(), k) is Some {
            let i = choose|i: int|
                0 <= i < tables.drop_last().len() && has_key(#[trigger] tables.drop_last()[i], k);
            assert(has_key(tables[i], k));
        } else {
            if exists|i: int| 0 <= i < tables.len() && has_key(#[trigger] tables[i], k) {
                let i = choose|i: int| 0 <= i < tables.len() && has_key(#[trigger] tables[i], k);
                if i < tables.len() - 1 {
                    assert(has_key(tables.drop_last()[i], k));
                } else {
                    assert(tables[i] == tables.last());
                }
            }
        }
    }
}

/// Idempotence of compaction on a single run: a sorted run whose point
/// lookups agree with those of a single sorted source run is that source run,
/// record for record.
pub proof fn lemma_compact_single_idempotent(
    t: Seq<(Seq<u8>, Option<Seq<u8>>)>,
    m: Seq<(Seq<u8>, Option<Seq<u8>>)>,
)
    requires
        sorted_entries(t),
        sorted_entries(m),
        forall|k: Seq<u8>|
            #[trigger] sstables_lookup(seq![m], k) == sstables_lookup(seq![t], k),
    ensures
        m == t,
{
    assert forall|k: Seq<u8>|
        #![trigger map_of(m).contains_key(k)]
        #![trigger map_of(m).dom().contains(k)]
        map_of(m).contains_key(k) == map_of(t).contains_key(k) && (map_of(m).contains_key(k)
            ==> map_of(m)[k] == map_of(t)[k]) by {
        lemma_map_of_last(m, k);
        lemma_map_of_last(t, k);
        assert(seq![m].drop_last() =~= Seq::<Seq<(Seq<u8>, Option<Seq<u8>>)>>::empty());
        assert(seq![t].drop_last() =~= Seq::<Seq<(Seq<u8>, Option<Seq<u8>>)>>::empty());
        assert(seq![m].last() == m);
        assert(seq![t].last() == t);
        assert(sstables_lookup(Seq::<Seq<(Seq<u8>, Option<Seq<u8>>)>>::empty(), k) is None);
        assert(sstables_lookup(seq![m], k) == sstables_lookup(seq![t], k));
        if has_key(m, k) {
            assert(sstables_lookup(seq![m], k) == Some(map_of(m)[k]));
        }
        if has_key(t, k) {
            assert(sstables_lookup(seq![t], k) == Some(map_of(t)[k]));
        }
    }
    assert(map_of(m) =~= map_of(t));
    lemma_sorted_maps_equal(m, t);
}

} // verus!
