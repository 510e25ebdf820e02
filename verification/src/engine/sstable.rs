use vstd::prelude::*;

use crate::bytes::{lex_lt, lemma_lex_irrefl, lemma_lex_asym, lemma_lex_trans, tombstone,
    tombstone_bytes, bytes_cmp, bytes_eq, sub_bytes, push_bytes};
use crate::errors::KvError;
use crate::engine::operation::{Operation, view_entries};
use crate::model::{sorted_entries, has_key, map_of, lemma_map_of_last, lemma_sorted_index_map};

verus! {

// ---------------------------------------------------------------------------
// The record format: 4-byte little-endian key length, 4-byte little-endian
// value length, key bytes, value bytes; a tombstone is stored as the literal
// value `TOMBSTONE`. Records are concatenated with no separators, in strictly
// ascending key order.
// ---------------------------------------------------------------------------

/// The bytes stored for an operation's value: the value itself, or the
/// tombstone marker.
pub open spec fn stored_value(op: Option<Seq<u8>>) -> Seq<u8> {
    match op {
        Some(v) => v,
        None => tombstone(),
    }
}

/// An entry the record format can represent faithfully: lengths fit the
/// 32-bit prefixes, and an inserted value is not the reserved marker.
pub open spec fn sst_entry_ok(e: (Seq<u8>, Option<Seq<u8>>)) -> bool {
    &&& e.0.len() <= u32::MAX
    &&& stored_value(e.1).len() <= u32::MAX
    &&& (e.1 matches Some(v) ==> v != tombstone())
}

pub open spec fn entries_ok(s: Seq<(Seq<u8>, Option<Seq<u8>>)>) -> bool {
    forall|i: int| 0 <= i < s.len() ==> sst_entry_ok(#[trigger] s[i])
}

/// Four little-endian bytes of `n`.
pub open spec fn le32(n: int) -> Seq<u8> {
    seq![
        (n % 256) as u8,
        ((n / 256) % 256) as u8,
        ((n / 256 / 256) % 256) as u8,
        ((n / 256 / 256 / 256) % 256) as u8,
    ]
}

/// The number the four bytes at `off` encode.
pub open spec fn dec32(data: Seq<u8>, off: int) -> int {
    data[off] + 256 * (data[off + 1] + 256 * (data[off + 2] + 256 * data[off + 3]))
}

pub proof fn lemma_le32_dec(n: int)
    requires
        0 <= n <= u32::MAX,
    ensures
        dec32(le32(n), 0) == n,
{
    let q1 = n / 256;
    let q2 = q1 / 256;
    let q3 = q2 / 256;
    assert(le32(n)[0] == (n % 256) as u8);
    assert(le32(n)[1] == (q1 % 256) as u8);
    assert(le32(n)[2] == (q2 % 256) as u8);
    assert(le32(n)[3] == (q3 % 256) as u8);
    assert(q3 < 256) by (nonlinear_arith)
        requires n <= 0xffff_ffff && q1 == n / 256 && q2 == q1 / 256 && q3 == q2 / 256 && n >= 0;
    assert(q3 >= 0);
    assert(q3 % 256 == q3);
    assert(n == n % 256 + 256 * q1);
    assert(q1 == q1 % 256 + 256 * q2);
    assert(q2 == q2 % 256 + 256 * q3);
}

/// The length of one record on disk.
pub open spec fn rec_size(e: (Seq<u8>, Option<Seq<u8>>)) -> int {
    8 + e.0.len() as int + stored_value(e.1).len() as int
}

/// The byte image of one record.
pub open spec fn enc_record(e: (Seq<u8>, Option<Seq<u8>>)) -> Seq<u8> {
    le32(e.0.len() as int) + le32(stored_value(e.1).len() as int) + e.0 + stored_value(e.1)
}

/// The byte image of a run of records, back to back.
pub open spec fn enc_entries(s: Seq<(Seq<u8>, Option<Seq<u8>>)>) -> Seq<u8>
    decreases s.len(),
{
    if s.len() == 0 {
        Seq::<u8>::empty()
    } else {
        enc_entries(s.drop_last()) + enc_record(s.last())
    }
}

/// The byte offset at which record `i` starts.
pub open spec fn offset_of(s: Seq<(Seq<u8>, Option<Seq<u8>>)>, i: int) -> int
    decreases i,
{
    if i <= 0 {
        0
    } else {
        offset_of(s, i - 1) + rec_size(s[i - 1])
    }
}

/// Offsets depend only on the entries before them.
pub proof fn lemma_offset_eq(
    s1: Seq<(Seq<u8>, Option<Seq<u8>>)>,
    s2: Seq<(Seq<u8>, Option<Seq<u8>>)>,
    i: int,
)
    requires
        0 <= i <= s1.len(),
        i <= s2.len(),
        forall|j: int| 0 <= j < i ==> s1[j] == s2[j],
    ensures
        offset_of(s1, i) == offset_of(s2, i),
    decreases i,
{
    if i > 0 {
        lemma_offset_eq(s1, s2, i - 1);
    }
}

pub proof fn lemma_offset_mono(s: Seq<(Seq<u8>, Option<Seq<u8>>)>, i: int, j: int)
    requires
        0 <= i <= j,
    ensures
        offset_of(s, i) <= offset_of(s, j),
        offset_of(s, i) >= 0,
        i < j && j <= s.len() ==> offset_of(s, i) + 8 <= offset_of(s, j),
    decreases j,
{
    if j > 0 {
        if i == j {
            lemma_offset_mono(s, i - 1, j - 1);
        } else {
            lemma_offset_mono(s, i, j - 1);
        }
        assert(rec_size(s[j - 1]) >= 8);
    }
}

pub proof fn lemma_enc_len(s: Seq<(Seq<u8>, Option<Seq<u8>>)>)
    ensures
        enc_entries(s).len() == offset_of(s, s.len() as int),
    decreases s.len(),
{
    if s.len() > 0 {
        lemma_enc_len(s.drop_last());
        lemma_offset_eq(s.drop_last(), s, s.len() - 1);
        assert(s.last() == s[s.len() - 1]);
    }
}

pub proof fn lemma_enc_push(s: Seq<(Seq<u8>, Option<Seq<u8>>)>, e: (Seq<u8>, Option<Seq<u8>>))
    ensures
        enc_entries(s.push(e)) == enc_entries(s) + enc_record(e),
{
    assert(s.push(e).drop_last() =~= s);
    assert(s.push(e).last() == e);
}

/// The bytes of record `i` are exactly the subrange between its offset and
/// the next record's.
pub proof fn lemma_enc_split(s: Seq<(Seq<u8>, Option<Seq<u8>>)>, i: int)
    requires
        0 <= i < s.len(),
    ensures
        0 <= offset_of(s, i),
        offset_of(s, i + 1) == offset_of(s, i) + rec_size(s[i]),
        offset_of(s, i + 1) <= enc_entries(s).len(),
        enc_entries(s).subrange(offset_of(s, i), offset_of(s, i + 1)) == enc_record(s[i]),
    decreases s.len(),
{
    lemma_enc_len(s);
    lemma_offset_mono(s, 0, i);
    lemma_offset_mono(s, i + 1, s.len() as int);
    let a = enc_entries(s.drop_last());
    let b = enc_record(s.last());
    if i == s.len() - 1 {
        lemma_enc_len(s.drop_last());
        lemma_offset_eq(s.drop_last(), s, i);
        assert(a.len() == offset_of(s, i));
        assert(s.last() == s[i]);
        assert((a + b).subrange(a.len() as int, (a.len() + b.len()) as int) =~= b);
    } else {
        lemma_enc_split(s.drop_last(), i);
        lemma_offset_eq(s.drop_last(), s, i);
        lemma_offset_eq(s.drop_last(), s, i + 1);
        assert(s.drop_last()[i] == s[i]);
        lemma_enc_len(s.drop_last());
        lemma_offset_mono(s.drop_last(), i + 1, s.drop_last().len() as int);
        assert((a + b).subrange(offset_of(s, i), offset_of(s, i + 1)) =~= a.subrange(
            offset_of(s, i),
            offset_of(s, i + 1),
        ));
    }
}

/// Reading one record at `off`: at the data's end there is cleanly nothing;
/// a length prefix that runs past the end is a corrupt table; otherwise the
/// record's key, operation, and the following offset.
pub open spec fn spec_read_item(data: Seq<u8>, off: int) -> Result<
    Option<(Seq<u8>, Option<Seq<u8>>, int)>,
    (),
> {
    if off == data.len() {
        Ok(None)
    } else if !(0 <= off && off + 8 <= data.len()) {
        Err(())
    } else {
        let klen = dec32(data, off);
        let vlen = dec32(data, off + 4);
        if off + 8 + klen + vlen > data.len() {
            Err(())
        } else {
            let k = data.subrange(off + 8, off + 8 + klen);
            let sv = data.subrange(off + 8 + klen, off + 8 + klen + vlen);
            let op = if sv == tombstone() {
                None
            } else {
                Some(sv)
            };
            Ok(Some((k, op, off + 8 + klen + vlen)))
        }
    }
}

/// On a well-formed run, reading at a record boundary yields that record and
/// the next boundary; reading at the end yields nothing.
#[verifier::rlimit(100)]
pub proof fn lemma_read_at_boundary(s: Seq<(Seq<u8>, Option<Seq<u8>>)>, i: int)
    requires
        entries_ok(s),
        0 <= i <= s.len(),
    ensures
        i < s.len() ==> spec_read_item(enc_entries(s), offset_of(s, i)) == Ok::<
            Option<(Seq<u8>, Option<Seq<u8>>, int)>,
            (),
        >(Some((s[i].0, s[i].1, offset_of(s, i + 1)))),
        i == s.len() ==> spec_read_item(enc_entries(s), offset_of(s, i)) == Ok::<
            Option<(Seq<u8>, Option<Seq<u8>>, int)>,
            (),
        >(None),
{
    let data = enc_entries(s);
    lemma_enc_len(s);
    if i == s.len() {
        lemma_offset_eq(s, s, i);
    } else {
        lemma_enc_split(s, i);
        lemma_offset_mono(s, i + 1, s.len() as int);
        let off = offset_of(s, i);
        let e = s[i];
        let rec = enc_record(e);
        let klen = e.0.len() as int;
        let vlen = stored_value(e.1).len() as int;
        assert(off + 8 <= data.len());
        assert(data.subrange(off, off + rec_size(e)) == rec);
        assert forall|j: int| 0 <= j < rec_size(e) implies data[off + j] == rec[j] by {
            assert(data.subrange(off, off + rec_size(e))[j] == data[off + j]);
        }
        assert(dec32(data, off) == klen) by {
            lemma_le32_dec(klen);
            assert(rec[0] == le32(klen)[0]);
            assert(rec[1] == le32(klen)[1]);
            assert(rec[2] == le32(klen)[2]);
            assert(rec[3] == le32(klen)[3]);
            assert(data[off] == rec[0]);
            assert(data[off + 1] == rec[1]);
            assert(data[off + 2] == rec[2]);
            assert(data[off + 3] == rec[3]);
        }
        assert(dec32(data, off + 4) == vlen) by {
            lemma_le32_dec(vlen);
            assert(rec[4] == le32(vlen)[0]);
            assert(rec[5] == le32(vlen)[1]);
            assert(rec[6] == le32(vlen)[2]);
            assert(rec[7] == le32(vlen)[3]);
            assert(data[off + 4] == rec[4]);
            assert(data[off + 5] == rec[5]);
            assert(data[off + 6] == rec[6]);
            assert(data[off + 7] == rec[7]);
        }
        assert(data.subrange(off + 8, off + 8 + klen) =~= e.0) by {
            assert(forall|j: int| 0 <= j < klen ==> rec[8 + j] == e.0[j]);
        }
        assert(data.subrange(off + 8 + klen, off + 8 + klen + vlen) =~= stored_value(e.1)) by {
            assert(forall|j: int|
                0 <= j < vlen ==> rec[8 + klen + j] == stored_value(e.1)[j]);
        }
        match e.1 {
            Some(v) => {
                assert(stored_value(e.1) != tombstone());
            },
            None => {
                assert(stored_value(e.1) == tombstone());
            },
        }
    }
}

/// Reads the four-byte little-endian number at `off`.
fn read_u32(data: &Vec<u8>, off: usize) -> (n: u32)
    requires
        off + 4 <= data@.len(),
    ensures
        n as int == dec32(data@, off as int),
{
    let dlen = data.len();
    assert(off + 4 <= dlen);
    let b0 = data[off] as u32;
    let b1 = data[off + 1] as u32;
    let b2 = data[off + 2] as u32;
    let b3 = data[off + 3] as u32;
    assert(b3 < 256 && b2 < 256 && b1 < 256 && b0 < 256);
    let n = ((b3 * 256 + b2) * 256 + b1) * 256 + b0;
    n
}

/// Appends the four little-endian bytes of `n`.
fn push_u32(dst: &mut Vec<u8>, n: u32)
    ensures
        final(dst)@ == old(dst)@ + le32(n as int),
{
    dst.push((n % 256) as u8);
    dst.push((n / 256 % 256) as u8);
    dst.push((n / 256 / 256 % 256) as u8);
    dst.push((n / 256 / 256 / 256 % 256) as u8);
    proof {
        assert(dst@ =~= old(dst)@ + le32(n as int));
    }
}

} // verus!

use crate::bytes::clone_bytes;

verus! {

/// An immutable-in-spirit sorted run: the byte image of its records, a
/// sparse in-memory index from keys to record offsets, and the stride at
/// which the index is populated. The ghost `entries` are the records the
/// image encodes.
pub struct SSTable {
    data: Vec<u8>,
    index: Vec<(Vec<u8>, usize)>,
    index_every_n_entries: usize,
    entries: Ghost<Seq<(Seq<u8>, Option<Seq<u8>>)>>,
}

/// The sparse index a freshly built run carries: the key and starting offset
/// of every stride-th record (stride 10), positions 0, 10, 20, and so on.
pub open spec fn stride_index_of(s: Seq<(Seq<u8>, Option<Seq<u8>>)>) -> Seq<(Seq<u8>, int)> {
    Seq::new(((s.len() + 9) / 10) as nat, |j: int| (s[10 * j].0, offset_of(s, 10 * j)))
}

/// A sparse-index entry is some record's key paired with that record's
/// starting offset.
pub open spec fn index_entry_ok(
    entries: Seq<(Seq<u8>, Option<Seq<u8>>)>,
    ie: (Seq<u8>, int),
) -> bool {
    exists|i: int| 0 <= i < entries.len() && entries[i].0 == ie.0 && ie.1 == offset_of(entries, i)
}

/// Every key already in the run sorts before `k`.
pub open spec fn all_keys_lt(s: Seq<(Seq<u8>, Option<Seq<u8>>)>, k: Seq<u8>) -> bool {
    forall|i: int| 0 <= i < s.len() ==> lex_lt(#[trigger] s[i].0, k)
}

impl SSTable {
    /// The records this table holds, in ascending key order.
    pub closed spec fn entries(self) -> Seq<(Seq<u8>, Option<Seq<u8>>)> {
        self.entries@
    }

    /// The on-disk byte image.
    pub closed spec fn data(self) -> Seq<u8> {
        self.data@
    }

    /// The sparse index: key and starting byte offset of selected records.
    pub closed spec fn index(self) -> Seq<(Seq<u8>, int)> {
        self.index@.map(|j: int, e: (Vec<u8>, usize)| (e.0@, e.1 as int))
    }

    pub closed spec fn stride(self) -> int {
        self.index_every_n_entries as int
    }

    /// The map this table denotes.
    pub open spec fn as_map(self) -> Map<Seq<u8>, Option<Seq<u8>>> {
        map_of(self.entries())
    }

    /// Well-formedness: the bytes encode exactly the entries; keys strictly
    /// ascend; every entry is representable; and the sparse index points at
    /// true record boundaries, its keys strictly ascending.
    pub open spec fn wf(self) -> bool {
        &&& self.data() == enc_entries(self.entries())
        &&& sorted_entries(self.entries())
        &&& entries_ok(self.entries())
        &&& forall|j: int|
            0 <= j < self.index().len() ==> index_entry_ok(
                self.entries(),
                #[trigger] self.index()[j],
            )
        &&& forall|p: int, q: int|
            0 <= p < q < self.index().len() ==> lex_lt(self.index()[p].0, self.index()[q].0)
    }

    /// A fresh, empty table with the default index stride.
    pub fn new() -> (t: SSTable)
        ensures
            t.wf(),
            t.entries() =~= Seq::<(Seq<u8>, Option<Seq<u8>>)>::empty(),
            t.index() =~= Seq::<(Seq<u8>, int)>::empty(),
            t.stride() == 10,
    {
        let t = SSTable {
            data: Vec::new(),
            index: Vec::new(),
            index_every_n_entries: 10,
            entries: Ghost(Seq::empty()),
        };
        proof {
            assert(enc_entries(t.entries@) =~= Seq::<u8>::empty());
        }
        t
    }

    /// The stride at which the sparse index is populated.
    pub fn index_stride(&self) -> (n: usize)
        ensures
            n as int == self.stride(),
    {
        self.index_every_n_entries
    }

    /// The raw bytes, for a caller that persists the run.
    pub fn bytes(&self) -> (r: &Vec<u8>)
        ensures
            r@ == self.data(),
    {
        &self.data
    }

    /// Appends one record, which must sort after everything already written.
    /// Returns the bytes written: 8 plus key length plus stored value length.
    pub fn write(&mut self, key: &Vec<u8>, operation: &Operation) -> (n: usize)
        requires
            old(self).wf(),
            sst_entry_ok((key@, operation@)),
            all_keys_lt(old(self).entries(), key@),
        ensures
            final(self).wf(),
            final(self).entries() == old(self).entries().push((key@, operation@)),
            final(self).data() == old(self).data() + enc_record((key@, operation@)),
            final(self).index() == old(self).index(),
            final(self).stride() == old(self).stride(),
            n == rec_size((key@, operation@)),
    {
        let ghost pre = self.entries@;
        let ghost e = (key@, operation@);
        let start = self.data.len();
        let klen: u32 = key.len() as u32;
        let vlen: u32 = match operation {
            Operation::Insert(v) => v.len() as u32,
            Operation::Delete => 9u32,
        };
        push_u32(&mut self.data, klen);
        push_u32(&mut self.data, vlen);
        push_bytes(&mut self.data, key);
        match operation {
            Operation::Insert(v) => push_bytes(&mut self.data, v),
            Operation::Delete => {
                let t = tombstone_bytes();
                push_bytes(&mut self.data, &t);
            },
        }
        proof {
            self.entries@ = pre.push(e);
            assert(self.data@ =~= old(self).data() + enc_record(e));
            lemma_enc_push(pre, e);
            assert forall|x: int, y: int|
                0 <= x < y < self.entries@.len() implies lex_lt(
                self.entries@[x].0,
                self.entries@[y].0,
            ) by {
                if y < pre.len() {
                    assert(pre[x] == self.entries@[x] && pre[y] == self.entries@[y]);
                }
            }
            assert forall|j: int|
                0 <= j < self.index().len() implies index_entry_ok(
                self.entries@,
                #[trigger] self.index()[j],
            ) by {
                assert(self.index() =~= old(self).index());
                assert(index_entry_ok(pre, self.index()[j]));
                let i = choose|i: int|
                    0 <= i < pre.len() && pre[i].0 == self.index()[j].0 && self.index()[j].1
                        == offset_of(pre, i);
                lemma_offset_eq(pre, pre.push(e), i);
                assert(self.entries@[i] == pre[i]);
            }
            let flen = self.data@.len();
            assert(flen == start + rec_size(e));
        }
        self.data.len() - start
    }

    /// Records one sparse-index entry; `offset` must be the true boundary of
    /// the record carrying `key`, and `key` must sort after every key the
    /// index already holds.
    pub fn write_to_index(&mut self, key: &Vec<u8>, offset: usize)
        requires
            old(self).wf(),
            index_entry_ok(old(self).entries(), (key@, offset as int)),
            forall|j: int|
                0 <= j < old(self).index().len() ==> lex_lt(
                    #[trigger] old(self).index()[j].0,
                    key@,
                ),
        ensures
            final(self).wf(),
            final(self).entries() == old(self).entries(),
            final(self).data() == old(self).data(),
            final(self).stride() == old(self).stride(),
            final(self).index() == old(self).index().push((key@, offset as int)),
    {
        let k = clone_bytes(key);
        self.index.push((k, offset));
        proof {
            assert(self.index() =~= old(self).index().push((key@, offset as int)));
            assert forall|p: int, q: int|
                0 <= p < q < self.index().len() implies lex_lt(
                self.index()[p].0,
                self.index()[q].0,
            ) by {
                if q < old(self).index().len() {
                    assert(self.index()[p] == old(self).index()[p]);
                    assert(self.index()[q] == old(self).index()[q]);
                }
            }
        }
    }

    /// Writes all pairs, in the strictly ascending key order the caller
    /// supplies, into this still-empty table; returns each record's starting
    /// byte offset, aligned with the input.
    pub fn batch_write(&mut self, pairs: &Vec<(Vec<u8>, Operation)>) -> (offsets: Vec<usize>)
        requires
            old(self).wf(),
            old(self).entries().len() == 0,
            sorted_entries(view_entries(pairs@)),
            entries_ok(view_entries(pairs@)),
        ensures
            final(self).wf(),
            final(self).entries() == view_entries(pairs@),
            final(self).index() == old(self).index(),
            final(self).stride() == old(self).stride(),
            offsets@.len() == pairs@.len(),
            forall|i: int|
                0 <= i < pairs@.len() ==> #[trigger] offsets@[i] as int == offset_of(
                    view_entries(pairs@),
                    i,
                ),
    {
        let ghost vp = view_entries(pairs@);
        let mut offsets: Vec<usize> = Vec::new();
        let mut i: usize = 0;
        proof {
            assert(vp.take(0) =~= Seq::<(Seq<u8>, Option<Seq<u8>>)>::empty());
        }
        while i < pairs.len()
            invariant
                0 <= i <= pairs@.len(),
                vp == view_entries(pairs@),
                sorted_entries(vp),
                entries_ok(vp),
                self.wf(),
                self.entries() == vp.take(i as int),
                self.index() == old(self).index(),
                self.stride() == old(self).stride(),
                offsets@.len() == i,
                forall|j: int|
                    0 <= j < i ==> #[trigger] offsets@[j] as int == offset_of(vp, j),
            decreases pairs@.len() - i,
        {
            proof {
                lemma_enc_len(self.entries());
                lemma_offset_eq(vp.take(i as int), vp, i as int);
                assert(vp[i as int] == (pairs@[i as int].0@, pairs@[i as int].1@));
                assert forall|x: int|
                    0 <= x < self.entries().len() implies lex_lt(
                    #[trigger] self.entries()[x].0,
                    pairs@[i as int].0@,
                ) by {
                    assert(self.entries()[x] == vp[x]);
                    assert(lex_lt(vp[x].0, vp[i as int].0));
                }
            }
            offsets.push(self.data.len());
            let p = &pairs[i];
            self.write(&p.0, &p.1);
            proof {
                assert(self.entries() =~= vp.take(i + 1));
            }
            i = i + 1;
        }
        proof {
            assert(vp.take(vp.len() as int) =~= vp);
        }
        offsets
    }

    /// Reads the record starting at `offset`: cleanly nothing at the data's
    /// end, the record and the following offset at a record boundary, and a
    /// corrupt-table error where a length prefix overruns the data.
    pub fn read_item_at(&self, offset: usize) -> (r: Result<
        Option<(Vec<u8>, usize, Operation)>,
        KvError,
    >)
        ensures
            match spec_read_item(self.data(), offset as int) {
                Ok(Some((k, op, next))) => r matches Ok(Some(t)) && t.0@ == k && t.1 == next
                    && t.2@ == op,
                Ok(None) => r == Ok::<Option<(Vec<u8>, usize, Operation)>, KvError>(None),
                Err(()) => r == Err::<Option<(Vec<u8>, usize, Operation)>, KvError>(
                    KvError::CorruptSSTable,
                ),
            },
    {
        read_item(&self.data, offset)
    }

    /// All records in file order, decoded from offset zero.
    #[verifier::rlimit(100)]
    pub fn read_all(&self) -> (r: Vec<(Vec<u8>, Operation)>)
        requires
            self.wf(),
        ensures
            view_entries(r@) == self.entries(),
    {
        let s = Ghost(self.entries());
        let mut out: Vec<(Vec<u8>, Operation)> = Vec::new();
        let mut cur: usize = 0;
        let ghost mut m: int = 0;
        proof {
            assert(view_entries(out@) =~= s@.take(0));
        }
        loop
            invariant
                self.wf(),
                s@ == self.entries(),
                0 <= m <= s@.len(),
                cur as int == offset_of(s@, m),
                view_entries(out@) == s@.take(m),
            ensures
                view_entries(out@) == s@,
            decreases s@.len() - m,
        {
            proof {
                lemma_read_at_boundary(s@, m);
            }
            match self.read_item_at(cur) {
                Ok(None) => {
                    proof {
                        if m < s@.len() {
                            assert(false);
                        }
                        assert(s@.take(m) =~= s@);
                    }
                    break;
                },
                Ok(Some(t)) => {
                    proof {
                        if m == s@.len() {
                            assert(false);
                        }
                    }
                    let ghost prev_out = out@;
                    let (k, next, op) = t;
                    out.push((k, op));
                    cur = next;
                    proof {
                        assert((s@[m].0, s@[m].1) == s@[m]);
                        assert(k@ == s@[m].0 && op@ == s@[m].1);
                        assert(view_entries(out@) =~= view_entries(prev_out).push((k@, op@)));
                        assert(s@.take(m + 1) =~= s@.take(m).push(s@[m]));
                        m = m + 1;
                    }
                },
                Err(_) => {
                    proof {
                        assert(false);
                    }
                    break;
                },
            }
        }
        out
    }

    /// Reads up to `n` consecutive records starting at `offset`; returns the
    /// records read and the offset after them.
    #[verifier::rlimit(100)]
    pub fn batch_read(&self, n: usize, offset: usize) -> (r: Result<
        (Vec<(Vec<u8>, Operation)>, usize),
        KvError,
    >)
        ensures
            match spec_batch_read(self.data(), offset as int, n as int) {
                Ok((recs, end)) => r matches Ok(p) && view_entries(p.0@) == recs && p.1 as int
                    == end,
                Err(()) => r == Err::<(Vec<(Vec<u8>, Operation)>, usize), KvError>(
                    KvError::CorruptSSTable,
                ),
            },
    {
        let mut out: Vec<(Vec<u8>, Operation)> = Vec::new();
        let mut cur: usize = offset;
        let mut i: usize = 0;
        proof {
            assert(view_entries(out@) =~= Seq::<(Seq<u8>, Option<Seq<u8>>)>::empty());
            if spec_batch_read(self.data(), offset as int, n as int) is Ok {
                let (rest, end) = spec_batch_read(self.data(), offset as int, n as int)->Ok_0;
                assert(view_entries(out@) + rest =~= rest);
            }
        }
        loop
            invariant
                0 <= i <= n,
                spec_batch_read(self.data(), offset as int, n as int) == match spec_batch_read(
                    self.data(),
                    cur as int,
                    n - i,
                ) {
                    Ok((rest, end)) => Ok::<(Seq<(Seq<u8>, Option<Seq<u8>>)>, int), ()>((
                        view_entries(out@) + rest,
                        end,
                    )),
                    Err(()) => Err::<(Seq<(Seq<u8>, Option<Seq<u8>>)>, int), ()>(()),
                },
            ensures
                spec_batch_read(self.data(), offset as int, n as int) == Ok::<
                    (Seq<(Seq<u8>, Option<Seq<u8>>)>, int),
                    (),
                >((view_entries(out@), cur as int)),
            decreases n - i,
        {
            if i == n {
                proof {
                    assert(view_entries(out@) + Seq::<(Seq<u8>, Option<Seq<u8>>)>::empty()
                        =~= view_entries(out@));
                }
                break;
            }
            match self.read_item_at(cur) {
                Err(_) => {
                    return Err(KvError::CorruptSSTable);
                },
                Ok(None) => {
                    proof {
                        assert(view_entries(out@) + Seq::<(Seq<u8>, Option<Seq<u8>>)>::empty()
                            =~= view_entries(out@));
                    }
                    break;
                },
                Ok(Some(t)) => {
                    let ghost e = (t.0@, t.2@);
                    let ghost prev_out = out@;
                    let (k, next, op) = t;
                    out.push((k, op));
                    proof {
                        assert(view_entries(out@) =~= view_entries(prev_out) + seq![e]);
                        if spec_batch_read(self.data(), next as int, n - i - 1) is Ok {
                            let (rest, end) = spec_batch_read(
                                self.data(),
                                next as int,
                                n - i - 1,
                            )->Ok_0;
                            assert(view_entries(prev_out) + (seq![e] + rest) =~= (
                            view_entries(prev_out) + seq![e]) + rest);
                        }
                    }
                    cur = next;
                    i = i + 1;
                },
            }
        }
        Ok((out, cur))
    }

    /// Point lookup: binary-searches the sparse index for the closest key at
    /// or before `target` (an empty index, or a target before every indexed
    /// key, scans from offset zero), then scans forward record by record.
    #[verifier::rlimit(100)]
    pub fn find_key(&self, target: &Vec<u8>) -> (r: Option<Operation>)
        requires
            self.wf(),
        ensures
            match r {
                Some(op) => self.as_map().contains_key(target@) && op@ == self.as_map()[target@],
                None => !self.as_map().contains_key(target@),
            },
    {
        let s = Ghost(self.entries());
        proof {
            lemma_map_of_last(s@, target@);
        }
        let mut lo: usize = 0;
        let mut hi: usize = self.index.len();
        while lo < hi
            invariant
                0 <= lo <= hi <= self.index().len(),
                self.wf(),
                forall|j: int|
                    0 <= j < lo ==> !lex_lt(target@, #[trigger] self.index()[j].0),
                forall|j: int|
                    hi <= j < self.index().len() ==> lex_lt(target@, #[trigger] self.index()[j].0),
            decreases hi - lo,
        {
            let mid = lo + (hi - lo) / 2;
            match bytes_cmp(&self.index[mid].0, target) {
                core::cmp::Ordering::Greater => {
                    proof {
                        assert forall|j: int|
                            mid <= j < self.index().len() implies lex_lt(
                            target@,
                            #[trigger] self.index()[j].0,
                        ) by {
                            if j > mid {
                                assert(lex_lt(self.index()[mid as int].0, self.index()[j].0));
                                lemma_lex_trans(
                                    target@,
                                    self.index()[mid as int].0,
                                    self.index()[j].0,
                                );
                            }
                        }
                    }
                    hi = mid;
                },
                core::cmp::Ordering::Less => {
                    proof {
                        lemma_lex_asym(self.index()[mid as int].0, target@);
                        assert forall|j: int| 0 <= j < mid + 1 implies !lex_lt(
                            target@,
                            #[trigger] self.index()[j].0,
                        ) by {
                            if j < mid {
                                if lex_lt(target@, self.index()[j].0) {
                                    lemma_lex_trans(
                                        target@,
                                        self.index()[j].0,
                                        self.index()[mid as int].0,
                                    );
                                }
                            }
                        }
                    }
                    lo = mid + 1;
                },
                core::cmp::Ordering::Equal => {
                    proof {
                        lemma_lex_irrefl(target@);
                        assert forall|j: int| 0 <= j < mid + 1 implies !lex_lt(
                            target@,
                            #[trigger] self.index()[j].0,
                        ) by {
                            if j < mid {
                                if lex_lt(target@, self.index()[j].0) {
                                    lemma_lex_asym(self.index()[j].0, self.index()[mid as int].0);
                                }
                            }
                        }
                    }
                    lo = mid + 1;
                },
            }
        }
        let mut cur: usize = 0;
        let ghost mut m: int = 0;
        if lo > 0 {
            cur = self.index[lo - 1].1;
            proof {
                let ie = self.index()[lo - 1];
                let i0 = choose|i: int|
                    0 <= i < s@.len() && s@[i].0 == ie.0 && ie.1 == offset_of(s@, i);
                m = i0;
                assert(!lex_lt(target@, ie.0));
                assert forall|x: int| 0 <= x < m implies lex_lt(#[trigger] s@[x].0, target@) by {
                    assert(lex_lt(s@[x].0, s@[i0].0));
                    crate::bytes::lemma_lex_connex(ie.0, target@);
                    if ie.0 != target@ {
                        lemma_lex_trans(s@[x].0, ie.0, target@);
                    }
                }
            }
        }
        loop
            invariant
                s@ == self.entries(),
                self.data() == enc_entries(s@),
                sorted_entries(s@),
                entries_ok(s@),
                0 <= m <= s@.len(),
                cur as int == offset_of(s@, m),
                forall|x: int| 0 <= x < m ==> lex_lt(#[trigger] s@[x].0, target@),
            decreases s@.len() - m,
        {
            proof {
                lemma_read_at_boundary(s@, m);
                lemma_offset_mono(s@, m, s@.len() as int);
            }
            match self.read_item_at(cur) {
                Ok(None) => {
                    proof {
                        if m < s@.len() {
                            assert(false);
                        }
                        lemma_map_of_last(s@, target@);
                        if has_key(s@, target@) {
                            let i = choose|i: int| 0 <= i < s@.len() && s@[i].0 == target@;
                            lemma_lex_irrefl(target@);
                        }
                    }
                    return None;
                },
                Ok(Some(t)) => {
                    proof {
                        if m == s@.len() {
                            assert(false);
                        }
                    }
                    match bytes_cmp(&t.0, target) {
                        core::cmp::Ordering::Equal => {
                            proof {
                                lemma_sorted_index_map(s@, m);
                            }
                            return Some(t.2);
                        },
                        core::cmp::Ordering::Less => {
                            cur = t.1;
                            proof {
                                m = m + 1;
                            }
                        },
                        core::cmp::Ordering::Greater => {
                            proof {
                                lemma_map_of_last(s@, target@);
                                if has_key(s@, target@) {
                                    let i = choose|i: int|
                                        0 <= i < s@.len() && s@[i].0 == target@;
                                    if i < m {
                                        lemma_lex_irrefl(target@);
                                    } else if i == m {
                                        lemma_lex_irrefl(target@);
                                    } else {
                                        assert(lex_lt(s@[m].0, s@[i].0));
                                        lemma_lex_trans(target@, s@[m].0, s@[i].0);
                                        lemma_lex_irrefl(target@);
                                    }
                                }
                            }
                            return None;
                        },
                    }
                },
                Err(_) => {
                    proof {
                        assert(false);
                    }
                    return None;
                },
            }
        }
    }
}

/// Reading up to `n` records from `off`: the records in order and the offset
/// after them, stopping cleanly at the data's end, or a decode error.
pub open spec fn spec_batch_read(data: Seq<u8>, off: int, n: int) -> Result<
    (Seq<(Seq<u8>, Option<Seq<u8>>)>, int),
    (),
>
    decreases n,
{
    if n <= 0 {
        Ok((Seq::<(Seq<u8>, Option<Seq<u8>>)>::empty(), off))
    } else {
        match spec_read_item(data, off) {
            Err(()) => Err(()),
            Ok(None) => Ok((Seq::<(Seq<u8>, Option<Seq<u8>>)>::empty(), off)),
            Ok(Some((k, op, next))) => match spec_batch_read(data, next, n - 1) {
                Err(()) => Err(()),
                Ok((rest, end)) => Ok((seq![(k, op)] + rest, end)),
            },
        }
    }
}

/// On a well-formed run, a batched read at record boundary `r` returns the
/// next `n` records (or all that remain) and the boundary after them.
#[verifier::rlimit(100)]
pub proof fn lemma_batch_read_wf(s: Seq<(Seq<u8>, Option<Seq<u8>>)>, r: int, n: int)
    requires
        entries_ok(s),
        0 <= r <= s.len(),
        n >= 0,
    ensures
        ({
            let stop = if r + n <= s.len() { r + n } else { s.len() as int };
            spec_batch_read(enc_entries(s), offset_of(s, r), n) == Ok::<
                (Seq<(Seq<u8>, Option<Seq<u8>>)>, int),
                (),
            >((s.subrange(r, stop), offset_of(s, stop)))
        }),
    decreases n,
{
    let stop = if r + n <= s.len() { r + n } else { s.len() as int };
    lemma_read_at_boundary(s, r);
    if n == 0 {
        assert(s.subrange(r, r) =~= Seq::<(Seq<u8>, Option<Seq<u8>>)>::empty());
    } else if r == s.len() {
        assert(s.subrange(r, stop) =~= Seq::<(Seq<u8>, Option<Seq<u8>>)>::empty());
    } else {
        lemma_batch_read_wf(s, r + 1, n - 1);
        assert((s[r].0, s[r].1) == s[r]);
        assert(seq![s[r]] + s.subrange(r + 1, stop) =~= s.subrange(r, stop));
    }
}

} // verus!


verus! {

/// Reads the record starting at `offset` of a raw image, exactly as
/// `spec_read_item` describes.
pub fn read_item(data: &Vec<u8>, offset: usize) -> (r: Result<
    Option<(Vec<u8>, usize, Operation)>,
    KvError,
>)
    ensures
        match spec_read_item(data@, offset as int) {
            Ok(Some((k, op, next))) => r matches Ok(Some(t)) && t.0@ == k && t.1 == next
                && t.2@ == op,
            Ok(None) => r == Ok::<Option<(Vec<u8>, usize, Operation)>, KvError>(None),
            Err(()) => r == Err::<Option<(Vec<u8>, usize, Operation)>, KvError>(
                KvError::CorruptSSTable,
            ),
        },
{
    let dlen = data.len();
    if offset == dlen {
        return Ok(None);
    }
    if offset > dlen || dlen - offset < 8 {
        return Err(KvError::CorruptSSTable);
    }
    let klen = read_u32(data, offset) as usize;
    let vlen = read_u32(data, offset + 4) as usize;
    let rem = dlen - offset - 8;
    if klen > rem || vlen > rem - klen {
        return Err(KvError::CorruptSSTable);
    }
    let k = sub_bytes(data, offset + 8, offset + 8 + klen);
    let sv = sub_bytes(data, offset + 8 + klen, offset + 8 + klen + vlen);
    let next = offset + 8 + klen + vlen;
    let tomb = tombstone_bytes();
    if bytes_eq(&sv, &tomb) {
        Ok(Some((k, next, Operation::Delete)))
    } else {
        Ok(Some((k, next, Operation::Insert(sv))))
    }
}

/// The four bytes at `off` are recovered from the number they encode.
proof fn lemma_le32_of_dec(data: Seq<u8>, off: int)
    requires
        0 <= off,
        off + 4 <= data.len(),
    ensures
        le32(dec32(data, off)) == data.subrange(off, off + 4),
        0 <= dec32(data, off) <= u32::MAX,
{
    let b0 = data[off] as int;
    let b1 = data[off + 1] as int;
    let b2 = data[off + 2] as int;
    let b3 = data[off + 3] as int;
    let n = dec32(data, off);
    assert(n == b0 + 256 * (b1 + 256 * (b2 + 256 * b3)));
    assert(0 <= b0 < 256 && 0 <= b1 < 256 && 0 <= b2 < 256 && 0 <= b3 < 256);
    assert(n % 256 == b0 && n / 256 == b1 + 256 * (b2 + 256 * b3)) by (nonlinear_arith)
        requires
            n == b0 + 256 * (b1 + 256 * (b2 + 256 * b3)),
            0 <= b0 < 256,
            0 <= b1 && 0 <= b2 && 0 <= b3,
    ;
    let q1 = n / 256;
    assert(q1 % 256 == b1 && q1 / 256 == b2 + 256 * b3) by (nonlinear_arith)
        requires
            q1 == b1 + 256 * (b2 + 256 * b3),
            0 <= b1 < 256,
            0 <= b2 && 0 <= b3,
    ;
    let q2 = q1 / 256;
    assert(q2 % 256 == b2 && q2 / 256 == b3) by (nonlinear_arith)
        requires
            q2 == b2 + 256 * b3,
            0 <= b2 < 256,
            0 <= b3,
    ;
    assert(q2 / 256 % 256 == b3);
    assert(le32(n) =~= data.subrange(off, off + 4));
}

/// A successful decode reads back exactly one encoded record: the bytes
/// between `off` and the returned next offset are that record's image, and
/// the record is representable.
pub proof fn lemma_read_item_exact(data: Seq<u8>, off: int)
    requires
        spec_read_item(data, off) matches Ok(Some(t)),
    ensures
        ({
            let (k, op, next) = spec_read_item(data, off)->Ok_0->Some_0;
            &&& off + 8 <= next <= data.len()
            &&& next == off + rec_size((k, op))
            &&& data.subrange(off, next) == enc_record((k, op))
            &&& sst_entry_ok((k, op))
        }),
{
    let (k, op, next) = spec_read_item(data, off)->Ok_0->Some_0;
    let klen = dec32(data, off);
    let vlen = dec32(data, off + 4);
    lemma_le32_of_dec(data, off);
    lemma_le32_of_dec(data, off + 4);
    let sv = data.subrange(off + 8 + klen, off + 8 + klen + vlen);
    assert(k.len() == klen && stored_value(op).len() == vlen);
    assert(stored_value(op) == sv) by {
        if sv == tombstone() {
            assert(op is None);
        }
    }
    assert(data.subrange(off, next) =~= le32(klen) + le32(vlen) + k + sv) by {
        assert(forall|j: int|
            0 <= j < 4 ==> #[trigger] data.subrange(off, off + 4)[j] == data[off + j]);
        assert(forall|j: int|
            0 <= j < 4 ==> #[trigger] data.subrange(off + 4, off + 8)[j] == data[off + 4 + j]);
        assert(le32(klen) == data.subrange(off, off + 4));
        assert(le32(vlen) == data.subrange(off + 4, off + 8));
    }
}

} // verus!

verus! {

/// A byte image is a faithful run: it encodes some strictly sorted,
/// representable record sequence.
pub open spec fn valid_image(data: Seq<u8>) -> bool {
    exists|es: Seq<(Seq<u8>, Option<Seq<u8>>)>|
        #[trigger] enc_entries(es) == data && sorted_entries(es) && entries_ok(es)
}

/// Every faithful source of the image starts with exactly the records
/// decoded so far.
pub open spec fn image_prefix(data: Seq<u8>, ve: Seq<(Seq<u8>, Option<Seq<u8>>)>) -> bool {
    forall|es: Seq<(Seq<u8>, Option<Seq<u8>>)>|
        #[trigger] enc_entries(es) == data && sorted_entries(es) && entries_ok(es)
            ==> ve.len() <= es.len() && ve == es.take(ve.len() as int)
}

/// The sparse index built so far: true boundaries of the decoded records,
/// keys strictly ascending, all drawn from the first `count` records.
pub open spec fn index_inv(
    ve: Seq<(Seq<u8>, Option<Seq<u8>>)>,
    ix: Seq<(Seq<u8>, int)>,
    count: int,
) -> bool {
    &&& forall|j: int|
        0 <= j < ix.len() ==> index_entry_ok(ve, #[trigger] ix[j])
    &&& forall|p2: int, q2: int| 0 <= p2 < q2 < ix.len() ==> lex_lt(ix[p2].0, ix[q2].0)
    &&& forall|j: int|
        0 <= j < ix.len() ==> crate::key_from_prefix(ve, (#[trigger] ix[j]).0, count)
}

/// The view of an executable sparse index.
pub open spec fn index_view(ix: Seq<(Vec<u8>, usize)>) -> Seq<(Seq<u8>, int)> {
    ix.map(|j: int, e: (Vec<u8>, usize)| (e.0@, e.1 as int))
}

/// Any faithful source of the image must continue with exactly the record
/// just decoded.
proof fn lemma_image_step(
    data: Seq<u8>,
    ve: Seq<(Seq<u8>, Option<Seq<u8>>)>,
    e: (Seq<u8>, Option<Seq<u8>>),
    cur: int,
    next: int,
)
    requires
        image_prefix(data, ve),
        cur == offset_of(ve, ve.len() as int),
        spec_read_item(data, cur) == Ok::<Option<(Seq<u8>, Option<Seq<u8>>, int)>, ()>(
            Some((e.0, e.1, next)),
        ),
    ensures
        image_prefix(data, ve.push(e)),
{
    let count = ve.len() as int;
    assert forall|es: Seq<(Seq<u8>, Option<Seq<u8>>)>|
        #[trigger] enc_entries(es) == data && sorted_entries(es) && entries_ok(es) implies count
        + 1 <= es.len() && ve.push(e) == es.take(count + 1) by {
        lemma_enc_len(es);
        lemma_offset_eq(es.take(count), es, count);
        lemma_read_at_boundary(es, count);
        if count == es.len() {
            assert(spec_read_item(data, cur) == Ok::<
                Option<(Seq<u8>, Option<Seq<u8>>, int)>,
                (),
            >(None));
        }
        assert(count < es.len());
        assert(es[count].0 == e.0 && es[count].1 == e.1);
        assert((es[count].0, es[count].1) == es[count]);
        assert(ve.push(e) =~= es.take(count + 1)) by {
            assert(forall|x: int|
                0 <= x < count ==> #[trigger] es.take(count + 1)[x] == es.take(count)[x]);
            assert(es.take(count + 1)[count] == es[count]);
        }
        assert(ve.push(e).len() == count + 1);
    }
}

/// A decode failure at the frontier refutes every faithful source.
proof fn lemma_image_err(data: Seq<u8>, ve: Seq<(Seq<u8>, Option<Seq<u8>>)>, cur: int)
    requires
        image_prefix(data, ve),
        cur == offset_of(ve, ve.len() as int),
        spec_read_item(data, cur) is Err,
    ensures
        !valid_image(data),
{
    if valid_image(data) {
        let es = choose|es: Seq<(Seq<u8>, Option<Seq<u8>>)>|
            #[trigger] enc_entries(es) == data && sorted_entries(es) && entries_ok(es);
        lemma_enc_len(es);
        lemma_offset_eq(es.take(ve.len() as int), es, ve.len() as int);
        lemma_read_at_boundary(es, ve.len() as int);
    }
}

/// An out-of-order record at the frontier refutes every faithful source.
proof fn lemma_image_unsorted(
    data: Seq<u8>,
    ve: Seq<(Seq<u8>, Option<Seq<u8>>)>,
    e: (Seq<u8>, Option<Seq<u8>>),
    cur: int,
    next: int,
)
    requires
        image_prefix(data, ve),
        cur == offset_of(ve, ve.len() as int),
        spec_read_item(data, cur) == Ok::<Option<(Seq<u8>, Option<Seq<u8>>, int)>, ()>(
            Some((e.0, e.1, next)),
        ),
        ve.len() > 0,
        !lex_lt(ve.last().0, e.0),
    ensures
        !valid_image(data),
{
    let count = ve.len() as int;
    if valid_image(data) {
        let es = choose|es: Seq<(Seq<u8>, Option<Seq<u8>>)>|
            #[trigger] enc_entries(es) == data && sorted_entries(es) && entries_ok(es);
        lemma_enc_len(es);
        lemma_offset_eq(es.take(count), es, count);
        lemma_read_at_boundary(es, count);
        if count == es.len() {
            assert(spec_read_item(data, cur) == Ok::<
                Option<(Seq<u8>, Option<Seq<u8>>, int)>,
                (),
            >(None));
        }
        assert(es[count].0 == e.0);
        assert(es[count - 1] == ve.last()) by {
            assert(es.take(count)[count - 1] == es[count - 1]);
        }
        assert(lex_lt(es[count - 1].0, es[count].0));
    }
}

/// Appending a record whose key sorts after the run's last keeps it sorted.
proof fn lemma_sorted_append(
    ve: Seq<(Seq<u8>, Option<Seq<u8>>)>,
    e: (Seq<u8>, Option<Seq<u8>>),
)
    requires
        sorted_entries(ve),
        ve.len() > 0 ==> lex_lt(ve.last().0, e.0),
    ensures
        sorted_entries(ve.push(e)),
{
    assert forall|x: int| 0 <= x < ve.len() implies lex_lt((#[trigger] ve[x]).0, e.0) by {
        if x < ve.len() - 1 {
            assert(lex_lt(ve[x].0, ve.last().0));
            lemma_lex_trans(ve[x].0, ve.last().0, e.0);
        }
    }
    assert forall|x: int, y: int|
        0 <= x < y < ve.push(e).len() implies lex_lt(ve.push(e)[x].0, ve.push(e)[y].0) by {
        if y < ve.len() {
            assert(ve.push(e)[x] == ve[x] && ve.push(e)[y] == ve[y]);
        } else {
            assert(ve.push(e)[x] == ve[x] && ve.push(e)[y] == e);
        }
    }
}

impl SSTable {
    /// Adopts an existing byte image, as read back from storage: decodes it
    /// record by record, checks the strictly ascending key order, and
    /// rebuilds the sparse index from scratch at every stride-th record. A
    /// truncated record (a length prefix overrunning the data) or an
    /// out-of-order image is rejected as corrupt.
    #[verifier::rlimit(100)]
    pub fn from_data(data: Vec<u8>) -> (r: Result<SSTable, KvError>)
        ensures
            valid_image(data@) ==> r is Ok,
            r matches Ok(t) ==> t.wf() && t.data() == data@ && t.stride() == 10,
    {
        let dlen = data.len();
        let mut index: Vec<(Vec<u8>, usize)> = Vec::new();
        let mut cur: usize = 0;
        let mut count: usize = 0;
        let mut lastk: Option<Vec<u8>> = None;
        let ghost mut ve: Seq<(Seq<u8>, Option<Seq<u8>>)> = Seq::empty();
        proof {
            assert(enc_entries(ve) =~= data@.take(0));
            assert forall|es: Seq<(Seq<u8>, Option<Seq<u8>>)>|
                #[trigger] enc_entries(es) == data@ && sorted_entries(es) && entries_ok(es)
                    implies ve.len() <= es.len() && ve == es.take(ve.len() as int) by {
                assert(ve =~= es.take(0));
            }
        }
        loop
            invariant_except_break
                0 <= count <= cur <= data@.len(),
                data@.len() <= usize::MAX,
                enc_entries(ve) == data@.take(cur as int),
                sorted_entries(ve),
                entries_ok(ve),
                ve.len() == count,
                cur as int == offset_of(ve, count as int),
                match lastk {
                    Some(pk) => ve.len() > 0 && pk@ == ve.last().0,
                    None => ve.len() == 0,
                },
                index_inv(ve, index_view(index@), count as int),
                image_prefix(data@, ve),
            ensures
                enc_entries(ve) == data@,
                sorted_entries(ve),
                entries_ok(ve),
                index_inv(ve, index_view(index@), count as int),
            decreases data@.len() - cur,
        {
            let step = read_item(&data, cur);
            match step {
                Ok(None) => {
                    proof {
                        assert(cur == data@.len());
                        assert(data@.take(cur as int) =~= data@);
                    }
                    break;
                },
                Err(_) => {
                    proof {
                        lemma_image_err(data@, ve, cur as int);
                    }
                    return Err(KvError::CorruptSSTable);
                },
                Ok(Some(t)) => {
                    let (k, next, op) = t;
                    let ghost e = (k@, op@);
                    proof {
                        lemma_read_item_exact(data@, cur as int);
                    }
                    let in_order = match &lastk {
                        None => true,
                        Some(pk) => matches!(
                            bytes_cmp(pk, &k),
                            core::cmp::Ordering::Less
                        ),
                    };
                    if !in_order {
                        proof {
                            lemma_image_unsorted(data@, ve, e, cur as int, next as int);
                        }
                        return Err(KvError::CorruptSSTable);
                    }
                    proof {
                        assert(data@.take(next as int) =~= data@.take(cur as int)
                            + data@.subrange(cur as int, next as int));
                        lemma_enc_push(ve, e);
                        lemma_sorted_append(ve, e);
                        lemma_image_step(data@, ve, e, cur as int, next as int);
                        let ghost ve2 = ve.push(e);
                        assert forall|j: int|
                            0 <= j < index_view(index@).len() implies index_entry_ok(
                            ve2,
                            #[trigger] index_view(index@)[j],
                        ) by {
                            assert(index_entry_ok(ve, index_view(index@)[j]));
                            let i0 = choose|i0: int|
                                0 <= i0 < ve.len() && ve[i0].0 == index_view(index@)[j].0
                                    && index_view(index@)[j].1 == offset_of(ve, i0);
                            lemma_offset_eq(ve, ve2, i0);
                            assert(ve2[i0] == ve[i0]);
                        }
                        lemma_offset_eq(ve, ve2, count as int);
                        ve = ve2;
                    }
                    if count % 10 == 0 {
                        proof {
                            assert(ve[count as int].0 == k@ && cur as int == offset_of(
                                ve,
                                count as int,
                            ));
                            assert forall|j: int|
                                0 <= j < index_view(index@).len() implies lex_lt(
                                (#[trigger] index_view(index@)[j]).0,
                                k@,
                            ) by {
                                assert(crate::key_from_prefix(
                                    ve,
                                    index_view(index@)[j].0,
                                    count as int,
                                ));
                                let p2 = choose|p2: int|
                                    0 <= p2 < count && (#[trigger] ve[p2]).0 == index_view(
                                        index@,
                                    )[j].0;
                                assert(lex_lt(ve[p2].0, ve[count as int].0));
                            }
                        }
                        let kc = clone_bytes(&k);
                        let ghost pre_index = index_view(index@);
                        index.push((kc, cur));
                        proof {
                            let ghost ix2 = index_view(index@);
                            assert(ix2 =~= pre_index.push((k@, cur as int)));
                            assert forall|p2: int, q2: int|
                                0 <= p2 < q2 < ix2.len() implies lex_lt(
                                ix2[p2].0,
                                ix2[q2].0,
                            ) by {
                                if q2 < pre_index.len() {
                                    assert(ix2[p2] == pre_index[p2]);
                                    assert(ix2[q2] == pre_index[q2]);
                                }
                            }
                            assert forall|j: int|
                                0 <= j < ix2.len() implies crate::key_from_prefix(
                                ve,
                                (#[trigger] ix2[j]).0,
                                count + 1,
                            ) by {
                                if j < pre_index.len() {
                                    assert(ix2[j] == pre_index[j]);
                                    crate::lemma_key_from_prefix_mono(
                                        ve,
                                        pre_index[j].0,
                                        count as int,
                                        count + 1,
                                    );
                                } else {
                                    assert(ix2[j].0 == ve[count as int].0);
                                    assert((#[trigger] ve[count as int]).0 == ix2[j].0);
                                }
                            }
                        }
                    } else {
                        proof {
                            assert forall|j: int|
                                0 <= j < index_view(index@).len() implies crate::key_from_prefix(
                                ve,
                                (#[trigger] index_view(index@)[j]).0,
                                count + 1,
                            ) by {
                                crate::lemma_key_from_prefix_mono(
                                    ve,
                                    index_view(index@)[j].0,
                                    count as int,
                                    count + 1,
                                );
                            }
                        }
                    }
                    lastk = Some(k);
                    cur = next;
                    count = count + 1;
                },
            }
        }
        let t = SSTable { data, index, index_every_n_entries: 10, entries: Ghost(ve) };
        proof {
            assert(t.index() =~= index_view(t.index@));
        }
        Ok(t)
    }
}

} // verus!

verus! {

/// The records of the longest well-formed prefix of a byte image, reading
/// from `off`: decoding stops at the data's end or at the first record whose
/// length prefixes overrun the data, and the remaining bytes count as absent.
pub open spec fn spec_read_prefix(data: Seq<u8>, off: int) -> Seq<(Seq<u8>, Option<Seq<u8>>)>
    decreases data.len() - off,
{
    let r = spec_read_item(data, off);
    if r is Ok && r->Ok_0 is Some {
        let (k, op, next) = r->Ok_0->Some_0;
        if off < next <= data.len() {
            seq![(k, op)] + spec_read_prefix(data, next)
        } else {
            Seq::<(Seq<u8>, Option<Seq<u8>>)>::empty()
        }
    } else {
        Seq::<(Seq<u8>, Option<Seq<u8>>)>::empty()
    }
}

/// On an intact run the tolerant read recovers everything: from boundary `r`
/// it yields exactly the records from `r` on.
pub proof fn lemma_read_prefix_complete(s: Seq<(Seq<u8>, Option<Seq<u8>>)>, r: int)
    requires
        entries_ok(s),
        0 <= r <= s.len(),
    ensures
        spec_read_prefix(enc_entries(s), offset_of(s, r)) == s.skip(r),
    decreases s.len() - r,
{
    lemma_read_at_boundary(s, r);
    lemma_enc_len(s);
    if r == s.len() {
        assert(s.skip(r) =~= Seq::<(Seq<u8>, Option<Seq<u8>>)>::empty());
    } else {
        lemma_offset_mono(s, r, r + 1);
        lemma_offset_mono(s, r + 1, s.len() as int);
        lemma_read_prefix_complete(s, r + 1);
        assert((s[r].0, s[r].1) == s[r]);
        assert(seq![s[r]] + s.skip(r + 1) =~= s.skip(r));
    }
}

/// Reads every whole record of a possibly truncated byte image, in file
/// order: decoding stops at the first record cut short and treats the bytes
/// after it as absent.
pub fn read_prefix(data: &Vec<u8>) -> (r: Vec<(Vec<u8>, Operation)>)
    ensures
        view_entries(r@) == spec_read_prefix(data@, 0),
{
    let mut out: Vec<(Vec<u8>, Operation)> = Vec::new();
    let mut cur: usize = 0;
    proof {
        assert(view_entries(out@) =~= Seq::<(Seq<u8>, Option<Seq<u8>>)>::empty());
        assert(view_entries(out@) + spec_read_prefix(data@, 0) =~= spec_read_prefix(data@, 0));
    }
    loop
        invariant
            0 <= cur <= data@.len(),
            spec_read_prefix(data@, 0) == view_entries(out@) + spec_read_prefix(
                data@,
                cur as int,
            ),
        ensures
            spec_read_prefix(data@, 0) == view_entries(out@),
        decreases data@.len() - cur,
    {
        match read_item(data, cur) {
            Ok(Some(t)) => {
                let ghost prev_out = out@;
                let (k, next, op) = t;
                out.push((k, op));
                proof {
                    let e = (k@, op@);
                    assert(spec_read_prefix(data@, cur as int) =~= seq![e]
                        + spec_read_prefix(data@, next as int));
                    assert(view_entries(out@) =~= view_entries(prev_out) + seq![e]);
                    assert(view_entries(prev_out) + (seq![e] + spec_read_prefix(
                        data@,
                        next as int,
                    )) =~= (view_entries(prev_out) + seq![e]) + spec_read_prefix(
                        data@,
                        next as int,
                    ));
                }
                cur = next;
            },
            Ok(None) => {
                proof {
                    assert(spec_read_prefix(data@, cur as int)
                        =~= Seq::<(Seq<u8>, Option<Seq<u8>>)>::empty());
                    assert(view_entries(out@) + Seq::<(Seq<u8>, Option<Seq<u8>>)>::empty()
                        =~= view_entries(out@));
                }
                break;
            },
            Err(_) => {
                proof {
                    assert(spec_read_prefix(data@, cur as int)
                        =~= Seq::<(Seq<u8>, Option<Seq<u8>>)>::empty());
                    assert(view_entries(out@) + Seq::<(Seq<u8>, Option<Seq<u8>>)>::empty()
                        =~= view_entries(out@));
                }
                break;
            },
        }
    }
    out
}

} // verus!
