use vstd::prelude::*;

use crate::bytes::{
    valid_key, valid_value, valid_op, push_bytes, sub_bytes, find_byte_from, first_occ,
    lemma_first_occ_is, bytes_eq, check_key, check_value,
};
use crate::errors::KvError;
use crate::engine::operation::{Operation, view_entries};

verus! {

/// A record the log may carry: a valid key, and either a valid inserted
/// value or a tombstone.
pub open spec fn wf_record(e: (Seq<u8>, Option<Seq<u8>>)) -> bool {
    valid_key(e.0) && valid_op(e.1)
}

/// The ASCII tag `INSERT`.
pub open spec fn insert_tag() -> Seq<u8> {
    seq![73u8, 78u8, 83u8, 69u8, 82u8, 84u8]
}

/// The ASCII tag `DELETE`.
pub open spec fn delete_tag() -> Seq<u8> {
    seq![68u8, 69u8, 76u8, 69u8, 84u8, 69u8]
}

/// One log line without its terminator: `INSERT\t<key>\t<value>` or
/// `DELETE\t<key>`.
pub open spec fn wal_line(e: (Seq<u8>, Option<Seq<u8>>)) -> Seq<u8> {
    match e.1 {
        Some(v) => insert_tag() + seq![9u8] + e.0 + seq![9u8] + v,
        None => delete_tag() + seq![9u8] + e.0,
    }
}

/// One full log record: the line followed by a newline.
pub open spec fn wal_record(e: (Seq<u8>, Option<Seq<u8>>)) -> Seq<u8> {
    wal_line(e) + seq![10u8]
}

/// The byte image of a whole log: the records back to back.
pub open spec fn wal_encode(recs: Seq<(Seq<u8>, Option<Seq<u8>>)>) -> Seq<u8>
    decreases recs.len(),
{
    if recs.len() == 0 {
        Seq::<u8>::empty()
    } else {
        wal_record(recs.first()) + wal_encode(recs.drop_first())
    }
}

/// Decodes one terminated line (without its newline). Lines that do not
/// match either record form, or whose key or value the engine could never
/// have written, decode to nothing.
pub open spec fn parse_line(line: Seq<u8>) -> Option<(Seq<u8>, Option<Seq<u8>>)> {
    if line.len() >= 7 && line.take(7) == insert_tag().push(9u8) {
        let rest = line.skip(7);
        let t = first_occ(rest, 9u8);
        if 0 <= t < rest.len() {
            let k = rest.take(t);
            let v = rest.skip(t + 1);
            if valid_key(k) && valid_value(v) {
                Some((k, Some(v)))
            } else {
                None
            }
        } else {
            None
        }
    } else if line.len() >= 7 && line.take(7) == delete_tag().push(9u8) {
        let k = line.skip(7);
        if valid_key(k) {
            Some((k, None))
        } else {
            None
        }
    } else {
        None
    }
}

/// Decodes a whole log image. A trailing fragment without a terminator is a
/// partial record cut short and is discarded; a terminated line that does not
/// decode marks the log corrupt (`None`).
pub open spec fn parse_wal(data: Seq<u8>) -> Option<Seq<(Seq<u8>, Option<Seq<u8>>)>>
    decreases data.len(),
{
    if data.len() == 0 {
        Some(Seq::<(Seq<u8>, Option<Seq<u8>>)>::empty())
    } else {
        let i = first_occ(data, 10u8);
        if !(0 <= i < data.len()) {
            Some(Seq::<(Seq<u8>, Option<Seq<u8>>)>::empty())
        } else {
            match parse_line(data.take(i)) {
                None => None,
                Some(e) => match parse_wal(data.skip(i + 1)) {
                    None => None,
                    Some(rest) => Some(seq![e] + rest),
                },
            }
        }
    }
}

pub proof fn lemma_wal_line_nl_free(e: (Seq<u8>, Option<Seq<u8>>))
    requires
        wf_record(e),
    ensures
        forall|j: int| 0 <= j < wal_line(e).len() ==> wal_line(e)[j] != 10u8,
{
    let l = wal_line(e);
    match e.1 {
        Some(v) => {
            assert forall|j: int| 0 <= j < l.len() implies l[j] != 10u8 by {
                if j < 6 {
                    assert(l[j] == insert_tag()[j]);
                } else if j == 6 {
                    assert(l[j] == 9u8);
                } else if j < 7 + e.0.len() {
                    assert(l[j] == e.0[j - 7]);
                } else if j == 7 + e.0.len() {
                    assert(l[j] == 9u8);
                } else {
                    assert(l[j] == v[j - 8 - e.0.len()]);
                }
            }
        },
        None => {
            assert forall|j: int| 0 <= j < l.len() implies l[j] != 10u8 by {
                if j < 6 {
                    assert(l[j] == delete_tag()[j]);
                } else if j == 6 {
                    assert(l[j] == 9u8);
                } else {
                    assert(l[j] == e.0[j - 7]);
                }
            }
        },
    }
}

/// A well-formed record's line decodes back to the record.
pub proof fn lemma_parse_line_roundtrip(e: (Seq<u8>, Option<Seq<u8>>))
    requires
        wf_record(e),
    ensures
        parse_line(wal_line(e)) == Some(e),
{
    let l = wal_line(e);
    match e.1 {
        Some(v) => {
            assert(l.len() >= 8);
            assert(l.take(7) =~= insert_tag().push(9u8));
            let rest = l.skip(7);
            assert(rest =~= e.0 + seq![9u8] + v);
            lemma_first_occ_is(rest, 9u8, e.0.len() as int);
            let t = e.0.len() as int;
            assert(rest.take(t) =~= e.0);
            assert(rest.skip(t + 1) =~= v);
        },
        None => {
            assert(l.len() >= 7);
            assert(l.take(7)[0] == 68u8);
            assert(insert_tag().push(9u8)[0] == 73u8);
            assert(l.take(7) != insert_tag().push(9u8));
            assert(l.take(7) =~= delete_tag().push(9u8));
            assert(l.skip(7) =~= e.0);
        },
    }
}

pub proof fn lemma_wal_encode_push(
    recs: Seq<(Seq<u8>, Option<Seq<u8>>)>,
    e: (Seq<u8>, Option<Seq<u8>>),
)
    ensures
        wal_encode(recs.push(e)) == wal_encode(recs) + wal_record(e),
    decreases recs.len(),
{
    if recs.len() == 0 {
        let empty = Seq::<(Seq<u8>, Option<Seq<u8>>)>::empty();
        assert(wal_encode(empty) == Seq::<u8>::empty());
        assert(recs =~= empty);
        assert(recs.push(e).first() == e);
        assert(recs.push(e).drop_first() =~= empty);
        assert(wal_encode(recs.push(e)) == wal_record(e) + wal_encode(empty));
        assert(wal_record(e) + Seq::<u8>::empty() =~= wal_record(e));
        assert(wal_encode(recs) + wal_record(e) =~= wal_record(e));
    } else {
        assert(recs.push(e).first() == recs.first());
        assert(recs.push(e).drop_first() =~= recs.drop_first().push(e));
        lemma_wal_encode_push(recs.drop_first(), e);
        assert(wal_encode(recs.push(e)) == wal_record(recs.first()) + wal_encode(
            recs.drop_first().push(e),
        ));
        assert(wal_encode(recs) == wal_record(recs.first()) + wal_encode(recs.drop_first()));
        assert(wal_record(recs.first()) + (wal_encode(recs.drop_first()) + wal_record(e)) =~= (
        wal_record(recs.first()) + wal_encode(recs.drop_first())) + wal_record(e));
    }
}

/// Round trip: a log that recorded exactly the well-formed records `recs`
/// decodes back to `recs`, so replaying it rebuilds the same final map that
/// applying `recs` directly builds.
pub proof fn lemma_wal_roundtrip(recs: Seq<(Seq<u8>, Option<Seq<u8>>)>)
    requires
        forall|i: int| 0 <= i < recs.len() ==> wf_record(#[trigger] recs[i]),
    ensures
        parse_wal(wal_encode(recs)) == Some(recs),
    decreases recs.len(),
{
    if recs.len() == 0 {
        assert(wal_encode(recs) == Seq::<u8>::empty());
    } else {
        let e = recs.first();
        assert(e == recs[0]);
        let data = wal_encode(recs);
        let line = wal_line(e);
        let n = line.len() as int;
        assert(data =~= wal_record(e) + wal_encode(recs.drop_first()));
        lemma_wal_line_nl_free(e);
        assert forall|j: int| 0 <= j < n implies data[j] != 10u8 by {
            assert(data[j] == line[j]);
        }
        assert(data[n] == 10u8);
        lemma_first_occ_is(data, 10u8, n);
        assert(data.take(n) =~= line);
        lemma_parse_line_roundtrip(e);
        assert(data.skip(n + 1) =~= wal_encode(recs.drop_first()));
        assert(forall|i: int|
            0 <= i < recs.drop_first().len() ==> recs.drop_first()[i] == #[trigger] recs[i + 1]);
        lemma_wal_roundtrip(recs.drop_first());
        assert(seq![e] + recs.drop_first() =~= recs);
    }
}

/// Whatever a log decodes to is made of well-formed records, and their keys
/// and values together take no more bytes than the log itself.
pub proof fn lemma_parse_wal_wf(data: Seq<u8>)
    ensures
        parse_wal(data) matches Some(recs) ==> {
            &&& forall|i: int| 0 <= i < recs.len() ==> wf_record(#[trigger] recs[i])
            &&& crate::model::entries_size(recs) <= data.len()
        },
    decreases data.len(),
{
    if data.len() > 0 {
        let i = first_occ(data, 10u8);
        if 0 <= i < data.len() {
            match parse_line(data.take(i)) {
                None => {},
                Some(e) => {
                    assert(e.0.len() + crate::model::op_size(e.1) + 7 <= i) by {
                        let line = data.take(i);
                        if line.len() >= 7 && line.take(7) == insert_tag().push(9u8) {
                            let rest = line.skip(7);
                            let t = first_occ(rest, 9u8);
                            assert(e.0.len() == t);
                            assert(crate::model::op_size(e.1) == rest.len() - t - 1);
                        }
                    }
                    lemma_parse_wal_wf(data.skip(i + 1));
                    match parse_wal(data.skip(i + 1)) {
                        None => {},
                        Some(rest) => {
                            crate::model::lemma_entries_size_cons(e, rest);
                            let all = seq![e] + rest;
                            assert(all[0] == e);
                            assert(forall|j: int|
                                1 <= j < all.len() ==> all[j] == #[trigger] rest[j - 1]);
                        },
                    }
                },
            }
        }
    }
}

/// The write-ahead log: an append-only byte image of the textual records,
/// viewed as its byte sequence.
pub struct Wal {
    data: Vec<u8>,
}

impl View for Wal {
    type V = Seq<u8>;

    closed spec fn view(&self) -> Seq<u8> {
        self.data@
    }
}

impl Wal {
    /// A fresh, empty log.
    pub fn new() -> (w: Wal)
        ensures
            w@ == Seq::<u8>::empty(),
    {
        Wal { data: Vec::new() }
    }

    /// Adopts an existing log image, as read back from storage.
    pub fn from_data(data: Vec<u8>) -> (w: Wal)
        ensures
            w@ == data@,
    {
        Wal { data }
    }

    /// The raw bytes of the log, for a caller that persists them.
    pub fn bytes(&self) -> (r: &Vec<u8>)
        ensures
            r@ == self@,
    {
        &self.data
    }

    /// Appends one `INSERT` record.
    pub fn append_insert(&mut self, key: &Vec<u8>, value: &Vec<u8>)
        ensures
            final(self)@ == old(self)@ + wal_record((key@, Some(value@))),
    {
        self.data.push(73u8);
        self.data.push(78u8);
        self.data.push(83u8);
        self.data.push(69u8);
        self.data.push(82u8);
        self.data.push(84u8);
        self.data.push(9u8);
        push_bytes(&mut self.data, key);
        self.data.push(9u8);
        push_bytes(&mut self.data, value);
        self.data.push(10u8);
        proof {
            assert(self.data@ =~= old(self)@ + wal_record((key@, Some(value@))));
        }
    }

    /// Appends one `DELETE` record.
    pub fn append_delete(&mut self, key: &Vec<u8>)
        ensures
            final(self)@ == old(self)@ + wal_record((key@, None)),
    {
        self.data.push(68u8);
        self.data.push(69u8);
        self.data.push(76u8);
        self.data.push(69u8);
        self.data.push(84u8);
        self.data.push(69u8);
        self.data.push(9u8);
        push_bytes(&mut self.data, key);
        self.data.push(10u8);
        proof {
            assert(self.data@ =~= old(self)@ + wal_record((key@, None)));
        }
    }

    /// The `size` bytes starting at `offset`; the range must lie within the
    /// log.
    pub fn read(&self, offset: usize, size: usize) -> (r: Vec<u8>)
        requires
            offset + size <= self@.len(),
        ensures
            r@ == self@.subrange(offset as int, offset + size),
    {
        let n = self.data.len();
        assert(offset + size <= n);
        sub_bytes(&self.data, offset, offset + size)
    }

    /// Truncates the log to length zero.
    pub fn clear(&mut self)
        ensures
            final(self)@ == Seq::<u8>::empty(),
    {
        self.data.clear();
    }

    /// Decodes the whole log into records, rejecting a corrupt log and
    /// discarding an unterminated trailing fragment.
    pub fn records(&self) -> (r: Result<Vec<(Vec<u8>, Operation)>, KvError>)
        ensures
            match parse_wal(self@) {
                Some(recs) => r matches Ok(v) && view_entries(v@) == recs,
                None => r == Err::<Vec<(Vec<u8>, Operation)>, KvError>(KvError::CorruptLog),
            },
    {
        let data = &self.data;
        let mut out: Vec<(Vec<u8>, Operation)> = Vec::new();
        let mut pos: usize = 0;
        proof {
            assert(self@.skip(0) =~= self@);
            assert(view_entries(out@) =~= Seq::<(Seq<u8>, Option<Seq<u8>>)>::empty());
            if parse_wal(self@) is Some {
                let rest = parse_wal(self@).unwrap();
                assert(view_entries(out@) + rest =~= rest);
            }
        }
        loop
            invariant
                0 <= pos <= data@.len(),
                data@ == self@,
                parse_wal(self@) == match parse_wal(self@.skip(pos as int)) {
                    Some(rest) => Some(view_entries(out@) + rest),
                    None => None::<Seq<(Seq<u8>, Option<Seq<u8>>)>>,
                },
            ensures
                parse_wal(self@) == Some(view_entries(out@)),
            decreases data@.len() - pos,
        {
            let ghost rem = self@.skip(pos as int);
            if pos == data.len() {
                proof {
                    assert(rem.len() == 0);
                    assert(view_entries(out@) + Seq::<(Seq<u8>, Option<Seq<u8>>)>::empty()
                        =~= view_entries(out@));
                }
                break;
            }
            let nl = find_byte_from(data, 10u8, pos);
            proof {
                assert forall|j: int| 0 <= j < nl - pos implies rem[j] != 10u8 by {
                    assert(rem[j] == self@[pos + j]);
                }
                if nl < data@.len() {
                    assert(rem[nl - pos] == self@[nl as int]);
                }
                lemma_first_occ_is(rem, 10u8, nl - pos);
            }
            if nl == data.len() {
                // Trailing bytes with no terminator: a record cut short, discarded.
                proof {
                    assert(parse_wal(rem) == Some(Seq::<(Seq<u8>, Option<Seq<u8>>)>::empty()));
                    assert(view_entries(out@) + Seq::<(Seq<u8>, Option<Seq<u8>>)>::empty()
                        =~= view_entries(out@));
                }
                break;
            }
            let line = sub_bytes(data, pos, nl);
            proof {
                assert(line@ =~= rem.take(nl - pos));
            }
            match parse_one_line(&line) {
                None => {
                    proof {
                        assert(parse_wal(rem) is None);
                    }
                    return Err(KvError::CorruptLog);
                },
                Some(p) => {
                    let ghost e = (p.0@, p.1@);
                    proof {
                        assert(parse_line(rem.take(nl - pos)) == Some(e));
                        assert(self@.skip(pos as int).skip(nl - pos + 1)
                            =~= self@.skip(nl + 1));
                        assert(parse_wal(rem) == match parse_wal(self@.skip(nl + 1)) {
                            None => None::<Seq<(Seq<u8>, Option<Seq<u8>>)>>,
                            Some(rest) => Some(seq![e] + rest),
                        });
                    }
                    let ghost old_out = out@;
                    out.push(p);
                    proof {
                        assert(view_entries(out@) =~= view_entries(old_out) + seq![e]);
                        assert forall|rest: Seq<(Seq<u8>, Option<Seq<u8>>)>|
                            true implies view_entries(old_out) + (seq![e] + rest) =~= (
                        view_entries(old_out) + seq![e]) + rest by {}
                    }
                    pos = nl + 1;
                },
            }
        }
        Ok(out)
    }
}

/// Decodes one line (without its newline), exactly as `parse_line` does.
fn parse_one_line(line: &Vec<u8>) -> (r: Option<(Vec<u8>, Operation)>)
    ensures
        match parse_line(line@) {
            Some(e) => r matches Some(p) && p.0@ == e.0 && p.1@ == e.1,
            None => r is None,
        },
{
    if line.len() < 7 {
        return None;
    }
    let tag = sub_bytes(line, 0, 7);
    proof {
        assert(tag@ =~= line@.take(7));
    }
    let mut ins_prefix: Vec<u8> = Vec::new();
    ins_prefix.push(73u8);
    ins_prefix.push(78u8);
    ins_prefix.push(83u8);
    ins_prefix.push(69u8);
    ins_prefix.push(82u8);
    ins_prefix.push(84u8);
    ins_prefix.push(9u8);
    proof {
        assert(ins_prefix@ =~= insert_tag().push(9u8));
    }
    let mut del_prefix: Vec<u8> = Vec::new();
    del_prefix.push(68u8);
    del_prefix.push(69u8);
    del_prefix.push(76u8);
    del_prefix.push(69u8);
    del_prefix.push(84u8);
    del_prefix.push(69u8);
    del_prefix.push(9u8);
    proof {
        assert(del_prefix@ =~= delete_tag().push(9u8));
    }
    if bytes_eq(&tag, &ins_prefix) {
        let ghost rest = line@.skip(7);
        let t = find_byte_from(line, 9u8, 7);
        proof {
            assert forall|j: int| 0 <= j < t - 7 implies rest[j] != 9u8 by {
                assert(rest[j] == line@[7 + j]);
            }
            if t < line@.len() {
                assert(rest[t - 7] == line@[t as int]);
            }
            lemma_first_occ_is(rest, 9u8, t - 7);
        }
        if t == line.len() {
            return None;
        }
        let k = sub_bytes(line, 7, t);
        let v = sub_bytes(line, t + 1, line.len());
        proof {
            assert(k@ =~= rest.take(t - 7));
            assert(v@ =~= rest.skip(t - 7 + 1));
        }
        if check_key(&k) && check_value(&v) {
            Some((k, Operation::Insert(v)))
        } else {
            None
        }
    } else if bytes_eq(&tag, &del_prefix) {
        let k = sub_bytes(line, 7, line.len());
        proof {
            assert(k@ =~= line@.skip(7));
        }
        if check_key(&k) {
            Some((k, Operation::Delete))
        } else {
            None
        }
    } else {
        None
    }
}

} // verus!
