use vstd::prelude::*;

use crate::bytes::clone_bytes;
use crate::model::op_size;

verus! {

/// A mutation recorded against a key: an inserted value, or a tombstone
/// marking the key deleted. Viewed as `Some(value bytes)` or `None`.
#[derive(Debug, PartialEq, Eq)]
pub enum Operation {
    Insert(Vec<u8>),
    Delete,
}

impl View for Operation {
    type V = Option<Seq<u8>>;

    open spec fn view(&self) -> Option<Seq<u8>> {
        match self {
            Operation::Insert(v) => Some(v@),
            Operation::Delete => None,
        }
    }
}

impl Clone for Operation {
    fn clone(&self) -> (r: Self)
        ensures
            r@ == self@,
    {
        match self {
            Operation::Insert(v) => Operation::Insert(clone_bytes(v)),
            Operation::Delete => Operation::Delete,
        }
    }
}

impl Operation {
    /// Bytes this operation contributes beyond its key: the value length for
    /// an insert, zero for a tombstone.
    pub fn size_bytes(&self) -> (n: usize)
        ensures
            n == op_size(self@),
    {
        match self {
            Operation::Insert(v) => v.len(),
            Operation::Delete => 0,
        }
    }
}

/// True exactly when the two operations denote the same mutation.
pub fn op_eq(a: &Operation, b: &Operation) -> (r: bool)
    ensures
        r == (a@ == b@),
{
    match (a, b) {
        (Operation::Insert(x), Operation::Insert(y)) => crate::bytes::bytes_eq(x, y),
        (Operation::Delete, Operation::Delete) => true,
        _ => false,
    }
}

/// The ghost entries a sequence of key/operation pairs denotes.
pub open spec fn view_entries(s: Seq<(Vec<u8>, Operation)>) -> Seq<(Seq<u8>, Option<Seq<u8>>)> {
    s.map(|i: int, e: (Vec<u8>, Operation)| (e.0@, e.1@))
}

} // verus!
