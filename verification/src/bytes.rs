use vstd::prelude::*;

verus! {

/// Lexicographic order on byte sequences: `a` sorts strictly before `b`.
pub open spec fn lex_lt(a: Seq<u8>, b: Seq<u8>) -> bool
    decreases a.len(),
{
    if b.len() == 0 {
        false
    } else if a.len() == 0 {
        true
    } else if a[0] < b[0] {
        true
    } else if a[0] > b[0] {
        false
    } else {
        lex_lt(a.skip(1), b.skip(1))
    }
}

pub proof fn lemma_lex_irrefl(a: Seq<u8>)
    ensures
        !lex_lt(a, a),
    decreases a.len(),
{
    if a.len() > 0 {
        lemma_lex_irrefl(a.skip(1));
    }
}

pub proof fn lemma_lex_asym(a: Seq<u8>, b: Seq<u8>)
    requires
        lex_lt(a, b),
    ensures
        !lex_lt(b, a),
        a != b,
    decreases a.len(),
{
    if a.len() > 0 && b.len() > 0 && a[0] == b[0] {
        lemma_lex_asym(a.skip(1), b.skip(1));
        assert(a != b) by {
            assert(a.skip(1) != b.skip(1));
        }
    }
}

pub proof fn lemma_lex_connex(a: Seq<u8>, b: Seq<u8>)
    ensures
        lex_lt(a, b) || lex_lt(b, a) || a == b,
    decreases a.len(),
{
    if a.len() == 0 && b.len() == 0 {
        assert(a =~= b);
    } else if a.len() > 0 && b.len() > 0 && a[0] == b[0] {
        lemma_lex_connex(a.skip(1), b.skip(1));
        if a.skip(1) == b.skip(1) {
            assert(a.len() == b.len()) by {
                assert(a.skip(1).len() == b.skip(1).len());
            }
            assert forall|i: int| 0 <= i < a.len() implies a[i] == b[i] by {
                if i > 0 {
                    assert(a.skip(1)[i - 1] == a[i]);
                    assert(b.skip(1)[i - 1] == b[i]);
                }
            }
            assert(a =~= b);
        }
    }
}

pub proof fn lemma_lex_trans(a: Seq<u8>, b: Seq<u8>, c: Seq<u8>)
    requires
        lex_lt(a, b),
        lex_lt(b, c),
    ensures
        lex_lt(a, c),
    decreases a.len(),
{
    if a.len() > 0 && b.len() > 0 && c.len() > 0 && a[0] == b[0] && b[0] == c[0] {
        lemma_lex_trans(a.skip(1), b.skip(1), c.skip(1));
    }
}

/// If `a` and `b` agree on their first `i` bytes and either `a` ends there or
/// the next byte of `a` is smaller, then `a` sorts before `b`.
pub proof fn lemma_lex_from_prefix(a: Seq<u8>, b: Seq<u8>, i: int)
    requires
        0 <= i <= a.len(),
        i <= b.len(),
        a.take(i) == b.take(i),
        (i == a.len() && i < b.len()) || (i < a.len() && i < b.len() && a[i] < b[i]),
    ensures
        lex_lt(a, b),
    decreases i,
{
    if i == 0 {
    } else {
        assert(a.take(i)[0] == a[0]);
        assert(b.take(i)[0] == b[0]);
        assert(a[0] == b[0]);
        assert(a.skip(1).take(i - 1) == b.skip(1).take(i - 1)) by {
            assert(a.skip(1).take(i - 1) =~= a.take(i).skip(1));
            assert(b.skip(1).take(i - 1) =~= b.take(i).skip(1));
        }
        if i < a.len() {
            assert(a.skip(1)[i - 1] == a[i]);
            assert(b.skip(1)[i - 1] == b[i]);
        }
        lemma_lex_from_prefix(a.skip(1), b.skip(1), i - 1);
    }
}

/// Three-way lexicographic comparison of two byte vectors.
pub fn bytes_cmp(a: &Vec<u8>, b: &Vec<u8>) -> (o: core::cmp::Ordering)
    ensures
        (o == core::cmp::Ordering::Less) == lex_lt(a@, b@),
        (o == core::cmp::Ordering::Equal) == (a@ == b@),
        (o == core::cmp::Ordering::Greater) == lex_lt(b@, a@),
{
    let n: usize = if a.len() < b.len() { a.len() } else { b.len() };
    let mut i: usize = 0;
    while i < n
        invariant
            0 <= i <= n,
            n <= a.len(),
            n <= b.len(),
            n == a.len() || n == b.len(),
            a@.take(i as int) == b@.take(i as int),
        decreases n - i,
    {
        let x = a[i];
        let y = b[i];
        if x < y {
            proof {
                lemma_lex_from_prefix(a@, b@, i as int);
                lemma_lex_asym(a@, b@);
            }
            return core::cmp::Ordering::Less;
        }
        if x > y {
            proof {
                lemma_lex_from_prefix(b@, a@, i as int);
                lemma_lex_asym(b@, a@);
            }
            return core::cmp::Ordering::Greater;
        }
        proof {
            assert(a@.take(i + 1) =~= b@.take(i + 1));
        }
        i = i + 1;
    }
    if a.len() < b.len() {
        proof {
            lemma_lex_from_prefix(a@, b@, n as int);
            lemma_lex_asym(a@, b@);
        }
        core::cmp::Ordering::Less
    } else if b.len() < a.len() {
        proof {
            lemma_lex_from_prefix(b@, a@, n as int);
            lemma_lex_asym(b@, a@);
        }
        core::cmp::Ordering::Greater
    } else {
        proof {
            assert(a@ =~= b@) by {
                assert(a@.take(n as int) =~= a@);
                assert(b@.take(n as int) =~= b@);
            }
            lemma_lex_irrefl(a@);
        }
        core::cmp::Ordering::Equal
    }
}

/// True exactly when the two vectors hold the same bytes.
pub fn bytes_eq(a: &Vec<u8>, b: &Vec<u8>) -> (r: bool)
    ensures
        r == (a@ == b@),
{
    matches!(bytes_cmp(a, b), core::cmp::Ordering::Equal)
}

/// A fresh vector holding the same bytes.
pub fn clone_bytes(v: &Vec<u8>) -> (r: Vec<u8>)
    ensures
        r@ == v@,
{
    let mut r: Vec<u8> = Vec::new();
    let mut i: usize = 0;
    while i < v.len()
        invariant
            0 <= i <= v.len(),
            r@ == v@.take(i as int),
        decreases v.len() - i,
    {
        r.push(v[i]);
        proof {
            assert(r@ =~= v@.take(i + 1));
        }
        i = i + 1;
    }
    proof {
        assert(v@.take(v@.len() as int) =~= v@);
    }
    r
}

/// Appends all of `src` to `dst`.
pub fn push_bytes(dst: &mut Vec<u8>, src: &Vec<u8>)
    ensures
        final(dst)@ == old(dst)@ + src@,
{
    let mut i: usize = 0;
    while i < src.len()
        invariant
            0 <= i <= src.len(),
            dst@ == old(dst)@ + src@.take(i as int),
        decreases src.len() - i,
    {
        dst.push(src[i]);
        proof {
            assert(dst@ =~= old(dst)@ + src@.take(i + 1));
        }
        i = i + 1;
    }
    proof {
        assert(old(dst)@ + src@.take(src@.len() as int) =~= old(dst)@ + src@);
    }
}

/// Copies the bytes of `v` in the range `[from, to)` into a fresh vector.
pub fn sub_bytes(v: &Vec<u8>, from: usize, to: usize) -> (r: Vec<u8>)
    requires
        0 <= from <= to <= v@.len(),
    ensures
        r@ == v@.subrange(from as int, to as int),
{
    let mut r: Vec<u8> = Vec::new();
    let mut i: usize = from;
    while i < to
        invariant
            from <= i <= to <= v@.len(),
            r@ == v@.subrange(from as int, i as int),
        decreases to - i,
    {
        r.push(v[i]);
        proof {
            assert(r@ =~= v@.subrange(from as int, i + 1));
        }
        i = i + 1;
    }
    r
}

/// Index of the first occurrence of `b` in `s`, or `s.len()` if absent.
pub open spec fn first_occ(s: Seq<u8>, b: u8) -> int
    decreases s.len(),
{
    if s.len() == 0 {
        0
    } else if s[0] == b {
        0
    } else {
        1 + first_occ(s.skip(1), b)
    }
}

/// Characterizes `first_occ`: it is the unique position with no `b` before it
/// that either ends the sequence or holds `b`.
pub proof fn lemma_first_occ_is(s: Seq<u8>, b: u8, i: int)
    requires
        0 <= i <= s.len(),
        forall|j: int| 0 <= j < i ==> s[j] != b,
        i < s.len() ==> s[i] == b,
    ensures
        first_occ(s, b) == i,
    decreases s.len(),
{
    if s.len() > 0 && s[0] != b {
        assert(forall|j: int| 0 <= j < i - 1 ==> s.skip(1)[j] == s[j + 1]);
        if i - 1 < s.skip(1).len() {
            assert(s.skip(1)[i - 1] == s[i]);
        }
        lemma_first_occ_is(s.skip(1), b, i - 1);
    }
}

pub proof fn lemma_first_occ_bounds(s: Seq<u8>, b: u8)
    ensures
        0 <= first_occ(s, b) <= s.len(),
        first_occ(s, b) < s.len() ==> s[first_occ(s, b)] == b,
        forall|j: int| 0 <= j < first_occ(s, b) ==> s[j] != b,
    decreases s.len(),
{
    if s.len() > 0 && s[0] != b {
        lemma_first_occ_bounds(s.skip(1), b);
        assert(forall|j: int| 1 <= j < s.len() ==> s[j] == s.skip(1)[j - 1]);
    }
}

/// Scans `v` from `from` for the byte `b`.
pub fn find_byte_from(v: &Vec<u8>, b: u8, from: usize) -> (r: usize)
    requires
        from <= v@.len(),
    ensures
        from <= r <= v@.len(),
        forall|j: int| from <= j < r ==> v@[j] != b,
        r < v@.len() ==> v@[r as int] == b,
{
    let mut i: usize = from;
    while i < v.len()
        invariant
            from <= i <= v@.len(),
            forall|j: int| from <= j < i ==> v@[j] != b,
        decreases v.len() - i,
    {
        if v[i] == b {
            return i;
        }
        i = i + 1;
    }
    i
}

/// The byte sequence stored on disk in place of a deleted value.
pub open spec fn tombstone() -> Seq<u8> {
    seq![84u8, 79u8, 77u8, 66u8, 83u8, 84u8, 79u8, 78u8, 69u8]
}

/// The literal tombstone marker, `TOMBSTONE` in ASCII.
pub fn tombstone_bytes() -> (v: Vec<u8>)
    ensures
        v@ == tombstone(),
{
    let mut v: Vec<u8> = Vec::new();
    v.push(84u8);
    v.push(79u8);
    v.push(77u8);
    v.push(66u8);
    v.push(83u8);
    v.push(84u8);
    v.push(79u8);
    v.push(78u8);
    v.push(69u8);
    proof {
        assert(v@ =~= tombstone());
    }
    v
}

/// Keys must fit the record format's 32-bit length prefix and must not hold
/// the log separators (tab, newline).
pub open spec fn valid_key(k: Seq<u8>) -> bool {
    &&& k.len() <= u32::MAX
    &&& forall|i: int| 0 <= i < k.len() ==> k[i] != 9u8 && k[i] != 10u8
}

/// Values must fit the 32-bit length prefix, must not hold the log
/// separators, and must not equal the reserved tombstone marker.
pub open spec fn valid_value(v: Seq<u8>) -> bool {
    &&& v.len() <= u32::MAX
    &&& v != tombstone()
    &&& forall|i: int| 0 <= i < v.len() ==> v[i] != 9u8 && v[i] != 10u8
}

/// Validity of a stored operation: tombstones are always valid, inserted
/// values must be valid.
pub open spec fn valid_op(op: Option<Seq<u8>>) -> bool {
    match op {
        Some(v) => valid_value(v),
        None => true,
    }
}

/// Runtime check matching `valid_key`.
pub fn check_key(k: &Vec<u8>) -> (r: bool)
    ensures
        r == valid_key(k@),
{
    if k.len() > u32::MAX as usize {
        return false;
    }
    let mut i: usize = 0;
    while i < k.len()
        invariant
            0 <= i <= k.len(),
            forall|j: int| 0 <= j < i ==> k@[j] != 9u8 && k@[j] != 10u8,
        decreases k.len() - i,
    {
        let c = k[i];
        if c == 9u8 || c == 10u8 {
            return false;
        }
        i = i + 1;
    }
    true
}

/// Runtime check matching `valid_value`.
pub fn check_value(v: &Vec<u8>) -> (r: bool)
    ensures
        r == valid_value(v@),
{
    if v.len() > u32::MAX as usize {
        return false;
    }
    let tomb = tombstone_bytes();
    if bytes_eq(v, &tomb) {
        return false;
    }
    let mut i: usize = 0;
    while i < v.len()
        invariant
            0 <= i <= v.len(),
            v@ != tombstone(),
            v@.len() <= u32::MAX,
            forall|j: int| 0 <= j < i ==> v@[j] != 9u8 && v@[j] != 10u8,
        decreases v.len() - i,
    {
        let c = v[i];
        if c == 9u8 || c == 10u8 {
            return false;
        }
        i = i + 1;
    }
    true
}

} // verus!
