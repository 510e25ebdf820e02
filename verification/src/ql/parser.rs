use vstd::prelude::*;

use crate::errors::KvError;

verus! {

// ---------------------------------------------------------------------------
// The toy query language, one statement per request, terminated by `;` and a
// line ending:
//   INSERT INTO the_table (<key>) VALUES (<value>);
//   DELETE FROM the_table WHERE key = "<key>";
//   SELECT <key> FROM the_table;
// An INSERT's key and value run to the closing parenthesis, a DELETE's key to
// the closing quote, and a SELECT's key to the next blank. Spaces and tabs
// separate the words; trailing blanks before the line ending are allowed.
// ---------------------------------------------------------------------------

/// A parsed statement.
#[derive(Debug, PartialEq, Eq)]
pub enum Operation {
    Insert(Vec<u8>, Vec<u8>),
    Delete(Vec<u8>),
    Select(Vec<u8>),
}

/// A blank: space or horizontal tab.
pub open spec fn is_blank(b: u8) -> bool {
    b == 32u8 || b == 9u8
}

/// The first position at or after `pos` that is not a blank.
pub open spec fn skip_blanks(s: Seq<u8>, pos: int) -> int
    decreases s.len() - pos,
{
    if 0 <= pos < s.len() && is_blank(s[pos]) {
        skip_blanks(s, pos + 1)
    } else {
        pos
    }
}

/// The first position at or after `pos` holding `b`, or the length.
pub open spec fn scan_until(s: Seq<u8>, pos: int, b: u8) -> int
    decreases s.len() - pos,
{
    if 0 <= pos < s.len() && s[pos] != b {
        scan_until(s, pos + 1, b)
    } else {
        pos
    }
}

/// The literal `lit` occurs at `pos`.
pub open spec fn lit_at(s: Seq<u8>, pos: int, lit: Seq<u8>) -> bool {
    0 <= pos && pos + lit.len() <= s.len() && s.subrange(pos, pos + lit.len()) == lit
}

/// A line ending at `pos`: `\n` or `\r\n`; the position after it, or -1.
pub open spec fn line_ending_end(s: Seq<u8>, pos: int) -> int {
    if lit_at(s, pos, seq![10u8]) {
        pos + 1
    } else if lit_at(s, pos, seq![13u8, 10u8]) {
        pos + 2
    } else {
        -1
    }
}

pub open spec fn insert_kw() -> Seq<u8> {
    seq![73u8, 78u8, 83u8, 69u8, 82u8, 84u8]
}

pub open spec fn into_kw() -> Seq<u8> {
    seq![73u8, 78u8, 84u8, 79u8]
}

pub open spec fn the_table_kw() -> Seq<u8> {
    seq![116u8, 104u8, 101u8, 95u8, 116u8, 97u8, 98u8, 108u8, 101u8]
}

pub open spec fn values_kw() -> Seq<u8> {
    seq![86u8, 65u8, 76u8, 85u8, 69u8, 83u8]
}

pub open spec fn delete_kw() -> Seq<u8> {
    seq![68u8, 69u8, 76u8, 69u8, 84u8, 69u8]
}

pub open spec fn from_kw() -> Seq<u8> {
    seq![70u8, 82u8, 79u8, 77u8]
}

pub open spec fn where_kw() -> Seq<u8> {
    seq![87u8, 72u8, 69u8, 82u8, 69u8]
}

pub open spec fn key_kw() -> Seq<u8> {
    seq![107u8, 101u8, 121u8]
}

pub open spec fn select_kw() -> Seq<u8> {
    seq![83u8, 69u8, 76u8, 69u8, 67u8, 84u8]
}

/// One mandatory run of blanks starting at `pos`: the position after it, or
/// -1 when there is none.
pub open spec fn blanks1_end(s: Seq<u8>, pos: int) -> int {
    if skip_blanks(s, pos) == pos {
        -1
    } else {
        skip_blanks(s, pos)
    }
}

/// Decodes `INSERT INTO the_table (<key>) VALUES (<value>);<blanks><eol>`.
pub open spec fn parse_insert(s: Seq<u8>) -> Option<(Seq<u8>, Seq<u8>)> {
    if !lit_at(s, 0, insert_kw()) {
        None
    } else {
        let p1 = blanks1_end(s, 6);
        if p1 < 0 || !lit_at(s, p1, into_kw()) {
            None
        } else {
            let p2 = blanks1_end(s, p1 + 4);
            if p2 < 0 || !lit_at(s, p2, the_table_kw()) {
                None
            } else {
                let p3 = blanks1_end(s, p2 + 9);
                if p3 < 0 || !lit_at(s, p3, seq![40u8]) {
                    None
                } else {
                    let kend = scan_until(s, p3 + 1, 41u8);
                    if kend == p3 + 1 || kend >= s.len() {
                        None
                    } else {
                        let key = s.subrange(p3 + 1, kend);
                        let p4 = blanks1_end(s, kend + 1);
                        if p4 < 0 || !lit_at(s, p4, values_kw()) {
                            None
                        } else {
                            let p5 = blanks1_end(s, p4 + 6);
                            if p5 < 0 || !lit_at(s, p5, seq![40u8]) {
                                None
                            } else {
                                let vend = scan_until(s, p5 + 1, 41u8);
                                if vend == p5 + 1 || vend >= s.len() || !lit_at(
                                    s,
                                    vend + 1,
                                    seq![59u8],
                                ) {
                                    None
                                } else {
                                    let value = s.subrange(p5 + 1, vend);
                                    let e = line_ending_end(s, skip_blanks(s, vend + 2));
                                    if e == s.len() {
                                        Some((key, value))
                                    } else {
                                        None
                                    }
                                }
                            }
                        }
                    }
                }
            }
        }
    }
}

/// Decodes `DELETE FROM the_table WHERE key = "<key>";<blanks><eol>`.
pub open spec fn parse_delete(s: Seq<u8>) -> Option<Seq<u8>> {
    if !lit_at(s, 0, delete_kw()) {
        None
    } else {
        let p1 = blanks1_end(s, 6);
        if p1 < 0 || !lit_at(s, p1, from_kw()) {
            None
        } else {
            let p2 = blanks1_end(s, p1 + 4);
            if p2 < 0 || !lit_at(s, p2, the_table_kw()) {
                None
            } else {
                let p3 = blanks1_end(s, p2 + 9);
                if p3 < 0 || !lit_at(s, p3, where_kw()) {
                    None
                } else {
                    let p4 = blanks1_end(s, p3 + 5);
                    if p4 < 0 || !lit_at(s, p4, key_kw()) {
                        None
                    } else {
                        let p5 = blanks1_end(s, p4 + 3);
                        if p5 < 0 || !lit_at(s, p5, seq![61u8]) {
                            None
                        } else {
                            let p6 = blanks1_end(s, p5 + 1);
                            if p6 < 0 || !lit_at(s, p6, seq![34u8]) {
                                None
                            } else {
                                let kend = scan_until(s, p6 + 1, 34u8);
                                if kend == p6 + 1 || kend >= s.len() || !lit_at(
                                    s,
                                    kend + 1,
                                    seq![59u8],
                                ) {
                                    None
                                } else {
                                    let key = s.subrange(p6 + 1, kend);
                                    let e = line_ending_end(s, skip_blanks(s, kend + 2));
                                    if e == s.len() {
                                        Some(key)
                                    } else {
                                        None
                                    }
                                }
                            }
                        }
                    }
                }
            }
        }
    }
}

/// Decodes `SELECT <key> FROM the_table;<blanks><eol>`.
pub open spec fn parse_select(s: Seq<u8>) -> Option<Seq<u8>> {
    if !lit_at(s, 0, select_kw()) {
        None
    } else {
        let p1 = blanks1_end(s, 6);
        if p1 < 0 {
            None
        } else {
            let kend = scan_until(s, p1, 32u8);
            if kend == p1 || kend >= s.len() {
                None
            } else {
                let key = s.subrange(p1, kend);
                let p2 = blanks1_end(s, kend);
                if p2 < 0 || !lit_at(s, p2, from_kw()) {
                    None
                } else {
                    let p3 = blanks1_end(s, p2 + 4);
                    if p3 < 0 || !lit_at(s, p3, the_table_kw()) || !lit_at(
                        s,
                        p3 + 9,
                        seq![59u8],
                    ) {
                        None
                    } else {
                        let e = line_ending_end(s, skip_blanks(s, p3 + 10));
                        if e == s.len() {
                            Some(key)
                        } else {
                            None
                        }
                    }
                }
            }
        }
    }
}

// ---------------------------------------------------------------------------
// The executable parser.
// ---------------------------------------------------------------------------

/// The first non-blank position at or after `pos`.
fn blanks_end(s: &Vec<u8>, pos: usize) -> (r: usize)
    requires
        pos <= s@.len(),
    ensures
        r as int == skip_blanks(s@, pos as int),
        pos <= r <= s@.len(),
{
    let mut i: usize = pos;
    while i < s.len() && (s[i] == 32u8 || s[i] == 9u8)
        invariant
            pos <= i <= s@.len(),
            skip_blanks(s@, pos as int) == skip_blanks(s@, i as int),
        decreases s@.len() - i,
    {
        i = i + 1;
    }
    i
}

/// One mandatory run of blanks: the position after it, if any.
fn blanks1(s: &Vec<u8>, pos: usize) -> (r: Option<usize>)
    requires
        pos <= s@.len(),
    ensures
        blanks1_end(s@, pos as int) < 0 <==> r is None,
        r matches Some(e) ==> e as int == blanks1_end(s@, pos as int) && pos < e <= s@.len(),
{
    let e = blanks_end(s, pos);
    if e == pos {
        None
    } else {
        Some(e)
    }
}

/// The first position at or after `pos` holding `b`.
fn find_from(s: &Vec<u8>, pos: usize, b: u8) -> (r: usize)
    requires
        pos <= s@.len(),
    ensures
        r as int == scan_until(s@, pos as int, b),
        pos <= r <= s@.len(),
{
    let mut i: usize = pos;
    while i < s.len() && s[i] != b
        invariant
            pos <= i <= s@.len(),
            scan_until(s@, pos as int, b) == scan_until(s@, i as int, b),
        decreases s@.len() - i,
    {
        i = i + 1;
    }
    i
}

/// Whether the literal occurs at `pos`.
fn has_lit(s: &Vec<u8>, pos: usize, lit: &Vec<u8>) -> (r: bool)
    ensures
        r == lit_at(s@, pos as int, lit@),
{
    if pos > s.len() || s.len() - pos < lit.len() {
        return false;
    }
    let mut i: usize = 0;
    while i < lit.len()
        invariant
            0 <= i <= lit@.len(),
            pos + lit@.len() <= s@.len(),
            s@.len() <= usize::MAX,
            forall|j: int| 0 <= j < i ==> s@[pos + j] == lit@[j],
        decreases lit@.len() - i,
    {
        if s[pos + i] != lit[i] {
            proof {
                assert(s@.subrange(pos as int, pos + lit@.len())[i as int] != lit@[i as int]);
            }
            return false;
        }
        i = i + 1;
    }
    proof {
        assert(s@.subrange(pos as int, pos + lit@.len()) =~= lit@);
    }
    true
}

/// The position after a line ending at `pos`, if one is there.
fn line_end(s: &Vec<u8>, pos: usize) -> (r: Option<usize>)
    requires
        pos <= s@.len(),
    ensures
        line_ending_end(s@, pos as int) < 0 <==> r is None,
        r matches Some(e) ==> e as int == line_ending_end(s@, pos as int) && e <= s@.len(),
{
    proof {
        if pos < s@.len() && s@[pos as int] == 10u8 {
            assert(s@.subrange(pos as int, pos + 1) =~= seq![10u8]);
        }
        if pos + 1 < s@.len() && s@[pos as int] == 13u8 && s@[pos + 1] == 10u8 {
            assert(s@.subrange(pos as int, pos + 2) =~= seq![13u8, 10u8]);
        }
        if lit_at(s@, pos as int, seq![10u8]) {
            assert(s@[pos as int] == s@.subrange(pos as int, pos + 1)[0]);
        }
        if lit_at(s@, pos as int, seq![13u8, 10u8]) {
            assert(s@[pos as int] == s@.subrange(pos as int, pos + 2)[0]);
            assert(s@[pos + 1] == s@.subrange(pos as int, pos + 2)[1]);
        }
    }
    if pos < s.len() && s[pos] == 10u8 {
        Some(pos + 1)
    } else if pos < s.len() && s.len() - pos >= 2 && s[pos] == 13u8 && s[pos + 1] == 10u8 {
        Some(pos + 2)
    } else {
        None
    }
}

/// Checks for `;<blanks><line ending>` at `pos` closing the whole input.
fn closes_input(s: &Vec<u8>, pos: usize) -> (r: bool)
    requires
        pos <= s@.len(),
    ensures
        r == (lit_at(s@, pos as int, seq![59u8]) && line_ending_end(
            s@,
            skip_blanks(s@, pos + 1),
        ) == s@.len()),
{
    proof {
        if pos < s@.len() && s@[pos as int] == 59u8 {
            assert(s@.subrange(pos as int, pos + 1) =~= seq![59u8]);
        }
        if lit_at(s@, pos as int, seq![59u8]) {
            assert(s@[pos as int] == s@.subrange(pos as int, pos + 1)[0]);
        }
    }
    if pos >= s.len() || s[pos] != 59u8 {
        return false;
    }
    let b = blanks_end(s, pos + 1);
    match line_end(s, b) {
        None => false,
        Some(e) => e == s.len(),
    }
}

fn the_table_bytes() -> (v: Vec<u8>)
    ensures
        v@ == the_table_kw(),
{
    let mut v: Vec<u8> = Vec::new();
    v.push(116u8);
    v.push(104u8);
    v.push(101u8);
    v.push(95u8);
    v.push(116u8);
    v.push(97u8);
    v.push(98u8);
    v.push(108u8);
    v.push(101u8);
    proof {
        assert(v@ =~= the_table_kw());
    }
    v
}

fn kw6(b0: u8, b1: u8, b2: u8, b3: u8, b4: u8, b5: u8) -> (v: Vec<u8>)
    ensures
        v@ == seq![b0, b1, b2, b3, b4, b5],
{
    let mut v: Vec<u8> = Vec::new();
    v.push(b0);
    v.push(b1);
    v.push(b2);
    v.push(b3);
    v.push(b4);
    v.push(b5);
    proof {
        assert(v@ =~= seq![b0, b1, b2, b3, b4, b5]);
    }
    v
}

fn kw4(b0: u8, b1: u8, b2: u8, b3: u8) -> (v: Vec<u8>)
    ensures
        v@ == seq![b0, b1, b2, b3],
{
    let mut v: Vec<u8> = Vec::new();
    v.push(b0);
    v.push(b1);
    v.push(b2);
    v.push(b3);
    proof {
        assert(v@ =~= seq![b0, b1, b2, b3]);
    }
    v
}

fn kw1(b0: u8) -> (v: Vec<u8>)
    ensures
        v@ == seq![b0],
{
    let mut v: Vec<u8> = Vec::new();
    v.push(b0);
    proof {
        assert(v@ =~= seq![b0]);
    }
    v
}

fn try_insert(s: &Vec<u8>) -> (r: Option<(Vec<u8>, Vec<u8>)>)
    ensures
        match parse_insert(s@) {
            Some((k, v)) => r matches Some(p) && p.0@ == k && p.1@ == v,
            None => r is None,
        },
{
    let slen = s.len();
    let kw = kw6(73u8, 78u8, 83u8, 69u8, 82u8, 84u8);
    if !has_lit(s, 0, &kw) {
        return None;
    }
    let p1 = match blanks1(s, 6) {
        None => {
            return None;
        },
        Some(p) => p,
    };
    let into = kw4(73u8, 78u8, 84u8, 79u8);
    if !has_lit(s, p1, &into) {
        return None;
    }
    let p2 = match blanks1(s, p1 + 4) {
        None => {
            return None;
        },
        Some(p) => p,
    };
    let tbl = the_table_bytes();
    if !has_lit(s, p2, &tbl) {
        return None;
    }
    let p3 = match blanks1(s, p2 + 9) {
        None => {
            return None;
        },
        Some(p) => p,
    };
    let open_paren = kw1(40u8);
    if !has_lit(s, p3, &open_paren) {
        return None;
    }
    let kend = find_from(s, p3 + 1, 41u8);
    if kend == p3 + 1 || kend >= slen {
        return None;
    }
    let key = crate::bytes::sub_bytes(s, p3 + 1, kend);
    let p4 = match blanks1(s, kend + 1) {
        None => {
            return None;
        },
        Some(p) => p,
    };
    let values = kw6(86u8, 65u8, 76u8, 85u8, 69u8, 83u8);
    if !has_lit(s, p4, &values) {
        return None;
    }
    let p5 = match blanks1(s, p4 + 6) {
        None => {
            return None;
        },
        Some(p) => p,
    };
    if !has_lit(s, p5, &open_paren) {
        return None;
    }
    let vend = find_from(s, p5 + 1, 41u8);
    if vend == p5 + 1 || vend >= slen {
        return None;
    }
    if !closes_input(s, vend + 1) {
        return None;
    }
    let value = crate::bytes::sub_bytes(s, p5 + 1, vend);
    Some((key, value))
}

fn try_delete(s: &Vec<u8>) -> (r: Option<Vec<u8>>)
    ensures
        match parse_delete(s@) {
            Some(k) => r matches Some(p) && p@ == k,
            None => r is None,
        },
{
    let slen = s.len();
    let kw = kw6(68u8, 69u8, 76u8, 69u8, 84u8, 69u8);
    if !has_lit(s, 0, &kw) {
        return None;
    }
    let p1 = match blanks1(s, 6) {
        None => {
            return None;
        },
        Some(p) => p,
    };
    let from = kw4(70u8, 82u8, 79u8, 77u8);
    if !has_lit(s, p1, &from) {
        return None;
    }
    let p2 = match blanks1(s, p1 + 4) {
        None => {
            return None;
        },
        Some(p) => p,
    };
    let tbl = the_table_bytes();
    if !has_lit(s, p2, &tbl) {
        return None;
    }
    let p3 = match blanks1(s, p2 + 9) {
        None => {
            return None;
        },
        Some(p) => p,
    };
    let mut wh: Vec<u8> = Vec::new();
    wh.push(87u8);
    wh.push(72u8);
    wh.push(69u8);
    wh.push(82u8);
    wh.push(69u8);
    proof {
        assert(wh@ =~= where_kw());
    }
    if !has_lit(s, p3, &wh) {
        return None;
    }
    let p4 = match blanks1(s, p3 + 5) {
        None => {
            return None;
        },
        Some(p) => p,
    };
    let mut keyw: Vec<u8> = Vec::new();
    keyw.push(107u8);
    keyw.push(101u8);
    keyw.push(121u8);
    proof {
        assert(keyw@ =~= key_kw());
    }
    if !has_lit(s, p4, &keyw) {
        return None;
    }
    let p5 = match blanks1(s, p4 + 3) {
        None => {
            return None;
        },
        Some(p) => p,
    };
    let eq = kw1(61u8);
    if !has_lit(s, p5, &eq) {
        return None;
    }
    let p6 = match blanks1(s, p5 + 1) {
        None => {
            return None;
        },
        Some(p) => p,
    };
    let quote = kw1(34u8);
    if !has_lit(s, p6, &quote) {
        return None;
    }
    let kend = find_from(s, p6 + 1, 34u8);
    if kend == p6 + 1 || kend >= slen {
        return None;
    }
    if !closes_input(s, kend + 1) {
        return None;
    }
    let key = crate::bytes::sub_bytes(s, p6 + 1, kend);
    Some(key)
}

fn try_select(s: &Vec<u8>) -> (r: Option<Vec<u8>>)
    ensures
        match parse_select(s@) {
            Some(k) => r matches Some(p) && p@ == k,
            None => r is None,
        },
{
    let slen = s.len();
    let kw = kw6(83u8, 69u8, 76u8, 69u8, 67u8, 84u8);
    if !has_lit(s, 0, &kw) {
        return None;
    }
    let p1 = match blanks1(s, 6) {
        None => {
            return None;
        },
        Some(p) => p,
    };
    let kend = find_from(s, p1, 32u8);
    if kend == p1 || kend >= slen {
        return None;
    }
    let key = crate::bytes::sub_bytes(s, p1, kend);
    let p2 = match blanks1(s, kend) {
        None => {
            return None;
        },
        Some(p) => p,
    };
    let from = kw4(70u8, 82u8, 79u8, 77u8);
    if !has_lit(s, p2, &from) {
        return None;
    }
    let p3 = match blanks1(s, p2 + 4) {
        None => {
            return None;
        },
        Some(p) => p,
    };
    let tbl = the_table_bytes();
    if !has_lit(s, p3, &tbl) {
        return None;
    }
    if !closes_input(s, p3 + 9) {
        return None;
    }
    Some(key)
}

impl Operation {
    /// Parses one request: the three statement forms are tried in order; a
    /// request longer than 1024 bytes is refused as unsupported; anything
    /// else that fits no form is a parse error.
    pub fn from_str(input: &Vec<u8>) -> (r: Result<Operation, KvError>)
        ensures
            input@.len() > 1024 ==> r == Err::<Operation, KvError>(KvError::Unsupported),
            input@.len() <= 1024 ==> match parse_insert(input@) {
                Some((k, v)) => r matches Ok(Operation::Insert(kk, vv)) && kk@ == k && vv@ == v,
                None => match parse_delete(input@) {
                    Some(k) => r matches Ok(Operation::Delete(kk)) && kk@ == k,
                    None => match parse_select(input@) {
                        Some(k) => r matches Ok(Operation::Select(kk)) && kk@ == k,
                        None => r == Err::<Operation, KvError>(KvError::ParseError),
                    },
                },
            },
    {
        if input.len() > 1024 {
            return Err(KvError::Unsupported);
        }
        match try_insert(input) {
            Some(kv) => {
                let (k, v) = kv;
                return Ok(Operation::Insert(k, v));
            },
            None => {},
        }
        match try_delete(input) {
            Some(k) => {
                return Ok(Operation::Delete(k));
            },
            None => {},
        }
        match try_select(input) {
            Some(k) => {
                return Ok(Operation::Select(k));
            },
            None => {},
        }
        Err(KvError::ParseError)
    }
}

} // verus!
