//! One record of the log: a `Set` or `Remove` command written as a line of
//! JSON, `{"Set":{"key":"k","value":"v"}}` or `{"Remove":{"key":"k"}}`.
use vstd::prelude::*;

use crate::escape::{escape, lemma_unescape_escape, lemma_unescape_sound, push_escaped, read_escaped, unescape, QUOTE};

verus! {

/// What a record says, over the bytes of its key and value.
pub enum LogOp {
    Put(Seq<u8>, Seq<u8>),
    Del(Seq<u8>),
}

/// A decoded record.
pub enum Record {
    Put { key: Vec<u8>, value: Vec<u8> },
    Del { key: Vec<u8> },
}

impl View for Record {
    type V = LogOp;

    open spec fn view(&self) -> LogOp {
        match self {
            Record::Put { key, value } => LogOp::Put(key@, value@),
            Record::Del { key } => LogOp::Del(key@),
        }
    }
}

/// `{"Set":{"key":"`
pub open spec fn set_head() -> Seq<u8> {
    seq![123u8, 34, 83, 101, 116, 34, 58, 123, 34, 107, 101, 121, 34, 58, 34]
}

/// `{"Remove":{"key":"`
pub open spec fn remove_head() -> Seq<u8> {
    seq![123u8, 34, 82, 101, 109, 111, 118, 101, 34, 58, 123, 34, 107, 101, 121, 34, 58, 34]
}

/// `,"value":"`
pub open spec fn value_mid() -> Seq<u8> {
    seq![44u8, 34, 118, 97, 108, 117, 101, 34, 58, 34]
}

/// `}}` and the line terminator.
pub open spec fn record_end() -> Seq<u8> {
    seq![125u8, 125, 10]
}

/// The bytes of one record.
pub open spec fn op_bytes(op: LogOp) -> Seq<u8> {
    match op {
        LogOp::Put(k, v) => set_head() + escape(k) + seq![QUOTE] + value_mid() + escape(v) + seq![
            QUOTE,
        ] + record_end(),
        LogOp::Del(k) => remove_head() + escape(k) + seq![QUOTE] + record_end(),
    }
}

pub open spec fn starts_with(t: Seq<u8>, p: Seq<u8>) -> bool {
    p.len() <= t.len() && t.take(p.len() as int) == p
}

/// Reads the record at the start of `t`: what it says and its length.
pub open spec fn parse_op(t: Seq<u8>) -> Option<(LogOp, int)> {
    if starts_with(t, set_head()) {
        let a = set_head().len() as int;
        match unescape(t.skip(a)) {
            Some((k, n1)) => {
                let b = a + n1;
                if starts_with(t.skip(b), value_mid()) {
                    let c = b + value_mid().len();
                    match unescape(t.skip(c)) {
                        Some((v, n2)) => {
                            let d = c + n2;
                            if starts_with(t.skip(d), record_end()) {
                                Some((LogOp::Put(k, v), d + record_end().len()))
                            } else {
                                None
                            }
                        },
                        None => None,
                    }
                } else {
                    None
                }
            },
            None => None,
        }
    } else if starts_with(t, remove_head()) {
        let a = remove_head().len() as int;
        match unescape(t.skip(a)) {
            Some((k, n1)) => {
                let d = a + n1;
                if starts_with(t.skip(d), record_end()) {
                    Some((LogOp::Del(k), d + record_end().len()))
                } else {
                    None
                }
            },
            None => None,
        }
    } else {
        None
    }
}

/// Reading back the bytes of a record, whatever follows it, gives the record
/// and its length.
pub proof fn lemma_parse_op_bytes(op: LogOp, rest: Seq<u8>)
    ensures
        parse_op(op_bytes(op) + rest) == Some((op, op_bytes(op).len() as int)),
{
    let t = op_bytes(op) + rest;
    match op {
        LogOp::Put(k, v) => {
            let a = set_head().len() as int;
            assert(t.take(a) =~= set_head());
            let r1 = value_mid() + escape(v) + seq![QUOTE] + record_end() + rest;
            assert(t.skip(a) =~= escape(k) + seq![QUOTE] + r1);
            lemma_unescape_escape(k, r1);
            let b = a + escape(k).len() + 1;
            assert(t.skip(b) =~= r1);
            assert(r1.take(value_mid().len() as int) =~= value_mid());
            let c = b + value_mid().len();
            let r2 = record_end() + rest;
            assert(t.skip(c) =~= escape(v) + seq![QUOTE] + r2);
            lemma_unescape_escape(v, r2);
            let d = c + escape(v).len() + 1;
            assert(t.skip(d) =~= r2);
            assert(r2.take(3) =~= record_end());
        },
        LogOp::Del(k) => {
            let a = remove_head().len() as int;
            assert(t[2] == 82);
            assert(!starts_with(t, set_head())) by {
                if starts_with(t, set_head()) {
                    assert(t.take(15)[2] == t[2]);
                }
            }
            assert(t.take(a) =~= remove_head());
            let r1 = record_end() + rest;
            assert(t.skip(a) =~= escape(k) + seq![QUOTE] + r1);
            lemma_unescape_escape(k, r1);
            let d = a + escape(k).len() + 1;
            assert(t.skip(d) =~= r1);
            assert(r1.take(3) =~= record_end());
        },
    }
}

/// Whatever `parse_op` reads is exactly the bytes of the record it returns.
pub proof fn lemma_parse_op_sound(t: Seq<u8>)
    ensures
        parse_op(t) matches Some((op, n)) ==> 0 < n <= t.len() && t.take(n) == op_bytes(op),
{
    if let Some((op, n)) = parse_op(t) {
        if starts_with(t, set_head()) {
            let a = set_head().len() as int;
            lemma_unescape_sound(t.skip(a));
            let (k, n1) = unescape(t.skip(a)).unwrap();
            let b = a + n1;
            let c = b + value_mid().len();
            lemma_unescape_sound(t.skip(c));
            let (v, n2) = unescape(t.skip(c)).unwrap();
            let d = c + n2;
            assert(t.take(n) =~= t.take(a) + t.skip(a).take(n1) + t.skip(b).take(
                value_mid().len() as int,
            ) + t.skip(c).take(n2) + t.skip(d).take(3));
        } else {
            let a = remove_head().len() as int;
            lemma_unescape_sound(t.skip(a));
            let (k, n1) = unescape(t.skip(a)).unwrap();
            let d = a + n1;
            assert(t.take(n) =~= t.take(a) + t.skip(a).take(n1) + t.skip(d).take(3));
        }
    }
}

fn set_head_bytes() -> (r: Vec<u8>)
    ensures
        r@ == set_head(),
{
    let r = vec![123u8, 34, 83, 101, 116, 34, 58, 123, 34, 107, 101, 121, 34, 58, 34];
    assert(r@ =~= set_head());
    r
}

fn remove_head_bytes() -> (r: Vec<u8>)
    ensures
        r@ == remove_head(),
{
    let r = vec![123u8, 34, 82, 101, 109, 111, 118, 101, 34, 58, 123, 34, 107, 101, 121, 34, 58, 34];
    assert(r@ =~= remove_head());
    r
}

fn value_mid_bytes() -> (r: Vec<u8>)
    ensures
        r@ == value_mid(),
{
    let r = vec![44u8, 34, 118, 97, 108, 117, 101, 34, 58, 34];
    assert(r@ =~= value_mid());
    r
}

fn record_end_bytes() -> (r: Vec<u8>)
    ensures
        r@ == record_end(),
{
    let r = vec![125u8, 125, 10];
    assert(r@ =~= record_end());
    r
}

/// Whether the bytes of `t` from `pos` on begin with `p`.
fn matches_at(t: &[u8], pos: usize, p: &Vec<u8>) -> (r: bool)
    requires
        pos <= t@.len(),
    ensures
        r == starts_with(t@.skip(pos as int), p@),
{
    if t.len() - pos < p.len() {
        return false;
    }
    let mut j: usize = 0;
    while j < p.len()
        invariant
            pos + p@.len() <= t@.len(),
            t@.len() == t.len(),
            j <= p@.len(),
            forall|m: int| 0 <= m < j ==> t@[pos + m] == p@[m],
        decreases p@.len() - j,
    {
        if t[pos + j] != p[j] {
            assert(t@.skip(pos as int).take(p@.len() as int)[j as int] != p@[j as int]);
            return false;
        }
        j = j + 1;
    }
    assert(t@.skip(pos as int).take(p@.len() as int) =~= p@);
    true
}

/// Appends the bytes of `op` to `out`.
pub fn push_record(out: &mut Vec<u8>, op: &Record)
    ensures
        final(out)@ == old(out)@ + op_bytes(op@),
{
    let ghost start = out@;
    let end = record_end_bytes();
    match op {
        Record::Put { key, value } => {
            let head = set_head_bytes();
            let mid = value_mid_bytes();
            out.extend_from_slice(head.as_slice());
            push_escaped(out, key.as_slice());
            out.push(QUOTE);
            out.extend_from_slice(mid.as_slice());
            push_escaped(out, value.as_slice());
            out.push(QUOTE);
            out.extend_from_slice(end.as_slice());
            assert(out@ =~= start + op_bytes(op@));
        },
        Record::Del { key } => {
            let head = remove_head_bytes();
            out.extend_from_slice(head.as_slice());
            push_escaped(out, key.as_slice());
            out.push(QUOTE);
            out.extend_from_slice(end.as_slice());
            assert(out@ =~= start + op_bytes(op@));
        },
    }
}

/// Reads the record that starts at `pos`, and the position just after it.
pub fn parse_record(t: &[u8], pos: usize) -> (r: Option<(Record, usize)>)
    requires
        pos <= t@.len(),
    ensures
        match parse_op(t@.skip(pos as int)) {
            Some((op, n)) => r matches Some((rec, e)) && rec@ == op && e == pos + n,
            None => r is None,
        },
{
    let ghost u = t@.skip(pos as int);
    let tl = t.len();
    assert(tl == t@.len());
    let end = record_end_bytes();
    let head = set_head_bytes();
    if matches_at(t, pos, &head) {
        assert(pos + 15 <= t@.len());
        let a = pos + 15;
        assert(u.skip(15) =~= t@.skip(a as int));
        let (key, b) = match read_escaped(t, a) {
            Some(x) => x,
            None => return None,
        };
        let mid = value_mid_bytes();
        assert(u.skip(b - pos) =~= t@.skip(b as int));
        if !matches_at(t, b, &mid) {
            return None;
        }
        let c = b + mid.len();
        assert(u.skip(c - pos) =~= t@.skip(c as int));
        let (value, d) = match read_escaped(t, c) {
            Some(x) => x,
            None => return None,
        };
        assert(u.skip(d - pos) =~= t@.skip(d as int));
        if !matches_at(t, d, &end) {
            return None;
        }
        return Some((Record::Put { key, value }, d + 3));
    }
    let head = remove_head_bytes();
    if matches_at(t, pos, &head) {
        assert(pos + 18 <= t@.len());
        let a = pos + 18;
        assert(u.skip(18) =~= t@.skip(a as int));
        let (key, d) = match read_escaped(t, a) {
            Some(x) => x,
            None => return None,
        };
        assert(u.skip(d - pos) =~= t@.skip(d as int));
        if !matches_at(t, d, &end) {
            return None;
        }
        return Some((Record::Del { key }, d + 3));
    }
    None
}

} // verus!
