//! The log-structured engine: the bytes of its log and an index from each
//! live key to the offset of the latest `Set` record for it.
//!
//! The engine holds the log in memory; the caller keeps the file on disk in
//! step with `log()` after each operation and hands the file's bytes to
//! `open` on start.
use vstd::prelude::*;
use vstd::utf8::{decode_utf8, encode_utf8, valid_utf8};

use crate::error::KvsError;
use crate::record::{
    lemma_parse_op_bytes, lemma_parse_op_sound, op_bytes, parse_op, parse_record, push_record,
    starts_with, LogOp, Record,
};

verus! {

/// A live key and the offset of its latest `Set` record.
pub struct IndexEntry {
    pub key: String,
    pub offset: usize,
}

/// The log written by a sequence of operations.
pub open spec fn log_of(ops: Seq<LogOp>) -> Seq<u8>
    decreases ops.len(),
{
    if ops.len() == 0 {
        Seq::empty()
    } else {
        op_bytes(ops[0]) + log_of(ops.skip(1))
    }
}

pub open spec fn apply(m: Map<Seq<u8>, Seq<u8>>, op: LogOp) -> Map<Seq<u8>, Seq<u8>> {
    match op {
        LogOp::Put(k, v) => m.insert(k, v),
        LogOp::Del(k) => m.remove(k),
    }
}

/// The mapping from keys to values that a sequence of operations leaves.
pub open spec fn replay(ops: Seq<LogOp>) -> Map<Seq<u8>, Seq<u8>>
    decreases ops.len(),
{
    if ops.len() == 0 {
        Map::empty()
    } else {
        apply(replay(ops.drop_last()), ops.last())
    }
}

/// The records of a log, read from its start to its end.
pub open spec fn decode_log(t: Seq<u8>) -> Option<Seq<LogOp>>
    decreases t.len(),
{
    if t.len() == 0 {
        Some(Seq::empty())
    } else {
        match parse_op(t) {
            Some((op, n)) => if 0 < n <= t.len() {
                match decode_log(t.skip(n)) {
                    Some(rest) => Some(seq![op] + rest),
                    None => None,
                }
            } else {
                None
            },
            None => None,
        }
    }
}

/// A record whose key and value are text.
pub open spec fn op_valid(op: LogOp) -> bool {
    match op {
        LogOp::Put(k, v) => valid_utf8(k) && valid_utf8(v),
        LogOp::Del(k) => valid_utf8(k),
    }
}

/// The mapping that recovery rebuilds from a log, if the log is a sequence
/// of records over text.
pub open spec fn recovered(t: Seq<u8>) -> Option<Map<Seq<u8>, Seq<u8>>> {
    match decode_log(t) {
        Some(ops) => if forall|j: int| 0 <= j < ops.len() ==> op_valid(#[trigger] ops[j]) {
            Some(replay(ops))
        } else {
            None
        },
        None => None,
    }
}

pub open spec fn key_of(e: IndexEntry) -> Seq<u8> {
    encode_utf8(e.key@)
}

/// No key stands twice in `index`.
pub open spec fn keys_unique(index: Seq<IndexEntry>) -> bool {
    forall|i: int, j: int| 0 <= i < j < index.len() ==> #[trigger] index[i].key@ != #[trigger] index[j].key@
}

/// The index as a map from each key's bytes to its offset.
pub open spec fn index_map(index: Seq<IndexEntry>) -> Map<Seq<u8>, int> {
    Map::new(
        |k: Seq<u8>| exists|i: int| 0 <= i < index.len() && key_of(index[i]) == k,
        |k: Seq<u8>| index[choose|i: int| 0 <= i < index.len() && key_of(index[i]) == k].offset as int,
    )
}

pub open spec fn op_key(op: LogOp) -> Seq<u8> {
    match op {
        LogOp::Put(k, _) => k,
        LogOp::Del(k) => k,
    }
}

/// The position of the last operation on `k` in `ops`, or -1 where none is.
pub open spec fn last_write(ops: Seq<LogOp>, k: Seq<u8>) -> int
    decreases ops.len(),
{
    if ops.len() == 0 {
        -1
    } else if op_key(ops.last()) == k {
        ops.len() - 1
    } else {
        last_write(ops.drop_last(), k)
    }
}

/// The byte offset in `log_of(ops)` at which the record of `ops[j]` starts.
pub open spec fn offset_of(ops: Seq<LogOp>, j: int) -> int {
    log_of(ops.take(j)).len() as int
}

/// Each key of `m` is mapped to the offset of the latest record on that key.
pub open spec fn latest_offsets(m: Map<Seq<u8>, int>, ops: Seq<LogOp>) -> bool {
    forall|k: Seq<u8>| #[trigger]
        m.contains_key(k) ==> 0 <= last_write(ops, k) < ops.len() && m[k] == offset_of(
            ops,
            last_write(ops, k),
        )
}

/// `index` maps each key of `m` to the offset in `log` of a `Set` record
/// of its value, and holds each key once.
pub open spec fn index_matches(index: Seq<IndexEntry>, log: Seq<u8>, m: Map<Seq<u8>, Seq<u8>>) -> bool {
    &&& keys_unique(index)
    &&& forall|i: int|
        0 <= i < index.len() ==> m.contains_key(#[trigger] key_of(index[i])) && index[i].offset
            <= log.len() && starts_with(
            log.skip(index[i].offset as int),
            op_bytes(LogOp::Put(key_of(index[i]), m[key_of(index[i])])),
        )
    &&& forall|k: Seq<u8>|
        #[trigger] m.contains_key(k) ==> exists|i: int| 0 <= i < index.len() && key_of(index[i]) == k
}

pub proof fn lemma_log_of_push(ops: Seq<LogOp>, op: LogOp)
    ensures
        log_of(ops.push(op)) == log_of(ops) + op_bytes(op),
    decreases ops.len(),
{
    if ops.len() == 0 {
        assert(ops.push(op).skip(1) =~= Seq::<LogOp>::empty());
        assert(ops.push(op)[0] == op);
        assert(log_of(ops.push(op).skip(1)) == Seq::<u8>::empty());
        assert(log_of(ops) == Seq::<u8>::empty());
        assert(log_of(ops.push(op)) =~= log_of(ops) + op_bytes(op));
    } else {
        lemma_log_of_push(ops.skip(1), op);
        assert(ops.push(op).skip(1) =~= ops.skip(1).push(op));
        assert(ops.push(op)[0] == ops[0]);
        assert(log_of(ops.push(op)) == op_bytes(ops[0]) + (log_of(ops.skip(1)) + op_bytes(op)));
        assert(log_of(ops) == op_bytes(ops[0]) + log_of(ops.skip(1)));
        assert(log_of(ops.push(op)) =~= log_of(ops) + op_bytes(op));
    }
}

/// Reading the log that a sequence of operations wrote gives the sequence.
pub proof fn lemma_decode_log_of(ops: Seq<LogOp>)
    ensures
        decode_log(log_of(ops)) == Some(ops),
    decreases ops.len(),
{
    if ops.len() == 0 {
        assert(ops =~= Seq::<LogOp>::empty());
    } else {
        let t = log_of(ops);
        lemma_parse_op_bytes(ops[0], log_of(ops.skip(1)));
        let n = op_bytes(ops[0]).len() as int;
        assert(n > 0) by {
            match ops[0] {
                LogOp::Put(k, v) => {},
                LogOp::Del(k) => {},
            }
        }
        assert(t.skip(n) =~= log_of(ops.skip(1)));
        lemma_decode_log_of(ops.skip(1));
        assert(seq![ops[0]] + ops.skip(1) =~= ops);
    }
}

pub proof fn lemma_encode_injective(a: Seq<char>, b: Seq<char>)
    ensures
        encode_utf8(a) == encode_utf8(b) <==> a == b,
{
    vstd::utf8::encode_utf8_decode_utf8(a);
    vstd::utf8::encode_utf8_decode_utf8(b);
}

proof fn lemma_index_extend(index: Seq<IndexEntry>, log: Seq<u8>, extra: Seq<u8>, m: Map<Seq<u8>, Seq<u8>>)
    requires
        index_matches(index, log, m),
    ensures
        index_matches(index, log + extra, m),
{
    assert forall|i: int| 0 <= i < index.len() implies starts_with(
        (log + extra).skip(index[i].offset as int),
        op_bytes(LogOp::Put(key_of(index[i]), m[key_of(index[i])])),
    ) by {
        let p = op_bytes(LogOp::Put(key_of(index[i]), m[key_of(index[i])]));
        let o = index[i].offset as int;
        assert(starts_with(log.skip(o), p));
        assert((log + extra).skip(o).take(p.len() as int) =~= log.skip(o).take(p.len() as int));
    }
}

proof fn lemma_index_map_at(index: Seq<IndexEntry>, i: int)
    requires
        keys_unique(index),
        0 <= i < index.len(),
    ensures
        index_map(index).contains_key(key_of(index[i])),
        index_map(index)[key_of(index[i])] == index[i].offset as int,
{
    let k = key_of(index[i]);
    assert(0 <= i < index.len() && key_of(index[i]) == k);
    let j = choose|j: int| 0 <= j < index.len() && key_of(index[j]) == k;
    lemma_encode_injective(index[i].key@, index[j].key@);
    if j < i {
        assert(index[j].key@ != index[i].key@);
    } else if i < j {
        assert(index[i].key@ != index[j].key@);
    }
}

proof fn lemma_index_map_update(before: Seq<IndexEntry>, i: int, e: IndexEntry)
    requires
        keys_unique(before),
        0 <= i < before.len(),
        e.key@ == before[i].key@,
    ensures
        keys_unique(before.update(i, e)),
        index_map(before.update(i, e)) == index_map(before).insert(key_of(e), e.offset as int),
{
    let after = before.update(i, e);
    let t = index_map(before).insert(key_of(e), e.offset as int);
    assert(keys_unique(after)) by {
        assert forall|a: int, b: int| 0 <= a < b < after.len() implies #[trigger] after[a].key@
            != #[trigger] after[b].key@ by {
            assert(before[a].key@ != before[b].key@);
        }
    }
    assert forall|k: Seq<u8>| index_map(after).contains_key(k) <==> t.contains_key(k) by {
        if index_map(after).contains_key(k) {
            let j = choose|j: int| 0 <= j < after.len() && key_of(after[j]) == k;
            if j != i {
                assert(key_of(before[j]) == k);
            }
        }
        if t.contains_key(k) && k != key_of(e) {
            let j = choose|j: int| 0 <= j < before.len() && key_of(before[j]) == k;
            assert(key_of(after[j]) == k);
        }
        if k == key_of(e) {
            assert(key_of(after[i]) == k);
        }
    }
    assert forall|k: Seq<u8>| #[trigger] index_map(after).contains_key(k) implies index_map(after)[k]
        == t[k] by {
        let j = choose|j: int| 0 <= j < after.len() && key_of(after[j]) == k;
        lemma_index_map_at(after, j);
        if j != i {
            assert(after[j] == before[j]);
            lemma_index_map_at(before, j);
            lemma_encode_injective(before[j].key@, before[i].key@);
            if j < i {
                assert(before[j].key@ != before[i].key@);
            } else {
                assert(before[i].key@ != before[j].key@);
            }
        }
    }
    assert(index_map(after) =~= t);
}

proof fn lemma_index_map_push(before: Seq<IndexEntry>, e: IndexEntry)
    requires
        keys_unique(before),
        forall|j: int| 0 <= j < before.len() ==> before[j].key@ != e.key@,
    ensures
        keys_unique(before.push(e)),
        index_map(before.push(e)) == index_map(before).insert(key_of(e), e.offset as int),
{
    let after = before.push(e);
    let n = before.len() as int;
    let t = index_map(before).insert(key_of(e), e.offset as int);
    assert(keys_unique(after)) by {
        assert forall|a: int, b: int| 0 <= a < b < after.len() implies #[trigger] after[a].key@
            != #[trigger] after[b].key@ by {
            assert(after[a] == before[a]);
            if b < n {
                assert(before[a].key@ != before[b].key@);
            }
        }
    }
    assert forall|k: Seq<u8>| index_map(after).contains_key(k) <==> t.contains_key(k) by {
        if index_map(after).contains_key(k) {
            let j = choose|j: int| 0 <= j < after.len() && key_of(after[j]) == k;
            if j < n {
                assert(key_of(before[j]) == k);
            }
        }
        if t.contains_key(k) && k != key_of(e) {
            let j = choose|j: int| 0 <= j < before.len() && key_of(before[j]) == k;
            assert(key_of(after[j]) == k);
        }
        if k == key_of(e) {
            assert(key_of(after[n]) == k);
        }
    }
    assert forall|k: Seq<u8>| #[trigger] index_map(after).contains_key(k) implies index_map(after)[k]
        == t[k] by {
        let j = choose|j: int| 0 <= j < after.len() && key_of(after[j]) == k;
        lemma_index_map_at(after, j);
        if j < n {
            assert(after[j] == before[j]);
            lemma_index_map_at(before, j);
            lemma_encode_injective(before[j].key@, e.key@);
        }
    }
    assert(index_map(after) =~= t);
}

proof fn lemma_index_map_remove(before: Seq<IndexEntry>, i: int)
    requires
        keys_unique(before),
        0 <= i < before.len(),
    ensures
        keys_unique(before.remove(i)),
        index_map(before.remove(i)) == index_map(before).remove(key_of(before[i])),
{
    let after = before.remove(i);
    assert(keys_unique(after)) by {
        assert forall|a: int, b: int| 0 <= a < b < after.len() implies #[trigger] after[a].key@
            != #[trigger] after[b].key@ by {
            let aa = if a < i { a } else { a + 1 };
            let bb = if b < i { b } else { b + 1 };
            assert(after[a] == before[aa] && after[b] == before[bb]);
        }
    }
    let ki = key_of(before[i]);
    let t = index_map(before).remove(ki);
    assert forall|k: Seq<u8>| index_map(after).contains_key(k) <==> t.contains_key(k) by {
        if index_map(after).contains_key(k) {
            let j = choose|j: int| 0 <= j < after.len() && key_of(after[j]) == k;
            let jj = if j < i { j } else { j + 1 };
            assert(after[j] == before[jj]);
            lemma_encode_injective(before[jj].key@, before[i].key@);
            if jj < i {
                assert(before[jj].key@ != before[i].key@);
            } else {
                assert(before[i].key@ != before[jj].key@);
            }
        }
        if t.contains_key(k) {
            let jb = choose|j: int| 0 <= j < before.len() && key_of(before[j]) == k;
            assert(jb != i);
            let j = if jb < i { jb } else { jb - 1 };
            assert(after[j] == before[jb]);
        }
    }
    assert forall|k: Seq<u8>| #[trigger] index_map(after).contains_key(k) implies index_map(after)[k]
        == t[k] by {
        let j = choose|j: int| 0 <= j < after.len() && key_of(after[j]) == k;
        let jj = if j < i { j } else { j + 1 };
        assert(after[j] == before[jj]);
        lemma_index_map_at(after, j);
        lemma_index_map_at(before, jj);
        lemma_encode_injective(before[jj].key@, before[i].key@);
        if jj < i {
            assert(before[jj].key@ != before[i].key@);
        } else {
            assert(before[i].key@ != before[jj].key@);
        }
    }
    assert(index_map(after) =~= t);
}

proof fn lemma_index_map_absent(index: Seq<IndexEntry>, key: Seq<char>)
    requires
        forall|i: int| 0 <= i < index.len() ==> index[i].key@ != key,
    ensures
        !index_map(index).contains_key(encode_utf8(key)),
        index_map(index).remove(encode_utf8(key)) == index_map(index),
{
    if index_map(index).contains_key(encode_utf8(key)) {
        let j = choose|j: int| 0 <= j < index.len() && key_of(index[j]) == encode_utf8(key);
        lemma_encode_injective(index[j].key@, key);
    }
    assert(index_map(index).remove(encode_utf8(key)) =~= index_map(index));
}

proof fn lemma_latest_push(m: Map<Seq<u8>, int>, ops: Seq<LogOp>, op: LogOp)
    requires
        latest_offsets(m, ops),
    ensures
        latest_offsets(m.remove(op_key(op)), ops.push(op)),
        latest_offsets(m.insert(op_key(op), log_of(ops).len() as int), ops.push(op)),
{
    let ops2 = ops.push(op);
    assert(ops2.drop_last() =~= ops);
    assert(ops2.take(ops.len() as int) =~= ops);
    assert forall|j: int| 0 <= j <= ops.len() implies #[trigger] offset_of(ops2, j) == offset_of(ops, j) by {
        assert(ops2.take(j) =~= ops.take(j));
    }
    assert forall|k: Seq<u8>| k != op_key(op) implies #[trigger] last_write(ops2, k) == last_write(ops, k) by {
    }
    let m1 = m.remove(op_key(op));
    assert forall|k: Seq<u8>| #[trigger] m1.contains_key(k) implies 0 <= last_write(ops2, k) < ops2.len()
        && m1[k] == offset_of(ops2, last_write(ops2, k)) by {
        assert(last_write(ops2, k) == last_write(ops, k));
        assert(offset_of(ops2, last_write(ops, k)) == offset_of(ops, last_write(ops, k)));
    }
    let m2 = m.insert(op_key(op), log_of(ops).len() as int);
    assert forall|k: Seq<u8>| #[trigger] m2.contains_key(k) implies 0 <= last_write(ops2, k) < ops2.len()
        && m2[k] == offset_of(ops2, last_write(ops2, k)) by {
        if k != op_key(op) {
            assert(last_write(ops2, k) == last_write(ops, k));
            assert(offset_of(ops2, last_write(ops, k)) == offset_of(ops, last_write(ops, k)));
        } else {
            assert(last_write(ops2, k) == ops.len());
            assert(offset_of(ops2, ops.len() as int) == offset_of(ops, ops.len() as int));
            assert(ops.take(ops.len() as int) =~= ops);
        }
    }
}

/// Relies on `String::from_utf8`: the text that a byte string encodes, if it
/// is valid UTF-8.
#[verifier::external_body]
pub(crate) fn utf8_string(bytes: Vec<u8>) -> (r: Option<String>)
    ensures
        r is Some <==> valid_utf8(bytes@),
        r matches Some(s) ==> s@ == decode_utf8(bytes@),
{
    String::from_utf8(bytes).ok()
}

fn bytes_of(s: &String) -> (r: Vec<u8>)
    ensures
        r@ == encode_utf8(s@),
{
    let b = s.as_str().as_bytes();
    let mut r: Vec<u8> = Vec::new();
    let mut i: usize = 0;
    while i < b.len()
        invariant
            i <= b@.len(),
            r@ == b@.take(i as int),
        decreases b@.len() - i,
    {
        r.push(b[i]);
        i = i + 1;
        assert(r@ =~= b@.take(i as int));
    }
    assert(b@.take(i as int) =~= b@);
    r
}

/// The position in `index` of `key`, if it is there.
fn find(index: &Vec<IndexEntry>, key: &String) -> (r: Option<usize>)
    ensures
        r matches Some(i) ==> i < index@.len() && index@[i as int].key@ == key@,
        r is None ==> forall|i: int| 0 <= i < index@.len() ==> index@[i].key@ != key@,
{
    let mut i: usize = 0;
    while i < index.len()
        invariant
            i <= index@.len(),
            forall|j: int| 0 <= j < i ==> index@[j].key@ != key@,
        decreases index@.len() - i,
    {
        if index[i].key == *key {
            return Some(i);
        }
        i = i + 1;
    }
    None
}

/// Points `key` at a `Set` record of `value` that stands at `offset`.
fn index_put(
    index: &mut Vec<IndexEntry>,
    key: String,
    offset: usize,
    Ghost(log): Ghost<Seq<u8>>,
    Ghost(m): Ghost<Map<Seq<u8>, Seq<u8>>>,
    Ghost(value): Ghost<Seq<u8>>,
)
    requires
        index_matches(old(index)@, log, m),
        offset <= log.len(),
        starts_with(log.skip(offset as int), op_bytes(LogOp::Put(encode_utf8(key@), value))),
    ensures
        index_matches(final(index)@, log, m.insert(encode_utf8(key@), value)),
        forall|j: int| 0 <= j < old(index)@.len() ==> #[trigger] final(index)@[j].key@ == old(index)@[j].key@,
        (forall|j: int| 0 <= j < old(index)@.len() ==> old(index)@[j].key@ != key@) ==> final(index)@.len()
            == old(index)@.len() + 1 && final(index)@[old(index)@.len() as int].key@ == key@,
    index_map(final(index)@) == index_map(old(index)@).insert(encode_utf8(key@), offset as int),
{
    let ghost k = encode_utf8(key@);
    let ghost m2 = m.insert(k, value);
    match find(index, &key) {
        Some(i) => {
            let ghost before = index@;
            index.set(i, IndexEntry { key, offset });
            proof {
                lemma_index_map_update(before, i as int, index@[i as int]);
                assert(index@ =~= before.update(i as int, index@[i as int]));
            }
            assert forall|j: int| 0 <= j < index@.len() implies m2.contains_key(
                #[trigger] key_of(index@[j]),
            ) && index@[j].offset <= log.len() && starts_with(
                log.skip(index@[j].offset as int),
                op_bytes(LogOp::Put(key_of(index@[j]), m2[key_of(index@[j])])),
            ) by {
                if j != i {
                    assert(index@[j] == before[j]);
                    assert(m.contains_key(key_of(before[j])));
                    if j < i {
                        assert(before[j].key@ != before[i as int].key@);
                    } else {
                        assert(before[i as int].key@ != before[j].key@);
                    }
                    lemma_encode_injective(before[j].key@, before[i as int].key@);
                }
            }
            assert forall|kk: Seq<u8>| #[trigger] m2.contains_key(kk) implies exists|j: int|
                0 <= j < index@.len() && key_of(index@[j]) == kk by {
                if kk != k {
                    let j = choose|j: int| 0 <= j < before.len() && key_of(before[j]) == kk;
                    assert(key_of(index@[j]) == kk);
                } else {
                    assert(key_of(index@[i as int]) == kk);
                }
            }
        },
        None => {
            let ghost before = index@;
            index.push(IndexEntry { key, offset });
            let ghost n = before.len() as int;
            proof {
                lemma_index_map_push(before, index@[n]);
                assert(index@ =~= before.push(index@[n]));
            }
            assert forall|j: int| 0 <= j < index@.len() implies m2.contains_key(
                #[trigger] key_of(index@[j]),
            ) && index@[j].offset <= log.len() && starts_with(
                log.skip(index@[j].offset as int),
                op_bytes(LogOp::Put(key_of(index@[j]), m2[key_of(index@[j])])),
            ) by {
                if j != n {
                    assert(index@[j] == before[j]);
                    lemma_encode_injective(before[j].key@, index@[n].key@);
                }
            }
            assert forall|kk: Seq<u8>| #[trigger] m2.contains_key(kk) implies exists|j: int|
                0 <= j < index@.len() && key_of(index@[j]) == kk by {
                if kk != k {
                    let j = choose|j: int| 0 <= j < before.len() && key_of(before[j]) == kk;
                    assert(index@[j] == before[j]);
                } else {
                    assert(key_of(index@[n]) == kk);
                }
            }
        },
    }
}

/// Drops `key` from the index; whether it was there.
fn index_del(
    index: &mut Vec<IndexEntry>,
    key: &String,
    Ghost(log): Ghost<Seq<u8>>,
    Ghost(m): Ghost<Map<Seq<u8>, Seq<u8>>>,
) -> (found: bool)
    requires
        index_matches(old(index)@, log, m),
    ensures
        found == m.contains_key(encode_utf8(key@)),
        index_matches(final(index)@, log, m.remove(encode_utf8(key@))),
        !found ==> final(index)@ == old(index)@,
        index_map(final(index)@) == index_map(old(index)@).remove(encode_utf8(key@)),
{
    let ghost k = encode_utf8(key@);
    let ghost m2 = m.remove(k);
    match find(index, key) {
        Some(i) => {
            let ghost before = index@;
            assert(m.contains_key(key_of(before[i as int])));
            index.remove(i);
            proof {
                lemma_index_map_remove(before, i as int);
            }
            assert forall|j: int| 0 <= j < index@.len() implies m2.contains_key(
                #[trigger] key_of(index@[j]),
            ) && index@[j].offset <= log.len() && starts_with(
                log.skip(index@[j].offset as int),
                op_bytes(LogOp::Put(key_of(index@[j]), m2[key_of(index@[j])])),
            ) by {
                let jj = if j < i { j } else { j + 1 };
                assert(index@[j] == before[jj]);
                assert(m.contains_key(key_of(before[jj])));
                if jj < i {
                    assert(before[jj].key@ != before[i as int].key@);
                } else {
                    assert(before[i as int].key@ != before[jj].key@);
                }
                lemma_encode_injective(before[jj].key@, before[i as int].key@);
            }
            assert forall|kk: Seq<u8>| #[trigger] m2.contains_key(kk) implies exists|j: int|
                0 <= j < index@.len() && key_of(index@[j]) == kk by {
                let jb = choose|j: int| 0 <= j < before.len() && key_of(before[j]) == kk;
                assert(jb != i);
                let j = if jb < i { jb } else { jb - 1 };
                assert(index@[j] == before[jb]);
            }
            true
        },
        None => {
            proof {
                lemma_index_map_absent(index@, key@);
            }
            assert(!m.contains_key(k)) by {
                if m.contains_key(k) {
                    let j = choose|j: int| 0 <= j < index@.len() && key_of(index@[j]) == k;
                    lemma_encode_injective(index@[j].key@, key@);
                }
            }
            assert(m2 =~= m);
            false
        },
    }
}


proof fn lemma_replay_valid(ops: Seq<LogOp>)
    requires
        forall|j: int| 0 <= j < ops.len() ==> op_valid(#[trigger] ops[j]),
    ensures
        forall|k: Seq<u8>| #[trigger]
            replay(ops).contains_key(k) ==> valid_utf8(k) && valid_utf8(replay(ops)[k]),
        replay(ops).dom().finite(),
    decreases ops.len(),
{
    if ops.len() > 0 {
        let init = ops.drop_last();
        assert forall|j: int| 0 <= j < init.len() implies op_valid(#[trigger] init[j]) by {
            assert(init[j] == ops[j]);
        }
        lemma_replay_valid(init);
        assert(op_valid(ops[ops.len() - 1]));
    }
}

proof fn lemma_replay_push(ops: Seq<LogOp>, op: LogOp)
    ensures
        replay(ops.push(op)) == apply(replay(ops), op),
{
    assert(ops.push(op).drop_last() =~= ops);
}

proof fn lemma_push_valid(ops: Seq<LogOp>, op: LogOp)
    requires
        forall|j: int| 0 <= j < ops.len() ==> op_valid(#[trigger] ops[j]),
        op_valid(op),
    ensures
        forall|j: int| 0 <= j < ops.push(op).len() ==> op_valid(#[trigger] ops.push(op)[j]),
{
    assert forall|j: int| 0 <= j < ops.push(op).len() implies op_valid(#[trigger] ops.push(op)[j]) by {
        if j < ops.len() {
            assert(ops.push(op)[j] == ops[j]);
        }
    }
}

/// The number of records in a log, if it is a sequence of records.
pub open spec fn record_count(t: Seq<u8>) -> Option<nat> {
    match decode_log(t) {
        Some(ops) => Some(ops.len()),
        None => None,
    }
}

/// The log-structured store.
pub struct KvStore {
    log: Vec<u8>,
    index: Vec<IndexEntry>,
    ops: Ghost<Seq<LogOp>>,
}

impl View for KvStore {
    type V = Map<Seq<u8>, Seq<u8>>;

    /// The live keys and their values, as UTF-8 bytes.
    closed spec fn view(&self) -> Map<Seq<u8>, Seq<u8>> {
        replay(self.ops@)
    }
}

impl KvStore {
    /// The log is the records of a sequence of operations over text, and
    /// the index points each live key at the `Set` record of its value.
    pub closed spec fn wf(&self) -> bool {
        &&& self.log@ == log_of(self.ops@)
        &&& forall|j: int| 0 <= j < self.ops@.len() ==> op_valid(#[trigger] self.ops@[j])
        &&& index_matches(self.index@, self.log@, replay(self.ops@))
        &&& latest_offsets(index_map(self.index@), self.ops@)
    }

    /// The index: each live key's bytes and the offset of its record.
    pub closed spec fn index_view(&self) -> Map<Seq<u8>, int> {
        index_map(self.index@)
    }

    /// The bytes of the log.
    pub closed spec fn log_bytes(&self) -> Seq<u8> {
        self.log@
    }

    proof fn lemma_wf_facts(&self)
        requires
            self.wf(),
        ensures
            decode_log(self.log@) == Some(self.ops@),
            recovered(self.log@) == Some(self@),
            forall|k: Seq<u8>| #[trigger]
                self@.contains_key(k) ==> valid_utf8(k) && valid_utf8(self@[k]),
            self@.dom().finite(),
    {
        lemma_decode_log_of(self.ops@);
        lemma_replay_valid(self.ops@);
    }

    /// An empty store with an empty log.
    pub fn new() -> (r: KvStore)
        ensures
            r.wf(),
            r@ == Map::<Seq<u8>, Seq<u8>>::empty(),
            r.log_bytes() == Seq::<u8>::empty(),
    {
        let r = KvStore { log: Vec::new(), index: Vec::new(), ops: Ghost(Seq::empty()) };
        assert(r.log@ =~= log_of(r.ops@));
        r
    }

    /// The bytes of the log, to be kept as the log file.
    pub fn log(&self) -> (r: &[u8])
        ensures
            r@ == self.log_bytes(),
    {
        self.log.as_slice()
    }

    /// Whether `key` has an entry in the index, and where.
    fn lookup(&self, key: &String) -> (r: Option<usize>)
        requires
            self.wf(),
        ensures
            r is Some <==> self@.contains_key(encode_utf8(key@)),
            r matches Some(i) ==> i < self.index@.len() && key_of(self.index@[i as int])
                == encode_utf8(key@),
    {
        let r = find(&self.index, key);
        proof {
            let m = self@;
            let k = encode_utf8(key@);
            if r is None {
                if m.contains_key(k) {
                    let j = choose|j: int| 0 <= j < self.index@.len() && key_of(self.index@[j]) == k;
                    lemma_encode_injective(self.index@[j].key@, key@);
                }
            } else {
                let i = r->0 as int;
                assert(m.contains_key(key_of(self.index@[i])));
            }
        }
        r
    }

    /// The value of `key`, or `None` where the key has no value.
    ///
    /// The index only ever points at `Set` records of live keys, so the
    /// record read back is always one; were it anything else, the log would
    /// not be the one this store wrote, and the answer is `Corrupt`.
    pub fn get(&mut self, key: String) -> (r: Result<Option<String>, KvsError>)
        requires
            old(self).wf(),
        ensures
            *final(self) == *old(self),
            match r {
                Ok(Some(v)) => old(self)@.contains_key(encode_utf8(key@)) && old(self)@[encode_utf8(
                    key@,
                )] == encode_utf8(v@),
                Ok(None) => !old(self)@.contains_key(encode_utf8(key@)),
                Err(_) => false,
            },
    {
        let i = match self.lookup(&key) {
            None => return Ok(None),
            Some(i) => i,
        };
        let off = self.index[i].offset;
        let ghost k = encode_utf8(key@);
        let ghost op = LogOp::Put(k, self@[k]);
        proof {
            self.lemma_wf_facts();
            let p = op_bytes(op);
            let u = self.log@.skip(off as int);
            assert(self.index@[i as int].offset == off);
            assert(starts_with(u, p));
            assert(u =~= p + u.skip(p.len() as int));
            lemma_parse_op_bytes(op, u.skip(p.len() as int));
        }
        match parse_record(self.log.as_slice(), off) {
            Some((Record::Put { key: _, value }, _)) => {
                proof {
                    vstd::utf8::decode_utf8_encode_utf8(value@);
                }
                match utf8_string(value) {
                    Some(s) => Ok(Some(s)),
                    None => Err(KvsError::Corrupt),
                }
            },
            _ => Err(KvsError::Corrupt),
        }
    }

    /// Appends the record `rec` to the log; the entries of the index stay
    /// where they were.
    fn append(&mut self, rec: &Record)
        requires
            old(self).wf(),
            op_valid(rec@),
        ensures
            final(self).log@ == log_of(final(self).ops@),
            forall|j: int| 0 <= j < final(self).ops@.len() ==> op_valid(#[trigger] final(self).ops@[j]),
            final(self).ops@ == old(self).ops@.push(rec@),
            final(self).log@ == old(self).log@ + op_bytes(rec@),
            final(self).index == old(self).index,
            index_matches(final(self).index@, final(self).log@, replay(old(self).ops@)),
    {
        let ghost old_log = self.log@;
        let ghost old_ops = self.ops@;
        push_record(&mut self.log, rec);
        proof {
            lemma_log_of_push(old_ops, rec@);
            lemma_push_valid(old_ops, rec@);
            lemma_index_extend(self.index@, old_log, op_bytes(rec@), replay(old_ops));
            self.ops = Ghost(old_ops.push(rec@));
        }
    }

    /// Sets `key` to `value`. Overwriting a key compacts the log.
    pub fn set(&mut self, key: String, value: String) -> (r: Result<(), KvsError>)
        requires
            old(self).wf(),
        ensures
            final(self).wf(),
            r is Ok,
            final(self)@ == old(self)@.insert(encode_utf8(key@), encode_utf8(value@)),
            old(self)@.contains_key(encode_utf8(key@)) ==> record_count(final(self).log_bytes())
                == Some(final(self)@.dom().len()),
            !old(self)@.contains_key(encode_utf8(key@)) ==> final(self).log_bytes() == old(
                self,
            ).log_bytes() + op_bytes(LogOp::Put(encode_utf8(key@), encode_utf8(value@))),
            !old(self)@.contains_key(encode_utf8(key@)) ==> final(self).index_view() == old(
                self,
            ).index_view().insert(encode_utf8(key@), old(self).log_bytes().len() as int),
    {
        let existed = self.lookup(&key).is_some();
        let off = self.log.len();
        let kb = bytes_of(&key);
        let vb = bytes_of(&value);
        let ghost m = self@;
        let ghost v = vb@;
        let ghost old_ops = self.ops@;
        let ghost old_im = index_map(self.index@);
        let rec = Record::Put { key: kb, value: vb };
        proof {
            vstd::utf8::encode_utf8_valid_utf8(key@);
            vstd::utf8::encode_utf8_valid_utf8(value@);
        }
        self.append(&rec);
        proof {
            lemma_latest_push(old_im, old_ops, rec@);
            lemma_replay_push(old_ops, rec@);
            assert(self.log@.skip(off as int).take(op_bytes(rec@).len() as int) =~= op_bytes(rec@));
        }
        index_put(&mut self.index, key, off, Ghost(self.log@), Ghost(m), Ghost(v));
        if existed {
            self.compaction()
        } else {
            Ok(())
        }
    }

    /// Removes `key`. A `Remove` record is appended whether or not the key
    /// has a value; where it has none the result is `KeyNotFound` and the
    /// log is not compacted, else the log is compacted.
    pub fn remove(&mut self, key: String) -> (r: Result<(), KvsError>)
        requires
            old(self).wf(),
        ensures
            final(self).wf(),
            final(self)@ == old(self)@.remove(encode_utf8(key@)),
            r is Ok <==> old(self)@.contains_key(encode_utf8(key@)),
            r is Err ==> r == Err::<(), KvsError>(KvsError::KeyNotFound),
            r is Ok ==> record_count(final(self).log_bytes()) == Some(final(self)@.dom().len()),
            r is Err ==> final(self).log_bytes() == old(self).log_bytes() + op_bytes(
                LogOp::Del(encode_utf8(key@)),
            ),
            r is Err ==> final(self).index_view() == old(self).index_view(),
    {
        let kb = bytes_of(&key);
        let ghost m = self@;
        let ghost old_ops = self.ops@;
        let ghost old_im = index_map(self.index@);
        let rec = Record::Del { key: kb };
        proof {
            vstd::utf8::encode_utf8_valid_utf8(key@);
        }
        self.append(&rec);
        proof {
            lemma_latest_push(old_im, old_ops, rec@);
            lemma_replay_push(old_ops, rec@);
        }
        let found = index_del(&mut self.index, &key, Ghost(self.log@), Ghost(m));
        if !found {
            return Err(KvsError::KeyNotFound);
        }
        self.compaction()
    }

    #[verifier::rlimit(60)]
    /// Rewrites the log as one `Set` record for each live key, in the order
    /// of the index.
    pub fn compaction(&mut self) -> (r: Result<(), KvsError>)
        requires
            old(self).wf(),
        ensures
            final(self).wf(),
            r is Ok,
            final(self)@ == old(self)@,
            record_count(final(self).log_bytes()) == Some(final(self)@.dom().len()),
    {
        let ghost m = self@;
        proof {
            self.lemma_wf_facts();
        }
        let mut next: Vec<u8> = Vec::new();
        let mut next_index: Vec<IndexEntry> = Vec::new();
        let ghost mut next_ops: Seq<LogOp> = Seq::empty();
        assert(next@ =~= log_of(next_ops));
        assert(replay(next_ops).dom() =~= Set::<Seq<u8>>::empty());
        assert(index_map(next_index@) =~= Map::<Seq<u8>, int>::empty());
        let mut i: usize = 0;
        while i < self.index.len()
            invariant
                self.wf(),
                m == self@,
                forall|k: Seq<u8>| #[trigger] m.contains_key(k) ==> valid_utf8(k) && valid_utf8(m[k]),
                i <= self.index@.len(),
                next_index@.len() == i,
                next_ops.len() == i,
                next@ == log_of(next_ops),
                forall|j: int| 0 <= j < i ==> #[trigger] next_index@[j].key@ == self.index@[j].key@,
                forall|j: int| 0 <= j < next_ops.len() ==> op_valid(#[trigger] next_ops[j]),
                index_matches(next_index@, next@, replay(next_ops)),
                forall|k: Seq<u8>| #[trigger]
                    replay(next_ops).contains_key(k) ==> m.contains_key(k) && replay(next_ops)[k]
                        == m[k],
                replay(next_ops).dom().finite(),
                replay(next_ops).dom().len() == i,
                latest_offsets(index_map(next_index@), next_ops),
            decreases self.index@.len() - i,
        {
            let off = self.index[i].offset;
            let ghost k = key_of(self.index@[i as int]);
            let ghost op = LogOp::Put(k, m[k]);
            let ghost p = op_bytes(op);
            proof {
                assert(m.contains_key(k));
                let u = self.log@.skip(off as int);
                assert(starts_with(u, p));
                assert(u =~= p + u.skip(p.len() as int));
                lemma_parse_op_bytes(op, u.skip(p.len() as int));
            }
            let e = match parse_record(self.log.as_slice(), off) {
                Some((_, e)) => e,
                None => return Err(KvsError::Corrupt),
            };
            let new_off = next.len();
            let ghost before = next@;
            let mut q: usize = off;
            while q < e
                invariant
                    off <= q <= e,
                    e == off + p.len(),
                    e <= self.log@.len(),
                    next@ == before + self.log@.subrange(off as int, q as int),
                decreases e - q,
            {
                next.push(self.log[q]);
                q = q + 1;
                assert(next@ =~= before + self.log@.subrange(off as int, q as int));
            }
            assert(self.log@.subrange(off as int, e as int) =~= self.log@.skip(off as int).take(
                p.len() as int,
            ));
            let ghost r_old = replay(next_ops);
            proof {
                lemma_latest_push(index_map(next_index@), next_ops, op);
                lemma_log_of_push(next_ops, op);
                assert(!r_old.contains_key(k)) by {
                    if r_old.contains_key(k) {
                        let j = choose|j: int| 0 <= j < next_index@.len() && key_of(next_index@[j]) == k;
                        assert(next_index@[j].key@ == self.index@[j].key@);
                        lemma_encode_injective(self.index@[j].key@, self.index@[i as int].key@);
                        assert(self.index@[j].key@ != self.index@[i as int].key@);
                    }
                }
                lemma_index_extend(next_index@, before, p, r_old);
                lemma_replay_push(next_ops, op);
                lemma_push_valid(next_ops, op);
                assert(next@.skip(new_off as int) =~= p);
                assert(next@.skip(new_off as int).take(p.len() as int) =~= p);
                assert(r_old.insert(k, m[k]).dom() == r_old.dom().insert(k));
            }
            let key = self.index[i].key.clone();
            assert(key@ == self.index@[i as int].key@);
            let ghost prev_index = next_index@;
            assert forall|j: int| 0 <= j < prev_index.len() implies prev_index[j].key@ != key@ by {
                assert(prev_index[j].key@ == self.index@[j].key@);
                assert(self.index@[j].key@ != self.index@[i as int].key@);
            }
            index_put(&mut next_index, key, new_off, Ghost(next@), Ghost(r_old), Ghost(m[k]));
            proof {
                next_ops = next_ops.push(op);
                assert forall|j: int| 0 <= j < i + 1 implies #[trigger] next_index@[j].key@
                    == self.index@[j].key@ by {
                    if j < i {
                        assert(prev_index[j].key@ == self.index@[j].key@);
                    }
                }
            }
            i = i + 1;
        }
        proof {
            let r = replay(next_ops);
            assert forall|k: Seq<u8>| m.contains_key(k) implies #[trigger] r.contains_key(k) by {
                let j = choose|j: int| 0 <= j < self.index@.len() && key_of(self.index@[j]) == k;
                assert(next_index@[j].key@ == self.index@[j].key@);
                assert(r.contains_key(key_of(next_index@[j])));
            }
            assert(r =~= m);
            lemma_decode_log_of(next_ops);
        }
        self.log = next;
        self.index = next_index;
        self.ops = Ghost(next_ops);
        Ok(())
    }

    #[verifier::rlimit(60)]
    /// Rebuilds a store from the bytes of a log file by replaying its
    /// records from the start. The log must be a sequence of records whose
    /// keys and values are text; otherwise the result is `Corrupt`.
    pub fn open(log: Vec<u8>) -> (r: Result<KvStore, KvsError>)
        ensures
            match r {
                Ok(s) => s.wf() && recovered(log@) == Some(s@) && s.log_bytes() == log@
                    && s.index_view().dom() == s@.dom() && (decode_log(log@) matches Some(ops)
                    && latest_offsets(s.index_view(), ops)),
                Err(e) => recovered(log@) is None && e == KvsError::Corrupt,
            },
    {
        let mut index: Vec<IndexEntry> = Vec::new();
        let ghost mut ops: Seq<LogOp> = Seq::empty();
        let mut pos: usize = 0;
        proof {
            assert(index_map(index@) =~= Map::<Seq<u8>, int>::empty());
            assert(log@.take(0) =~= log_of(ops));
            assert(log@.skip(0) =~= log@);
            match decode_log(log@) {
                Some(rest) => assert(ops + rest =~= rest),
                None => {},
            }
        }
        while pos < log.len()
            invariant
                pos <= log@.len(),
                log@.take(pos as int) == log_of(ops),
                decode_log(log@) == match decode_log(log@.skip(pos as int)) {
                    Some(rest) => Some(ops + rest),
                    None => None,
                },
                forall|j: int| 0 <= j < ops.len() ==> op_valid(#[trigger] ops[j]),
                index_matches(index@, log@.take(pos as int), replay(ops)),
                latest_offsets(index_map(index@), ops),
            decreases log@.len() - pos,
        {
            let ghost u = log@.skip(pos as int);
            let (rec, e) = match parse_record(log.as_slice(), pos) {
                Some(x) => x,
                None => return Err(KvsError::Corrupt),
            };
            let ghost op = rec@;
            let ghost n = e - pos;
            let ghost tail_dec = decode_log(log@.skip(e as int));
            proof {
                lemma_latest_push(index_map(index@), ops, op);
                assert(log_of(ops).len() == pos);
                lemma_parse_op_sound(u);
                assert(u.skip(n) =~= log@.skip(e as int));
                assert(log@.take(e as int) =~= log@.take(pos as int) + op_bytes(op));
                lemma_log_of_push(ops, op);
                lemma_index_extend(index@, log@.take(pos as int), op_bytes(op), replay(ops));
                lemma_replay_push(ops, op);
                match tail_dec {
                    Some(rest) => {
                        assert(ops + (seq![op] + rest) =~= ops.push(op) + rest);
                        assert((ops + (seq![op] + rest))[ops.len() as int] == op);
                    },
                    None => {},
                }
                assert(log@.take(e as int).skip(pos as int) =~= op_bytes(op));
            }
            match rec {
                Record::Put { key, value } => {
                    let ghost kb = key@;
                    let ghost vb = value@;
                    let k = match utf8_string(key) {
                        Some(s) => s,
                        None => return Err(KvsError::Corrupt),
                    };
                    proof {
                        vstd::utf8::decode_utf8_encode_utf8(kb);
                        assert(op == LogOp::Put(kb, vb));
                        assert(encode_utf8(k@) == kb);
                        assert(log@.take(e as int).skip(pos as int).take(op_bytes(op).len() as int) =~= op_bytes(op));
                    }
                    if utf8_string(value).is_none() {
                        return Err(KvsError::Corrupt);
                    }
                    index_put(&mut index, k, pos, Ghost(log@.take(e as int)), Ghost(replay(ops)), Ghost(vb));
                },
                Record::Del { key } => {
                    let ghost kb = key@;
                    let k = match utf8_string(key) {
                        Some(s) => s,
                        None => return Err(KvsError::Corrupt),
                    };
                    proof {
                        vstd::utf8::decode_utf8_encode_utf8(kb);
                    }
                    index_del(&mut index, &k, Ghost(log@.take(e as int)), Ghost(replay(ops)));
                },
            }
            proof {
                lemma_push_valid(ops, op);
                ops = ops.push(op);
            }
            pos = e;
        }
        proof {
            assert(log@.skip(pos as int) =~= Seq::<u8>::empty());
            assert(ops + Seq::<LogOp>::empty() =~= ops);
            assert(log@.take(pos as int) =~= log@);
        }
        let st = KvStore { log, index, ops: Ghost(ops) };
        proof {
            lemma_index_latest(st);
        }
        Ok(st)
    }
}

/// After `set(key, value)`, `get(key)` returns `value`: `set` leaves the
/// view `m.insert(..)`, in which `get` finds exactly the text `value`. The
/// contracts of both engines, `KvStore` and `SledKvStore`, are stated over
/// such a view.
pub proof fn lemma_set_then_get(m: Map<Seq<u8>, Seq<u8>>, key: Seq<char>, value: Seq<char>)
    ensures
        m.insert(encode_utf8(key), encode_utf8(value)).contains_key(encode_utf8(key)),
        forall|v: Seq<char>|
            m.insert(encode_utf8(key), encode_utf8(value))[encode_utf8(key)] == encode_utf8(v) ==> v
                == value,
{
    assert forall|v: Seq<char>|
        m.insert(encode_utf8(key), encode_utf8(value))[encode_utf8(key)] == encode_utf8(v) implies v
        == value by {
        lemma_encode_injective(v, value);
    }
}

/// After `remove(key)` of a key that has a value, `get(key)` finds nothing
/// and a second `remove(key)` fails with `KeyNotFound`: the view that the
/// first removal leaves lacks the key, and removing it again changes nothing.
pub proof fn lemma_remove_then_get(m: Map<Seq<u8>, Seq<u8>>, key: Seq<char>)
    ensures
        !m.remove(encode_utf8(key)).contains_key(encode_utf8(key)),
        m.remove(encode_utf8(key)).remove(encode_utf8(key)) == m.remove(encode_utf8(key)),
{
    assert(m.remove(encode_utf8(key)).remove(encode_utf8(key)) =~= m.remove(encode_utf8(key)));
}

/// After `set(key, v1)` and `set(key, v2)`, `get(key)` returns `v2`.
pub proof fn lemma_overwrite(m: Map<Seq<u8>, Seq<u8>>, key: Seq<char>, v1: Seq<char>, v2: Seq<char>)
    ensures
        m.insert(encode_utf8(key), encode_utf8(v1)).insert(encode_utf8(key), encode_utf8(v2)).contains_key(
            encode_utf8(key),
        ),
        forall|v: Seq<char>|
            m.insert(encode_utf8(key), encode_utf8(v1)).insert(encode_utf8(key), encode_utf8(v2))[encode_utf8(
                key,
            )] == encode_utf8(v) ==> v == v2,
{
    assert forall|v: Seq<char>|
        m.insert(encode_utf8(key), encode_utf8(v1)).insert(encode_utf8(key), encode_utf8(v2))[encode_utf8(
            key,
        )] == encode_utf8(v) implies v == v2 by {
        lemma_encode_injective(v, v2);
    }
}

/// Replaying the log of a store, as `open` does, rebuilds exactly the keys
/// and values of the store, whatever operations wrote the log.
pub proof fn lemma_reopen(s: KvStore)
    requires
        s.wf(),
    ensures
        recovered(s.log_bytes()) == Some(s@),
{
    s.lemma_wf_facts();
}

/// The index of a store maps exactly its live keys, each to the offset of
/// the latest record on that key in the log, and the record there is a
/// `Set` of the key's current value.
pub proof fn lemma_index_latest(s: KvStore)
    requires
        s.wf(),
    ensures
        s.index_view().dom() == s@.dom(),
        decode_log(s.log_bytes()) matches Some(ops) && latest_offsets(s.index_view(), ops),
        forall|k: Seq<u8>| #[trigger]
            s.index_view().contains_key(k) ==> 0 <= s.index_view()[k] <= s.log_bytes().len() && (
            parse_op(s.log_bytes().skip(s.index_view()[k])) matches Some((op, _)) && op
                == LogOp::Put(k, s@[k])),
{
    s.lemma_wf_facts();
    let idx = s.index@;
    let m = s@;
    assert forall|k: Seq<u8>| s.index_view().contains_key(k) <==> m.contains_key(k) by {
        if s.index_view().contains_key(k) {
            let j = choose|j: int| 0 <= j < idx.len() && key_of(idx[j]) == k;
            assert(m.contains_key(key_of(idx[j])));
        }
    }
    assert(s.index_view().dom() =~= m.dom());
    assert forall|k: Seq<u8>| #[trigger] s.index_view().contains_key(k) implies 0 <= s.index_view()[k]
        <= s.log_bytes().len() && (parse_op(s.log_bytes().skip(s.index_view()[k])) matches Some(
        (op, _),
    ) && op == LogOp::Put(k, m[k])) by {
        let j = choose|j: int| 0 <= j < idx.len() && key_of(idx[j]) == k;
        lemma_index_map_at(idx, j);
        assert(m.contains_key(key_of(idx[j])));
        let op = LogOp::Put(k, m[k]);
        let p = op_bytes(op);
        let u = s.log@.skip(idx[j].offset as int);
        assert(starts_with(u, p));
        assert(u =~= p + u.skip(p.len() as int));
        lemma_parse_op_bytes(op, u.skip(p.len() as int));
    }
}

} // verus!
