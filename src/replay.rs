//! The meaning of a log: the lines it holds and the index that replaying
//! them in order builds.
use vstd::prelude::*;
use crate::codec::{decode_body, encode_body, encode_record, lemma_body_no_newline, lemma_decode_encode, lemma_encode_decode, Record, NEWLINE};

verus! {

/// Where the line that starts at `i` ends: the index of its line feed, or the
/// length of `b` where no line feed follows.
pub open spec fn line_end(b: Seq<u8>, i: int) -> int
    decreases b.len() - i,
{
    if i < 0 || i >= b.len() {
        b.len() as int
    } else if b[i] == NEWLINE {
        i
    } else {
        line_end(b, i + 1)
    }
}

/// The effect of one record, stored at `[begin, end)`, on an index.
pub open spec fn apply_record(
    idx: Map<Seq<char>, (int, int)>,
    r: Record,
    begin: int,
    end: int,
) -> Map<Seq<char>, (int, int)> {
    match r {
        Record::Put(k, _) => idx.insert(k, (begin, end)),
        Record::Rm(k) => idx.remove(k),
        Record::Get(_) => idx,
    }
}

/// Replays the complete lines of `b` from index `start` onto `idx`. A final
/// line without a line feed is a truncated record and is left out; a complete
/// line that does not decode makes the whole log corrupt.
pub open spec fn replay_from(b: Seq<u8>, start: int, idx: Map<Seq<char>, (int, int)>) -> Option<
    Map<Seq<char>, (int, int)>,
>
    decreases b.len() - start,
{
    if start < 0 || start >= b.len() {
        Some(idx)
    } else {
        let e = line_end(b, start);
        if e < start || e >= b.len() {
            Some(idx)
        } else {
            match decode_body(b.subrange(start, e)) {
                Some(r) => replay_from(b, e + 1, apply_record(idx, r, start, e)),
                None => None,
            }
        }
    }
}

/// The index that a log rebuilds, or `None` for a corrupt log.
pub open spec fn replay(b: Seq<u8>) -> Option<Map<Seq<char>, (int, int)>> {
    replay_from(b, 0, Map::empty())
}

/// The length of the part of `b` that ends with its last line feed.
pub open spec fn complete_len(b: Seq<u8>) -> int
    decreases b.len(),
{
    if b.len() == 0 {
        0
    } else if b.last() == NEWLINE {
        b.len() as int
    } else {
        complete_len(b.drop_last())
    }
}

/// A log that holds whole records only.
pub open spec fn complete(b: Seq<u8>) -> bool {
    b.len() == 0 || b.last() == NEWLINE
}

/// The record stored at a range.
pub open spec fn record_at(log: Seq<u8>, range: (int, int)) -> Option<Record> {
    decode_body(log.subrange(range.0, range.1))
}

/// The value of the `Set` record stored at a range.
pub open spec fn value_at(log: Seq<u8>, range: (int, int)) -> Seq<char> {
    match record_at(log, range) {
        Some(Record::Put(_, v)) => v,
        _ => Seq::empty(),
    }
}

/// Each range in the index holds a line of the log whose record sets its key.
pub open spec fn ranges_hold_sets(log: Seq<u8>, idx: Map<Seq<char>, (int, int)>) -> bool {
    forall|k: Seq<char>|
        #[trigger] idx.contains_key(k) ==> {
            let (s, e) = idx[k];
            &&& 0 <= s <= e < log.len()
            &&& log[e] == NEWLINE
            &&& record_at(log, idx[k]) == Some(Record::Put(k, value_at(log, idx[k])))
        }
}

/// The bindings that an index over a log stands for.
pub open spec fn bindings_of(log: Seq<u8>, idx: Map<Seq<char>, (int, int)>) -> Map<
    Seq<char>,
    Seq<char>,
> {
    Map::new(|k: Seq<char>| idx.contains_key(k), |k: Seq<char>| value_at(log, idx[k]))
}

// ---------------------------------------------------------------------------
// Lemmas.

/// What `line_end` finds.
pub proof fn lemma_line_end(b: Seq<u8>, i: int)
    requires
        0 <= i <= b.len(),
    ensures
        i <= line_end(b, i) <= b.len(),
        line_end(b, i) < b.len() ==> b[line_end(b, i)] == NEWLINE,
        forall|j: int| i <= j < line_end(b, i) ==> b[j] != NEWLINE,
    decreases b.len() - i,
{
    if i < b.len() && b[i] != NEWLINE {
        lemma_line_end(b, i + 1);
    }
}

/// `line_end` is the first line feed at or after `i`.
pub proof fn lemma_line_end_at(b: Seq<u8>, i: int, j: int)
    requires
        0 <= i <= j <= b.len(),
        j < b.len() ==> b[j] == NEWLINE,
        forall|t: int| i <= t < j ==> b[t] != NEWLINE,
    ensures
        line_end(b, i) == j,
{
    lemma_line_end(b, i);
    let e = line_end(b, i);
    if e < j {
        assert(b[e] == NEWLINE);
    }
    if j < e {
        assert(b[j] != NEWLINE);
    }
}

/// Bytes after the last line feed do not change what a log replays to.
pub proof fn lemma_replay_tail(b: Seq<u8>, start: int, idx: Map<Seq<char>, (int, int)>)
    requires
        0 <= start <= b.len(),
        forall|t: int| start <= t < b.len() ==> b[t] != NEWLINE,
    ensures
        replay_from(b, start, idx) == Some(idx),
{
    if start < b.len() {
        lemma_line_end_at(b, start, b.len() as int);
    }
}

/// Replaying a complete log followed by more bytes replays the log first,
/// then the bytes.
pub proof fn lemma_replay_concat(
    l: Seq<u8>,
    x: Seq<u8>,
    start: int,
    idx: Map<Seq<char>, (int, int)>,
)
    requires
        complete(l),
        0 <= start <= l.len(),
    ensures
        replay_from(l + x, start, idx) == match replay_from(l, start, idx) {
            Some(m) => replay_from(l + x, l.len() as int, m),
            None => None,
        },
    decreases l.len() - start,
{
    if start < l.len() {
        let lx = l + x;
        lemma_line_end(l, start);
        let e = line_end(l, start);
        if e == l.len() {
            assert(l[l.len() - 1] != NEWLINE);
        }
        assert(e < l.len());
        lemma_line_end_at(lx, start, e);
        assert(lx.subrange(start, e) =~= l.subrange(start, e));
        match decode_body(l.subrange(start, e)) {
            Some(r) => {
                lemma_replay_concat(l, x, e + 1, apply_record(idx, r, start, e));
            },
            None => {},
        }
    }
}

/// Appending one encoded record to a complete log adds it to the replay.
pub proof fn lemma_replay_append(l: Seq<u8>, r: Record)
    requires
        complete(l),
        replay(l) is Some,
    ensures
        complete(l + encode_record(r)),
        replay(l + encode_record(r)) == Some(
            apply_record(
                replay(l)->Some_0,
                r,
                l.len() as int,
                (l.len() + encode_body(r).len()) as int,
            ),
        ),
        (l + encode_record(r)).subrange(l.len() as int, (l.len() + encode_body(r).len()) as int)
            == encode_body(r),
{
    let x = encode_record(r);
    let body = encode_body(r);
    let lx = l + x;
    let n = l.len() as int;
    let e = n + body.len();
    lemma_replay_concat(l, x, 0, Map::empty());
    lemma_replay_tail(l, n, Map::empty());
    lemma_body_no_newline(r);
    assert forall|t: int| n <= t < e implies lx[t] != NEWLINE by {
        assert(lx[t] == body[t - n]);
    }
    assert(lx[e] == NEWLINE);
    lemma_line_end_at(lx, n, e);
    assert(lx.subrange(n, e) =~= body);
    lemma_decode_encode(r);
    let m = apply_record(replay(l)->Some_0, r, n, e);
    assert(replay_from(lx, n, replay(l)->Some_0) == replay_from(lx, e + 1, m));
    assert(lx.last() == NEWLINE);
}

/// The body stored at a range that decodes holds no line feed, and with the
/// line feed after it, it is the whole encoded record.
pub proof fn lemma_range_is_record(log: Seq<u8>, s: int, e: int)
    requires
        0 <= s <= e < log.len(),
        log[e] == NEWLINE,
        decode_body(log.subrange(s, e)) is Some,
    ensures
        log.subrange(s, e + 1) == encode_record(decode_body(log.subrange(s, e))->Some_0),
        log.subrange(s, e) == encode_body(decode_body(log.subrange(s, e))->Some_0),
{
    lemma_encode_decode(log.subrange(s, e));
    assert(log.subrange(s, e + 1) =~= log.subrange(s, e).push(NEWLINE));
}

/// A prefix of a log keeps the records that lie wholly inside it.
pub proof fn lemma_ranges_prefix(log: Seq<u8>, more: Seq<u8>, idx: Map<Seq<char>, (int, int)>)
    requires
        ranges_hold_sets(log, idx),
    ensures
        ranges_hold_sets(log + more, idx),
        bindings_of(log + more, idx) == bindings_of(log, idx),
{
    let lm = log + more;
    assert forall|k: Seq<char>| #[trigger] idx.contains_key(k) implies lm.subrange(idx[k].0, idx[k].1)
        == log.subrange(idx[k].0, idx[k].1) by {
        assert(lm.subrange(idx[k].0, idx[k].1) =~= log.subrange(idx[k].0, idx[k].1));
    }
    assert(bindings_of(lm, idx) =~= bindings_of(log, idx));
}

/// A complete log followed by bytes without a line feed keeps its length as
/// the length of its complete part.
pub proof fn lemma_complete_len_tail(l: Seq<u8>, t: Seq<u8>)
    requires
        complete(l),
        forall|i: int| 0 <= i < t.len() ==> t[i] != NEWLINE,
    ensures
        complete_len(l + t) == l.len(),
    decreases t.len(),
{
    if t.len() == 0 {
        assert(l + t =~= l);
    } else {
        assert((l + t).drop_last() =~= l + t.drop_last());
        assert((l + t).last() == t[t.len() - 1]);
        lemma_complete_len_tail(l, t.drop_last());
    }
}

} // verus!
