//! The log-structured store: an append-only command log, the key index over
//! it, replay on open and compaction.
//!
//! The store keeps the whole log in memory and says, through [`LogWrite`]s,
//! how the file that holds it must change after each operation; whoever owns
//! the file applies them in order (see [`KvStore::take_writes`]).
use vstd::prelude::*;
use crate::codec::{
    decode, decode_body, encode, encode_body, encode_record, lemma_decode_encode, Command, Record,
    NEWLINE,
};
use crate::errors::{ErrKeyNotFound, KvsError};
use crate::index::{Bound, KeyIndex};
use crate::replay::{
    apply_record, bindings_of, complete, complete_len, lemma_complete_len_tail, lemma_line_end_at,
    lemma_range_is_record, lemma_replay_concat, line_end,
    lemma_ranges_prefix, lemma_replay_append, lemma_replay_tail, ranges_hold_sets, record_at,
    replay, replay_from, value_at,
};

verus! {

/// The compaction threshold: a mutation that brings the count of mutations
/// since the last compaction above it compacts the log.
pub const COMPACTION_THRESHOLD: u64 = 9999;

/// A change to the log file.
#[derive(Debug, PartialEq, Eq)]
pub enum LogWrite {
    /// Extend the file by these bytes.
    Append(Vec<u8>),
    /// Cut the file to its first bytes, dropping a truncated record.
    Truncate(usize),
    /// Replace the whole file by these bytes, atomically.
    Replace(Vec<u8>),
}

/// The file after one write.
pub open spec fn apply_write(file: Seq<u8>, w: LogWrite) -> Seq<u8> {
    match w {
        LogWrite::Append(b) => file + b@,
        LogWrite::Truncate(n) => if n <= file.len() {
            file.subrange(0, n as int)
        } else {
            file
        },
        LogWrite::Replace(b) => b@,
    }
}

/// The file after writes applied in order.
pub open spec fn apply_writes(file: Seq<u8>, ws: Seq<LogWrite>) -> Seq<u8>
    decreases ws.len(),
{
    if ws.len() == 0 {
        file
    } else {
        apply_write(apply_writes(file, ws.drop_last()), ws.last())
    }
}

/// What reopening a file gives: the bindings its complete records stand for,
/// or `None` for a corrupt file.
pub open spec fn reopened_bindings(file: Seq<u8>) -> Option<Map<Seq<char>, Seq<char>>> {
    match replay(file) {
        Some(idx) => Some(bindings_of(file.subrange(0, complete_len(file)), idx)),
        None => None,
    }
}

/// Byte `t` of the log belongs to the latest record of a bound key, or is the
/// line feed that ends it.
pub open spec fn in_live_record(idx: Map<Seq<char>, (int, int)>, t: int) -> bool {
    exists|k: Seq<char>| #[trigger] idx.contains_key(k) && idx[k].0 <= t <= idx[k].1
}

/// Every byte of the log belongs to the latest record of a bound key.
pub open spec fn only_live_records(log: Seq<u8>, idx: Map<Seq<char>, (int, int)>) -> bool {
    forall|t: int| 0 <= t < log.len() ==> #[trigger] in_live_record(idx, t)
}

/// The `Set` records of the keys `ks`, in order, with their values in `m`.
pub open spec fn records_of(ks: Seq<Seq<char>>, m: Map<Seq<char>, Seq<char>>) -> Seq<u8>
    decreases ks.len(),
{
    if ks.len() == 0 {
        Seq::empty()
    } else {
        records_of(ks.drop_last(), m) + encode_record(Record::Put(ks.last(), m[ks.last()]))
    }
}

/// The log holds exactly one `Set` record for each bound key, with the key's
/// current value, in some order, and nothing else.
pub open spec fn one_set_per_key(log: Seq<u8>, m: Map<Seq<char>, Seq<char>>) -> bool {
    exists|ks: Seq<Seq<char>>|
        #[trigger] records_of(ks, m) == log && ks.no_duplicates() && ks.to_set() == m.dom()
}

/// The index has the bound keys, and each of its ranges holds the body of its
/// key's `Set` record with the key's current value, followed by a line feed.
pub open spec fn ranges_hold_records(
    log: Seq<u8>,
    idx: Map<Seq<char>, (int, int)>,
    m: Map<Seq<char>, Seq<char>>,
) -> bool {
    &&& idx.dom() == m.dom()
    &&& forall|k: Seq<char>|
        #[trigger] idx.contains_key(k) ==> {
            &&& 0 <= idx[k].0 <= idx[k].1 < log.len()
            &&& log[idx[k].1] == NEWLINE
            &&& log.subrange(idx[k].0, idx[k].1) == encode_body(Record::Put(k, m[k]))
        }
}

/// A key/value store over an append-only log of commands.
pub struct KvStore {
    log: Vec<u8>,
    index: KeyIndex,
    ops: u64,
    tail: usize,
    tail_bytes: Ghost<Seq<u8>>,
    pending: Vec<LogWrite>,
    synced: Ghost<Seq<u8>>,
}

/// One step of replay on open: the complete line `[begin, i)` of `b`, ended
/// by the line feed at `i`, joins the replayed prefix.
#[verifier::spinoff_prover]
#[verifier::rlimit(100)]
proof fn lemma_open_step(b: Seq<u8>, begin: int, i: int, idx: Map<Seq<char>, (int, int)>, r: Record)
    requires
        0 <= begin <= i < b.len(),
        b[i] == NEWLINE,
        decode_body(b.subrange(begin, i)) == Some(r),
        replay(b.subrange(0, begin)) == Some(idx),
        complete(b.subrange(0, begin)),
        ranges_hold_sets(b.subrange(0, begin), idx),
    ensures
        ({
            let post = b.subrange(0, i + 1);
            let idx2 = apply_record(idx, r, begin, i);
            &&& replay(post) == Some(idx2)
            &&& complete(post)
            &&& ranges_hold_sets(post, idx2)
        }),
{
    let pre = b.subrange(0, begin);
    let post = b.subrange(0, i + 1);
    lemma_range_is_record(b, begin, i);
    assert(post =~= pre + encode_record(r));
    lemma_replay_append(pre, r);
    lemma_ranges_prefix(pre, encode_record(r), idx);
    match r {
        Record::Put(k0, v0) => {
            lemma_set_range(post, idx, k0, v0, begin, i);
        },
        _ => {
            let idx2 = apply_record(idx, r, begin, i);
            assert forall|k: Seq<char>| #[trigger] idx2.contains_key(k) implies idx.contains_key(k) && idx2[k] == idx[k] by {}
        },
    }
}

/// A log whose complete records hold the ranges of `idx` still does after a
/// `Set` of `k` is indexed at `[begin, end)`, where that record stands.
proof fn lemma_set_range(
    log: Seq<u8>,
    idx: Map<Seq<char>, (int, int)>,
    k: Seq<char>,
    v: Seq<char>,
    begin: int,
    end: int,
)
    requires
        ranges_hold_sets(log, idx),
        0 <= begin <= end < log.len(),
        log[end] == NEWLINE,
        log.subrange(begin, end) == encode_body(Record::Put(k, v)),
    ensures
        ranges_hold_sets(log, idx.insert(k, (begin, end))),
{
    lemma_decode_encode(Record::Put(k, v));
    let idx2 = idx.insert(k, (begin, end));
    assert forall|k2: Seq<char>| #[trigger] idx2.contains_key(k2) implies {
        let (s, e) = idx2[k2];
        &&& 0 <= s <= e < log.len()
        &&& log[e] == NEWLINE
        &&& record_at(log, idx2[k2]) == Some(Record::Put(k2, value_at(log, idx2[k2])))
    } by {
        if k2 != k {
            assert(idx.contains_key(k2));
        }
    }
}

/// The bytes of records written one after another.
pub open spec fn log_of(rs: Seq<Record>) -> Seq<u8>
    decreases rs.len(),
{
    if rs.len() == 0 {
        Seq::empty()
    } else {
        log_of(rs.drop_last()) + encode_record(rs.last())
    }
}

/// The bindings after records are applied in order; a `Get` changes nothing.
pub open spec fn fold_records(rs: Seq<Record>) -> Map<Seq<char>, Seq<char>>
    decreases rs.len(),
{
    if rs.len() == 0 {
        Map::empty()
    } else {
        let m = fold_records(rs.drop_last());
        match rs.last() {
            Record::Put(k, v) => m.insert(k, v),
            Record::Rm(k) => m.remove(k),
            Record::Get(_) => m,
        }
    }
}

proof fn lemma_log_of_replays(rs: Seq<Record>) -> (idx: Map<Seq<char>, (int, int)>)
    ensures
        complete(log_of(rs)),
        replay(log_of(rs)) == Some(idx),
        ranges_hold_sets(log_of(rs), idx),
        bindings_of(log_of(rs), idx) == fold_records(rs),
    decreases rs.len(),
{
    if rs.len() == 0 {
        let idx = Map::<Seq<char>, (int, int)>::empty();
        assert(bindings_of(Seq::<u8>::empty(), idx) =~= Map::<Seq<char>, Seq<char>>::empty());
        idx
    } else {
        let idx0 = lemma_log_of_replays(rs.drop_last());
        let l0 = log_of(rs.drop_last());
        let r = rs.last();
        let l = l0 + encode_record(r);
        let n = l0.len() as int;
        let e = n + encode_body(r).len();
        lemma_replay_append(l0, r);
        lemma_ranges_prefix(l0, encode_record(r), idx0);
        let idx = apply_record(idx0, r, n, e);
        assert(l[e] == NEWLINE);
        match r {
            Record::Put(k, v) => {
                lemma_set_range(l, idx0, k, v, n, e);
                lemma_decode_encode(r);
                assert(bindings_of(l, idx) =~= bindings_of(l, idx0).insert(k, v));
            },
            Record::Rm(k) => {
                assert(bindings_of(l, idx) =~= bindings_of(l, idx0).remove(k));
            },
            Record::Get(_) => {},
        }
        idx
    }
}

/// A log written record by record reopens to what applying its records in
/// order gives: each line decodes to the record written there.
pub proof fn lemma_replay_records(rs: Seq<Record>)
    ensures
        reopened_bindings(log_of(rs)) == Some(fold_records(rs)),
{
    let idx = lemma_log_of_replays(rs);
    let l = log_of(rs);
    assert(l + Seq::<u8>::empty() =~= l);
    lemma_complete_len_tail(l, Seq::empty());
    assert(l.subrange(0, l.len() as int) =~= l);
}

/// Where each range holds its key's `Set` record, it holds the record with the
/// key's current value.
pub proof fn lemma_ranges_hold_records(log: Seq<u8>, idx: Map<Seq<char>, (int, int)>)
    requires
        ranges_hold_sets(log, idx),
    ensures
        ranges_hold_records(log, idx, bindings_of(log, idx)),
{
    let m = bindings_of(log, idx);
    assert(idx.dom() =~= m.dom());
    assert forall|k: Seq<char>| #[trigger] idx.contains_key(k) implies {
        &&& 0 <= idx[k].0 <= idx[k].1 < log.len()
        &&& log[idx[k].1] == NEWLINE
        &&& log.subrange(idx[k].0, idx[k].1) == encode_body(Record::Put(k, m[k]))
    } by {
        lemma_range_is_record(log, idx[k].0, idx[k].1);
    }
}

/// Replaying from the start of a complete line goes on after it.
proof fn lemma_replay_line(b: Seq<u8>, begin: int, i: int, idx: Map<Seq<char>, (int, int)>, r: Record)
    requires
        0 <= begin <= i < b.len(),
        line_end(b, begin) == i,
        decode_body(b.subrange(begin, i)) == Some(r),
    ensures
        replay_from(b, begin, idx) == replay_from(b, i + 1, apply_record(idx, r, begin, i)),
{
}

/// One step of compaction: copying the latest record of `k` from `log` to
/// the end of the compacted log `before`.
#[verifier::spinoff_prover]
proof fn lemma_compact_step(
    log: Seq<u8>,
    idx: Map<Seq<char>, (int, int)>,
    before: Seq<u8>,
    nidx: Map<Seq<char>, (int, int)>,
    k: Seq<char>,
)
    requires
        ranges_hold_sets(log, idx),
        idx.contains_key(k),
        complete(before),
        replay(before) == Some(nidx),
        ranges_hold_sets(before, nidx),
        only_live_records(before, nidx),
        !nidx.contains_key(k),
    ensures
        ({
            let (s, e) = idx[k];
            let after = before + log.subrange(s, e + 1);
            let nidx2 = nidx.insert(k, (before.len() as int, before.len() + (e - s)));
            &&& 0 <= s <= e < log.len()
            &&& complete(after)
            &&& replay(after) == Some(nidx2)
            &&& ranges_hold_sets(after, nidx2)
            &&& only_live_records(after, nidx2)
            &&& value_at(after, nidx2[k]) == value_at(log, idx[k])
            &&& forall|k2: Seq<char>|
                #[trigger] nidx.contains_key(k2) ==> value_at(after, nidx2[k2]) == value_at(
                    before,
                    nidx[k2],
                )
        }),
{
    let (s, e) = idx[k];
    let r = Record::Put(k, value_at(log, idx[k]));
    lemma_range_is_record(log, s, e);
    let after = before + log.subrange(s, e + 1);
    assert(after =~= before + encode_record(r));
    lemma_replay_append(before, r);
    lemma_ranges_prefix(before, encode_record(r), nidx);
    lemma_decode_encode(r);
    let begin = before.len() as int;
    let end = begin + (e - s);
    let nidx2 = nidx.insert(k, (begin, end));
    assert(after.subrange(begin, end) =~= encode_body(r));
    assert(ranges_hold_sets(after, nidx2)) by {
        assert forall|k2: Seq<char>| #[trigger] nidx2.contains_key(k2) implies {
            let (s2, e2) = nidx2[k2];
            &&& 0 <= s2 <= e2 < after.len()
            &&& after[e2] == NEWLINE
            &&& record_at(after, nidx2[k2]) == Some(Record::Put(k2, value_at(after, nidx2[k2])))
        } by {
            if k2 != k {
                assert(nidx.contains_key(k2));
            }
        }
    }
    assert forall|t: int| 0 <= t < after.len() implies #[trigger] in_live_record(nidx2, t) by {
        if t < before.len() {
            assert(in_live_record(nidx, t));
            let k2 = choose|k2: Seq<char>|
                #[trigger] nidx.contains_key(k2) && nidx[k2].0 <= t <= nidx[k2].1;
            assert(nidx2.contains_key(k2));
        } else {
            assert(nidx2.contains_key(k));
        }
    }
    assert forall|k2: Seq<char>| #[trigger] nidx.contains_key(k2) implies value_at(
        after,
        nidx2[k2],
    ) == value_at(before, nidx[k2]) by {
        assert(bindings_of(after, nidx)[k2] == bindings_of(before, nidx)[k2]);
    }
}

impl KvStore {
    /// The log's complete records, as the file holds them.
    pub closed spec fn log(&self) -> Seq<u8> {
        self.log@
    }

    /// The index: from each bound key to the range of its latest `Set` record.
    pub closed spec fn index(&self) -> Map<Seq<char>, (int, int)> {
        self.index@
    }

    /// The current binding of every key.
    pub closed spec fn bindings(&self) -> Map<Seq<char>, Seq<char>> {
        bindings_of(self.log@, self.index@)
    }

    /// The file as it stands once the pending writes are applied.
    pub closed spec fn file(&self) -> Seq<u8> {
        self.log@ + self.tail_bytes@
    }

    /// The file as it stood when the pending writes were last taken.
    pub closed spec fn synced(&self) -> Seq<u8> {
        self.synced@
    }

    /// The writes not yet taken.
    pub closed spec fn pending(&self) -> Seq<LogWrite> {
        self.pending@
    }

    /// The mutations since the last compaction.
    pub closed spec fn mutations(&self) -> nat {
        self.ops as nat
    }

    /// The store's invariant.
    pub closed spec fn wf(&self) -> bool {
        &&& self.index.wf()
        &&& complete(self.log@)
        &&& replay(self.log@) == Some(self.index@)
        &&& ranges_hold_sets(self.log@, self.index@)
        &&& self.ops <= COMPACTION_THRESHOLD
        &&& self.tail_bytes@.len() == self.tail
        &&& forall|t: int| 0 <= t < self.tail_bytes@.len() ==> self.tail_bytes@[t] != NEWLINE
        &&& apply_writes(self.synced@, self.pending@) == self.log@ + self.tail_bytes@
    }

    /// Opens a store over the contents of its log file, replaying every
    /// complete record in order. A truncated last record is dropped; the file
    /// is cut to exclude it on the next mutation. A complete record that does
    /// not decode makes the log corrupt.
    #[verifier::spinoff_prover]
    #[verifier::rlimit(100)]
    pub fn open(contents: Vec<u8>) -> (r: Result<KvStore, KvsError>)
        ensures
            match replay(contents@) {
                Some(idx) => r matches Ok(s) && {
                    &&& s.wf()
                    &&& s.index() == idx
                    &&& s.log() == contents@.subrange(0, complete_len(contents@))
                    &&& s.file() == contents@
                    &&& s.synced() == contents@
                    &&& s.pending().len() == 0
                    &&& s.mutations() == 0
                    &&& Some(s.bindings()) == reopened_bindings(contents@)
                },
                None => r == Err::<KvStore, KvsError>(KvsError::Decode),
            },
    {
        let mut index = KeyIndex::new();
        let mut begin: usize = 0;
        let mut i: usize = 0;
        let n = contents.len();
        while i < n
            invariant
                n == contents@.len(),
                begin <= i <= n,
                begin == complete_len(contents@.subrange(0, i as int)),
                forall|t: int| begin <= t < i ==> contents@[t] != NEWLINE,
                index.wf(),
                replay(contents@) == replay_from(contents@, begin as int, index@),
                replay(contents@.subrange(0, begin as int)) == Some(index@),
                complete(contents@.subrange(0, begin as int)),
                ranges_hold_sets(contents@.subrange(0, begin as int), index@),
            decreases n - i,
        {
            proof {
                assert(contents@.subrange(0, i + 1).drop_last() =~= contents@.subrange(0, i as int));
            }
            if contents[i] == NEWLINE {
                let line = decode(&contents.as_slice()[begin..i]);
                proof {
                    lemma_line_end_at(contents@, begin as int, i as int);
                }
                match line {
                    Ok(cmd) => {
                        let ghost r = cmd@;
                        let ghost old_index = index@;
                        match cmd {
                            Command::Put { key, value: _ } => {
                                index.insert(key, Bound { begin, end: i });
                            },
                            Command::Rm { key } => {
                                index.remove(&key);
                            },
                            Command::Get { key: _ } => {},
                        }
                        proof {
                            assert(index@ == apply_record(old_index, r, begin as int, i as int));
                            lemma_open_step(contents@, begin as int, i as int, old_index, r);
                            lemma_replay_line(contents@, begin as int, i as int, old_index, r);
                        }
                        begin = i + 1;
                    },
                    Err(_) => {
                        return Err(KvsError::Decode);
                    },
                }
            }
            i = i + 1;
        }
        proof {
            assert(contents@.subrange(0, n as int) =~= contents@);
            lemma_replay_tail(contents@, begin as int, index@);
        }
        let ghost tail_bytes = contents@.subrange(begin as int, n as int);
        let ghost whole = contents@;
        let mut log = contents;
        log.truncate(begin);
        proof {
            assert(log@ + tail_bytes =~= whole);
            assert(apply_writes(whole, Seq::<LogWrite>::empty()) == whole);
        }
        Ok(KvStore {
            log,
            index,
            ops: 0,
            tail: n - begin,
            tail_bytes: Ghost(tail_bytes),
            pending: Vec::new(),
            synced: Ghost(whole),
        })
    }

    /// Appends one command to the log; returns the range of its body.
    #[verifier::spinoff_prover]
    #[verifier::rlimit(100)]
    fn append_record(&mut self, cmd: &Command) -> (b: Bound)
        requires
            old(self).wf(),
        ensures
            final(self).index == old(self).index,
            final(self).ops == old(self).ops,
            final(self).log@ == old(self).log@ + encode_record(cmd@),
            final(self).tail_bytes@ == Seq::<u8>::empty(),
            final(self).tail == 0,
            final(self).synced@ == old(self).synced@,
            apply_writes(final(self).synced@, final(self).pending@) == final(self).log@,
            b.range() == (old(self).log@.len() as int, (old(self).log@.len()
                + encode_body(cmd@).len()) as int),
            final(self).log@.subrange(b.begin as int, b.end as int) == encode_body(cmd@),
            complete(final(self).log@),
            replay(final(self).log@) == Some(
                apply_record(old(self).index@, cmd@, b.begin as int, b.end as int),
            ),
            ranges_hold_sets(final(self).log@, old(self).index@),
            bindings_of(final(self).log@, old(self).index@) == bindings_of(
                old(self).log@,
                old(self).index@,
            ),
    {
        if self.tail > 0 {
            let n = self.log.len();
            self.pending.push(LogWrite::Truncate(n));
            self.tail = 0;
            self.tail_bytes = Ghost(Seq::empty());
            proof {
                let before = old(self).log@ + old(self).tail_bytes@;
                assert(before.subrange(0, n as int) =~= self.log@);
                assert(self.pending@.drop_last() == old(self).pending@);
                assert(self.log@ + self.tail_bytes@ =~= self.log@);
                assert(apply_writes(self.synced@, self.pending@) == self.log@);
            }
        } else {
            proof {
                assert(self.tail_bytes@ =~= Seq::<u8>::empty());
                assert(self.log@ + self.tail_bytes@ =~= self.log@);
            }
        }
        let bytes = encode(cmd);
        let begin = self.log.len();
        let ghost before = self.log@;
        let ghost ws = self.pending@;
        self.log.extend_from_slice(bytes.as_slice());
        proof {
            assert(self.log@ =~= before + bytes@);
        }
        self.pending.push(LogWrite::Append(bytes));
        proof {
            assert(self.pending@.drop_last() == ws);
            assert(apply_writes(self.synced@, ws) == before);
            assert(apply_writes(self.synced@, self.pending@) == apply_write(
                before,
                self.pending@.last(),
            ));
            lemma_replay_append(before, cmd@);
            lemma_ranges_prefix(before, encode_record(cmd@), self.index@);
        }
        let end = self.log.len() - 1;
        Bound { begin, end }
    }

    /// Counts one mutation, compacting the log when the count exceeds the
    /// threshold.
    fn count_mutation(&mut self)
        requires
            old(self).wf(),
        ensures
            final(self).wf(),
            final(self).bindings() == old(self).bindings(),
            final(self).synced@ == old(self).synced@,
            old(self).ops + 1 <= COMPACTION_THRESHOLD ==> {
                &&& final(self).ops == old(self).ops + 1
                &&& final(self).log@ == old(self).log@
                &&& final(self).index@ == old(self).index@
                &&& final(self).file() == old(self).file()
            },
            old(self).ops + 1 > COMPACTION_THRESHOLD ==> {
                &&& final(self).ops == 0
                &&& one_set_per_key(final(self).log@, final(self).bindings())
                &&& final(self).file() == final(self).log@
            },
    {
        if self.ops + 1 > COMPACTION_THRESHOLD {
            self.compact();
        } else {
            self.ops = self.ops + 1;
        }
    }

    /// Binds `key` to `val`, replacing an earlier value.
    #[verifier::spinoff_prover]
    #[verifier::rlimit(100)]
    pub fn set(&mut self, key: String, val: String) -> (r: Result<(), KvsError>)
        requires
            old(self).wf(),
        ensures
            r is Ok,
            final(self).wf(),
            final(self).bindings() == old(self).bindings().insert(key@, val@),
            final(self).synced() == old(self).synced(),
            final(self).file() == final(self).log(),
            old(self).mutations() + 1 <= COMPACTION_THRESHOLD ==> {
                &&& final(self).mutations() == old(self).mutations() + 1
                &&& final(self).log() == old(self).log() + encode_record(Record::Put(key@, val@))
            },
            old(self).mutations() + 1 > COMPACTION_THRESHOLD ==> {
                &&& final(self).mutations() == 0
                &&& one_set_per_key(final(self).log(), final(self).bindings())
            },
    {
        let ghost k = key@;
        let ghost v = val@;
        let cmd = Command::Put { key, value: val };
        let bound = self.append_record(&cmd);
        if let Command::Put { key, value: _ } = cmd {
            self.index.insert(key, bound);
        }
        proof {
            lemma_decode_encode(Record::Put(k, v));
            let log = self.log@;
            let old_idx = old(self).index@;
            assert(ranges_hold_sets(log, self.index@)) by {
                assert forall|k2: Seq<char>| #[trigger] self.index@.contains_key(k2) implies {
                    let (s, e) = self.index@[k2];
                    &&& 0 <= s <= e < log.len()
                    &&& log[e] == NEWLINE
                    &&& record_at(log, self.index@[k2]) == Some(
                        Record::Put(k2, value_at(log, self.index@[k2])),
                    )
                } by {
                    if k2 != k {
                        assert(old_idx.contains_key(k2));
                    }
                }
            }
            assert(self.bindings() =~= old(self).bindings().insert(k, v));
        }
        self.count_mutation();
        Ok(())
    }

    /// The value bound to `key`, if any.
    pub fn get(&mut self, key: String) -> (r: Result<Option<String>, KvsError>)
        requires
            old(self).wf(),
        ensures
            *final(self) == *old(self),
            match r {
                Ok(Some(v)) => old(self).bindings().contains_key(key@) && v@ == old(self).bindings()[key@],
                Ok(None) => !old(self).bindings().contains_key(key@),
                Err(_) => false,
            },
    {
        match self.index.get(&key) {
            Some(b) => {
                let found = decode(&self.log.as_slice()[b.begin..b.end]);
                match found {
                    Ok(Command::Put { key: _, value }) => Ok(Some(value)),
                    _ => {
                        proof {
                            assert(false);
                        }
                        Ok(None)
                    },
                }
            },
            None => Ok(None),
        }
    }

    /// Unbinds `key`. Fails with `KeyNotFound`, leaving the log untouched,
    /// where `key` is not bound.
    #[verifier::spinoff_prover]
    #[verifier::rlimit(100)]
    pub fn remove(&mut self, key: String) -> (r: Result<(), KvsError>)
        requires
            old(self).wf(),
        ensures
            final(self).wf(),
            final(self).synced() == old(self).synced(),
            old(self).bindings().contains_key(key@) ==> {
                &&& r is Ok
                &&& final(self).bindings() == old(self).bindings().remove(key@)
                &&& final(self).file() == final(self).log()
                &&& old(self).mutations() + 1 <= COMPACTION_THRESHOLD ==> {
                    &&& final(self).mutations() == old(self).mutations() + 1
                    &&& final(self).log() == old(self).log() + encode_record(Record::Rm(key@))
                }
                &&& old(self).mutations() + 1 > COMPACTION_THRESHOLD ==> {
                    &&& final(self).mutations() == 0
                    &&& one_set_per_key(final(self).log(), final(self).bindings())
                }
            },
            !old(self).bindings().contains_key(key@) ==> r == Err::<(), KvsError>(
                KvsError::KeyNotFound(ErrKeyNotFound { key })
            ) && *final(self) == *old(self),
    {
        if self.index.get(&key).is_none() {
            return Err(KvsError::KeyNotFound(ErrKeyNotFound { key }));
        }
        let ghost k = key@;
        let cmd = Command::Rm { key };
        let _ = self.append_record(&cmd);
        if let Command::Rm { key } = cmd {
            self.index.remove(&key);
        }
        proof {
            let log = self.log@;
            let old_idx = old(self).index@;
            assert(ranges_hold_sets(log, self.index@)) by {
                assert forall|k2: Seq<char>| #[trigger] self.index@.contains_key(k2) implies {
                    let (s, e) = self.index@[k2];
                    &&& 0 <= s <= e < log.len()
                    &&& log[e] == NEWLINE
                    &&& record_at(log, self.index@[k2]) == Some(
                        Record::Put(k2, value_at(log, self.index@[k2])),
                    )
                } by {
                    assert(old_idx.contains_key(k2));
                }
            }
            assert(self.bindings() =~= old(self).bindings().remove(k));
        }
        self.count_mutation();
        Ok(())
    }

    /// Copies the latest record of the `i`-th indexed key to the end of a
    /// compacted log, and indexes it there.
    #[verifier::spinoff_prover]
    #[verifier::rlimit(100)]
    fn copy_live_record(&self, i: usize, new_log: &mut Vec<u8>, new_index: &mut KeyIndex)
        requires
            self.index.wf(),
            ranges_hold_sets(self.log@, self.index@),
            i < self.index.size(),
            old(new_index).wf(),
            complete(old(new_log)@),
            replay(old(new_log)@) == Some(old(new_index)@),
            ranges_hold_sets(old(new_log)@, old(new_index)@),
            only_live_records(old(new_log)@, old(new_index)@),
            !old(new_index)@.contains_key(self.index.key_of(i as int)),
        ensures
            final(new_index).wf(),
            complete(final(new_log)@),
            replay(final(new_log)@) == Some(final(new_index)@),
            ranges_hold_sets(final(new_log)@, final(new_index)@),
            only_live_records(final(new_log)@, final(new_index)@),
            final(new_index)@.dom() == old(new_index)@.dom().insert(self.index.key_of(i as int)),
            value_at(final(new_log)@, final(new_index)@[self.index.key_of(i as int)]) == value_at(
                self.log@,
                self.index@[self.index.key_of(i as int)],
            ),
            forall|k2: Seq<char>|
                #[trigger] old(new_index)@.contains_key(k2) ==> value_at(
                    final(new_log)@,
                    final(new_index)@[k2],
                ) == value_at(old(new_log)@, old(new_index)@[k2]),
            final(new_log)@ == old(new_log)@ + encode_record(
                Record::Put(
                    self.index.key_of(i as int),
                    value_at(self.log@, self.index@[self.index.key_of(i as int)]),
                ),
            ),
    {
        proof {
            self.index.lemma_entry(i as int);
        }
        let key = self.index.key_at(i).clone();
        let b = self.index.bound_at(i);
        proof {
            lemma_compact_step(self.log@, self.index@, new_log@, new_index@, key@);
        }
        let begin = new_log.len();
        let ghost before = new_log@;
        let total = self.log.len();
        assert(b.begin <= b.end < total);
        new_log.extend_from_slice(&self.log.as_slice()[b.begin..b.end + 1]);
        proof {
            assert(new_log@ =~= before + self.log@.subrange(b.begin as int, b.end + 1));
            lemma_range_is_record(self.log@, b.begin as int, b.end as int);
        }
        let grown = new_log.len();
        assert(begin + (b.end - b.begin) < grown);
        let end = begin + (b.end - b.begin);
        new_index.insert(key, Bound { begin, end });
        proof {
            assert(new_index@.dom() =~= old(new_index)@.dom().insert(key@));
        }
    }

    /// Rewrites the log so that it holds the latest `Set` record of each bound
    /// key and nothing else. The bindings do not change.
    #[verifier::spinoff_prover]
    #[verifier::rlimit(100)]
    pub fn compact(&mut self)
        requires
            old(self).wf(),
        ensures
            final(self).wf(),
            final(self).bindings() == old(self).bindings(),
            only_live_records(final(self).log(), final(self).index()),
            one_set_per_key(final(self).log(), final(self).bindings()),
            ranges_hold_records(final(self).log(), final(self).index(), final(self).bindings()),
            final(self).file() == final(self).log(),
            final(self).synced() == old(self).synced(),
            final(self).mutations() == 0,
    {
        let mut new_log: Vec<u8> = Vec::new();
        let mut new_index = KeyIndex::new();
        let n = self.index.len();
        let mut i: usize = 0;
        proof {
            assert(replay(Seq::<u8>::empty()) == Some(Map::<Seq<char>, (int, int)>::empty()));
        }
        while i < n
            invariant
                *self == *old(self),
                self.wf(),
                n == self.index.size(),
                i <= n,
                new_index.wf(),
                complete(new_log@),
                replay(new_log@) == Some(new_index@),
                ranges_hold_sets(new_log@, new_index@),
                only_live_records(new_log@, new_index@),
                new_log@ == records_of(
                    Seq::new(i as nat, |j: int| self.index.key_of(j)),
                    bindings_of(self.log@, self.index@),
                ),
                forall|j: int|
                    0 <= j < i ==> #[trigger] new_index@.contains_key(self.index.key_of(j))
                        && value_at(new_log@, new_index@[self.index.key_of(j)]) == value_at(
                        self.log@,
                        self.index@[self.index.key_of(j)],
                    ),
                forall|k: Seq<char>|
                    #[trigger] new_index@.contains_key(k) ==> exists|j: int|
                        0 <= j < i && #[trigger] self.index.key_of(j) == k,
            decreases n - i,
        {
            let ghost k = self.index.key_of(i as int);
            let ghost old_new_index = new_index@;
            proof {
                self.index.lemma_entries();
                assert(!new_index@.contains_key(k)) by {
                    if new_index@.contains_key(k) {
                        let j = choose|j: int| 0 <= j < i && #[trigger] self.index.key_of(j) == k;
                        assert(self.index.key_of(j) != self.index.key_of(i as int));
                    }
                }
            }
            self.copy_live_record(i, &mut new_log, &mut new_index);
            proof {
                let ks1 = Seq::new((i + 1) as nat, |j: int| self.index.key_of(j));
                assert(ks1.drop_last() =~= Seq::new(i as nat, |j: int| self.index.key_of(j)));
                self.index.lemma_entry(i as int);
                assert forall|j: int|
                    0 <= j < i + 1 implies #[trigger] new_index@.contains_key(self.index.key_of(j))
                        && value_at(new_log@, new_index@[self.index.key_of(j)]) == value_at(
                        self.log@,
                        self.index@[self.index.key_of(j)],
                    ) by {
                    if j < i {
                        assert(old_new_index.contains_key(self.index.key_of(j)));
                    }
                }
                assert forall|k2: Seq<char>| #[trigger] new_index@.contains_key(k2) implies exists|j: int|
                    0 <= j < i + 1 && #[trigger] self.index.key_of(j) == k2 by {
                    if k2 == k {
                        assert(self.index.key_of(i as int) == k2);
                    } else {
                        assert(old_new_index.contains_key(k2));
                    }
                }
            }
            i = i + 1;
        }
        proof {
            self.index.lemma_entries();
            let ks = Seq::new(n as nat, |j: int| self.index.key_of(j));
            assert(ks.no_duplicates()) by {
                assert forall|a: int, b: int| 0 <= a < ks.len() && 0 <= b < ks.len() && a != b implies ks[a] != ks[b] by {
                    assert(self.index.key_of(a) != self.index.key_of(b));
                }
            }
            assert(ks.to_set() =~= bindings_of(self.log@, self.index@).dom()) by {
                assert forall|k: Seq<char>| ks.to_set().contains(k) implies bindings_of(self.log@, self.index@).dom().contains(k) by {
                    let j = choose|j: int| 0 <= j < ks.len() && ks[j] == k;
                    assert(self.index.key_of(j) == k);
                }
                assert forall|k: Seq<char>| bindings_of(self.log@, self.index@).dom().contains(k) implies ks.to_set().contains(k) by {
                    assert(self.index@.contains_key(k));
                    let j = choose|j: int| 0 <= j < self.index.size() && #[trigger] self.index.key_of(j) == k;
                    assert(ks[j] == k);
                }
            }
            assert(new_index@.dom() =~= self.index@.dom()) by {
                assert forall|k: Seq<char>| self.index@.dom().contains(k) implies new_index@.dom().contains(k) by {
                    assert(self.index@.contains_key(k));
                    let j = choose|j: int| 0 <= j < self.index.size() && #[trigger] self.index.key_of(j) == k;
                    assert(new_index@.contains_key(self.index.key_of(j)));
                }
            }
            assert(bindings_of(new_log@, new_index@) =~= bindings_of(self.log@, self.index@)) by {
                assert forall|k: Seq<char>| #[trigger] new_index@.contains_key(k) implies value_at(new_log@, new_index@[k]) == value_at(self.log@, self.index@[k]) by {
                    let j = choose|j: int| 0 <= j < i && #[trigger] self.index.key_of(j) == k;
                    assert(new_index@.contains_key(self.index.key_of(j)));
                }
            }
        }
        let mut copy: Vec<u8> = Vec::new();
        copy.extend_from_slice(new_log.as_slice());
        let ghost ws = self.pending@;
        let ghost copied = copy@;
        self.pending.push(LogWrite::Replace(copy));
        self.log = new_log;
        self.index = new_index;
        self.tail = 0;
        self.tail_bytes = Ghost(Seq::empty());
        self.ops = 0;
        proof {
            assert(self.pending@.drop_last() == ws);
            assert(copied =~= self.log@);
            assert(self.log@ + self.tail_bytes@ =~= self.log@);
            let ks = Seq::new(n as nat, |j: int| old(self).index.key_of(j));
            assert(records_of(ks, self.bindings()) == self.log@);
            lemma_ranges_hold_records(self.log@, self.index@);
        }
    }

    /// Reopening the file of a store, once its pending writes are applied,
    /// gives back exactly the bindings the store holds. The log is the part of
    /// the file up to its last line feed, each index range holds its key's
    /// record, and the mutation count stays within the threshold.
    pub proof fn lemma_reopen(&self)
        requires
            self.wf(),
        ensures
            reopened_bindings(self.file()) == Some(self.bindings()),
            complete_len(self.file()) == self.log().len(),
            self.file().subrange(0, self.log().len() as int) == self.log(),
            ranges_hold_records(self.log(), self.index(), self.bindings()),
            self.mutations() <= COMPACTION_THRESHOLD,
    {
        lemma_ranges_hold_records(self.log@, self.index@);
        let log = self.log@;
        let tail = self.tail_bytes@;
        let file = log + tail;
        lemma_replay_concat(log, tail, 0, Map::empty());
        assert forall|t: int| log.len() <= t < file.len() implies file[t] != NEWLINE by {
            assert(file[t] == tail[t - log.len()]);
        }
        lemma_replay_tail(file, log.len() as int, self.index@);
        lemma_complete_len_tail(log, tail);
        assert(file.subrange(0, log.len() as int) =~= log);
    }

    /// Hands over the writes that bring the file up to date, in order.
    pub fn take_writes(&mut self) -> (w: Vec<LogWrite>)
        requires
            old(self).wf(),
        ensures
            final(self).wf(),
            apply_writes(old(self).synced(), w@) == old(self).file(),
            final(self).synced() == old(self).file(),
            final(self).file() == old(self).file(),
            final(self).pending().len() == 0,
            final(self).bindings() == old(self).bindings(),
            final(self).log() == old(self).log(),
            final(self).index() == old(self).index(),
    {
        let mut w: Vec<LogWrite> = Vec::new();
        std::mem::swap(&mut w, &mut self.pending);
        self.synced = Ghost(self.log@ + self.tail_bytes@);
        w
    }
}

} // verus!
