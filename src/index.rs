//! The in-memory key index: from each bound key to the byte range of its
//! latest `Set` record in the log.
use vstd::prelude::*;
use vstd::utf8::encode_utf8;
use std::collections::HashMap;

verus! {

/// The offset basis of the 64-bit FNV-1a hash.
pub const FNV_OFFSET: u64 = 0xcbf29ce484222325;

/// The prime of the 64-bit FNV-1a hash.
pub const FNV_PRIME: u64 = 0x100000001b3;

/// The 64-bit FNV-1a hash of a byte sequence.
pub open spec fn fnv1a(bytes: Seq<u8>) -> u64
    decreases bytes.len(),
{
    if bytes.len() == 0 {
        FNV_OFFSET
    } else {
        (fnv1a(bytes.drop_last()) ^ (bytes.last() as u64)).wrapping_mul(FNV_PRIME)
    }
}

/// The hash that places a key in the index: FNV-1a of its UTF-8 bytes.
pub open spec fn key_hash(k: Seq<char>) -> u64 {
    fnv1a(encode_utf8(k))
}

/// Hashes a key.
pub fn hash_key(key: &String) -> (h: u64)
    ensures
        h == key_hash(key@),
{
    let bytes = key.as_str().as_bytes();
    let mut h: u64 = FNV_OFFSET;
    let mut i: usize = 0;
    while i < bytes.len()
        invariant
            i <= bytes@.len(),
            bytes@ == encode_utf8(key@),
            h == fnv1a(bytes@.subrange(0, i as int)),
        decreases bytes@.len() - i,
    {
        proof {
            assert(bytes@.subrange(0, i + 1).drop_last() =~= bytes@.subrange(0, i as int));
        }
        h = (h ^ (bytes[i] as u64)).wrapping_mul(FNV_PRIME);
        i = i + 1;
    }
    proof {
        assert(bytes@.subrange(0, bytes@.len() as int) =~= bytes@);
    }
    h
}

/// The positions listed under hash `h`.
pub open spec fn slot_of(slots: Map<u64, Vec<usize>>, h: u64) -> Seq<usize> {
    if slots.contains_key(h) {
        slots[h]@
    } else {
        Seq::empty()
    }
}

/// The position of `x` in `list`, if it is there.
fn find_position(list: &Vec<usize>, x: usize) -> (r: Option<usize>)
    ensures
        match r {
            Some(j) => j < list@.len() && list@[j as int] == x,
            None => !list@.contains(x),
        },
{
    let mut j: usize = 0;
    while j < list.len()
        invariant
            j <= list@.len(),
            forall|t: int| 0 <= t < j ==> list@[t] != x,
        decreases list@.len() - j,
    {
        if list[j] == x {
            return Some(j);
        }
        j = j + 1;
    }
    None
}

/// Takes the list of positions under `h` out of the table.
fn take_slot(slots: &mut HashMap<u64, Vec<usize>>, h: u64) -> (r: Vec<usize>)
    ensures
        final(slots)@ == old(slots)@.remove(h),
        r@ == slot_of(old(slots)@, h),
{
    match slots.remove(&h) {
        Some(list) => list,
        None => Vec::new(),
    }
}

/// The byte range `[begin, end)` of a record body in the log; the line feed
/// that ends the record stands at `end`.
#[derive(Debug, Clone, Copy, PartialEq, Eq)]
pub struct Bound {
    pub begin: usize,
    pub end: usize,
}

impl Bound {
    /// The range as a pair of integers.
    pub open spec fn range(self) -> (int, int) {
        (self.begin as int, self.end as int)
    }
}

struct IndexEntry {
    key: String,
    bound: Bound,
}

/// The entries and the map agree, and no key appears twice.
spec fn entries_ok_of(e: Seq<IndexEntry>, m: Map<Seq<char>, (int, int)>) -> bool {
    &&& forall|i: int|
        #![trigger e[i]]
        0 <= i < e.len() ==> m.contains_key(e[i].key@) && m[e[i].key@] == e[i].bound.range()
    &&& forall|k: Seq<char>|
        #![trigger m.contains_key(k)]
        m.contains_key(k) ==> exists|i: int| 0 <= i < e.len() && #[trigger] e[i].key@ == k
    &&& forall|i: int, j: int|
        0 <= i < e.len() && 0 <= j < e.len() && i != j ==> #[trigger] e[i].key@ != #[trigger] e[j].key@
}

/// The table lists each entry under its key's hash, once, and nothing else.
spec fn slots_ok_of(e: Seq<IndexEntry>, slots: Map<u64, Vec<usize>>) -> bool {
    &&& forall|i: int|
        #![trigger e[i]]
        0 <= i < e.len() ==> slot_of(slots, key_hash(e[i].key@)).contains(i as usize)
    &&& forall|h: u64, j: int|
        0 <= j < slot_of(slots, h).len() ==> #[trigger] slot_of(slots, h)[j] < e.len() && key_hash(
            e[slot_of(slots, h)[j] as int].key@,
        ) == h
    &&& forall|h: u64| #[trigger] slot_of(slots, h).no_duplicates()
}

/// A map from keys to byte ranges, without order. Each key appears once.
/// The entries are kept in a vector; a table from key hashes to positions in
/// it finds a key without a scan. The table is keyed by an integer because
/// vstd specifies `HashMap` only for keys that obey its key model, which
/// `String` does not.
pub struct KeyIndex {
    entries: Vec<IndexEntry>,
    slots: HashMap<u64, Vec<usize>>,
    map: Ghost<Map<Seq<char>, (int, int)>>,
}

impl KeyIndex {
    /// The index as a map from keys to ranges.
    pub closed spec fn view(&self) -> Map<Seq<char>, (int, int)> {
        self.map@
    }

    /// The number of entries.
    pub closed spec fn size(&self) -> nat {
        self.entries@.len()
    }

    /// The key of the `i`-th entry, in the index's own order.
    pub closed spec fn key_of(&self, i: int) -> Seq<char> {
        self.entries@[i].key@
    }

    /// The range of the `i`-th entry.
    pub closed spec fn range_of(&self, i: int) -> (int, int) {
        self.entries@[i].bound.range()
    }

    closed spec fn entries_ok(&self) -> bool {
        entries_ok_of(self.entries@, self.map@)
    }

    closed spec fn slots_ok(&self) -> bool {
        slots_ok_of(self.entries@, self.slots@)
    }

    /// The entries and the map agree, no key appears twice, and the table
    /// lists each entry under its key's hash, once.
    pub closed spec fn wf(&self) -> bool {
        self.entries_ok() && self.slots_ok()
    }

    /// What a caller may rely on of the entries, given `wf`.
    pub proof fn lemma_entries(&self)
        requires
            self.wf(),
        ensures
            self.size() == self@.dom().len(),
            self@.dom().finite(),
            forall|i: int|
                #![trigger self.key_of(i)]
                0 <= i < self.size() ==> self@.contains_key(self.key_of(i)) && self@[self.key_of(
                    i,
                )] == self.range_of(i),
            forall|k: Seq<char>|
                #![trigger self@.contains_key(k)]
                self@.contains_key(k) ==> exists|i: int|
                    0 <= i < self.size() && #[trigger] self.key_of(i) == k,
            forall|i: int, j: int|
                0 <= i < self.size() && 0 <= j < self.size() && i != j ==> #[trigger] self.key_of(i)
                    != #[trigger] self.key_of(j),
    {
        let keys = Seq::new(self.entries@.len(), |i: int| self.entries@[i].key@);
        assert(keys.no_duplicates());
        assert(keys.to_set() =~= self.map@.dom()) by {
            assert forall|k: Seq<char>| keys.to_set().contains(k) implies self.map@.dom().contains(
                k,
            ) by {
                let i = choose|i: int| 0 <= i < keys.len() && keys[i] == k;
                assert(self.entries@[i].key@ == k);
            }
            assert forall|k: Seq<char>| self.map@.dom().contains(k) implies keys.to_set().contains(
                k,
            ) by {
                assert(self.map@.contains_key(k));
                let i = choose|i: int|
                    0 <= i < self.entries@.len() && #[trigger] self.entries@[i].key@ == k;
                assert(keys[i] == k);
            }
        }
        keys.unique_seq_to_set();
        assert forall|k: Seq<char>| #[trigger] self@.contains_key(k) implies exists|i: int|
            0 <= i < self.size() && #[trigger] self.key_of(i) == k by {
            assert(self.map@.contains_key(k));
            let i = choose|i: int|
                0 <= i < self.entries@.len() && #[trigger] self.entries@[i].key@ == k;
            assert(self.key_of(i) == k);
        }
    }

    /// The `i`-th entry is in the map.
    pub proof fn lemma_entry(&self, i: int)
        requires
            self.wf(),
            0 <= i < self.size(),
        ensures
            self@.contains_key(self.key_of(i)),
            self@[self.key_of(i)] == self.range_of(i),
    {
        assert(self.entries@[i].key@ == self.key_of(i));
    }

    /// An empty index.
    pub fn new() -> (r: KeyIndex)
        ensures
            r.wf(),
            r@ == Map::<Seq<char>, (int, int)>::empty(),
            r.size() == 0,
    {
        let r = KeyIndex { entries: Vec::new(), slots: HashMap::new(), map: Ghost(Map::empty()) };
        proof {
            assert forall|h: u64| #[trigger] slot_of(r.slots@, h).no_duplicates() by {
                assert(slot_of(r.slots@, h) =~= Seq::<usize>::empty());
            }
        }
        r
    }

    /// The number of entries.
    pub fn len(&self) -> (r: usize)
        ensures
            r == self.size(),
    {
        self.entries.len()
    }

    /// The key of the `i`-th entry.
    pub fn key_at(&self, i: usize) -> (r: &String)
        requires
            i < self.size(),
        ensures
            r@ == self.key_of(i as int),
    {
        &self.entries[i].key
    }

    /// The range of the `i`-th entry.
    pub fn bound_at(&self, i: usize) -> (r: Bound)
        requires
            i < self.size(),
        ensures
            r.range() == self.range_of(i as int),
    {
        self.entries[i].bound
    }

    fn position(&self, key: &String) -> (r: Option<usize>)
        requires
            self.wf(),
        ensures
            r matches Some(i) ==> i < self.entries@.len() && self.entries@[i as int].key@ == key@,
            r is None ==> !self@.contains_key(key@),
    {
        let h = hash_key(key);
        let n = self.entries.len();
        let slot = self.slots.get(&h);
        let mut found: Option<usize> = None;
        if let Some(list) = slot {
            let mut j: usize = 0;
            while j < list.len() && found.is_none()
                invariant
                    self.wf(),
                    list@ == slot_of(self.slots@, h),
                    j <= list@.len(),
                    forall|t: int| 0 <= t < j ==> self.entries@[list@[t] as int].key@ != key@,
                    match found {
                        Some(i) => i < self.entries@.len() && self.entries@[i as int].key@ == key@,
                        None => true,
                    },
                decreases list@.len() - j + (if found is None { 1int } else { 0int }),
            {
                let p = list[j];
                proof {
                    assert(slot_of(self.slots@, h)[j as int] < self.entries@.len());
                }
                if self.entries[p].key == *key {
                    found = Some(p);
                } else {
                    j = j + 1;
                }
            }
            proof {
                assert(n == self.entries@.len());
                if found is None && self.map@.contains_key(key@) {
                    let i = choose|i: int|
                        0 <= i < self.entries@.len() && #[trigger] self.entries@[i].key@ == key@;
                    assert(self.entries@[i].key@ == key@);
                    assert(slot_of(self.slots@, h).contains(i as usize));
                    let t = choose|t: int| 0 <= t < list@.len() && list@[t] == i as usize;
                    assert(self.entries@[list@[t] as int].key@ != key@);
                }
            }
        } else {
            proof {
                assert(n == self.entries@.len());
                if self.map@.contains_key(key@) {
                    let i = choose|i: int|
                        0 <= i < self.entries@.len() && #[trigger] self.entries@[i].key@ == key@;
                    assert(self.entries@[i].key@ == key@);
                    assert(slot_of(self.slots@, h).contains(i as usize));
                }
            }
        }
        found
    }

    /// The range bound to `key`, if any.
    pub fn get(&self, key: &String) -> (r: Option<Bound>)
        requires
            self.wf(),
        ensures
            match r {
                Some(b) => self@.contains_key(key@) && self@[key@] == b.range(),
                None => !self@.contains_key(key@),
            },
    {
        match self.position(key) {
            Some(i) => Some(self.entries[i].bound),
            None => None,
        }
    }

    /// Binds `key` to `bound`, replacing an earlier range.
    pub fn insert(&mut self, key: String, bound: Bound)
        requires
            old(self).wf(),
        ensures
            final(self).wf(),
            final(self)@ == old(self)@.insert(key@, bound.range()),
    {
        let ghost k = key@;
        match self.position(&key) {
            Some(i) => {
                self.entries.set(i, IndexEntry { key, bound });
                self.map = Ghost(self.map@.insert(k, bound.range()));
                proof {
                    assert forall|j: int| 0 <= j < self.entries@.len() implies #[trigger] self.entries@[j].key@
                        == old(self).entries@[j].key@ by {}
                    assert forall|j: int| 0 <= j < self.entries@.len() && j != i implies #[trigger] self.entries@[j].key@ != k by {
                        assert(old(self).entries@[j].key@ != old(self).entries@[i as int].key@);
                    }
                    assert forall|k2: Seq<char>| #[trigger] self.map@.contains_key(k2) implies exists|j: int|
                        0 <= j < self.entries@.len() && #[trigger] self.entries@[j].key@ == k2 by {
                        if k2 == k {
                            assert(self.entries@[i as int].key@ == k2);
                        } else {
                            assert(old(self).map@.contains_key(k2));
                            let j = choose|j: int|
                                0 <= j < old(self).entries@.len() && #[trigger] old(self).entries@[j].key@ == k2;
                            assert(self.entries@[j].key@ == k2);
                        }
                    }
                    assert forall|x: u64, t: int|
                        0 <= t < slot_of(self.slots@, x).len() implies #[trigger] slot_of(self.slots@, x)[t]
                            < self.entries@.len() && key_hash(
                            self.entries@[slot_of(self.slots@, x)[t] as int].key@,
                        ) == x by {
                        assert(slot_of(old(self).slots@, x)[t] == slot_of(self.slots@, x)[t]);
                    }
                }
            },
            None => {
                let h = hash_key(&key);
                let n = self.entries.len();
                let ghost s0 = self.slots@;
                let mut list = take_slot(&mut self.slots, h);
                list.push(n);
                self.slots.insert(h, list);
                self.entries.push(IndexEntry { key, bound });
                self.map = Ghost(self.map@.insert(k, bound.range()));
                proof {
                    let e0 = old(self).entries@;
                    assert forall|x: u64| #[trigger] slot_of(self.slots@, x) == if x == h {
                        slot_of(s0, h).push(n)
                    } else {
                        slot_of(s0, x)
                    } by {}
                    assert forall|j: int| 0 <= j < n implies #[trigger] self.entries@[j].key@ != k by {
                        assert(old(self).map@.contains_key(e0[j].key@));
                    }
                    assert forall|k2: Seq<char>| #[trigger] self.map@.contains_key(k2) implies exists|j: int|
                        0 <= j < self.entries@.len() && #[trigger] self.entries@[j].key@ == k2 by {
                        if k2 == k {
                            assert(self.entries@[n as int].key@ == k2);
                        } else {
                            assert(old(self).map@.contains_key(k2));
                            let j = choose|j: int|
                                0 <= j < e0.len() && #[trigger] e0[j].key@ == k2;
                            assert(self.entries@[j].key@ == k2);
                        }
                    }
                    assert forall|i: int| 0 <= i < self.entries@.len() implies slot_of(
                        self.slots@,
                        key_hash(#[trigger] self.entries@[i].key@),
                    ).contains(i as usize) by {
                        if i < n {
                            let x = key_hash(e0[i].key@);
                            assert(slot_of(s0, x).contains(i as usize));
                            if x == h {
                                let t = choose|t: int| 0 <= t < slot_of(s0, x).len() && slot_of(s0, x)[t] == i as usize;
                                assert(slot_of(self.slots@, x)[t] == i as usize);
                            }
                        } else {
                            assert(slot_of(self.slots@, h)[slot_of(s0, h).len() as int] == n);
                        }
                    }
                    assert forall|x: u64, t: int|
                        0 <= t < slot_of(self.slots@, x).len() implies #[trigger] slot_of(self.slots@, x)[t]
                            < self.entries@.len() && key_hash(
                            self.entries@[slot_of(self.slots@, x)[t] as int].key@,
                        ) == x by {
                        if x == h && t == slot_of(s0, h).len() {
                        } else {
                            assert(slot_of(s0, x)[t] == slot_of(self.slots@, x)[t]);
                            assert(slot_of(s0, x)[t] < n);
                        }
                    }
                    assert forall|x: u64| #[trigger] slot_of(self.slots@, x).no_duplicates() by {
                        if x == h {
                            assert(slot_of(s0, h).no_duplicates());
                            assert forall|t: int| 0 <= t < slot_of(s0, h).len() implies slot_of(s0, h)[t] != n by {
                                assert(slot_of(s0, h)[t] < n);
                            }
                        } else {
                            assert(slot_of(s0, x).no_duplicates());
                        }
                    }
                }
            },
        }
    }

    /// Unbinds `key`; tells whether it was bound.
    pub fn remove(&mut self, key: &String) -> (r: bool)
        requires
            old(self).wf(),
        ensures
            final(self).wf(),
            final(self)@ == old(self)@.remove(key@),
            r == old(self)@.contains_key(key@),
    {
        match self.position(key) {
            Some(p) => {
                let ghost e0 = self.entries@;
                let ghost s0 = self.slots@;
                let last = self.entries.len() - 1;
                let h = hash_key(key);
                proof {
                    assert(key_hash(e0[p as int].key@) == h);
                    assert(slot_of(s0, h).contains(p));
                }
                let mut list = take_slot(&mut self.slots, h);
                let found = find_position(&list, p);
                let j = match found {
                    Some(j) => j,
                    None => {
                        proof {
                            assert(false);
                        }
                        0
                    },
                };
                list.swap_remove(j);
                self.slots.insert(h, list);
                let ghost s1 = self.slots@;
                proof {
                    lemma_drop_value(slot_of(s0, h), j as int);
                    assert forall|x: u64| #[trigger] slot_of(s1, x) == if x == h {
                        slot_of(s0, h).update(j as int, slot_of(s0, h).last()).drop_last()
                    } else {
                        slot_of(s0, x)
                    } by {}
                }
                let ghost mut hl_g: u64 = 0;
                let ghost mut j2_g: int = 0;
                if p != last {
                    let hl = hash_key(&self.entries[last].key);
                    proof {
                        hl_g = hl;
                    }
                    proof {
                        assert(slot_of(s0, hl).contains(last));
                        if hl == h {
                            let t = choose|t: int| 0 <= t < slot_of(s0, h).len() && slot_of(s0, h)[t] == last;
                            assert(t != j);
                            lemma_drop_value_keeps(slot_of(s0, h), j as int, t);
                        }
                        assert(slot_of(s1, hl).contains(last));
                    }
                    let mut list2 = take_slot(&mut self.slots, hl);
                    let found2 = find_position(&list2, last);
                    match found2 {
                        Some(j2) => {
                            proof {
                                j2_g = j2 as int;
                            }
                            list2.set(j2, p);
                        },
                        None => {
                            proof {
                                assert(false);
                            }
                        },
                    }
                    self.slots.insert(hl, list2);
                }
                self.entries.swap_remove(p);
                self.map = Ghost(self.map@.remove(key@));
                proof {
                    if p != last {
                        assert forall|x: u64| #[trigger] slot_of(self.slots@, x) == if x == hl_g {
                            slot_of(s1, hl_g).update(j2_g, p)
                        } else {
                            slot_of(s1, x)
                        } by {}
                    } else {
                        assert forall|x: u64| #[trigger] slot_of(self.slots@, x) == slot_of(s1, x) by {}
                    }
                    lemma_remove_ok(e0, old(self).map@, s0, s1, self.slots@, key@, p as int, j as int, hl_g, j2_g);
                    assert(self.entries@ =~= e0.update(p as int, e0.last()).drop_last());
                }
                true
            },
            None => {
                proof {
                    assert(self.map@.remove(key@) =~= self.map@);
                }
                false
            },
        }
    }
}

/// After the entry at `p` is taken out by moving the last entry into its
/// place, and its table lists are updated to match, the index is sound.
proof fn lemma_remove_ok(
    e0: Seq<IndexEntry>,
    m0: Map<Seq<char>, (int, int)>,
    s0: Map<u64, Vec<usize>>,
    s1: Map<u64, Vec<usize>>,
    s2: Map<u64, Vec<usize>>,
    k: Seq<char>,
    p: int,
    j: int,
    hl: u64,
    j2: int,
)
    requires
        entries_ok_of(e0, m0),
        slots_ok_of(e0, s0),
        0 <= p < e0.len(),
        e0[p].key@ == k,
        0 <= j < slot_of(s0, key_hash(k)).len(),
        slot_of(s0, key_hash(k))[j] == p,
        forall|x: u64| #[trigger] slot_of(s1, x) == if x == key_hash(k) {
            slot_of(s0, x).update(j, slot_of(s0, x).last()).drop_last()
        } else {
            slot_of(s0, x)
        },
        p == e0.len() - 1 ==> forall|x: u64| #[trigger] slot_of(s2, x) == slot_of(s1, x),
        p != e0.len() - 1 ==> {
            &&& hl == key_hash(e0.last().key@)
            &&& 0 <= j2 < slot_of(s1, hl).len()
            &&& slot_of(s1, hl)[j2] == e0.len() - 1
            &&& forall|x: u64| #[trigger] slot_of(s2, x) == if x == hl {
                slot_of(s1, hl).update(j2, p as usize)
            } else {
                slot_of(s1, x)
            }
        },
    ensures
        entries_ok_of(e0.update(p, e0.last()).drop_last(), m0.remove(k)),
        slots_ok_of(e0.update(p, e0.last()).drop_last(), s2),
{
    let e1 = e0.update(p, e0.last()).drop_last();
    let m1 = m0.remove(k);
    let last = e0.len() - 1;
    let h = key_hash(k);
    assert forall|i: int| 0 <= i < e1.len() implies #[trigger] e1[i] == if i == p { e0[last] } else { e0[i] } by {}
    // Where each position stands in the table before the change.
    assert forall|x: u64, t: int| 0 <= t < slot_of(s0, x).len() && slot_of(s0, x)[t] == p as usize implies x == h && t == j by {
        assert(key_hash(e0[p].key@) == x);
        assert(slot_of(s0, h).no_duplicates());
    }
    lemma_drop_value(slot_of(s0, h), j);
    // entries_ok
    assert forall|i: int| 0 <= i < e1.len() implies m1.contains_key(#[trigger] e1[i].key@) && m1[e1[i].key@] == e1[i].bound.range() by {
        let oi = if i == p { last } else { i };
        assert(e1[i] == e0[oi]);
        assert(oi != p);
        assert(e0[oi].key@ != e0[p].key@);
    }
    assert forall|k2: Seq<char>| #[trigger] m1.contains_key(k2) implies exists|i: int| 0 <= i < e1.len() && #[trigger] e1[i].key@ == k2 by {
        assert(m0.contains_key(k2));
        let i = choose|i: int| 0 <= i < e0.len() && #[trigger] e0[i].key@ == k2;
        assert(i != p);
        if i == last {
            assert(e1[p].key@ == k2);
        } else {
            assert(e1[i].key@ == k2);
        }
    }
    assert forall|a: int, b: int| 0 <= a < e1.len() && 0 <= b < e1.len() && a != b implies #[trigger] e1[a].key@ != #[trigger] e1[b].key@ by {
        let oa = if a == p { last } else { a };
        let ob = if b == p { last } else { b };
        assert(e1[a] == e0[oa] && e1[b] == e0[ob]);
    }
    // Every entry is listed under its hash.
    assert forall|i: int| 0 <= i < e1.len() implies slot_of(s2, key_hash(#[trigger] e1[i].key@)).contains(i as usize) by {
        if i == p {
            assert(p != last);
            assert(slot_of(s2, hl)[j2] == p as usize);
        } else {
            let x = key_hash(e0[i].key@);
            assert(slot_of(s0, x).contains(i as usize));
            assert(i as usize != p as usize);
            assert(slot_of(s1, x).contains(i as usize)) by {
                if x == h {
                    assert(slot_of(s0, h).contains(i as usize));
                }
            }
            if p != last && x == hl {
                let t = choose|t: int| 0 <= t < slot_of(s1, x).len() && slot_of(s1, x)[t] == i as usize;
                assert(t != j2);
                assert(slot_of(s2, x)[t] == i as usize);
            }
        }
    }
    // Every listed position holds an entry with that hash.
    assert forall|x: u64, t: int| 0 <= t < slot_of(s2, x).len() implies #[trigger] slot_of(s2, x)[t] < e1.len() && key_hash(e1[slot_of(s2, x)[t] as int].key@) == x by {
        let v = slot_of(s2, x)[t];
        if p != last && x == hl && t == j2 {
            assert(v == p as usize);
            assert(e1[p] == e0[last]);
        } else {
            assert(v == slot_of(s1, x)[t]);
            assert(slot_of(s1, x).contains(v));
            assert(slot_of(s0, x).contains(v) && v != p as usize) by {
                if x == h {
                } else {
                    let t0 = t;
                    assert(slot_of(s0, x)[t0] == v);
                    if v == p as usize {
                        assert(x == h);
                    }
                }
            }
            let t0 = choose|t0: int| 0 <= t0 < slot_of(s0, x).len() && slot_of(s0, x)[t0] == v;
            assert(v < e0.len() && key_hash(e0[v as int].key@) == x);
            if v == last as usize {
                assert(p != last);
                assert(x == hl);
                assert(slot_of(s1, hl).no_duplicates()) by {
                    if hl == h {
                    } else {
                        assert(slot_of(s0, hl).no_duplicates());
                    }
                }
                assert(t == j2);
            }
            assert(e1[v as int] == e0[v as int]);
        }
    }
    // No position is listed twice.
    assert forall|x: u64| #[trigger] slot_of(s2, x).no_duplicates() by {
        assert(slot_of(s1, x).no_duplicates()) by {
            if x != h {
                assert(slot_of(s0, x).no_duplicates());
            }
        }
        if p != last && x == hl {
            let l1 = slot_of(s1, hl);
            assert(!l1.contains(p as usize)) by {
                if l1.contains(p as usize) {
                    let t = choose|t: int| 0 <= t < l1.len() && l1[t] == p as usize;
                    if hl == h {
                    } else {
                        assert(slot_of(s0, hl)[t] == p as usize);
                    }
                }
            }
            let l2 = slot_of(s2, hl);
            assert forall|a: int, b: int| 0 <= a < l2.len() && 0 <= b < l2.len() && a != b implies l2[a] != l2[b] by {
                if a == j2 {
                    assert(l1.contains(l2[b]));
                } else if b == j2 {
                    assert(l1.contains(l2[a]));
                }
            }
        }
    }
}

/// Taking out the element at `j` of a list without duplicates, by moving the
/// last element into its place, leaves the other elements, once each.
proof fn lemma_drop_value(s: Seq<usize>, j: int)
    requires
        s.no_duplicates(),
        0 <= j < s.len(),
    ensures
        s.update(j, s.last()).drop_last().no_duplicates(),
        forall|v: usize| #[trigger] s.update(j, s.last()).drop_last().contains(v) <==> (s.contains(v) && v != s[j]),
{
    let r = s.update(j, s.last()).drop_last();
    let n = s.len() - 1;
    assert forall|a: int, b: int| 0 <= a < r.len() && 0 <= b < r.len() && a != b implies r[a] != r[b] by {
        let ia = if a == j { n } else { a };
        let ib = if b == j { n } else { b };
        assert(r[a] == s[ia] && r[b] == s[ib]);
    }
    assert forall|v: usize| #[trigger] r.contains(v) <==> (s.contains(v) && v != s[j]) by {
        if r.contains(v) {
            let a = choose|a: int| 0 <= a < r.len() && r[a] == v;
            let ia = if a == j { n } else { a };
            assert(s[ia] == v);
            assert(ia != j);
        }
        if s.contains(v) && v != s[j] {
            let a = choose|a: int| 0 <= a < s.len() && s[a] == v;
            assert(a != j);
            if a == n {
                assert(r[j] == v);
            } else {
                assert(r[a] == v);
            }
        }
    }
}

/// The element at `t`, other than the one taken out, stays.
proof fn lemma_drop_value_keeps(s: Seq<usize>, j: int, t: int)
    requires
        s.no_duplicates(),
        0 <= j < s.len(),
        0 <= t < s.len(),
        t != j,
    ensures
        s.update(j, s.last()).drop_last().contains(s[t]),
{
    lemma_drop_value(s, j);
    assert(s.contains(s[t]));
}

} // verus!
