//! Laws of the store's observable behaviour, stated over its bindings.
//!
//! Each mutation of a [`crate::store::KvStore`] changes its bindings as
//! [`apply_mutation`] says: `set` inserts, `remove` erases (and where the key
//! is not bound it fails and changes nothing, which erasing would not either).
use vstd::prelude::*;

verus! {

/// A mutation of the bindings.
pub enum Mutation {
    Put(Seq<char>, Seq<char>),
    Remove(Seq<char>),
}

/// The bindings after one mutation.
pub open spec fn apply_mutation(m: Map<Seq<char>, Seq<char>>, op: Mutation) -> Map<
    Seq<char>,
    Seq<char>,
> {
    match op {
        Mutation::Put(k, v) => m.insert(k, v),
        Mutation::Remove(k) => m.remove(k),
    }
}

/// The bindings after mutations applied in order.
pub open spec fn apply_mutations(m: Map<Seq<char>, Seq<char>>, ops: Seq<Mutation>) -> Map<
    Seq<char>,
    Seq<char>,
>
    decreases ops.len(),
{
    if ops.len() == 0 {
        m
    } else {
        apply_mutation(apply_mutations(m, ops.drop_last()), ops.last())
    }
}

/// What a lookup of `k` in `m` gives.
pub open spec fn lookup(m: Map<Seq<char>, Seq<char>>, k: Seq<char>) -> Option<Seq<char>> {
    if m.contains_key(k) {
        Some(m[k])
    } else {
        None
    }
}

/// The value of the last `set` of `k` in `ops` that no `remove` of `k`
/// follows, if there is one.
pub open spec fn last_set(ops: Seq<Mutation>, k: Seq<char>) -> Option<Seq<char>>
    decreases ops.len(),
{
    if ops.len() == 0 {
        None
    } else {
        match ops.last() {
            Mutation::Put(k2, v) => if k2 == k {
                Some(v)
            } else {
                last_set(ops.drop_last(), k)
            },
            Mutation::Remove(k2) => if k2 == k {
                None
            } else {
                last_set(ops.drop_last(), k)
            },
        }
    }
}

/// On a fresh store, after any sequence of mutations, a key reads as the
/// value of its last `set` that no `remove` follows, or as unbound.
pub proof fn lemma_get_is_last_set(ops: Seq<Mutation>, k: Seq<char>)
    ensures
        lookup(apply_mutations(Map::empty(), ops), k) == last_set(ops, k),
    decreases ops.len(),
{
    if ops.len() > 0 {
        lemma_get_is_last_set(ops.drop_last(), k);
    }
}

/// A failed `remove` of an unbound key leaves the bindings as erasing would.
pub proof fn lemma_remove_unbound(m: Map<Seq<char>, Seq<char>>, k: Seq<char>)
    requires
        !m.contains_key(k),
    ensures
        apply_mutation(m, Mutation::Remove(k)) == m,
{
    assert(m.remove(k) =~= m);
}

/// Setting a key to a value twice in a row is the same as setting it once.
pub proof fn lemma_set_twice(m: Map<Seq<char>, Seq<char>>, k: Seq<char>, v: Seq<char>)
    ensures
        apply_mutation(apply_mutation(m, Mutation::Put(k, v)), Mutation::Put(k, v))
            == apply_mutation(m, Mutation::Put(k, v)),
{
    assert(m.insert(k, v).insert(k, v) =~= m.insert(k, v));
}

/// After a `remove` of a key the key is unbound, so a second `remove` of it
/// fails with `KeyNotFound`.
pub proof fn lemma_remove_twice(m: Map<Seq<char>, Seq<char>>, k: Seq<char>)
    ensures
        !apply_mutation(m, Mutation::Remove(k)).contains_key(k),
{
}

} // verus!
