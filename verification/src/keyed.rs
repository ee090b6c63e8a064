//! Sequences used as maps: one item per key, kept in the order keys first
//! appeared. Loading a store inserts its records one by one; a record whose
//! key is already present replaces the earlier one in place.
use vstd::prelude::*;

verus! {

/// An item that carries the key it is stored under.
pub trait Keyed {
    spec fn key(&self) -> int;
}

/// Some item of `s` has key `k`.
pub open spec fn has_key<T: Keyed>(s: Seq<T>, k: int) -> bool {
    exists|i: int| 0 <= i < s.len() && #[trigger] s[i].key() == k
}

/// No key occurs twice in `s`.
pub open spec fn keys_unique<T: Keyed>(s: Seq<T>) -> bool {
    forall|i: int, j: int| 0 <= i < s.len() && 0 <= j < s.len() && i != j ==> #[trigger] s[i].key() != #[trigger] s[j].key()
}

/// `s` after storing `x`: it replaces the item with the same key, or goes last.
pub open spec fn upsert<T: Keyed>(s: Seq<T>, x: T) -> Seq<T> {
    if has_key(s, x.key()) {
        s.update(choose|i: int| 0 <= i < s.len() && #[trigger] s[i].key() == x.key(), x)
    } else {
        s.push(x)
    }
}

/// The store made by inserting `recs` in order into an empty one.
pub open spec fn table<T: Keyed>(recs: Seq<T>) -> Seq<T>
    decreases recs.len(),
{
    if recs.len() == 0 {
        Seq::empty()
    } else {
        upsert(table(recs.drop_last()), recs.last())
    }
}

/// Storing keeps keys unique.
pub proof fn lemma_upsert_unique<T: Keyed>(s: Seq<T>, x: T)
    requires
        keys_unique(s),
    ensures
        keys_unique(upsert(s, x)),
        has_key(s, x.key()) ==> upsert(s, x).len() == s.len(),
        !has_key(s, x.key()) ==> upsert(s, x) == s.push(x),
{
    if has_key(s, x.key()) {
        let i = choose|i: int| 0 <= i < s.len() && #[trigger] s[i].key() == x.key();
        let t = upsert(s, x);
        assert forall|a: int, b: int| 0 <= a < t.len() && 0 <= b < t.len() && a != b implies #[trigger] t[a].key() != #[trigger] t[b].key() by {
            if a != i && b != i {
                assert(t[a] == s[a] && t[b] == s[b]);
            } else if a == i {
                assert(t[b] == s[b]);
                assert(s[i].key() != s[b].key());
            } else {
                assert(t[a] == s[a]);
                assert(s[i].key() != s[a].key());
            }
        }
    } else {
        let t = s.push(x);
        assert forall|a: int, b: int| 0 <= a < t.len() && 0 <= b < t.len() && a != b implies #[trigger] t[a].key() != #[trigger] t[b].key() by {
            if a < s.len() && b < s.len() {
                assert(t[a] == s[a] && t[b] == s[b]);
            } else if a == s.len() {
                assert(t[b] == s[b]);
            } else {
                assert(t[a] == s[a]);
            }
        }
    }
}

/// A loaded store has unique keys.
pub proof fn lemma_table_unique<T: Keyed>(recs: Seq<T>)
    ensures
        keys_unique(table(recs)),
    decreases recs.len(),
{
    if recs.len() > 0 {
        lemma_table_unique(recs.drop_last());
        lemma_upsert_unique(table(recs.drop_last()), recs.last());
    }
}

/// Records with distinct keys load as themselves, in order.
pub proof fn lemma_table_of_unique<T: Keyed>(recs: Seq<T>)
    requires
        keys_unique(recs),
    ensures
        table(recs) == recs,
    decreases recs.len(),
{
    if recs.len() > 0 {
        let init = recs.drop_last();
        assert forall|a: int, b: int| 0 <= a < init.len() && 0 <= b < init.len() && a != b implies #[trigger] init[a].key() != #[trigger] init[b].key() by {
            assert(init[a] == recs[a] && init[b] == recs[b]);
        }
        lemma_table_of_unique(init);
        assert(!has_key(init, recs.last().key())) by {
            if has_key(init, recs.last().key()) {
                let i = choose|i: int| 0 <= i < init.len() && #[trigger] init[i].key() == recs.last().key();
                assert(init[i] == recs[i]);
                assert(recs[i].key() != recs[recs.len() - 1].key());
            }
        }
        lemma_upsert_unique(init, recs.last());
        assert(init.push(recs.last()) =~= recs);
    }
}


/// Law: storing `x` in a store with unique keys leaves exactly one item
/// under `x`'s key, `x` itself, and keeps every item under another key.
pub proof fn lemma_upsert_lookup<T: Keyed>(s: Seq<T>, x: T)
    requires
        keys_unique(s),
    ensures
        has_key(upsert(s, x), x.key()),
        forall|i: int| 0 <= i < upsert(s, x).len() && #[trigger] upsert(s, x)[i].key() == x.key() ==> upsert(s, x)[i] == x,
        forall|j: int| 0 <= j < s.len() && #[trigger] s[j].key() != x.key() ==> upsert(s, x).contains(s[j]),
{
    lemma_upsert_unique(s, x);
    let t = upsert(s, x);
    if has_key(s, x.key()) {
        let k = choose|i: int| 0 <= i < s.len() && #[trigger] s[i].key() == x.key();
        assert(t[k] == x);
        assert forall|j: int| 0 <= j < s.len() && #[trigger] s[j].key() != x.key() implies t.contains(s[j]) by {
            assert(j != k);
            assert(t[j] == s[j]);
        }
    } else {
        assert(t[s.len() as int] == x);
        assert forall|i: int| 0 <= i < t.len() && #[trigger] t[i].key() == x.key() implies t[i] == x by {
            if i < s.len() {
                assert(t[i] == s[i]);
                assert(has_key(s, x.key()));
            }
        }
        assert forall|j: int| 0 <= j < s.len() && #[trigger] s[j].key() != x.key() implies t.contains(s[j]) by {
            assert(t[j] == s[j]);
        }
    }
}

} // verus!
