//! In-order entry sequences: the mathematical model of a search tree's
//! contents, and what insertion, removal and lookup mean on it.

use vstd::prelude::*;
use crate::order::{lt, total_order, lemma_strict_order};

verus! {

/// The keys of `s`, in the same order.
pub open spec fn keys_of<K, V>(s: Seq<(K, V)>) -> Seq<K> {
    s.map_values(|e: (K, V)| e.0)
}

/// The keys of `s` are strictly ascending. (Opaque: `lemma_ascending_means`
/// says what it means.)
#[verifier::opaque]
pub open spec fn ascending<K: Ord, V>(s: Seq<(K, V)>) -> bool {
    forall|i: int, j: int| 0 <= i < j < s.len() ==> lt(#[trigger] s[i].0, #[trigger] s[j].0)
}

/// How many entries of `s` have a key that sorts before `key`. In an
/// ascending sequence this is the position at which `key` stands, or would
/// stand. (Opaque: reveal it to compute with it.)
#[verifier::opaque]
pub open spec fn rank<K: Ord, V>(s: Seq<(K, V)>, key: K) -> int
    decreases s.len(),
{
    if s.len() == 0 {
        0
    } else {
        rank(s.drop_last(), key) + if lt(s.last().0, key) {
            1int
        } else {
            0int
        }
    }
}

/// `s` has an entry for `key`.
pub open spec fn holds<K: Ord, V>(s: Seq<(K, V)>, key: K) -> bool {
    0 <= rank(s, key) < s.len() && s[rank(s, key)].0 == key
}

/// The value that `s` holds for `key`, if any.
pub open spec fn value_of<K: Ord, V>(s: Seq<(K, V)>, key: K) -> Option<V> {
    if holds(s, key) {
        Some(s[rank(s, key)].1)
    } else {
        None
    }
}

/// The entry that `s` holds for `key`, if any.
pub open spec fn entry_of<K: Ord, V>(s: Seq<(K, V)>, key: K) -> Option<(K, V)> {
    if holds(s, key) {
        Some(s[rank(s, key)])
    } else {
        None
    }
}

/// `s` after `key` is bound to `val`: the entry for `key` is replaced where
/// there is one, else a new entry is put in at the key's rank. (Opaque:
/// reveal it to compute with it.)
#[verifier::opaque]
pub open spec fn with_entry<K: Ord, V>(s: Seq<(K, V)>, key: K, val: V) -> Seq<(K, V)> {
    if holds(s, key) {
        s.update(rank(s, key), (key, val))
    } else {
        s.insert(rank(s, key), (key, val))
    }
}

/// `s` without its entry for `key`; `s` itself where it has none. (Opaque:
/// reveal it to compute with it.)
#[verifier::opaque]
pub open spec fn without<K: Ord, V>(s: Seq<(K, V)>, key: K) -> Seq<(K, V)> {
    if holds(s, key) {
        s.remove(rank(s, key))
    } else {
        s
    }
}

/// Every key of `s` sorts before `key`.
pub open spec fn all_below<K: Ord, V>(s: Seq<(K, V)>, key: K) -> bool {
    forall|i: int| 0 <= i < s.len() ==> lt(#[trigger] s[i].0, key)
}

/// Every key of `s` sorts after `key`.
pub open spec fn all_above<K: Ord, V>(s: Seq<(K, V)>, key: K) -> bool {
    forall|i: int| 0 <= i < s.len() ==> lt(key, #[trigger] s[i].0)
}

/// A rank is a position of the sequence, or its length.
pub proof fn lemma_rank_bounds<K: Ord, V>(s: Seq<(K, V)>, key: K)
    ensures
        0 <= rank(s, key) <= s.len(),
    decreases s.len(),
{
    reveal(rank);
    if s.len() > 0 {
        lemma_rank_bounds(s.drop_last(), key);
    }
}

/// The rank in a concatenation is the sum of the ranks in its parts.
pub proof fn lemma_rank_concat<K: Ord, V>(a: Seq<(K, V)>, b: Seq<(K, V)>, key: K)
    ensures
        rank(a + b, key) == rank(a, key) + rank(b, key),
    decreases b.len(),
{
    reveal(rank);
    if b.len() == 0 {
        assert(a + b =~= a);
    } else {
        assert((a + b).drop_last() =~= a + b.drop_last());
        assert((a + b).last() == b.last());
        lemma_rank_concat(a, b.drop_last(), key);
    }
}

/// Where every key sorts before `key`, its rank is the length.
pub proof fn lemma_rank_all_below<K: Ord, V>(s: Seq<(K, V)>, key: K)
    requires
        all_below(s, key),
    ensures
        rank(s, key) == s.len(),
    decreases s.len(),
{
    reveal(rank);
    if s.len() > 0 {
        lemma_rank_all_below(s.drop_last(), key);
    }
}

/// Where no key sorts before `key`, its rank is 0.
pub proof fn lemma_rank_none_below<K: Ord, V>(s: Seq<(K, V)>, key: K)
    requires
        forall|i: int| 0 <= i < s.len() ==> !lt(#[trigger] s[i].0, key),
    ensures
        rank(s, key) == 0,
    decreases s.len(),
{
    reveal(rank);
    if s.len() > 0 {
        lemma_rank_none_below(s.drop_last(), key);
    }
}

/// In an ascending sequence the keys below `key` are exactly those before
/// its rank.
pub proof fn lemma_rank_splits<K: Ord, V>(s: Seq<(K, V)>, key: K)
    requires
        total_order::<K>(),
        ascending(s),
    ensures
        0 <= rank(s, key) <= s.len(),
        forall|i: int| 0 <= i < rank(s, key) ==> lt(#[trigger] s[i].0, key),
        forall|i: int| rank(s, key) <= i < s.len() ==> !lt(#[trigger] s[i].0, key),
    decreases s.len(),
{
    reveal(rank);
    reveal(ascending);
    lemma_strict_order::<K>();
    lemma_rank_bounds(s, key);
    if s.len() > 0 {
        let t = s.drop_last();
        assert forall|i: int, j: int| 0 <= i < j < t.len() implies lt(
            #[trigger] t[i].0,
            #[trigger] t[j].0,
        ) by {
            assert(t[i] == s[i] && t[j] == s[j]);
        }
        lemma_rank_splits(t, key);
        if lt(s.last().0, key) {
            assert forall|i: int| 0 <= i < t.len() implies lt(#[trigger] t[i].0, key) by {
                assert(t[i] == s[i]);
                assert(lt(s[i].0, s[s.len() - 1].0));
            }
            lemma_rank_all_below(t, key);
        } else {
            assert forall|i: int| 0 <= i < rank(s, key) implies lt(#[trigger] s[i].0, key) by {
                assert(t[i] == s[i]);
            }
            assert forall|i: int| rank(s, key) <= i < s.len() implies !lt(
                #[trigger] s[i].0,
                key,
            ) by {
                if i < t.len() {
                    assert(t[i] == s[i]);
                }
            }
        }
    }
}

/// In an ascending sequence an entry's key is found at its own position,
/// and nowhere else.
pub proof fn lemma_rank_of_member<K: Ord, V>(s: Seq<(K, V)>, i: int)
    requires
        total_order::<K>(),
        ascending(s),
        0 <= i < s.len(),
    ensures
        rank(s, s[i].0) == i,
        holds(s, s[i].0),
{
    reveal(ascending);
    lemma_strict_order::<K>();
    lemma_rank_splits(s, s[i].0);
    let r = rank(s, s[i].0);
    if r < i {
        assert(lt(s[r].0, s[i].0));
    } else if r > i {
        assert(lt(s[i].0, s[i].0));
    }
}

/// `s` holds `key` exactly when one of its entries has that key.
pub proof fn lemma_holds_iff_member<K: Ord, V>(s: Seq<(K, V)>, key: K)
    requires
        total_order::<K>(),
        ascending(s),
    ensures
        holds(s, key) <==> exists|i: int| 0 <= i < s.len() && #[trigger] s[i].0 == key,
{
    lemma_rank_bounds(s, key);
    if exists|i: int| 0 <= i < s.len() && #[trigger] s[i].0 == key {
        let i = choose|i: int| 0 <= i < s.len() && #[trigger] s[i].0 == key;
        lemma_rank_of_member(s, i);
    }
    if holds(s, key) {
        assert(s[rank(s, key)].0 == key);
    }
}

/// An ascending run falls into an ascending run below each of its entries
/// and one above it.
pub proof fn lemma_ascending_split<K: Ord, V>(a: Seq<(K, V)>, e: (K, V), b: Seq<(K, V)>)
    requires
        ascending(a.push(e) + b),
    ensures
        ascending(a),
        ascending(b),
        all_below(a, e.0),
        all_above(b, e.0),
{
    reveal(ascending);
    let s = a.push(e) + b;
    assert(s[a.len() as int] == e);
    assert forall|i: int, j: int| 0 <= i < j < a.len() implies lt(
        #[trigger] a[i].0,
        #[trigger] a[j].0,
    ) by {
        assert(s[i] == a[i] && s[j] == a[j]);
    }
    assert forall|i: int, j: int| 0 <= i < j < b.len() implies lt(
        #[trigger] b[i].0,
        #[trigger] b[j].0,
    ) by {
        assert(s[i + a.len() + 1] == b[i] && s[j + a.len() + 1] == b[j]);
    }
    assert forall|i: int| 0 <= i < a.len() implies lt(#[trigger] a[i].0, e.0) by {
        assert(s[i] == a[i]);
        assert(lt(s[i].0, s[a.len() as int].0));
    }
    assert forall|i: int| 0 <= i < b.len() implies lt(e.0, #[trigger] b[i].0) by {
        assert(s[i + a.len() + 1] == b[i]);
        assert(lt(s[a.len() as int].0, s[i + a.len() + 1].0));
    }
}

/// Where `key` sorts before the entry `e` of an ascending run, only the part
/// below `e` matters to it.
pub proof fn lemma_key_below<K: Ord, V>(a: Seq<(K, V)>, e: (K, V), b: Seq<(K, V)>, key: K)
    requires
        total_order::<K>(),
        ascending(a.push(e) + b),
        lt(key, e.0),
    ensures
        rank(a.push(e) + b, key) == rank(a, key),
        holds(a.push(e) + b, key) == holds(a, key),
        entry_of(a.push(e) + b, key) == entry_of(a, key),
        value_of(a.push(e) + b, key) == value_of(a, key),
        forall|val: V| #[trigger]
            with_entry(a.push(e) + b, key, val) == with_entry(a, key, val).push(e) + b,
        without(a.push(e) + b, key) == without(a, key).push(e) + b,
{
    reveal(with_entry);
    reveal(without);
    lemma_strict_order::<K>();
    lemma_ascending_split(a, e, b);
    let s = a.push(e) + b;
    lemma_rank_concat(a.push(e), b, key);
    lemma_rank_concat(a, seq![e], key);
    assert(a.push(e) =~= a + seq![e]);
    assert(seq![e].drop_last() =~= Seq::<(K, V)>::empty());
    assert(rank(seq![e], key) == 0) by {
        reveal_with_fuel(rank, 2);
    }
    assert forall|i: int| 0 <= i < b.len() implies !lt(#[trigger] b[i].0, key) by {
        assert(lt(e.0, b[i].0));
    }
    lemma_rank_none_below(b, key);
    lemma_rank_bounds(a, key);
    let r = rank(a, key);
    if r < a.len() {
        assert(s[r] == a[r]);
    } else {
        assert(s[r] == e);
    }
    assert forall|val: V| #[trigger]
        with_entry(s, key, val) == with_entry(a, key, val).push(e) + b by {
        if holds(a, key) {
            assert(s.update(r, (key, val)) =~= a.update(r, (key, val)).push(e) + b);
        } else {
            assert(s.insert(r, (key, val)) =~= a.insert(r, (key, val)).push(e) + b);
        }
    }
    if holds(a, key) {
        assert(s.remove(r) =~= a.remove(r).push(e) + b);
    }
}

/// Where `key` sorts after the entry `e` of an ascending run, only the part
/// above `e` matters to it.
pub proof fn lemma_key_above<K: Ord, V>(a: Seq<(K, V)>, e: (K, V), b: Seq<(K, V)>, key: K)
    requires
        total_order::<K>(),
        ascending(a.push(e) + b),
        lt(e.0, key),
    ensures
        rank(a.push(e) + b, key) == a.len() + 1 + rank(b, key),
        holds(a.push(e) + b, key) == holds(b, key),
        entry_of(a.push(e) + b, key) == entry_of(b, key),
        value_of(a.push(e) + b, key) == value_of(b, key),
        forall|val: V| #[trigger]
            with_entry(a.push(e) + b, key, val) == a.push(e) + with_entry(b, key, val),
        without(a.push(e) + b, key) == a.push(e) + without(b, key),
{
    reveal(with_entry);
    reveal(without);
    lemma_strict_order::<K>();
    lemma_ascending_split(a, e, b);
    let s = a.push(e) + b;
    lemma_rank_concat(a.push(e), b, key);
    assert forall|i: int| 0 <= i < a.push(e).len() implies lt(
        #[trigger] a.push(e)[i].0,
        key,
    ) by {
        if i < a.len() {
            assert(lt(a[i].0, e.0));
        }
    }
    lemma_rank_all_below(a.push(e), key);
    lemma_rank_bounds(b, key);
    let r = rank(b, key);
    let n = a.len() + 1;
    if r < b.len() {
        assert(s[n + r] == b[r]);
    }
    assert forall|val: V| #[trigger]
        with_entry(s, key, val) == a.push(e) + with_entry(b, key, val) by {
        if holds(b, key) {
            assert(s.update(n + r, (key, val)) =~= a.push(e) + b.update(r, (key, val)));
        } else {
            assert(s.insert(n + r, (key, val)) =~= a.push(e) + b.insert(r, (key, val)));
        }
    }
    if holds(b, key) {
        assert(s.remove(n + r) =~= a.push(e) + b.remove(r));
    }
}

/// The key of an entry `e` of an ascending run is held at the place of `e`.
pub proof fn lemma_key_here<K: Ord, V>(a: Seq<(K, V)>, e: (K, V), b: Seq<(K, V)>)
    requires
        total_order::<K>(),
        ascending(a.push(e) + b),
    ensures
        rank(a.push(e) + b, e.0) == a.len(),
        holds(a.push(e) + b, e.0),
        entry_of(a.push(e) + b, e.0) == Some(e),
        value_of(a.push(e) + b, e.0) == Some(e.1),
        forall|val: V| #[trigger]
            with_entry(a.push(e) + b, e.0, val) == a.push((e.0, val)) + b,
        without(a.push(e) + b, e.0) == a + b,
{
    reveal(with_entry);
    reveal(without);
    let s = a.push(e) + b;
    assert(s[a.len() as int] == e);
    lemma_rank_of_member(s, a.len() as int);
    assert forall|val: V| #[trigger] with_entry(s, e.0, val) == a.push((e.0, val)) + b by {
        assert(s.update(a.len() as int, (e.0, val)) =~= a.push((e.0, val)) + b);
    }
    assert(s.remove(a.len() as int) =~= a + b);
}

/// Binding a key keeps an ascending run ascending; it grows by one entry
/// exactly when the key is new; and afterwards the key is held, with the
/// value given.
pub proof fn lemma_with_entry<K: Ord, V>(s: Seq<(K, V)>, key: K, val: V)
    requires
        total_order::<K>(),
        ascending(s),
    ensures
        ascending(with_entry(s, key, val)),
        with_entry(s, key, val).len() == s.len() + if holds(s, key) {
            0int
        } else {
            1int
        },
        holds(s, key) ==> keys_of(with_entry(s, key, val)) == keys_of(s),
        rank(with_entry(s, key, val), key) == rank(s, key),
        entry_of(with_entry(s, key, val), key) == Some((key, val)),
{
    reveal(with_entry);
    reveal(ascending);
    lemma_strict_order::<K>();
    lemma_rank_splits(s, key);
    let r = rank(s, key);
    let t = with_entry(s, key, val);
    if holds(s, key) {
        assert(keys_of(t) =~= keys_of(s));
        assert forall|i: int, j: int| 0 <= i < j < t.len() implies lt(
            #[trigger] t[i].0,
            #[trigger] t[j].0,
        ) by {
            assert(t[i].0 == s[i].0 && t[j].0 == s[j].0);
        }
    } else {
        assert forall|i: int, j: int| 0 <= i < j < t.len() implies lt(
            #[trigger] t[i].0,
            #[trigger] t[j].0,
        ) by {
            if j < r {
                assert(t[i] == s[i] && t[j] == s[j]);
            } else if j == r {
                assert(t[i] == s[i]);
            } else {
                assert(t[j] == s[j - 1]);
                if i < r {
                    assert(t[i] == s[i]);
                    if j - 1 > i {
                        assert(lt(s[i].0, s[j - 1].0));
                    }
                } else if i == r {
                    assert(!lt(s[j - 1].0, key));
                    if s[j - 1].0 == key {
                        lemma_rank_of_member(s, j - 1);
                    }
                } else {
                    assert(t[i] == s[i - 1]);
                }
            }
        }
    }
    assert(t[r] == (key, val));
    lemma_rank_of_member(t, r);
}

/// Removing a key keeps an ascending run ascending; it shrinks by one entry
/// exactly when the key was held; and afterwards the key is not held.
pub proof fn lemma_without<K: Ord, V>(s: Seq<(K, V)>, key: K)
    requires
        total_order::<K>(),
        ascending(s),
    ensures
        ascending(without(s, key)),
        without(s, key).len() == s.len() - if holds(s, key) {
            1int
        } else {
            0int
        },
        !holds(without(s, key), key),
        !holds(s, key) ==> without(s, key) == s,
{
    reveal(without);
    reveal(ascending);
    lemma_strict_order::<K>();
    lemma_rank_splits(s, key);
    let r = rank(s, key);
    let t = without(s, key);
    if holds(s, key) {
        assert forall|i: int, j: int| 0 <= i < j < t.len() implies lt(
            #[trigger] t[i].0,
            #[trigger] t[j].0,
        ) by {
            let i0 = if i < r { i } else { i + 1 };
            let j0 = if j < r { j } else { j + 1 };
            assert(t[i] == s[i0] && t[j] == s[j0]);
            assert(lt(s[i0].0, s[j0].0));
        }
        if holds(t, key) {
            let q = rank(t, key);
            let q0 = if q < r { q } else { q + 1 };
            assert(t[q] == s[q0]);
            lemma_rank_of_member(s, q0);
        }
    }
}

/// Binding a key that was not held and then removing it gives back the
/// run as it was.
pub proof fn lemma_insert_then_remove<K: Ord, V>(s: Seq<(K, V)>, key: K, val: V)
    requires
        total_order::<K>(),
        ascending(s),
        !holds(s, key),
    ensures
        without(with_entry(s, key, val), key) == s,
{
    reveal(with_entry);
    reveal(without);
    lemma_with_entry(s, key, val);
    lemma_rank_bounds(s, key);
    let r = rank(s, key);
    assert(s.insert(r, (key, val)).remove(r) =~= s);
}

/// Moving one entry across the middle of three runs.
pub proof fn lemma_regroup<A>(a: Seq<A>, e1: A, b: Seq<A>, e2: A, c: Seq<A>)
    ensures
        (a.push(e1) + b).push(e2) + c == a.push(e1) + (b.push(e2) + c),
{
    assert((a.push(e1) + b).push(e2) + c =~= a.push(e1) + (b.push(e2) + c));
}

/// Moving two entries across the middle of four runs.
pub proof fn lemma_regroup_two<A>(a: Seq<A>, e1: A, b: Seq<A>, e2: A, c: Seq<A>, e3: A, d: Seq<A>)
    ensures
        (a.push(e1) + b).push(e2) + (c.push(e3) + d) == a.push(e1) + ((b.push(e2) + c).push(e3)
            + d),
        (a.push(e1) + b).push(e2) + (c.push(e3) + d) == ((a.push(e1) + b).push(e2) + c).push(e3)
            + d,
{
    assert((a.push(e1) + b).push(e2) + (c.push(e3) + d) =~= a.push(e1) + ((b.push(e2) + c).push(
        e3,
    ) + d));
    assert((a.push(e1) + b).push(e2) + (c.push(e3) + d) =~= ((a.push(e1) + b).push(e2) + c).push(
        e3,
    ) + d);
}

/// The empty run: it is ascending and holds no key, and binding a key in it
/// gives the run of that one entry.
pub proof fn lemma_empty<K: Ord, V>(key: K, val: V)
    ensures
        ascending(Seq::<(K, V)>::empty()),
        rank(Seq::<(K, V)>::empty(), key) == 0,
        !holds(Seq::<(K, V)>::empty(), key),
        with_entry(Seq::<(K, V)>::empty(), key, val) == seq![(key, val)],
        without(Seq::<(K, V)>::empty(), key) == Seq::<(K, V)>::empty(),
{
    reveal(ascending);
    reveal(rank);
    reveal(with_entry);
    reveal(without);
    assert(Seq::<(K, V)>::empty().insert(0, (key, val)) =~= seq![(key, val)]);
}

/// What `ascending` says, entry by entry.
pub proof fn lemma_ascending_means<K: Ord, V>(s: Seq<(K, V)>)
    ensures
        ascending(s) <==> forall|i: int, j: int|
            0 <= i < j < s.len() ==> lt(#[trigger] s[i].0, #[trigger] s[j].0),
{
    reveal(ascending);
}

/// Binding a key does not touch the entries of the other keys.
pub proof fn lemma_with_entry_other<K: Ord, V>(s: Seq<(K, V)>, key: K, val: V, other: K)
    requires
        total_order::<K>(),
        ascending(s),
        other != key,
    ensures
        entry_of(with_entry(s, key, val), other) == entry_of(s, other),
{
    reveal(with_entry);
    lemma_with_entry(s, key, val);
    lemma_rank_bounds(s, key);
    lemma_rank_bounds(s, other);
    let t = with_entry(s, key, val);
    lemma_rank_bounds(t, other);
    let r = rank(s, key);
    if holds(s, other) {
        let i = rank(s, other);
        let i1 = if holds(s, key) || i < r {
            i
        } else {
            i + 1
        };
        assert(t[i1] == s[i]);
        lemma_rank_of_member(t, i1);
    } else if holds(t, other) {
        let i1 = rank(t, other);
        let i = if holds(s, key) || i1 < r {
            i1
        } else {
            i1 - 1
        };
        assert(t[i1] == s[i]);
        lemma_rank_of_member(s, i);
    }
}

/// Removing a key does not touch the entries of the other keys.
pub proof fn lemma_without_other<K: Ord, V>(s: Seq<(K, V)>, key: K, other: K)
    requires
        total_order::<K>(),
        ascending(s),
        other != key,
    ensures
        entry_of(without(s, key), other) == entry_of(s, other),
{
    reveal(without);
    lemma_without(s, key);
    lemma_rank_bounds(s, key);
    lemma_rank_bounds(s, other);
    let t = without(s, key);
    lemma_rank_bounds(t, other);
    let r = rank(s, key);
    if holds(s, key) {
        if holds(s, other) {
            let i = rank(s, other);
            let i1 = if i < r {
                i
            } else {
                i - 1
            };
            assert(t[i1] == s[i]);
            lemma_rank_of_member(t, i1);
        } else if holds(t, other) {
            let i1 = rank(t, other);
            let i = if i1 < r {
                i1
            } else {
                i1 + 1
            };
            assert(t[i1] == s[i]);
            lemma_rank_of_member(s, i);
        }
    }
}

} // verus!
