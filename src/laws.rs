//! Laws that relate several operations, stated over the model of a
//! structure: each identifier mapped to its leader and its group's rank.

use crate::unionfind::{after_union, inserted, is_partition, leader_of, united};
use vstd::prelude::*;

verus! {

/// Inserting an identifier a second time changes nothing: the model after
/// two inserts is the model after one, and the identifier is then present,
/// so the second insert leaves the identifiers (and the size) unchanged.
pub proof fn lemma_insert_idempotent<T>(m: Map<T, (T, nat)>, t: T)
    ensures
        inserted(m, t).contains_key(t),
        inserted(inserted(m, t), t) == inserted(m, t),
{
}

/// Every present identifier has a leader, the leader is its own leader, and
/// since `find` leaves the model unchanged, repeated lookups agree.
pub proof fn lemma_find_reflexive<T>(m: Map<T, (T, nat)>, id: T)
    requires
        is_partition(m),
        m.contains_key(id),
    ensures
        leader_of(m, id) is Some,
        leader_of(m, leader_of(m, id)->Some_0) == leader_of(m, id),
{
}

/// Repeating `union(a, b)` returns the same leader as the first call and
/// leaves the model as the first call left it.
pub proof fn lemma_union_idempotent<T>(m: Map<T, (T, nat)>, a: T, b: T)
    ensures
        after_union(after_union(m, a, b), a, b) == after_union(m, a, b),
        united(after_union(m, a, b), a, b) == united(m, a, b),
{
    let m1 = after_union(m, a, b);
    if m.contains_key(a) && m.contains_key(b) && m[a].0 != m[b].0 {
        assert(m1[a].0 == m1[b].0);
    }
}

/// After `union(a, b)` and then `union(b, c)`, the three share one leader.
pub proof fn lemma_union_transitive<T>(m: Map<T, (T, nat)>, a: T, b: T, c: T)
    requires
        m.contains_key(a),
        m.contains_key(b),
        m.contains_key(c),
    ensures
        ({
            let m2 = after_union(after_union(m, a, b), b, c);
            &&& leader_of(m2, a) is Some
            &&& leader_of(m2, a) == leader_of(m2, b)
            &&& leader_of(m2, b) == leader_of(m2, c)
        }),
{
    let m1 = after_union(m, a, b);
    assert(m1[a].0 == m1[b].0);
}

/// An identifier that was never inserted has no leader, and a union that
/// names it returns nothing and leaves the model unchanged.
pub proof fn lemma_unknown_key<T>(m: Map<T, (T, nat)>, unknown: T, known: T)
    requires
        !m.contains_key(unknown),
    ensures
        leader_of(m, unknown) is None,
        united(m, unknown, known) is None,
        united(m, known, unknown) is None,
        after_union(m, unknown, known) == m,
        after_union(m, known, unknown) == m,
{
}

/// Merging two singleton groups gives a leader of rank 2, and merging a
/// third singleton into that group gives a leader of rank 3: the rank of a
/// group built from singletons is the number of its members.
pub proof fn lemma_rank_growth<T>(m: Map<T, (T, nat)>, a: T, b: T, c: T)
    requires
        m.contains_key(a),
        m.contains_key(b),
        m.contains_key(c),
        m[a] == (a, 1nat),
        m[b] == (b, 1nat),
        m[c] == (c, 1nat),
        a != b,
        b != c,
        a != c,
    ensures
        ({
            let m1 = after_union(m, a, b);
            let l1 = united(m, a, b)->Some_0;
            let m2 = after_union(m1, b, c);
            let l2 = united(m1, b, c)->Some_0;
            &&& m1[l1] == (l1, 2nat)
            &&& m2[l2] == (l2, 3nat)
            &&& m2[a] == (l2, 3nat)
            &&& m2[b] == (l2, 3nat)
            &&& m2[c] == (l2, 3nat)
        }),
{
    let m1 = after_union(m, a, b);
    assert(m1[a] == m1[b]);
    assert(m1[c] == (c, 1nat));
}

} // verus!
