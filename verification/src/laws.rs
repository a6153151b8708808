//! Laws of the identifier resolver: the final identifiers are a pure
//! function of the elements' positions and class lists, resolving twice
//! changes nothing, and collision groups number their members 1..n in
//! encounter order.

use vstd::prelude::*;

use crate::id::{
    apply_updates_model, base_id_of, final_id_at, group_count_upto, group_size, is_managed,
    needs_update, update_lookup, updates_of, updates_upto, ElementModel,
};
use crate::text::dec_seq;

verus! {

/// Position handles are unique within one parse pass.
pub open spec fn distinct_positions(ms: Seq<ElementModel>) -> bool {
    forall|i: int, j: int|
        0 <= i < j < ms.len() ==> ms[i].position != ms[j].position
}

proof fn lemma_group_count_pure(
    a: Seq<ElementModel>,
    b: Seq<ElementModel>,
    bid: Seq<char>,
    n: int,
)
    requires
        a.len() == b.len(),
        forall|i: int| 0 <= i < a.len() ==> a[i].classes == b[i].classes,
        n <= a.len(),
    ensures
        group_count_upto(a, bid, n) == group_count_upto(b, bid, n),
    decreases n,
{
    if n > 0 {
        lemma_group_count_pure(a, b, bid, n - 1);
        assert(a[n - 1].classes == b[n - 1].classes);
        assert(is_managed(a[n - 1]) == is_managed(b[n - 1]));
        assert(base_id_of(a[n - 1]) == base_id_of(b[n - 1]));
    }
}

/// Determinism of resolution: whether an element is managed and which final
/// identifier it gets depend only on the elements' class lists, in order —
/// not on their current identifiers, positions, or on any processing order.
pub proof fn lemma_resolution_pure(a: Seq<ElementModel>, b: Seq<ElementModel>)
    requires
        a.len() == b.len(),
        forall|i: int| 0 <= i < a.len() ==> a[i].classes == b[i].classes,
    ensures
        forall|i: int| 0 <= i < a.len() ==> is_managed(a[i]) == is_managed(b[i]),
        forall|i: int| 0 <= i < a.len() ==> final_id_at(a, i) == final_id_at(b, i),
{
    assert forall|i: int| 0 <= i < a.len() implies is_managed(a[i]) == is_managed(b[i]) by {
        assert(a[i].classes == b[i].classes);
    }
    assert forall|i: int| 0 <= i < a.len() implies final_id_at(a, i) == final_id_at(b, i) by {
        assert(a[i].classes == b[i].classes);
        let bid = base_id_of(a[i]);
        assert(base_id_of(b[i]) == bid);
        lemma_group_count_pure(a, b, bid, a.len() as int);
        lemma_group_count_pure(a, b, bid, i);
    }
}

proof fn lemma_lookup_concat(u1: Seq<(u64, Seq<char>)>, u2: Seq<(u64, Seq<char>)>, p: u64)
    ensures
        update_lookup(u1 + u2, p) == match update_lookup(u1, p) {
            Some(x) => Some(x),
            None => update_lookup(u2, p),
        },
    decreases u1.len(),
{
    if u1.len() == 0 {
        assert(u1 + u2 =~= u2);
    } else {
        assert((u1 + u2)[0] == u1[0]);
        assert((u1 + u2).len() > 0);
        assert((u1 + u2).drop_first() =~= u1.drop_first() + u2);
        lemma_lookup_concat(u1.drop_first(), u2, p);
    }
}

proof fn lemma_lookup_updates(ms: Seq<ElementModel>, n: int, i: int)
    requires
        distinct_positions(ms),
        0 <= i < ms.len(),
        0 <= n <= ms.len(),
    ensures
        update_lookup(updates_upto(ms, n), ms[i].position) == if i < n && needs_update(ms, i) {
            Some(final_id_at(ms, i))
        } else {
            None::<Seq<char>>
        },
    decreases n,
{
    if n == 0 {
    } else {
        lemma_lookup_updates(ms, n - 1, i);
        let u1 = updates_upto(ms, n - 1);
        let tail = if needs_update(ms, n - 1) {
            seq![(ms[n - 1].position, final_id_at(ms, n - 1))]
        } else {
            Seq::<(u64, Seq<char>)>::empty()
        };
        assert(updates_upto(ms, n) == u1 + tail);
        lemma_lookup_concat(u1, tail, ms[i].position);
        if update_lookup(u1, ms[i].position) is None {
            if needs_update(ms, n - 1) {
                assert(tail.len() == 1);
                assert(tail[0].0 == ms[n - 1].position);
                if ms[n - 1].position == ms[i].position {
                    assert(i == n - 1) by {
                        if i < n - 1 {
                            assert(ms[i].position != ms[n - 1].position);
                        } else if i > n - 1 {
                            assert(ms[n - 1].position != ms[i].position);
                        }
                    }
                    assert(update_lookup(tail, ms[i].position) == Some(final_id_at(ms, n - 1)));
                } else {
                    assert(i != n - 1);
                    assert(update_lookup(tail, ms[i].position) == update_lookup(
                        tail.drop_first(),
                        ms[i].position,
                    ));
                    assert(tail.drop_first().len() == 0);
                }
            } else {
                assert(tail.len() == 0);
                if i == n - 1 {
                    assert(!needs_update(ms, i));
                }
            }
        }
    }
}

proof fn lemma_updates_empty(ms: Seq<ElementModel>, n: int)
    requires
        0 <= n <= ms.len(),
        forall|i: int| 0 <= i < n ==> !needs_update(ms, i),
    ensures
        updates_upto(ms, n).len() == 0,
    decreases n,
{
    if n > 0 {
        lemma_updates_empty(ms, n - 1);
    }
}

/// Idempotence: applying the resolver's pending updates to the document and
/// resolving again yields no pending update at all.
pub proof fn lemma_resolver_idempotent(ms: Seq<ElementModel>)
    requires
        distinct_positions(ms),
    ensures
        updates_of(apply_updates_model(ms, updates_of(ms))) == Seq::<(u64, Seq<char>)>::empty(),
{
    let us = updates_of(ms);
    let ms2 = apply_updates_model(ms, us);
    assert(ms2.len() == ms.len());
    assert forall|i: int| 0 <= i < ms.len() implies ms2[i].classes == ms[i].classes
        && ms2[i].position == ms[i].position by {
        assert(ms2[i] == match update_lookup(us, ms[i].position) {
            Some(id) => ElementModel {
                position: ms[i].position,
                classes: ms[i].classes,
                current: Some(id),
            },
            None => ms[i],
        });
    }
    lemma_resolution_pure(ms2, ms);
    assert forall|i: int| 0 <= i < ms2.len() implies !needs_update(ms2, i) by {
        if is_managed(ms2[i]) {
            assert(is_managed(ms[i]));
            lemma_lookup_updates(ms, ms.len() as int, i);
            assert(ms2[i] == match update_lookup(us, ms[i].position) {
                Some(id) => ElementModel {
                    position: ms[i].position,
                    classes: ms[i].classes,
                    current: Some(id),
                },
                None => ms[i],
            });
            if needs_update(ms, i) {
                assert(update_lookup(us, ms[i].position) == Some(final_id_at(ms, i)));
                assert(ms2[i].current == Some(final_id_at(ms, i)));
            } else {
                assert(ms2[i].current == ms[i].current);
                assert(ms[i].current == Some(final_id_at(ms, i)));
            }
            assert(final_id_at(ms2, i) == final_id_at(ms, i));
        }
    }
    lemma_updates_empty(ms2, ms2.len() as int);
    assert(updates_of(ms2) =~= Seq::<(u64, Seq<char>)>::empty());
}

/// With no pending update the mutator leaves the document exactly as it
/// is: nothing is reformatted or rewritten when there is nothing to change.
pub proof fn lemma_apply_empty(ms: Seq<ElementModel>)
    ensures
        apply_updates_model(ms, Seq::<(u64, Seq<char>)>::empty()) == ms,
{
    assert(apply_updates_model(ms, Seq::<(u64, Seq<char>)>::empty()) =~= ms);
}

/// Membership of the collision group with base identifier `b`.
pub open spec fn in_group(ms: Seq<ElementModel>, b: Seq<char>, i: int) -> bool {
    0 <= i < ms.len() && is_managed(ms[i]) && base_id_of(ms[i]) == b
}

proof fn lemma_count_monotone(ms: Seq<ElementModel>, b: Seq<char>, m: int, n: int)
    requires
        0 <= m <= n <= ms.len(),
    ensures
        group_count_upto(ms, b, m) <= group_count_upto(ms, b, n) <= group_count_upto(ms, b, m) + (
        n - m),
    decreases n,
{
    if n > m {
        lemma_count_monotone(ms, b, m, n - 1);
    }
}

proof fn lemma_rank_witness(ms: Seq<ElementModel>, b: Seq<char>, n: int, k: int)
    requires
        0 <= n <= ms.len(),
        0 <= k < group_count_upto(ms, b, n),
    ensures
        exists|i: int| in_group(ms, b, i) && i < n && group_count_upto(ms, b, i) == k,
    decreases n,
{
    lemma_count_monotone(ms, b, 0, n);
    assert(n > 0);
    if is_managed(ms[n - 1]) && base_id_of(ms[n - 1]) == b && group_count_upto(ms, b, n - 1)
        == k {
        assert(in_group(ms, b, n - 1) && n - 1 < n && group_count_upto(ms, b, n - 1) == k);
    } else {
        assert(k < group_count_upto(ms, b, n - 1));
        lemma_rank_witness(ms, b, n - 1, k);
        let i = choose|i: int|
            in_group(ms, b, i) && i < n - 1 && group_count_upto(ms, b, i) == k;
        assert(in_group(ms, b, i) && i < n && group_count_upto(ms, b, i) == k);
    }
}

/// Collision resolution: in the group of elements sharing base identifier
/// `b`, ranks in encounter order are exactly 0, 1, ..., size-1; a group of
/// one keeps the bare base identifier, and a larger group's members get the
/// base followed by their 1-based rank.
pub proof fn lemma_collision_groups(ms: Seq<ElementModel>, b: Seq<char>)
    ensures
        forall|i: int| in_group(ms, b, i) ==> 0 <= group_count_upto(ms, b, i) < group_size(ms, b),
        forall|i: int, j: int|
            in_group(ms, b, i) && in_group(ms, b, j) && i < j ==> group_count_upto(ms, b, i)
                < group_count_upto(ms, b, j),
        forall|i: int|
            in_group(ms, b, i) && group_size(ms, b) == 1 ==> final_id_at(ms, i) == b,
        forall|i: int|
            in_group(ms, b, i) && group_size(ms, b) > 1 ==> final_id_at(ms, i) == b + dec_seq(
                (group_count_upto(ms, b, i) + 1) as nat,
            ),
{
    assert forall|i: int| in_group(ms, b, i) implies 0 <= group_count_upto(ms, b, i) < group_size(
        ms,
        b,
    ) by {
        lemma_count_monotone(ms, b, 0, i);
        assert(group_count_upto(ms, b, i + 1) == group_count_upto(ms, b, i) + 1);
        lemma_count_monotone(ms, b, i + 1, ms.len() as int);
    }
    assert forall|i: int, j: int|
        in_group(ms, b, i) && in_group(ms, b, j) && i < j implies group_count_upto(ms, b, i)
        < group_count_upto(ms, b, j) by {
        assert(group_count_upto(ms, b, i + 1) == group_count_upto(ms, b, i) + 1);
        lemma_count_monotone(ms, b, i + 1, j);
    }
}

/// Every rank 0 <= k < size of the collision group with base identifier `b`
/// is attained by exactly one member, so a group of size n is numbered
/// 1, ..., n with nothing skipped.
pub proof fn lemma_rank_attained(ms: Seq<ElementModel>, b: Seq<char>, k: int)
    requires
        0 <= k < group_size(ms, b),
    ensures
        exists|i: int| in_group(ms, b, i) && #[trigger] group_count_upto(ms, b, i) == k,
{
    lemma_rank_witness(ms, b, ms.len() as int, k);
    let i = choose|i: int| in_group(ms, b, i) && i < ms.len() && group_count_upto(ms, b, i) == k;
    assert(in_group(ms, b, i) && group_count_upto(ms, b, i) == k);
}

} // verus!
