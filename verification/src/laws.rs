//! Laws of the traversal model: under a genuine three-way total comparator
//! the frontier re-sort is an ascending permutation, the vertex visited at
//! each step ranks no worse than anything then eligible, and the visiting
//! order is a function of the graph and the comparator alone.
use core::cmp::Ordering;
use vstd::prelude::*;

use crate::graph::Node;
use crate::order::{insert_ranked, order_from, ordered_by, sort_ranked};
use vstd::multiset::Multiset;

verus! {

/// A genuine three-way total ordering: the comparison flips with its
/// arguments, and "ranks no higher" is transitive.
pub open spec fn total_comparator<V>(c: spec_fn(Node<V>, Node<V>) -> Ordering) -> bool {
    &&& forall|a: Node<V>, b: Node<V>|
        (#[trigger] c(a, b)) == Ordering::Less <==> c(b, a) == Ordering::Greater
    &&& forall|a: Node<V>, b: Node<V>, d: Node<V>|
        (#[trigger] c(a, b)) != Ordering::Greater && (#[trigger] c(b, d)) != Ordering::Greater
            ==> c(a, d) != Ordering::Greater
}

/// The listed vertices are in ascending comparator rank: no earlier entry
/// ranks above a later one.
pub open spec fn ranked_ascending<V>(
    nodes: Seq<Node<V>>,
    ids: Seq<usize>,
    c: spec_fn(Node<V>, Node<V>) -> Ordering,
) -> bool {
    forall|i: int, j: int|
        0 <= i < j < ids.len() ==> c(
            nodes[(#[trigger] ids[i]) as int],
            nodes[(#[trigger] ids[j]) as int],
        ) != Ordering::Greater
}

/// Stable insertion adds exactly one occurrence of the inserted id.
proof fn lemma_insert_ranked_multiset<V>(
    nodes: Seq<Node<V>>,
    sorted: Seq<usize>,
    x: usize,
    c: spec_fn(Node<V>, Node<V>) -> Ordering,
)
    ensures
        insert_ranked(nodes, sorted, x, c).to_multiset() == sorted.to_multiset().insert(x),
    decreases sorted.len(),
{
    broadcast use vstd::seq_lib::group_to_multiset_ensures;
    broadcast use vstd::multiset::group_multiset_axioms;

    if sorted.len() == 0 {
        assert(seq![x] =~= Seq::<usize>::empty().push(x));
        assert(Seq::<usize>::empty().to_multiset() =~= Multiset::<usize>::empty());
        assert(sorted.to_multiset().insert(x) =~= Multiset::<usize>::empty().insert(x));
    } else if c(nodes[x as int], nodes[sorted.last() as int]) == Ordering::Less {
        let rest = sorted.drop_last();
        lemma_insert_ranked_multiset(nodes, rest, x, c);
        assert(sorted =~= rest.push(sorted.last()));
        assert(insert_ranked(nodes, sorted, x, c) == insert_ranked(nodes, rest, x, c).push(
            sorted.last(),
        ));
        assert(insert_ranked(nodes, sorted, x, c).to_multiset() =~= sorted.to_multiset().insert(
            x,
        )) by {
            assert(insert_ranked(nodes, rest, x, c).push(sorted.last()).to_multiset()
                == insert_ranked(nodes, rest, x, c).to_multiset().insert(sorted.last()));
            assert(rest.push(sorted.last()).to_multiset() == rest.to_multiset().insert(
                sorted.last(),
            ));
        }
    } else {
        assert(sorted.push(x).to_multiset() == sorted.to_multiset().insert(x));
    }
}

/// The re-sort is a permutation of the frontier.
pub proof fn lemma_sort_ranked_multiset<V>(
    nodes: Seq<Node<V>>,
    ids: Seq<usize>,
    c: spec_fn(Node<V>, Node<V>) -> Ordering,
)
    ensures
        sort_ranked(nodes, ids, c).to_multiset() == ids.to_multiset(),
    decreases ids.len(),
{
    broadcast use vstd::seq_lib::group_to_multiset_ensures;

    if ids.len() > 0 {
        let rest = ids.drop_last();
        lemma_sort_ranked_multiset(nodes, rest, c);
        lemma_insert_ranked_multiset(nodes, sort_ranked(nodes, rest, c), ids.last(), c);
        assert(ids =~= rest.push(ids.last()));
        assert(rest.push(ids.last()).to_multiset() == rest.to_multiset().insert(ids.last()));
    }
}

/// Stable insertion under a total comparator keeps the list ascending.
proof fn lemma_insert_ranked_ascending<V>(
    nodes: Seq<Node<V>>,
    sorted: Seq<usize>,
    x: usize,
    c: spec_fn(Node<V>, Node<V>) -> Ordering,
)
    requires
        total_comparator(c),
        ranked_ascending(nodes, sorted, c),
    ensures
        ranked_ascending(nodes, insert_ranked(nodes, sorted, x, c), c),
    decreases sorted.len(),
{
    broadcast use vstd::seq_lib::group_to_multiset_ensures;

    let out = insert_ranked(nodes, sorted, x, c);
    if sorted.len() == 0 {
    } else if c(nodes[x as int], nodes[sorted.last() as int]) == Ordering::Less {
        let rest = sorted.drop_last();
        assert(ranked_ascending(nodes, rest, c)) by {
            assert(forall|i: int| 0 <= i < rest.len() ==> rest[i] == #[trigger] sorted[i]);
        }
        lemma_insert_ranked_ascending(nodes, rest, x, c);
        let mid = insert_ranked(nodes, rest, x, c);
        lemma_insert_ranked_multiset(nodes, rest, x, c);
        assert(out == mid.push(sorted.last()));
        assert forall|i: int, j: int| 0 <= i < j < out.len() implies c(
            nodes[(#[trigger] out[i]) as int],
            nodes[(#[trigger] out[j]) as int],
        ) != Ordering::Greater by {
            if j < mid.len() {
                assert(out[i] == mid[i] && out[j] == mid[j]);
            } else {
                assert(out[j] == sorted.last());
                assert(out[i] == mid[i]);
                assert(mid.contains(mid[i]));
                assert(mid.to_multiset().count(mid[i]) > 0);
                if rest.to_multiset().count(mid[i]) > 0 {
                    assert(rest.contains(mid[i]));
                    let u = choose|u: int| 0 <= u < rest.len() && rest[u] == mid[i];
                    assert(sorted[u] == mid[i]);
                    assert(sorted[sorted.len() - 1] == sorted.last());
                    assert(c(nodes[mid[i] as int], nodes[sorted.last() as int])
                        != Ordering::Greater);
                } else {
                    assert(mid[i] == x);
                    assert(c(nodes[x as int], nodes[sorted.last() as int]) != Ordering::Greater);
                }
            }
        }
    } else {
        assert(out == sorted.push(x));
        assert(c(nodes[sorted.last() as int], nodes[x as int]) != Ordering::Greater);
        assert forall|i: int, j: int| 0 <= i < j < out.len() implies c(
            nodes[(#[trigger] out[i]) as int],
            nodes[(#[trigger] out[j]) as int],
        ) != Ordering::Greater by {
            if j == sorted.len() {
                assert(out[j] == x);
                assert(out[i] == sorted[i]);
                if i < sorted.len() - 1 {
                    assert(sorted[sorted.len() - 1] == sorted.last());
                    assert(c(nodes[sorted[i] as int], nodes[sorted.last() as int])
                        != Ordering::Greater);
                }
            } else {
                assert(out[i] == sorted[i] && out[j] == sorted[j]);
            }
        }
    }
}

/// The re-sort under a total comparator yields an ascending list.
pub proof fn lemma_sort_ranked_ascending<V>(
    nodes: Seq<Node<V>>,
    ids: Seq<usize>,
    c: spec_fn(Node<V>, Node<V>) -> Ordering,
)
    requires
        total_comparator(c),
    ensures
        ranked_ascending(nodes, sort_ranked(nodes, ids, c), c),
    decreases ids.len(),
{
    if ids.len() > 0 {
        lemma_sort_ranked_ascending(nodes, ids.drop_last(), c);
        lemma_insert_ranked_ascending(
            nodes,
            sort_ranked(nodes, ids.drop_last(), c),
            ids.last(),
            c,
        );
    }
}

/// Comparator priority among the simultaneously eligible: under a total
/// comparator, the vertex the traversal visits next — from any state it can
/// be in — ranks no worse than every vertex eligible at that moment.
pub proof fn lemma_next_visit_ranks_best<V>(
    nodes: Seq<Node<V>>,
    counts: Seq<usize>,
    frontier: Seq<usize>,
    c: spec_fn(Node<V>, Node<V>) -> Ordering,
    fuel: nat,
)
    requires
        total_comparator(c),
        frontier.len() > 0,
        fuel > 0,
    ensures
        ({
            let next = order_from(nodes, counts, frontier, c, fuel).first();
            forall|t: int|
                0 <= t < frontier.len() ==> c(
                    nodes[next as int],
                    nodes[(#[trigger] frontier[t]) as int],
                ) != Ordering::Greater
        }),
{
    broadcast use vstd::seq_lib::group_to_multiset_ensures;

    let sorted = sort_ranked(nodes, frontier, c);
    let rev = sorted.reverse();
    lemma_sort_ranked_multiset(nodes, frontier, c);
    assert(sorted.len() == frontier.len()) by {
        assert(sorted.to_multiset().len() == frontier.to_multiset().len());
    }
    let next = rev.last();
    assert(next == sorted[0]);
    assert(order_from(nodes, counts, frontier, c, fuel).first() == next);
    lemma_sort_ranked_ascending(nodes, frontier, c);
    assert forall|t: int| 0 <= t < frontier.len() implies c(
        nodes[next as int],
        nodes[(#[trigger] frontier[t]) as int],
    ) != Ordering::Greater by {
        let v = frontier[t];
        assert(frontier.contains(v));
        assert(sorted.contains(v)) by {
            assert(sorted.to_multiset().count(v) > 0);
        }
        let u = choose|u: int| 0 <= u < sorted.len() && sorted[u] == v;
        if u > 0 {
            assert(c(nodes[sorted[0] as int], nodes[sorted[u] as int]) != Ordering::Greater);
        } else {
            assert(c(nodes[v as int], nodes[v as int]) != Ordering::Greater) by {
                if c(nodes[v as int], nodes[v as int]) == Ordering::Greater {
                    assert(c(nodes[v as int], nodes[v as int]) == Ordering::Less);
                }
            }
        }
    }
}

/// Determinism: the visiting order is a function of the arena, the starting
/// sequence and the mathematical comparator alone, so two runs of the
/// ordering over equal graphs with comparators that compute the same
/// three-way ordering yield the identical sequence.
pub proof fn lemma_ordered_by_deterministic<V>(
    nodes: Seq<Node<V>>,
    start: Seq<usize>,
    c: spec_fn(Node<V>, Node<V>) -> Ordering,
    run1: Seq<usize>,
    run2: Seq<usize>,
)
    requires
        run1 == ordered_by(nodes, start, c),
        run2 == ordered_by(nodes, start, c),
    ensures
        run1 == run2,
{
}

} // verus!
