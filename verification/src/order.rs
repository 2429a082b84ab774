//! The traversal's mathematical model and its executable building blocks:
//! a comparator model, the per-step frontier re-sort, the arrival-counter
//! bookkeeping, and the visiting order they produce together.
use core::cmp::Ordering;
use vstd::prelude::*;

use crate::graph::Node;

verus! {

/// The caller's comparator agrees with the mathematical three-way ordering
/// `c` on every pair of vertices it may ever be asked about.
pub open spec fn cmp_models<V, F: Fn(&Node<V>, &Node<V>) -> Ordering>(
    cmp: F,
    c: spec_fn(Node<V>, Node<V>) -> Ordering,
) -> bool {
    forall|x: &Node<V>, y: &Node<V>, o: Ordering|
        #[trigger] call_ensures(cmp, (x, y), o) ==> o == c(*x, *y)
}

/// Stable insertion of id `x` from the right into an already ranked id
/// list: `x` moves left past exactly the ids whose vertices the comparator
/// ranks strictly above it.
pub open spec fn insert_ranked<V>(
    nodes: Seq<Node<V>>,
    sorted: Seq<usize>,
    x: usize,
    c: spec_fn(Node<V>, Node<V>) -> Ordering,
) -> Seq<usize>
    decreases sorted.len(),
{
    if sorted.len() == 0 {
        seq![x]
    } else if c(nodes[x as int], nodes[sorted.last() as int]) == Ordering::Less {
        insert_ranked(nodes, sorted.drop_last(), x, c).push(sorted.last())
    } else {
        sorted.push(x)
    }
}

/// Stable ascending sort of an id list by the comparator: the mirror of the
/// frontier re-sort performed at every traversal step.
pub open spec fn sort_ranked<V>(
    nodes: Seq<Node<V>>,
    ids: Seq<usize>,
    c: spec_fn(Node<V>, Node<V>) -> Ordering,
) -> Seq<usize>
    decreases ids.len(),
{
    if ids.len() == 0 {
        Seq::empty()
    } else {
        insert_ranked(nodes, sort_ranked(nodes, ids.drop_last(), c), ids.last(), c)
    }
}

/// One visit's bookkeeping over the children of the vertex just visited:
/// each child's arrival counter grows by one, and a child whose counter
/// reaches its parent count becomes eligible and is appended to the
/// frontier.
pub open spec fn absorb_children<V>(
    nodes: Seq<Node<V>>,
    counts: Seq<usize>,
    frontier: Seq<usize>,
    kids: Seq<usize>,
) -> (Seq<usize>, Seq<usize>)
    decreases kids.len(),
{
    if kids.len() == 0 {
        (counts, frontier)
    } else {
        let prev = absorb_children(nodes, counts, frontier, kids.drop_last());
        let k = kids.last();
        let newc = (prev.0[k as int] + 1) as usize;
        let cnew = prev.0.update(k as int, newc);
        if newc == nodes[k as int].spec_parents().len() {
            (cnew, prev.1.push(k))
        } else {
            (cnew, prev.1)
        }
    }
}

/// The rest of the visiting order produced by the traversal loop from the
/// given state: re-sort the whole frontier, reverse it, pop the last id —
/// the comparator's first-ranked eligible vertex — account its children,
/// and continue. `fuel` bounds the number of steps.
pub open spec fn order_from<V>(
    nodes: Seq<Node<V>>,
    counts: Seq<usize>,
    frontier: Seq<usize>,
    c: spec_fn(Node<V>, Node<V>) -> Ordering,
    fuel: nat,
) -> Seq<usize>
    decreases fuel,
{
    if frontier.len() == 0 || fuel == 0 {
        Seq::empty()
    } else {
        let rev = sort_ranked(nodes, frontier, c).reverse();
        let next = rev.last();
        let st = absorb_children(
            nodes,
            counts,
            rev.drop_last(),
            nodes[next as int].spec_children(),
        );
        seq![next] + order_from(nodes, st.0, st.1, c, (fuel - 1) as nat)
    }
}

/// The full visiting order of a graph whose current sequence is `start`,
/// under the mathematical comparator `c`: all arrival counters begin at
/// zero, and at most one visit per vertex can ever happen.
pub open spec fn ordered_by<V>(
    nodes: Seq<Node<V>>,
    start: Seq<usize>,
    c: spec_fn(Node<V>, Node<V>) -> Ordering,
) -> Seq<usize> {
    order_from(nodes, Seq::new(nodes.len(), |i: int| 0usize), start, c, nodes.len())
}

/// How many entries of `parents` occur in the visited list `done`.
pub open spec fn emitted_in(parents: Seq<usize>, done: Seq<usize>) -> nat
    decreases parents.len(),
{
    if parents.len() == 0 {
        0
    } else {
        emitted_in(parents.drop_last(), done) + (if done.contains(parents.last()) {
            1nat
        } else {
            0nat
        })
    }
}

/// Every parent of vertex `i` occurs in the visited list `done`.
pub open spec fn parents_done<V>(nodes: Seq<Node<V>>, done: Seq<usize>, i: usize) -> bool {
    forall|t: int|
        0 <= t < nodes[i as int].spec_parents().len() ==> done.contains(
            #[trigger] nodes[i as int].spec_parents()[t],
        )
}

/// At most every entry of `parents` has been visited.
pub proof fn lemma_emitted_in_le(parents: Seq<usize>, done: Seq<usize>)
    ensures
        emitted_in(parents, done) <= parents.len(),
    decreases parents.len(),
{
    if parents.len() > 0 {
        lemma_emitted_in_le(parents.drop_last(), done);
    }
}

/// The counter is full exactly when every entry of `parents` has been
/// visited.
pub proof fn lemma_emitted_in_full(parents: Seq<usize>, done: Seq<usize>)
    ensures
        emitted_in(parents, done) == parents.len() <==> (forall|t: int|
            0 <= t < parents.len() ==> done.contains(#[trigger] parents[t])),
    decreases parents.len(),
{
    if parents.len() > 0 {
        let rest = parents.drop_last();
        lemma_emitted_in_full(rest, done);
        lemma_emitted_in_le(rest, done);
        assert(forall|t: int| 0 <= t < rest.len() ==> rest[t] == #[trigger] parents[t]);
        assert(parents[parents.len() - 1] == parents.last());
    }
}

/// An unvisited entry keeps the counter strictly below the parent count.
pub proof fn lemma_emitted_in_missing(parents: Seq<usize>, done: Seq<usize>, x: usize)
    requires
        parents.contains(x),
        !done.contains(x),
    ensures
        emitted_in(parents, done) < parents.len(),
    decreases parents.len(),
{
    lemma_emitted_in_le(parents.drop_last(), done);
    if parents.last() != x {
        assert(parents.drop_last().contains(x)) by {
            let t = choose|t: int| 0 <= t < parents.len() && parents[t] == x;
            assert(parents.drop_last()[t] == x);
        }
        lemma_emitted_in_missing(parents.drop_last(), done, x);
    }
}

/// Visiting one fresh vertex raises the counter by one exactly for the
/// vertices that list it as a parent.
pub proof fn lemma_emitted_in_grow(parents: Seq<usize>, done: Seq<usize>, x: usize)
    requires
        parents.no_duplicates(),
        !done.contains(x),
    ensures
        emitted_in(parents, done.push(x)) == emitted_in(parents, done) + (if parents.contains(x) {
            1nat
        } else {
            0nat
        }),
    decreases parents.len(),
{
    broadcast use vstd::seq_lib::group_seq_properties;

    if parents.len() > 0 {
        let rest = parents.drop_last();
        let last = parents.last();
        lemma_emitted_in_grow(rest, done, x);
        if last == x {
            assert(!rest.contains(x)) by {
                if rest.contains(x) {
                    let t = choose|t: int| 0 <= t < rest.len() && rest[t] == x;
                    assert(parents[t] == parents[parents.len() - 1]);
                }
            }
            assert(parents.contains(x)) by {
                assert(parents[parents.len() - 1] == x);
            }
        } else {
            assert(parents.contains(x) <==> rest.contains(x)) by {
                if parents.contains(x) {
                    let t = choose|t: int| 0 <= t < parents.len() && parents[t] == x;
                    assert(rest[t] == x);
                }
                if rest.contains(x) {
                    let t = choose|t: int| 0 <= t < rest.len() && rest[t] == x;
                    assert(parents[t] == x);
                }
            }
        }
    }
}

/// No counter moves when the visited list is empty.
pub proof fn lemma_emitted_in_empty(parents: Seq<usize>)
    ensures
        emitted_in(parents, Seq::empty()) == 0,
    decreases parents.len(),
{
    if parents.len() > 0 {
        lemma_emitted_in_empty(parents.drop_last());
    }
}

/// A duplicate-free list of ids below `n` has at most `n` entries.
pub proof fn lemma_distinct_ids_bounded(s: Seq<usize>, n: nat)
    requires
        s.no_duplicates(),
        forall|j: int| 0 <= j < s.len() ==> (#[trigger] s[j]) < n,
    ensures
        s.len() <= n,
{
    broadcast use vstd::seq_lib::group_seq_lib_default;

    let si = s.map_values(|x: usize| x as int);
    assert(si.no_duplicates()) by {
        assert forall|a: int, b: int| 0 <= a < b < si.len() implies si[a] != si[b] by {
            assert(s[a] != s[b]);
        }
    }
    si.unique_seq_to_set();
    vstd::set_lib::lemma_int_range(0, n as int);
    assert(si.to_set().subset_of(vstd::set_lib::set_int_range(0, n as int))) by {
        assert forall|y: int| si.to_set().contains(y) implies 0 <= y < n by {
            assert(si.contains(y));
            let j = choose|j: int| 0 <= j < si.len() && si[j] == y;
            assert(s[j] < n);
        }
    }
    vstd::set_lib::lemma_len_subset(si.to_set(), vstd::set_lib::set_int_range(0, n as int));
}

/// A duplicate-free list of ids below `n` that contains every such id has
/// exactly `n` entries.
pub proof fn lemma_distinct_ids_cover(s: Seq<usize>, n: nat)
    requires
        n <= usize::MAX,
        s.no_duplicates(),
        forall|j: int| 0 <= j < s.len() ==> (#[trigger] s[j]) < n,
        forall|i: usize| i < n ==> s.contains(i),
    ensures
        s.len() == n,
{
    broadcast use vstd::seq_lib::group_seq_lib_default;

    lemma_distinct_ids_bounded(s, n);
    let si = s.map_values(|x: usize| x as int);
    assert(si.no_duplicates()) by {
        assert forall|a: int, b: int| 0 <= a < b < si.len() implies si[a] != si[b] by {
            assert(s[a] != s[b]);
        }
    }
    si.unique_seq_to_set();
    assert(si.to_set() =~= vstd::set_lib::set_int_range(0, n as int)) by {
        assert forall|y: int| si.to_set().contains(y) implies 0 <= y < n by {
            let j = choose|j: int| 0 <= j < si.len() && si[j] == y;
            assert(s[j] < n);
        }
        assert forall|y: int| 0 <= y < n implies si.to_set().contains(y) by {
            let yu = y as usize;
            assert(yu as int == y);
            assert(s.contains(yu));
            let j = choose|j: int| 0 <= j < s.len() && s[j] == yu;
            assert(si[j] == y);
        }
    }
    vstd::set_lib::lemma_int_range(0, n as int);
}

/// Where the right-to-left scan stops, the stable insertion lands.
proof fn lemma_insert_ranked_shape<V>(
    nodes: Seq<Node<V>>,
    sorted: Seq<usize>,
    x: usize,
    c: spec_fn(Node<V>, Node<V>) -> Ordering,
    j: int,
)
    requires
        0 <= j <= sorted.len(),
        forall|t: int|
            j <= t < sorted.len() ==> c(nodes[x as int], nodes[(#[trigger] sorted[t]) as int])
                == Ordering::Less,
        j > 0 ==> c(nodes[x as int], nodes[sorted[j - 1] as int]) != Ordering::Less,
    ensures
        insert_ranked(nodes, sorted, x, c) == sorted.insert(j, x),
    decreases sorted.len(),
{
    if sorted.len() == 0 {
        assert(sorted.insert(0, x) =~= seq![x]);
    } else if j == sorted.len() {
        assert(sorted.insert(j, x) =~= sorted.push(x));
    } else {
        let rest = sorted.drop_last();
        assert(sorted[sorted.len() - 1] == sorted.last());
        assert(c(nodes[x as int], nodes[sorted.last() as int]) == Ordering::Less);
        assert(forall|t: int| 0 <= t < rest.len() ==> rest[t] == #[trigger] sorted[t]);
        lemma_insert_ranked_shape(nodes, rest, x, c, j);
        assert(rest.insert(j, x).push(sorted.last()) =~= sorted.insert(j, x));
    }
}

/// Inserting anywhere adds exactly one occurrence to the bag of entries.
proof fn lemma_insert_to_multiset(s: Seq<usize>, j: int, x: usize)
    requires
        0 <= j <= s.len(),
    ensures
        s.insert(j, x).to_multiset() == s.to_multiset().insert(x),
{
    broadcast use vstd::seq_lib::group_to_multiset_ensures;
    broadcast use vstd::multiset::group_multiset_axioms;

    let s2 = s.insert(j, x);
    s.insert_ensures(j, x);
    assert(s2.remove(j) =~= s);
    assert(s2[j] == x);
    assert(s.to_multiset() =~= s2.to_multiset().remove(x));
    assert(s2.contains(x)) by {
        assert(s2[j] == x);
    }
    assert(s2.to_multiset().count(x) > 0);
    assert(s2.to_multiset() =~= s.to_multiset().insert(x));
}

/// Stable insertion of id `x` into the ranked list `sorted`, scanning from
/// the right with the caller's comparator; the executable counterpart of
/// `insert_ranked`.
fn insert_ranked_exec<V, F: Fn(&Node<V>, &Node<V>) -> Ordering>(
    nodes: &Vec<Node<V>>,
    sorted: &mut Vec<usize>,
    x: usize,
    cmp: &F,
)
    requires
        forall|a: &Node<V>, b: &Node<V>| call_requires(*cmp, (a, b)),
        forall|t: int| 0 <= t < old(sorted)@.len() ==> (#[trigger] old(sorted)@[t]) < nodes@.len(),
        x < nodes@.len(),
    ensures
        final(sorted)@.to_multiset() == old(sorted)@.to_multiset().insert(x),
        forall|t: int| 0 <= t < final(sorted)@.len() ==> (#[trigger] final(sorted)@[t])
            < nodes@.len(),
        forall|c: spec_fn(Node<V>, Node<V>) -> Ordering|
            #[trigger] cmp_models(*cmp, c) ==> final(sorted)@ == insert_ranked(
                nodes@,
                old(sorted)@,
                x,
                c,
            ),
{
    let ghost orig = sorted@;
    let mut j: usize = sorted.len();
    let mut looking = true;
    while looking && j > 0
        invariant
            j <= orig.len(),
            sorted@ == orig,
            x < nodes@.len(),
            forall|t: int| 0 <= t < orig.len() ==> (#[trigger] orig[t]) < nodes@.len(),
            forall|a: &Node<V>, b: &Node<V>| call_requires(*cmp, (a, b)),
            forall|c: spec_fn(Node<V>, Node<V>) -> Ordering, t: int|
                #[trigger] cmp_models(*cmp, c) && j <= t < orig.len() ==> c(
                    nodes@[x as int],
                    nodes@[(#[trigger] orig[t]) as int],
                ) == Ordering::Less,
            !looking ==> j > 0 && (forall|c: spec_fn(Node<V>, Node<V>) -> Ordering|
                #[trigger] cmp_models(*cmp, c) ==> c(nodes@[x as int], nodes@[orig[j - 1] as int])
                    != Ordering::Less),
        decreases j + (if looking {
            1int
        } else {
            0int
        }),
    {
        let o = cmp(&nodes[x], &nodes[sorted[j - 1]]);
        if matches!(o, Ordering::Less) {
            j = j - 1;
        } else {
            looking = false;
        }
    }
    sorted.insert(j, x);
    proof {
        lemma_insert_to_multiset(orig, j as int, x);
        assert forall|c: spec_fn(Node<V>, Node<V>) -> Ordering|
            #[trigger] cmp_models(*cmp, c) implies sorted@ == insert_ranked(
            nodes@,
            orig,
            x,
            c,
        ) by {
            lemma_insert_ranked_shape(nodes@, orig, x, c, j as int);
        }
        assert forall|t: int| 0 <= t < sorted@.len() implies (#[trigger] sorted@[t])
            < nodes@.len() by {
            orig.insert_ensures(j as int, x);
        }
    }
}

/// Stable ascending re-sort of the whole frontier by the caller's
/// comparator; the executable counterpart of `sort_ranked`.
pub(crate) fn sort_frontier<V, F: Fn(&Node<V>, &Node<V>) -> Ordering>(
    nodes: &Vec<Node<V>>,
    frontier: Vec<usize>,
    cmp: &F,
) -> (out: Vec<usize>)
    requires
        forall|a: &Node<V>, b: &Node<V>| call_requires(*cmp, (a, b)),
        forall|t: int| 0 <= t < frontier@.len() ==> (#[trigger] frontier@[t]) < nodes@.len(),
    ensures
        out@.to_multiset() == frontier@.to_multiset(),
        forall|t: int| 0 <= t < out@.len() ==> (#[trigger] out@[t]) < nodes@.len(),
        forall|c: spec_fn(Node<V>, Node<V>) -> Ordering|
            #[trigger] cmp_models(*cmp, c) ==> out@ == sort_ranked(nodes@, frontier@, c),
{
    broadcast use vstd::seq_lib::group_to_multiset_ensures;

    let m: usize = frontier.len();
    let mut out: Vec<usize> = Vec::new();
    let mut i: usize = 0;
    while i < m
        invariant
            m == frontier@.len(),
            i <= m,
            forall|a: &Node<V>, b: &Node<V>| call_requires(*cmp, (a, b)),
            forall|t: int| 0 <= t < frontier@.len() ==> (#[trigger] frontier@[t]) < nodes@.len(),
            forall|t: int| 0 <= t < out@.len() ==> (#[trigger] out@[t]) < nodes@.len(),
            out@.to_multiset() == frontier@.take(i as int).to_multiset(),
            forall|c: spec_fn(Node<V>, Node<V>) -> Ordering|
                #[trigger] cmp_models(*cmp, c) ==> out@ == sort_ranked(
                    nodes@,
                    frontier@.take(i as int),
                    c,
                ),
        decreases m - i,
    {
        broadcast use vstd::seq_lib::group_to_multiset_ensures;

        let ghost pre = out@;
        let x = frontier[i];
        insert_ranked_exec(nodes, &mut out, x, cmp);
        i = i + 1;
        proof {
            let taken = frontier@.take(i as int);
            assert(taken.drop_last() =~= frontier@.take(i - 1));
            assert(taken.last() == frontier@[i - 1]);
            assert(taken =~= frontier@.take(i - 1).push(x));
            assert(taken.to_multiset() == frontier@.take(i - 1).to_multiset().insert(x));
            assert forall|c: spec_fn(Node<V>, Node<V>) -> Ordering|
                #[trigger] cmp_models(*cmp, c) implies out@ == sort_ranked(
                nodes@,
                taken,
                c,
            ) by {
                assert(pre == sort_ranked(nodes@, frontier@.take(i - 1), c));
                assert(out@ == insert_ranked(nodes@, pre, x, c));
            }
        }
    }
    proof {
        assert(frontier@.take(m as int) =~= frontier@);
    }
    out
}

/// Reverses an id list; the frontier is reversed after each re-sort so that
/// the pop takes the comparator's first-ranked id.
pub(crate) fn reverse_ids(v: Vec<usize>) -> (out: Vec<usize>)
    ensures
        out@ == v@.reverse(),
{
    let m: usize = v.len();
    let mut out: Vec<usize> = Vec::new();
    let mut i: usize = 0;
    while i < m
        invariant
            m == v@.len(),
            i <= m,
            out@.len() == i,
            forall|t: int| 0 <= t < i ==> #[trigger] out@[t] == v@[m - 1 - t],
        decreases m - i,
    {
        out.push(v[m - 1 - i]);
        i = i + 1;
    }
    proof {
        assert(out@ =~= v@.reverse());
    }
    out
}

/// A permutation on the right keeps a concatenation duplicate-free.
pub proof fn lemma_concat_nodup_perm(a: Seq<usize>, x: Seq<usize>, y: Seq<usize>)
    requires
        (a + x).no_duplicates(),
        x.to_multiset() == y.to_multiset(),
    ensures
        (a + y).no_duplicates(),
        forall|v: usize| y.contains(v) <==> x.contains(v),
{
    broadcast use vstd::seq_lib::group_to_multiset_ensures;

    assert(forall|j: int| 0 <= j < a.len() ==> (a + x)[j] == #[trigger] a[j]);
    assert(forall|j: int| 0 <= j < x.len() ==> (a + x)[j + a.len()] == #[trigger] x[j]);
    assert(a.no_duplicates());
    assert(x.no_duplicates()) by {
        assert forall|s: int, t: int| 0 <= s < t < x.len() implies x[s] != x[t] by {
            assert((a + x)[s + a.len()] != (a + x)[t + a.len()]);
        }
    }
    x.lemma_multiset_has_no_duplicates();
    y.lemma_multiset_has_no_duplicates_conv();
    assert forall|v: usize| y.contains(v) <==> x.contains(v) by {
        assert(y.contains(v) <==> y.to_multiset().count(v) > 0);
        assert(x.contains(v) <==> x.to_multiset().count(v) > 0);
    }
    assert forall|s: int, t: int| 0 <= s < t < (a + y).len() implies (a + y)[s] != (a + y)[t] by {
        if t < a.len() {
        } else if s >= a.len() {
            assert((a + y)[s] == y[s - a.len()]);
            assert((a + y)[t] == y[t - a.len()]);
            if y[s - a.len()] == y[t - a.len()] {
                y.lemma_multiset_has_no_duplicates_conv();
                assert(y.no_duplicates());
            }
        } else {
            let va = (a + y)[s];
            let vy = (a + y)[t];
            assert(va == a[s]);
            assert(vy == y[t - a.len()]);
            if va == vy {
                assert(x.contains(vy));
                let u = choose|u: int| 0 <= u < x.len() && x[u] == vy;
                assert((a + x)[s] == (a + x)[u + a.len()]);
            }
        }
    }
}

/// Appending a fresh entry keeps a list duplicate-free.
pub(crate) proof fn lemma_nodup_push(a: Seq<usize>, x: usize)
    requires
        a.no_duplicates(),
        !a.contains(x),
    ensures
        a.push(x).no_duplicates(),
{
    let b = a.push(x);
    assert forall|s: int, t: int| 0 <= s < t < b.len() implies b[s] != b[t] by {
        if t == a.len() {
            assert(b[s] == a[s]);
            if a[s] == x {
                assert(a.contains(x));
            }
        }
    }
}

/// A visited list that grows keeps every parent it already covered.
proof fn lemma_parents_done_grow<V>(nodes: Seq<Node<V>>, done: Seq<usize>, x: usize, i: usize)
    requires
        parents_done(nodes, done, i),
    ensures
        parents_done(nodes, done.push(x), i),
{
    assert forall|t: int| 0 <= t < nodes[i as int].spec_parents().len() implies done.push(
        x,
    ).contains(#[trigger] nodes[i as int].spec_parents()[t]) by {
        let p = nodes[i as int].spec_parents()[t];
        assert(done.contains(p));
        let u = choose|u: int| 0 <= u < done.len() && done[u] == p;
        assert(done.push(x)[u] == p);
    }
}

/// Bookkeeping effect of absorbing a duplicate-free batch of the children
/// of the vertex `next` just visited, one by one: each batch member's
/// counter grows by one, members whose counter fills join the frontier,
/// which otherwise only keeps its entries, stays duplicate-free against the
/// visited list, and holds eligible vertices only.
pub(crate) proof fn lemma_absorb_partial<V>(
    nodes: Seq<Node<V>>,
    r: spec_fn(usize) -> nat,
    done0: Seq<usize>,
    next: usize,
    c0: Seq<usize>,
    f0: Seq<usize>,
    kids: Seq<usize>,
)
    requires
        crate::graph::arena_wf(nodes),
        crate::graph::edges_consistent(nodes),
        crate::graph::rank_ok(nodes, r),
        nodes.len() <= usize::MAX,
        next < nodes.len(),
        !done0.contains(next),
        kids.no_duplicates(),
        forall|t: int|
            0 <= t < kids.len() ==> nodes[next as int].spec_children().contains(
                #[trigger] kids[t],
            ),
        c0.len() == nodes.len(),
        forall|i: usize|
            i < nodes.len() ==> (#[trigger] c0[i as int]) as nat == emitted_in(
                nodes[i as int].spec_parents(),
                done0,
            ),
        forall|t: int| 0 <= t < done0.len() ==> (#[trigger] done0[t]) < nodes.len(),
        forall|t: int| 0 <= t < f0.len() ==> (#[trigger] f0[t]) < nodes.len(),
        (done0.push(next) + f0).no_duplicates(),
        forall|t: int| 0 <= t < f0.len() ==> parents_done(nodes, done0, #[trigger] f0[t]),
        forall|k: int|
            0 <= k < done0.len() ==> parents_done(nodes, done0.take(k), #[trigger] done0[k]),
    ensures
        ({
            let st = absorb_children(nodes, c0, f0, kids);
            &&& st.0.len() == nodes.len()
            &&& forall|i: usize|
                i < nodes.len() ==> (#[trigger] st.0[i as int]) as nat == (if kids.contains(i) {
                    (c0[i as int] + 1) as nat
                } else {
                    c0[i as int] as nat
                })
            &&& f0.is_prefix_of(st.1)
            &&& forall|t: int| f0.len() <= t < st.1.len() ==> kids.contains(#[trigger] st.1[t])
            &&& forall|t: int| 0 <= t < st.1.len() ==> (#[trigger] st.1[t]) < nodes.len()
            &&& (done0.push(next) + st.1).no_duplicates()
            &&& forall|t: int|
                0 <= t < st.1.len() ==> parents_done(
                    nodes,
                    done0.push(next),
                    #[trigger] st.1[t],
                )
            &&& forall|t: int|
                0 <= t < kids.len() && absorb_children(nodes, c0, f0, kids).0[(
                #[trigger] kids[t]) as int] == nodes[kids[t] as int].spec_parents().len()
                    ==> absorb_children(nodes, c0, f0, kids).1.contains(kids[t])
        }),
    decreases kids.len(),
{
    let n = nodes.len();
    let done1 = done0.push(next);
    if kids.len() == 0 {
        assert(f0.is_prefix_of(f0)) by {
            assert(f0.subrange(0, f0.len() as int) =~= f0);
        }
        assert forall|t: int| 0 <= t < f0.len() implies parents_done(
            nodes,
            done1,
            #[trigger] f0[t],
        ) by {
            lemma_parents_done_grow(nodes, done0, next, f0[t]);
        }
    } else {
        let rest = kids.drop_last();
        let k = kids.last();
        assert(forall|t: int| 0 <= t < rest.len() ==> rest[t] == #[trigger] kids[t]);
        assert(kids[kids.len() - 1] == k);
        lemma_absorb_partial(nodes, r, done0, next, c0, f0, rest);
        let prev = absorb_children(nodes, c0, f0, rest);
        let st = absorb_children(nodes, c0, f0, kids);

        // `k` really is a child of `next`, hence an in-range vertex with
        // `next` among its parents and a strictly larger rank.
        assert(nodes[next as int].spec_children().contains(k));
        let kpos = choose|kpos: int|
            0 <= kpos < nodes[next as int].spec_children().len() && nodes[next as int]
                .spec_children()[kpos] == k;
        assert(crate::graph::node_wf(nodes, next as int));
        assert(k < n);
        assert(r(next) < r(k));
        assert(k != next);
        assert(nodes[k as int].spec_parents().contains(next)) by {
            assert(next < n && k < n);
        }
        assert(crate::graph::node_wf(nodes, k as int));

        // `rest` does not hold `k`, so its counter is untouched so far.
        assert(!rest.contains(k)) by {
            if rest.contains(k) {
                let t = choose|t: int| 0 <= t < rest.len() && rest[t] == k;
                assert(kids[t] == kids[kids.len() - 1]);
            }
        }
        assert(prev.0[k as int] == c0[k as int]);

        // The counter stays below the parent count, so the increment fits.
        assert(c0[k as int] as nat == emitted_in(nodes[k as int].spec_parents(), done0));
        lemma_emitted_in_missing(nodes[k as int].spec_parents(), done0, next);
        lemma_distinct_ids_bounded(nodes[k as int].spec_parents(), n);
        let newc = (prev.0[k as int] + 1) as usize;
        assert(newc as nat == c0[k as int] + 1);

        assert(st.0 == prev.0.update(k as int, newc));
        assert forall|i: usize| i < n implies #[trigger] st.0[i as int] as nat == (
        if kids.contains(i) {
            (c0[i as int] + 1) as nat
        } else {
            c0[i as int] as nat
        }) by {
            if i == k {
                assert(kids.contains(k)) by {
                    assert(kids[kids.len() - 1] == k);
                }
            } else {
                assert(st.0[i as int] == prev.0[i as int]);
                assert(kids.contains(i) <==> rest.contains(i)) by {
                    if kids.contains(i) {
                        let t = choose|t: int| 0 <= t < kids.len() && kids[t] == i;
                        assert(rest[t] == i);
                    }
                    if rest.contains(i) {
                        let t = choose|t: int| 0 <= t < rest.len() && rest[t] == i;
                        assert(kids[t] == i);
                    }
                }
            }
        }

        // Where `k` lands when its counter fills: it was neither visited
        // nor already waiting in the frontier.
        assert(!done1.contains(k)) by {
            if done1.contains(k) {
                let t = choose|t: int| 0 <= t < done1.len() && done1[t] == k;
                assert(t < done0.len());
                assert(done0[t] == k);
                assert(parents_done(nodes, done0.take(t), k));
                assert(done0.take(t).contains(next));
                let u = choose|u: int| 0 <= u < done0.take(t).len() && done0.take(t)[u] == next;
                assert(done0[u] == next);
                assert(done0.contains(next));
            }
        }
        assert(!prev.1.contains(k)) by {
            if prev.1.contains(k) {
                let t = choose|t: int| 0 <= t < prev.1.len() && prev.1[t] == k;
                if t < f0.len() {
                    assert(f0[t] == prev.1[t]) by {
                        assert(f0 =~= prev.1.subrange(0, f0.len() as int));
                    }
                    assert(parents_done(nodes, done0, k));
                    assert(done0.contains(next));
                } else {
                    assert(rest.contains(k));
                }
            }
        }

        if newc == nodes[k as int].spec_parents().len() {
            assert(st.1 == prev.1.push(k));
            assert((done1 + st.1) =~= (done1 + prev.1).push(k));
            assert(!(done1 + prev.1).contains(k)) by {
                if (done1 + prev.1).contains(k) {
                    let t = choose|t: int|
                        0 <= t < (done1 + prev.1).len() && (done1 + prev.1)[t] == k;
                    if t < done1.len() {
                        assert(done1[t] == k);
                    } else {
                        assert(prev.1[t - done1.len()] == k);
                    }
                }
            }
            lemma_nodup_push(done1 + prev.1, k);
            assert(parents_done(nodes, done1, k)) by {
                assert(newc as nat == emitted_in(nodes[k as int].spec_parents(), done1)) by {
                    lemma_emitted_in_grow(nodes[k as int].spec_parents(), done0, next);
                }
                lemma_emitted_in_full(nodes[k as int].spec_parents(), done1);
            }
            assert(f0.is_prefix_of(st.1)) by {
                assert(f0 =~= prev.1.subrange(0, f0.len() as int));
                assert(f0 =~= st.1.subrange(0, f0.len() as int));
            }
            assert forall|t: int| f0.len() <= t < st.1.len() implies kids.contains(
                #[trigger] st.1[t],
            ) by {
                if t < prev.1.len() {
                    assert(st.1[t] == prev.1[t]);
                    assert(rest.contains(prev.1[t]));
                    let u = choose|u: int| 0 <= u < rest.len() && rest[u] == prev.1[t];
                    assert(kids[u] == st.1[t]);
                } else {
                    assert(st.1[t] == k);
                    assert(kids[kids.len() - 1] == k);
                }
            }
            assert forall|t: int| 0 <= t < st.1.len() implies parents_done(
                nodes,
                done1,
                #[trigger] st.1[t],
            ) by {
                if t < prev.1.len() {
                    assert(st.1[t] == prev.1[t]);
                }
            }
        } else {
            assert(st.1 == prev.1);
            // A member of the batch whose counter fills is pushed the
            // moment it fills; `k`'s did not fill.
            assert(newc as nat == c0[k as int] + 1);
        }

        // Batch members with a filled counter are in the frontier.
        assert forall|t: int|
            0 <= t < kids.len() && st.0[(#[trigger] kids[t]) as int] == nodes[kids[t] as int]
                .spec_parents().len() implies st.1.contains(kids[t]) by {
            let i = kids[t];
            if i == k {
                if newc == nodes[k as int].spec_parents().len() {
                    assert(st.1[st.1.len() - 1] == k);
                } else {
                    assert(st.0[k as int] == newc);
                    assert(false);
                }
            } else {
                assert(t < rest.len()) by {
                    assert(kids[kids.len() - 1] == k);
                }
                assert(rest[t] == i);
                assert(st.0[i as int] == prev.0[i as int]);
                assert(prev.1.contains(i));
                let w = choose|w: int| 0 <= w < prev.1.len() && prev.1[w] == i;
                if newc == nodes[k as int].spec_parents().len() {
                    assert(st.1[w] == i);
                } else {
                    assert(st.1.contains(i));
                }
            }
        }
    }
}

/// Moving the pivot from the head of the right part to the tail of the left
/// part keeps a concatenation duplicate-free.
pub proof fn lemma_concat_shift_nodup(a: Seq<usize>, b: Seq<usize>, x: usize)
    requires
        (a + b.push(x)).no_duplicates(),
    ensures
        (a.push(x) + b).no_duplicates(),
{
    let lhs = a + b.push(x);
    let rhs = a.push(x) + b;
    let f = |t: int|
        if t < a.len() {
            t
        } else if t == a.len() {
            lhs.len() - 1
        } else {
            t - 1
        };
    assert forall|s: int, t: int| 0 <= s < t < rhs.len() implies rhs[s] != rhs[t] by {
        assert(rhs[s] == lhs[f(s)]);
        assert(rhs[t] == lhs[f(t)]);
        assert(f(s) != f(t));
        assert(0 <= f(s) < lhs.len());
        assert(0 <= f(t) < lhs.len());
    }
}

/// Full bookkeeping effect of one visit: once the children of the vertex
/// `next` just visited are absorbed, every arrival counter again matches
/// the visited list (now including `next`), the frontier is duplicate-free
/// against it, holds only eligible vertices, and holds every unvisited
/// vertex whose counter is full.
pub proof fn lemma_absorb_children_effects<V>(
    nodes: Seq<Node<V>>,
    r: spec_fn(usize) -> nat,
    done0: Seq<usize>,
    next: usize,
    c0: Seq<usize>,
    f0: Seq<usize>,
)
    requires
        crate::graph::arena_wf(nodes),
        crate::graph::edges_consistent(nodes),
        crate::graph::rank_ok(nodes, r),
        nodes.len() <= usize::MAX,
        next < nodes.len(),
        !done0.contains(next),
        c0.len() == nodes.len(),
        forall|i: usize|
            i < nodes.len() ==> (#[trigger] c0[i as int]) as nat == emitted_in(
                nodes[i as int].spec_parents(),
                done0,
            ),
        forall|t: int| 0 <= t < done0.len() ==> (#[trigger] done0[t]) < nodes.len(),
        forall|t: int| 0 <= t < f0.len() ==> (#[trigger] f0[t]) < nodes.len(),
        (done0.push(next) + f0).no_duplicates(),
        forall|t: int| 0 <= t < f0.len() ==> parents_done(nodes, done0, #[trigger] f0[t]),
        forall|k: int|
            0 <= k < done0.len() ==> parents_done(nodes, done0.take(k), #[trigger] done0[k]),
        forall|i: usize|
            i < nodes.len() && i != next && !done0.contains(i) && #[trigger] c0[i as int]
                == nodes[i as int].spec_parents().len() ==> f0.contains(i),
    ensures
        ({
            let st = absorb_children(nodes, c0, f0, nodes[next as int].spec_children());
            let done1 = done0.push(next);
            &&& st.0.len() == nodes.len()
            &&& forall|i: usize|
                i < nodes.len() ==> (#[trigger] st.0[i as int]) as nat == emitted_in(
                    nodes[i as int].spec_parents(),
                    done1,
                )
            &&& forall|t: int| 0 <= t < st.1.len() ==> (#[trigger] st.1[t]) < nodes.len()
            &&& (done1 + st.1).no_duplicates()
            &&& forall|t: int|
                0 <= t < st.1.len() ==> parents_done(nodes, done1, #[trigger] st.1[t])
            &&& forall|i: usize|
                i < nodes.len() && !done1.contains(i) && #[trigger] st.0[i as int]
                    == nodes[i as int].spec_parents().len() ==> st.1.contains(i)
        }),
{
    let n = nodes.len();
    let kids = nodes[next as int].spec_children();
    let done1 = done0.push(next);
    let st = absorb_children(nodes, c0, f0, kids);
    assert(crate::graph::node_wf(nodes, next as int));
    assert(forall|t: int| 0 <= t < kids.len() ==> kids.contains(#[trigger] kids[t]));
    lemma_absorb_partial(nodes, r, done0, next, c0, f0, kids);

    assert forall|i: usize| i < n implies (#[trigger] st.0[i as int]) as nat == emitted_in(
        nodes[i as int].spec_parents(),
        done1,
    ) by {
        assert(crate::graph::node_wf(nodes, i as int));
        lemma_emitted_in_grow(nodes[i as int].spec_parents(), done0, next);
        assert(kids.contains(i) <==> nodes[i as int].spec_parents().contains(next));
    }

    assert forall|i: usize|
        i < n && !done1.contains(i) && #[trigger] st.0[i as int] == nodes[i as int].spec_parents()
            .len() implies st.1.contains(i) by {
        if kids.contains(i) {
            let t = choose|t: int| 0 <= t < kids.len() && kids[t] == i;
            assert(st.0[(kids[t]) as int] == nodes[kids[t] as int].spec_parents().len());
        } else {
            assert(st.0[i as int] == c0[i as int]);
            assert(i != next) by {
                assert(done1[done1.len() - 1] == next);
            }
            assert(!done0.contains(i)) by {
                if done0.contains(i) {
                    let u = choose|u: int| 0 <= u < done0.len() && done0[u] == i;
                    assert(done1[u] == i);
                }
            }
            assert(f0.contains(i));
            let u = choose|u: int| 0 <= u < f0.len() && f0[u] == i;
            assert(f0 =~= st.1.subrange(0, f0.len() as int));
            assert(st.1[u] == i);
        }
    }
}

/// On a consistent, acyclic arena, a visited list in which every unvisited
/// vertex still has an unvisited parent must already contain every vertex:
/// an unvisited vertex would start an endless strictly rank-decreasing
/// chain of unvisited parents.
pub proof fn lemma_all_visited<V>(
    nodes: Seq<Node<V>>,
    done: Seq<usize>,
    r: spec_fn(usize) -> nat,
    i: usize,
    fuel: nat,
)
    requires
        crate::graph::arena_wf(nodes),
        crate::graph::edges_consistent(nodes),
        crate::graph::rank_ok(nodes, r),
        forall|q: usize|
            q < nodes.len() && !(#[trigger] done.contains(q)) ==> (exists|t: int|
                0 <= t < nodes[q as int].spec_parents().len() && !done.contains(
                    nodes[q as int].spec_parents()[t],
                )),
        i < nodes.len(),
        r(i) < fuel,
    ensures
        done.contains(i),
    decreases fuel,
{
    if !done.contains(i) {
        let t = choose|t: int|
            0 <= t < nodes[i as int].spec_parents().len() && !done.contains(
                nodes[i as int].spec_parents()[t],
            );
        let p = nodes[i as int].spec_parents()[t];
        assert(crate::graph::node_wf(nodes, i as int));
        assert(p < nodes.len());
        assert(nodes[i as int].spec_parents().contains(p));
        assert(nodes[p as int].spec_children().contains(i));
        let k = choose|k: int|
            0 <= k < nodes[p as int].spec_children().len() && nodes[p as int].spec_children()[k]
                == i;
        assert(r(p) < r(i));
        lemma_all_visited(nodes, done, r, p, (fuel - 1) as nat);
    }
}

} // verus!
