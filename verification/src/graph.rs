//! Graph vertices held in a single owning arena, with parent/child relations
//! as index lists into that arena, and a priority-driven topological
//! traversal over them.
use core::cmp::Ordering;
use vstd::prelude::*;

use crate::order::{
    absorb_children, cmp_models, emitted_in, lemma_absorb_children_effects, lemma_absorb_partial,
    lemma_all_visited, lemma_concat_nodup_perm, lemma_concat_shift_nodup,
    lemma_distinct_ids_bounded, lemma_distinct_ids_cover, lemma_emitted_in_empty,
    lemma_emitted_in_full, lemma_emitted_in_missing, order_from, ordered_by, parents_done,
    reverse_ids, sort_frontier, sort_ranked,
};

verus! {

/// A borrowed, non-owning accessor granting inspection of a value without
/// mutation rights.
pub struct ReadOnly<'a, T> {
    inner: &'a T,
}

impl<'a, T> ReadOnly<'a, T> {
    /// The viewed value.
    pub closed spec fn target(self) -> T {
        *self.inner
    }

    /// Shared, read-only access to the viewed value.
    pub fn borrow(&self) -> (r: &T)
        ensures
            *r == self.target(),
    {
        self.inner
    }
}

/// Vertex `i` records its own arena position as its id, lists no edge index
/// outside the arena, and repeats no entry within either edge list.
pub open spec fn node_wf<V>(nodes: Seq<Node<V>>, i: int) -> bool {
    &&& nodes[i].spec_id() as int == i
    &&& forall|k: int|
        0 <= k < nodes[i].spec_parents().len() ==> (#[trigger] nodes[i].spec_parents()[k])
            < nodes.len()
    &&& forall|k: int|
        0 <= k < nodes[i].spec_children().len() ==> (#[trigger] nodes[i].spec_children()[k])
            < nodes.len()
    &&& nodes[i].spec_parents().no_duplicates()
    &&& nodes[i].spec_children().no_duplicates()
}

/// Every vertex of the arena is well formed.
pub open spec fn arena_wf<V>(nodes: Seq<Node<V>>) -> bool {
    forall|i: int| 0 <= i < nodes.len() ==> #[trigger] node_wf(nodes, i)
}

/// The parent/child relation is the inverse of itself: `i` lists `c` as a
/// child exactly when `c` lists `i` as a parent.
pub open spec fn edges_consistent<V>(nodes: Seq<Node<V>>) -> bool {
    forall|i: usize, c: usize|
        i < nodes.len() && c < nodes.len() ==> ((#[trigger] nodes[i as int].spec_children()
            .contains(c)) <==> (#[trigger] nodes[c as int].spec_parents().contains(i)))
}

/// The given rank increases along every parent-to-child edge and stays below
/// the arena size: a topological numbering, witnessing that the wired edges
/// form no cycle.
pub open spec fn rank_ok<V>(nodes: Seq<Node<V>>, r: spec_fn(usize) -> nat) -> bool {
    &&& forall|i: usize| i < nodes.len() ==> #[trigger] r(i) < nodes.len()
    &&& forall|i: usize, k: int|
        i < nodes.len() && 0 <= k < nodes[i as int].spec_children().len() ==> r(i) < r(
            #[trigger] nodes[i as int].spec_children()[k],
        )
}

/// Some topological numbering witnesses that the wired edges form no cycle;
/// every finite acyclic graph admits one.
pub open spec fn acyclic<V>(nodes: Seq<Node<V>>) -> bool {
    exists|r: spec_fn(usize) -> nat| rank_ok(nodes, r)
}

/// A witnessing topological numbering of an acyclic arena.
pub open spec fn rank_witness<V>(nodes: Seq<Node<V>>) -> spec_fn(usize) -> nat {
    choose|r: spec_fn(usize) -> nat| rank_ok(nodes, r)
}

/// The edge list that path counting follows from vertex `i`: children when
/// walking down, parents when walking up.
pub open spec fn rel_ids<V>(nodes: Seq<Node<V>>, i: int, down: bool) -> Seq<usize> {
    if down {
        nodes[i].spec_children()
    } else {
        nodes[i].spec_parents()
    }
}

/// Number of distinct downward (when `down`) or upward paths of length at
/// least one that start at vertex `i`: each direct relative contributes one
/// path plus all paths of its own, and a vertex reachable along two
/// different paths is counted once per path. The recursion stops after
/// `fuel` steps; on an acyclic arena every path is shorter than the arena
/// size, so any fuel of at least that size lies beyond every path.
pub open spec fn path_count<V>(nodes: Seq<Node<V>>, i: int, down: bool, fuel: nat) -> nat
    decreases fuel, 0nat, 0nat,
{
    if fuel == 0 {
        0
    } else {
        rel_ids(nodes, i, down).len() + path_count_sum(
            nodes,
            rel_ids(nodes, i, down),
            down,
            (fuel - 1) as nat,
        )
    }
}

/// The sum of `path_count` over the vertices listed in `ids`.
pub open spec fn path_count_sum<V>(nodes: Seq<Node<V>>, ids: Seq<usize>, down: bool, fuel: nat) -> nat
    decreases fuel, 1nat, ids.len(),
{
    if ids.len() == 0 {
        0
    } else {
        path_count(nodes, ids.first() as int, down, fuel) + path_count_sum(
            nodes,
            ids.drop_first(),
            down,
            fuel,
        )
    }
}

/// The path count of vertex `i` with the cut-off placed at the arena size:
/// on an acyclic arena that lies beyond every path, so this is the
/// definitional, cut-off-free count.
pub open spec fn relation_count_of<V>(nodes: Seq<Node<V>>, i: int, down: bool) -> nat {
    path_count(nodes, i, down, nodes.len())
}

/// The downward path count of vertex `i` (see `relation_count_of`).
pub open spec fn descendent_count_of<V>(nodes: Seq<Node<V>>, i: int) -> nat {
    relation_count_of(nodes, i, true)
}

/// The upward path count of vertex `i` (see `relation_count_of`).
pub open spec fn ancestor_count_of<V>(nodes: Seq<Node<V>>, i: int) -> nat {
    relation_count_of(nodes, i, false)
}

/// The sum of the cut-off-free counts over the vertices listed in `ids`.
pub open spec fn relation_count_sum<V>(nodes: Seq<Node<V>>, ids: Seq<usize>, down: bool) -> nat
    decreases ids.len(),
{
    if ids.len() == 0 {
        0
    } else {
        relation_count_of(nodes, ids.first() as int, down) + relation_count_sum(
            nodes,
            ids.drop_first(),
            down,
        )
    }
}

/// The fuel that suffices below vertex `i`: walking down, ranks above
/// `r(i)` are still ahead; walking up, ranks below `r(i)` are.
pub open spec fn fuel_need(r: spec_fn(usize) -> nat, i: usize, down: bool, n: nat) -> nat {
    if down {
        (n - r(i)) as nat
    } else {
        r(i) + 1
    }
}

/// Once the fuel covers the ranks still ahead of vertex `i`, the path count
/// no longer depends on it.
proof fn lemma_count_stable<V>(
    nodes: Seq<Node<V>>,
    r: spec_fn(usize) -> nat,
    i: usize,
    down: bool,
    f1: nat,
    f2: nat,
)
    requires
        arena_wf(nodes),
        edges_consistent(nodes),
        rank_ok(nodes, r),
        i < nodes.len(),
        f1 >= fuel_need(r, i, down, nodes.len()),
        f2 >= fuel_need(r, i, down, nodes.len()),
    ensures
        path_count(nodes, i as int, down, f1) == path_count(nodes, i as int, down, f2),
    decreases fuel_need(r, i, down, nodes.len()), 0nat, 0nat,
{
    let n = nodes.len();
    let ids = rel_ids(nodes, i as int, down);
    let bound = (fuel_need(r, i, down, n) - 1) as nat;
    assert(node_wf(nodes, i as int));
    assert forall|t: int| 0 <= t < ids.len() implies ids[t] < n && fuel_need(r, ids[t], down, n)
        <= bound by {
        let c = ids[t];
        if down {
            assert(r(i) < r(c));
        } else {
            assert(nodes[i as int].spec_parents()[t] == c);
            assert(nodes[i as int].spec_parents().contains(c));
            assert(nodes[c as int].spec_children().contains(i));
            let k = choose|k: int|
                0 <= k < nodes[c as int].spec_children().len() && nodes[c as int].spec_children()[k]
                    == i;
            assert(r(c) < r(i));
        }
    }
    lemma_sum_stable(nodes, r, ids, down, (f1 - 1) as nat, (f2 - 1) as nat, bound);
}

/// Fuel-independence of the summed path counts, once the fuel covers every
/// listed vertex's need.
proof fn lemma_sum_stable<V>(
    nodes: Seq<Node<V>>,
    r: spec_fn(usize) -> nat,
    ids: Seq<usize>,
    down: bool,
    f1: nat,
    f2: nat,
    bound: nat,
)
    requires
        arena_wf(nodes),
        edges_consistent(nodes),
        rank_ok(nodes, r),
        forall|t: int|
            0 <= t < ids.len() ==> (#[trigger] ids[t]) < nodes.len() && fuel_need(
                r,
                ids[t],
                down,
                nodes.len(),
            ) <= bound,
        f1 >= bound,
        f2 >= bound,
    ensures
        path_count_sum(nodes, ids, down, f1) == path_count_sum(nodes, ids, down, f2),
    decreases bound, 1nat, ids.len(),
{
    if ids.len() > 0 {
        assert(ids[0] == ids.first());
        lemma_count_stable(nodes, r, ids.first(), down, f1, f2);
        lemma_sum_stable(nodes, r, ids.drop_first(), down, f1, f2, bound);
    }
}

/// With any sufficient fuel, the summed path counts equal the cut-off-free
/// sums.
proof fn lemma_sum_canonical<V>(
    nodes: Seq<Node<V>>,
    r: spec_fn(usize) -> nat,
    ids: Seq<usize>,
    down: bool,
    f: nat,
)
    requires
        arena_wf(nodes),
        edges_consistent(nodes),
        rank_ok(nodes, r),
        forall|t: int|
            0 <= t < ids.len() ==> (#[trigger] ids[t]) < nodes.len() && fuel_need(
                r,
                ids[t],
                down,
                nodes.len(),
            ) <= f,
    ensures
        path_count_sum(nodes, ids, down, f) == relation_count_sum(nodes, ids, down),
    decreases ids.len(),
{
    if ids.len() > 0 {
        assert(ids[0] == ids.first());
        let c = ids.first();
        assert(fuel_need(r, c, down, nodes.len()) <= nodes.len());
        lemma_count_stable(nodes, r, c, down, f, nodes.len());
        lemma_sum_canonical(nodes, r, ids.drop_first(), down, f);
    }
}

/// Path-counting recurrence: on a well-formed, consistent, acyclic arena the
/// count at a vertex equals the number of its direct relatives plus the sum
/// of their own counts — so a vertex reachable along two different paths
/// contributes once per path, not once per vertex.
pub proof fn lemma_relation_count_recurrence<V>(nodes: Seq<Node<V>>, i: usize, down: bool)
    requires
        arena_wf(nodes),
        edges_consistent(nodes),
        acyclic(nodes),
        i < nodes.len(),
    ensures
        relation_count_of(nodes, i as int, down) == rel_ids(nodes, i as int, down).len()
            + relation_count_sum(nodes, rel_ids(nodes, i as int, down), down),
{
    let n = nodes.len();
    let r = choose|r: spec_fn(usize) -> nat| rank_ok(nodes, r);
    let ids = rel_ids(nodes, i as int, down);
    assert(node_wf(nodes, i as int));
    assert forall|t: int| 0 <= t < ids.len() implies ids[t] < n && fuel_need(r, ids[t], down, n)
        <= (n - 1) as nat by {
        let c = ids[t];
        if down {
            assert(r(i) < r(c));
        } else {
            assert(nodes[i as int].spec_parents()[t] == c);
            assert(nodes[i as int].spec_parents().contains(c));
            assert(nodes[c as int].spec_children().contains(i));
            let k = choose|k: int|
                0 <= k < nodes[c as int].spec_children().len() && nodes[c as int].spec_children()[k]
                    == i;
            assert(r(c) < r(i));
        }
    }
    lemma_sum_canonical(nodes, r, ids, down, (n - 1) as nat);
}

/// The ids of the parentless vertices of the arena, in increasing order.
pub open spec fn roots_of<V>(nodes: Seq<Node<V>>) -> Seq<usize>
    decreases nodes.len(),
{
    if nodes.len() == 0 {
        Seq::empty()
    } else {
        roots_of(nodes.drop_last()) + (if nodes.last().spec_parents().len() == 0 {
            seq![(nodes.len() - 1) as usize]
        } else {
            Seq::empty()
        })
    }
}

/// A graph vertex: a caller-supplied payload plus the arena indices of its
/// prerequisite (parent) and dependent (child) vertices.
pub struct Node<V> {
    id: usize,
    val: V,
    parents: Vec<usize>,
    children: Vec<usize>,
}

impl<V> Node<V> {
    /// The vertex's dense identifier: its own index in the owning arena.
    pub closed spec fn spec_id(self) -> usize {
        self.id
    }

    /// The payload.
    pub closed spec fn spec_val(self) -> V {
        self.val
    }

    /// Arena indices of the prerequisite vertices, in insertion order.
    pub closed spec fn spec_parents(self) -> Seq<usize> {
        self.parents@
    }

    /// Arena indices of the dependent vertices, in insertion order.
    pub closed spec fn spec_children(self) -> Seq<usize> {
        self.children@
    }

    /// A fresh vertex with no relations yet; edges are wired afterwards by
    /// the graph-construction step through `set_parents` / `set_children`.
    pub fn new(id: usize, val: V) -> (n: Node<V>)
        ensures
            n.spec_id() == id,
            n.spec_val() == val,
            n.spec_parents() == Seq::<usize>::empty(),
            n.spec_children() == Seq::<usize>::empty(),
    {
        Node { id, val, parents: Vec::new(), children: Vec::new() }
    }

    /// The payload; equal results on every call with no intervening mutation.
    pub fn val(&self) -> (r: &V)
        ensures
            *r == self.spec_val(),
    {
        &self.val
    }

    /// The parent index list; equal results on every call with no
    /// intervening mutation.
    pub fn parents(&self) -> (r: &Vec<usize>)
        ensures
            r@ == self.spec_parents(),
    {
        &self.parents
    }

    /// The child index list; equal results on every call with no
    /// intervening mutation.
    pub fn children(&self) -> (r: &Vec<usize>)
        ensures
            r@ == self.spec_children(),
    {
        &self.children
    }

    /// One-shot wiring of the parent edges, for the construction step.
    pub fn set_parents(&mut self, parents: Vec<usize>)
        ensures
            final(self).spec_parents() == parents@,
            final(self).spec_children() == old(self).spec_children(),
            final(self).spec_id() == old(self).spec_id(),
            final(self).spec_val() == old(self).spec_val(),
    {
        self.parents = parents;
    }

    /// One-shot wiring of the child edges, for the construction step.
    pub fn set_children(&mut self, children: Vec<usize>)
        ensures
            final(self).spec_children() == children@,
            final(self).spec_parents() == old(self).spec_parents(),
            final(self).spec_id() == old(self).spec_id(),
            final(self).spec_val() == old(self).spec_val(),
    {
        self.children = children;
    }

    /// Recursively sums `len(children)` plus the descendant count of each
    /// child, without deduplication: a vertex reachable via two different
    /// paths is counted once per path. `g` must be the arena this vertex
    /// belongs to.
    pub fn descendent_count(&self, g: &Graph<V>) -> (r: usize)
        requires
            arena_wf(g.spec_nodes()),
            (self.spec_id() as int) < g.spec_nodes().len(),
            g.spec_nodes()[self.spec_id() as int] == *self,
            descendent_count_of(g.spec_nodes(), self.spec_id() as int) <= usize::MAX,
        ensures
            r as nat == descendent_count_of(g.spec_nodes(), self.spec_id() as int),
    {
        count_links(&g.nodes, self.id, true, g.nodes.len())
    }

    /// The symmetric upward analogue of `descendent_count`, over the parent
    /// edges.
    pub fn ancestor_count(&self, g: &Graph<V>) -> (r: usize)
        requires
            arena_wf(g.spec_nodes()),
            (self.spec_id() as int) < g.spec_nodes().len(),
            g.spec_nodes()[self.spec_id() as int] == *self,
            ancestor_count_of(g.spec_nodes(), self.spec_id() as int) <= usize::MAX,
        ensures
            r as nat == ancestor_count_of(g.spec_nodes(), self.spec_id() as int),
    {
        count_links(&g.nodes, self.id, false, g.nodes.len())
    }

    /// Same count as `descendent_count`, under its shorter name.
    pub fn descendent_len(&self, g: &Graph<V>) -> (r: usize)
        requires
            arena_wf(g.spec_nodes()),
            (self.spec_id() as int) < g.spec_nodes().len(),
            g.spec_nodes()[self.spec_id() as int] == *self,
            descendent_count_of(g.spec_nodes(), self.spec_id() as int) <= usize::MAX,
        ensures
            r as nat == descendent_count_of(g.spec_nodes(), self.spec_id() as int),
    {
        self.descendent_count(g)
    }

    /// Same count as `ancestor_count`, under its shorter name.
    pub fn ancestor_len(&self, g: &Graph<V>) -> (r: usize)
        requires
            arena_wf(g.spec_nodes()),
            (self.spec_id() as int) < g.spec_nodes().len(),
            g.spec_nodes()[self.spec_id() as int] == *self,
            ancestor_count_of(g.spec_nodes(), self.spec_id() as int) <= usize::MAX,
        ensures
            r as nat == ancestor_count_of(g.spec_nodes(), self.spec_id() as int),
    {
        self.ancestor_count(g)
    }
}

/// Walks the arena from vertex `i` along child (when `down`) or parent
/// edges, summing relatives and their counts, with an explicit recursion
/// cut-off mirroring `path_count`.
fn count_links<V>(nodes: &Vec<Node<V>>, i: usize, down: bool, fuel: usize) -> (r: usize)
    requires
        arena_wf(nodes@),
        i < nodes@.len(),
        path_count(nodes@, i as int, down, fuel as nat) <= usize::MAX,
    ensures
        r as nat == path_count(nodes@, i as int, down, fuel as nat),
    decreases fuel,
{
    if fuel == 0 {
        return 0;
    }
    let list = if down {
        &nodes[i].children
    } else {
        &nodes[i].parents
    };
    proof {
        assert(node_wf(nodes@, i as int));
        assert(list@ == rel_ids(nodes@, i as int, down));
        assert(list@.skip(0) =~= list@);
    }
    let m: usize = list.len();
    let mut total: usize = m;
    let mut t: usize = 0;
    while t < m
        invariant
            arena_wf(nodes@),
            i < nodes@.len(),
            1 <= fuel,
            node_wf(nodes@, i as int),
            list@ == rel_ids(nodes@, i as int, down),
            m == list@.len(),
            t <= m,
            path_count(nodes@, i as int, down, fuel as nat) <= usize::MAX,
            total + path_count_sum(nodes@, list@.skip(t as int), down, (fuel - 1) as nat)
                == path_count(nodes@, i as int, down, fuel as nat),
        decreases m - t,
    {
        let c = list[t];
        proof {
            let suffix = list@.skip(t as int);
            assert(suffix.first() == list@[t as int]);
            assert(suffix.drop_first() =~= list@.skip(t as int + 1));
            assert(path_count_sum(nodes@, suffix, down, (fuel - 1) as nat) == path_count(
                nodes@,
                c as int,
                down,
                (fuel - 1) as nat,
            ) + path_count_sum(nodes@, list@.skip(t as int + 1), down, (fuel - 1) as nat));
        }
        let part = count_links(nodes, c, down, fuel - 1);
        total = total + part;
        t = t + 1;
    }
    proof {
        assert(list@.skip(m as int) =~= Seq::<usize>::empty());
    }
    total
}

/// The root set holds each parentless vertex exactly once, every entry is
/// an in-range arena index, and an id stands in it exactly when its vertex
/// has no parents.
pub proof fn lemma_roots_of_properties<V>(nodes: Seq<Node<V>>)
    requires
        nodes.len() <= usize::MAX,
    ensures
        roots_of(nodes).no_duplicates(),
        forall|j: int| 0 <= j < roots_of(nodes).len() ==> (#[trigger] roots_of(nodes)[j])
            < nodes.len(),
        forall|i: usize|
            i < nodes.len() ==> ((#[trigger] roots_of(nodes).contains(i)) <==> nodes[(
            i as int)].spec_parents().len() == 0),
    decreases nodes.len(),
{
    if nodes.len() > 0 {
        let rest = nodes.drop_last();
        let rs = roots_of(rest);
        let full = roots_of(nodes);
        let lastid = (nodes.len() - 1) as usize;
        lemma_roots_of_properties(rest);
        assert(forall|i: int| 0 <= i < rest.len() ==> rest[i] == #[trigger] nodes[i]);
        if nodes.last().spec_parents().len() == 0 {
            assert(full =~= rs.push(lastid));
            assert(!rs.contains(lastid)) by {
                if rs.contains(lastid) {
                    let u = choose|u: int| 0 <= u < rs.len() && rs[u] == lastid;
                    assert(roots_of(rest)[u] < rest.len());
                }
            }
            crate::order::lemma_nodup_push(rs, lastid);
        } else {
            assert(full =~= rs);
        }
        assert forall|i: usize| i < nodes.len() implies ((#[trigger] full.contains(i))
            <==> nodes[i as int].spec_parents().len() == 0) by {
            if i < nodes.len() - 1 {
                assert(rest[i as int] == nodes[i as int]);
                assert(full.contains(i) <==> rs.contains(i)) by {
                    if nodes.last().spec_parents().len() == 0 {
                        assert(full == rs.push(lastid));
                        if rs.contains(i) {
                            let u = choose|u: int| 0 <= u < rs.len() && rs[u] == i;
                            assert(full[u] == i);
                        }
                        if full.contains(i) {
                            let u = choose|u: int| 0 <= u < full.len() && full[u] == i;
                            if u < rs.len() {
                                assert(rs[u] == i);
                            } else {
                                assert(full[u] == lastid);
                            }
                        }
                    } else {
                        assert(full == rs);
                    }
                }
            } else {
                assert(i == lastid);
                if nodes.last().spec_parents().len() == 0 {
                    assert(full[full.len() - 1] == lastid);
                    assert(full.contains(lastid));
                } else {
                    assert(nodes[i as int].spec_parents().len() != 0);
                    if full.contains(lastid) {
                        let u = choose|u: int| 0 <= u < full.len() && full[u] == lastid;
                        assert(rs[u] == lastid);
                    }
                }
            }
        }
    }
}

/// An aggregate of vertices: a single owning arena keyed by id, plus the
/// current visiting sequence — the root set right after construction, the
/// full dependency-respecting order after `sort_by`.
pub struct Graph<V> {
    nodes: Vec<Node<V>>,
    order: Vec<usize>,
}

impl<V> Graph<V> {
    /// The owning arena, keyed by vertex id.
    pub closed spec fn spec_nodes(self) -> Seq<Node<V>> {
        self.nodes@
    }

    /// The current visiting sequence, as arena indices.
    pub closed spec fn spec_order(self) -> Seq<usize> {
        self.order@
    }

    /// Every arena vertex is well formed and the visiting sequence holds
    /// distinct, in-range ids.
    pub open spec fn wf(self) -> bool {
        &&& arena_wf(self.spec_nodes())
        &&& forall|j: int|
            0 <= j < self.spec_order().len() ==> (#[trigger] self.spec_order()[j])
                < self.spec_nodes().len()
        &&& self.spec_order().no_duplicates()
    }

    /// Builds the aggregate from a fully wired arena. The initial visiting
    /// sequence is the root set: every parentless vertex, in increasing id
    /// order.
    pub fn new(nodes: Vec<Node<V>>) -> (g: Graph<V>)
        ensures
            g.spec_nodes() == nodes@,
            g.spec_order() == roots_of(nodes@),
    {
        let mut order: Vec<usize> = Vec::new();
        let n: usize = nodes.len();
        let mut i: usize = 0;
        while i < n
            invariant
                n == nodes@.len(),
                i <= n,
                order@ == roots_of(nodes@.take(i as int)),
            decreases n - i,
        {
            if nodes[i].parents.len() == 0 {
                order.push(i);
            }
            i = i + 1;
            proof {
                let pre = nodes@.take(i - 1);
                let cur = nodes@.take(i as int);
                assert(cur.drop_last() =~= pre);
                assert(cur.last() == nodes@[i - 1]);
            }
        }
        proof {
            assert(nodes@.take(n as int) =~= nodes@);
        }
        Graph { nodes, order }
    }

    /// Replaces the visiting sequence with a full dependency-respecting
    /// visiting order over the arena: every vertex appears exactly once and
    /// strictly after all of its parents. Each step re-sorts the entire
    /// frontier of eligible vertices with the caller's comparator — which
    /// may consult external, time-varying state — and visits the vertex the
    /// comparator ranks first. Whenever the comparator computes a fixed
    /// three-way ordering `c`, the resulting sequence is exactly
    /// `ordered_by(nodes, roots, c)`, so repeated runs under such a
    /// comparator give identical sequences.
    #[verifier::loop_isolation(false)]
    pub fn sort_by<F: Fn(&Node<V>, &Node<V>) -> Ordering>(&mut self, cmp: F)
        requires
            old(self).wf(),
            edges_consistent(old(self).spec_nodes()),
            acyclic(old(self).spec_nodes()),
            forall|i: usize|
                i < old(self).spec_nodes().len() ==> (#[trigger] old(self).spec_order().contains(i)
                    <==> old(self).spec_nodes()[i as int].spec_parents().len() == 0),
            forall|x: &Node<V>, y: &Node<V>| call_requires(cmp, (x, y)),
        ensures
            final(self).spec_nodes() == old(self).spec_nodes(),
            final(self).wf(),
            final(self).spec_order().len() == old(self).spec_nodes().len(),
            final(self).spec_order().no_duplicates(),
            forall|i: usize|
                i < old(self).spec_nodes().len() ==> final(self).spec_order().contains(i),
            forall|k: int|
                0 <= k < final(self).spec_order().len() ==> parents_done(
                    old(self).spec_nodes(),
                    final(self).spec_order().take(k),
                    #[trigger] final(self).spec_order()[k],
                ),
            forall|c: spec_fn(Node<V>, Node<V>) -> Ordering|
                #[trigger] cmp_models(cmp, c) ==> final(self).spec_order() == ordered_by(
                    old(self).spec_nodes(),
                    old(self).spec_order(),
                    c,
                ),
    {
        broadcast use vstd::seq_lib::group_to_multiset_ensures;

        let ghost gnodes = self.spec_nodes();
        let ghost start = self.spec_order();
        let n: usize = self.nodes.len();
        let mut counts: Vec<usize> = vec![0usize; n];
        let mut frontier: Vec<usize> = Vec::new();
        let m0: usize = self.order.len();
        let mut j: usize = 0;
        while j < m0
            invariant
                j <= m0,
                frontier@ == start.take(j as int),
            decreases m0 - j,
        {
            frontier.push(self.order[j]);
            proof {
                assert(start.take(j + 1) =~= start.take(j as int).push(start[j as int]));
            }
            j = j + 1;
        }
        let mut order_out: Vec<usize> = Vec::new();
        proof {
            assert(frontier@ =~= start);
            assert forall|i: usize| i < n implies (#[trigger] counts@[i as int]) as nat
                == emitted_in(gnodes[i as int].spec_parents(), order_out@) by {
                lemma_emitted_in_empty(gnodes[i as int].spec_parents());
                assert(order_out@ =~= Seq::<usize>::empty());
            }
            assert((order_out@ + frontier@) =~= start);
            assert forall|t: int| 0 <= t < frontier@.len() implies parents_done(
                gnodes,
                order_out@,
                #[trigger] frontier@[t],
            ) by {
                assert(start.contains(start[t]));
                assert(gnodes[frontier@[t] as int].spec_parents().len() == 0);
            }
            assert forall|i: usize|
                i < n && !order_out@.contains(i) && #[trigger] counts@[i as int] == gnodes[(
            i as int)].spec_parents().len() implies frontier@.contains(i) by {
                assert(counts@[i as int] == 0);
                assert(start.contains(i));
            }
            assert forall|c: spec_fn(Node<V>, Node<V>) -> Ordering|
                #[trigger] cmp_models(cmp, c) implies ordered_by(gnodes, start, c) == order_out@
                + order_from(
                gnodes,
                counts@,
                frontier@,
                c,
                (n - order_out@.len()) as nat,
            ) by {
                assert(counts@ =~= Seq::new(gnodes.len(), |i: int| 0usize));
                assert(order_out@ + order_from(gnodes, counts@, frontier@, c, n as nat)
                    =~= order_from(gnodes, counts@, frontier@, c, n as nat));
            }
            lemma_distinct_ids_bounded(start, n as nat);
        }
        while frontier.len() != 0
            invariant
                counts@.len() == n,
                forall|t: int| 0 <= t < frontier@.len() ==> (#[trigger] frontier@[t]) < n,
                forall|t: int| 0 <= t < order_out@.len() ==> (#[trigger] order_out@[t]) < n,
                (order_out@ + frontier@).no_duplicates(),
                forall|i: usize|
                    i < n ==> (#[trigger] counts@[i as int]) as nat == emitted_in(
                        gnodes[i as int].spec_parents(),
                        order_out@,
                    ),
                forall|t: int|
                    0 <= t < frontier@.len() ==> parents_done(
                        gnodes,
                        order_out@,
                        #[trigger] frontier@[t],
                    ),
                forall|i: usize|
                    i < n && !order_out@.contains(i) && #[trigger] counts@[i as int] == gnodes[(
                    i as int)].spec_parents().len() ==> frontier@.contains(i),
                forall|k: int|
                    0 <= k < order_out@.len() ==> parents_done(
                        gnodes,
                        order_out@.take(k),
                        #[trigger] order_out@[k],
                    ),
                order_out@.len() + frontier@.len() <= n,
                forall|c: spec_fn(Node<V>, Node<V>) -> Ordering|
                    #[trigger] cmp_models(cmp, c) ==> ordered_by(gnodes, start, c) == order_out@
                        + order_from(
                        gnodes,
                        counts@,
                        frontier@,
                        c,
                        (n - order_out@.len()) as nat,
                    ),
            decreases n - order_out@.len(),
        {
            let ghost o_pre = order_out@;
            let ghost c_pre = counts@;
            let ghost f_pre = frontier@;
            frontier = sort_frontier(&self.nodes, frontier, &cmp);
            let ghost f_sorted = frontier@;
            frontier = reverse_ids(frontier);
            let ghost f_rev = frontier@;
            proof {
                assert(f_sorted.len() == f_pre.len()) by {
                    assert(f_sorted.to_multiset().len() == f_pre.to_multiset().len());
                }
                assert(f_rev.len() == f_sorted.len());
            }
            let next: usize = match frontier.pop() {
                Some(v) => v,
                None => 0,
            };
            let ghost f_pop = frontier@;
            proof {
                assert(next == f_rev.last());
                assert(f_pop =~= f_rev.drop_last());
                assert(f_rev =~= f_pop.push(next));
                f_sorted.lemma_reverse_to_multiset();
                assert(f_rev.to_multiset() == f_pre.to_multiset());
                assert(f_pop.push(next).to_multiset() == f_pre.to_multiset());
                assert forall|t2: int| 0 <= t2 < f_rev.len() implies (#[trigger] f_rev[t2])
                    < n by {
                    assert(f_rev[t2] == f_sorted[f_sorted.len() - 1 - t2]);
                }
                // `next` came out of the old frontier.
                lemma_concat_nodup_perm(o_pre, f_pre, f_pop.push(next));
                assert(f_pre.contains(next)) by {
                    assert(f_pop.push(next)[f_pop.len() as int] == next);
                }
                assert(next < n) by {
                    let w = choose|w: int| 0 <= w < f_pre.len() && f_pre[w] == next;
                }
                assert(!o_pre.contains(next)) by {
                    if o_pre.contains(next) {
                        let u = choose|u: int| 0 <= u < o_pre.len() && o_pre[u] == next;
                        let bpos = f_pop.len() as int;
                        assert((o_pre + f_pop.push(next))[u] == next);
                        assert((o_pre + f_pop.push(next))[bpos + o_pre.len()] == next);
                    }
                }
                assert(parents_done(gnodes, o_pre, next)) by {
                    let w = choose|w: int| 0 <= w < f_pre.len() && f_pre[w] == next;
                }
                lemma_concat_shift_nodup(o_pre, f_pop, next);
                assert forall|t2: int| 0 <= t2 < f_pop.len() implies parents_done(
                    gnodes,
                    o_pre,
                    #[trigger] f_pop[t2],
                ) by {
                    let v = f_pop[t2];
                    assert(f_rev[t2] == v);
                    assert(f_rev.contains(v));
                    assert(f_pre.contains(v)) by {
                        assert(f_pre.to_multiset().count(v) > 0);
                    }
                    let w = choose|w: int| 0 <= w < f_pre.len() && f_pre[w] == v;
                }
                assert(forall|t2: int| 0 <= t2 < f_pop.len() ==> (#[trigger] f_pop[t2]) < n);
            }
            order_out.push(next);
            let ghost done1 = order_out@;
            let ghost kids = gnodes[next as int].spec_children();
            let kids_len: usize = self.nodes[next].children.len();
            let mut t: usize = 0;
            proof {
                assert(node_wf(gnodes, next as int));
                assert(kids.take(0) =~= Seq::<usize>::empty());
                assert((counts@, frontier@) == absorb_children(
                    gnodes,
                    c_pre,
                    f_pop,
                    kids.take(0),
                ));
                assert(done1 =~= o_pre.push(next));
            }
            while t < kids_len
                invariant
                    t <= kids_len,
                    counts@.len() == n,
                    (counts@, frontier@) == absorb_children(
                        gnodes,
                        c_pre,
                        f_pop,
                        kids.take(t as int),
                    ),
                decreases kids_len - t,
            {
                let k = self.nodes[next].children[t];
                proof {
                    assert(kids[t as int] == k);
                    assert(k < n);
                    let ghost kpart = kids.take(t as int);
                    assert(kpart.no_duplicates()) by {
                        assert forall|a: int, b: int|
                            0 <= a < b < kpart.len() implies kpart[a] != kpart[b] by {
                            assert(kids[a] != kids[b]);
                        }
                    }
                    assert(forall|u: int|
                        0 <= u < kpart.len() ==> kids.contains(#[trigger] kpart[u]));
                    assert(rank_ok(gnodes, rank_witness(gnodes))) by {
                        assert(acyclic(gnodes));
                    }
                    lemma_absorb_partial(gnodes, rank_witness(gnodes), o_pre, next, c_pre, f_pop, kpart);
                    assert(!kpart.contains(k)) by {
                        if kpart.contains(k) {
                            let u = choose|u: int| 0 <= u < kpart.len() && kpart[u] == k;
                            assert(kids[u] == kids[t as int]);
                            assert(kids.no_duplicates());
                        }
                    }
                    assert(counts@[k as int] == c_pre[k as int]);
                    assert(gnodes[k as int].spec_parents().contains(next)) by {
                        assert(gnodes[next as int].spec_children().contains(k)) by {
                            assert(kids[t as int] == k);
                        }
                    }
                    lemma_emitted_in_missing(gnodes[k as int].spec_parents(), o_pre, next);
                    assert(node_wf(gnodes, k as int));
                    lemma_distinct_ids_bounded(gnodes[k as int].spec_parents(), n as nat);
                    assert(counts@[k as int] < gnodes[k as int].spec_parents().len());
                }
                let cur = counts[k];
                counts[k] = cur + 1;
                if cur + 1 == self.nodes[k].parents.len() {
                    frontier.push(k);
                }
                t = t + 1;
                proof {
                    let kcur = kids.take(t as int);
                    assert(kcur.drop_last() =~= kids.take(t - 1));
                    assert(kcur.last() == kids[t - 1]);
                    assert((counts@, frontier@) == absorb_children(gnodes, c_pre, f_pop, kcur));
                }
            }
            proof {
                assert(kids.take(kids_len as int) =~= kids);
                let r = rank_witness(gnodes);
                assert(rank_ok(gnodes, r)) by {
                    assert(acyclic(gnodes));
                }
                lemma_absorb_children_effects(gnodes, r, o_pre, next, c_pre, f_pop);
                let st = absorb_children(gnodes, c_pre, f_pop, kids);
                assert(counts@ == st.0);
                assert(frontier@ == st.1);
                // the complete-eligibility hypothesis held before the visit
                assert forall|i: usize|
                    i < n && i != next && !o_pre.contains(i) && #[trigger] c_pre[i as int]
                        == gnodes[i as int].spec_parents().len() implies f_pop.contains(i) by {
                    assert(f_pre.contains(i));
                    assert(f_pop.push(next).contains(i)) by {
                        assert(f_pop.push(next).to_multiset().count(i) > 0);
                    }
                    let u = choose|u: int|
                        0 <= u < f_pop.push(next).len() && f_pop.push(next)[u] == i;
                    assert(u < f_pop.len());
                    assert(f_pop[u] == i);
                };
                // dependency ordering extends to the new entry
                assert forall|k2: int| 0 <= k2 < done1.len() implies parents_done(
                    gnodes,
                    done1.take(k2),
                    #[trigger] done1[k2],
                ) by {
                    if k2 < o_pre.len() {
                        assert(done1.take(k2) =~= o_pre.take(k2));
                        assert(done1[k2] == o_pre[k2]);
                    } else {
                        assert(done1.take(k2) =~= o_pre);
                        assert(done1[k2] == next);
                    }
                };
                lemma_distinct_ids_bounded(done1 + frontier@, n as nat);
                // the spec model took the very same step
                assert forall|c: spec_fn(Node<V>, Node<V>) -> Ordering|
                    #[trigger] cmp_models(cmp, c) implies ordered_by(gnodes, start, c) == order_out@
                    + order_from(gnodes, counts@, frontier@, c, (n - order_out@.len()) as nat) by {
                    let fuel = (n - o_pre.len()) as nat;
                    assert(ordered_by(gnodes, start, c) == o_pre + order_from(
                        gnodes,
                        c_pre,
                        f_pre,
                        c,
                        fuel,
                    ));
                    assert(f_sorted == sort_ranked(gnodes, f_pre, c));
                    assert(fuel >= 1);
                    assert(order_from(gnodes, c_pre, f_pre, c, fuel) == seq![next] + order_from(
                        gnodes,
                        st.0,
                        st.1,
                        c,
                        (fuel - 1) as nat,
                    )) by {
                        assert(f_rev == sort_ranked(gnodes, f_pre, c).reverse());
                        assert(f_rev.last() == next);
                        assert(f_rev.drop_last() == f_pop);
                    }
                    assert(o_pre + (seq![next] + order_from(
                        gnodes,
                        st.0,
                        st.1,
                        c,
                        (fuel - 1) as nat,
                    )) =~= done1 + order_from(gnodes, st.0, st.1, c, (fuel - 1) as nat));
                    assert((n - order_out@.len()) as nat == (fuel - 1) as nat);
                };
            }
        }
        proof {
            assert((order_out@ + frontier@) =~= order_out@);
            assert(order_out@.no_duplicates());
            assert forall|q: usize| q < n && !order_out@.contains(q) implies (exists|t: int|
                0 <= t < gnodes[q as int].spec_parents().len() && !order_out@.contains(
                    gnodes[q as int].spec_parents()[t],
                )) by {
                assert(counts@[q as int] != gnodes[q as int].spec_parents().len());
                lemma_emitted_in_full(gnodes[q as int].spec_parents(), order_out@);
            }
            let r = rank_witness(gnodes);
            assert(rank_ok(gnodes, r)) by {
                assert(acyclic(gnodes));
            }
            assert forall|i: usize| i < n implies order_out@.contains(i) by {
                lemma_all_visited(gnodes, order_out@, r, i, r(i) + 1);
            }
            lemma_distinct_ids_cover(order_out@, n as nat);
            assert forall|c: spec_fn(Node<V>, Node<V>) -> Ordering|
                #[trigger] cmp_models(cmp, c) implies ordered_by(gnodes, start, c)
                == order_out@ by {
                assert(order_from(gnodes, counts@, frontier@, c, (n - order_out@.len()) as nat)
                    == Seq::<usize>::empty());
                assert(order_out@ + Seq::<usize>::empty() =~= order_out@);
            }
        }
        self.order = order_out;
    }

    /// The current vertex sequence (the root set before ordering, the full
    /// visiting order after), as read-only views; payloads are not copied.
    /// Equal results on every call with no intervening mutation.
    pub fn nodes<'a>(&'a self) -> (r: Vec<ReadOnly<'a, Node<V>>>)
        requires
            self.wf(),
        ensures
            r@.len() == self.spec_order().len(),
            forall|j: int|
                0 <= j < r@.len() ==> (#[trigger] r@[j]).target() == self.spec_nodes()[(
                self.spec_order()[j]) as int],
    {
        let mut r: Vec<ReadOnly<'a, Node<V>>> = Vec::new();
        let m: usize = self.order.len();
        let mut j: usize = 0;
        while j < m
            invariant
                self.wf(),
                m == self.spec_order().len(),
                j <= m,
                r@.len() == j,
                forall|t: int|
                    0 <= t < j ==> (#[trigger] r@[t]).target() == self.spec_nodes()[(
                    self.spec_order()[t]) as int],
            decreases m - j,
        {
            let id = self.order[j];
            r.push(ReadOnly { inner: &self.nodes[id] });
            j = j + 1;
        }
        r
    }
}

} // verus!
