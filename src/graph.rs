use crate::queue::{entry_le, pop_min};
use std::collections::{HashMap, HashSet};
use vstd::prelude::*;

verus! {

broadcast use vstd::std_specs::hash::group_hash_axioms;

/// Adjacency as mathematics: each node id maps to its outgoing edges, in
/// insertion order, each edge a target id and a weight in metres.
pub type Adjacency = Map<u64, Seq<(u64, u32)>>;

/// Every edge target has an adjacency entry of its own.
pub open spec fn targets_are_nodes(g: Adjacency) -> bool {
    forall|u: u64, k: int|
        #![trigger g[u][k]]
        g.contains_key(u) && 0 <= k < g[u].len() ==> g.contains_key(g[u][k].0)
}

/// `g` holds an edge from `u` to `v` of weight `w`.
pub open spec fn has_edge(g: Adjacency, u: u64, v: u64, w: u32) -> bool {
    g.contains_key(u) && exists|k: int| 0 <= k < g[u].len() && #[trigger] g[u][k] == (v, w)
}

/// `g` holds an edge from `u` to `v` of some weight.
pub open spec fn adjacent(g: Adjacency, u: u64, v: u64) -> bool {
    g.contains_key(u) && exists|k: int| 0 <= k < g[u].len() && (#[trigger] g[u][k]).0 == v
}

/// `p` is a walk through `g`: at least one node, every node has an entry,
/// and each consecutive pair is joined by an edge.
pub open spec fn is_path(g: Adjacency, p: Seq<u64>) -> bool {
    &&& p.len() >= 1
    &&& forall|i: int| 0 <= i < p.len() ==> g.contains_key(#[trigger] p[i])
    &&& forall|i: int| 0 <= i < p.len() - 1 ==> #[trigger] adjacent(g, p[i], p[i + 1])
}

/// `p` is a walk through `g` from `s` to `e`.
pub open spec fn is_path_between(g: Adjacency, p: Seq<u64>, s: u64, e: u64) -> bool {
    is_path(g, p) && p[0] == s && p.last() == e
}

/// Some walk through `g` leads from `s` to `e`.
pub open spec fn reachable(g: Adjacency, s: u64, e: u64) -> bool {
    exists|p: Seq<u64>| is_path_between(g, p, s, e)
}

/// `g` after appending the edge `(v, w)` to the list of `u`; `v` gets an
/// empty list if it had none.
pub open spec fn with_edge(g: Adjacency, u: u64, v: u64, w: u32) -> Adjacency {
    let g1 = g.insert(u, if g.contains_key(u) { g[u].push((v, w)) } else { seq![(v, w)] });
    if g1.contains_key(v) {
        g1
    } else {
        g1.insert(v, Seq::empty())
    }
}

/// Every member of `s` that is a node of `g` has all its edge targets in `s`.
pub open spec fn closed_under_edges(g: Adjacency, s: Set<u64>) -> bool {
    forall|v: u64, k: int|
        #![trigger s.contains(v), g[v][k]]
        s.contains(v) && g.contains_key(v) && 0 <= k < g[v].len() ==> s.contains(g[v][k].0)
}

/// A set closed under the edges of `g` holds the end of every walk that
/// starts in it.
proof fn lemma_closed_holds_walk_end(g: Adjacency, s: Set<u64>, p: Seq<u64>)
    requires
        closed_under_edges(g, s),
        is_path(g, p),
        s.contains(p[0]),
    ensures
        s.contains(p.last()),
    decreases p.len(),
{
    if p.len() > 1 {
        let q = p.drop_last();
        assert forall|i: int| 0 <= i < q.len() - 1 implies #[trigger] adjacent(g, q[i], q[i + 1]) by {
            assert(adjacent(g, p[i], p[i + 1]));
        }
        assert forall|i: int| 0 <= i < q.len() implies g.contains_key(#[trigger] q[i]) by {
            assert(g.contains_key(p[i]));
        }
        lemma_closed_holds_walk_end(g, s, q);
        let u = p[p.len() - 2];
        assert(adjacent(g, p[p.len() - 2], p[p.len() - 2 + 1]));
        let k = choose|k: int| 0 <= k < g[u].len() && (#[trigger] g[u][k]).0 == p.last();
        assert(s.contains(g[u][k].0));
    }
}

/// The queue holds the entry `(c, v)`.
spec fn queued(qq: Seq<(u128, u64)>, c: u128, v: u64) -> bool {
    exists|j: int| 0 <= j < qq.len() && #[trigger] qq[j] == (c, v)
}

/// Every reached node that has not been expanded waits in the queue at its
/// current distance.
spec fn all_open_queued(dd: Map<u64, u128>, ex: Set<u64>, qq: Seq<(u128, u64)>) -> bool {
    forall|v: u64| #[trigger] dd.contains_key(v) && !ex.contains(v) ==> queued(qq, dd[v], v)
}

/// `u` is a fit predecessor of `v`: both reached, joined by an edge whose
/// weight leads from the distance of `u` to no more than that of `v`, and
/// `u` strictly earlier by distance and then by hop count.
spec fn pred_ok(g: Adjacency, dd: Map<u64, u128>, hops: Map<u64, nat>, u: u64, v: u64) -> bool {
    &&& dd.contains_key(v)
    &&& dd.contains_key(u)
    &&& exists|w: u32| #[trigger] has_edge(g, u, v, w) && dd[u] + w <= dd[v]
    &&& (dd[u] < dd[v] || (dd[u] == dd[v] && hops[u] < hops[v]))
}

/// `a` comes strictly before `b` by distance and then by hop count.
spec fn key_lt(dd: Map<u64, u128>, hops: Map<u64, nat>, a: u64, b: u64) -> bool {
    dd[a] < dd[b] || (dd[a] == dd[b] && hops[a] < hops[b])
}

/// All edges out of `v` have been relaxed: each target is reached, at no
/// more than the distance of `v` plus the edge's weight.
spec fn targets_known(g: Adjacency, dd: Map<u64, u128>, v: u64) -> bool {
    forall|k: int|
        0 <= k < g[v].len() ==> dd.contains_key((#[trigger] g[v][k]).0) && dd[g[v][k].0] <= dd[v]
            + g[v][k].1
}

/// The sum of a sequence of weights.
pub open spec fn weight_sum(ws: Seq<u32>) -> int
    decreases ws.len(),
{
    if ws.len() == 0 {
        0
    } else {
        weight_sum(ws.drop_last()) + ws.last()
    }
}

/// `p` is a walk through `g` that takes, between positions `i` and `i + 1`,
/// an edge of weight `ws[i]`.
pub open spec fn is_weighted_walk(g: Adjacency, p: Seq<u64>, ws: Seq<u32>) -> bool {
    &&& p.len() >= 1
    &&& ws.len() == p.len() - 1
    &&& forall|i: int| 0 <= i < p.len() ==> g.contains_key(#[trigger] p[i])
    &&& forall|i: int| 0 <= i < ws.len() ==> #[trigger] has_edge(g, p[i], p[i + 1], ws[i])
}

/// No walk from `s` to `e` weighs less than `c`.
pub open spec fn walk_cost_at_least(g: Adjacency, s: u64, e: u64, c: int) -> bool {
    forall|p: Seq<u64>, ws: Seq<u32>|
        #[trigger] is_weighted_walk(g, p, ws) && p[0] == s && p.last() == e ==> c <= weight_sum(ws)
}

/// `p` leads from `s` to `e` over edges whose weights add up to no more
/// than those of any other walk from `s` to `e`.
pub open spec fn is_shortest_path(g: Adjacency, p: Seq<u64>, s: u64, e: u64) -> bool {
    exists|ws: Seq<u32>|
        #[trigger] is_weighted_walk(g, p, ws) && p[0] == s && p.last() == e && walk_cost_at_least(
            g,
            s,
            e,
            weight_sum(ws),
        )
}

/// What holds of the search's state between two steps. `pending` is a node
/// whose edges are being relaxed.
spec fn search_inv(
    g: Adjacency,
    start: u64,
    dd: Map<u64, u128>,
    pp: Map<u64, u64>,
    ex: Set<u64>,
    qq: Seq<(u128, u64)>,
    hops: Map<u64, nat>,
    pending: Option<u64>,
    last: int,
) -> bool {
    &&& targets_are_nodes(g)
    &&& g.contains_key(start)
    &&& dd.contains_key(start)
    &&& dd[start] == 0
    &&& !pp.contains_key(start)
    &&& hops.dom() == dd.dom()
    &&& forall|v: u64| #[trigger] dd.contains_key(v) ==> g.contains_key(v)
    &&& forall|v: u64| #[trigger] dd.contains_key(v) && v != start ==> pp.contains_key(v)
    &&& forall|v: u64| #[trigger] pp.contains_key(v) ==> pred_ok(g, dd, hops, pp[v], v)
    &&& forall|v: u64|
        #[trigger] dd.contains_key(v) ==> hops[v] <= ex.len() && dd[v] <= hops[v] * MAX_WEIGHT
    &&& ex.subset_of(dd.dom())
    &&& ex.finite()
    &&& forall|v: u64| #[trigger] ex.contains(v) && pending != Some(v) ==> targets_known(g, dd, v)
    &&& forall|j: int|
        0 <= j < qq.len() ==> dd.contains_key((#[trigger] qq[j]).1) && dd[qq[j].1] <= qq[j].0
    &&& forall|j: int| 0 <= j < qq.len() ==> last <= (#[trigger] qq[j]).0
    &&& forall|v: u64| #[trigger] ex.contains(v) ==> dd[v] <= last
    &&& forall|v: u64| #[trigger] ex.contains(v) ==> walk_cost_at_least(g, start, v, dd[v] as int)
}

proof fn lemma_queue_remove_bounds(dd: Map<u64, u128>, qq: Seq<(u128, u64)>, i: int)
    requires
        0 <= i < qq.len(),
        forall|j: int|
            0 <= j < qq.len() ==> dd.contains_key((#[trigger] qq[j]).1) && dd[qq[j].1] <= qq[j].0,
    ensures
        dd.contains_key(qq[i].1),
        dd[qq[i].1] <= qq[i].0,
        forall|j: int|
            0 <= j < qq.remove(i).len() ==> dd.contains_key((#[trigger] qq.remove(i)[j]).1)
                && dd[qq.remove(i)[j].1] <= qq.remove(i)[j].0,
{
    let r = qq.remove(i);
    assert forall|j: int| 0 <= j < r.len() implies dd.contains_key((#[trigger] r[j]).1)
        && dd[r[j].1] <= r[j].0 by {
        if j < i {
            assert(r[j] == qq[j]);
        } else {
            assert(r[j] == qq[j + 1]);
        }
    }
}

proof fn lemma_queue_remove_keeps(qq: Seq<(u128, u64)>, i: int, c: u128, v: u64)
    requires
        0 <= i < qq.len(),
        queued(qq, c, v),
        qq[i] != (c, v),
    ensures
        queued(qq.remove(i), c, v),
{
    let j = choose|j: int| 0 <= j < qq.len() && #[trigger] qq[j] == (c, v);
    let r = qq.remove(i);
    if j < i {
        assert(r[j] == qq[j]);
    } else {
        assert(r[j - 1] == qq[j]);
    }
}

proof fn lemma_relax_keeps(
    g: Adjacency,
    start: u64,
    dd: Map<u64, u128>,
    pp: Map<u64, u64>,
    ex: Set<u64>,
    qq: Seq<(u128, u64)>,
    hops: Map<u64, nat>,
    last: int,
    node: u64,
    next: u64,
    weight: u32,
)
    requires
        search_inv(g, start, dd, pp, ex, qq, hops, Some(node), last),
        all_open_queued(dd, ex, qq),
        ex.contains(node),
        hops[node] < ex.len(),
        has_edge(g, node, next, weight),
        dd.contains_key(node),
        dd[node] == last,
        dd[node] + weight < (if dd.contains_key(next) { dd[next] as int } else { u128::MAX as int }),
    ensures
        next != node,
        !ex.contains(next),
        ({
            let c = (dd[node] + weight) as u128;
            let dd1 = dd.insert(next, c);
            let pp1 = pp.insert(next, node);
            let qq1 = qq.push((c, next));
            let h1 = hops.insert(next, hops[node] + 1);
            &&& search_inv(g, start, dd1, pp1, ex, qq1, h1, Some(node), last)
            &&& all_open_queued(dd1, ex, qq1)
            &&& dd1[node] == dd[node]
        }),
{
    let c = (dd[node] + weight) as u128;
    let dd1 = dd.insert(next, c);
    let pp1 = pp.insert(next, node);
    let qq1 = qq.push((c, next));
    let h1 = hops.insert(next, hops[node] + 1);
    let k = choose|k: int| 0 <= k < g[node].len() && #[trigger] g[node][k] == (next, weight);
    assert(g.contains_key(g[node][k].0));
    if ex.contains(next) {
        assert(dd[next] <= last);
    }
    assert(h1.dom() =~= dd1.dom());
    let h = hops[node];
    assert(dd[node] + weight <= (h + 1) * MAX_WEIGHT) by (nonlinear_arith)
        requires
            dd[node] <= h * MAX_WEIGHT,
            weight <= MAX_WEIGHT,
    ;
    assert forall|v: u64| #[trigger] pp1.contains_key(v) implies pred_ok(g, dd1, h1, pp1[v], v) by {
        if v != next {
            assert(pred_ok(g, dd, hops, pp[v], v));
            let w = choose|w: u32| #[trigger] has_edge(g, pp[v], v, w) && dd[pp[v]] + w <= dd[v];
            assert(has_edge(g, pp1[v], v, w) && dd1[pp1[v]] + w <= dd1[v]);
        } else {
            assert(has_edge(g, pp1[v], v, weight) && dd1[pp1[v]] + weight <= dd1[v]);
        }
    }
    assert forall|v: u64| #[trigger] dd1.contains_key(v) implies h1[v] <= ex.len() && dd1[v]
        <= h1[v] * MAX_WEIGHT by {
        if v != next {
            assert(dd.contains_key(v));
        }
    }
    assert forall|v: u64| #[trigger] ex.contains(v) && Some(node) != Some(v) implies targets_known(
        g,
        dd1,
        v,
    ) by {
        assert(targets_known(g, dd, v));
        assert forall|kk: int| 0 <= kk < g[v].len() implies dd1.contains_key(
            (#[trigger] g[v][kk]).0,
        ) && dd1[g[v][kk].0] <= dd1[v] + g[v][kk].1 by {
            assert(dd.contains_key(g[v][kk].0));
        }
    }
    assert forall|v: u64| #[trigger] ex.contains(v) implies dd1[v] <= last && walk_cost_at_least(
        g,
        start,
        v,
        dd1[v] as int,
    ) by {
        assert(dd[v] <= last);
        assert(walk_cost_at_least(g, start, v, dd[v] as int));
    }
    assert forall|j: int| 0 <= j < qq1.len() implies dd1.contains_key((#[trigger] qq1[j]).1)
        && dd1[qq1[j].1] <= qq1[j].0 && last <= qq1[j].0 by {
        if j < qq.len() {
            assert(qq1[j] == qq[j]);
        }
    }
    assert forall|v: u64| #[trigger]
        dd1.contains_key(v) && !ex.contains(v) implies queued(qq1, dd1[v], v) by {
        if v == next {
            assert(qq1[qq.len() as int] == (c, next));
        } else {
            assert(queued(qq, dd[v], v));
            let j = choose|j: int| 0 <= j < qq.len() && #[trigger] qq[j] == (dd[v], v);
            assert(qq1[j] == qq[j]);
        }
    }
}

/// Weights are never negative.
proof fn lemma_weight_sum_nonneg(ws: Seq<u32>)
    ensures
        weight_sum(ws) >= 0,
    decreases ws.len(),
{
    if ws.len() > 0 {
        lemma_weight_sum_nonneg(ws.drop_last());
    }
}

/// No walk from `start` weighs less than the least queue key `c` where it
/// ends at a node not yet expanded: somewhere it leaves the expanded set,
/// over an edge already relaxed into a queued distance.
proof fn lemma_walk_cost_at_least(
    g: Adjacency,
    start: u64,
    dd: Map<u64, u128>,
    ex: Set<u64>,
    qq: Seq<(u128, u64)>,
    c: int,
    p: Seq<u64>,
    ws: Seq<u32>,
)
    requires
        ex.contains(start),
        forall|v: u64| #[trigger] ex.contains(v) ==> targets_known(g, dd, v),
        forall|v: u64| #[trigger] ex.contains(v) ==> walk_cost_at_least(g, start, v, dd[v] as int),
        all_open_queued(dd, ex, qq),
        forall|j: int| 0 <= j < qq.len() ==> c <= (#[trigger] qq[j]).0,
        is_weighted_walk(g, p, ws),
        p[0] == start,
        !ex.contains(p.last()),
    ensures
        c <= weight_sum(ws),
    decreases p.len(),
{
    let n = p.len();
    let x = p[n - 2];
    let y = p.last();
    let q = p.drop_last();
    let qs = ws.drop_last();
    assert(is_weighted_walk(g, q, qs)) by {
        assert forall|i: int| 0 <= i < q.len() implies g.contains_key(#[trigger] q[i]) by {
            assert(g.contains_key(p[i]));
        }
        assert forall|i: int| 0 <= i < qs.len() implies #[trigger] has_edge(g, q[i], q[i + 1], qs[i]) by {
            assert(has_edge(g, p[i], p[i + 1], ws[i]));
        }
    }
    assert(has_edge(g, p[n - 2], p[n - 2 + 1], ws[n - 2]));
    if ex.contains(x) {
        assert(walk_cost_at_least(g, start, x, dd[x] as int));
        assert(is_weighted_walk(g, q, qs) && q[0] == start && q.last() == x);
        let k = choose|k: int| 0 <= k < g[x].len() && #[trigger] g[x][k] == (y, ws[n - 2]);
        assert(targets_known(g, dd, x));
        assert(dd.contains_key(g[x][k].0) && dd[g[x][k].0] <= dd[x] + g[x][k].1);
        assert(queued(qq, dd[y], y));
        let j = choose|j: int| 0 <= j < qq.len() && #[trigger] qq[j] == (dd[y], y);
        assert(c <= qq[j].0);
    } else {
        lemma_walk_cost_at_least(g, start, dd, ex, qq, c, q, qs);
    }
}

/// `adjacent` is an edge of some weight.
pub proof fn lemma_adjacent_has_edge(g: Adjacency, u: u64, v: u64)
    ensures
        adjacent(g, u, v) <==> exists|w: u32| #[trigger] has_edge(g, u, v, w),
{
    if adjacent(g, u, v) {
        let k = choose|k: int| 0 <= k < g[u].len() && (#[trigger] g[u][k]).0 == v;
        assert(has_edge(g, u, v, g[u][k].1));
    }
    if exists|w: u32| #[trigger] has_edge(g, u, v, w) {
        let w = choose|w: u32| #[trigger] has_edge(g, u, v, w);
        let k = choose|k: int| 0 <= k < g[u].len() && #[trigger] g[u][k] == (v, w);
        assert(g[u][k].0 == v);
    }
}

/// The largest weight an edge can carry.
pub const MAX_WEIGHT: u128 = 0xffff_ffff;

/// The weighted directed graph: node id to its outgoing edges, with weights
/// in whole metres. Parallel edges are kept.
#[derive(Debug)]
pub struct Graph {
    adj_list: HashMap<u64, Vec<(u64, u32)>>,
}

impl View for Graph {
    type V = Adjacency;

    closed spec fn view(&self) -> Adjacency {
        self.adj_list@.map_values(|l: Vec<(u64, u32)>| l@)
    }
}

impl Graph {
    /// Well-formed: every edge target is itself a node of the graph.
    pub open spec fn wf(&self) -> bool {
        targets_are_nodes(self@)
    }

    /// An empty graph.
    pub fn new() -> (g: Graph)
        ensures
            g@ == Map::<u64, Seq<(u64, u32)>>::empty(),
            g.wf(),
    {
        let g = Graph { adj_list: HashMap::new() };
        assert(g@ =~= Map::<u64, Seq<(u64, u32)>>::empty());
        g
    }

    /// Whether `id` has an adjacency entry, that is, is a node of the graph.
    pub fn contains_node_id(&self, id: u64) -> (r: bool)
        ensures
            r == self@.contains_key(id),
    {
        self.adj_list.contains_key(&id)
    }

    /// The ids of all nodes of the graph, each once, in no set order.
    pub fn node_ids(&self) -> (r: Vec<u64>)
        ensures
            r@.to_set() == self@.dom(),
            r@.no_duplicates(),
    {
        let mut r: Vec<u64> = Vec::new();
        for id in it: self.adj_list.keys()
            invariant
                it.seq().unref().to_set() == self.adj_list@.dom(),
                it.seq().unref().no_duplicates(),
                r@ == it.seq().unref().take(it.index()),
                it.index() == it.seq().len() ==> r@ =~= it.seq().unref(),
        {
            proof {
                assert(it.seq().unref().take(it.index() + 1) =~= r@.push(*id));
            }
            r.push(*id);
        }
        proof {
            assert(self@.dom() =~= self.adj_list@.dom());
        }
        r
    }

    /// The outgoing edges of `id` in insertion order; empty where `id` is no
    /// node.
    pub fn edges_from(&self, id: u64) -> (r: Vec<(u64, u32)>)
        ensures
            self@.contains_key(id) ==> r@ == self@[id],
            !self@.contains_key(id) ==> r@ == Seq::<(u64, u32)>::empty(),
    {
        let mut r: Vec<(u64, u32)> = Vec::new();
        if let Some(list) = self.adj_list.get(&id) {
            let mut i: usize = 0;
            while i < list.len()
                invariant
                    0 <= i <= list@.len(),
                    r@ == list@.take(i as int),
                decreases list@.len() - i,
            {
                r.push(list[i]);
                proof {
                    assert(list@.take(i + 1) =~= list@.take(i as int).push(list@[i as int]));
                }
                i = i + 1;
            }
            assert(list@.take(i as int) =~= list@);
        }
        r
    }

    /// Appends the edge `from -> to` of weight `weight` to the list of `from`.
    fn add_edge(&mut self, from: u64, to: u64, weight: u32)
        requires
            old(self).wf(),
        ensures
            final(self)@ == with_edge(old(self)@, from, to, weight),
            final(self).wf(),
    {
        let ghost g0 = self@;
        let mut list = match self.adj_list.remove(&from) {
            Some(l) => l,
            None => Vec::new(),
        };
        list.push((to, weight));
        self.adj_list.insert(from, list);
        if !self.adj_list.contains_key(&to) {
            self.adj_list.insert(to, Vec::new());
        }
        assert(self@ =~= with_edge(g0, from, to, weight));
        let ghost g = self@;
        assert forall|u: u64, k: int| g.contains_key(u) && 0 <= k < g[u].len() implies
            g.contains_key(#[trigger] g[u][k].0) by {
            if u == from && k == g0.get(from).unwrap_or(Seq::empty()).len() {
            } else if u != from && u != to {
                assert(g0[u][k] == g[u][k]);
            } else if u == from {
                assert(g0[u][k] == g[u][k]);
            }
        }
    }

    /// Adds the one-way edge `from -> to` of weight `weight_m` metres.
    pub fn add_edge_one_way(&mut self, from: u64, to: u64, weight_m: u32)
        requires
            old(self).wf(),
        ensures
            final(self)@ == with_edge(old(self)@, from, to, weight_m),
            final(self).wf(),
    {
        self.add_edge(from, to, weight_m);
    }

    /// Adds the edges `from -> to` and `to -> from`, both of weight
    /// `weight_m` metres.
    pub fn add_edge_two_way(&mut self, from: u64, to: u64, weight_m: u32)
        requires
            old(self).wf(),
        ensures
            final(self)@ == with_edge(with_edge(old(self)@, from, to, weight_m), to, from, weight_m),
            final(self).wf(),
    {
        self.add_edge(from, to, weight_m);
        self.add_edge(to, from, weight_m);
    }
    /// A path of least total weight from `start` to `end`, found by a
    /// priority-ordered search with lazy removal of stale queue entries.
    /// Empty where no walk leads from `start` to `end`; `[start]` where the
    /// two are the same node of the graph.
    pub fn find_shortest_path(&self, start: u64, end: u64) -> (path: Vec<u64>)
        requires
            self.wf(),
        ensures
            path@.len() > 0 ==> is_path_between(self@, path@, start, end),
            path@.len() > 0 ==> is_shortest_path(self@, path@, start, end),
            path@.no_duplicates(),
            path@.len() > 0 <==> reachable(self@, start, end),
            start == end && self@.contains_key(start) ==> path@ == seq![start],
    {
        let ghost g = self@;
        if !self.adj_list.contains_key(&start) {
            proof {
                assert forall|p: Seq<u64>| !is_path_between(g, p, start, end) by {
                    if is_path_between(g, p, start, end) {
                        assert(g.contains_key(p[0]));
                    }
                }
            }
            return Vec::new();
        }
        if start == end {
            let r = vec![start];
            proof {
                assert(is_path_between(g, r@, start, end));
                let ws = Seq::<u32>::empty();
                assert(is_weighted_walk(g, r@, ws));
                assert forall|p: Seq<u64>, qs: Seq<u32>|
                    #[trigger] is_weighted_walk(g, p, qs) && p[0] == start && p.last() == end
                    implies weight_sum(ws) <= weight_sum(qs) by {
                    lemma_weight_sum_nonneg(qs);
                }
            }
            return r;
        }
        let n_nodes = self.adj_list.len();
        assert(g.dom() =~= self.adj_list@.dom());
        let mut distances: HashMap<u64, u128> = HashMap::new();
        let mut predecessors: HashMap<u64, u64> = HashMap::new();
        let mut expanded: HashSet<u64> = HashSet::new();
        let mut queue: Vec<(u128, u64)> = Vec::new();
        let ghost mut hops: Map<u64, nat> = map![start => 0nat];
        let ghost mut last: int = 0;
        let mut found = false;
        distances.insert(start, 0);
        queue.push((0, start));
        proof {
            assert(hops.dom() =~= distances@.dom());
            assert(queue@[0] == (0u128, start));
            assert(queued(queue@, 0, start));
            assert(queue@ =~= seq![(0u128, start)]);
            assert(expanded@ =~= Set::<u64>::empty());
        }
        while !found && queue.len() > 0
            invariant
                self.wf(),
                g == self@,
                n_nodes == g.dom().len(),
                g.dom().finite(),
                start != end,
                search_inv(
                    g,
                    start,
                    distances@,
                    predecessors@,
                    expanded@,
                    queue@,
                    hops,
                    None,
                    last,
                ),
                expanded@.contains(start) || (expanded@ == Set::<u64>::empty() && queue@ == seq![
                    (0u128, start),
                ]),
                !expanded@.contains(end),
                !found ==> all_open_queued(distances@, expanded@, queue@),
                found ==> distances@.contains_key(end),
                found ==> walk_cost_at_least(g, start, end, distances@[end] as int),
            decreases g.dom().difference(expanded@).len(), queue@.len(),
        {
            let ghost q0 = queue@;
            let ghost ex0 = expanded@;
            let (cost, node) = pop_min(&mut queue);
            let ghost i = choose|i: int|
                0 <= i < q0.len() && q0[i] == (cost, node) && queue@ == q0.remove(i);
            proof {
                lemma_queue_remove_bounds(distances@, q0, i);
                assert(last <= q0[i].0);
                assert forall|j: int| 0 <= j < queue@.len() implies cost <= (#[trigger] queue@[j]).0 by {
                    if j < i {
                        assert(queue@[j] == q0[j]);
                        assert(entry_le((cost, node), q0[j]));
                    } else {
                        assert(queue@[j] == q0[j + 1]);
                        assert(entry_le((cost, node), q0[j + 1]));
                    }
                }
                assert forall|j: int| 0 <= j < q0.len() implies cost <= (#[trigger] q0[j]).0 by {
                    assert(entry_le((cost, node), q0[j]));
                }
                if ex0 == Set::<u64>::empty() {
                    assert(q0.len() == 1);
                    assert(i == 0);
                }
                last = cost as int;
            }
            if node == end {
                found = true;
                proof {
                    assert forall|p: Seq<u64>, ws: Seq<u32>|
                        #[trigger] is_weighted_walk(g, p, ws) && p[0] == start && p.last() == end
                        implies distances@[end] <= weight_sum(ws) by {
                        lemma_walk_cost_at_least(g, start, distances@, ex0, q0, cost as int, p, ws);
                    }
                }
            } else {
                let best = match distances.get(&node) {
                    Some(d) => *d,
                    None => 0,
                };
                proof {
                    assert forall|v: u64| #[trigger]
                        distances@.contains_key(v) && !expanded@.contains(v) && (distances@[v], v)
                            != (cost, node) implies queued(queue@, distances@[v], v) by {
                        lemma_queue_remove_keeps(q0, i, distances@[v], v);
                    }
                }
                // A node is expanded once: with weights that are never
                // negative no later entry for it is cheaper.
                if cost <= best && !expanded.contains(&node) {
                    proof {
                        vstd::set_lib::lemma_len_subset(ex0, g.dom());
                        assert forall|p: Seq<u64>, ws: Seq<u32>|
                            #[trigger] is_weighted_walk(g, p, ws) && p[0] == start && p.last()
                                == node implies cost <= weight_sum(ws) by {
                            if node == start {
                                lemma_weight_sum_nonneg(ws);
                            } else {
                                lemma_walk_cost_at_least(
                                    g,
                                    start,
                                    distances@,
                                    ex0,
                                    q0,
                                    cost as int,
                                    p,
                                    ws,
                                );
                            }
                        }
                    }
                    expanded.insert(node);
                    proof {
                        assert(g.dom().difference(ex0).contains(node));
                        assert(g.dom().difference(expanded@) =~= g.dom().difference(ex0).remove(
                            node,
                        ));
                    }
                    if let Some(neighbours) = self.adj_list.get(&node) {
                        let mut k: usize = 0;
                        while k < neighbours.len()
                            invariant
                                self.wf(),
                                g == self@,
                                n_nodes == g.dom().len(),
                                g.dom().finite(),
                                start != end,
                                ex0.len() < n_nodes + 1,
                                ex0.finite(),
                                expanded@ == ex0.insert(node),
                                expanded@.contains(start),
                                !ex0.contains(node),
                                node != end,
                                !expanded@.contains(end),
                                neighbours@ == g[node],
                                search_inv(
                                    g,
                                    start,
                                    distances@,
                                    predecessors@,
                                    expanded@,
                                    queue@,
                                    hops,
                                    Some(node),
                                    last,
                                ),
                                all_open_queued(distances@, expanded@, queue@),
                                distances@.contains_key(node),
                                distances@[node] == cost,
                                last == cost,
                                hops[node] <= ex0.len(),
                                forall|kk: int|
                                    0 <= kk < k ==> distances@.contains_key(
                                        (#[trigger] g[node][kk]).0,
                                    ) && distances@[g[node][kk].0] <= cost + g[node][kk].1,
                            decreases neighbours.len() - k,
                        {
                            let (next, weight) = neighbours[k];
                            proof {
                                let h = hops[node];
                                assert(h * MAX_WEIGHT <= n_nodes * MAX_WEIGHT) by (nonlinear_arith)
                                    requires
                                        h <= n_nodes,
                                ;
                                assert(neighbours@[k as int] == g[node][k as int]);
                            }
                            let new_cost = cost + weight as u128;
                            let known = match distances.get(&next) {
                                Some(d) => *d,
                                None => u128::MAX,
                            };
                            if new_cost < known {
                                let ghost dd0 = distances@;
                                let ghost pp0 = predecessors@;
                                let ghost qq0 = queue@;
                                let ghost h0 = hops;
                                assert(expanded@.len() == ex0.len() + 1);
                                assert(has_edge(g, node, next, weight));
                                distances.insert(next, new_cost);
                                predecessors.insert(next, node);
                                queue.push((new_cost, next));
                                proof {
                                    hops = hops.insert(next, hops[node] + 1);
                                    lemma_relax_keeps(
                                        g,
                                        start,
                                        dd0,
                                        pp0,
                                        expanded@,
                                        qq0,
                                        h0,
                                        last,
                                        node,
                                        next,
                                        weight,
                                    );
                                    assert forall|kk: int|
                                        0 <= kk < k + 1 implies distances@.contains_key(
                                            (#[trigger] g[node][kk]).0,
                                        ) && distances@[g[node][kk].0] <= cost + g[node][kk].1 by {
                                        assert(dd0.contains_key(g[node][kk].0) || kk == k);
                                    }
                                }
                            }
                            k = k + 1;
                        }
                    }
                }
            }
        }
        proof {
            if !found {
                assert forall|v: u64, k: int|
                    #![trigger distances@.dom().contains(v), g[v][k]]
                    distances@.dom().contains(v) && g.contains_key(v) && 0 <= k < g[v].len()
                    implies distances@.dom().contains(g[v][k].0) by {
                    if !expanded@.contains(v) {
                        assert(queued(queue@, distances@[v], v));
                    }
                    assert(targets_known(g, distances@, v));
                }
                assert(closed_under_edges(g, distances@.dom()));
            }
        }
        let mut walk: Vec<u64> = Vec::new();
        let ghost mut wrev: Seq<u32> = Seq::empty();
        let mut current = end;
        while predecessors.contains_key(&current)
            invariant
                search_inv(
                    g,
                    start,
                    distances@,
                    predecessors@,
                    expanded@,
                    queue@,
                    hops,
                    None,
                    last,
                ),
                walk@.len() == 0 ==> current == end,
                walk@.len() > 0 ==> walk@[0] == end && distances@.contains_key(current) && has_edge(
                    g,
                    current,
                    walk@.last(),
                    wrev.last(),
                ),
                walk@.len() > 0 ==> distances@.contains_key(end) && weight_sum(wrev)
                    + distances@[current] <= distances@[end],
                wrev.len() == walk@.len(),
                forall|i: int| 0 <= i < walk@.len() ==> g.contains_key(#[trigger] walk@[i]),
                forall|i: int|
                    0 <= i < walk@.len() - 1 ==> #[trigger] has_edge(
                        g,
                        walk@[i + 1],
                        walk@[i],
                        wrev[i],
                    ),
                forall|i: int|
                    0 <= i < walk@.len() ==> #[trigger] key_lt(distances@, hops, current, walk@[i]),
                forall|i: int, j: int|
                    0 <= i < j < walk@.len() ==> #[trigger] key_lt(
                        distances@,
                        hops,
                        walk@[j],
                        walk@[i],
                    ),
            decreases distances@[current], hops[current],
        {
            let ghost before = current;
            match predecessors.get(&current) {
                Some(prev) => {
                    walk.push(current);
                    current = *prev;
                },
                None => {},
            }
            proof {
                assert(pred_ok(g, distances@, hops, current, before));
                let w = choose|w: u32|
                    #[trigger] has_edge(g, current, before, w) && distances@[current] + w
                        <= distances@[before];
                assert forall|i: int| 0 <= i < walk@.len() implies #[trigger] key_lt(
                    distances@,
                    hops,
                    current,
                    walk@[i],
                ) by {
                    if i < walk@.len() - 1 {
                        assert(key_lt(distances@, hops, before, walk@[i]));
                    }
                }
                assert forall|i: int, j: int| 0 <= i < j < walk@.len() implies #[trigger] key_lt(
                    distances@,
                    hops,
                    walk@[j],
                    walk@[i],
                ) by {
                    if j == walk@.len() - 1 {
                        assert(key_lt(distances@, hops, before, walk@[i]));
                    }
                }
                let w0 = wrev;
                wrev = wrev.push(w);
                assert(wrev.drop_last() =~= w0);
                assert(weight_sum(wrev) == weight_sum(w0) + w);
                assert(weight_sum(Seq::<u32>::empty()) == 0);
                assert(distances@.contains_key(end));
                assert forall|i: int| 0 <= i < walk@.len() - 1 implies #[trigger] has_edge(
                    g,
                    walk@[i + 1],
                    walk@[i],
                    wrev[i],
                ) by {
                    if i < walk@.len() - 2 {
                        assert(wrev[i] == w0[i]);
                    }
                }
            }
        }
        if walk.len() == 0 {
            proof {
                if found {
                    assert(predecessors@.contains_key(end));
                }
                assert forall|p: Seq<u64>| !is_path_between(g, p, start, end) by {
                    if is_path_between(g, p, start, end) {
                        lemma_closed_holds_walk_end(g, distances@.dom(), p);
                    }
                }
            }
            return Vec::new();
        }
        assert(current == start);
        proof {
            if !found {
                assert(distances@.contains_key(end));
                assert(queued(queue@, distances@[end], end));
            }
        }
        let mut path: Vec<u64> = vec![start];
        let ghost mut ws: Seq<u32> = Seq::empty();
        proof {
            assert(wrev.take(walk@.len() as int) =~= wrev);
            assert(weight_sum(ws) == 0);
        }
        let mut i: usize = walk.len();
        while i > 0
            invariant
                0 <= i <= walk@.len(),
                wrev.len() == walk@.len(),
                path@.len() == walk@.len() - i + 1,
                ws.len() == path@.len() - 1,
                path@[0] == start,
                forall|j: int| 1 <= j < path@.len() ==> #[trigger] path@[j] == walk@[walk@.len() - j],
                forall|j: int| 0 <= j < ws.len() ==> #[trigger] ws[j] == wrev[walk@.len() - 1 - j],
                weight_sum(ws) + weight_sum(wrev.take(i as int)) == weight_sum(wrev),
            decreases i,
        {
            i = i - 1;
            path.push(walk[i]);
            proof {
                let w0 = ws;
                ws = ws.push(wrev[i as int]);
                assert(ws.drop_last() =~= w0);
                assert(wrev.take(i + 1).drop_last() =~= wrev.take(i as int));
                assert(wrev.take(i + 1).last() == wrev[i as int]);
            }
        }
        proof {
            let n = walk@.len() as int;
            assert(wrev.take(0) =~= Seq::<u32>::empty());
            assert forall|j: int| 0 <= j < path@.len() implies g.contains_key(#[trigger] path@[j]) by {
                if j > 0 {
                    assert(g.contains_key(walk@[n - j]));
                }
            }
            assert forall|j: int| 0 <= j < ws.len() implies #[trigger] has_edge(
                g,
                path@[j],
                path@[j + 1],
                ws[j],
            ) by {
                assert(path@[j + 1] == walk@[n - j - 1]);
                if j > 0 {
                    assert(path@[j] == walk@[n - j]);
                    assert(has_edge(g, walk@[(n - j - 1) + 1], walk@[n - j - 1], wrev[n - j - 1]));
                }
            }
            assert(is_weighted_walk(g, path@, ws));
            assert forall|a: int, b: int| 0 <= a < b < path@.len() implies path@[a] != path@[b] by {
                if a == 0 {
                    assert(key_lt(distances@, hops, current, walk@[n - b]));
                } else {
                    assert(key_lt(distances@, hops, walk@[n - a], walk@[n - b]));
                }
            }
            assert(path@.no_duplicates());
            assert forall|j: int| 0 <= j < path@.len() - 1 implies #[trigger] adjacent(
                g,
                path@[j],
                path@[j + 1],
            ) by {
                assert(has_edge(g, path@[j], path@[j + 1], ws[j]));
                lemma_adjacent_has_edge(g, path@[j], path@[j + 1]);
            }
            assert(path@.last() == walk@[0]);
            assert(is_path_between(g, path@, start, end));
            assert(walk_cost_at_least(g, start, end, weight_sum(ws)));
        }
        path
    }
}

} // verus!
