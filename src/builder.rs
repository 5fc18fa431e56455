//! Building the graph from a dataset, and what the built graph satisfies.
use crate::graph::{
    adjacent, has_edge, is_path, is_path_between, is_shortest_path, is_weighted_walk,
    lemma_adjacent_has_edge, reachable, walk_cost_at_least, weight_sum,
    targets_are_nodes, with_edge, Adjacency, Graph,
};
use crate::osm_data::{is_oneway, node_map, tags_say_oneway, GeoPoint, OSMData, Way};
use std::collections::HashMap;
use vstd::prelude::*;

verus! {

broadcast use vstd::std_specs::hash::group_hash_axioms;

/// Both ends of the segment at position `j` of way `wi` are known nodes.
pub open spec fn segment_ok(ways: Seq<Way>, nm: Map<u64, GeoPoint>, wi: int, j: int) -> bool {
    &&& 0 <= wi < ways.len()
    &&& 0 <= j
    &&& j + 1 < ways[wi].nodes@.len()
    &&& nm.contains_key(ways[wi].nodes@[j])
    &&& nm.contains_key(ways[wi].nodes@[j + 1])
}

/// The distance function may answer `w` for the segment at position `j` of
/// way `wi`.
pub open spec fn segment_weight<F: Fn(GeoPoint, GeoPoint) -> u32>(
    ways: Seq<Way>,
    nm: Map<u64, GeoPoint>,
    distance: F,
    wi: int,
    j: int,
    w: u32,
) -> bool {
    distance.ensures((nm[ways[wi].nodes@[j]], nm[ways[wi].nodes@[j + 1]]), w)
}

/// The segment at position `j` of way `wi` yields the edge `u -> v` of
/// weight `w`: forward always, backward unless the way is one-way.
pub open spec fn segment_yields<F: Fn(GeoPoint, GeoPoint) -> u32>(
    ways: Seq<Way>,
    nm: Map<u64, GeoPoint>,
    distance: F,
    wi: int,
    j: int,
    u: u64,
    v: u64,
    w: u32,
) -> bool {
    let a = ways[wi].nodes@[j];
    let b = ways[wi].nodes@[j + 1];
    &&& segment_ok(ways, nm, wi, j)
    &&& segment_weight(ways, nm, distance, wi, j, w)
    &&& ((u == a && v == b) || (!tags_say_oneway(ways[wi].tags@) && u == b && v == a))
}

/// The graph holds the edges that the segment at position `j` of way `wi`
/// yields, with one weight `w` that the distance function gave for it.
pub open spec fn segment_present<F: Fn(GeoPoint, GeoPoint) -> u32>(
    g: Adjacency,
    ways: Seq<Way>,
    nm: Map<u64, GeoPoint>,
    distance: F,
    wi: int,
    j: int,
    w: u32,
) -> bool {
    let a = ways[wi].nodes@[j];
    let b = ways[wi].nodes@[j + 1];
    &&& segment_weight(ways, nm, distance, wi, j, w)
    &&& has_edge(g, a, b, w)
    &&& (!tags_say_oneway(ways[wi].tags@) ==> has_edge(g, b, a, w))
}

/// `x` is an end of the segment at position `j` of way `wi`, and that
/// segment is usable.
pub open spec fn segment_touches(
    ways: Seq<Way>,
    nm: Map<u64, GeoPoint>,
    wi: int,
    j: int,
    x: u64,
) -> bool {
    segment_ok(ways, nm, wi, j) && (x == ways[wi].nodes@[j] || x == ways[wi].nodes@[j + 1])
}

/// Segment `(wi, j)` comes before segment `(wi_end, j_end)`.
pub open spec fn segment_before(wi: int, j: int, wi_end: int, j_end: int) -> bool {
    wi < wi_end || (wi == wi_end && j < j_end)
}

/// Each edge of `g` comes from a segment before `(wi_end, j_end)`.
#[verifier::opaque]
pub open spec fn edges_from_segments<F: Fn(GeoPoint, GeoPoint) -> u32>(
    g: Adjacency,
    ways: Seq<Way>,
    nm: Map<u64, GeoPoint>,
    distance: F,
    wi_end: int,
    j_end: int,
) -> bool {
    forall|u: u64, v: u64, w: u32| #[trigger]
        has_edge(g, u, v, w) ==> exists|wi: int, j: int|
            segment_before(wi, j, wi_end, j_end) && #[trigger] segment_yields(
                ways,
                nm,
                distance,
                wi,
                j,
                u,
                v,
                w,
            )
}

/// Each usable segment before `(wi_end, j_end)` has its edges in `g`.
#[verifier::opaque]
pub open spec fn segments_in_graph<F: Fn(GeoPoint, GeoPoint) -> u32>(
    g: Adjacency,
    ways: Seq<Way>,
    nm: Map<u64, GeoPoint>,
    distance: F,
    wi_end: int,
    j_end: int,
) -> bool {
    forall|wi: int, j: int|
        segment_before(wi, j, wi_end, j_end) && #[trigger] segment_ok(ways, nm, wi, j)
            ==> exists|w: u32| #[trigger] segment_present(g, ways, nm, distance, wi, j, w)
}

/// The nodes of `g` are the ends of the usable segments before
/// `(wi_end, j_end)`.
#[verifier::opaque]
pub open spec fn nodes_from_segments(
    g: Adjacency,
    ways: Seq<Way>,
    nm: Map<u64, GeoPoint>,
    wi_end: int,
    j_end: int,
) -> bool {
    forall|x: u64| #[trigger]
        g.contains_key(x) <==> exists|wi: int, j: int|
            segment_before(wi, j, wi_end, j_end) && #[trigger] segment_touches(ways, nm, wi, j, x)
}

/// `g` is the graph of the segments before `(wi_end, j_end)`: each edge comes
/// from one of them, each of them is present, and the nodes are exactly
/// their ends.
pub open spec fn built_upto<F: Fn(GeoPoint, GeoPoint) -> u32>(
    g: Adjacency,
    ways: Seq<Way>,
    nm: Map<u64, GeoPoint>,
    distance: F,
    wi_end: int,
    j_end: int,
) -> bool {
    &&& targets_are_nodes(g)
    &&& edges_from_segments(g, ways, nm, distance, wi_end, j_end)
    &&& segments_in_graph(g, ways, nm, distance, wi_end, j_end)
    &&& nodes_from_segments(g, ways, nm, wi_end, j_end)
}

/// `g` is the graph that `data` yields under `distance`.
pub open spec fn built_from<F: Fn(GeoPoint, GeoPoint) -> u32>(
    g: Adjacency,
    data: OSMData,
    distance: F,
) -> bool {
    built_upto(g, data.ways@, node_map(data.nodes@), distance, data.ways@.len() as int, 0)
}

/// The number of segments of way `wi`: one fewer than its nodes, none for a
/// way of fewer than two.
pub open spec fn seg_count(ways: Seq<Way>, wi: int) -> int {
    if ways[wi].nodes@.len() >= 1 {
        ways[wi].nodes@.len() - 1
    } else {
        0
    }
}

/// `g` with the edges of segment `(wi, j)` appended at weight `w`: forward,
/// and backward too unless the way is one-way. `g` itself where an end of
/// the segment is unknown.
pub open spec fn add_segment(
    g: Adjacency,
    ways: Seq<Way>,
    nm: Map<u64, GeoPoint>,
    wi: int,
    j: int,
    w: u32,
) -> Adjacency {
    let a = ways[wi].nodes@[j];
    let b = ways[wi].nodes@[j + 1];
    if !segment_ok(ways, nm, wi, j) {
        g
    } else if tags_say_oneway(ways[wi].tags@) {
        with_edge(g, a, b, w)
    } else {
        with_edge(with_edge(g, a, b, w), b, a, w)
    }
}

/// The graph of the segments before `(wi, j)`, added one after another in
/// the order of the ways and of their nodes, segment `(x, y)` at weight
/// `wt[(x, y)]`.
pub open spec fn graph_upto(
    ways: Seq<Way>,
    nm: Map<u64, GeoPoint>,
    wt: Map<(int, int), u32>,
    wi: int,
    j: int,
) -> Adjacency
    decreases wi, j,
{
    if wi <= 0 && j <= 0 {
        Map::empty()
    } else if j <= 0 {
        graph_upto(ways, nm, wt, wi - 1, seg_count(ways, wi - 1))
    } else {
        add_segment(graph_upto(ways, nm, wt, wi, j - 1), ways, nm, wi, j - 1, wt[(wi, j - 1)])
    }
}

/// `g` is the graph of `data`, built segment by segment in order, each
/// usable segment at a weight that `distance` gave for its two coordinates.
pub open spec fn built_in_order<F: Fn(GeoPoint, GeoPoint) -> u32>(
    g: Adjacency,
    data: OSMData,
    distance: F,
) -> bool {
    exists|wt: Map<(int, int), u32>|
        #[trigger] graph_upto(data.ways@, node_map(data.nodes@), wt, data.ways@.len() as int, 0)
            == g && forall|x: int, y: int|
            #[trigger] segment_ok(data.ways@, node_map(data.nodes@), x, y) ==> segment_weight(
                data.ways@,
                node_map(data.nodes@),
                distance,
                x,
                y,
                wt[(x, y)],
            )
}

/// Weights that agree on the usable segments before `(wi, j)` give the same
/// graph of those segments.
proof fn lemma_graph_upto_frame(
    ways: Seq<Way>,
    nm: Map<u64, GeoPoint>,
    wt1: Map<(int, int), u32>,
    wt2: Map<(int, int), u32>,
    wi: int,
    j: int,
)
    requires
        forall|x: int, y: int|
            segment_before(x, y, wi, j) && #[trigger] segment_ok(ways, nm, x, y) ==> wt1[(x, y)]
                == wt2[(x, y)],
    ensures
        graph_upto(ways, nm, wt1, wi, j) == graph_upto(ways, nm, wt2, wi, j),
    decreases wi, j,
{
    if wi <= 0 && j <= 0 {
    } else if j <= 0 {
        assert forall|x: int, y: int|
            segment_before(x, y, wi - 1, seg_count(ways, wi - 1)) && #[trigger] segment_ok(
                ways,
                nm,
                x,
                y,
            ) implies wt1[(x, y)] == wt2[(x, y)] by {
            assert(segment_before(x, y, wi, j));
        }
        lemma_graph_upto_frame(ways, nm, wt1, wt2, wi - 1, seg_count(ways, wi - 1));
    } else {
        assert forall|x: int, y: int|
            segment_before(x, y, wi, j - 1) && #[trigger] segment_ok(ways, nm, x, y) implies wt1[(
                x,
                y,
            )] == wt2[(x, y)] by {
            assert(segment_before(x, y, wi, j));
        }
        lemma_graph_upto_frame(ways, nm, wt1, wt2, wi, j - 1);
        if segment_ok(ways, nm, wi, j - 1) {
            assert(segment_before(wi, j - 1, wi, j));
        }
    }
}

/// Building twice from the same dataset, with a distance function that
/// answers each pair of coordinates in one way only, gives the very same
/// graph: the same nodes and the same edge lists, in the same order.
pub proof fn lemma_rebuild_identical<F: Fn(GeoPoint, GeoPoint) -> u32>(
    g1: Adjacency,
    g2: Adjacency,
    data: OSMData,
    distance: F,
)
    requires
        built_in_order(g1, data, distance),
        built_in_order(g2, data, distance),
        forall|a: GeoPoint, b: GeoPoint, w1: u32, w2: u32|
            distance.ensures((a, b), w1) && distance.ensures((a, b), w2) ==> w1 == w2,
    ensures
        g1 == g2,
{
    let ways = data.ways@;
    let nm = node_map(data.nodes@);
    let n = ways.len() as int;
    let wt1 = choose|wt: Map<(int, int), u32>|
        #[trigger] graph_upto(ways, nm, wt, n, 0) == g1 && forall|x: int, y: int|
            #[trigger] segment_ok(ways, nm, x, y) ==> segment_weight(ways, nm, distance, x, y, wt[(x, y)]);
    let wt2 = choose|wt: Map<(int, int), u32>|
        #[trigger] graph_upto(ways, nm, wt, n, 0) == g2 && forall|x: int, y: int|
            #[trigger] segment_ok(ways, nm, x, y) ==> segment_weight(ways, nm, distance, x, y, wt[(x, y)]);
    assert forall|x: int, y: int|
        segment_before(x, y, n, 0) && #[trigger] segment_ok(ways, nm, x, y) implies wt1[(x, y)]
            == wt2[(x, y)] by {
        assert(segment_weight(ways, nm, distance, x, y, wt1[(x, y)]));
        assert(segment_weight(ways, nm, distance, x, y, wt2[(x, y)]));
    }
    lemma_graph_upto_frame(ways, nm, wt1, wt2, n, 0);
}

/// The edges of `g` after adding `a -> b` are those before and that one.
proof fn lemma_with_edge_has(g: Adjacency, a: u64, b: u64, w: u32, u: u64, v: u64, x: u32)
    ensures
        has_edge(with_edge(g, a, b, w), u, v, x) <==> (has_edge(g, u, v, x) || (u == a && v == b
            && x == w)),
        with_edge(g, a, b, w).dom() == g.dom().insert(a).insert(b),
{
    let g1 = with_edge(g, a, b, w);
    if has_edge(g1, u, v, x) && !(u == a && v == b && x == w) {
        let k = choose|k: int| 0 <= k < g1[u].len() && #[trigger] g1[u][k] == (v, x);
        if u == a {
            if g.contains_key(a) {
                assert(g[u][k] == (v, x));
            } else {
                assert(false);
            }
        } else if u == b && !g.contains_key(b) {
        } else {
            assert(g[u][k] == (v, x));
        }
    }
    if has_edge(g, u, v, x) {
        let k = choose|k: int| 0 <= k < g[u].len() && #[trigger] g[u][k] == (v, x);
        assert(g1[u][k] == (v, x));
    }
    if u == a && v == b && x == w {
        let k = g1[a].len() - 1;
        assert(g1[u][k] == (v, x));
    }
    assert(g1.dom() =~= g.dom().insert(a).insert(b));
}

/// `g1` is `g0` with the edges of segment `(wi, j)` added, of weight `w`.
spec fn segment_added(g0: Adjacency, g1: Adjacency, ways: Seq<Way>, wi: int, j: int, w: u32) -> bool {
    let a = ways[wi].nodes@[j];
    let b = ways[wi].nodes@[j + 1];
    if tags_say_oneway(ways[wi].tags@) {
        g1 == with_edge(g0, a, b, w)
    } else {
        g1 == with_edge(with_edge(g0, a, b, w), b, a, w)
    }
}

/// Adding the edges of segment `(wi, j)` extends a graph of the segments
/// before it to one of the segments up to it.
proof fn lemma_segment_added<F: Fn(GeoPoint, GeoPoint) -> u32>(
    g0: Adjacency,
    g1: Adjacency,
    ways: Seq<Way>,
    nm: Map<u64, GeoPoint>,
    distance: F,
    wi: int,
    j: int,
    w: u32,
)
    requires
        segment_ok(ways, nm, wi, j),
        segment_weight(ways, nm, distance, wi, j, w),
        segment_added(g0, g1, ways, wi, j, w),
        built_upto(g0, ways, nm, distance, wi, j),
        targets_are_nodes(g1),
    ensures
        built_upto(g1, ways, nm, distance, wi, j + 1),
{
    lemma_added_edges(g0, g1, ways, nm, distance, wi, j, w);
    lemma_added_present(g0, g1, ways, nm, distance, wi, j, w);
    lemma_added_nodes(g0, g1, ways, nm, distance, wi, j, w);
}

proof fn lemma_added_edges<F: Fn(GeoPoint, GeoPoint) -> u32>(
    g0: Adjacency,
    g1: Adjacency,
    ways: Seq<Way>,
    nm: Map<u64, GeoPoint>,
    distance: F,
    wi: int,
    j: int,
    w: u32,
)
    requires
        segment_ok(ways, nm, wi, j),
        segment_weight(ways, nm, distance, wi, j, w),
        segment_added(g0, g1, ways, wi, j, w),
        edges_from_segments(g0, ways, nm, distance, wi, j),
    ensures
        edges_from_segments(g1, ways, nm, distance, wi, j + 1),
{
    reveal(edges_from_segments);
    let a = ways[wi].nodes@[j];
    let b = ways[wi].nodes@[j + 1];
    let gm = with_edge(g0, a, b, w);
    assert forall|u: u64, v: u64, x: u32| #[trigger] has_edge(g1, u, v, x) implies exists|
        wi2: int,
        j2: int,
    |
        segment_before(wi2, j2, wi, j + 1) && #[trigger] segment_yields(
            ways,
            nm,
            distance,
            wi2,
            j2,
            u,
            v,
            x,
        ) by {
        lemma_with_edge_has(g0, a, b, w, u, v, x);
        lemma_with_edge_has(gm, b, a, w, u, v, x);
        if has_edge(g0, u, v, x) {
            let (wi2, j2) = choose|wi2: int, j2: int|
                segment_before(wi2, j2, wi, j) && #[trigger] segment_yields(
                    ways,
                    nm,
                    distance,
                    wi2,
                    j2,
                    u,
                    v,
                    x,
                );
            assert(segment_before(wi2, j2, wi, j + 1));
        } else {
            assert(segment_yields(ways, nm, distance, wi, j, u, v, x));
            assert(segment_before(wi, j, wi, j + 1));
        }
    }
}

proof fn lemma_added_present<F: Fn(GeoPoint, GeoPoint) -> u32>(
    g0: Adjacency,
    g1: Adjacency,
    ways: Seq<Way>,
    nm: Map<u64, GeoPoint>,
    distance: F,
    wi: int,
    j: int,
    w: u32,
)
    requires
        segment_ok(ways, nm, wi, j),
        segment_weight(ways, nm, distance, wi, j, w),
        segment_added(g0, g1, ways, wi, j, w),
        segments_in_graph(g0, ways, nm, distance, wi, j),
    ensures
        segments_in_graph(g1, ways, nm, distance, wi, j + 1),
{
    reveal(segments_in_graph);
    let a = ways[wi].nodes@[j];
    let b = ways[wi].nodes@[j + 1];
    let gm = with_edge(g0, a, b, w);
    assert forall|wi2: int, j2: int|
        segment_before(wi2, j2, wi, j + 1) && #[trigger] segment_ok(ways, nm, wi2, j2) implies exists|
        x: u32,
    | #[trigger] segment_present(g1, ways, nm, distance, wi2, j2, x) by {
        if wi2 == wi && j2 == j {
            lemma_with_edge_has(g0, a, b, w, a, b, w);
            lemma_with_edge_has(gm, b, a, w, a, b, w);
            lemma_with_edge_has(gm, b, a, w, b, a, w);
            assert(segment_present(g1, ways, nm, distance, wi2, j2, w));
        } else {
            assert(segment_before(wi2, j2, wi, j));
            let x = choose|x: u32| #[trigger] segment_present(g0, ways, nm, distance, wi2, j2, x);
            let a2 = ways[wi2].nodes@[j2];
            let b2 = ways[wi2].nodes@[j2 + 1];
            lemma_with_edge_has(g0, a, b, w, a2, b2, x);
            lemma_with_edge_has(gm, b, a, w, a2, b2, x);
            lemma_with_edge_has(g0, a, b, w, b2, a2, x);
            lemma_with_edge_has(gm, b, a, w, b2, a2, x);
            assert(segment_present(g1, ways, nm, distance, wi2, j2, x));
        }
    }
}

proof fn lemma_added_nodes<F: Fn(GeoPoint, GeoPoint) -> u32>(
    g0: Adjacency,
    g1: Adjacency,
    ways: Seq<Way>,
    nm: Map<u64, GeoPoint>,
    distance: F,
    wi: int,
    j: int,
    w: u32,
)
    requires
        segment_ok(ways, nm, wi, j),
        segment_weight(ways, nm, distance, wi, j, w),
        segment_added(g0, g1, ways, wi, j, w),
        nodes_from_segments(g0, ways, nm, wi, j),
    ensures
        nodes_from_segments(g1, ways, nm, wi, j + 1),
{
    reveal(nodes_from_segments);
    let a = ways[wi].nodes@[j];
    let b = ways[wi].nodes@[j + 1];
    let gm = with_edge(g0, a, b, w);
    lemma_with_edge_has(g0, a, b, w, a, b, w);
    lemma_with_edge_has(gm, b, a, w, a, b, w);
    assert(g1.dom() == g0.dom().insert(a).insert(b));
    assert forall|x: u64| #[trigger] g1.contains_key(x) <==> exists|wi2: int, j2: int|
        segment_before(wi2, j2, wi, j + 1) && #[trigger] segment_touches(ways, nm, wi2, j2, x) by {
        if g1.contains_key(x) {
            if x == a || x == b {
                assert(segment_touches(ways, nm, wi, j, x));
                assert(segment_before(wi, j, wi, j + 1));
            } else {
                assert(g0.contains_key(x));
                let (wi2, j2) = choose|wi2: int, j2: int|
                    segment_before(wi2, j2, wi, j) && #[trigger] segment_touches(
                        ways,
                        nm,
                        wi2,
                        j2,
                        x,
                    );
                assert(segment_before(wi2, j2, wi, j + 1));
            }
        }
        if exists|wi2: int, j2: int|
            segment_before(wi2, j2, wi, j + 1) && #[trigger] segment_touches(ways, nm, wi2, j2, x) {
            let (wi2, j2) = choose|wi2: int, j2: int|
                segment_before(wi2, j2, wi, j + 1) && #[trigger] segment_touches(
                    ways,
                    nm,
                    wi2,
                    j2,
                    x,
                );
            if !(wi2 == wi && j2 == j) {
                assert(segment_before(wi2, j2, wi, j));
                assert(g0.contains_key(x));
            }
        }
    }
}

/// A graph of the segments before `(wi, j)` is one of the segments before
/// any later position up to which no usable segment lies.
proof fn lemma_skip_segments<F: Fn(GeoPoint, GeoPoint) -> u32>(
    g: Adjacency,
    ways: Seq<Way>,
    nm: Map<u64, GeoPoint>,
    distance: F,
    wi: int,
    j: int,
    wi_end: int,
    j_end: int,
)
    requires
        built_upto(g, ways, nm, distance, wi, j),
        forall|wi2: int, j2: int|
            segment_before(wi2, j2, wi_end, j_end) && !segment_before(wi2, j2, wi, j)
                ==> !#[trigger] segment_ok(ways, nm, wi2, j2),
        !segment_before(wi_end, j_end, wi, j),
    ensures
        built_upto(g, ways, nm, distance, wi_end, j_end),
{
    lemma_skip_edges(g, ways, nm, distance, wi, j, wi_end, j_end);
    lemma_skip_present(g, ways, nm, distance, wi, j, wi_end, j_end);
    lemma_skip_nodes(g, ways, nm, wi, j, wi_end, j_end);
}

proof fn lemma_skip_edges<F: Fn(GeoPoint, GeoPoint) -> u32>(
    g: Adjacency,
    ways: Seq<Way>,
    nm: Map<u64, GeoPoint>,
    distance: F,
    wi: int,
    j: int,
    wi_end: int,
    j_end: int,
)
    requires
        edges_from_segments(g, ways, nm, distance, wi, j),
        !segment_before(wi_end, j_end, wi, j),
    ensures
        edges_from_segments(g, ways, nm, distance, wi_end, j_end),
{
    reveal(edges_from_segments);
    assert forall|u: u64, v: u64, x: u32| #[trigger] has_edge(g, u, v, x) implies exists|
        wi2: int,
        j2: int,
    |
        segment_before(wi2, j2, wi_end, j_end) && #[trigger] segment_yields(
            ways,
            nm,
            distance,
            wi2,
            j2,
            u,
            v,
            x,
        ) by {
        let (wi2, j2) = choose|wi2: int, j2: int|
            segment_before(wi2, j2, wi, j) && #[trigger] segment_yields(
                ways,
                nm,
                distance,
                wi2,
                j2,
                u,
                v,
                x,
            );
        assert(segment_before(wi2, j2, wi_end, j_end));
    }
}

proof fn lemma_skip_present<F: Fn(GeoPoint, GeoPoint) -> u32>(
    g: Adjacency,
    ways: Seq<Way>,
    nm: Map<u64, GeoPoint>,
    distance: F,
    wi: int,
    j: int,
    wi_end: int,
    j_end: int,
)
    requires
        segments_in_graph(g, ways, nm, distance, wi, j),
        forall|wi2: int, j2: int|
            segment_before(wi2, j2, wi_end, j_end) && !segment_before(wi2, j2, wi, j)
                ==> !#[trigger] segment_ok(ways, nm, wi2, j2),
    ensures
        segments_in_graph(g, ways, nm, distance, wi_end, j_end),
{
    reveal(segments_in_graph);
}

proof fn lemma_skip_nodes(
    g: Adjacency,
    ways: Seq<Way>,
    nm: Map<u64, GeoPoint>,
    wi: int,
    j: int,
    wi_end: int,
    j_end: int,
)
    requires
        nodes_from_segments(g, ways, nm, wi, j),
        forall|wi2: int, j2: int|
            segment_before(wi2, j2, wi_end, j_end) && !segment_before(wi2, j2, wi, j)
                ==> !#[trigger] segment_ok(ways, nm, wi2, j2),
        !segment_before(wi_end, j_end, wi, j),
    ensures
        nodes_from_segments(g, ways, nm, wi_end, j_end),
{
    reveal(nodes_from_segments);
    assert forall|x: u64| #[trigger] g.contains_key(x) <==> exists|wi2: int, j2: int|
        segment_before(wi2, j2, wi_end, j_end) && #[trigger] segment_touches(ways, nm, wi2, j2, x) by {
        if g.contains_key(x) {
            let (wi2, j2) = choose|wi2: int, j2: int|
                segment_before(wi2, j2, wi, j) && #[trigger] segment_touches(ways, nm, wi2, j2, x);
            assert(segment_before(wi2, j2, wi_end, j_end));
        }
        if exists|wi2: int, j2: int|
            segment_before(wi2, j2, wi_end, j_end) && #[trigger] segment_touches(
                ways,
                nm,
                wi2,
                j2,
                x,
            ) {
            let (wi2, j2) = choose|wi2: int, j2: int|
                segment_before(wi2, j2, wi_end, j_end) && #[trigger] segment_touches(
                    ways,
                    nm,
                    wi2,
                    j2,
                    x,
                );
            assert(segment_ok(ways, nm, wi2, j2));
            assert(segment_before(wi2, j2, wi, j));
        }
    }
}

/// In a graph built from a dataset, each usable segment of a two-way way
/// has its edges in both directions, and both carry one and the same weight.
pub proof fn lemma_two_way_same_weight<F: Fn(GeoPoint, GeoPoint) -> u32>(
    g: Adjacency,
    data: OSMData,
    distance: F,
    wi: int,
    j: int,
)
    requires
        built_from(g, data, distance),
        segment_ok(data.ways@, node_map(data.nodes@), wi, j),
        !tags_say_oneway(data.ways@[wi].tags@),
    ensures
        exists|w: u32|
            #[trigger] has_edge(g, data.ways@[wi].nodes@[j], data.ways@[wi].nodes@[j + 1], w) && has_edge(
                g,
                data.ways@[wi].nodes@[j + 1],
                data.ways@[wi].nodes@[j],
                w,
            ),
{
    reveal(segments_in_graph);
    assert(segment_before(wi, j, data.ways@.len() as int, 0));
    let w = choose|w: u32|
        #[trigger] segment_present(g, data.ways@, node_map(data.nodes@), distance, wi, j, w);
    assert(has_edge(g, data.ways@[wi].nodes@[j + 1], data.ways@[wi].nodes@[j], w));
}

/// With a distance function that gives the same answers both ways round,
/// every edge of a graph built from a dataset weighs what the distance
/// function gives for the coordinates of its own two ends, in its own
/// direction.
pub proof fn lemma_edge_weight_is_distance<F: Fn(GeoPoint, GeoPoint) -> u32>(
    g: Adjacency,
    data: OSMData,
    distance: F,
    u: u64,
    v: u64,
    w: u32,
)
    requires
        built_from(g, data, distance),
        forall|a: GeoPoint, b: GeoPoint, x: u32|
            #[trigger] distance.ensures((a, b), x) ==> distance.ensures((b, a), x),
        has_edge(g, u, v, w),
    ensures
        node_map(data.nodes@).contains_key(u),
        node_map(data.nodes@).contains_key(v),
        distance.ensures((node_map(data.nodes@)[u], node_map(data.nodes@)[v]), w),
{
    reveal(edges_from_segments);
    let ways = data.ways@;
    let nm = node_map(data.nodes@);
    let (wi, j) = choose|wi: int, j: int|
        segment_before(wi, j, ways.len() as int, 0) && #[trigger] segment_yields(
            ways,
            nm,
            distance,
            wi,
            j,
            u,
            v,
            w,
        );
    assert(distance.ensures((nm[ways[wi].nodes@[j]], nm[ways[wi].nodes@[j + 1]]), w));
}

/// A one-way way yields no edge against its direction: in a graph built
/// from a dataset, an edge `v -> u` needs a segment `v, u` in some way, or a
/// segment `u, v` in a way that is not one-way.
pub proof fn lemma_oneway_no_reverse<F: Fn(GeoPoint, GeoPoint) -> u32>(
    g: Adjacency,
    data: OSMData,
    distance: F,
    u: u64,
    v: u64,
    w: u32,
)
    requires
        built_from(g, data, distance),
        forall|wi: int, j: int|
            #[trigger] segment_ok(data.ways@, node_map(data.nodes@), wi, j) ==> !(
            data.ways@[wi].nodes@[j] == v && data.ways@[wi].nodes@[j + 1] == u),
        forall|wi: int, j: int|
            #[trigger] segment_ok(data.ways@, node_map(data.nodes@), wi, j)
                && data.ways@[wi].nodes@[j] == u && data.ways@[wi].nodes@[j + 1] == v
                ==> tags_say_oneway(data.ways@[wi].tags@),
    ensures
        !has_edge(g, v, u, w),
{
    reveal(edges_from_segments);
    if has_edge(g, v, u, w) {
        let (wi, j) = choose|wi: int, j: int|
            segment_before(wi, j, data.ways@.len() as int, 0) && #[trigger] segment_yields(
                data.ways@,
                node_map(data.nodes@),
                distance,
                wi,
                j,
                v,
                u,
                w,
            );
        assert(segment_ok(data.ways@, node_map(data.nodes@), wi, j));
    }
}

/// One direction of the rebuild law: an edge of the first build is an edge
/// of the second.
proof fn lemma_rebuild_edges<F: Fn(GeoPoint, GeoPoint) -> u32>(
    g1: Adjacency,
    g2: Adjacency,
    data: OSMData,
    distance: F,
    u: u64,
    v: u64,
    w: u32,
)
    requires
        built_from(g1, data, distance),
        built_from(g2, data, distance),
        forall|a: GeoPoint, b: GeoPoint, w1: u32, w2: u32|
            distance.ensures((a, b), w1) && distance.ensures((a, b), w2) ==> w1 == w2,
        has_edge(g1, u, v, w),
    ensures
        has_edge(g2, u, v, w),
{
    reveal(edges_from_segments);
    reveal(segments_in_graph);
    let ways = data.ways@;
    let nm = node_map(data.nodes@);
    let (wi, j) = choose|wi: int, j: int|
        segment_before(wi, j, ways.len() as int, 0) && #[trigger] segment_yields(
            ways,
            nm,
            distance,
            wi,
            j,
            u,
            v,
            w,
        );
    assert(segment_ok(ways, nm, wi, j));
    let w2 = choose|w2: u32| #[trigger] segment_present(g2, ways, nm, distance, wi, j, w2);
    assert(w2 == w);
}

/// Building twice from the same dataset, with a distance function that
/// answers each pair of coordinates in one way only, gives graphs with the
/// same nodes and the same weighted edges; so the same pairs of ids are
/// joined by a path in both, and a path that is shortest in one is shortest
/// in the other.
pub proof fn lemma_rebuild_same_graph<F: Fn(GeoPoint, GeoPoint) -> u32>(
    g1: Adjacency,
    g2: Adjacency,
    data: OSMData,
    distance: F,
)
    requires
        built_from(g1, data, distance),
        built_from(g2, data, distance),
        forall|a: GeoPoint, b: GeoPoint, w1: u32, w2: u32|
            distance.ensures((a, b), w1) && distance.ensures((a, b), w2) ==> w1 == w2,
    ensures
        g1.dom() == g2.dom(),
        forall|u: u64, v: u64, w: u32| has_edge(g1, u, v, w) <==> has_edge(g2, u, v, w),
        forall|s: u64, e: u64| reachable(g1, s, e) <==> reachable(g2, s, e),
        forall|p: Seq<u64>, s: u64, e: u64|
            is_shortest_path(g1, p, s, e) <==> is_shortest_path(g2, p, s, e),
{
    reveal(nodes_from_segments);
    assert(g1.dom() =~= g2.dom());
    assert forall|u: u64, v: u64, w: u32| has_edge(g1, u, v, w) <==> has_edge(g2, u, v, w) by {
        if has_edge(g1, u, v, w) {
            lemma_rebuild_edges(g1, g2, data, distance, u, v, w);
        }
        if has_edge(g2, u, v, w) {
            lemma_rebuild_edges(g2, g1, data, distance, u, v, w);
        }
    }
    assert forall|u: u64, v: u64| adjacent(g1, u, v) <==> adjacent(g2, u, v) by {
        lemma_adjacent_has_edge(g1, u, v);
        lemma_adjacent_has_edge(g2, u, v);
    }
    assert forall|p: Seq<u64>, ws: Seq<u32>|
        is_weighted_walk(g1, p, ws) <==> is_weighted_walk(g2, p, ws) by {
        if is_weighted_walk(g1, p, ws) {
            assert forall|i: int| 0 <= i < ws.len() implies #[trigger] has_edge(g2, p[i], p[i + 1], ws[i]) by {
                assert(has_edge(g1, p[i], p[i + 1], ws[i]));
            }
        }
        if is_weighted_walk(g2, p, ws) {
            assert forall|i: int| 0 <= i < ws.len() implies #[trigger] has_edge(g1, p[i], p[i + 1], ws[i]) by {
                assert(has_edge(g2, p[i], p[i + 1], ws[i]));
            }
        }
    }
    assert forall|p: Seq<u64>, s: u64, e: u64|
        is_shortest_path(g1, p, s, e) <==> is_shortest_path(g2, p, s, e) by {
        assert forall|c: int| walk_cost_at_least(g1, s, e, c) <==> walk_cost_at_least(g2, s, e, c) by {
            if walk_cost_at_least(g1, s, e, c) {
                assert forall|q: Seq<u64>, qs: Seq<u32>|
                    #[trigger] is_weighted_walk(g2, q, qs) && q[0] == s && q.last() == e
                    implies c <= weight_sum(qs) by {
                    assert(is_weighted_walk(g1, q, qs));
                }
            }
            if walk_cost_at_least(g2, s, e, c) {
                assert forall|q: Seq<u64>, qs: Seq<u32>|
                    #[trigger] is_weighted_walk(g1, q, qs) && q[0] == s && q.last() == e
                    implies c <= weight_sum(qs) by {
                    assert(is_weighted_walk(g2, q, qs));
                }
            }
        }
        if is_shortest_path(g1, p, s, e) {
            let ws = choose|ws: Seq<u32>|
                #[trigger] is_weighted_walk(g1, p, ws) && p[0] == s && p.last() == e
                    && walk_cost_at_least(g1, s, e, weight_sum(ws));
            assert(is_weighted_walk(g2, p, ws));
        }
        if is_shortest_path(g2, p, s, e) {
            let ws = choose|ws: Seq<u32>|
                #[trigger] is_weighted_walk(g2, p, ws) && p[0] == s && p.last() == e
                    && walk_cost_at_least(g2, s, e, weight_sum(ws));
            assert(is_weighted_walk(g1, p, ws));
        }
    }
    assert forall|s: u64, e: u64| reachable(g1, s, e) <==> reachable(g2, s, e) by {
        assert forall|p: Seq<u64>| is_path_between(g1, p, s, e) <==> is_path_between(g2, p, s, e) by {
            if is_path(g1, p) {
                assert forall|i: int| 0 <= i < p.len() - 1 implies #[trigger] adjacent(g2, p[i], p[i + 1]) by {
                    assert(adjacent(g1, p[i], p[i + 1]));
                }
            }
            if is_path(g2, p) {
                assert forall|i: int| 0 <= i < p.len() - 1 implies #[trigger] adjacent(g1, p[i], p[i + 1]) by {
                    assert(adjacent(g2, p[i], p[i + 1]));
                }
            }
        }
        if reachable(g1, s, e) {
            let p = choose|p: Seq<u64>| is_path_between(g1, p, s, e);
            assert(is_path_between(g2, p, s, e));
        }
        if reachable(g2, s, e) {
            let p = choose|p: Seq<u64>| is_path_between(g2, p, s, e);
            assert(is_path_between(g1, p, s, e));
        }
    }
}

impl Graph {
    /// The graph of a dataset. Each segment of a way whose two ends are known
    /// nodes gives an edge of the weight that `distance` computes for its two
    /// coordinates: forward only on a one-way way, in both directions with
    /// the same weight otherwise. Segments with an unknown end are skipped.
    pub fn from_osm_data<F: Fn(GeoPoint, GeoPoint) -> u32>(osm_data: &OSMData, distance: &F) -> (g: Graph)
        requires
            forall|a: GeoPoint, b: GeoPoint| distance.requires((a, b)),
        ensures
            g.wf(),
            built_from(g@, *osm_data, *distance),
            built_in_order(g@, *osm_data, *distance),
    {
        let mut node_map_exec: HashMap<u64, GeoPoint> = HashMap::new();
        let mut i: usize = 0;
        while i < osm_data.nodes.len()
            invariant
                0 <= i <= osm_data.nodes@.len(),
                node_map_exec@ == node_map(osm_data.nodes@.take(i as int)),
            decreases osm_data.nodes@.len() - i,
        {
            node_map_exec.insert(osm_data.nodes[i].id, osm_data.nodes[i].point);
            proof {
                assert(osm_data.nodes@.take(i + 1).drop_last() =~= osm_data.nodes@.take(i as int));
            }
            i = i + 1;
        }
        assert(osm_data.nodes@.take(i as int) =~= osm_data.nodes@);
        let ghost nm = node_map(osm_data.nodes@);
        let ghost ways = osm_data.ways@;
        let mut graph = Graph::new();
        let ghost mut wt: Map<(int, int), u32> = Map::empty();
        proof {
            reveal(edges_from_segments);
            reveal(segments_in_graph);
            reveal(nodes_from_segments);
            assert(built_upto(graph@, ways, nm, *distance, 0, 0));
        }
        let mut wi: usize = 0;
        while wi < osm_data.ways.len()
            invariant
                0 <= wi <= ways.len(),
                ways == osm_data.ways@,
                nm == node_map(osm_data.nodes@),
                node_map_exec@ == nm,
                graph.wf(),
                built_upto(graph@, ways, nm, *distance, wi as int, 0),
                graph@ == graph_upto(ways, nm, wt, wi as int, 0),
                forall|x: int, y: int|
                    segment_before(x, y, wi as int, 0) && #[trigger] segment_ok(ways, nm, x, y)
                        ==> segment_weight(ways, nm, *distance, x, y, wt[(x, y)]),
                forall|a: GeoPoint, b: GeoPoint| distance.requires((a, b)),
            decreases ways.len() - wi,
        {
            let way = &osm_data.ways[wi];
            let oneway = is_oneway(&way.tags);
            let mut k: usize = 1;
            while k < way.nodes.len()
                invariant
                    1 <= k,
                    k <= way.nodes@.len() || way.nodes@.len() == 0,
                    way.nodes@.len() == 0 ==> k == 1,
                    0 <= wi < ways.len(),
                    ways == osm_data.ways@,
                    *way == ways[wi as int],
                    oneway == tags_say_oneway(way.tags@),
                    node_map_exec@ == nm,
                    graph.wf(),
                    built_upto(graph@, ways, nm, *distance, wi as int, k - 1),
                    graph@ == graph_upto(ways, nm, wt, wi as int, k - 1),
                    forall|x: int, y: int|
                        segment_before(x, y, wi as int, k - 1) && #[trigger] segment_ok(ways, nm, x, y)
                            ==> segment_weight(ways, nm, *distance, x, y, wt[(x, y)]),
                    forall|a: GeoPoint, b: GeoPoint| distance.requires((a, b)),
                decreases way.nodes@.len() - k,
            {
                let from_id = way.nodes[k - 1];
                let to_id = way.nodes[k];
                let ghost g0 = graph@;
                let ghost wt0 = wt;
                match (node_map_exec.get(&from_id), node_map_exec.get(&to_id)) {
                    (Some(from_point), Some(to_point)) => {
                        let weight = distance(*from_point, *to_point);
                        if oneway {
                            graph.add_edge_one_way(from_id, to_id, weight);
                        } else {
                            graph.add_edge_two_way(from_id, to_id, weight);
                        }
                        proof {
                            lemma_segment_added(
                                g0,
                                graph@,
                                ways,
                                nm,
                                *distance,
                                wi as int,
                                k - 1,
                                weight,
                            );
                            wt = wt.insert((wi as int, k - 1), weight);
                            lemma_graph_upto_frame(ways, nm, wt0, wt, wi as int, k - 1);
                            assert(graph_upto(ways, nm, wt, wi as int, k as int) == add_segment(
                                graph_upto(ways, nm, wt, wi as int, k - 1),
                                ways,
                                nm,
                                wi as int,
                                k - 1,
                                weight,
                            ));
                            assert forall|x: int, y: int|
                                segment_before(x, y, wi as int, k as int) && #[trigger] segment_ok(
                                    ways,
                                    nm,
                                    x,
                                    y,
                                ) implies segment_weight(ways, nm, *distance, x, y, wt[(x, y)]) by {
                                if x != wi || y != k - 1 {
                                    assert(segment_before(x, y, wi as int, k - 1));
                                }
                            }
                        }
                    },
                    _ => {
                        proof {
                            assert(!segment_ok(ways, nm, wi as int, k - 1));
                            lemma_skip_segments(
                                graph@,
                                ways,
                                nm,
                                *distance,
                                wi as int,
                                k - 1,
                                wi as int,
                                k as int,
                            );
                            assert(graph_upto(ways, nm, wt, wi as int, k as int) == graph_upto(
                                ways,
                                nm,
                                wt,
                                wi as int,
                                k - 1,
                            ));
                            assert forall|x: int, y: int|
                                segment_before(x, y, wi as int, k as int) && #[trigger] segment_ok(
                                    ways,
                                    nm,
                                    x,
                                    y,
                                ) implies segment_weight(ways, nm, *distance, x, y, wt[(x, y)]) by {
                                assert(segment_before(x, y, wi as int, k - 1));
                            }
                        }
                    },
                }
                k = k + 1;
            }
            proof {
                lemma_skip_segments(
                    graph@,
                    ways,
                    nm,
                    *distance,
                    wi as int,
                    k - 1,
                    wi + 1,
                    0,
                );
                assert(k - 1 == seg_count(ways, wi as int));
                assert(graph_upto(ways, nm, wt, wi + 1, 0) == graph_upto(
                    ways,
                    nm,
                    wt,
                    wi as int,
                    k - 1,
                ));
                assert forall|x: int, y: int|
                    segment_before(x, y, wi + 1, 0) && #[trigger] segment_ok(ways, nm, x, y)
                        implies segment_weight(ways, nm, *distance, x, y, wt[(x, y)]) by {
                    assert(segment_before(x, y, wi as int, k - 1));
                }
            }
            wi = wi + 1;
        }
        proof {
            assert forall|x: int, y: int| #[trigger] segment_ok(ways, nm, x, y) implies segment_weight(
                ways,
                nm,
                *distance,
                x,
                y,
                wt[(x, y)],
            ) by {
                assert(segment_before(x, y, wi as int, 0));
            }
            assert(graph_upto(ways, nm, wt, ways.len() as int, 0) == graph@);
        }
        graph
    }
}

} // verus!
