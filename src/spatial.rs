use crate::graph::{Adjacency, Graph};
use crate::osm_data::{node_map, GeoPoint, Node, OSMData};
use rstar::primitives::GeomWithData;
use rstar::RTree;
use std::collections::HashMap;
use vstd::prelude::*;

verus! {

broadcast use vstd::std_specs::hash::group_hash_axioms;

/// The largest latitude, in ten-millionths of a degree.
pub const MAX_LAT_E7: i64 = 900_000_000;

/// The largest longitude, in ten-millionths of a degree.
pub const MAX_LON_E7: i64 = 1_800_000_000;

/// The coordinate lies on the globe.
pub open spec fn coord_ok(lat_e7: i64, lon_e7: i64) -> bool {
    -MAX_LAT_E7 <= lat_e7 <= MAX_LAT_E7 && -MAX_LON_E7 <= lon_e7 <= MAX_LON_E7
}

/// The largest query coordinate magnitude, in ten-millionths of a degree:
/// far beyond the globe, and small enough that squared distances to points
/// on the globe fit the index's 128-bit arithmetic.
pub const MAX_QUERY_E7: i64 = 0x4000_0000_0000_0000;

/// The query point is within the range that the index can measure.
pub open spec fn query_in_range(lat_e7: i64, lon_e7: i64) -> bool {
    -MAX_QUERY_E7 <= lat_e7 <= MAX_QUERY_E7 && -MAX_QUERY_E7 <= lon_e7 <= MAX_QUERY_E7
}

/// The squared planar distance in (latitude, longitude) between an index
/// entry and a query point.
pub open spec fn sq_dist(e: (u64, i64, i64), lat_e7: i64, lon_e7: i64) -> int {
    (e.1 - lat_e7) * (e.1 - lat_e7) + (e.2 - lon_e7) * (e.2 - lon_e7)
}

/// `e` is an entry of `entries` that no other entry is nearer than to the
/// query point.
pub open spec fn is_nearest(entries: Set<(u64, i64, i64)>, e: (u64, i64, i64), lat_e7: i64, lon_e7: i64) -> bool {
    entries.contains(e) && forall|f: (u64, i64, i64)|
        #[trigger] entries.contains(f) ==> sq_dist(e, lat_e7, lon_e7) <= sq_dist(f, lat_e7, lon_e7)
}

/// An index entry for one node: its id and its coordinate.
#[derive(Clone, Copy, Debug, PartialEq, Eq, Structural)]
pub struct NodePoint {
    pub id: u64,
    pub lat_e7: i64,
    pub lon_e7: i64,
}

/// The nearest-node index: an R-tree over node coordinates, each element
/// carrying its node id.
#[verifier::external_body]
pub struct SpatialIndex {
    tree: RTree<GeomWithData<[i128; 2], u64>>,
}

/// What the index holds: node id, latitude, longitude.
pub uninterp spec fn index_entries(t: SpatialIndex) -> Set<(u64, i64, i64)>;

/// Relies on rstar::RTree::bulk_load: the tree holds the given elements and
/// no others.
#[verifier::external_body]
fn index_bulk_load(entries: Vec<NodePoint>) -> (t: SpatialIndex)
    ensures
        index_entries(t) == entries@.map_values(|p: NodePoint| (p.id, p.lat_e7, p.lon_e7)).to_set(),
{
    SpatialIndex {
        tree: RTree::bulk_load(
            entries.into_iter().map(|p| GeomWithData::new([p.lat_e7 as i128, p.lon_e7 as i128], p.id)).collect(),
        ),
    }
}

/// Relies on rstar::RTree::nearest_neighbor: `None` on an empty tree, else an
/// element of least `distance_2`, which for a point is the sum of squared
/// coordinate differences. Entries on the globe and a query within
/// `MAX_QUERY_E7` keep that sum, and every box distance rstar computes on
/// the way, far from overflow.
#[verifier::external_body]
fn index_nearest(t: &SpatialIndex, lat_e7: i64, lon_e7: i64) -> (r: Option<(u64, i64, i64)>)
    requires
        query_in_range(lat_e7, lon_e7),
        forall|f: (u64, i64, i64)| #[trigger] index_entries(*t).contains(f) ==> coord_ok(f.1, f.2),
    ensures
        r.is_none() <==> index_entries(*t) == Set::<(u64, i64, i64)>::empty(),
        r matches Some(e) ==> is_nearest(index_entries(*t), e, lat_e7, lon_e7),
{
    t.tree.nearest_neighbor([lat_e7 as i128, lon_e7 as i128]).map(
        |g| (g.data, g.geom()[0] as i64, g.geom()[1] as i64),
    )
}

/// Every node's id is in the lookup.
proof fn lemma_node_map_has_ids(nodes: Seq<Node>, k: int)
    requires
        0 <= k < nodes.len(),
    ensures
        node_map(nodes).contains_key(nodes[k].id),
    decreases nodes.len(),
{
    if k < nodes.len() - 1 {
        lemma_node_map_has_ids(nodes.drop_last(), k);
    }
}

/// An id in the lookup is the id of a node whose coordinate the lookup gives.
pub proof fn lemma_node_map_witness(nodes: Seq<Node>, id: u64) -> (k: int)
    requires
        node_map(nodes).contains_key(id),
    ensures
        0 <= k < nodes.len(),
        nodes[k].id == id,
        nodes[k].point == node_map(nodes)[id],
    decreases nodes.len(),
{
    if nodes.last().id == id {
        nodes.len() - 1
    } else {
        let k = lemma_node_map_witness(nodes.drop_last(), id);
        k
    }
}

/// `id` is the id of an entry that no other entry is nearer than to the
/// query point.
pub open spec fn is_nearest_id(entries: Set<(u64, i64, i64)>, id: u64, lat_e7: i64, lon_e7: i64) -> bool {
    exists|la: i64, lo: i64| #[trigger] is_nearest(entries, (id, la, lo), lat_e7, lon_e7)
}

/// A query point that is exactly the coordinate of an entry, shared by no
/// other entry, has that entry's id as its nearest.
pub proof fn lemma_nearest_exact(
    entries: Set<(u64, i64, i64)>,
    id: u64,
    lat_e7: i64,
    lon_e7: i64,
    found: u64,
)
    requires
        entries.contains((id, lat_e7, lon_e7)),
        forall|f: (u64, i64, i64)|
            #[trigger] entries.contains(f) && f.1 == lat_e7 && f.2 == lon_e7 ==> f.0 == id,
        is_nearest_id(entries, found, lat_e7, lon_e7),
    ensures
        found == id,
{
    let (la, lo) = choose|la: i64, lo: i64| #[trigger] is_nearest(entries, (found, la, lo), lat_e7, lon_e7);
    assert(sq_dist((found, la, lo), lat_e7, lon_e7) <= sq_dist((id, lat_e7, lon_e7), lat_e7, lon_e7));
    let x = la - lat_e7;
    let y = lo - lon_e7;
    let z: int = 0;
    assert(z * z == 0) by (nonlinear_arith)
        requires
            z == 0,
    ;
    assert(sq_dist((id, lat_e7, lon_e7), lat_e7, lon_e7) == z * z + z * z);
    assert(sq_dist((found, la, lo), lat_e7, lon_e7) == x * x + y * y);
    assert(x == 0 && y == 0) by (nonlinear_arith)
        requires
            x * x + y * y <= 0,
    ;
    assert(entries.contains((found, la, lo)));
}

/// Every entry lies on the globe.
pub open spec fn entries_on_globe(entries: Set<(u64, i64, i64)>) -> bool {
    forall|f: (u64, i64, i64)| #[trigger] entries.contains(f) ==> coord_ok(f.1, f.2)
}

impl SpatialIndex {
    /// The id of a node nearest to the query point by planar distance in
    /// (latitude, longitude). `None` where the index is empty, or where a
    /// query coordinate exceeds `MAX_QUERY_E7` in magnitude (far beyond any
    /// real latitude or longitude).
    pub fn nearest_node(&self, lat_e7: i64, lon_e7: i64) -> (r: Option<u64>)
        requires
            entries_on_globe(index_entries(*self)),
        ensures
            r.is_none() <==> (index_entries(*self) == Set::<(u64, i64, i64)>::empty()
                || !query_in_range(lat_e7, lon_e7)),
            r matches Some(id) ==> is_nearest_id(index_entries(*self), id, lat_e7, lon_e7),
    {
        if lat_e7 < -MAX_QUERY_E7 || lat_e7 > MAX_QUERY_E7 || lon_e7 < -MAX_QUERY_E7 || lon_e7
            > MAX_QUERY_E7 {
            return None;
        }
        match index_nearest(self, lat_e7, lon_e7) {
            Some(e) => {
                proof {
                    assert(is_nearest(index_entries(*self), (e.0, e.1, e.2), lat_e7, lon_e7));
                }
                Some(e.0)
            },
            None => None,
        }
    }

    /// The index over the nodes of a graph built from `data`: one entry per
    /// node of the graph, at that node's coordinate in `data`.
    pub fn build(graph: &Graph, data: &OSMData) -> (t: SpatialIndex)
        ensures
            forall|e: (u64, i64, i64)| #[trigger] index_entries(t).contains(e) <==> {
                &&& graph@.contains_key(e.0)
                &&& node_map(data.nodes@).contains_key(e.0)
                &&& node_map(data.nodes@)[e.0] == GeoPoint { lat_e7: e.1, lon_e7: e.2 }
            },
    {
        let mut coords: HashMap<u64, GeoPoint> = HashMap::new();
        let mut i: usize = 0;
        while i < data.nodes.len()
            invariant
                0 <= i <= data.nodes@.len(),
                coords@ == node_map(data.nodes@.take(i as int)),
            decreases data.nodes@.len() - i,
        {
            coords.insert(data.nodes[i].id, data.nodes[i].point);
            proof {
                assert(data.nodes@.take(i + 1).drop_last() =~= data.nodes@.take(i as int));
            }
            i = i + 1;
        }
        assert(data.nodes@.take(i as int) =~= data.nodes@);
        let ghost nm = node_map(data.nodes@);
        let mut entries: Vec<NodePoint> = Vec::new();
        let mut j: usize = 0;
        while j < data.nodes.len()
            invariant
                0 <= j <= data.nodes@.len(),
                coords@ == nm,
                nm == node_map(data.nodes@),
                forall|k: int| 0 <= k < entries@.len() ==> {
                    let p = #[trigger] entries@[k];
                    &&& graph@.contains_key(p.id)
                    &&& nm.contains_key(p.id)
                    &&& nm[p.id] == GeoPoint { lat_e7: p.lat_e7, lon_e7: p.lon_e7 }
                },
                forall|k: int| 0 <= k < j ==> {
                    let n = #[trigger] data.nodes@[k];
                    graph@.contains_key(n.id) && nm[n.id] == n.point ==> exists|m: int|
                        0 <= m < entries@.len() && #[trigger] entries@[m] == (NodePoint {
                            id: n.id,
                            lat_e7: n.point.lat_e7,
                            lon_e7: n.point.lon_e7,
                        })
                },
            decreases data.nodes@.len() - j,
        {
            let node = &data.nodes[j];
            let ghost e0 = entries@;
            proof {
                lemma_node_map_has_ids(data.nodes@, j as int);
            }
            if graph.contains_node_id(node.id) {
                match coords.get(&node.id) {
                    Some(p) => {
                        if *p == node.point {
                            entries.push(
                                NodePoint { id: node.id, lat_e7: node.point.lat_e7, lon_e7: node.point.lon_e7 },
                            );
                        }
                    },
                    None => {},
                }
            }
            proof {
                assert forall|k: int| 0 <= k < j + 1 implies {
                    let n = #[trigger] data.nodes@[k];
                    graph@.contains_key(n.id) && nm[n.id] == n.point ==> exists|m: int|
                        0 <= m < entries@.len() && #[trigger] entries@[m] == (NodePoint {
                            id: n.id,
                            lat_e7: n.point.lat_e7,
                            lon_e7: n.point.lon_e7,
                        })
                } by {
                    let n = data.nodes@[k];
                    if k < j && graph@.contains_key(n.id) && nm[n.id] == n.point {
                        let m = choose|m: int|
                            0 <= m < e0.len() && #[trigger] e0[m] == (NodePoint {
                                id: n.id,
                                lat_e7: n.point.lat_e7,
                                lon_e7: n.point.lon_e7,
                            });
                        assert(entries@[m] == e0[m]);
                    } else if k == j && graph@.contains_key(n.id) && nm[n.id] == n.point {
                        assert(entries@[e0.len() as int] == (NodePoint {
                            id: n.id,
                            lat_e7: n.point.lat_e7,
                            lon_e7: n.point.lon_e7,
                        }));
                    }
                }
            }
            j = j + 1;
        }
        let ghost es = entries@;
        let t = index_bulk_load(entries);
        proof {
            let mapped = es.map_values(|p: NodePoint| (p.id, p.lat_e7, p.lon_e7));
            assert forall|e: (u64, i64, i64)| #[trigger] index_entries(t).contains(e) <==> {
                &&& graph@.contains_key(e.0)
                &&& nm.contains_key(e.0)
                &&& nm[e.0] == GeoPoint { lat_e7: e.1, lon_e7: e.2 }
            } by {
                if index_entries(t).contains(e) {
                    assert(mapped.contains(e));
                    let m = choose|m: int| 0 <= m < mapped.len() && mapped[m] == e;
                    assert(es[m].id == e.0);
                }
                if graph@.contains_key(e.0) && nm.contains_key(e.0) && nm[e.0] == (GeoPoint {
                    lat_e7: e.1,
                    lon_e7: e.2,
                }) {
                    let k = lemma_node_map_witness(data.nodes@, e.0);
                    let n = data.nodes@[k];
                    let m = choose|m: int|
                        0 <= m < es.len() && #[trigger] es[m] == (NodePoint {
                            id: n.id,
                            lat_e7: n.point.lat_e7,
                            lon_e7: n.point.lon_e7,
                        });
                    assert(mapped[m] == e);
                    assert(mapped.contains(e));
                }
            }
        }
        t
    }
}

} // verus!
