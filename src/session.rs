use crate::builder::{built_from, built_in_order};
use crate::graph::{is_path_between, is_shortest_path, reachable, targets_are_nodes, Adjacency, Graph};
use crate::osm_data::{node_map, GeoPoint, Node, OSMData};
use crate::spatial::{
    coord_ok, entries_on_globe, query_in_range, index_entries, is_nearest_id, SpatialIndex, MAX_LAT_E7,
    MAX_LON_E7,
};
use vstd::prelude::*;

verus! {

/// Why a dataset was not loaded.
#[derive(Clone, Copy, Debug, PartialEq, Eq, Structural)]
pub enum LoadError {
    /// The node with this id has a coordinate off the globe.
    InvalidCoordinate(u64),
}

/// The session's content as mathematics: the graph and the index entries.
pub type SessionView = Option<(Adjacency, Set<(u64, i64, i64)>)>;

/// Every node of the dataset lies on the globe.
pub open spec fn all_on_globe(nodes: Seq<Node>) -> bool {
    forall|i: int| 0 <= i < nodes.len() ==> coord_ok(#[trigger] nodes[i].point.lat_e7, nodes[i].point.lon_e7)
}

/// The node at position `i` is the first that lies off the globe.
pub open spec fn first_off_globe(nodes: Seq<Node>, i: int) -> bool {
    &&& 0 <= i < nodes.len()
    &&& !coord_ok(nodes[i].point.lat_e7, nodes[i].point.lon_e7)
    &&& forall|j: int| 0 <= j < i ==> coord_ok(#[trigger] nodes[j].point.lat_e7, nodes[j].point.lon_e7)
}

/// The index entries are the graph's nodes at their coordinates in `data`.
pub open spec fn index_matches(g: Adjacency, entries: Set<(u64, i64, i64)>, data: OSMData) -> bool {
    forall|e: (u64, i64, i64)| #[trigger] entries.contains(e) <==> {
        &&& g.contains_key(e.0)
        &&& node_map(data.nodes@).contains_key(e.0)
        &&& node_map(data.nodes@)[e.0] == GeoPoint { lat_e7: e.1, lon_e7: e.2 }
    }
}

/// A loaded graph and the index over its nodes.
struct Loaded {
    graph: Graph,
    index: SpatialIndex,
}

/// Holds at most one loaded dataset: its graph and its nearest-node index.
/// A load replaces the content whole, or leaves it as it was.
pub struct Session {
    loaded: Option<Loaded>,
}

impl View for Session {
    type V = SessionView;

    closed spec fn view(&self) -> SessionView {
        match self.loaded {
            Some(l) => Some((l.graph@, index_entries(l.index))),
            None => None,
        }
    }
}

impl Session {
    /// The content is consistent: edge targets are nodes, and the index
    /// holds on-globe entries of graph nodes, one at least for each.
    pub open spec fn wf(&self) -> bool {
        match self@ {
            Some((g, entries)) => {
                &&& targets_are_nodes(g)
                &&& entries_on_globe(entries)
                &&& forall|e: (u64, i64, i64)| #[trigger] entries.contains(e) ==> g.contains_key(e.0)
            },
            None => true,
        }
    }

    /// An empty session.
    pub fn new() -> (s: Session)
        ensures
            s@.is_none(),
            s.wf(),
    {
        Session { loaded: None }
    }

    /// Whether a dataset is loaded.
    pub fn is_loaded(&self) -> (r: bool)
        ensures
            r == self@.is_some(),
    {
        self.loaded.is_some()
    }

    /// Builds the graph and the index of `data` and puts them in place of
    /// what the session held. Where a node lies off the globe, the session is
    /// left as it was and the first such node is named.
    pub fn load<F: Fn(GeoPoint, GeoPoint) -> u32>(&mut self, data: &OSMData, distance: &F) -> (r: Result<(), LoadError>)
        requires
            old(self).wf(),
            forall|a: GeoPoint, b: GeoPoint| distance.requires((a, b)),
        ensures
            final(self).wf(),
            r.is_ok() <==> all_on_globe(data.nodes@),
            r matches Err(LoadError::InvalidCoordinate(id)) ==> exists|i: int|
                first_off_globe(data.nodes@, i) && #[trigger] data.nodes@[i].id == id,
            r.is_err() ==> *final(self) == *old(self),
            r.is_ok() ==> (final(self)@ matches Some((g, entries)) && built_from(g, *data, *distance)
                && built_in_order(g, *data, *distance)
                && index_matches(g, entries, *data)),
    {
        let mut i: usize = 0;
        while i < data.nodes.len()
            invariant
                0 <= i <= data.nodes@.len(),
                *self == *old(self),
                old(self).wf(),
                forall|j: int| 0 <= j < i ==> coord_ok(#[trigger] data.nodes@[j].point.lat_e7, data.nodes@[j].point.lon_e7),
            decreases data.nodes@.len() - i,
        {
            let p = data.nodes[i].point;
            if p.lat_e7 < -MAX_LAT_E7 || p.lat_e7 > MAX_LAT_E7 || p.lon_e7 < -MAX_LON_E7 || p.lon_e7 > MAX_LON_E7 {
                proof {
                    assert(first_off_globe(data.nodes@, i as int));
                    assert(*self == *old(self));
                }
                return Err(LoadError::InvalidCoordinate(data.nodes[i].id));
            }
            i = i + 1;
        }
        let graph = Graph::from_osm_data(data, distance);
        let index = SpatialIndex::build(&graph, data);
        proof {
            assert forall|f: (u64, i64, i64)| #[trigger] index_entries(index).contains(f) implies coord_ok(f.1, f.2) by {
                let k = crate::spatial::lemma_node_map_witness(data.nodes@, f.0);
                assert(coord_ok(data.nodes@[k].point.lat_e7, data.nodes@[k].point.lon_e7));
            }
        }
        self.loaded = Some(Loaded { graph, index });
        Ok(())
    }

    /// A shortest path between two node ids in the loaded graph; `None`
    /// where nothing is loaded.
    pub fn find_shortest_path(&self, start: u64, end: u64) -> (r: Option<Vec<u64>>)
        requires
            self.wf(),
        ensures
            r.is_none() <==> self@.is_none(),
            r matches Some(path) ==> (self@ matches Some((g, entries)) && {
                &&& path@.len() > 0 ==> is_path_between(g, path@, start, end)
                &&& path@.len() > 0 ==> is_shortest_path(g, path@, start, end)
                &&& path@.no_duplicates()
                &&& path@.len() > 0 <==> reachable(g, start, end)
                &&& start == end && g.contains_key(start) ==> path@ == seq![start]
            }),
    {
        match &self.loaded {
            Some(l) => Some(l.graph.find_shortest_path(start, end)),
            None => None,
        }
    }

    /// The id of a loaded node nearest to the query point; `None` where
    /// nothing is loaded, the index is empty or a query coordinate exceeds
    /// `MAX_QUERY_E7` in magnitude.
    pub fn nearest_node(&self, lat_e7: i64, lon_e7: i64) -> (r: Option<u64>)
        requires
            self.wf(),
        ensures
            r.is_none() <==> match self@ {
                Some((g, entries)) => entries == Set::<(u64, i64, i64)>::empty() || !query_in_range(lat_e7, lon_e7),
                None => true,
            },
            r matches Some(id) ==> (self@ matches Some((g, entries)) && is_nearest_id(entries, id, lat_e7, lon_e7)),
    {
        match &self.loaded {
            Some(l) => l.index.nearest_node(lat_e7, lon_e7),
            None => None,
        }
    }

    /// A shortest path between the loaded nodes nearest to two query points;
    /// `None` where nothing is loaded or either point resolves to no node.
    pub fn find_shortest_path_by_coordinate(
        &self,
        lat1_e7: i64,
        lon1_e7: i64,
        lat2_e7: i64,
        lon2_e7: i64,
    ) -> (r: Option<Vec<u64>>)
        requires
            self.wf(),
        ensures
            r.is_none() <==> match self@ {
                Some((g, entries)) => entries == Set::<(u64, i64, i64)>::empty() || !query_in_range(lat1_e7, lon1_e7)
                    || !query_in_range(lat2_e7, lon2_e7),
                None => true,
            },
            r matches Some(path) ==> (self@ matches Some((g, entries)) && exists|s: u64, e: u64| {
                &&& #[trigger] is_nearest_id(entries, s, lat1_e7, lon1_e7)
                &&& #[trigger] is_nearest_id(entries, e, lat2_e7, lon2_e7)
                &&& path@.len() > 0 ==> is_path_between(g, path@, s, e)
                &&& path@.len() > 0 ==> is_shortest_path(g, path@, s, e)
                &&& path@.no_duplicates()
                &&& path@.len() > 0 <==> reachable(g, s, e)
                &&& s == e ==> path@ == seq![s]
            }),
    {
        match &self.loaded {
            Some(l) => {
                let start = match l.index.nearest_node(lat1_e7, lon1_e7) {
                    Some(id) => id,
                    None => return None,
                };
                let end = match l.index.nearest_node(lat2_e7, lon2_e7) {
                    Some(id) => id,
                    None => return None,
                };
                proof {
                    let (la, lo) = choose|la: i64, lo: i64| #[trigger] crate::spatial::is_nearest(index_entries(l.index), (start, la, lo), lat1_e7, lon1_e7);
                    assert(index_entries(l.index).contains((start, la, lo)));
                }
                Some(l.graph.find_shortest_path(start, end))
            },
            None => None,
        }
    }
}

} // verus!
