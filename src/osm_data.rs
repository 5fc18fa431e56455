use vstd::prelude::*;

verus! {

/// A coordinate in fixed point: degrees times ten million, the precision
/// of map-exchange data.
#[derive(Clone, Copy, Debug, PartialEq, Eq, Structural)]
pub struct GeoPoint {
    pub lat_e7: i64,
    pub lon_e7: i64,
}

/// A map node: its id, its coordinate and its tags.
#[derive(Debug)]
pub struct Node {
    pub id: u64,
    pub point: GeoPoint,
    pub tags: Vec<(String, String)>,
}

/// A way: an ordered polyline of node ids, with its tags.
#[derive(Debug)]
pub struct Way {
    pub id: u64,
    pub nodes: Vec<u64>,
    pub tags: Vec<(String, String)>,
}

/// A dataset: the nodes and the ways that join them.
#[derive(Debug)]
pub struct OSMData {
    pub nodes: Vec<Node>,
    pub ways: Vec<Way>,
}

/// The lookup from node id to coordinate; where an id occurs twice the
/// later node wins.
pub open spec fn node_map(nodes: Seq<Node>) -> Map<u64, GeoPoint>
    decreases nodes.len(),
{
    if nodes.len() == 0 {
        Map::empty()
    } else {
        node_map(nodes.drop_last()).insert(nodes.last().id, nodes.last().point)
    }
}

/// The tags mark the way as one-way: `oneway` is `yes`.
pub open spec fn tags_say_oneway(tags: Seq<(String, String)>) -> bool {
    exists|i: int|
        0 <= i < tags.len() && (#[trigger] tags[i]).0@ == "oneway"@ && tags[i].1@ == "yes"@
}

/// Whether the tags mark a way as one-way.
pub fn is_oneway(tags: &Vec<(String, String)>) -> (r: bool)
    ensures
        r == tags_say_oneway(tags@),
{
    let key = "oneway".to_owned();
    let value = "yes".to_owned();
    proof {
        reveal_strlit("oneway");
        reveal_strlit("yes");
    }
    let mut i: usize = 0;
    while i < tags.len()
        invariant
            0 <= i <= tags@.len(),
            key@ == "oneway"@,
            value@ == "yes"@,
            forall|j: int|
                0 <= j < i ==> !((#[trigger] tags@[j]).0@ == "oneway"@ && tags@[j].1@ == "yes"@),
        decreases tags@.len() - i,
    {
        if tags[i].0 == key && tags[i].1 == value {
            return true;
        }
        i = i + 1;
    }
    false
}

} // verus!
