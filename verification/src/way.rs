//! The entities of the index — nodes and ways — together with the raw input
//! records they are built from, and the mathematical views the contracts
//! speak of.

use vstd::prelude::*;

use crate::road_class::{classify_spec, Highway, WayTag};
use crate::speed::{parse_speed_spec, parse_max_speed};

verus! {

/// The views of an ordered tag list: each key and value as its character
/// sequence, in input order.
pub open spec fn tag_views(tags: Seq<(String, String)>) -> Seq<(Seq<char>, Seq<char>)> {
    tags.map_values(|kv: (String, String)| (kv.0@, kv.1@))
}

/// One decoded node record, as the element reader hands it in: identity,
/// coordinates in nanodegrees, and its ordered tag list.
pub struct NodeData {
    pub id: i64,
    pub lat: i64,
    pub lon: i64,
    pub tags: Vec<(String, String)>,
}

/// One decoded way record: identity, its ordered tag list, and the ordered
/// node references that make up its geometry.
pub struct WayData {
    pub id: i64,
    pub tags: Vec<(String, String)>,
    pub node_ids: Vec<i64>,
}

/// One decoded element of the input stream. Kinds other than nodes and ways
/// are accepted and ignored, since the index is road-network-focused.
pub enum Element {
    Node(NodeData),
    Way(WayData),
    Other,
}

/// The mathematical view of a stored node.
#[verifier::ext_equal]
pub ghost struct NodeV {
    pub id: i64,
    pub lat: i64,
    pub lon: i64,
    pub tags: Seq<(Seq<char>, Seq<char>)>,
    pub way_refs: Seq<i64>,
}

/// The mathematical view of a stored way.
#[verifier::ext_equal]
pub ghost struct WayV {
    pub id: i64,
    pub tags: Seq<(Seq<char>, Seq<char>)>,
    pub node_ids: Seq<i64>,
    pub road_class: Option<Highway>,
    pub max_speed: Option<u8>,
}

/// A point entity: identity, immutable coordinates in nanodegrees, its tag
/// list, and the accumulating set of ways that reference it (back-references
/// only; a node never owns a way).
pub struct Node {
    pub id: i64,
    pub lat: i64,
    pub lon: i64,
    pub tags: Vec<(String, String)>,
    pub way_refs: Vec<i64>,
}

impl View for Node {
    type V = NodeV;

    open spec fn view(&self) -> NodeV {
        NodeV {
            id: self.id,
            lat: self.lat,
            lon: self.lon,
            tags: tag_views(self.tags@),
            way_refs: self.way_refs@,
        }
    }
}

impl Node {
    /// Builds the stored node for a record, with no back-references yet.
    pub fn from_data(nd: NodeData) -> (n: Node)
        ensures
            n@ == (NodeV {
                id: nd.id,
                lat: nd.lat,
                lon: nd.lon,
                tags: tag_views(nd.tags@),
                way_refs: Seq::<i64>::empty(),
            }),
    {
        let n = Node { id: nd.id, lat: nd.lat, lon: nd.lon, tags: nd.tags, way_refs: Vec::new() };
        assert(n@.way_refs =~= Seq::<i64>::empty());
        n
    }
}

/// The road class that an ordered tag list derives: of the `highway` tags
/// whose value the fixed table recognizes, the last one wins; unrecognized
/// values leave an earlier classification standing.
pub open spec fn class_of_tags(tags: Seq<(Seq<char>, Seq<char>)>) -> Option<Highway>
    decreases tags.len(),
{
    if tags.len() == 0 {
        None
    } else {
        let earlier = class_of_tags(tags.drop_last());
        if tags.last().0 == "highway"@ {
            match classify_spec(tags.last().1) {
                Some(h) => Some(h),
                None => earlier,
            }
        } else {
            earlier
        }
    }
}

/// The explicit max speed that an ordered tag list carries: of the `maxspeed`
/// tags whose value parses as a number up to 255, the last one wins; a value
/// that does not parse is discarded and leaves an earlier value standing.
pub open spec fn speed_of_tags(tags: Seq<(Seq<char>, Seq<char>)>) -> Option<u8>
    decreases tags.len(),
{
    if tags.len() == 0 {
        None
    } else {
        let earlier = speed_of_tags(tags.drop_last());
        if tags.last().0 == "maxspeed"@ {
            match parse_speed_spec(tags.last().1) {
                Some(v) => Some(v),
                None => earlier,
            }
        } else {
            earlier
        }
    }
}

/// An ordered path over node identities: a road segment with its tags, the
/// road class and explicit max speed derived from them, and its traversal
/// geometry carried verbatim (duplicates legal: loops).
pub struct Way {
    pub id: i64,
    pub tags: Vec<(String, String)>,
    pub node_ids: Vec<i64>,
    pub road_class: Option<Highway>,
    pub max_speed: Option<u8>,
}

impl View for Way {
    type V = WayV;

    open spec fn view(&self) -> WayV {
        WayV {
            id: self.id,
            tags: tag_views(self.tags@),
            node_ids: self.node_ids@,
            road_class: self.road_class,
            max_speed: self.max_speed,
        }
    }
}

/// The way that a raw record denotes: tags and geometry verbatim, road class
/// and max speed derived from the tags.
pub open spec fn way_of_data(id: i64, tags: Seq<(Seq<char>, Seq<char>)>, node_ids: Seq<i64>) -> WayV {
    WayV {
        id,
        tags,
        node_ids,
        road_class: class_of_tags(tags),
        max_speed: speed_of_tags(tags),
    }
}

impl Way {
    /// Builds a way from a raw record: iterates the tags once, classifying on
    /// `highway` keys and parsing `maxspeed` keys, and carries the node-id
    /// list verbatim, preserving order and duplicates.
    pub fn from_data(wd: WayData) -> (w: Way)
        ensures
            w@ == way_of_data(wd.id, tag_views(wd.tags@), wd.node_ids@),
    {
        let mut road_class: Option<Highway> = None;
        let mut max_speed: Option<u8> = None;
        let n = wd.tags.len();
        let mut i: usize = 0;
        while i < n
            invariant
                0 <= i <= n == wd.tags@.len(),
                road_class == class_of_tags(tag_views(wd.tags@).take(i as int)),
                max_speed == speed_of_tags(tag_views(wd.tags@).take(i as int)),
            decreases n - i,
        {
            let ghost pre = tag_views(wd.tags@).take(i as int);
            let ghost now = tag_views(wd.tags@).take(i as int + 1);
            assert(now.drop_last() =~= pre);
            assert(now.last() == (wd.tags@[i as int].0@, wd.tags@[i as int].1@));
            match WayTag::parse(wd.tags[i].0.as_str(), wd.tags[i].1.as_str()) {
                Some(WayTag::Highway(h)) => {
                    road_class = Some(h);
                },
                None => {},
            }
            if crate::road_class::str_eq(wd.tags[i].0.as_str(), "maxspeed") {
                match parse_max_speed(wd.tags[i].1.as_str()) {
                    Some(v) => {
                        max_speed = Some(v);
                    },
                    None => {},
                }
            }
            i = i + 1;
        }
        assert(tag_views(wd.tags@).take(n as int) =~= tag_views(wd.tags@));
        Way { id: wd.id, tags: wd.tags, node_ids: wd.node_ids, road_class, max_speed }
    }

    /// Whether the way has fewer than the two node references a well-formed
    /// geometry needs. A degenerate way is reportable, never fatal.
    pub fn is_degenerate(&self) -> (r: bool)
        ensures
            r == (self@.node_ids.len() < 2),
    {
        self.node_ids.len() < 2
    }
}

} // verus!
