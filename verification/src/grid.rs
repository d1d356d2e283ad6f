//! The top-level spatial index. Nodes are bucketed into cells by the
//! coordinate transform, ways are held by identity, and the back-references
//! from nodes to the ways that use them are kept exact as elements arrive in
//! any order.

use vstd::prelude::*;

use crate::coords::{cell_coordinate, cell_key};
use crate::way::{
    tag_views, way_of_data, Element, Node, NodeData, NodeV, Way, WayData, WayV,
};

verus! {

/// The mathematical view of a cell: its key and the nodes bucketed in it.
#[verifier::ext_equal]
pub ghost struct CellV {
    pub coord: (int, int),
    pub nodes: Seq<NodeV>,
}

/// The mathematical view of the whole index.
#[verifier::ext_equal]
pub ghost struct GridV {
    pub cells: Seq<CellV>,
    pub ways: Seq<WayV>,
}

/// Whether a sequence of identities holds no duplicates.
pub open spec fn nodups(s: Seq<i64>) -> bool {
    forall|p: int, q: int| 0 <= p < q < s.len() ==> s[p] != s[q]
}

/// How often `x` occurs in `s`.
pub open spec fn count_of(s: Seq<i64>, x: i64) -> int
    decreases s.len(),
{
    if s.len() == 0 {
        0
    } else {
        count_of(s.drop_last(), x) + if s.last() == x {
            1int
        } else {
            0int
        }
    }
}

/// Whether some way of `ways` has identity `wid` and references node `nid`.
pub open spec fn ref_exists(ways: Seq<WayV>, wid: i64, nid: i64) -> bool {
    exists|j: int| 0 <= j < ways.len() && ways[j].id == wid && ways[j].node_ids.contains(nid)
}

/// The identities of the ways among `ways` that reference node `nid`, in
/// order of appearance.
pub open spec fn refs_of(ways: Seq<WayV>, nid: i64) -> Seq<i64>
    decreases ways.len(),
{
    if ways.len() == 0 {
        Seq::empty()
    } else {
        let earlier = refs_of(ways.drop_last(), nid);
        if ways.last().node_ids.contains(nid) {
            earlier.push(ways.last().id)
        } else {
            earlier
        }
    }
}

impl CellV {
    /// Whether some node of this cell has identity `id`.
    pub open spec fn has_node(self, id: i64) -> bool {
        exists|k: int| 0 <= k < self.nodes.len() && self.nodes[k].id == id
    }

    /// The position of the node with identity `id`.
    pub open spec fn node_idx(self, id: i64) -> int {
        choose|k: int| 0 <= k < self.nodes.len() && self.nodes[k].id == id
    }

    /// Node identities are unique within the cell, and every node's
    /// coordinates map to the cell's own key.
    pub open spec fn wf(self) -> bool {
        &&& forall|k: int, l: int|
            0 <= k < l < self.nodes.len() ==> self.nodes[k].id != self.nodes[l].id
        &&& forall|k: int|
            0 <= k < self.nodes.len() ==> cell_key(
                #[trigger] self.nodes[k].lat,
                self.nodes[k].lon,
            ) == self.coord
    }
}

impl GridV {
    /// Whether some cell has key `key`.
    pub open spec fn has_cell(self, key: (int, int)) -> bool {
        exists|i: int| 0 <= i < self.cells.len() && self.cells[i].coord == key
    }

    /// The position of the cell with key `key`.
    pub open spec fn cell_idx(self, key: (int, int)) -> int {
        choose|i: int| 0 <= i < self.cells.len() && self.cells[i].coord == key
    }

    /// Whether some way has identity `id`.
    pub open spec fn has_way(self, id: i64) -> bool {
        exists|j: int| 0 <= j < self.ways.len() && self.ways[j].id == id
    }

    /// The position of the way with identity `id`.
    pub open spec fn way_idx(self, id: i64) -> int {
        choose|j: int| 0 <= j < self.ways.len() && self.ways[j].id == id
    }

    /// Whether some cell holds a node with identity `id`.
    pub open spec fn has_node(self, id: i64) -> bool {
        exists|i: int| 0 <= i < self.cells.len() && (#[trigger] self.cells[i]).has_node(id)
    }

    /// Cell keys are unique, every cell is well formed, and a node identity
    /// occurs in at most one cell.
    pub open spec fn cells_wf(self) -> bool {
        &&& forall|i: int, j: int|
            0 <= i < j < self.cells.len() ==> self.cells[i].coord != self.cells[j].coord
        &&& forall|i: int| 0 <= i < self.cells.len() ==> (#[trigger] self.cells[i]).wf()
        &&& forall|i: int, j: int, id: i64|
            0 <= i < self.cells.len() && 0 <= j < self.cells.len() && i != j && (
            #[trigger] self.cells[i].has_node(id)) ==> !(#[trigger] self.cells[j].has_node(id))
    }

    /// Way identities are unique.
    pub open spec fn ways_wf(self) -> bool {
        forall|i: int, j: int| 0 <= i < j < self.ways.len() ==> self.ways[i].id != self.ways[j].id
    }

    /// The back-references of one node are exact: no duplicates, and they
    /// hold a way identity exactly when a present way of that identity
    /// references the node.
    pub open spec fn node_refs_ok(self, n: NodeV) -> bool {
        &&& nodups(n.way_refs)
        &&& forall|wid: i64| #[trigger]
            n.way_refs.contains(wid) <==> ref_exists(self.ways, wid, n.id)
    }

    /// Every node's back-references are exact.
    pub open spec fn refs_ok(self) -> bool {
        forall|i: int, k: int|
            0 <= i < self.cells.len() && 0 <= k < self.cells[i].nodes.len()
                ==> self.node_refs_ok(#[trigger] self.cells[i].nodes[k])
    }

    /// The index invariant, established by `Grid::new` and preserved by every
    /// insertion.
    pub open spec fn wf(self) -> bool {
        self.cells_wf() && self.ways_wf() && self.refs_ok()
    }
}

/// A cell with a node of identity `id` removed, or the cell unchanged where
/// it has none.
pub open spec fn scrub(c: CellV, id: i64) -> CellV {
    if c.has_node(id) {
        CellV { coord: c.coord, nodes: c.nodes.remove(c.node_idx(id)) }
    } else {
        c
    }
}

/// A cell with `n` written over the node of the same identity, in place, or
/// appended where the cell has none.
pub open spec fn cell_upsert(c: CellV, n: NodeV) -> CellV {
    if c.has_node(n.id) {
        CellV { coord: c.coord, nodes: c.nodes.update(c.node_idx(n.id), n) }
    } else {
        CellV { coord: c.coord, nodes: c.nodes.push(n) }
    }
}

/// What inserting a node record does to the index: the node's back-references
/// are computed from the ways already present, any stale entry of the same
/// identity in another cell is dropped, and the node is written into the cell
/// of its coordinate, which is created on first use.
pub open spec fn spec_insert_node(
    gv: GridV,
    id: i64,
    lat: i64,
    lon: i64,
    tags: Seq<(Seq<char>, Seq<char>)>,
) -> GridV {
    let node = NodeV { id, lat, lon, tags, way_refs: refs_of(gv.ways, id) };
    let key = cell_key(lat, lon);
    if gv.has_cell(key) {
        let ci = gv.cell_idx(key);
        GridV {
            cells: Seq::new(
                gv.cells.len(),
                |i: int|
                    if i == ci {
                        cell_upsert(gv.cells[i], node)
                    } else {
                        scrub(gv.cells[i], id)
                    },
            ),
            ways: gv.ways,
        }
    } else {
        GridV {
            cells: Seq::new(gv.cells.len(), |i: int| scrub(gv.cells[i], id)).push(
                CellV { coord: key, nodes: seq![node] },
            ),
            ways: gv.ways,
        }
    }
}

/// A reference list without its entry for `x`, where it has one.
pub open spec fn remove_ref(s: Seq<i64>, x: i64) -> Seq<i64> {
    if s.contains(x) {
        s.remove(s.index_of(x))
    } else {
        s
    }
}

/// A node with its back-reference to way `wid` made exact: any old entry is
/// dropped, and one entry is appended where the way references the node.
pub open spec fn upd_refs(n: NodeV, wid: i64, referenced: bool) -> NodeV {
    let cleaned = remove_ref(n.way_refs, wid);
    NodeV {
        id: n.id,
        lat: n.lat,
        lon: n.lon,
        tags: n.tags,
        way_refs: if referenced {
            cleaned.push(wid)
        } else {
            cleaned
        },
    }
}

/// A cell with every node's back-reference to way `wid` made exact.
pub open spec fn upd_cell(c: CellV, wid: i64, node_ids: Seq<i64>) -> CellV {
    CellV {
        coord: c.coord,
        nodes: c.nodes.map_values(|n: NodeV| upd_refs(n, wid, node_ids.contains(n.id))),
    }
}

/// What inserting a way record does to the index: the way is built from the
/// record, written over any way of the same identity or appended, and every
/// present node's back-reference to this identity is made exact.
pub open spec fn spec_insert_way(
    gv: GridV,
    id: i64,
    tags: Seq<(Seq<char>, Seq<char>)>,
    node_ids: Seq<i64>,
) -> GridV {
    let way = way_of_data(id, tags, node_ids);
    let ways2 = if gv.has_way(id) {
        gv.ways.update(gv.way_idx(id), way)
    } else {
        gv.ways.push(way)
    };
    GridV { cells: gv.cells.map_values(|c: CellV| upd_cell(c, id, node_ids)), ways: ways2 }
}

/// The ways referencing a node are listed by `refs_of` exactly once each,
/// as long as way identities are unique.
pub proof fn lemma_refs_of(ways: Seq<WayV>, nid: i64)
    requires
        forall|i: int, j: int| 0 <= i < j < ways.len() ==> ways[i].id != ways[j].id,
    ensures
        forall|wid: i64| #[trigger]
            refs_of(ways, nid).contains(wid) <==> ref_exists(ways, wid, nid),
        nodups(refs_of(ways, nid)),
    decreases ways.len(),
{
    if ways.len() > 0 {
        let prefix = ways.drop_last();
        let last = ways.last();
        assert(forall|i: int| 0 <= i < prefix.len() ==> prefix[i] == ways[i]);
        lemma_refs_of(prefix, nid);
        let r = refs_of(ways, nid);
        let rp = refs_of(prefix, nid);
        assert forall|wid: i64| #[trigger] r.contains(wid) implies ref_exists(ways, wid, nid) by {
            let p = choose|p: int| 0 <= p < r.len() && r[p] == wid;
            if last.node_ids.contains(nid) && p == rp.len() {
                assert(ways[ways.len() - 1].id == wid);
                assert(ways[ways.len() - 1].node_ids.contains(nid));
            } else {
                assert(rp[p] == wid);
                assert(rp.contains(wid));
                let j = choose|j: int|
                    0 <= j < prefix.len() && prefix[j].id == wid && prefix[j].node_ids.contains(
                        nid,
                    );
                assert(ways[j].id == wid && ways[j].node_ids.contains(nid));
            }
        }
        assert forall|wid: i64| ref_exists(ways, wid, nid) implies #[trigger] r.contains(wid) by {
            let j = choose|j: int|
                0 <= j < ways.len() && ways[j].id == wid && ways[j].node_ids.contains(nid);
            if j < ways.len() - 1 {
                assert(prefix[j].id == wid && prefix[j].node_ids.contains(nid));
                assert(ref_exists(prefix, wid, nid));
                assert(rp.contains(wid));
                let p = choose|p: int| 0 <= p < rp.len() && rp[p] == wid;
                assert(r[p] == wid);
            } else {
                assert(last.node_ids.contains(nid));
                assert(r[r.len() - 1] == wid);
            }
        }
        assert(nodups(r)) by {
            if last.node_ids.contains(nid) {
                if rp.contains(last.id) {
                    let j = choose|j: int|
                        0 <= j < prefix.len() && prefix[j].id == last.id
                            && prefix[j].node_ids.contains(nid);
                    assert(ways[j].id == ways[ways.len() - 1].id);
                    assert(false);
                }
                assert forall|p: int, q: int| 0 <= p < q < r.len() implies r[p] != r[q] by {
                    if q == r.len() - 1 {
                        assert(rp[p] == r[p]);
                        assert(rp.contains(r[p]));
                    }
                }
            }
        }
    }
}

/// Dropping the unique occurrence of `x` from a duplicate-free list keeps it
/// duplicate-free and drops exactly `x`.
pub proof fn lemma_remove_ref(s: Seq<i64>, x: i64)
    requires
        nodups(s),
    ensures
        nodups(remove_ref(s, x)),
        !remove_ref(s, x).contains(x),
        forall|y: i64| y != x ==> #[trigger] remove_ref(s, x).contains(y) == s.contains(y),
{
    if s.contains(x) {
        let idx = s.index_of(x);
        assert(0 <= idx < s.len() && s[idx] == x);
        let cleaned = remove_ref(s, x);
        assert(cleaned == s.remove(idx));
        assert(forall|k: int|
            0 <= k < cleaned.len() ==> cleaned[k] == (if k < idx {
                s[k]
            } else {
                s[k + 1]
            }));
        assert forall|y: i64| y != x implies #[trigger] cleaned.contains(y) == s.contains(y) by {
            if cleaned.contains(y) {
                let k = choose|k: int| 0 <= k < cleaned.len() && cleaned[k] == y;
                if k < idx {
                    assert(s[k] == y);
                } else {
                    assert(s[k + 1] == y);
                }
            }
            if s.contains(y) {
                let k = choose|k: int| 0 <= k < s.len() && s[k] == y;
                if k < idx {
                    assert(cleaned[k] == y);
                } else {
                    assert(k != idx);
                    assert(cleaned[k - 1] == y);
                }
            }
        }
        assert(!cleaned.contains(x)) by {
            if cleaned.contains(x) {
                let k = choose|k: int| 0 <= k < cleaned.len() && cleaned[k] == x;
                if k < idx {
                    assert(s[k] == s[idx]);
                } else {
                    assert(s[k + 1] == s[idx]);
                }
                assert(false);
            }
        }
    }
}

/// Scrubbing a node identity from a well-formed cell keeps the cell well
/// formed, leaves no node of that identity, and touches nothing else.
pub proof fn lemma_scrub(c: CellV, id: i64)
    requires
        c.wf(),
    ensures
        scrub(c, id).wf(),
        scrub(c, id).coord == c.coord,
        !scrub(c, id).has_node(id),
        forall|id2: i64|
            id2 != id ==> (#[trigger] scrub(c, id).has_node(id2)) == c.has_node(id2),
        forall|k: int|
            0 <= k < scrub(c, id).nodes.len() ==> c.nodes.contains(
                #[trigger] scrub(c, id).nodes[k],
            ),
{
    let s = scrub(c, id);
    if c.has_node(id) {
        let idx = c.node_idx(id);
        assert(0 <= idx < c.nodes.len() && c.nodes[idx].id == id);
        assert(forall|k: int|
            0 <= k < s.nodes.len() ==> s.nodes[k] == (if k < idx {
                c.nodes[k]
            } else {
                c.nodes[k + 1]
            }));
        assert(!s.has_node(id)) by {
            if s.has_node(id) {
                let k = choose|k: int| 0 <= k < s.nodes.len() && s.nodes[k].id == id;
                if k < idx {
                    assert(c.nodes[k].id == c.nodes[idx].id);
                } else {
                    assert(c.nodes[k + 1].id == c.nodes[idx].id);
                }
                assert(false);
            }
        }
        assert forall|id2: i64| id2 != id implies (#[trigger] s.has_node(id2)) == c.has_node(
            id2,
        ) by {
            if s.has_node(id2) {
                let k = choose|k: int| 0 <= k < s.nodes.len() && s.nodes[k].id == id2;
                if k < idx {
                    assert(c.nodes[k].id == id2);
                } else {
                    assert(c.nodes[k + 1].id == id2);
                }
            }
            if c.has_node(id2) {
                let k = choose|k: int| 0 <= k < c.nodes.len() && c.nodes[k].id == id2;
                assert(k != idx);
                if k < idx {
                    assert(s.nodes[k].id == id2);
                } else {
                    assert(s.nodes[k - 1].id == id2);
                }
            }
        }
        assert forall|k: int| 0 <= k < s.nodes.len() implies c.nodes.contains(
            #[trigger] s.nodes[k],
        ) by {
            if k < idx {
                assert(s.nodes[k] == c.nodes[k]);
            } else {
                assert(s.nodes[k] == c.nodes[k + 1]);
            }
        }
    } else {
        assert forall|k: int| 0 <= k < s.nodes.len() implies c.nodes.contains(
            #[trigger] s.nodes[k],
        ) by {
            assert(s.nodes[k] == c.nodes[k]);
        }
    }
}

/// Upserting a node whose coordinate maps to a well-formed cell's own key
/// keeps the cell well formed and changes membership only for that node's
/// identity.
pub proof fn lemma_upsert(c: CellV, n: NodeV)
    requires
        c.wf(),
        cell_key(n.lat, n.lon) == c.coord,
    ensures
        cell_upsert(c, n).wf(),
        cell_upsert(c, n).coord == c.coord,
        cell_upsert(c, n).has_node(n.id),
        forall|id2: i64|
            id2 != n.id ==> (#[trigger] cell_upsert(c, n).has_node(id2)) == c.has_node(id2),
        forall|k: int|
            0 <= k < cell_upsert(c, n).nodes.len() ==> (cell_upsert(c, n).nodes[k] == n
                || c.nodes.contains(#[trigger] cell_upsert(c, n).nodes[k])),
{
    let u = cell_upsert(c, n);
    if c.has_node(n.id) {
        let idx = c.node_idx(n.id);
        assert(0 <= idx < c.nodes.len() && c.nodes[idx].id == n.id);
        assert(u.nodes[idx] == n);
        assert(u.has_node(n.id));
        assert forall|id2: i64| id2 != n.id implies (#[trigger] u.has_node(id2)) == c.has_node(
            id2,
        ) by {
            if u.has_node(id2) {
                let k = choose|k: int| 0 <= k < u.nodes.len() && u.nodes[k].id == id2;
                assert(k != idx);
                assert(c.nodes[k].id == id2);
            }
            if c.has_node(id2) {
                let k = choose|k: int| 0 <= k < c.nodes.len() && c.nodes[k].id == id2;
                assert(k != idx);
                assert(u.nodes[k].id == id2);
            }
        }
    } else {
        assert(u.nodes[u.nodes.len() - 1] == n);
        assert(u.has_node(n.id));
        assert forall|id2: i64| id2 != n.id implies (#[trigger] u.has_node(id2)) == c.has_node(
            id2,
        ) by {
            if u.has_node(id2) {
                let k = choose|k: int| 0 <= k < u.nodes.len() && u.nodes[k].id == id2;
                assert(k < c.nodes.len());
                assert(c.nodes[k].id == id2);
            }
            if c.has_node(id2) {
                let k = choose|k: int| 0 <= k < c.nodes.len() && c.nodes[k].id == id2;
                assert(u.nodes[k].id == id2);
            }
        }
    }
}

/// Inserting a node record preserves the index invariant.
pub proof fn lemma_insert_node_wf(
    gv: GridV,
    id: i64,
    lat: i64,
    lon: i64,
    tags: Seq<(Seq<char>, Seq<char>)>,
)
    requires
        gv.wf(),
    ensures
        spec_insert_node(gv, id, lat, lon, tags).wf(),
{
    let node = NodeV { id, lat, lon, tags, way_refs: refs_of(gv.ways, id) };
    let key = cell_key(lat, lon);
    let g1 = spec_insert_node(gv, id, lat, lon, tags);
    lemma_refs_of(gv.ways, id);
    assert forall|i: int| 0 <= i < gv.cells.len() implies (#[trigger] gv.cells[i]).wf() by {}
    if gv.has_cell(key) {
        let ci = gv.cell_idx(key);
        assert(0 <= ci < gv.cells.len() && gv.cells[ci].coord == key);
        assert forall|i: int| 0 <= i < g1.cells.len() implies (#[trigger] g1.cells[i]).wf()
            && g1.cells[i].coord == gv.cells[i].coord by {
            if i == ci {
                lemma_upsert(gv.cells[i], node);
            } else {
                lemma_scrub(gv.cells[i], id);
            }
        }
        assert forall|i: int, j: int, id2: i64|
            0 <= i < g1.cells.len() && 0 <= j < g1.cells.len() && i != j && (
            #[trigger] g1.cells[i].has_node(id2)) implies !(#[trigger] g1.cells[j].has_node(
            id2,
        )) by {
            if i == ci {
                lemma_upsert(gv.cells[i], node);
                lemma_scrub(gv.cells[j], id);
                if id2 == id {
                    assert(!g1.cells[j].has_node(id2));
                } else {
                    assert(gv.cells[i].has_node(id2));
                    assert(!gv.cells[j].has_node(id2));
                }
            } else {
                lemma_scrub(gv.cells[i], id);
                assert(id2 != id);
                assert(gv.cells[i].has_node(id2));
                assert(!gv.cells[j].has_node(id2));
                if j == ci {
                    lemma_upsert(gv.cells[j], node);
                    assert(id2 != node.id);
                    assert(!g1.cells[j].has_node(id2));
                } else {
                    lemma_scrub(gv.cells[j], id);
                    assert(!g1.cells[j].has_node(id2));
                }
            }
        }
        assert forall|i: int, k: int|
            0 <= i < g1.cells.len() && 0 <= k < g1.cells[i].nodes.len() implies g1.node_refs_ok(
            #[trigger] g1.cells[i].nodes[k],
        ) by {
            let m = g1.cells[i].nodes[k];
            if i == ci {
                lemma_upsert(gv.cells[i], node);
                if m == node {
                    assert(g1.node_refs_ok(m));
                } else {
                    assert(gv.cells[i].nodes.contains(m));
                    let k2 = choose|k2: int|
                        0 <= k2 < gv.cells[i].nodes.len() && gv.cells[i].nodes[k2] == m;
                    assert(gv.node_refs_ok(m));
                }
            } else {
                lemma_scrub(gv.cells[i], id);
                assert(gv.cells[i].nodes.contains(m));
                let k2 = choose|k2: int|
                    0 <= k2 < gv.cells[i].nodes.len() && gv.cells[i].nodes[k2] == m;
                assert(gv.node_refs_ok(m));
            }
        }
    } else {
        let stripped = Seq::new(gv.cells.len(), |i: int| scrub(gv.cells[i], id));
        assert forall|i: int| 0 <= i < stripped.len() implies (#[trigger] stripped[i]).wf()
            && stripped[i].coord == gv.cells[i].coord by {
            lemma_scrub(gv.cells[i], id);
        }
        assert(g1.cells[g1.cells.len() - 1] == CellV { coord: key, nodes: seq![node] });
        assert forall|i: int| 0 <= i < g1.cells.len() implies (#[trigger] g1.cells[i]).wf() by {
            if i < gv.cells.len() {
                lemma_scrub(gv.cells[i], id);
            } else {
                let c = g1.cells[i];
                assert(c.nodes.len() == 1);
                assert(c.nodes[0] == node);
            }
        }
        assert forall|i: int, j: int|
            0 <= i < j < g1.cells.len() implies g1.cells[i].coord != g1.cells[j].coord by {
            if j < gv.cells.len() {
                lemma_scrub(gv.cells[i], id);
                lemma_scrub(gv.cells[j], id);
            } else {
                lemma_scrub(gv.cells[i], id);
                assert(g1.cells[i].coord == gv.cells[i].coord);
                assert(g1.cells[j].coord == key);
                assert(gv.cells[i].coord != key);
            }
        }
        assert forall|i: int, j: int, id2: i64|
            0 <= i < g1.cells.len() && 0 <= j < g1.cells.len() && i != j && (
            #[trigger] g1.cells[i].has_node(id2)) implies !(#[trigger] g1.cells[j].has_node(
            id2,
        )) by {
            if i == g1.cells.len() - 1 {
                assert(g1.cells[i].nodes.len() == 1 && g1.cells[i].nodes[0] == node);
                assert(id2 == id);
                lemma_scrub(gv.cells[j], id);
            } else {
                lemma_scrub(gv.cells[i], id);
                assert(id2 != id);
                assert(gv.cells[i].has_node(id2));
                if j == g1.cells.len() - 1 {
                    assert(g1.cells[j].nodes.len() == 1 && g1.cells[j].nodes[0] == node);
                    if g1.cells[j].has_node(id2) {
                        assert(false);
                    }
                } else {
                    lemma_scrub(gv.cells[j], id);
                    assert(!gv.cells[j].has_node(id2));
                }
            }
        }
        assert forall|i: int, k: int|
            0 <= i < g1.cells.len() && 0 <= k < g1.cells[i].nodes.len() implies g1.node_refs_ok(
            #[trigger] g1.cells[i].nodes[k],
        ) by {
            let m = g1.cells[i].nodes[k];
            if i == g1.cells.len() - 1 {
                assert(m == node);
            } else {
                lemma_scrub(gv.cells[i], id);
                assert(gv.cells[i].nodes.contains(m));
                let k2 = choose|k2: int|
                    0 <= k2 < gv.cells[i].nodes.len() && gv.cells[i].nodes[k2] == m;
                assert(gv.node_refs_ok(m));
            }
        }
    }
}

/// Inserting a way record preserves the index invariant.
pub proof fn lemma_insert_way_wf(
    gv: GridV,
    id: i64,
    tags: Seq<(Seq<char>, Seq<char>)>,
    node_ids: Seq<i64>,
)
    requires
        gv.wf(),
    ensures
        spec_insert_way(gv, id, tags, node_ids).wf(),
{
    let way = way_of_data(id, tags, node_ids);
    let g1 = spec_insert_way(gv, id, tags, node_ids);
    assert(g1.ways_wf()) by {
        if gv.has_way(id) {
            let wi = gv.way_idx(id);
            assert(0 <= wi < gv.ways.len() && gv.ways[wi].id == id);
            assert(forall|j: int| 0 <= j < g1.ways.len() ==> g1.ways[j].id == gv.ways[j].id);
        } else {
            assert forall|j: int| 0 <= j < gv.ways.len() implies (#[trigger] gv.ways[j].id)
                != id by {
                if gv.ways[j].id == id {
                    assert(gv.has_way(id));
                }
            }
        }
    }
    // the reference relation carried by the new way list
    assert forall|wid: i64, nid: i64| #[trigger]
        ref_exists(g1.ways, wid, nid) == (if wid == id {
            node_ids.contains(nid)
        } else {
            ref_exists(gv.ways, wid, nid)
        }) by {
        let wi: int = if gv.has_way(id) {
            gv.way_idx(id)
        } else {
            gv.ways.len() as int
        };
        if gv.has_way(id) {
            assert(0 <= wi < gv.ways.len() && gv.ways[wi].id == id);
        }
        assert(g1.ways[wi] == way);
        assert forall|j: int| 0 <= j < g1.ways.len() && j != wi implies #[trigger] g1.ways[j]
            == gv.ways[j] && gv.ways[j].id != id by {
            if gv.has_way(id) {
                let wi2 = gv.way_idx(id);
                assert(gv.ways[wi2].id == id);
            }
        }
        if wid == id {
            if ref_exists(g1.ways, wid, nid) {
                let j = choose|j: int|
                    0 <= j < g1.ways.len() && g1.ways[j].id == wid && g1.ways[j].node_ids.contains(
                        nid,
                    );
                assert(j == wi);
                assert(node_ids.contains(nid));
            }
            if node_ids.contains(nid) {
                assert(g1.ways[wi].id == wid && g1.ways[wi].node_ids.contains(nid));
            }
        } else {
            if ref_exists(g1.ways, wid, nid) {
                let j = choose|j: int|
                    0 <= j < g1.ways.len() && g1.ways[j].id == wid && g1.ways[j].node_ids.contains(
                        nid,
                    );
                assert(j != wi);
                assert(ref_exists(gv.ways, wid, nid));
            }
            if ref_exists(gv.ways, wid, nid) {
                let j = choose|j: int|
                    0 <= j < gv.ways.len() && gv.ways[j].id == wid && gv.ways[j].node_ids.contains(
                        nid,
                    );
                assert(j != wi);
                assert(g1.ways[j] == gv.ways[j]);
                assert(ref_exists(g1.ways, wid, nid));
            }
        }
    }
    // cells: shape and identities unchanged, back-references made exact
    assert forall|i: int, k: int|
        0 <= i < g1.cells.len() && 0 <= k < g1.cells[i].nodes.len() implies (
    #[trigger] g1.cells[i].nodes[k]) == upd_refs(
        gv.cells[i].nodes[k],
        id,
        node_ids.contains(gv.cells[i].nodes[k].id),
    ) by {}
    assert forall|i: int| 0 <= i < g1.cells.len() implies (#[trigger] g1.cells[i]).wf() by {
        assert(gv.cells[i].wf());
        assert forall|k: int| 0 <= k < g1.cells[i].nodes.len() implies cell_key(
            #[trigger] g1.cells[i].nodes[k].lat,
            g1.cells[i].nodes[k].lon,
        ) == g1.cells[i].coord by {
            assert(g1.cells[i].nodes[k].lat == gv.cells[i].nodes[k].lat);
            assert(g1.cells[i].nodes[k].lon == gv.cells[i].nodes[k].lon);
            assert(cell_key(gv.cells[i].nodes[k].lat, gv.cells[i].nodes[k].lon)
                == gv.cells[i].coord);
        }
        assert forall|k: int, l: int|
            0 <= k < l < g1.cells[i].nodes.len() implies g1.cells[i].nodes[k].id
            != g1.cells[i].nodes[l].id by {
            assert(g1.cells[i].nodes[k].id == gv.cells[i].nodes[k].id);
            assert(g1.cells[i].nodes[l].id == gv.cells[i].nodes[l].id);
        }
    }
    assert forall|i: int, id2: i64|
        0 <= i < g1.cells.len() implies (#[trigger] g1.cells[i].has_node(id2))
        == gv.cells[i].has_node(id2) by {
        if g1.cells[i].has_node(id2) {
            let k = choose|k: int|
                0 <= k < g1.cells[i].nodes.len() && g1.cells[i].nodes[k].id == id2;
            assert(gv.cells[i].nodes[k].id == id2);
        }
        if gv.cells[i].has_node(id2) {
            let k = choose|k: int|
                0 <= k < gv.cells[i].nodes.len() && gv.cells[i].nodes[k].id == id2;
            assert(g1.cells[i].nodes[k].id == id2);
        }
    }
    assert forall|i: int, k: int|
        0 <= i < g1.cells.len() && 0 <= k < g1.cells[i].nodes.len() implies g1.node_refs_ok(
        #[trigger] g1.cells[i].nodes[k],
    ) by {
        let n0 = gv.cells[i].nodes[k];
        let refd = node_ids.contains(n0.id);
        let n1 = g1.cells[i].nodes[k];
        assert(n1 == upd_refs(n0, id, refd));
        assert(gv.node_refs_ok(n0));
        lemma_remove_ref(n0.way_refs, id);
        let cleaned = remove_ref(n0.way_refs, id);
        assert(nodups(n1.way_refs)) by {
            if refd {
                assert forall|p: int, q: int|
                    0 <= p < q < n1.way_refs.len() implies n1.way_refs[p] != n1.way_refs[q] by {
                    if q == n1.way_refs.len() - 1 {
                        assert(n1.way_refs[p] == cleaned[p]);
                        assert(cleaned.contains(cleaned[p]));
                    }
                }
            }
        }
        assert forall|wid: i64| #[trigger]
            n1.way_refs.contains(wid) <==> ref_exists(g1.ways, wid, n1.id) by {
            assert(ref_exists(g1.ways, wid, n1.id) == (if wid == id {
                node_ids.contains(n1.id)
            } else {
                ref_exists(gv.ways, wid, n1.id)
            }));
            if wid == id {
                if refd {
                    assert(n1.way_refs[n1.way_refs.len() - 1] == id);
                    assert(n1.way_refs.contains(id));
                } else {
                    assert(!n1.way_refs.contains(id));
                }
            } else {
                assert(n1.way_refs.contains(wid) == cleaned.contains(wid)) by {
                    if refd {
                        if n1.way_refs.contains(wid) {
                            let p = choose|p: int|
                                0 <= p < n1.way_refs.len() && n1.way_refs[p] == wid;
                            assert(p < cleaned.len());
                            assert(cleaned[p] == wid);
                        }
                        if cleaned.contains(wid) {
                            let p = choose|p: int| 0 <= p < cleaned.len() && cleaned[p] == wid;
                            assert(n1.way_refs[p] == wid);
                        }
                    }
                }
                assert(cleaned.contains(wid) == n0.way_refs.contains(wid));
                assert(n0.way_refs.contains(wid) == ref_exists(gv.ways, wid, n0.id));
            }
        }
    }
    assert(g1.cells_wf()) by {
        assert(forall|i: int, j: int|
            0 <= i < j < g1.cells.len() ==> g1.cells[i].coord != g1.cells[j].coord);
        assert forall|i: int, j: int, id2: i64|
            0 <= i < g1.cells.len() && 0 <= j < g1.cells.len() && i != j && (
        #[trigger] g1.cells[i].has_node(id2)) implies !(#[trigger] g1.cells[j].has_node(
            id2,
        )) by {
            assert(gv.cells[i].has_node(id2));
            assert(!gv.cells[j].has_node(id2));
        }
    }
    assert(g1.refs_ok());
}

/// Whether `x` occurs in `v`.
#[verifier::loop_isolation(false)]
pub fn contains_i64(v: &Vec<i64>, x: i64) -> (r: bool)
    ensures
        r == v@.contains(x),
{
    let mut i: usize = 0;
    while i < v.len()
        invariant
            0 <= i <= v@.len(),
            forall|p: int| 0 <= p < i ==> v@[p] != x,
        decreases v@.len() - i,
    {
        if v[i] == x {
            assert(v@.contains(x));
            return true;
        }
        i = i + 1;
    }
    proof {
        if v@.contains(x) {
            let p = choose|p: int| 0 <= p < v@.len() && v@[p] == x;
            assert(false);
        }
    }
    false
}

/// The position of the first occurrence of `x` in `v`, if any.
#[verifier::loop_isolation(false)]
fn find_i64_idx(v: &Vec<i64>, x: i64) -> (r: Option<usize>)
    ensures
        match r {
            Some(p) => p < v@.len() && v@[p as int] == x,
            None => !v@.contains(x),
        },
{
    let mut i: usize = 0;
    while i < v.len()
        invariant
            0 <= i <= v@.len(),
            forall|p: int| 0 <= p < i ==> v@[p] != x,
        decreases v@.len() - i,
    {
        if v[i] == x {
            return Some(i);
        }
        i = i + 1;
    }
    proof {
        if v@.contains(x) {
            let p = choose|p: int| 0 <= p < v@.len() && v@[p] == x;
            assert(false);
        }
    }
    None
}

/// A bucket of the spatial grid: all nodes whose coordinates fall in one grid
/// square, keyed by the square's cell key.
pub struct Cell {
    pub coord: (i64, i64),
    pub nodes: Vec<Node>,
}

impl View for Cell {
    type V = CellV;

    open spec fn view(&self) -> CellV {
        CellV {
            coord: (self.coord.0 as int, self.coord.1 as int),
            nodes: self.nodes@.map_values(|n: Node| n@),
        }
    }
}

/// The spatial index: all cells, keyed by coordinate pair, and all ways,
/// keyed by identity.
pub struct Grid {
    pub cells: Vec<Cell>,
    pub ways: Vec<Way>,
}

impl View for Grid {
    type V = GridV;

    open spec fn view(&self) -> GridV {
        GridV {
            cells: self.cells@.map_values(|c: Cell| c@),
            ways: self.ways@.map_values(|w: Way| w@),
        }
    }
}

impl Grid {
    /// The empty index, as it stands at the start of an ingestion pass.
    pub fn new() -> (g: Grid)
        ensures
            g@ == (GridV { cells: Seq::<CellV>::empty(), ways: Seq::<WayV>::empty() }),
            g@.wf(),
    {
        let g = Grid { cells: Vec::new(), ways: Vec::new() };
        assert(g@.cells =~= Seq::<CellV>::empty());
        assert(g@.ways =~= Seq::<WayV>::empty());
        g
    }

    /// The position of the cell with the given key, if one exists.
    #[verifier::loop_isolation(false)]
    fn find_cell_idx(&self, key: (i64, i64)) -> (r: Option<usize>)
        ensures
            match r {
                Some(i) => i < self@.cells.len() && self@.cells[i as int].coord == (
                    key.0 as int,
                    key.1 as int,
                ),
                None => !self@.has_cell((key.0 as int, key.1 as int)),
            },
    {
        let ghost keyv = (key.0 as int, key.1 as int);
        let mut i: usize = 0;
        while i < self.cells.len()
            invariant
                0 <= i <= self.cells@.len(),
                self@.cells.len() == self.cells@.len(),
                forall|m: int| 0 <= m < i ==> self@.cells[m].coord != keyv,
            decreases self.cells@.len() - i,
        {
            proof {
                assert(self@.cells[i as int] == self.cells@[i as int]@);
            }
            let c0 = self.cells[i].coord.0;
            let c1 = self.cells[i].coord.1;
            assert(c0 == self.cells@[i as int].coord.0);
            assert(c1 == self.cells@[i as int].coord.1);
            if c0 == key.0 && c1 == key.1 {
                assert(self@.cells[i as int].coord == keyv);
                return Some(i);
            }
            assert(self@.cells[i as int].coord != keyv);
            i = i + 1;
        }
        proof {
            if self@.has_cell(keyv) {
                let m = choose|m: int|
                    0 <= m < self@.cells.len() && self@.cells[m].coord == keyv;
                assert(false);
            }
        }
        None
    }

    /// The position of the way with identity `id`, if one exists.
    #[verifier::loop_isolation(false)]
    fn find_way_idx(&self, id: i64) -> (r: Option<usize>)
        ensures
            match r {
                Some(j) => j < self@.ways.len() && self@.ways[j as int].id == id,
                None => !self@.has_way(id),
            },
    {
        let mut j: usize = 0;
        while j < self.ways.len()
            invariant
                0 <= j <= self.ways@.len(),
                self@.ways.len() == self.ways@.len(),
                forall|m: int| 0 <= m < j ==> self@.ways[m].id != id,
            decreases self.ways@.len() - j,
        {
            if self.ways[j].id == id {
                assert(self@.ways[j as int].id == id);
                return Some(j);
            }
            j = j + 1;
        }
        proof {
            if self@.has_way(id) {
                let m = choose|m: int| 0 <= m < self@.ways.len() && self@.ways[m].id == id;
                assert(false);
            }
        }
        None
    }

    /// The identities of the ways already present that reference node `nid`.
    #[verifier::loop_isolation(false)]
    fn collect_refs(&self, nid: i64) -> (refs: Vec<i64>)
        ensures
            refs@ == refs_of(self@.ways, nid),
    {
        let mut refs: Vec<i64> = Vec::new();
        let mut j: usize = 0;
        while j < self.ways.len()
            invariant
                0 <= j <= self.ways@.len(),
                self@.ways.len() == self.ways@.len(),
                refs@ == refs_of(self@.ways.take(j as int), nid),
            decreases self.ways@.len() - j,
        {
            let ghost pre = self@.ways.take(j as int);
            let ghost now = self@.ways.take(j as int + 1);
            assert(now.drop_last() =~= pre);
            assert(now.last() == self@.ways[j as int]);
            if contains_i64(&self.ways[j].node_ids, nid) {
                refs.push(self.ways[j].id);
            }
            j = j + 1;
        }
        assert(self@.ways.take(self.ways@.len() as int) =~= self@.ways);
        refs
    }
}

/// The position of the node with identity `id` in a cell, if any.
#[verifier::loop_isolation(false)]
fn find_node_idx(cell: &Cell, id: i64) -> (r: Option<usize>)
    ensures
        match r {
            Some(k) => k < cell@.nodes.len() && cell@.nodes[k as int].id == id,
            None => !cell@.has_node(id),
        },
{
    let mut k: usize = 0;
    while k < cell.nodes.len()
        invariant
            0 <= k <= cell.nodes@.len(),
            cell@.nodes.len() == cell.nodes@.len(),
            forall|m: int| 0 <= m < k ==> cell@.nodes[m].id != id,
        decreases cell.nodes@.len() - k,
    {
        if cell.nodes[k].id == id {
            assert(cell@.nodes[k as int].id == id);
            return Some(k);
        }
        k = k + 1;
    }
    proof {
        if cell@.has_node(id) {
            let m = choose|m: int| 0 <= m < cell@.nodes.len() && cell@.nodes[m].id == id;
            assert(false);
        }
    }
    None
}

impl Grid {
    /// Upserts the node of a record into the cell of its coordinate: its
    /// back-references are computed from the ways already present, any entry
    /// of the same identity elsewhere is dropped, and the cell is created on
    /// first use. Never fails: every coordinate has a bucket.
    #[verifier::loop_isolation(false)]
    pub fn insert_node(&mut self, nd: NodeData)
        requires
            old(self)@.wf(),
        ensures
            final(self)@ == spec_insert_node(
                old(self)@,
                nd.id,
                nd.lat,
                nd.lon,
                tag_views(nd.tags@),
            ),
            final(self)@.wf(),
    {
        let ghost g0 = self@;
        let ghost tagsv = tag_views(nd.tags@);
        let id = nd.id;
        let lat = nd.lat;
        let lon = nd.lon;
        let refs = self.collect_refs(id);
        let key = cell_coordinate(lat, lon);
        let ghost keyv = cell_key(lat, lon);
        assert((key.0 as int, key.1 as int) == keyv);
        let node = Node { id, lat, lon, tags: nd.tags, way_refs: refs };
        let ghost nodev = NodeV { id, lat, lon, tags: tagsv, way_refs: refs_of(g0.ways, id) };
        assert(node@ =~~= nodev);
        let target = self.find_cell_idx(key);
        let ghost ti: int = match target {
            Some(t) => t as int,
            None => -1,
        };
        let mut i: usize = 0;
        while i < self.cells.len()
            invariant
                0 <= i <= self.cells@.len(),
                self.cells@.len() == g0.cells.len(),
                self@.ways == g0.ways,
                forall|m: int| i <= m < g0.cells.len() ==> self@.cells[m] == g0.cells[m],
                forall|m: int|
                    0 <= m < i ==> self@.cells[m] == (if m == ti {
                        g0.cells[m]
                    } else {
                        scrub(g0.cells[m], id)
                    }),
            decreases self.cells@.len() - i,
        {
            let skip = match target {
                Some(t) => t == i,
                None => false,
            };
            if !skip {
                assert(self@.cells[i as int] == g0.cells[i as int]);
                assert(self.cells@[i as int]@ == g0.cells[i as int]);
                let kopt = find_node_idx(&self.cells[i], id);
                match kopt {
                    Some(k) => {
                        let ghost c0 = g0.cells[i as int];
                        let ghost before_exec = self.cells@;
                        let ghost before_view = self@.cells;
                        let mut cell = self.cells.remove(i);
                        assert(cell@ == c0);
                        let ghost pre_nodes = cell.nodes@;
                        cell.nodes.remove(k);
                        proof {
                            assert(c0.has_node(id));
                            assert(c0.wf());
                            let k2 = c0.node_idx(id);
                            assert(0 <= k2 < c0.nodes.len() && c0.nodes[k2].id == id);
                            assert(k2 == k as int);
                            assert(cell.nodes@ == pre_nodes.remove(k as int));
                            assert(cell@.nodes =~~= c0.nodes.remove(k as int));
                            assert(cell@ =~~= scrub(c0, id));
                        }
                        self.cells.insert(i, cell);
                        proof {
                            assert(self.cells@ =~= before_exec.update(i as int, cell));
                            assert forall|m: int|
                                0 <= m < g0.cells.len() implies self@.cells[m] == (if m
                                == i as int {
                                cell@
                            } else {
                                before_view[m]
                            }) by {
                                assert(self@.cells[m] == self.cells@[m]@);
                                if m != i as int {
                                    assert(self.cells@[m] == before_exec[m]);
                                    assert(before_view[m] == before_exec[m]@);
                                }
                            }
                        }
                    },
                    None => {
                        proof {
                            assert(!g0.cells[i as int].has_node(id));
                            assert(scrub(g0.cells[i as int], id) == g0.cells[i as int]);
                        }
                    },
                }
            }
            i = i + 1;
        }
        match target {
            Some(t) => {
                assert(self@.cells[t as int] == g0.cells[t as int]);
                assert(self.cells@[t as int]@ == g0.cells[t as int]);
                let kopt = find_node_idx(&self.cells[t], id);
                let ghost c0 = g0.cells[t as int];
                let ghost before_exec = self.cells@;
                let ghost before_view = self@.cells;
                let mut cell = self.cells.remove(t);
                assert(cell@ == c0);
                let ghost pre_nodes = cell.nodes@;
                match kopt {
                    Some(k) => {
                        cell.nodes.remove(k);
                        cell.nodes.insert(k, node);
                        proof {
                            assert(c0.has_node(id));
                            assert(c0.wf());
                            let k2 = c0.node_idx(id);
                            assert(0 <= k2 < c0.nodes.len() && c0.nodes[k2].id == id);
                            assert(k2 == k as int);
                            assert(cell.nodes@ =~~= pre_nodes.update(k as int, node));
                            assert(cell@.nodes =~~= c0.nodes.update(k as int, nodev));
                            assert(cell@ =~~= cell_upsert(c0, nodev));
                        }
                    },
                    None => {
                        cell.nodes.push(node);
                        proof {
                            assert(cell.nodes@ == pre_nodes.push(node));
                            assert(cell@.nodes =~~= c0.nodes.push(nodev));
                            assert(cell@ =~~= cell_upsert(c0, nodev));
                        }
                    },
                }
                self.cells.insert(t, cell);
                proof {
                    assert(g0.has_cell(keyv));
                    let ci = g0.cell_idx(keyv);
                    assert(0 <= ci < g0.cells.len() && g0.cells[ci].coord == keyv);
                    assert(ci == t as int);
                    let gfin = spec_insert_node(g0, id, lat, lon, tagsv);
                    assert(self.cells@ =~= before_exec.update(t as int, cell));
                    assert forall|m: int| 0 <= m < g0.cells.len() implies self@.cells[m]
                        =~~= gfin.cells[m] by {
                        assert(self@.cells[m] == self.cells@[m]@);
                        if m == t as int {
                            assert(self@.cells[m] == cell@);
                            assert(gfin.cells[m] == cell_upsert(c0, nodev));
                        } else {
                            assert(self.cells@[m] == before_exec[m]);
                            assert(self@.cells[m] == before_view[m]);
                            assert(before_view[m] == scrub(g0.cells[m], id));
                            assert(gfin.cells[m] == scrub(g0.cells[m], id));
                        }
                    }
                    assert(self@.cells =~~= gfin.cells);
                    assert(self@ =~~= gfin);
                    lemma_insert_node_wf(g0, id, lat, lon, tagsv);
                }
            },
            None => {
                let ghost before_exec = self.cells@;
                let ghost before_view = self@.cells;
                let mut new_nodes: Vec<Node> = Vec::new();
                new_nodes.push(node);
                let newcell = Cell { coord: key, nodes: new_nodes };
                proof {
                    assert(newcell@.coord == keyv);
                    assert(newcell@.nodes =~~= seq![nodev]);
                    assert(newcell@ =~~= (CellV { coord: keyv, nodes: seq![nodev] }));
                }
                self.cells.push(newcell);
                proof {
                    assert(!g0.has_cell(keyv));
                    let gfin = spec_insert_node(g0, id, lat, lon, tagsv);
                    let last = self@.cells.len() - 1;
                    assert forall|m: int| 0 <= m < self@.cells.len() implies self@.cells[m]
                        =~~= gfin.cells[m] by {
                        assert(self@.cells[m] == self.cells@[m]@);
                        if m < last {
                            assert(self.cells@[m] == before_exec[m]);
                            assert(before_view[m] == before_exec[m]@);
                            assert(before_view[m] == scrub(g0.cells[m], id));
                            assert(gfin.cells[m] == scrub(g0.cells[m], id));
                        } else {
                            assert(self.cells@[m] == newcell);
                            assert(gfin.cells[m] == (CellV { coord: keyv, nodes: seq![nodev] }));
                        }
                    }
                    assert(self@.cells =~~= gfin.cells);
                    assert(self@ =~~= gfin);
                    lemma_insert_node_wf(g0, id, lat, lon, tagsv);
                }
            },
        }
    }

    /// Builds the way of a record, writes it over any way of the same
    /// identity or appends it, and makes every present node's back-reference
    /// to it exact. A reference to a node not yet present is kept in the
    /// way's node list and resolved if that node arrives later.
    #[verifier::loop_isolation(false)]
    pub fn insert_way(&mut self, wd: WayData)
        requires
            old(self)@.wf(),
        ensures
            final(self)@ == spec_insert_way(old(self)@, wd.id, tag_views(wd.tags@), wd.node_ids@),
            final(self)@.wf(),
    {
        let ghost g0 = self@;
        let ghost tagsv = tag_views(wd.tags@);
        let ghost nidsv = wd.node_ids@;
        let id = wd.id;
        let way = Way::from_data(wd);
        let ghost wayv = way_of_data(id, tagsv, nidsv);
        assert(way@ == wayv);
        let mut i: usize = 0;
        while i < self.cells.len()
            invariant
                0 <= i <= self.cells@.len(),
                self.cells@.len() == g0.cells.len(),
                self@.ways == g0.ways,
                way@ == wayv,
                forall|m: int| i <= m < g0.cells.len() ==> self@.cells[m] == g0.cells[m],
                forall|m: int|
                    0 <= m < i ==> self@.cells[m] == upd_cell(g0.cells[m], id, nidsv),
            decreases self.cells@.len() - i,
        {
            let ghost c0 = g0.cells[i as int];
            let ghost before_exec = self.cells@;
            let ghost before_view = self@.cells;
            assert(self.cells@[i as int]@ == c0);
            let mut cell = self.cells.remove(i);
            assert(cell@ == c0);
            let mut k: usize = 0;
            while k < cell.nodes.len()
                invariant
                    0 <= k <= cell.nodes@.len(),
                    cell.nodes@.len() == c0.nodes.len(),
                    cell@.coord == c0.coord,
                    way@ == wayv,
                    forall|m: int| k <= m < c0.nodes.len() ==> cell@.nodes[m] == c0.nodes[m],
                    forall|m: int|
                        0 <= m < k ==> cell@.nodes[m] == upd_refs(
                            c0.nodes[m],
                            id,
                            nidsv.contains(c0.nodes[m].id),
                        ),
                decreases cell.nodes@.len() - k,
            {
                let ghost n0 = c0.nodes[k as int];
                let ghost bn_exec = cell.nodes@;
                let ghost bn_view = cell@.nodes;
                assert(cell.nodes@[k as int]@ == n0);
                let mut ndd = cell.nodes.remove(k);
                assert(ndd@ == n0);
                let ghost refs0 = ndd.way_refs@;
                proof {
                    assert(g0.cells[i as int].nodes[k as int] == n0);
                    assert(g0.node_refs_ok(n0));
                }
                let p = find_i64_idx(&ndd.way_refs, id);
                match p {
                    Some(pi) => {
                        ndd.way_refs.remove(pi);
                        proof {
                            assert(refs0.contains(id));
                            let q = refs0.index_of(id);
                            assert(0 <= q < refs0.len() && refs0[q] == id);
                            assert(q == pi as int);
                            assert(ndd.way_refs@ == remove_ref(refs0, id));
                        }
                    },
                    None => {
                        proof {
                            assert(!refs0.contains(id));
                            assert(ndd.way_refs@ == remove_ref(refs0, id));
                        }
                    },
                }
                let refd = contains_i64(&way.node_ids, ndd.id);
                assert(refd == nidsv.contains(n0.id));
                if refd {
                    ndd.way_refs.push(id);
                }
                proof {
                    assert(ndd@ =~~= upd_refs(n0, id, nidsv.contains(n0.id)));
                }
                cell.nodes.insert(k, ndd);
                proof {
                    assert(cell.nodes@ =~= bn_exec.update(k as int, ndd));
                    assert forall|m: int| 0 <= m < c0.nodes.len() implies cell@.nodes[m] == (if m
                        == k as int {
                        ndd@
                    } else {
                        bn_view[m]
                    }) by {
                        assert(cell@.nodes[m] == cell.nodes@[m]@);
                        if m != k as int {
                            assert(cell.nodes@[m] == bn_exec[m]);
                            assert(bn_view[m] == bn_exec[m]@);
                        }
                    }
                }
                k = k + 1;
            }
            proof {
                assert(cell@.nodes =~~= upd_cell(c0, id, nidsv).nodes);
                assert(cell@ =~~= upd_cell(c0, id, nidsv));
            }
            self.cells.insert(i, cell);
            proof {
                assert(self.cells@ =~= before_exec.update(i as int, cell));
                assert forall|m: int| 0 <= m < g0.cells.len() implies self@.cells[m] == (if m
                    == i as int {
                    cell@
                } else {
                    before_view[m]
                }) by {
                    assert(self@.cells[m] == self.cells@[m]@);
                    if m != i as int {
                        assert(self.cells@[m] == before_exec[m]);
                        assert(before_view[m] == before_exec[m]@);
                    }
                }
            }
            i = i + 1;
        }
        let ghost cells_done = self@.cells;
        proof {
            assert(forall|m: int|
                0 <= m < g0.cells.len() ==> cells_done[m] == upd_cell(g0.cells[m], id, nidsv));
        }
        let widx = self.find_way_idx(id);
        let ghost bw_exec = self.ways@;
        let ghost bw_view = self@.ways;
        match widx {
            Some(j) => {
                self.ways.remove(j);
                self.ways.insert(j, way);
                proof {
                    assert(self.ways@ =~= bw_exec.update(j as int, way));
                    assert(g0.has_way(id));
                    let wi = g0.way_idx(id);
                    assert(0 <= wi < g0.ways.len() && g0.ways[wi].id == id);
                    assert(wi == j as int);
                    assert forall|m: int| 0 <= m < g0.ways.len() implies self@.ways[m] == (if m
                        == j as int {
                        wayv
                    } else {
                        bw_view[m]
                    }) by {
                        assert(self@.ways[m] == self.ways@[m]@);
                        if m != j as int {
                            assert(self.ways@[m] == bw_exec[m]);
                            assert(bw_view[m] == bw_exec[m]@);
                        }
                    }
                    assert(self@.ways =~~= g0.ways.update(wi, wayv));
                }
            },
            None => {
                self.ways.push(way);
                proof {
                    assert(!g0.has_way(id));
                    assert forall|m: int| 0 <= m < self@.ways.len() implies self@.ways[m] == (if m
                        < g0.ways.len() {
                        bw_view[m]
                    } else {
                        wayv
                    }) by {
                        assert(self@.ways[m] == self.ways@[m]@);
                        if m < g0.ways.len() {
                            assert(self.ways@[m] == bw_exec[m]);
                            assert(bw_view[m] == bw_exec[m]@);
                        }
                    }
                    assert(self@.ways =~~= g0.ways.push(wayv));
                }
            },
        }
        proof {
            let gfin = spec_insert_way(g0, id, tagsv, nidsv);
            assert(self@.cells == cells_done);
            assert forall|m: int| 0 <= m < g0.cells.len() implies self@.cells[m]
                =~~= gfin.cells[m] by {
                assert(self@.cells[m] == cells_done[m]);
                assert(cells_done[m] == upd_cell(g0.cells[m], id, nidsv));
            }
            assert(self@.cells =~~= gfin.cells);
            assert(self@.ways =~~= gfin.ways);
            assert(self@ =~~= gfin);
            lemma_insert_way_wf(g0, id, tagsv, nidsv);
        }
    }

    /// Routes one decoded element into the index: a node record is bucketed
    /// into its cell, a way record is classified and linked, and any other
    /// record kind is ignored. Never fails; per-element tag anomalies are
    /// absorbed by the record constructors.
    pub fn insert(&mut self, el: Element)
        requires
            old(self)@.wf(),
        ensures
            final(self)@.wf(),
            (el matches Element::Node(nd) ==> final(self)@ == spec_insert_node(
                old(self)@,
                nd.id,
                nd.lat,
                nd.lon,
                tag_views(nd.tags@),
            )),
            (el matches Element::Way(wd) ==> final(self)@ == spec_insert_way(
                old(self)@,
                wd.id,
                tag_views(wd.tags@),
                wd.node_ids@,
            )),
            (el matches Element::Other ==> final(self)@ == old(self)@),
    {
        match el {
            Element::Node(nd) => self.insert_node(nd),
            Element::Way(wd) => self.insert_way(wd),
            Element::Other => {},
        }
    }

    /// How many cells the index holds.
    pub fn cell_count(&self) -> (n: usize)
        ensures
            n == self@.cells.len(),
    {
        self.cells.len()
    }

    /// How many ways the index holds.
    pub fn way_count(&self) -> (n: usize)
        ensures
            n == self@.ways.len(),
    {
        self.ways.len()
    }

    /// The stored node of identity `id`, where some cell holds one.
    #[verifier::loop_isolation(false)]
    pub fn find_node(&self, id: i64) -> (r: Option<&Node>)
        ensures
            match r {
                Some(n) => self@.has_node(id) && n@.id == id && exists|i: int, k: int|
                    0 <= i < self@.cells.len() && 0 <= k < self@.cells[i].nodes.len()
                        && self@.cells[i].nodes[k] == n@,
                None => !self@.has_node(id),
            },
    {
        let mut i: usize = 0;
        while i < self.cells.len()
            invariant
                0 <= i <= self.cells@.len(),
                forall|m: int| 0 <= m < i ==> !(#[trigger] self@.cells[m]).has_node(id),
            decreases self.cells@.len() - i,
        {
            let kopt = find_node_idx(&self.cells[i], id);
            match kopt {
                Some(k) => {
                    proof {
                        assert(self@.cells[i as int] == self.cells@[i as int]@);
                        assert(self@.cells[i as int].nodes[k as int].id == id);
                        assert(self@.cells[i as int].has_node(id));
                        assert(self@.cells[i as int].nodes[k as int]
                            == self.cells@[i as int].nodes@[k as int]@);
                    }
                    return Some(&self.cells[i].nodes[k]);
                },
                None => {
                    proof {
                        assert(self@.cells[i as int] == self.cells@[i as int]@);
                        assert(!self@.cells[i as int].has_node(id));
                    }
                },
            }
            i = i + 1;
        }
        proof {
            if self@.has_node(id) {
                let m = choose|m: int|
                    0 <= m < self@.cells.len() && (#[trigger] self@.cells[m]).has_node(id);
                assert(false);
            }
        }
        None
    }

    /// The stored way of identity `id`, where the index holds one.
    #[verifier::loop_isolation(false)]
    pub fn find_way(&self, id: i64) -> (r: Option<&Way>)
        ensures
            match r {
                Some(w) => self@.has_way(id) && w@.id == id && exists|j: int|
                    0 <= j < self@.ways.len() && self@.ways[j] == w@,
                None => !self@.has_way(id),
            },
    {
        let jopt = self.find_way_idx(id);
        match jopt {
            Some(j) => {
                proof {
                    assert(self@.has_way(id));
                    assert(self@.ways[j as int] == self.ways@[j as int]@);
                }
                Some(&self.ways[j])
            },
            None => None,
        }
    }
}

/// Whether the way at position `j` references some node absent from the
/// index: a dangling reference.
pub open spec fn way_dangling(gv: GridV, j: int) -> bool {
    exists|k: int|
        0 <= k < gv.ways[j].node_ids.len() && !gv.has_node(#[trigger] gv.ways[j].node_ids[k])
}

/// The identities of the dangling ways among the first `n`, in order.
pub open spec fn dangling_upto(gv: GridV, n: int) -> Seq<i64>
    decreases n,
{
    if n <= 0 {
        Seq::empty()
    } else {
        let pre = dangling_upto(gv, n - 1);
        if way_dangling(gv, n - 1) {
            pre.push(gv.ways[n - 1].id)
        } else {
            pre
        }
    }
}

impl Grid {
    /// Whether some cell holds a node of identity `id`.
    pub fn has_node(&self, id: i64) -> (r: bool)
        ensures
            r == self@.has_node(id),
    {
        match self.find_node(id) {
            Some(_) => true,
            None => false,
        }
    }

    /// The identities of the ways that hold at least one reference to a node
    /// absent from the index — the reportable condition at the end of an
    /// ingestion pass. Such ways are kept, and their consumers must treat
    /// them as having gaps.
    #[verifier::loop_isolation(false)]
    pub fn dangling_way_ids(&self) -> (r: Vec<i64>)
        ensures
            r@ == dangling_upto(self@, self@.ways.len() as int),
    {
        let mut r: Vec<i64> = Vec::new();
        assert(r@ =~= dangling_upto(self@, 0));
        let mut j: usize = 0;
        while j < self.ways.len()
            invariant
                0 <= j <= self.ways@.len(),
                self@.ways.len() == self.ways@.len(),
                r@ == dangling_upto(self@, j as int),
            decreases self.ways@.len() - j,
        {
            let ghost wv = self@.ways[j as int];
            assert(wv == self.ways@[j as int]@);
            let n = self.ways[j].node_ids.len();
            assert(wv.node_ids.len() == n);
            let mut dang = false;
            let mut k: usize = 0;
            while k < n
                invariant
                    0 <= k <= n == wv.node_ids.len(),
                    wv == self@.ways[j as int],
                    dang ==> way_dangling(self@, j as int),
                    !dang ==> forall|m: int| 0 <= m < k ==> self@.has_node(
                        #[trigger] wv.node_ids[m],
                    ),
                decreases n - k,
            {
                if !dang {
                    let nid = self.ways[j].node_ids[k];
                    assert(nid == wv.node_ids[k as int]);
                    if !self.has_node(nid) {
                        dang = true;
                        assert(way_dangling(self@, j as int));
                    }
                }
                k = k + 1;
            }
            proof {
                if !dang {
                    if way_dangling(self@, j as int) {
                        let m = choose|m: int|
                            0 <= m < wv.node_ids.len() && !self@.has_node(
                                #[trigger] wv.node_ids[m],
                            );
                        assert(false);
                    }
                }
                assert(dang == way_dangling(self@, j as int));
            }
            if dang {
                let wid = self.ways[j].id;
                assert(wid == wv.id);
                r.push(wid);
            }
            j = j + 1;
        }
        r
    }
}

/// The dangling report lists exactly the identities of the ways with an
/// unresolved reference, each once.
pub proof fn lemma_dangling_upto(gv: GridV, n: int)
    requires
        0 <= n <= gv.ways.len(),
        gv.ways_wf(),
    ensures
        forall|wid: i64| #[trigger]
            dangling_upto(gv, n).contains(wid) <==> (exists|j: int|
                0 <= j < n && (#[trigger] gv.ways[j]).id == wid && way_dangling(gv, j)),
        nodups(dangling_upto(gv, n)),
    decreases n,
{
    if n > 0 {
        lemma_dangling_upto(gv, n - 1);
        let d = dangling_upto(gv, n);
        let pre = dangling_upto(gv, n - 1);
        assert forall|wid: i64| #[trigger] d.contains(wid) implies (exists|j: int|
            0 <= j < n && (#[trigger] gv.ways[j]).id == wid && way_dangling(gv, j)) by {
            let p = choose|p: int| 0 <= p < d.len() && d[p] == wid;
            if way_dangling(gv, n - 1) && p == pre.len() {
                assert(gv.ways[n - 1].id == wid && way_dangling(gv, n - 1));
            } else {
                assert(pre[p] == wid);
                assert(pre.contains(wid));
                let j = choose|j: int|
                    0 <= j < n - 1 && (#[trigger] gv.ways[j]).id == wid && way_dangling(gv, j);
                assert(gv.ways[j].id == wid && way_dangling(gv, j));
            }
        }
        assert forall|wid: i64|
            (exists|j: int| 0 <= j < n && (#[trigger] gv.ways[j]).id == wid && way_dangling(gv, j))
            implies #[trigger] d.contains(wid) by {
            let j = choose|j: int|
                0 <= j < n && (#[trigger] gv.ways[j]).id == wid && way_dangling(gv, j);
            if j < n - 1 {
                assert(pre.contains(wid));
                let p = choose|p: int| 0 <= p < pre.len() && pre[p] == wid;
                assert(d[p] == wid);
            } else {
                assert(d[d.len() - 1] == wid);
            }
        }
        assert(nodups(d)) by {
            if way_dangling(gv, n - 1) {
                if pre.contains(gv.ways[n - 1].id) {
                    let j = choose|j: int|
                        0 <= j < n - 1 && (#[trigger] gv.ways[j]).id == gv.ways[n - 1].id
                            && way_dangling(gv, j);
                    assert(false);
                }
                assert forall|p: int, q: int| 0 <= p < q < d.len() implies d[p] != d[q] by {
                    if q == d.len() - 1 {
                        assert(pre[p] == d[p]);
                        assert(pre.contains(d[p]));
                    }
                }
            }
        }
    }
}

/// A duplicate-free list that holds `x` holds it exactly once.
pub proof fn lemma_count_nodups(s: Seq<i64>, x: i64)
    requires
        nodups(s),
    ensures
        count_of(s, x) == if s.contains(x) {
            1int
        } else {
            0int
        },
    decreases s.len(),
{
    if s.len() == 0 {
        if s.contains(x) {
            let p = choose|p: int| 0 <= p < s.len() && s[p] == x;
            assert(false);
        }
    } else {
        let pre = s.drop_last();
        assert(forall|m: int| 0 <= m < pre.len() ==> pre[m] == s[m]);
        lemma_count_nodups(pre, x);
        if s.last() == x {
            assert(s.contains(x)) by {
                assert(s[s.len() - 1] == x);
            }
            assert(!pre.contains(x)) by {
                if pre.contains(x) {
                    let p = choose|p: int| 0 <= p < pre.len() && pre[p] == x;
                    assert(s[p] == s[s.len() - 1]);
                    assert(false);
                }
            }
        } else {
            assert(pre.contains(x) == s.contains(x)) by {
                if pre.contains(x) {
                    let p = choose|p: int| 0 <= p < pre.len() && pre[p] == x;
                    assert(s[p] == x);
                }
                if s.contains(x) {
                    let p = choose|p: int| 0 <= p < s.len() && s[p] == x;
                    assert(p < s.len() - 1);
                    assert(pre[p] == x);
                }
            }
        }
    }
}

/// Referential integrity: in a well-formed index, a node's back-references
/// hold the identity of a way exactly once when a present way of that
/// identity references the node, and never otherwise. A way's reference to
/// an absent node produces no back-reference at all, and the way is held
/// regardless.
pub proof fn lemma_referential_integrity(gv: GridV, i: int, k: int, wid: i64)
    requires
        gv.wf(),
        0 <= i < gv.cells.len(),
        0 <= k < gv.cells[i].nodes.len(),
    ensures
        count_of(gv.cells[i].nodes[k].way_refs, wid) == (if ref_exists(
            gv.ways,
            wid,
            gv.cells[i].nodes[k].id,
        ) {
            1int
        } else {
            0int
        }),
{
    let n = gv.cells[i].nodes[k];
    assert(gv.node_refs_ok(n));
    lemma_count_nodups(n.way_refs, wid);
}

/// A node identity occupies exactly one slot of a well-formed index: two
/// occurrences of one identity coincide, so an overwriting insertion leaves
/// a single entry in a single cell.
pub proof fn lemma_node_unique(gv: GridV, i: int, k: int, j: int, l: int)
    requires
        gv.wf(),
        0 <= i < gv.cells.len(),
        0 <= k < gv.cells[i].nodes.len(),
        0 <= j < gv.cells.len(),
        0 <= l < gv.cells[j].nodes.len(),
        gv.cells[i].nodes[k].id == gv.cells[j].nodes[l].id,
    ensures
        i == j,
        k == l,
{
    let id = gv.cells[i].nodes[k].id;
    assert(gv.cells[i].has_node(id));
    assert(gv.cells[j].has_node(id));
    if i != j {
        assert(false);
    }
    if k != l {
        assert(gv.cells[i].wf());
        assert(false);
    }
}

} // verus!
