//! The power grid: an undirected proximity graph over eligible entities,
//! kept incrementally with a cap on each node's degree and on edge length.
//!
//! The functions in this file state the maintenance pass as mathematics;
//! `PowerGrid` carries it out on a petgraph graph map.
use crate::geometry::{dist2, within, Pos};
use crate::links::edge_key;
use vstd::prelude::*;
use vstd::set_lib::lemma_len_subset;

verus! {

/// Settings of the power grid.
#[derive(Clone, Copy, Debug, PartialEq, Eq, Structural)]
pub struct EnergyPluginGroup {
    /// Longest edge, in world units.
    pub max_distance: u32,
    /// Most edges at one node.
    pub max_edges: usize,
    /// Transfer capacity that each edge carries.
    pub transfer_rate: u64,
}

impl EnergyPluginGroup {
    pub const DEFAULT_MAX_DISTANCE: u32 = 10;

    pub const DEFAULT_MAX_EDGES: usize = 4;

    pub const DEFAULT_TRANSFER_RATE: u64 = 1_000_000;

    pub fn new() -> (r: EnergyPluginGroup)
        ensures
            r.max_distance == Self::DEFAULT_MAX_DISTANCE,
            r.max_edges == Self::DEFAULT_MAX_EDGES,
            r.transfer_rate == Self::DEFAULT_TRANSFER_RATE,
    {
        EnergyPluginGroup {
            max_distance: Self::DEFAULT_MAX_DISTANCE,
            max_edges: Self::DEFAULT_MAX_EDGES,
            transfer_rate: Self::DEFAULT_TRANSFER_RATE,
        }
    }
}

/// The power grid as mathematics: the position at which each node was last
/// placed, and the canonical key of each edge.
pub struct GridView {
    pub nodes: Map<u64, Pos>,
    pub edges: Set<(u64, u64)>,
}

/// The nodes that share an edge with `v`.
pub open spec fn nbrs(edges: Set<(u64, u64)>, v: u64) -> Set<u64> {
    Set::new(|w: u64| edges.contains(edge_key(v, w)))
}

/// How many edges touch `v`.
pub open spec fn degree_of(edges: Set<(u64, u64)>, v: u64) -> nat {
    nbrs(edges, v).len()
}

/// Seen from `p`, node `a` (at `pa`) comes no later than node `b` (at `pb`):
/// nearer first, and at equal distance the lower id first.
pub open spec fn ranks_first(p: Pos, a: u64, pa: Pos, b: u64, pb: Pos) -> bool {
    dist2(p, pa) < dist2(p, pb) || (dist2(p, pa) == dist2(p, pb) && a <= b)
}

/// `v` is the first of `cs` as seen from node `u`.
pub open spec fn is_nearest(g: GridView, u: u64, cs: Set<u64>, v: u64) -> bool {
    &&& cs.contains(v)
    &&& forall|x: u64| #[trigger]
        cs.contains(x) ==> ranks_first(g.nodes[u], v, g.nodes[v], x, g.nodes[x])
}

pub open spec fn nearest_of(g: GridView, u: u64, cs: Set<u64>) -> u64 {
    choose|v: u64| is_nearest(g, u, cs, v)
}

/// `w` is the last of `v`'s neighbors as seen from `v`: the far end of its
/// longest edge.
pub open spec fn is_farthest(g: GridView, v: u64, w: u64) -> bool {
    &&& nbrs(g.edges, v).contains(w)
    &&& forall|x: u64| #[trigger]
        nbrs(g.edges, v).contains(x) ==> ranks_first(g.nodes[v], x, g.nodes[x], w, g.nodes[w])
}

pub open spec fn farthest_of(g: GridView, v: u64) -> u64 {
    choose|w: u64| is_farthest(g, v, w)
}

/// One offer of an edge from `u` to candidate `v`: taken when `v` has room;
/// when `v` is full, taken in place of `v`'s longest edge if strictly
/// shorter than it; else declined.
pub open spec fn try_link(g: GridView, u: u64, v: u64, cfg: EnergyPluginGroup) -> GridView {
    let k = edge_key(u, v);
    if g.edges.contains(k) {
        g
    } else if degree_of(g.edges, v) < cfg.max_edges {
        GridView { nodes: g.nodes, edges: g.edges.insert(k) }
    } else {
        let w = farthest_of(g, v);
        if is_farthest(g, v, w) && dist2(g.nodes[u], g.nodes[v]) < dist2(g.nodes[v], g.nodes[w]) {
            GridView { nodes: g.nodes, edges: g.edges.remove(edge_key(v, w)).insert(k) }
        } else {
            g
        }
    }
}

/// Offers edges from `u` to the candidates `cs`, nearest first, while `u`
/// has room.
pub open spec fn connect(g: GridView, u: u64, cs: Set<u64>, cfg: EnergyPluginGroup) -> GridView
    decreases cs.len(),
{
    if cs.finite() && cs.len() > 0 && degree_of(g.edges, u) < cfg.max_edges {
        let v = nearest_of(g, u, cs);
        if cs.contains(v) {
            connect(try_link(g, u, v, cfg), u, cs.remove(v), cfg)
        } else {
            g
        }
    } else {
        g
    }
}

/// The nodes that `u` may link to: other nodes within the maximum distance
/// of `u`, both in the spatial index and at their placed positions.
pub open spec fn candidates(
    g: GridView,
    u: u64,
    idx: Map<u64, Pos>,
    cfg: EnergyPluginGroup,
) -> Set<u64> {
    Set::new(
        |v: u64|
            v != u && g.nodes.contains_key(v) && idx.contains_key(v) && within(
                idx[u],
                idx[v],
                cfg.max_distance as int,
            ) && within(g.nodes[u], g.nodes[v], cfg.max_distance as int),
    )
}

pub open spec fn connect_one(
    g: GridView,
    u: u64,
    idx: Map<u64, Pos>,
    cfg: EnergyPluginGroup,
) -> GridView {
    connect(g, u, candidates(g, u, idx, cfg), cfg)
}

/// Connects each of `ts` in turn.
pub open spec fn connect_all(
    g: GridView,
    ts: Seq<u64>,
    idx: Map<u64, Pos>,
    cfg: EnergyPluginGroup,
) -> GridView
    decreases ts.len(),
{
    if ts.len() == 0 {
        g
    } else {
        connect_one(connect_all(g, ts.drop_last(), idx, cfg), ts.last(), idx, cfg)
    }
}

/// Deletes the nodes `rs` and every edge that touches one of them.
pub open spec fn drop_nodes(g: GridView, rs: Set<u64>) -> GridView {
    GridView {
        nodes: g.nodes.remove_keys(rs),
        edges: g.edges.filter(|k: (u64, u64)| !rs.contains(k.0) && !rs.contains(k.1)),
    }
}

/// Places each of `ts` at its position in the index, as a node, and
/// deletes every edge that touches one of them.
pub open spec fn place_nodes(g: GridView, ts: Set<u64>, idx: Map<u64, Pos>) -> GridView {
    GridView {
        nodes: Map::new(
            |e: u64| g.nodes.contains_key(e) || ts.contains(e),
            |e: u64|
                if ts.contains(e) {
                    idx[e]
                } else {
                    g.nodes[e]
                },
        ),
        edges: g.edges.filter(|k: (u64, u64)| !ts.contains(k.0) && !ts.contains(k.1)),
    }
}

/// One maintenance pass: the removed nodes go first, then the added and
/// moved ones are placed, then each of them is connected in turn.
pub open spec fn pass(
    g: GridView,
    removed: Seq<u64>,
    touched: Seq<u64>,
    idx: Map<u64, Pos>,
    cfg: EnergyPluginGroup,
) -> GridView {
    connect_all(
        place_nodes(drop_nodes(g, removed.to_set()), touched.to_set(), idx),
        touched,
        idx,
        cfg,
    )
}

/// Every edge joins two distinct nodes no farther apart than the maximum
/// distance, and no node has more than the maximum number of edges.
pub open spec fn valid(g: GridView, cfg: EnergyPluginGroup) -> bool {
    &&& g.nodes.dom().finite()
    &&& forall|k: (u64, u64)| #[trigger]
        g.edges.contains(k) ==> {
            &&& k.0 < k.1
            &&& g.nodes.contains_key(k.0)
            &&& g.nodes.contains_key(k.1)
            &&& within(g.nodes[k.0], g.nodes[k.1], cfg.max_distance as int)
        }
    &&& forall|v: u64| #[trigger] g.nodes.contains_key(v) ==> degree_of(g.edges, v) <= cfg.max_edges
}

/// Each node's neighbors are nodes, so there are finitely many.
pub proof fn lemma_nbrs_finite(g: GridView, cfg: EnergyPluginGroup, v: u64)
    requires
        valid(g, cfg),
    ensures
        nbrs(g.edges, v).subset_of(g.nodes.dom()),
        nbrs(g.edges, v).finite(),
{
    assert forall|w: u64| nbrs(g.edges, v).contains(w) implies g.nodes.dom().contains(w) by {
        assert(g.edges.contains(edge_key(v, w)));
    }
}

proof fn lemma_nbrs_insert(edges: Set<(u64, u64)>, a: u64, b: u64, x: u64)
    requires
        a != b,
    ensures
        nbrs(edges.insert(edge_key(a, b)), x) == (if x == a {
            nbrs(edges, x).insert(b)
        } else if x == b {
            nbrs(edges, x).insert(a)
        } else {
            nbrs(edges, x)
        }),
{
    assert(nbrs(edges.insert(edge_key(a, b)), x) =~= (if x == a {
        nbrs(edges, x).insert(b)
    } else if x == b {
        nbrs(edges, x).insert(a)
    } else {
        nbrs(edges, x)
    }));
}

proof fn lemma_nbrs_remove(edges: Set<(u64, u64)>, a: u64, b: u64, x: u64)
    requires
        a != b,
    ensures
        nbrs(edges.remove(edge_key(a, b)), x) == (if x == a {
            nbrs(edges, x).remove(b)
        } else if x == b {
            nbrs(edges, x).remove(a)
        } else {
            nbrs(edges, x)
        }),
{
    assert(nbrs(edges.remove(edge_key(a, b)), x) =~= (if x == a {
        nbrs(edges, x).remove(b)
    } else if x == b {
        nbrs(edges, x).remove(a)
    } else {
        nbrs(edges, x)
    }));
}

/// One offer keeps the grid within its bounds.
pub proof fn lemma_try_link_valid(g: GridView, u: u64, v: u64, cfg: EnergyPluginGroup)
    requires
        valid(g, cfg),
        g.nodes.contains_key(u),
        g.nodes.contains_key(v),
        u != v,
        within(g.nodes[u], g.nodes[v], cfg.max_distance as int),
        degree_of(g.edges, u) < cfg.max_edges,
    ensures
        valid(try_link(g, u, v, cfg), cfg),
        try_link(g, u, v, cfg).nodes == g.nodes,
{
    let k = edge_key(u, v);
    let r = try_link(g, u, v, cfg);
    if g.edges.contains(k) {
    } else if degree_of(g.edges, v) < cfg.max_edges {
        assert forall|x: u64| #[trigger] r.nodes.contains_key(x) implies degree_of(r.edges, x)
            <= cfg.max_edges by {
            lemma_nbrs_insert(g.edges, u, v, x);
            lemma_nbrs_finite(g, cfg, x);
        }
        assert(within(g.nodes[v], g.nodes[u], cfg.max_distance as int)) by {
            assert(dist2(g.nodes[v], g.nodes[u]) == dist2(g.nodes[u], g.nodes[v]))
                by (nonlinear_arith);
        }
    } else {
        let w = farthest_of(g, v);
        if is_farthest(g, v, w) && dist2(g.nodes[u], g.nodes[v]) < dist2(g.nodes[v], g.nodes[w]) {
            let e1 = g.edges.remove(edge_key(v, w));
            assert(g.edges.contains(edge_key(v, w)));
            assert(w != v);
            assert(w != u) by {
                if w == u {
                    assert(edge_key(v, w) == k);
                }
            }
            assert forall|x: u64| #[trigger] r.nodes.contains_key(x) implies degree_of(r.edges, x)
                <= cfg.max_edges by {
                lemma_nbrs_finite(g, cfg, x);
                lemma_nbrs_remove(g.edges, v, w, x);
                lemma_nbrs_insert(e1, u, v, x);
                if x == v {
                    assert(nbrs(g.edges, v).contains(w));
                    assert(!nbrs(e1, v).contains(u));
                }
            }
            assert(within(g.nodes[v], g.nodes[u], cfg.max_distance as int)) by {
                assert(dist2(g.nodes[v], g.nodes[u]) == dist2(g.nodes[u], g.nodes[v]))
                    by (nonlinear_arith);
            }
        }
    }
}


/// Connecting `u` to candidates keeps the grid within its bounds.
pub proof fn lemma_connect_valid(g: GridView, u: u64, cs: Set<u64>, cfg: EnergyPluginGroup)
    requires
        valid(g, cfg),
        g.nodes.contains_key(u),
        forall|v: u64| #[trigger]
            cs.contains(v) ==> v != u && g.nodes.contains_key(v) && within(
                g.nodes[u],
                g.nodes[v],
                cfg.max_distance as int,
            ),
    ensures
        valid(connect(g, u, cs, cfg), cfg),
        connect(g, u, cs, cfg).nodes == g.nodes,
    decreases cs.len(),
{
    if cs.finite() && cs.len() > 0 && degree_of(g.edges, u) < cfg.max_edges {
        let v = nearest_of(g, u, cs);
        if cs.contains(v) {
            lemma_try_link_valid(g, u, v, cfg);
            lemma_connect_valid(try_link(g, u, v, cfg), u, cs.remove(v), cfg);
        }
    }
}

proof fn lemma_connect_all_valid(g: GridView, ts: Seq<u64>, idx: Map<u64, Pos>, cfg: EnergyPluginGroup)
    requires
        valid(g, cfg),
        forall|i: int| 0 <= i < ts.len() ==> g.nodes.contains_key(#[trigger] ts[i]),
    ensures
        valid(connect_all(g, ts, idx, cfg), cfg),
        connect_all(g, ts, idx, cfg).nodes == g.nodes,
    decreases ts.len(),
{
    if ts.len() > 0 {
        let pre = ts.drop_last();
        assert forall|i: int| 0 <= i < pre.len() implies g.nodes.contains_key(#[trigger] pre[i]) by {
            assert(pre[i] == ts[i]);
        }
        lemma_connect_all_valid(g, pre, idx, cfg);
        let h = connect_all(g, pre, idx, cfg);
        let u = ts.last();
        assert(g.nodes.contains_key(ts[ts.len() - 1]));
        lemma_connect_valid(h, u, candidates(h, u, idx, cfg), cfg);
    }
}

/// A filter of the edges keeps every node's degree within the cap.
proof fn lemma_fewer_edges(g: GridView, edges: Set<(u64, u64)>, cfg: EnergyPluginGroup, v: u64)
    requires
        valid(g, cfg),
        edges.subset_of(g.edges),
        g.nodes.contains_key(v),
    ensures
        degree_of(edges, v) <= cfg.max_edges,
{
    lemma_nbrs_finite(g, cfg, v);
    assert(nbrs(edges, v).subset_of(nbrs(g.edges, v)));
    lemma_len_subset(nbrs(edges, v), nbrs(g.edges, v));
}

pub proof fn lemma_drop_keeps_bounds(g: GridView, rs: Set<u64>, cfg: EnergyPluginGroup)
    requires
        valid(g, cfg),
    ensures
        valid(drop_nodes(g, rs), cfg),
{
    let r = drop_nodes(g, rs);
    assert(r.nodes.dom() =~= g.nodes.dom().difference(rs));
    assert forall|v: u64| #[trigger] r.nodes.contains_key(v) implies degree_of(r.edges, v)
        <= cfg.max_edges by {
        lemma_fewer_edges(g, r.edges, cfg, v);
    }
}

pub proof fn lemma_place_keeps_bounds(g: GridView, ts: Set<u64>, idx: Map<u64, Pos>, cfg: EnergyPluginGroup)
    requires
        valid(g, cfg),
        ts.finite(),
    ensures
        valid(place_nodes(g, ts, idx), cfg),
        forall|e: u64| ts.contains(e) ==> #[trigger] place_nodes(g, ts, idx).nodes.contains_key(e),
{
    let r = place_nodes(g, ts, idx);
    assert(r.nodes.dom() =~= g.nodes.dom().union(ts));
    assert forall|k: (u64, u64)| #[trigger] r.edges.contains(k) implies {
        &&& k.0 < k.1
        &&& r.nodes.contains_key(k.0)
        &&& r.nodes.contains_key(k.1)
        &&& within(r.nodes[k.0], r.nodes[k.1], cfg.max_distance as int)
    } by {
        assert(g.edges.contains(k));
    }
    assert forall|v: u64| #[trigger] r.nodes.contains_key(v) implies degree_of(r.edges, v)
        <= cfg.max_edges by {
        if g.nodes.contains_key(v) {
            lemma_fewer_edges(g, r.edges, cfg, v);
        } else {
            assert(nbrs(r.edges, v) =~= Set::<u64>::empty()) by {
                assert forall|w: u64| !nbrs(r.edges, v).contains(w) by {
                    if r.edges.contains(edge_key(v, w)) {
                        assert(g.edges.contains(edge_key(v, w)));
                    }
                }
            }
        }
    }
}

/// After any maintenance pass, no node has more than the maximum number of
/// edges, and no edge is longer than the maximum distance: the pass keeps
/// `valid`, provided every added or moved entity is in the index.
pub proof fn lemma_pass_keeps_bounds(
    g: GridView,
    removed: Seq<u64>,
    touched: Seq<u64>,
    idx: Map<u64, Pos>,
    cfg: EnergyPluginGroup,
)
    requires
        valid(g, cfg),
        forall|i: int| 0 <= i < touched.len() ==> idx.contains_key(#[trigger] touched[i]),
    ensures
        valid(pass(g, removed, touched, idx, cfg), cfg),
{
    lemma_drop_keeps_bounds(g, removed.to_set(), cfg);
    let d = drop_nodes(g, removed.to_set());
    lemma_place_keeps_bounds(d, touched.to_set(), idx, cfg);
    let q = place_nodes(d, touched.to_set(), idx);
    assert forall|i: int| 0 <= i < touched.len() implies q.nodes.contains_key(#[trigger] touched[i]) by {
        assert(touched.to_set().contains(touched[i]));
    }
    lemma_connect_all_valid(q, touched, idx, cfg);
}

/// A pass with no notifications leaves the grid exactly as it was: running
/// a pass again when nothing changed gives the same edges.
pub proof fn lemma_quiet_pass_is_identity(g: GridView, idx: Map<u64, Pos>, cfg: EnergyPluginGroup)
    ensures
        pass(g, Seq::<u64>::empty(), Seq::<u64>::empty(), idx, cfg) == g,
{
    let none = Seq::<u64>::empty().to_set();
    assert(none =~= Set::<u64>::empty());
    let d = drop_nodes(g, none);
    assert(d.nodes =~= g.nodes);
    assert(d.edges =~= g.edges);
    let q = place_nodes(d, none, idx);
    assert(q.nodes =~= g.nodes);
    assert(q.edges =~= g.edges);
}

/// Two grids that are equal and get the same notifications against the same
/// index end equal: the outcome of a pass depends on nothing else, not on
/// the order in which any map or set is walked.
pub proof fn lemma_pass_is_deterministic(
    g1: GridView,
    g2: GridView,
    removed: Seq<u64>,
    touched: Seq<u64>,
    idx: Map<u64, Pos>,
    cfg: EnergyPluginGroup,
)
    requires
        g1 == g2,
    ensures
        pass(g1, removed, touched, idx, cfg) == pass(g2, removed, touched, idx, cfg),
{
}

/// The order in which removals are reported does not matter: two lists of
/// removed entities with the same members give the same grid.
pub proof fn lemma_removal_order_is_irrelevant(
    g: GridView,
    r1: Seq<u64>,
    r2: Seq<u64>,
    touched: Seq<u64>,
    idx: Map<u64, Pos>,
    cfg: EnergyPluginGroup,
)
    requires
        r1.to_set() == r2.to_set(),
    ensures
        pass(g, r1, touched, idx, cfg) == pass(g, r2, touched, idx, cfg),
{
}

} // verus!
