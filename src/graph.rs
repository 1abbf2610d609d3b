//! `PowerGrid`: the maintained proximity graph, stored in a petgraph graph
//! map, with the position at which each node was last placed.
use crate::geometry::{dist2, squared_distance, squared_radius, within, Pos};
use crate::spatial::SpatialIndex;
use crate::links::{
    edge_key, graph_add_edge, graph_add_node, graph_contains_edge, graph_edge_list, graph_edges,
    graph_neighbors, graph_new, graph_node_list, graph_nodes, graph_remove_edge, graph_remove_node,
    LinkGraph,
};
use crate::power::{
    candidates, connect, connect_all, connect_one, degree_of, drop_nodes, farthest_of,
    is_farthest, is_nearest, lemma_connect_valid, lemma_try_link_valid,
    nbrs, nearest_of, pass, place_nodes, ranks_first, try_link, valid, EnergyPluginGroup,
    GridView,
};
use std::collections::HashMap;
use vstd::prelude::*;

verus! {

broadcast use vstd::std_specs::hash::group_hash_axioms;

/// Why a maintenance pass was refused.
#[derive(Clone, Copy, Debug, PartialEq, Eq, Structural)]
pub enum GridError {
    /// An added or moved entity has no position in the spatial index: the
    /// grid and the index have drifted apart.
    InconsistentState,
}

proof fn lemma_farthest_unique(g: GridView, v: u64, a: u64, b: u64)
    requires
        is_farthest(g, v, a),
        is_farthest(g, v, b),
    ensures
        a == b,
{
    assert(ranks_first(g.nodes[v], a, g.nodes[a], b, g.nodes[b]));
    assert(ranks_first(g.nodes[v], b, g.nodes[b], a, g.nodes[a]));
}

proof fn lemma_nearest_unique(g: GridView, u: u64, cs: Set<u64>, a: u64, b: u64)
    requires
        is_nearest(g, u, cs, a),
        is_nearest(g, u, cs, b),
    ensures
        a == b,
{
    assert(ranks_first(g.nodes[u], a, g.nodes[a], b, g.nodes[b]));
    assert(ranks_first(g.nodes[u], b, g.nodes[b], a, g.nodes[a]));
}

/// One of the first `i` hits of a radius query is `x`.
spec fn hit_before(hits: Seq<(u128, u64)>, i: int, x: u64) -> bool {
    exists|j: int| 0 <= j < i && #[trigger] hits[j].1 == x
}

/// The proximity graph over eligible entities.
pub struct PowerGrid {
    graph: LinkGraph,
    positions: HashMap<u64, Pos>,
    config: EnergyPluginGroup,
}

impl View for PowerGrid {
    type V = GridView;

    closed spec fn view(&self) -> GridView {
        GridView { nodes: self.positions@, edges: graph_edges(self.graph).dom() }
    }
}

impl PowerGrid {
    /// The settings the grid was made with.
    pub closed spec fn cfg(&self) -> EnergyPluginGroup {
        self.config
    }

    /// The graph map and the positions agree on the nodes, every edge
    /// carries the configured capacity, and the grid is within its bounds.
    pub closed spec fn wf(&self) -> bool {
        &&& graph_nodes(self.graph) == self.positions@.dom()
        &&& forall|k: (u64, u64)| #[trigger]
            graph_edges(self.graph).contains_key(k) ==> graph_edges(self.graph)[k]
                == self.config.transfer_rate
        &&& valid(self@, self.config)
    }

    /// An empty grid.
    pub fn new(config: EnergyPluginGroup) -> (r: PowerGrid)
        ensures
            r.wf(),
            r.cfg() == config,
            r@.nodes == Map::<u64, Pos>::empty(),
            r@.edges == Set::<(u64, u64)>::empty(),
    {
        let r = PowerGrid { graph: graph_new(), positions: HashMap::new(), config };
        assert(graph_nodes(r.graph) =~= Set::<u64>::empty());
        assert(r@.edges =~= Set::<(u64, u64)>::empty());
        assert(r@.nodes.dom() =~= Set::<u64>::empty());
        r
    }

    /// The settings the grid was made with.
    pub fn settings(&self) -> (r: EnergyPluginGroup)
        ensures
            r == self.cfg(),
    {
        self.config
    }

    /// Whether `n` is a node.
    pub fn contains_node(&self, n: u64) -> (r: bool)
        ensures
            r == self@.nodes.contains_key(n),
    {
        self.positions.contains_key(&n)
    }

    /// The position at which node `n` was last placed.
    pub fn position(&self, n: u64) -> (r: Option<Pos>)
        ensures
            r == (if self@.nodes.contains_key(n) {
                Some(self@.nodes[n])
            } else {
                None::<Pos>
            }),
    {
        match self.positions.get(&n) {
            Some(p) => Some(*p),
            None => None,
        }
    }

    /// Whether `a` and `b` share an edge.
    pub fn has_edge(&self, a: u64, b: u64) -> (r: bool)
        ensures
            r == self@.edges.contains(edge_key(a, b)),
    {
        graph_contains_edge(&self.graph, a, b)
    }

    /// How many edges touch `v`.
    pub fn degree(&self, v: u64) -> (d: usize)
        ensures
            d == degree_of(self@.edges, v),
    {
        let ns = graph_neighbors(&self.graph, v);
        proof {
            ns@.unique_seq_to_set();
            assert(ns@.to_set() =~= nbrs(self@.edges, v));
        }
        ns.len()
    }

    /// The neighbors of `v`, each once.
    pub fn neighbors(&self, v: u64) -> (r: Vec<u64>)
        ensures
            r@.no_duplicates(),
            forall|w: u64| #[trigger] r@.contains(w) <==> nbrs(self@.edges, v).contains(w),
    {
        graph_neighbors(&self.graph, v)
    }

    /// Every node, each once.
    pub fn nodes(&self) -> (r: Vec<u64>)
        requires
            self.wf(),
        ensures
            r@.no_duplicates(),
            forall|n: u64| #[trigger] r@.contains(n) <==> self@.nodes.contains_key(n),
    {
        graph_node_list(&self.graph)
    }

    /// Every edge, each once, as its canonical key and its capacity.
    pub fn edges(&self) -> (r: Vec<(u64, u64, u64)>)
        requires
            self.wf(),
        ensures
            r@.no_duplicates(),
            forall|a: u64, b: u64, w: u64| #[trigger]
                r@.contains((a, b, w)) <==> (self@.edges.contains((a, b)) && w
                    == self.cfg().transfer_rate),
    {
        graph_edge_list(&self.graph)
    }

    /// The squared length of the edge between `a` and `b`, measured between
    /// the positions at which they were last placed; `None` without an edge.
    pub fn edge_length(&self, a: u64, b: u64) -> (r: Option<u128>)
        requires
            self.wf(),
        ensures
            r == (if self@.edges.contains(edge_key(a, b)) {
                Some(dist2(self@.nodes[a], self@.nodes[b]) as u128)
            } else {
                None::<u128>
            }),
    {
        if !graph_contains_edge(&self.graph, a, b) {
            return None;
        }
        assert(self@.edges.contains(edge_key(a, b)));
        Some(squared_distance(self.pos_of(a), self.pos_of(b)))
    }

    fn pos_of(&self, v: u64) -> (p: Pos)
        requires
            self@.nodes.contains_key(v),
        ensures
            p == self@.nodes[v],
    {
        match self.positions.get(&v) {
            Some(p) => *p,
            None => Pos { x: 0, y: 0 },
        }
    }

    /// The far end of `v`'s longest edge (at equal length, the higher id);
    /// `None` when `v` has no edge.
    pub fn reconsider_edges(&self, v: u64) -> (r: Option<u64>)
        requires
            self.wf(),
            self@.nodes.contains_key(v),
        ensures
            r is None <==> nbrs(self@.edges, v).is_empty(),
            r matches Some(w) ==> is_farthest(self@, v, w),
    {
        let ns = graph_neighbors(&self.graph, v);
        if ns.len() == 0 {
            assert(nbrs(self@.edges, v) =~= Set::<u64>::empty()) by {
                assert forall|w: u64| !nbrs(self@.edges, v).contains(w) by {
                    if nbrs(self@.edges, v).contains(w) {
                        assert(ns@.contains(w));
                    }
                }
            }
            return None;
        }
        let pv = self.pos_of(v);
        assert(ns@.contains(ns@[0]));
        assert(self@.edges.contains(edge_key(v, ns@[0])));
        let mut best = ns[0];
        let mut best_d = squared_distance(pv, self.pos_of(best));
        let mut i: usize = 1;
        while i < ns.len()
            invariant
                self.wf(),
                pv == self@.nodes[v],
                1 <= i <= ns.len(),
                forall|w: u64| #[trigger] ns@.contains(w) <==> nbrs(self@.edges, v).contains(w),
                nbrs(self@.edges, v).contains(best),
                self@.nodes.contains_key(best),
                best_d == dist2(pv, self@.nodes[best]),
                forall|j: int|
                    0 <= j < i ==> ranks_first(
                        pv,
                        #[trigger] ns@[j],
                        self@.nodes[ns@[j]],
                        best,
                        self@.nodes[best],
                    ),
            decreases ns.len() - i,
        {
            let x = ns[i];
            assert(ns@.contains(x));
            assert(self@.edges.contains(edge_key(v, x)));
            let d = squared_distance(pv, self.pos_of(x));
            if d > best_d || (d == best_d && x > best) {
                best = x;
                best_d = d;
            }
            i = i + 1;
        }
        proof {
            assert forall|x: u64| #[trigger]
                nbrs(self@.edges, v).contains(x) implies ranks_first(
                pv,
                x,
                self@.nodes[x],
                best,
                self@.nodes[best],
            ) by {
                assert(ns@.contains(x));
                let j = choose|j: int| 0 <= j < ns@.len() && ns@[j] == x;
            }
            assert(nbrs(self@.edges, v).contains(best));
        }
        Some(best)
    }

    /// Offers an edge from `u` to `v`, as `try_link` states.
    fn link(&mut self, u: u64, v: u64)
        requires
            old(self).wf(),
            old(self)@.nodes.contains_key(u),
            old(self)@.nodes.contains_key(v),
            u != v,
            within(old(self)@.nodes[u], old(self)@.nodes[v], old(self).cfg().max_distance as int),
            degree_of(old(self)@.edges, u) < old(self).cfg().max_edges,
        ensures
            final(self).wf(),
            final(self).cfg() == old(self).cfg(),
            final(self)@ == try_link(old(self)@, u, v, old(self).cfg()),
    {
        let ghost g = self@;
        proof {
            lemma_try_link_valid(g, u, v, self.config);
        }
        if graph_contains_edge(&self.graph, u, v) {
            return;
        }
        let rate = self.config.transfer_rate;
        if self.degree(v) < self.config.max_edges {
            graph_add_edge(&mut self.graph, u, v, rate);
            assert(graph_nodes(self.graph) =~= self.positions@.dom());
            assert(self@.edges =~= g.edges.insert(edge_key(u, v)));
            return;
        }
        match self.reconsider_edges(v) {
            Some(w) => {
                proof {
                    lemma_farthest_unique(g, v, w, farthest_of(g, v));
                }
                let pv = self.pos_of(v);
                if squared_distance(self.pos_of(u), pv) < squared_distance(pv, self.pos_of(w)) {
                    graph_remove_edge(&mut self.graph, v, w);
                    graph_add_edge(&mut self.graph, u, v, rate);
                    assert(graph_nodes(self.graph) =~= self.positions@.dom());
                    assert(self@.edges =~= g.edges.remove(edge_key(v, w)).insert(edge_key(u, v)));
                }
            },
            None => {
                proof {
                    if is_farthest(g, v, farthest_of(g, v)) {
                        assert(nbrs(g.edges, v).contains(farthest_of(g, v)));
                    }
                }
            },
        }
    }

    /// The position in `cands` of the candidate that `u` prefers: nearest,
    /// then lowest id.
    fn find_nearest(&self, u: u64, cands: &Vec<u64>) -> (bi: usize)
        requires
            self.wf(),
            self@.nodes.contains_key(u),
            cands.len() > 0,
            forall|j: int| 0 <= j < cands.len() ==> self@.nodes.contains_key(#[trigger] cands@[j]),
        ensures
            bi < cands.len(),
            is_nearest(self@, u, cands@.to_set(), cands@[bi as int]),
    {
        let pu = self.pos_of(u);
        let mut bi: usize = 0;
        let mut best_d = squared_distance(pu, self.pos_of(cands[0]));
        let mut i: usize = 1;
        while i < cands.len()
            invariant
                self.wf(),
                pu == self@.nodes[u],
                1 <= i <= cands.len(),
                bi < i,
                forall|j: int| 0 <= j < cands.len() ==> self@.nodes.contains_key(#[trigger] cands@[j]),
                best_d == dist2(pu, self@.nodes[cands@[bi as int]]),
                forall|j: int|
                    0 <= j < i ==> ranks_first(
                        pu,
                        cands@[bi as int],
                        self@.nodes[cands@[bi as int]],
                        #[trigger] cands@[j],
                        self@.nodes[cands@[j]],
                    ),
            decreases cands.len() - i,
        {
            let x = cands[i];
            let d = squared_distance(pu, self.pos_of(x));
            if d < best_d || (d == best_d && x < cands[bi]) {
                bi = i;
                best_d = d;
            }
            i = i + 1;
        }
        proof {
            assert forall|x: u64| #[trigger]
                cands@.to_set().contains(x) implies ranks_first(
                pu,
                cands@[bi as int],
                self@.nodes[cands@[bi as int]],
                x,
                self@.nodes[x],
            ) by {
                let j = choose|j: int| 0 <= j < cands@.len() && cands@[j] == x;
            }
            assert(cands@.to_set().contains(cands@[bi as int]));
        }
        bi
    }

    /// Links `u` to its candidates, nearest first, while `u` has room, as
    /// `connect_one` states. The candidates come from a radius query on the
    /// index around `u`.
    pub fn update_edges_helper<I: SpatialIndex>(&mut self, index: &I, u: u64)
        requires
            old(self).wf(),
            index.ready(),
            old(self)@.nodes.contains_key(u),
            index.positions().contains_key(u),
        ensures
            final(self).wf(),
            final(self).cfg() == old(self).cfg(),
            final(self)@ == connect_one(old(self)@, u, index.positions(), old(self).cfg()),
            final(self)@.nodes == old(self)@.nodes,
    {
        let ghost g = self@;
        let ghost cfg = self.config;
        let center = match index.position(u) {
            Some(p) => p,
            None => Pos { x: 0, y: 0 },
        };
        let hits = index.query_radius(center, self.config.max_distance);
        let pu = self.pos_of(u);
        let r2 = squared_radius(self.config.max_distance);
        let mut cands: Vec<u64> = Vec::new();
        let mut i: usize = 0;
        while i < hits.len()
            invariant
                self@ == g,
                self.wf(),
                pu == g.nodes[u],
                r2 == cfg.max_distance * cfg.max_distance,
                cfg == self.config,
                0 <= i <= hits.len(),
                forall|a: int, b: int|
                    0 <= a < hits@.len() && 0 <= b < hits@.len() && a != b ==> hits@[a].1 != hits@[b].1,
                cands@.no_duplicates(),
                forall|v: u64| #[trigger]
                    cands@.contains(v) <==> hit_before(hits@, i as int, v)
                        && v != u && g.nodes.contains_key(v) && within(
                        g.nodes[u],
                        g.nodes[v],
                        cfg.max_distance as int,
                    ),
            decreases hits.len() - i,
        {
            let v = hits[i].1;
            let ghost pre = cands@;
            proof {
                assert forall|x: u64|
                    #[trigger] hit_before(hits@, i + 1, x) <==> (hit_before(hits@, i as int, x) || x == v) by {
                    if x == v {
                        assert(hits@[i as int].1 == x);
                    }
                    if hit_before(hits@, i as int, x) {
                        let j = choose|j: int| 0 <= j < i && #[trigger] hits@[j].1 == x;
                        assert(hits@[j].1 == x);
                    }
                    if hit_before(hits@, i + 1, x) {
                        let j = choose|j: int| 0 <= j < i + 1 && #[trigger] hits@[j].1 == x;
                        if j < i {
                            assert(hit_before(hits@, i as int, x));
                        }
                    }
                }
                assert(!pre.contains(v)) by {
                    if pre.contains(v) {
                        assert(hit_before(hits@, i as int, v));
                        let j = choose|j: int| 0 <= j < i && #[trigger] hits@[j].1 == v;
                        assert(hits@[j].1 == hits@[i as int].1);
                    }
                }
            }
            if v != u && self.positions.contains_key(&v) {
                if squared_distance(pu, self.pos_of(v)) <= r2 {
                    cands.push(v);
                    proof {
                        assert forall|x: u64| #[trigger] cands@.contains(x) <==> (pre.contains(x) || x == v) by {
                            if cands@.contains(x) {
                                let j = choose|j: int| 0 <= j < cands@.len() && cands@[j] == x;
                                if j < pre.len() {
                                    assert(pre[j] == x);
                                }
                            }
                            if pre.contains(x) {
                                let j = choose|j: int| 0 <= j < pre.len() && pre[j] == x;
                                assert(cands@[j] == x);
                            }
                            if x == v {
                                assert(cands@[pre.len() as int] == v);
                            }
                        }
                        assert forall|a: int, b: int|
                            0 <= a < cands@.len() && 0 <= b < cands@.len() && a != b implies cands@[a]
                            != cands@[b] by {
                            if a == pre.len() {
                                assert(pre.contains(cands@[b]));
                            } else if b == pre.len() {
                                assert(pre.contains(cands@[a]));
                            }
                        }
                    }
                }
            }
            i = i + 1;
        }
        proof {
            assert(cands@.to_set() =~= candidates(g, u, index.positions(), cfg)) by {
                assert forall|v: u64| cands@.to_set().contains(v) <==> candidates(g, u, index.positions(), cfg).contains(v) by {
                    if index.positions().contains_key(v) && within(index.positions()[u], index.positions()[v], cfg.max_distance as int) {
                        let j = choose|j: int| 0 <= j < hits@.len() && #[trigger] hits@[j].1 == v;
                        assert(hit_before(hits@, hits@.len() as int, v));
                    }
                    if cands@.contains(v) {
                        assert(hit_before(hits@, hits@.len() as int, v));
                        let j = choose|j: int| 0 <= j < hits@.len() && #[trigger] hits@[j].1 == v;
                        assert(hits@[j].1 == v);
                    }
                }
            }
        }
        let ghost target = connect(g, u, cands@.to_set(), cfg);
        let mut room = self.degree(u) < self.config.max_edges;
        while room && cands.len() > 0
            invariant
                self.wf(),
                cfg == self.config,
                self@.nodes == g.nodes,
                g.nodes.contains_key(u),
                room == (degree_of(self@.edges, u) < cfg.max_edges),
                cands@.no_duplicates(),
                forall|v: u64| #[trigger]
                    cands@.contains(v) ==> v != u && g.nodes.contains_key(v) && within(
                        g.nodes[u],
                        g.nodes[v],
                        cfg.max_distance as int,
                    ),
                connect(self@, u, cands@.to_set(), cfg) == target,
            decreases cands.len(),
        {
            proof {
                assert forall|j: int| 0 <= j < cands.len() implies self@.nodes.contains_key(#[trigger] cands@[j]) by {
                    assert(cands@.contains(cands@[j]));
                }
            }
            let bi = self.find_nearest(u, &cands);
            let ghost s0 = self@;
            let ghost cs = cands@.to_set();
            let ghost c0 = cands@;
            let v = cands.swap_remove(bi);
            proof {
                assert(cs.contains(c0[0]));
                lemma_nearest_unique(s0, u, cs, v, nearest_of(s0, u, cs));
                assert(c0.contains(v));
                assert(cands@.to_set() =~= cs.remove(v)) by {
                    assert forall|x: u64| cands@.to_set().contains(x) <==> cs.remove(v).contains(x) by {
                        if cands@.contains(x) {
                            let j = choose|j: int| 0 <= j < cands@.len() && cands@[j] == x;
                            if j == bi {
                                assert(x == c0[c0.len() - 1]);
                                assert(c0.len() - 1 != bi);
                            } else {
                                assert(x == c0[j]);
                                assert(j != bi);
                            }
                        }
                        if cs.remove(v).contains(x) {
                            let j = choose|j: int| 0 <= j < c0.len() && c0[j] == x;
                            assert(j != bi);
                            if j == c0.len() - 1 {
                                assert(cands@[bi as int] == x);
                            } else {
                                assert(cands@[j] == x);
                            }
                        }
                    }
                }
                assert(cands@.no_duplicates()) by {
                    assert forall|a: int, b: int|
                        0 <= a < cands@.len() && 0 <= b < cands@.len() && a != b implies cands@[a]
                        != cands@[b] by {
                        let ia = if a == bi { c0.len() - 1 } else { a };
                        let ib = if b == bi { c0.len() - 1 } else { b };
                        assert(cands@[a] == c0[ia]);
                        assert(cands@[b] == c0[ib]);
                    }
                }
                assert forall|x: u64| #[trigger] cands@.contains(x) implies c0.contains(x) by {
                    assert(cands@.to_set().contains(x));
                }
            }
            assert(c0.contains(v));
            self.link(u, v);
            room = self.degree(u) < self.config.max_edges;
        }
        proof {
            if cands.len() == 0 {
                assert(cands@.to_set() =~= Set::<u64>::empty());
            }
            lemma_connect_valid(g, u, candidates(g, u, index.positions(), cfg), cfg);
        }
    }

    /// Deletes the nodes `removed` and every edge that touches one of them,
    /// as `drop_nodes` states.
    pub fn update_nodes_helper(&mut self, removed: &Vec<u64>)
        requires
            old(self).wf(),
        ensures
            final(self).wf(),
            final(self).cfg() == old(self).cfg(),
            final(self)@ == drop_nodes(old(self)@, removed@.to_set()),
    {
        let ghost g = self@;
        let mut i: usize = 0;
        proof {
            let d = drop_nodes(g, removed@.subrange(0, 0).to_set());
            assert(d.nodes =~= g.nodes);
            assert(d.edges =~= g.edges);
        }
        while i < removed.len()
            invariant
                self.wf(),
                self.config == old(self).config,
                valid(g, self.config),
                0 <= i <= removed.len(),
                self@ == drop_nodes(g, removed@.subrange(0, i as int).to_set()),
            decreases removed.len() - i,
        {
            let r = removed[i];
            let ghost s0 = self@;
            let ghost w0 = graph_edges(self.graph);
            graph_remove_node(&mut self.graph, r);
            self.positions.remove(&r);
            proof {
                let pre = removed@.subrange(0, i as int).to_set();
                let now = removed@.subrange(0, i + 1).to_set();
                assert(now =~= pre.insert(r)) by {
                    assert(removed@.subrange(0, i + 1) =~= removed@.subrange(0, i as int).push(r));
                    removed@.subrange(0, i as int).lemma_push_to_set_commute(r);
                }
                let d = drop_nodes(g, now);
                assert(self@.nodes =~= d.nodes);
                assert(self@.edges =~= d.edges);
                assert(graph_nodes(self.graph) =~= self.positions@.dom());
                crate::power::lemma_drop_keeps_bounds(g, now, self.config);
            }
            i = i + 1;
        }
        assert(removed@.subrange(0, removed@.len() as int) =~= removed@);
    }

    /// Places each of `touched` as a node at its position in the index and
    /// deletes every edge that touches one of them, as `place_nodes` states.
    fn place_touched<I: SpatialIndex>(&mut self, index: &I, touched: &Vec<u64>)
        requires
            old(self).wf(),
            forall|i: int| 0 <= i < touched.len() ==> index.positions().contains_key(#[trigger] touched@[i]),
        ensures
            final(self).wf(),
            final(self).cfg() == old(self).cfg(),
            final(self)@ == place_nodes(old(self)@, touched@.to_set(), index.positions()),
    {
        let ghost g = self@;
        let mut i: usize = 0;
        proof {
            let d = place_nodes(g, touched@.subrange(0, 0).to_set(), index.positions());
            assert(d.nodes =~= g.nodes);
            assert(d.edges =~= g.edges);
        }
        while i < touched.len()
            invariant
                self.wf(),
                self.config == old(self).config,
                valid(g, self.config),
                0 <= i <= touched.len(),
                forall|i: int| 0 <= i < touched.len() ==> index.positions().contains_key(#[trigger] touched@[i]),
                self@ == place_nodes(g, touched@.subrange(0, i as int).to_set(), index.positions()),
            decreases touched.len() - i,
        {
            let t = touched[i];
            assert(index.positions().contains_key(touched@[i as int]));
            let p = match index.position(t) {
                Some(p) => p,
                None => Pos { x: 0, y: 0 },
            };
            graph_remove_node(&mut self.graph, t);
            graph_add_node(&mut self.graph, t);
            self.positions.insert(t, p);
            proof {
                let pre = touched@.subrange(0, i as int).to_set();
                let now = touched@.subrange(0, i + 1).to_set();
                assert(now =~= pre.insert(t)) by {
                    assert(touched@.subrange(0, i + 1) =~= touched@.subrange(0, i as int).push(t));
                    touched@.subrange(0, i as int).lemma_push_to_set_commute(t);
                }
                let d = place_nodes(g, now, index.positions());
                assert(self@.nodes =~= d.nodes);
                assert(self@.edges =~= d.edges);
                assert(graph_nodes(self.graph) =~= self.positions@.dom());
                crate::power::lemma_place_keeps_bounds(g, now, index.positions(), self.config);
            }
            i = i + 1;
        }
        assert(touched@.subrange(0, touched@.len() as int) =~= touched@);
    }

    /// One maintenance pass, as `pass` states: the nodes in `removed` go,
    /// then those in `added` and `moved` are placed at their positions in
    /// the index and connected in that order. A moved entity that is not yet
    /// a node is taken as added. Refused with `InconsistentState`, and
    /// nothing changed, when an added or moved entity is not in the index.
    pub fn update_power_grid<I: SpatialIndex>(
        &mut self,
        index: &I,
        removed: &Vec<u64>,
        added: &Vec<u64>,
        moved: &Vec<u64>,
    ) -> (r: Result<(), GridError>)
        requires
            old(self).wf(),
            index.ready(),
        ensures
            final(self).wf(),
            final(self).cfg() == old(self).cfg(),
            r is Ok <==> (forall|i: int| 0 <= i < added.len() ==> index.positions().contains_key(#[trigger] added@[i]))
                && (forall|i: int| 0 <= i < moved.len() ==> index.positions().contains_key(#[trigger] moved@[i])),
            r is Ok ==> final(self)@ == pass(old(self)@, removed@, added@ + moved@, index.positions(), old(self).cfg()),
            r is Err ==> r == Err::<(), GridError>(GridError::InconsistentState) && final(self)@ == old(self)@,
    {
        let ghost g = self@;
        let ghost cfg = self.config;
        let mut touched: Vec<u64> = Vec::new();
        let mut i: usize = 0;
        while i < added.len()
            invariant
                self.wf(),
                self@ == g,
                self.config == cfg,
                cfg == old(self).config,
                0 <= i <= added.len(),
                touched@ == added@.subrange(0, i as int),
                forall|j: int| 0 <= j < i ==> index.positions().contains_key(#[trigger] added@[j]),
            decreases added.len() - i,
        {
            if index.position(added[i]).is_none() {
                return Err(GridError::InconsistentState);
            }
            touched.push(added[i]);
            assert(touched@ =~= added@.subrange(0, i + 1));
            i = i + 1;
        }
        let mut i: usize = 0;
        while i < moved.len()
            invariant
                self.wf(),
                self@ == g,
                self.config == cfg,
                cfg == old(self).config,
                0 <= i <= moved.len(),
                forall|j: int| 0 <= j < added.len() ==> index.positions().contains_key(#[trigger] added@[j]),
                touched@ == added@ + moved@.subrange(0, i as int),
                forall|j: int| 0 <= j < i ==> index.positions().contains_key(#[trigger] moved@[j]),
            decreases moved.len() - i,
        {
            if index.position(moved[i]).is_none() {
                return Err(GridError::InconsistentState);
            }
            touched.push(moved[i]);
            assert(touched@ =~= added@ + moved@.subrange(0, i + 1));
            i = i + 1;
        }
        assert(added@.subrange(0, added@.len() as int) =~= added@);
        assert(moved@.subrange(0, moved@.len() as int) =~= moved@);
        assert(touched@ == added@ + moved@);
        assert forall|j: int| 0 <= j < touched.len() implies index.positions().contains_key(#[trigger] touched@[j]) by {
            if j < added.len() {
                assert(touched@[j] == added@[j]);
            } else {
                assert(touched@[j] == moved@[j - added.len()]);
            }
        }
        self.update_nodes_helper(removed);
        self.place_touched(index, &touched);
        let ghost q = self@;
        proof {
            assert forall|j: int| 0 <= j < touched.len() implies q.nodes.contains_key(#[trigger] touched@[j]) by {
                assert(touched@.to_set().contains(touched@[j]));
            }
            assert(touched@.subrange(0, 0) =~= Seq::<u64>::empty());
        }
        let mut k: usize = 0;
        while k < touched.len()
            invariant
                self.wf(),
                self.config == cfg,
                index.ready(),
                0 <= k <= touched.len(),
                forall|j: int| 0 <= j < touched.len() ==> index.positions().contains_key(#[trigger] touched@[j]),
                forall|j: int| 0 <= j < touched.len() ==> q.nodes.contains_key(#[trigger] touched@[j]),
                self@.nodes == q.nodes,
                self@ == connect_all(q, touched@.subrange(0, k as int), index.positions(), cfg),
            decreases touched.len() - k,
        {
            let t = touched[k];
            assert(q.nodes.contains_key(touched@[k as int]));
            assert(index.positions().contains_key(touched@[k as int]));
            self.update_edges_helper(index, t);
            assert(touched@.subrange(0, k + 1).drop_last() =~= touched@.subrange(0, k as int));
            k = k + 1;
        }
        assert(touched@.subrange(0, touched@.len() as int) =~= touched@);
        Ok(())
    }
}

} // verus!
