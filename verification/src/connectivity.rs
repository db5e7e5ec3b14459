use vstd::prelude::*;

use crate::geom::{coord_ok, hex_adjacent, Voxel};
use crate::partition::PartitionState;
use crate::reach::{
    count_false, lemma_closed_set_contains_reachable, lemma_count_false_le, lemma_count_false_set,
    lemma_reaches_map, lemma_reaches_refl, lemma_reaches_step, lemma_reaches_symm,
    lemma_reaches_trans, reaches,
};

verus! {

/// The small scratch graph the checker rebuilds per query: an undirected
/// petgraph graph with unit node and edge weights and `usize` indices.
pub type NeighborhoodGraph = petgraph::graph::Graph<(), (), petgraph::Undirected, usize>;

#[verifier::external_type_specification]
#[verifier::external_body]
pub struct ExUndirected(petgraph::Undirected);

#[verifier::external_type_specification]
#[verifier::external_body]
#[verifier::reject_recursive_types(N)]
#[verifier::reject_recursive_types(E)]
#[verifier::reject_recursive_types(Ty)]
#[verifier::reject_recursive_types(Ix)]
pub struct ExGraph<N, E, Ty, Ix>(petgraph::graph::Graph<N, E, Ty, Ix>);

/// The number of nodes the graph holds.
pub uninterp spec fn graph_node_count(g: NeighborhoodGraph) -> nat;

/// The edges the graph holds, as symmetric pairs of node indices.
pub uninterp spec fn graph_edge_set(g: NeighborhoodGraph) -> Set<(int, int)>;

/// Relies on petgraph's `Graph::default`: a graph with no nodes and no
/// edges.
#[verifier::external_body]
fn graph_new() -> (g: NeighborhoodGraph)
    ensures
        graph_node_count(g) == 0,
        graph_edge_set(g) == Set::<(int, int)>::empty(),
{
    petgraph::graph::Graph::default()
}

/// Relies on petgraph's `Graph::clear`: removes all nodes and edges.
#[verifier::external_body]
fn graph_clear(g: &mut NeighborhoodGraph)
    ensures
        graph_node_count(*final(g)) == 0,
        graph_edge_set(*final(g)) == Set::<(int, int)>::empty(),
{
    g.clear()
}

/// Relies on petgraph's `Graph::add_node`: appends one node and returns its
/// index, leaving the edges alone (with `usize` indices the node limit
/// cannot be reached).
#[verifier::external_body]
fn graph_add_node(g: &mut NeighborhoodGraph) -> (i: usize)
    ensures
        i as int == graph_node_count(*old(g)),
        graph_node_count(*final(g)) == graph_node_count(*old(g)) + 1,
        graph_edge_set(*final(g)) == graph_edge_set(*old(g)),
{
    g.add_node(()).index()
}

/// Relies on petgraph's `Graph::add_edge`: connects two existing nodes; in
/// an undirected graph the edge joins them both ways.
#[verifier::external_body]
fn graph_add_edge(g: &mut NeighborhoodGraph, a: usize, b: usize)
    requires
        (a as int) < graph_node_count(*old(g)),
        (b as int) < graph_node_count(*old(g)),
    ensures
        graph_node_count(*final(g)) == graph_node_count(*old(g)),
        graph_edge_set(*final(g)) == graph_edge_set(*old(g)).insert((a as int, b as int)).insert(
            (b as int, a as int),
        ),
{
    g.add_edge(
        petgraph::graph::NodeIndex::new(a),
        petgraph::graph::NodeIndex::new(b),
        (),
    );
}

/// Relies on petgraph's `Graph::neighbors`: in an undirected graph it walks
/// every edge incident to `a`, yielding the opposite endpoint of each, and
/// every endpoint is an existing node.
#[verifier::external_body]
fn graph_neighbors(g: &NeighborhoodGraph, a: usize) -> (r: Vec<usize>)
    requires
        (a as int) < graph_node_count(*g),
    ensures
        forall|j: usize|
            #[trigger] r@.contains(j) <==> graph_edge_set(*g).contains((a as int, j as int)),
        forall|t: int| 0 <= t < r@.len() ==> (#[trigger] r@[t] as int) < graph_node_count(*g),
{
    g.neighbors(petgraph::graph::NodeIndex::new(a)).map(|n| n.index()).collect()
}

/// Voxel `v` is assigned to region `cell`.
pub open spec fn cell_member(m: Map<Voxel, u32>, v: Voxel, cell: u32) -> bool {
    m.dom().contains(v) && m[v] == cell
}

/// A retained planar neighbor of `root`: a same-cell hex neighbor, the
/// nodes whose mutual reachability decides the articulation question.
pub open spec fn retained_neighbor(m: Map<Voxel, u32>, root: Voxel, v: Voxel, cell: u32) -> bool {
    hex_adjacent(root, v) && cell_member(m, v, cell)
}

/// The nodes of the local subgraph: the retained neighbors of `root`
/// together with their own same-cell planar neighbors, the removed voxel
/// itself treated as absent.
pub open spec fn local_node(m: Map<Voxel, u32>, root: Voxel, v: Voxel, cell: u32) -> bool {
    &&& v != root
    &&& cell_member(m, v, cell)
    &&& (hex_adjacent(root, v) || exists|n: Voxel|
        #[trigger] retained_neighbor(m, root, n, cell) && hex_adjacent(n, v))
}

/// The edges of the local subgraph: planar adjacency between its nodes.
pub open spec fn local_edges(m: Map<Voxel, u32>, root: Voxel, cell: u32) -> Set<(Voxel, Voxel)> {
    Set::new(
        |pr: (Voxel, Voxel)| local_node(m, root, pr.0, cell) && local_node(m, root, pr.1, cell)
            && hex_adjacent(pr.0, pr.1),
    )
}

/// Removing `root` from `cell` keeps its retained neighbors mutually
/// reachable inside the local subgraph.
pub open spec fn neighbors_stay_connected(m: Map<Voxel, u32>, root: Voxel, cell: u32) -> bool {
    forall|n1: Voxel, n2: Voxel|
        #[trigger] retained_neighbor(m, root, n1, cell) && #[trigger] retained_neighbor(
            m,
            root,
            n2,
            cell,
        ) ==> reaches(local_edges(m, root, cell), n1, n2)
}

/// Decides, from a small per-query local subgraph, whether removing a voxel
/// from its region would disconnect the region around it.  The subgraph is
/// rebuilt per query from preallocated scratch storage.
pub struct ConnectivityChecker {
    subgraph: NeighborhoodGraph,
    hex_to_subgraph: Vec<(Voxel, usize)>,
    visited: Vec<bool>,
}

impl ConnectivityChecker {
    pub fn new() -> (r: ConnectivityChecker) {
        ConnectivityChecker {
            subgraph: graph_new(),
            hex_to_subgraph: Vec::new(),
            visited: Vec::new(),
        }
    }
}


/// Some pair of the scratch map holds voxel `v`.
pub open spec fn in_map(ps: Seq<(Voxel, usize)>, v: Voxel) -> bool {
    exists|x: int| 0 <= x < ps.len() && (#[trigger] ps[x]).0 == v
}

/// Returns the scratch-map position of `v`, if present.
fn lookup_node(ps: &Vec<(Voxel, usize)>, v: &Voxel) -> (r: Option<usize>)
    ensures
        match r {
            Some(i) => i < ps@.len() && ps@[i as int].0 == *v,
            None => !in_map(ps@, *v),
        },
{
    let mut t: usize = 0;
    while t < ps.len()
        invariant
            t <= ps@.len(),
            forall|x: int| 0 <= x < t ==> (#[trigger] ps@[x]).0 != *v,
        decreases ps@.len() - t,
    {
        let e = ps[t];
        if e.0 == *v {
            return Some(t);
        }
        t += 1;
    }
    proof {
        if in_map(ps@, *v) {
            let x = choose|x: int| 0 <= x < ps@.len() && (#[trigger] ps@[x]).0 == *v;
            assert(false);
        }
    }
    None
}

impl ConnectivityChecker {
    /// Decides whether removing `root` from region `cell` would disconnect
    /// the region locally: it builds the local subgraph of `root`'s
    /// same-cell planar neighbors and their same-cell planar neighbors,
    /// with `root` absent, and reports whether some retained neighbor
    /// cannot reach the others inside it.
    #[verifier::rlimit(100)]
    pub fn hex_isarticulation(&mut self, state: &PartitionState, root: Voxel, cell: u32) -> (r:
        bool)
        requires
            state.wf(),
            coord_ok(root),
        ensures
            r == !neighbors_stay_connected(state.assignment(), root, cell),
    {
        let ghost m = state.assignment();
        let ghost le = local_edges(m, root, cell);
        proof {
            state.lemma_dom_coord_ok();
        }
        graph_clear(&mut self.subgraph);
        self.hex_to_subgraph.clear();
        let nbrs = crate::geom::hex_neighbors(root);
        let mut d: usize = 0;
        while d < 6
            invariant
                state.wf(),
                m == state.assignment(),
                coord_ok(root),
                forall|v: Voxel| #[trigger] m.dom().contains(v) ==> coord_ok(v),
                d <= 6,
                nbrs@.len() == 6,
                forall|dd: int| 0 <= dd < 6 ==> nbrs@[dd] == crate::geom::hex_neighbor(root, dd),
                graph_node_count(self.subgraph) == self.hex_to_subgraph@.len(),
                graph_edge_set(self.subgraph) == Set::<(int, int)>::empty(),
                forall|x1: int, x2: int|
                    0 <= x1 < x2 < self.hex_to_subgraph@.len() ==> (
                    #[trigger] self.hex_to_subgraph@[x1]).0 != (
                    #[trigger] self.hex_to_subgraph@[x2]).0,
                forall|x: int|
                    0 <= x < self.hex_to_subgraph@.len() ==> retained_neighbor(
                        m,
                        root,
                        (#[trigger] self.hex_to_subgraph@[x]).0,
                        cell,
                    ) && coord_ok(self.hex_to_subgraph@[x].0),
                forall|dd: int|
                    0 <= dd < d && cell_member(m, #[trigger] nbrs@[dd], cell) ==> in_map(
                        self.hex_to_subgraph@,
                        nbrs@[dd],
                    ),
            decreases 6 - d,
        {
            let nb = nbrs[d];
            let ghost ps0 = self.hex_to_subgraph@;
            let mut added = false;
            match state.region_of(&nb) {
                Some(c) => {
                    if c == cell {
                        match lookup_node(&self.hex_to_subgraph, &nb) {
                            Some(_) => {
                                proof {
                                    assert(in_map(ps0, nb));
                                }
                            },
                            None => {
                                let i = graph_add_node(&mut self.subgraph);
                                self.hex_to_subgraph.push((nb, i));
                                added = true;
                                proof {
                                    assert(nb == crate::geom::hex_neighbor(root, d as int));
                                    assert(hex_adjacent(root, nb));
                                    assert(cell_member(m, nb, cell));
                                    assert(retained_neighbor(m, root, nb, cell));
                                    assert(coord_ok(nb));
                                }
                            },
                        }
                    }
                },
                None => {},
            }
            proof {
                if added {
                    assert(self.hex_to_subgraph@ == ps0.push(
                        (nb, (ps0.len() as usize)),
                    ));
                    assert forall|y1: int, y2: int|
                        0 <= y1 < y2 < self.hex_to_subgraph@.len() implies (
                    #[trigger] self.hex_to_subgraph@[y1]).0 != (
                    #[trigger] self.hex_to_subgraph@[y2]).0 by {
                        if y2 == self.hex_to_subgraph@.len() - 1 {
                            if ps0[y1].0 == nb {
                                assert(in_map(ps0, nb));
                                assert(false);
                            }
                        } else {
                            assert(self.hex_to_subgraph@[y1] == ps0[y1]
                                && self.hex_to_subgraph@[y2] == ps0[y2]);
                        }
                    }
                }
                assert forall|dd: int|
                    0 <= dd < d + 1 && cell_member(m, #[trigger] nbrs@[dd], cell) implies in_map(
                    self.hex_to_subgraph@,
                    nbrs@[dd],
                ) by {
                    if dd < d {
                        let x = choose|x: int| 0 <= x < ps0.len() && (#[trigger] ps0[x]).0 == nbrs@[dd];
                        assert(self.hex_to_subgraph@[x].0 == nbrs@[dd]);
                    } else {
                        if in_map(ps0, nbrs@[dd]) {
                            let x = choose|x: int|
                                0 <= x < ps0.len() && (#[trigger] ps0[x]).0 == nbrs@[dd];
                            assert(self.hex_to_subgraph@[x].0 == nbrs@[dd]);
                        } else {
                            assert(self.hex_to_subgraph@[self.hex_to_subgraph@.len() - 1].0
                                == nbrs@[dd]);
                        }
                    }
                }
            }
            d += 1;
        }
        let n1 = self.hex_to_subgraph.len();
        let ghost ps1 = self.hex_to_subgraph@;
        proof {
            assert forall|v: Voxel|
                #[trigger] retained_neighbor(m, root, v, cell) implies (exists|x: int|
                0 <= x < n1 && (#[trigger] ps1[x]).0 == v) by {
                let dd = choose|dd: int|
                    0 <= dd < 6 && v == #[trigger] crate::geom::hex_neighbor(root, dd);
                assert(nbrs@[dd] == v);
                assert(cell_member(m, nbrs@[dd], cell));
                assert(in_map(ps1, v));
                let x = choose|x: int| 0 <= x < ps1.len() && (#[trigger] ps1[x]).0 == v;
            }
        }
        if n1 == 0 {
            proof {
                assert forall|n1v: Voxel, n2v: Voxel|
                    #[trigger] retained_neighbor(m, root, n1v, cell) && #[trigger] retained_neighbor(
                    m,
                    root,
                    n2v,
                    cell,
                ) implies reaches(le, n1v, n2v) by {
                    assert(false);
                }
            }
            return false;
        }
        let mut t: usize = 0;
        while t < n1
            invariant
                state.wf(),
                m == state.assignment(),
                coord_ok(root),
                forall|v: Voxel| #[trigger] m.dom().contains(v) ==> coord_ok(v),
                t <= n1,
                n1 as int <= self.hex_to_subgraph@.len(),
                ps1.len() == n1 as int,
                forall|x: int| 0 <= x < n1 ==> self.hex_to_subgraph@[x] == ps1[x],
                graph_node_count(self.subgraph) == self.hex_to_subgraph@.len(),
                graph_edge_set(self.subgraph) == Set::<(int, int)>::empty(),
                forall|x1: int, x2: int|
                    0 <= x1 < x2 < self.hex_to_subgraph@.len() ==> (
                    #[trigger] self.hex_to_subgraph@[x1]).0 != (
                    #[trigger] self.hex_to_subgraph@[x2]).0,
                forall|x: int|
                    0 <= x < self.hex_to_subgraph@.len() ==> local_node(
                        m,
                        root,
                        (#[trigger] self.hex_to_subgraph@[x]).0,
                        cell,
                    ) && coord_ok(self.hex_to_subgraph@[x].0),
                forall|x: int| 0 <= x < n1 ==> retained_neighbor(m, root, (#[trigger] ps1[x]).0, cell),
                forall|v: Voxel|
                    #[trigger] retained_neighbor(m, root, v, cell) ==> (exists|x: int|
                        0 <= x < n1 && (#[trigger] ps1[x]).0 == v),
                forall|x: int, w: Voxel|
                    0 <= x < t && cell_member(m, w, cell) && w != root && #[trigger] hex_adjacent(
                        (#[trigger] ps1[x]).0,
                        w,
                    ) ==> in_map(self.hex_to_subgraph@, w),
            decreases n1 - t,
        {
            let base = self.hex_to_subgraph[t].0;
            proof {
                assert(coord_ok(base));
            }
            let nbrs2 = crate::geom::hex_neighbors(base);
            let mut d2: usize = 0;
            while d2 < 6
                invariant
                    state.wf(),
                    m == state.assignment(),
                    coord_ok(root),
                    forall|v: Voxel| #[trigger] m.dom().contains(v) ==> coord_ok(v),
                    t < n1,
                    d2 <= 6,
                    n1 as int <= self.hex_to_subgraph@.len(),
                    ps1.len() == n1 as int,
                    forall|x: int| 0 <= x < n1 ==> self.hex_to_subgraph@[x] == ps1[x],
                    base == ps1[t as int].0,
                    coord_ok(base),
                    nbrs2@.len() == 6,
                    forall|dd: int|
                        0 <= dd < 6 ==> nbrs2@[dd] == crate::geom::hex_neighbor(base, dd),
                    graph_node_count(self.subgraph) == self.hex_to_subgraph@.len(),
                    graph_edge_set(self.subgraph) == Set::<(int, int)>::empty(),
                    forall|x1: int, x2: int|
                        0 <= x1 < x2 < self.hex_to_subgraph@.len() ==> (
                        #[trigger] self.hex_to_subgraph@[x1]).0 != (
                        #[trigger] self.hex_to_subgraph@[x2]).0,
                    forall|x: int|
                        0 <= x < self.hex_to_subgraph@.len() ==> local_node(
                            m,
                            root,
                            (#[trigger] self.hex_to_subgraph@[x]).0,
                            cell,
                        ) && coord_ok(self.hex_to_subgraph@[x].0),
                    forall|x: int|
                        0 <= x < n1 ==> retained_neighbor(m, root, (#[trigger] ps1[x]).0, cell),
                    forall|v: Voxel|
                        #[trigger] retained_neighbor(m, root, v, cell) ==> (exists|x: int|
                            0 <= x < n1 && (#[trigger] ps1[x]).0 == v),
                    forall|x: int, w: Voxel|
                        0 <= x < t && cell_member(m, w, cell) && w != root
                            && #[trigger] hex_adjacent((#[trigger] ps1[x]).0, w) ==> in_map(
                            self.hex_to_subgraph@,
                            w,
                        ),
                    forall|dd: int|
                        0 <= dd < d2 && cell_member(m, #[trigger] nbrs2@[dd], cell) && nbrs2@[dd]
                            != root ==> in_map(self.hex_to_subgraph@, nbrs2@[dd]),
                decreases 6 - d2,
            {
                let w = nbrs2[d2];
                let ghost ps0 = self.hex_to_subgraph@;
                let is_root = w == root;
                let mut added = false;
                if !is_root {
                    match state.region_of(&w) {
                        Some(c) => {
                            if c == cell {
                                match lookup_node(&self.hex_to_subgraph, &w) {
                                    Some(_) => {},
                                    None => {
                                        let i = graph_add_node(&mut self.subgraph);
                                        self.hex_to_subgraph.push((w, i));
                                        added = true;
                                        proof {
                                            assert(base == ps1[t as int].0);
                                            assert(retained_neighbor(m, root, base, cell));
                                            assert(w == crate::geom::hex_neighbor(
                                                base,
                                                d2 as int,
                                            ));
                                            assert(hex_adjacent(base, w));
                                            assert(local_node(m, root, w, cell));
                                        }
                                    },
                                }
                            }
                        },
                        None => {},
                    }
                }
                proof {
                    if added {
                        assert(self.hex_to_subgraph@ == ps0.push((w, (ps0.len() as usize))));
                        assert forall|y1: int, y2: int|
                            0 <= y1 < y2 < self.hex_to_subgraph@.len() implies (
                        #[trigger] self.hex_to_subgraph@[y1]).0 != (
                        #[trigger] self.hex_to_subgraph@[y2]).0 by {
                            if y2 == self.hex_to_subgraph@.len() - 1 {
                                if ps0[y1].0 == w {
                                    assert(in_map(ps0, w));
                                    assert(false);
                                }
                            } else {
                                assert(self.hex_to_subgraph@[y1] == ps0[y1]
                                    && self.hex_to_subgraph@[y2] == ps0[y2]);
                            }
                        }
                    }
                    assert forall|x: int, w2: Voxel|
                        0 <= x < t && cell_member(m, w2, cell) && w2 != root
                            && #[trigger] hex_adjacent((#[trigger] ps1[x]).0, w2) implies in_map(
                        self.hex_to_subgraph@,
                        w2,
                    ) by {
                        let xx = choose|xx: int| 0 <= xx < ps0.len() && (#[trigger] ps0[xx]).0 == w2;
                        assert(self.hex_to_subgraph@[xx].0 == w2);
                    }
                    assert forall|dd: int|
                        0 <= dd < d2 + 1 && cell_member(m, #[trigger] nbrs2@[dd], cell)
                            && nbrs2@[dd] != root implies in_map(
                        self.hex_to_subgraph@,
                        nbrs2@[dd],
                    ) by {
                        if dd < d2 {
                            let xx = choose|xx: int|
                                0 <= xx < ps0.len() && (#[trigger] ps0[xx]).0 == nbrs2@[dd];
                            assert(self.hex_to_subgraph@[xx].0 == nbrs2@[dd]);
                        } else {
                            if in_map(ps0, nbrs2@[dd]) {
                                let xx = choose|xx: int|
                                    0 <= xx < ps0.len() && (#[trigger] ps0[xx]).0 == nbrs2@[dd];
                                assert(self.hex_to_subgraph@[xx].0 == nbrs2@[dd]);
                            } else {
                                assert(self.hex_to_subgraph@[self.hex_to_subgraph@.len() - 1].0
                                    == nbrs2@[dd]);
                            }
                        }
                    }
                }
                d2 += 1;
            }
            proof {
                assert forall|x: int, w: Voxel|
                    0 <= x < t + 1 && cell_member(m, w, cell) && w != root
                        && #[trigger] hex_adjacent((#[trigger] ps1[x]).0, w) implies in_map(
                    self.hex_to_subgraph@,
                    w,
                ) by {
                    if x == t as int {
                        let dd = choose|dd: int|
                            0 <= dd < 6 && w == #[trigger] crate::geom::hex_neighbor(base, dd);
                        assert(nbrs2@[dd] == w);
                    }
                }
            }
            t += 1;
        }
        let len = self.hex_to_subgraph.len();
        let ghost ps = self.hex_to_subgraph@;
        proof {
            assert forall|v: Voxel|
                #[trigger] local_node(m, root, v, cell) implies in_map(ps, v) by {
                if retained_neighbor(m, root, v, cell) {
                    let x = choose|x: int| 0 <= x < n1 && (#[trigger] ps1[x]).0 == v;
                    assert(ps[x].0 == v);
                } else {
                    let n = choose|n: Voxel|
                        #[trigger] retained_neighbor(m, root, n, cell) && hex_adjacent(n, v);
                    let x = choose|x: int| 0 <= x < n1 && (#[trigger] ps1[x]).0 == n;
                    assert(hex_adjacent(ps1[x].0, v));
                }
            }
        }
        let mut x1: usize = 0;
        while x1 < len
            invariant
                ps == self.hex_to_subgraph@,
                len == ps.len(),
                x1 <= len,
                coord_ok(root),
                graph_node_count(self.subgraph) == len as int,
                forall|x: int|
                    0 <= x < len ==> local_node(m, root, (#[trigger] ps[x]).0, cell) && coord_ok(
                        ps[x].0,
                    ),
                forall|pr: (int, int)|
                    #[trigger] graph_edge_set(self.subgraph).contains(pr) ==> 0 <= pr.0 < len && 0
                        <= pr.1 < len && hex_adjacent(ps[pr.0].0, ps[pr.1].0),
                forall|a: int, b: int|
                    0 <= a < x1 && 0 <= b < len && hex_adjacent((#[trigger] ps[a]).0, (
                    #[trigger] ps[b]).0) ==> graph_edge_set(self.subgraph).contains((a, b)),
            decreases len - x1,
        {
            let v1 = self.hex_to_subgraph[x1].0;
            let mut x2: usize = 0;
            while x2 < len
                invariant
                    ps == self.hex_to_subgraph@,
                    len == ps.len(),
                    x1 < len,
                    x2 <= len,
                    coord_ok(root),
                    v1 == ps[x1 as int].0,
                    graph_node_count(self.subgraph) == len as int,
                    forall|x: int|
                        0 <= x < len ==> local_node(m, root, (#[trigger] ps[x]).0, cell)
                            && coord_ok(ps[x].0),
                    forall|pr: (int, int)|
                        #[trigger] graph_edge_set(self.subgraph).contains(pr) ==> 0 <= pr.0 < len
                            && 0 <= pr.1 < len && hex_adjacent(ps[pr.0].0, ps[pr.1].0),
                    forall|a: int, b: int|
                        0 <= a < x1 && 0 <= b < len && hex_adjacent((#[trigger] ps[a]).0, (
                        #[trigger] ps[b]).0) ==> graph_edge_set(self.subgraph).contains((a, b)),
                    forall|b: int|
                        0 <= b < x2 && hex_adjacent(ps[x1 as int].0, (#[trigger] ps[b]).0)
                            ==> graph_edge_set(self.subgraph).contains((x1 as int, b)),
                decreases len - x2,
            {
                let v2 = self.hex_to_subgraph[x2].0;
                if crate::geom::is_hex_adjacent(&v1, &v2) {
                    proof {
                        crate::geom::lemma_hex_adjacent_symm(v1, v2);
                    }
                    graph_add_edge(&mut self.subgraph, x1, x2);
                }
                x2 += 1;
            }
            x1 += 1;
        }
        let ghost eg = graph_edge_set(self.subgraph);
        self.visited.clear();
        let mut c: usize = 0;
        while c < len
            invariant
                ps == self.hex_to_subgraph@,
                len == ps.len(),
                eg == graph_edge_set(self.subgraph),
                graph_node_count(self.subgraph) == len as int,
                forall|pr: (int, int)|
                    #[trigger] eg.contains(pr) ==> 0 <= pr.0 < len && 0 <= pr.1 < len
                        && hex_adjacent(ps[pr.0].0, ps[pr.1].0),
                forall|a: int, b: int|
                    0 <= a < len && 0 <= b < len && hex_adjacent((#[trigger] ps[a]).0, (
                    #[trigger] ps[b]).0) ==> eg.contains((a, b)),
                self.visited@.len() == c,
                c <= len,
                forall|x: int| 0 <= x < c ==> !(#[trigger] self.visited@[x]),
            decreases len - c,
        {
            self.visited.push(false);
            c += 1;
        }
        self.visited.set(0, true);
        let mut stack: Vec<usize> = Vec::new();
        stack.push(0);
        proof {
            lemma_reaches_refl(eg, 0int);
            assert(stack@[0] == 0usize);
            assert(stack@.contains(0usize));
        }
        loop
            invariant_except_break
                ps == self.hex_to_subgraph@,
                len == ps.len(),
                len >= 1,
                eg == graph_edge_set(self.subgraph),
                graph_node_count(self.subgraph) == len as int,
                self.visited@.len() == len,
                self.visited@[0],
                forall|pr: (int, int)|
                    #[trigger] eg.contains(pr) ==> 0 <= pr.0 < len && 0 <= pr.1 < len
                        && hex_adjacent(ps[pr.0].0, ps[pr.1].0),
                forall|a: int, b: int|
                    0 <= a < len && 0 <= b < len && hex_adjacent((#[trigger] ps[a]).0, (
                    #[trigger] ps[b]).0) ==> eg.contains((a, b)),
                forall|x: int|
                    0 <= x < stack@.len() ==> (#[trigger] stack@[x] as int) < len
                        && self.visited@[stack@[x] as int],
                forall|x: int|
                    0 <= x < len && #[trigger] self.visited@[x] ==> reaches(eg, 0int, x as int),
                forall|x: int|
                    0 <= x < len && #[trigger] self.visited@[x] && !stack@.contains(x as usize)
                        ==> (forall|j: int| #[trigger] eg.contains((x, j)) ==> self.visited@[j]),
            ensures
                ps == self.hex_to_subgraph@,
                self.visited@.len() == len,
                self.visited@[0],
                forall|x: int|
                    0 <= x < len && #[trigger] self.visited@[x] ==> reaches(eg, 0int, x as int),
                forall|x: int|
                    0 <= x < len && #[trigger] self.visited@[x] ==> (forall|j: int| #[trigger]
                        eg.contains((x, j)) ==> self.visited@[j]),
            decreases count_false(self.visited@), stack@.len(),
        {
            let ghost stack_pre = stack@;
            let ghost vis0 = self.visited@;
            let xo = stack.pop();
            let x: usize = match xo {
                Some(v) => v,
                None => {
                    proof {
                        assert forall|x2: int|
                            0 <= x2 < len && #[trigger] self.visited@[x2] implies (forall|j: int|
                            #[trigger] eg.contains((x2, j)) ==> self.visited@[j]) by {
                            assert(!stack@.contains(x2 as usize));
                        }
                    }
                    break ;
                },
            };
            let ghost stack0 = stack@;
            proof {
                assert(stack_pre == stack0.push(x));
                assert forall|z: int|
                    0 <= z < len && #[trigger] vis0[z] && z != x as int && !stack0.contains(
                        z as usize,
                    ) implies (forall|j: int| #[trigger] eg.contains((z, j)) ==> vis0[j]) by {
                    if stack_pre.contains(z as usize) {
                        let xi = choose|xi: int|
                            0 <= xi < stack_pre.len() && stack_pre[xi] == z as usize;
                        if xi < stack0.len() {
                            assert(stack0[xi] == z as usize);
                            assert(false);
                        } else {
                            assert(z == x as int);
                            assert(false);
                        }
                    }
                }
            }
            let nb = graph_neighbors(&self.subgraph, x);
            let mut ni: usize = 0;
            while ni < nb.len()
                invariant
                    ps == self.hex_to_subgraph@,
                    len == ps.len(),
                    len >= 1,
                    eg == graph_edge_set(self.subgraph),
                    graph_node_count(self.subgraph) == len as int,
                    self.visited@.len() == len,
                    self.visited@[0],
                    x < len,
                    self.visited@[x as int],
                    ni <= nb.len(),
                    forall|j: usize|
                        #[trigger] nb@.contains(j) <==> eg.contains((x as int, j as int)),
                    forall|t2: int| 0 <= t2 < nb@.len() ==> (#[trigger] nb@[t2] as int) < len,
                    forall|pr: (int, int)|
                        #[trigger] eg.contains(pr) ==> 0 <= pr.0 < len && 0 <= pr.1 < len
                            && hex_adjacent(ps[pr.0].0, ps[pr.1].0),
                    forall|z: int|
                        0 <= z < stack@.len() ==> (#[trigger] stack@[z] as int) < len
                            && self.visited@[stack@[z] as int],
                    forall|z: int|
                        0 <= z < len && #[trigger] self.visited@[z] ==> reaches(eg, 0int, z as int),
                    forall|z: int|
                        0 <= z < len && #[trigger] self.visited@[z] && z != x as int
                            && !stack@.contains(z as usize) ==> (forall|j: int| #[trigger]
                            eg.contains((z, j)) ==> self.visited@[j]),
                    forall|t2: int|
                        0 <= t2 < ni ==> self.visited@[#[trigger] nb@[t2] as int],
                    forall|z: int| 0 <= z < len && #[trigger] vis0[z] ==> self.visited@[z],
                    count_false(self.visited@) + stack@.len() <= count_false(vis0) + stack0.len(),
                decreases nb.len() - ni,
            {
                let j = nb[ni];
                if !self.visited[j] {
                    let ghost vis_b = self.visited@;
                    let ghost stack_b = stack@;
                    self.visited.set(j, true);
                    stack.push(j);
                    proof {
                        assert(nb@.contains(nb@[ni as int]));
                        assert(eg.contains((x as int, j as int)));
                        lemma_reaches_step(eg, 0int, x as int, j as int);
                        lemma_count_false_set(vis_b, j as int);
                        assert forall|z: int|
                            0 <= z < len && #[trigger] self.visited@[z] && z != x as int
                                && !stack@.contains(z as usize) implies (forall|jj: int| #[trigger]
                            eg.contains((z, jj)) ==> self.visited@[jj]) by {
                            if stack_b.contains(z as usize) {
                                let xi = choose|xi: int|
                                    0 <= xi < stack_b.len() && stack_b[xi] == z as usize;
                                assert(stack@[xi] == z as usize);
                                assert(false);
                            }
                            if z == j as int {
                                assert(stack@[stack@.len() - 1] == j);
                                assert(false);
                            }
                            assert(vis_b[z]);
                            assert forall|jj: int| #[trigger]
                                eg.contains((z, jj)) implies self.visited@[jj] by {
                                assert(vis_b[jj]);
                            }
                        }
                    }
                }
                ni += 1;
            }
            proof {
                assert forall|z: int|
                    0 <= z < len && #[trigger] self.visited@[z] && !stack@.contains(
                        z as usize,
                    ) implies (forall|jj: int| #[trigger] eg.contains((z, jj))
                    ==> self.visited@[jj]) by {
                    if z == x as int {
                        assert forall|jj: int| #[trigger] eg.contains((z, jj)) implies
                            self.visited@[jj] by {
                            assert(0 <= jj < len);
                            assert(nb@.contains(jj as usize));
                            let t2 = choose|t2: int| 0 <= t2 < nb@.len() && nb@[t2] == jj as usize;
                            assert(self.visited@[nb@[t2] as int]);
                        }
                    }
                }
                lemma_count_false_le(vis0, self.visited@);
            }
        }
        let mut all = true;
        let mut z: usize = 0;
        while z < n1
            invariant
                z <= n1,
                n1 as int <= len as int,
                ps == self.hex_to_subgraph@,
                len == ps.len(),
                self.visited@.len() == len,
                self.visited@[0],
                forall|x: int|
                    0 <= x < len && #[trigger] self.visited@[x] ==> reaches(eg, 0int, x as int),
                forall|x: int|
                    0 <= x < len && #[trigger] self.visited@[x] ==> (forall|j: int| #[trigger]
                        eg.contains((x, j)) ==> self.visited@[j]),
                all == forall|x: int| 0 <= x < z ==> #[trigger] self.visited@[x],
            decreases n1 - z,
        {
            let vz = self.visited[z];
            proof {
                if !vz {
                    assert(!(forall|x: int| 0 <= x < z + 1 ==> #[trigger] self.visited@[x]));
                }
            }
            all = all && vz;
            z += 1;
        }
        proof {
            let mi = Map::<int, Voxel>::new(|x: int| 0 <= x < len, |x: int| ps[x].0);
            let mv = Map::<Voxel, int>::new(
                |v: Voxel| in_map(ps, v),
                |v: Voxel| choose|x: int| 0 <= x < ps.len() && (#[trigger] ps[x]).0 == v,
            );
            if all {
                assert forall|n1v: Voxel, n2v: Voxel|
                    #[trigger] retained_neighbor(m, root, n1v, cell) && #[trigger] retained_neighbor(
                    m,
                    root,
                    n2v,
                    cell,
                ) implies reaches(le, n1v, n2v) by {
                    let xa = choose|x: int| 0 <= x < n1 && (#[trigger] ps1[x]).0 == n1v;
                    let xb = choose|x: int| 0 <= x < n1 && (#[trigger] ps1[x]).0 == n2v;
                    assert(self.visited@[xa] && self.visited@[xb]);
                    assert(reaches(eg, 0int, xa) && reaches(eg, 0int, xb));
                    assert forall|pr: (int, int)| #[trigger]
                        eg.contains(pr) implies eg.contains((pr.1, pr.0)) by {
                        assert(coord_ok(ps[pr.0].0) && coord_ok(ps[pr.1].0));
                        crate::geom::lemma_hex_adjacent_symm(ps[pr.0].0, ps[pr.1].0);
                    }
                    lemma_reaches_symm(eg, 0int, xa);
                    lemma_reaches_trans(eg, xa, 0int, xb);
                    assert forall|p: int, q: int|
                        #[trigger] eg.contains((p, q)) implies mi.dom().contains(p)
                            && mi.dom().contains(q) && le.contains((mi[p], mi[q])) by {
                        assert(local_node(m, root, ps[p].0, cell) && local_node(
                            m,
                            root,
                            ps[q].0,
                            cell,
                        ));
                    }
                    lemma_reaches_map(eg, le, mi, xa, xb);
                    assert(mi[xa] == n1v && mi[xb] == n2v);
                }
                assert(neighbors_stay_connected(m, root, cell));
            } else {
                let xu = choose|x: int| 0 <= x < n1 && !(#[trigger] self.visited@[x]);
                let n1v = ps1[0].0;
                let n2v = ps1[xu].0;
                assert(retained_neighbor(m, root, n1v, cell) && retained_neighbor(
                    m,
                    root,
                    n2v,
                    cell,
                ));
                if reaches(le, n1v, n2v) {
                    assert forall|p: Voxel, q: Voxel|
                        #[trigger] le.contains((p, q)) implies mv.dom().contains(p)
                            && mv.dom().contains(q) && eg.contains((mv[p], mv[q])) by {
                        assert(local_node(m, root, p, cell) && local_node(m, root, q, cell));
                        assert(in_map(ps, p) && in_map(ps, q));
                        let xp = mv[p];
                        let xq = mv[q];
                        assert(0 <= xp < ps.len() && ps[xp].0 == p);
                        assert(0 <= xq < ps.len() && ps[xq].0 == q);
                        assert(hex_adjacent(ps[xp].0, ps[xq].0));
                    }
                    assert(mv.dom().contains(n1v)) by {
                        assert(ps[0].0 == n1v);
                    }
                    lemma_reaches_map(le, eg, mv, n1v, n2v);
                    assert(mv[n1v] == 0int) by {
                        let x0 = mv[n1v];
                        assert(0 <= x0 < ps.len() && ps[x0].0 == n1v);
                        if x0 != 0 {
                            assert(ps[0].0 == n1v);
                            assert(false);
                        }
                    }
                    assert(mv[n2v] == xu) by {
                        let xw = mv[n2v];
                        assert(0 <= xw < ps.len() && ps[xw].0 == n2v);
                        if xw != xu {
                            assert(ps[xu].0 == n2v);
                            assert(false);
                        }
                    }
                    assert(reaches(eg, 0int, xu));
                    let mk = Set::<int>::new(
                        |x: int| 0 <= x < len && self.visited@[x],
                    );
                    assert(mk.contains(0int));
                    assert forall|p: int, q: int|
                        mk.contains(p) && #[trigger] eg.contains((p, q)) implies mk.contains(q) by {
                        assert(self.visited@[p]);
                    }
                    lemma_closed_set_contains_reachable(eg, mk, 0int, xu);
                    assert(false);
                }
                assert(!neighbors_stay_connected(m, root, cell));
            }
        }
        !all
    }
}
} // verus!
