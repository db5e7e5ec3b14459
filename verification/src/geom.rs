use vstd::prelude::*;

verus! {

/// Largest coordinate magnitude the grid admits.  Keeping voxel coordinates
/// well inside `i32` range lets corner arithmetic (`i + 1`) and subdivision
/// (`2 * i + 1`) stay exact.
pub const MAX_COORD: i32 = 0x2000_0000;

/// An atomic spatial unit of the partition grid: `(i, j)` locate it in the
/// planar tiling at the current resolution, `k` is the depth layer.
#[derive(Clone, Copy, PartialEq, Eq, Structural, Hash, Debug)]
pub struct Voxel {
    pub i: i32,
    pub j: i32,
    pub k: i32,
}

impl Voxel {
    pub open spec fn spec_new(i: int, j: int, k: int) -> Voxel {
        Voxel { i: i as i32, j: j as i32, k: k as i32 }
    }

    pub fn new(i: i32, j: i32, k: i32) -> (r: Voxel)
        ensures
            r == (Voxel { i, j, k }),
    {
        Voxel { i, j, k }
    }
}

/// Voxel coordinates within the admitted range.
pub open spec fn coord_ok(v: Voxel) -> bool {
    &&& -MAX_COORD <= v.i <= MAX_COORD
    &&& -MAX_COORD <= v.j <= MAX_COORD
    &&& -MAX_COORD <= v.k <= MAX_COORD
}

/// Coordinates small enough that every child produced by a resolution
/// doubling still satisfies `coord_ok`.
pub open spec fn subdividable(v: Voxel) -> bool {
    &&& -MAX_COORD / 2 <= v.i < MAX_COORD / 2
    &&& -MAX_COORD / 2 <= v.j < MAX_COORD / 2
    &&& -MAX_COORD <= v.k <= MAX_COORD
}

/// Planar offsets of the six hexagonal neighbors of a voxel, in axial
/// coordinates.
pub open spec fn hex_offsets() -> Seq<(int, int)> {
    seq![(1int, 0int), (0int, 1int), (-1int, 1int), (-1int, 0int), (0int, -1int), (1int, -1int)]
}

/// The planar neighbor of `v` in hex direction `d` (0 <= d < 6).
pub open spec fn hex_neighbor(v: Voxel, d: int) -> Voxel {
    Voxel::spec_new(v.i + hex_offsets()[d].0, v.j + hex_offsets()[d].1, v.k as int)
}

/// Planar hexagonal adjacency: same layer, one hex step apart.
pub open spec fn hex_adjacent(a: Voxel, b: Voxel) -> bool {
    exists|d: int| 0 <= d < 6 && b == #[trigger] hex_neighbor(a, d)
}

/// Adjacency used for region connectivity: the six planar hex neighbors
/// plus the voxels directly above and below in the layer stack.
pub open spec fn adjacent(a: Voxel, b: Voxel) -> bool {
    ||| hex_adjacent(a, b)
    ||| (a.i == b.i && a.j == b.j && (b.k == a.k + 1 || b.k == a.k - 1))
}

/// The six planar hex neighbors of `v`, in the fixed direction order.
pub fn hex_neighbors(v: Voxel) -> (r: Vec<Voxel>)
    requires
        coord_ok(v),
    ensures
        r@.len() == 6,
        forall|d: int| 0 <= d < 6 ==> r@[d] == hex_neighbor(v, d),
        forall|d: int| 0 <= d < 6 ==> #[trigger] hex_adjacent(v, r@[d]),
{
    let r: Vec<Voxel> = vec![
        Voxel { i: v.i + 1, j: v.j, k: v.k },
        Voxel { i: v.i, j: v.j + 1, k: v.k },
        Voxel { i: v.i - 1, j: v.j + 1, k: v.k },
        Voxel { i: v.i - 1, j: v.j, k: v.k },
        Voxel { i: v.i, j: v.j - 1, k: v.k },
        Voxel { i: v.i + 1, j: v.j - 1, k: v.k },
    ];
    proof {
        assert forall|d: int| 0 <= d < 6 implies r@[d] == hex_neighbor(v, d) by {
            if d == 0 {
            } else if d == 1 {
            } else if d == 2 {
            } else if d == 3 {
            } else if d == 4 {
            } else {
                assert(d == 5);
            }
        }
        assert forall|d: int| 0 <= d < 6 implies #[trigger] hex_adjacent(v, r@[d]) by {
            assert(r@[d] == hex_neighbor(v, d));
        }
    }
    r
}

/// The voxel adjacent to `v` in direction `d` (0 <= d < 8): the six planar
/// hex directions, then the layer above, then the layer below.
pub open spec fn adjacent_nth(v: Voxel, d: int) -> Voxel {
    if d < 6 {
        hex_neighbor(v, d)
    } else if d == 6 {
        Voxel::spec_new(v.i as int, v.j as int, v.k + 1)
    } else {
        Voxel::spec_new(v.i as int, v.j as int, v.k - 1)
    }
}

/// The eight voxels adjacent to `v`: six planar hex neighbors and the two
/// layer neighbors.
pub fn all_adjacent(v: Voxel) -> (r: Vec<Voxel>)
    requires
        coord_ok(v),
    ensures
        r@.len() == 8,
        forall|d: int| 0 <= d < 8 ==> r@[d] == adjacent_nth(v, d),
        forall|t: int| 0 <= t < 8 ==> #[trigger] adjacent(v, r@[t]),
        forall|u: Voxel| adjacent(v, u) ==> r@.contains(u),
{
    let mut r = hex_neighbors(v);
    r.push(Voxel { i: v.i, j: v.j, k: v.k + 1 });
    r.push(Voxel { i: v.i, j: v.j, k: v.k - 1 });
    proof {
        assert forall|u: Voxel| adjacent(v, u) implies r@.contains(u) by {
            if hex_adjacent(v, u) {
                let d = choose|d: int| 0 <= d < 6 && u == #[trigger] hex_neighbor(v, d);
                assert(r@[d] == u);
            } else if u.k == v.k + 1 {
                assert(r@[6] == u);
            } else {
                assert(r@[7] == u);
            }
        }
    }
    r
}

/// Symmetry of the hex adjacency relation.
pub proof fn lemma_hex_adjacent_symm(a: Voxel, b: Voxel)
    requires
        hex_adjacent(a, b),
        coord_ok(a),
        coord_ok(b),
    ensures
        hex_adjacent(b, a),
{
    let d = choose|d: int| 0 <= d < 6 && b == #[trigger] hex_neighbor(a, d);
    let e = if d < 3 { d + 3 } else { d - 3 };
    assert(hex_offsets()[e].0 == -hex_offsets()[d].0 && hex_offsets()[e].1 == -hex_offsets()[d].1);
    assert(a == hex_neighbor(b, e));
}

/// Symmetry of the full (planar + layer) adjacency relation.
pub proof fn lemma_adjacent_symm(a: Voxel, b: Voxel)
    requires
        adjacent(a, b),
        coord_ok(a),
        coord_ok(b),
    ensures
        adjacent(b, a),
{
    if hex_adjacent(a, b) {
        lemma_hex_adjacent_symm(a, b);
    }
}

/// The parent of a voxel under a resolution doubling: planar coordinates are
/// halved (rounding toward negative infinity), the layer is kept.
pub open spec fn parent_of(c: Voxel) -> Voxel {
    Voxel::spec_new(c.i as int / 2, c.j as int / 2, c.k as int)
}

/// The four children a voxel subdivides into when the planar resolution is
/// doubled.
pub open spec fn children_of(v: Voxel) -> Seq<Voxel> {
    seq![
        Voxel::spec_new(2 * v.i, 2 * v.j, v.k as int),
        Voxel::spec_new(2 * v.i + 1, 2 * v.j, v.k as int),
        Voxel::spec_new(2 * v.i, 2 * v.j + 1, v.k as int),
        Voxel::spec_new(2 * v.i + 1, 2 * v.j + 1, v.k as int),
    ]
}

/// Each child of `v` maps back to `v`, and the children are the only voxels
/// whose parent is `v`: subdivision exactly tiles the parent.
pub proof fn lemma_children_tile(v: Voxel)
    requires
        subdividable(v),
    ensures
        forall|t: int| 0 <= t < 4 ==> parent_of(#[trigger] children_of(v)[t]) == v,
        forall|t: int| 0 <= t < 4 ==> coord_ok(#[trigger] children_of(v)[t]),
        forall|c: Voxel| parent_of(c) == v && coord_ok(c) ==> children_of(v).contains(c),
        forall|t1: int, t2: int|
            0 <= t1 < 4 && 0 <= t2 < 4 && t1 != t2 ==> children_of(v)[t1] != children_of(v)[t2],
{
    assert forall|t: int| 0 <= t < 4 implies parent_of(#[trigger] children_of(v)[t]) == v by {
        if t == 0 {
        } else if t == 1 {
        } else if t == 2 {
        } else {
            assert(t == 3);
        }
    }
    assert forall|c: Voxel| parent_of(c) == v && coord_ok(c) implies children_of(v).contains(c) by {
        assert(c.i as int / 2 == v.i as int && c.j as int / 2 == v.j as int && c.k == v.k);
        assert(2 * (v.i as int) <= c.i as int && (c.i as int) < 2 * (v.i as int) + 2);
        assert(2 * (v.j as int) <= c.j as int && (c.j as int) < 2 * (v.j as int) + 2);
        if c.i as int == 2 * v.i as int {
            if c.j as int == 2 * v.j as int {
                assert(children_of(v)[0] == c);
            } else {
                assert(children_of(v)[2] == c);
            }
        } else {
            if c.j as int == 2 * v.j as int {
                assert(children_of(v)[1] == c);
            } else {
                assert(children_of(v)[3] == c);
            }
        }
    }
}

/// The four children of `v`, as executable values.
pub fn children(v: Voxel) -> (r: Vec<Voxel>)
    requires
        subdividable(v),
    ensures
        r@ == children_of(v),
        forall|t: int| 0 <= t < 4 ==> coord_ok(#[trigger] r@[t]),
{
    let r: Vec<Voxel> = vec![
        Voxel { i: 2 * v.i, j: 2 * v.j, k: v.k },
        Voxel { i: 2 * v.i + 1, j: 2 * v.j, k: v.k },
        Voxel { i: 2 * v.i, j: 2 * v.j + 1, k: v.k },
        Voxel { i: 2 * v.i + 1, j: 2 * v.j + 1, k: v.k },
    ];
    proof {
        assert(r@ =~= children_of(v));
        lemma_children_tile(v);
    }
    r
}

/// A finite set of voxels, as a duplicate-free vector.
pub struct VoxelSet {
    items: Vec<Voxel>,
}

impl View for VoxelSet {
    type V = Set<Voxel>;

    closed spec fn view(&self) -> Set<Voxel> {
        Set::new(|v: Voxel| self.items@.contains(v))
    }
}

impl VoxelSet {
    /// The members in insertion order.
    pub closed spec fn seq(&self) -> Seq<Voxel> {
        self.items@
    }

    /// No duplicate members, and every member has admissible coordinates.
    pub closed spec fn wf(&self) -> bool {
        &&& forall|t1: int, t2: int|
            0 <= t1 < t2 < self.items@.len() ==> self.items@[t1] != self.items@[t2]
        &&& forall|t: int| 0 <= t < self.items@.len() ==> coord_ok(#[trigger] self.items@[t])
    }

    pub proof fn lemma_view(&self)
        ensures
            forall|v: Voxel| self@.contains(v) <==> self.seq().contains(v),
            forall|v: Voxel| #[trigger] self@.contains(v) && self.wf() ==> coord_ok(v),
    {
        assert forall|v: Voxel| #[trigger] self@.contains(v) && self.wf() implies coord_ok(v) by {
            let t = choose|t: int| 0 <= t < self.items@.len() && self.items@[t] == v;
            assert(coord_ok(self.items@[t]));
        }
    }

    pub fn new() -> (r: VoxelSet)
        ensures
            r.wf(),
            r@ == Set::<Voxel>::empty(),
            r.seq() == Seq::<Voxel>::empty(),
    {
        let r = VoxelSet { items: Vec::new() };
        proof {
            assert(r@ =~= Set::<Voxel>::empty());
        }
        r
    }

    pub fn len(&self) -> (r: usize)
        ensures
            r == self.seq().len(),
    {
        self.items.len()
    }

    pub fn item(&self, t: usize) -> (r: Voxel)
        requires
            t < self.seq().len(),
        ensures
            r == self.seq()[t as int],
            self@.contains(r),
    {
        self.items[t]
    }

    pub fn contains(&self, v: &Voxel) -> (r: bool)
        ensures
            r == self@.contains(*v),
    {
        let mut t: usize = 0;
        while t < self.items.len()
            invariant
                t <= self.items@.len(),
                forall|s: int| 0 <= s < t ==> self.items@[s] != *v,
            decreases self.items@.len() - t,
        {
            if self.items[t] == *v {
                return true;
            }
            t += 1;
        }
        false
    }

    /// Adds `v` if it is not yet a member.
    pub fn insert(&mut self, v: Voxel)
        requires
            old(self).wf(),
            coord_ok(v),
        ensures
            final(self).wf(),
            final(self)@ == old(self)@.insert(v),
            old(self)@.contains(v) ==> final(self).seq() == old(self).seq(),
            !old(self)@.contains(v) ==> final(self).seq() == old(self).seq().push(v),
    {
        if !self.contains(&v) {
            self.items.push(v);
            proof {
                assert forall|x: Voxel| self@.contains(x) <==> old(self)@.insert(v).contains(
                    x,
                ) by {
                    if self.items@.contains(x) {
                        let s = choose|s: int| 0 <= s < self.items@.len() && self.items@[s] == x;
                        if s < old(self).items@.len() {
                            assert(old(self).items@[s] == x);
                        }
                    }
                    if old(self).items@.contains(x) {
                        let s = choose|s: int|
                            0 <= s < old(self).items@.len() && old(self).items@[s] == x;
                        assert(self.items@[s] == x);
                    }
                    if x == v {
                        assert(self.items@[self.items@.len() - 1] == v);
                    }
                }
                assert(self@ =~= old(self)@.insert(v));
            }
        } else {
            proof {
                assert(self@ =~= old(self)@.insert(v));
            }
        }
    }
}

/// Planar offsets of the four von Neumann neighbors used by the corner
/// lattice of the boundary tracer.
pub open spec fn vn_offsets() -> Seq<(int, int)> {
    seq![(1int, 0int), (-1int, 0int), (0int, 1int), (0int, -1int)]
}

/// The planar von Neumann neighbor of `v` in direction `d` (0 <= d < 4).
pub open spec fn vn_neighbor(v: Voxel, d: int) -> Voxel {
    Voxel::spec_new(v.i + vn_offsets()[d].0, v.j + vn_offsets()[d].1, v.k as int)
}

/// The four von Neumann neighbors of `v`, in the fixed direction order.
pub fn vn_neighbors(v: Voxel) -> (r: Vec<Voxel>)
    requires
        coord_ok(v),
    ensures
        r@.len() == 4,
        forall|d: int| 0 <= d < 4 ==> r@[d] == vn_neighbor(v, d),
{
    let r: Vec<Voxel> = vec![
        Voxel { i: v.i + 1, j: v.j, k: v.k },
        Voxel { i: v.i - 1, j: v.j, k: v.k },
        Voxel { i: v.i, j: v.j + 1, k: v.k },
        Voxel { i: v.i, j: v.j - 1, k: v.k },
    ];
    proof {
        assert forall|d: int| 0 <= d < 4 implies r@[d] == vn_neighbor(v, d) by {
            if d == 0 {
            } else if d == 1 {
            } else if d == 2 {
            } else {
                assert(d == 3);
            }
        }
    }
    r
}


/// Decides the full (planar + layer) adjacency relation.
pub fn is_adjacent(a: &Voxel, b: &Voxel) -> (r: bool)
    requires
        coord_ok(*a),
        coord_ok(*b),
    ensures
        r == adjacent(*a, *b),
{
    if a.k == b.k {
        let di = b.i - a.i;
        let dj = b.j - a.j;
        let hit = (di == 1 && dj == 0) || (di == 0 && dj == 1) || (di == -1 && dj == 1) || (di == -1
            && dj == 0) || (di == 0 && dj == -1) || (di == 1 && dj == -1);
        proof {
            if hit {
                if di == 1 && dj == 0 {
                    assert(*b == hex_neighbor(*a, 0));
                } else if di == 0 && dj == 1 {
                    assert(*b == hex_neighbor(*a, 1));
                } else if di == -1 && dj == 1 {
                    assert(*b == hex_neighbor(*a, 2));
                } else if di == -1 && dj == 0 {
                    assert(*b == hex_neighbor(*a, 3));
                } else if di == 0 && dj == -1 {
                    assert(*b == hex_neighbor(*a, 4));
                } else {
                    assert(*b == hex_neighbor(*a, 5));
                }
            } else {
                if hex_adjacent(*a, *b) {
                    let d = choose|d: int| 0 <= d < 6 && *b == #[trigger] hex_neighbor(*a, d);
                    if d == 0 {
                    } else if d == 1 {
                    } else if d == 2 {
                    } else if d == 3 {
                    } else if d == 4 {
                    } else {
                        assert(d == 5);
                    }
                    assert(false);
                }
            }
        }
        hit
    } else {
        let same_col = a.i == b.i && a.j == b.j && (b.k == a.k + 1 || b.k == a.k - 1);
        proof {
            if hex_adjacent(*a, *b) {
                let d = choose|d: int| 0 <= d < 6 && *b == #[trigger] hex_neighbor(*a, d);
                assert(b.k == a.k);
                assert(false);
            }
        }
        same_col
    }
}

/// Decides the planar hexagonal adjacency relation.
pub fn is_hex_adjacent(a: &Voxel, b: &Voxel) -> (r: bool)
    requires
        coord_ok(*a),
        coord_ok(*b),
    ensures
        r == hex_adjacent(*a, *b),
{
    if a.k == b.k {
        let di = b.i - a.i;
        let dj = b.j - a.j;
        let hit = (di == 1 && dj == 0) || (di == 0 && dj == 1) || (di == -1 && dj == 1) || (di == -1
            && dj == 0) || (di == 0 && dj == -1) || (di == 1 && dj == -1);
        proof {
            if hit {
                if di == 1 && dj == 0 {
                    assert(*b == hex_neighbor(*a, 0));
                } else if di == 0 && dj == 1 {
                    assert(*b == hex_neighbor(*a, 1));
                } else if di == -1 && dj == 1 {
                    assert(*b == hex_neighbor(*a, 2));
                } else if di == -1 && dj == 0 {
                    assert(*b == hex_neighbor(*a, 3));
                } else if di == 0 && dj == -1 {
                    assert(*b == hex_neighbor(*a, 4));
                } else {
                    assert(*b == hex_neighbor(*a, 5));
                }
            } else {
                if hex_adjacent(*a, *b) {
                    let d = choose|d: int| 0 <= d < 6 && *b == #[trigger] hex_neighbor(*a, d);
                    if d == 0 {
                    } else if d == 1 {
                    } else if d == 2 {
                    } else if d == 3 {
                    } else if d == 4 {
                    } else {
                        assert(d == 5);
                    }
                    assert(false);
                }
            }
        }
        hit
    } else {
        proof {
            if hex_adjacent(*a, *b) {
                let d = choose|d: int| 0 <= d < 6 && *b == #[trigger] hex_neighbor(*a, d);
                assert(b.k == a.k);
                assert(false);
            }
        }
        false
    }
}
} // verus!
