use vstd::prelude::*;

use crate::geom::{coord_ok, vn_neighbor, Voxel, VoxelSet, MAX_COORD};

verus! {

/// One oriented boundary edge on the corner lattice: the depth layer and the
/// two corner points, in integer corner coordinates.
pub type GridEdge = (i32, (i32, i32), (i32, i32));

/// A corner point, as mathematical integers.
pub open spec fn corner_view(c: (i32, i32)) -> (int, int) {
    (c.0 as int, c.1 as int)
}

/// An edge, as mathematical integers.
pub open spec fn edge_view(e: GridEdge) -> (int, (int, int), (int, int)) {
    (e.0 as int, corner_view(e.1), corner_view(e.2))
}

/// The reversed orientation of an edge view.
pub open spec fn rev_view(e: (int, (int, int), (int, int))) -> (int, (int, int), (int, int)) {
    (e.0, e.2, e.1)
}

/// Direction `d` out of member voxel `v` crosses the region boundary.
pub open spec fn is_boundary_dir(vs: Set<Voxel>, v: Voxel, d: int) -> bool {
    vs.contains(v) && 0 <= d < 4 && !vs.contains(vn_neighbor(v, d))
}

/// The two corners shared by voxel `v` and its von Neumann neighbor in
/// direction `d`, as an oriented pair.  Corner `(a, b)` is the lower-left
/// corner of voxel `(a, b)`.
pub open spec fn edge_corners(v: Voxel, d: int) -> ((int, int), (int, int)) {
    if d == 0 {
        ((v.i + 1, v.j as int), (v.i + 1, v.j + 1))
    } else if d == 1 {
        ((v.i as int, v.j as int), (v.i as int, v.j + 1))
    } else if d == 2 {
        ((v.i as int, v.j + 1), (v.i + 1, v.j + 1))
    } else {
        ((v.i as int, v.j as int), (v.i + 1, v.j as int))
    }
}

/// The oriented boundary edge emitted for member voxel `v` in direction `d`.
pub open spec fn fwd_edge(v: Voxel, d: int) -> (int, (int, int), (int, int)) {
    (v.k as int, edge_corners(v, d).0, edge_corners(v, d).1)
}

/// Every oriented boundary edge of the voxel set `vs`, in both orientations.
pub open spec fn boundary_edges(vs: Set<Voxel>) -> Set<(int, (int, int), (int, int))> {
    Set::new(
        |e: (int, (int, int), (int, int))|
            exists|v: Voxel, d: int|
                #[trigger] is_boundary_dir(vs, v, d) && (e == fwd_edge(v, d) || e == rev_view(
                    fwd_edge(v, d),
                )),
    )
}

/// The voxel of layer `kk` whose lower-left corner sits at offset
/// `(dx, dy)` from the lattice corner `c`.
pub open spec fn flank_voxel(c: (int, int), dx: int, dy: int, kk: i32) -> Voxel {
    Voxel::spec_new(c.0 + dx, c.1 + dy, kk as int)
}

/// A lattice corner whose four surrounding voxels have representable
/// coordinates.
pub open spec fn corner_in_range(c: (int, int)) -> bool {
    &&& -0x7fff_ffff <= c.0 <= 0x7fff_ffff
    &&& -0x7fff_ffff <= c.1 <= 0x7fff_ffff
}

/// Which boundary edges leave a lattice corner is fixed by the membership
/// of the four voxels around it: an edge is present exactly when the two
/// voxels flanking it disagree about membership.
pub proof fn lemma_corner_edges(vs: Set<Voxel>, kk: i32, c: (int, int))
    requires
        corner_in_range(c),
    ensures
        boundary_edges(vs).contains((kk as int, c, (c.0, c.1 + 1))) <==> (vs.contains(
            flank_voxel(c, -1, 0, kk),
        ) != vs.contains(flank_voxel(c, 0, 0, kk))),
        boundary_edges(vs).contains((kk as int, c, (c.0, c.1 - 1))) <==> (vs.contains(
            flank_voxel(c, -1, -1, kk),
        ) != vs.contains(flank_voxel(c, 0, -1, kk))),
        boundary_edges(vs).contains((kk as int, c, (c.0 + 1, c.1))) <==> (vs.contains(
            flank_voxel(c, 0, -1, kk),
        ) != vs.contains(flank_voxel(c, 0, 0, kk))),
        boundary_edges(vs).contains((kk as int, c, (c.0 - 1, c.1))) <==> (vs.contains(
            flank_voxel(c, -1, -1, kk),
        ) != vs.contains(flank_voxel(c, -1, 0, kk))),
{
    let lf = flank_voxel(c, -1, 0, kk);
    let rt = flank_voxel(c, 0, 0, kk);
    let lfd = flank_voxel(c, -1, -1, kk);
    let rtd = flank_voxel(c, 0, -1, kk);
    // Upward edge: between the voxel to the left of the corner and the one
    // to its right.
    let e_up = (kk as int, c, (c.0, c.1 + 1));
    if vs.contains(lf) != vs.contains(rt) {
        if vs.contains(lf) {
            assert(vn_neighbor(lf, 0) == rt);
            assert(is_boundary_dir(vs, lf, 0));
            assert(e_up == fwd_edge(lf, 0));
            assert(boundary_edges(vs).contains(e_up));
        } else {
            assert(vn_neighbor(rt, 1) == lf);
            assert(is_boundary_dir(vs, rt, 1));
            assert(e_up == fwd_edge(rt, 1));
            assert(boundary_edges(vs).contains(e_up));
        }
    }
    if boundary_edges(vs).contains(e_up) {
        let (v, d) = choose|v: Voxel, d: int|
            #[trigger] is_boundary_dir(vs, v, d) && (e_up == fwd_edge(v, d) || e_up == rev_view(
                fwd_edge(v, d),
            ));
        if d == 0 {
            assert(v == lf && vn_neighbor(v, 0) == rt);
        } else if d == 1 {
            assert(v == rt && vn_neighbor(v, 1) == lf);
        } else if d == 2 {
            assert(false);
        } else {
            assert(false);
        }
        assert(vs.contains(lf) != vs.contains(rt));
    }
    // Downward edge.
    let e_dn = (kk as int, c, (c.0, c.1 - 1));
    if vs.contains(lfd) != vs.contains(rtd) {
        if vs.contains(lfd) {
            assert(vn_neighbor(lfd, 0) == rtd);
            assert(is_boundary_dir(vs, lfd, 0));
            assert(e_dn == rev_view(fwd_edge(lfd, 0)));
            assert(boundary_edges(vs).contains(e_dn));
        } else {
            assert(vn_neighbor(rtd, 1) == lfd);
            assert(is_boundary_dir(vs, rtd, 1));
            assert(e_dn == rev_view(fwd_edge(rtd, 1)));
            assert(boundary_edges(vs).contains(e_dn));
        }
    }
    if boundary_edges(vs).contains(e_dn) {
        let (v, d) = choose|v: Voxel, d: int|
            #[trigger] is_boundary_dir(vs, v, d) && (e_dn == fwd_edge(v, d) || e_dn == rev_view(
                fwd_edge(v, d),
            ));
        if d == 0 {
            assert(v == lfd && vn_neighbor(v, 0) == rtd);
        } else if d == 1 {
            assert(v == rtd && vn_neighbor(v, 1) == lfd);
        } else if d == 2 {
            assert(false);
        } else {
            assert(false);
        }
        assert(vs.contains(lfd) != vs.contains(rtd));
    }
    // Rightward edge: between the voxel below the corner and the one above.
    let e_rt = (kk as int, c, (c.0 + 1, c.1));
    if vs.contains(rtd) != vs.contains(rt) {
        if vs.contains(rtd) {
            assert(vn_neighbor(rtd, 2) == rt);
            assert(is_boundary_dir(vs, rtd, 2));
            assert(e_rt == fwd_edge(rtd, 2));
            assert(boundary_edges(vs).contains(e_rt));
        } else {
            assert(vn_neighbor(rt, 3) == rtd);
            assert(is_boundary_dir(vs, rt, 3));
            assert(e_rt == fwd_edge(rt, 3));
            assert(boundary_edges(vs).contains(e_rt));
        }
    }
    if boundary_edges(vs).contains(e_rt) {
        let (v, d) = choose|v: Voxel, d: int|
            #[trigger] is_boundary_dir(vs, v, d) && (e_rt == fwd_edge(v, d) || e_rt == rev_view(
                fwd_edge(v, d),
            ));
        if d == 2 {
            assert(v == rtd && vn_neighbor(v, 2) == rt);
        } else if d == 3 {
            assert(v == rt && vn_neighbor(v, 3) == rtd);
        } else if d == 0 {
            assert(false);
        } else {
            assert(false);
        }
        assert(vs.contains(rtd) != vs.contains(rt));
    }
    // Leftward edge.
    let e_lf = (kk as int, c, (c.0 - 1, c.1));
    if vs.contains(lfd) != vs.contains(lf) {
        if vs.contains(lfd) {
            assert(vn_neighbor(lfd, 2) == lf);
            assert(is_boundary_dir(vs, lfd, 2));
            assert(e_lf == rev_view(fwd_edge(lfd, 2)));
            assert(boundary_edges(vs).contains(e_lf));
        } else {
            assert(vn_neighbor(lf, 3) == lfd);
            assert(is_boundary_dir(vs, lf, 3));
            assert(e_lf == rev_view(fwd_edge(lf, 3)));
            assert(boundary_edges(vs).contains(e_lf));
        }
    }
    if boundary_edges(vs).contains(e_lf) {
        let (v, d) = choose|v: Voxel, d: int|
            #[trigger] is_boundary_dir(vs, v, d) && (e_lf == fwd_edge(v, d) || e_lf == rev_view(
                fwd_edge(v, d),
            ));
        if d == 2 {
            assert(v == lfd && vn_neighbor(v, 2) == lf);
        } else if d == 3 {
            assert(v == lf && vn_neighbor(v, 3) == lfd);
        } else if d == 0 {
            assert(false);
        } else {
            assert(false);
        }
        assert(vs.contains(lfd) != vs.contains(lf));
    }
}

/// Every lattice corner of a voxel set's boundary graph has an even number
/// of boundary edges leaving it: the local degree is 0, 2 or 4.  This is
/// the validity of the boundary graph that the tracer walks; a genuine
/// voxel set can never produce an odd corner.
pub proof fn lemma_corner_degree_even(vs: Set<Voxel>, kk: i32, c: (int, int))
    requires
        corner_in_range(c),
    ensures
        ({
            let up: int = if boundary_edges(vs).contains((kk as int, c, (c.0, c.1 + 1))) {
                1
            } else {
                0
            };
            let dn: int = if boundary_edges(vs).contains((kk as int, c, (c.0, c.1 - 1))) {
                1
            } else {
                0
            };
            let rt: int = if boundary_edges(vs).contains((kk as int, c, (c.0 + 1, c.1))) {
                1
            } else {
                0
            };
            let lf: int = if boundary_edges(vs).contains((kk as int, c, (c.0 - 1, c.1))) {
                1
            } else {
                0
            };
            (up + dn + rt + lf) % 2 == 0
        }),
{
    lemma_corner_edges(vs, kk, c);
}

/// The planar offset of walk direction `di`: right, left, up, down.
pub open spec fn dir_dx(di: int) -> int {
    if di == 0 {
        1
    } else if di == 1 {
        -1
    } else {
        0
    }
}

/// The vertical component of walk direction `di`.
pub open spec fn dir_dy(di: int) -> int {
    if di == 2 {
        1
    } else if di == 3 {
        -1
    } else {
        0
    }
}

/// The oriented edge leaving corner `c` in direction `di` on layer `kk`.
pub open spec fn out_edge(kk: i32, c: (i32, i32), di: int) -> GridEdge {
    (kk, c, (((c.0 as int) + dir_dx(di)) as i32, ((c.1 as int) + dir_dy(di)) as i32))
}

/// The edge vector holds the edge leaving `c` in direction `di`.
pub open spec fn has_dir(es: Seq<GridEdge>, kk: i32, c: (i32, i32), di: int) -> bool {
    exists|t: int| 0 <= t < es.len() && #[trigger] es[t] == out_edge(kk, c, di)
}

/// The edge leaving `c` in direction `di` is present and visited.
pub open spec fn vdir(es: Seq<GridEdge>, vis: Seq<bool>, kk: i32, c: (i32, i32), di: int) -> bool {
    exists|t: int| 0 <= t < es.len() && #[trigger] es[t] == out_edge(kk, c, di) && vis[t]
}

/// The direction index of the unit step from `a` to `b`, or -1 when the
/// step is not a unit step.
pub open spec fn dir_index(a: (i32, i32), b: (i32, i32)) -> int {
    if b.0 - a.0 == 1 && b.1 == a.1 {
        0
    } else if b.0 - a.0 == -1 && b.1 == a.1 {
        1
    } else if b.0 == a.0 && b.1 - a.1 == 1 {
        2
    } else if b.0 == a.0 && b.1 - a.1 == -1 {
        3
    } else {
        -1
    }
}

/// The handedness pairing of the four edges at a checkerboard corner: a
/// walk that enters by consuming the reverse of direction `di` leaves by
/// `sigma_dir(member, di)`, where `member` says whether the voxel whose
/// lower-left corner is the corner belongs to the region.
pub open spec fn sigma_dir(member: bool, di: int) -> int {
    if member {
        if di == 0 {
            3
        } else if di == 3 {
            0
        } else if di == 1 {
            2
        } else {
            1
        }
    } else {
        if di == 0 {
            2
        } else if di == 2 {
            0
        } else if di == 1 {
            3
        } else {
            1
        }
    }
}

/// The voxel of layer `kk` whose lower-left corner is `c` belongs to `vs`.
pub open spec fn corner_member(vs: Set<Voxel>, kk: i32, c: (i32, i32)) -> bool {
    vs.contains(Voxel { i: c.0, j: c.1, k: kk })
}

/// All four edges leave corner `c`: a checkerboard corner.
pub open spec fn deg4(es: Seq<GridEdge>, kk: i32, c: (i32, i32)) -> bool {
    &&& has_dir(es, kk, c, 0)
    &&& has_dir(es, kk, c, 1)
    &&& has_dir(es, kk, c, 2)
    &&& has_dir(es, kk, c, 3)
}

/// The two walk-state exceptions to edge-pair balance: the first edge of
/// the walk at its start corner, and the reverse of its last step at its
/// current end.
pub open spec fn xflag(poly: Seq<(i32, i32)>, c: (i32, i32), di: int) -> bool {
    ||| (c == poly[0] && di == dir_index(poly[0], poly[1]))
    ||| (c == poly[poly.len() - 1] && di == dir_index(poly[poly.len() - 1], poly[poly.len() - 2]))
}

/// Edge-pair balance at corner `c` during a walk: with the walk's two
/// exceptional marks cancelled, the visited flags agree across the
/// handedness pairing at a checkerboard corner, and across all present
/// edges at any other corner.  It makes an already-visited continuation
/// possible only at the walk's start corner.
#[verifier::opaque]
pub open spec fn balanced(
    es: Seq<GridEdge>,
    vis: Seq<bool>,
    kk: i32,
    vs: Set<Voxel>,
    poly: Seq<(i32, i32)>,
    c: (i32, i32),
) -> bool {
    &&& (deg4(es, kk, c) ==> forall|di: int|
        0 <= di < 4 ==> ((#[trigger] vdir(es, vis, kk, c, di) != xflag(poly, c, di)) == (vdir(
            es,
            vis,
            kk,
            c,
            sigma_dir(corner_member(vs, kk, c), di),
        ) != xflag(poly, c, sigma_dir(corner_member(vs, kk, c), di)))))
    &&& (!deg4(es, kk, c) ==> forall|di: int, dj: int|
        0 <= di < 4 && 0 <= dj < 4 && #[trigger] has_dir(es, kk, c, di) && #[trigger] has_dir(
            es,
            kk,
            c,
            dj,
        ) ==> ((vdir(es, vis, kk, c, di) != xflag(poly, c, di)) == (vdir(es, vis, kk, c, dj)
            != xflag(poly, c, dj))))
}

/// Edge-pair balance between walks, with no exceptional marks.
#[verifier::opaque]
pub open spec fn balanced0(
    es: Seq<GridEdge>,
    vis: Seq<bool>,
    kk: i32,
    vs: Set<Voxel>,
    c: (i32, i32),
) -> bool {
    &&& (deg4(es, kk, c) ==> forall|di: int|
        0 <= di < 4 ==> (#[trigger] vdir(es, vis, kk, c, di) == vdir(
            es,
            vis,
            kk,
            c,
            sigma_dir(corner_member(vs, kk, c), di),
        )))
    &&& (!deg4(es, kk, c) ==> forall|di: int, dj: int|
        0 <= di < 4 && 0 <= dj < 4 && #[trigger] has_dir(es, kk, c, di) && #[trigger] has_dir(
            es,
            kk,
            c,
            dj,
        ) ==> (vdir(es, vis, kk, c, di) == vdir(es, vis, kk, c, dj)))
}

/// How the per-direction visited flags change when one edge and its
/// reverse are marked.
proof fn lemma_vdir_mark(
    es: Seq<GridEdge>,
    v0: Seq<bool>,
    v1: Seq<bool>,
    kk: i32,
    e: GridEdge,
    c: (i32, i32),
    di: int,
)
    requires
        v0.len() == es.len(),
        v1.len() == es.len(),
        forall|t: int|
            0 <= t < es.len() ==> #[trigger] v1[t] == (v0[t] || es[t] == e || es[t] == ((
            e.0,
            e.2,
            e.1,
            ))),
    ensures
        vdir(es, v1, kk, c, di) == (vdir(es, v0, kk, c, di) || ((out_edge(kk, c, di) == e
            || out_edge(kk, c, di) == ((e.0, e.2, e.1))) && has_dir(es, kk, c, di))),
{
    let oe = out_edge(kk, c, di);
    if vdir(es, v1, kk, c, di) {
        let t = choose|t: int| 0 <= t < es.len() && #[trigger] es[t] == oe && v1[t];
        if v0[t] {
            assert(vdir(es, v0, kk, c, di));
        } else {
            assert(es[t] == e || es[t] == ((e.0, e.2, e.1)));
            assert(has_dir(es, kk, c, di));
        }
    }
    if vdir(es, v0, kk, c, di) {
        let t = choose|t: int| 0 <= t < es.len() && #[trigger] es[t] == oe && v0[t];
        assert(v1[t]);
        assert(vdir(es, v1, kk, c, di));
    }
    if (oe == e || oe == ((e.0, e.2, e.1))) && has_dir(es, kk, c, di) {
        let t = choose|t: int| 0 <= t < es.len() && #[trigger] es[t] == oe;
        assert(v1[t]);
        assert(vdir(es, v1, kk, c, di));
    }
}

/// After the first edge of a walk and its reverse are marked, every corner
/// is balanced with the two fresh marks as the walk's exceptions.
proof fn lemma_balance_after_first_mark(
    es: Seq<GridEdge>,
    v0: Seq<bool>,
    v1: Seq<bool>,
    kk: i32,
    vs: Set<Voxel>,
    e0: GridEdge,
    poly: Seq<(i32, i32)>,
)
    requires
        v0.len() == es.len(),
        v1.len() == es.len(),
        forall|t: int|
            0 <= t < es.len() ==> #[trigger] v1[t] == (v0[t] || es[t] == e0 || es[t] == ((
            e0.0,
            e0.2,
            e0.1,
            ))),
        forall|c: (i32, i32)| #[trigger] balanced0(es, v0, kk, vs, c),
        poly.len() == 2,
        poly[0] == e0.1,
        poly[1] == e0.2,
        0 <= dir_index(poly[0], poly[1]) < 4,
        e0.0 == kk,
        corner_ok(poly[0]),
        corner_ok(poly[1]),
        !vdir(es, v0, kk, poly[0], dir_index(poly[0], poly[1])),
        !vdir(es, v0, kk, poly[1], dir_index(poly[1], poly[0])),
        has_dir(es, kk, poly[0], dir_index(poly[0], poly[1])),
        has_dir(es, kk, poly[1], dir_index(poly[1], poly[0])),
    ensures
        forall|c: (i32, i32)| #[trigger] balanced(es, v1, kk, vs, poly, c),
{
    reveal(balanced);
    reveal(balanced0);
    let p0 = poly[0];
    let p1 = poly[1];
    let d0 = dir_index(p0, p1);
    let rv1 = dir_index(p1, p0);
    assert(out_edge(kk, p0, d0) == e0);
    assert(out_edge(kk, p1, rv1) == ((e0.0, e0.2, e0.1)));
    assert(p0 != p1);
    assert forall|c: (i32, i32), di: int| 0 <= di < 4 implies ((#[trigger] vdir(
        es,
        v1,
        kk,
        c,
        di,
    ) != xflag(poly, c, di)) == vdir(es, v0, kk, c, di)) by {
        lemma_vdir_mark(es, v0, v1, kk, e0, c, di);
        if c == p0 {
            if di == d0 {
                assert(out_edge(kk, c, di) == e0);
                assert(xflag(poly, c, di));
            } else {
                assert(out_edge(kk, c, di).2 != e0.2);
                assert(out_edge(kk, c, di).1 == p0 && ((e0.0, e0.2, e0.1)).1 == p1);
                assert(!xflag(poly, c, di));
            }
        } else if c == p1 {
            if di == rv1 {
                assert(out_edge(kk, c, di) == ((e0.0, e0.2, e0.1)));
                assert(xflag(poly, c, di));
            } else {
                assert(out_edge(kk, c, di) != e0);
                assert(out_edge(kk, c, di).2 != p0);
                assert(!xflag(poly, c, di));
            }
        } else {
            assert(out_edge(kk, c, di).1 == c);
            assert(out_edge(kk, c, di) != e0);
            assert(out_edge(kk, c, di) != ((e0.0, e0.2, e0.1)));
            assert(!xflag(poly, c, di));
        }
    }
    assert forall|c: (i32, i32)| #[trigger] balanced(es, v1, kk, vs, poly, c) by {
        assert(balanced0(es, v0, kk, vs, c));
    }
}

/// The opposite of walk direction `di`.
pub open spec fn opp_dir(di: int) -> int {
    if di == 0 {
        1
    } else if di == 1 {
        0
    } else if di == 2 {
        3
    } else {
        2
    }
}

/// Consuming the continuation pair of a transit keeps every corner
/// balanced: the walk's end exception moves from the old end to the new
/// one, and the freshly marked pair cancels against the handedness pairing.
#[verifier::rlimit(100)]
proof fn lemma_balance_after_step(
    es: Seq<GridEdge>,
    v1: Seq<bool>,
    v2: Seq<bool>,
    kk: i32,
    vs: Set<Voxel>,
    poly: Seq<(i32, i32)>,
    econt: GridEdge,
    cdi: int,
)
    requires
        v1.len() == es.len(),
        v2.len() == es.len(),
        forall|t: int|
            0 <= t < es.len() ==> #[trigger] v2[t] == (v1[t] || es[t] == econt || es[t] == ((
            econt.0,
            econt.2,
            econt.1,
            ))),
        forall|c: (i32, i32)| #[trigger] balanced(es, v1, kk, vs, poly, c),
        poly.len() >= 2,
        corner_ok(poly[poly.len() - 1]),
        corner_ok(poly[poly.len() - 2]),
        corner_ok(econt.2),
        corner_ok(poly[0]),
        corner_ok(poly[1]),
        0 <= dir_index(poly[poly.len() - 1], poly[poly.len() - 2]) < 4,
        0 <= cdi < 4,
        cdi != dir_index(poly[poly.len() - 1], poly[poly.len() - 2]),
        econt == out_edge(kk, poly[poly.len() - 1], cdi),
        vdir(es, v1, kk, poly[poly.len() - 1], dir_index(poly[poly.len() - 1], poly[poly.len() - 2])),
        !vdir(es, v1, kk, poly[poly.len() - 1], cdi),
        !vdir(es, v1, kk, econt.2, opp_dir(cdi)),
        has_dir(es, kk, poly[poly.len() - 1], cdi),
        has_dir(es, kk, econt.2, opp_dir(cdi)),
        0 <= dir_index(poly[0], poly[1]) < 4,
        vdir(es, v1, kk, poly[0], dir_index(poly[0], poly[1])),
        poly[poly.len() - 1] == poly[0] ==> dir_index(poly[poly.len() - 1], poly[poly.len() - 2])
            != dir_index(poly[0], poly[1]),
        deg4(es, kk, poly[poly.len() - 1]) ==> cdi == sigma_dir(
            corner_member(vs, kk, poly[poly.len() - 1]),
            dir_index(poly[poly.len() - 1], poly[poly.len() - 2]),
        ),
        !deg4(es, kk, poly[poly.len() - 1]) ==> (forall|di: int|
            0 <= di < 4 && #[trigger] has_dir(es, kk, poly[poly.len() - 1], di) ==> di
                == dir_index(poly[poly.len() - 1], poly[poly.len() - 2]) || di == cdi),
    ensures
        forall|c: (i32, i32)| #[trigger] balanced(es, v2, kk, vs, poly.push(econt.2), c),
        poly.push(econt.2)[poly.len() as int] == poly[0] ==> dir_index(econt.2, poly[poly.len() - 1])
            != dir_index(poly[0], poly[1]),
{
    reveal(balanced);
    let v = poly[poly.len() - 1];
    let u = poly[poly.len() - 2];
    let w = econt.2;
    let rv = dir_index(v, u);
    let p0 = poly[0];
    let d0 = dir_index(p0, poly[1]);
    let pn = poly.push(w);
    let rvn = opp_dir(cdi);
    assert(w == pn[pn.len() - 1] && v == pn[pn.len() - 2] && pn[0] == p0 && pn[1] == poly[1]);
    assert(out_edge(kk, v, cdi).2 == w && dir_index(w, v) == rvn);
    assert(v != w);
    assert(out_edge(kk, w, rvn) == ((econt.0, econt.2, econt.1)));
    // The new end at the start corner cannot re-point along the first edge:
    // that would make the consumed continuation the first edge's reverse,
    // which has been marked since the walk began.
    if w == p0 && rvn == d0 {
        assert(out_edge(kk, w, rvn) == out_edge(kk, p0, d0));
        assert(out_edge(kk, p0, d0).2 == poly[1]);
        assert(vdir(es, v1, kk, p0, d0));
        assert(!vdir(es, v1, kk, w, rvn));
        assert(false);
    }
    // The continuation cannot be the first edge either, for the same reason
    // when the old end sits at the start corner.
    if v == p0 && cdi == d0 {
        assert(out_edge(kk, v, cdi) == out_edge(kk, p0, d0));
        assert(vdir(es, v1, kk, p0, d0));
        assert(false);
    }
    assert forall|c: (i32, i32), di: int| 0 <= di < 4 implies (#[trigger] vdir(es, v2, kk, c, di)
        == (vdir(es, v1, kk, c, di) || ((c == v && di == cdi) || (c == w && di == rvn)))) by {
        lemma_vdir_mark(es, v1, v2, kk, econt, c, di);
        if c == v && di == cdi {
            assert(out_edge(kk, c, di) == econt);
            assert(has_dir(es, kk, v, cdi));
        } else if c == w && di == rvn {
            assert(out_edge(kk, c, di) == ((econt.0, econt.2, econt.1)));
            assert(has_dir(es, kk, w, rvn));
        } else {
            if out_edge(kk, c, di) == econt {
                assert(c == econt.1 && c == v);
                assert(out_edge(kk, v, di).2 == out_edge(kk, v, cdi).2);
                assert(di == cdi);
                assert(false);
            }
            if out_edge(kk, c, di) == ((econt.0, econt.2, econt.1)) {
                assert(c == w);
                assert(out_edge(kk, w, di).2 == v);
                assert(di == rvn);
                assert(false);
            }
        }
    }
    assert forall|c: (i32, i32), di: int| 0 <= di < 4 implies (#[trigger] xflag(pn, c, di) == ((c
        == p0 && di == d0) || (c == w && di == rvn))) by {
        assert(pn[0] == p0 && pn[1] == poly[1]);
    }
    assert forall|c: (i32, i32), di: int| 0 <= di < 4 implies (#[trigger] xflag(poly, c, di) == ((
    c == p0 && di == d0) || (c == v && di == rv))) by {
    }
    assert forall|c: (i32, i32)| #[trigger] balanced(es, v2, kk, vs, pn, c) by {
        assert(balanced(es, v1, kk, vs, poly, c));
        if c == v {
            // the consumed pair flips together
            assert forall|di: int| 0 <= di < 4 implies ((#[trigger] vdir(es, v2, kk, c, di)
                != xflag(pn, c, di)) == if di == cdi || di == rv {
                !(vdir(es, v1, kk, c, di) != xflag(poly, c, di))
            } else {
                (vdir(es, v1, kk, c, di) != xflag(poly, c, di))
            }) by {
                if di == cdi {
                    assert(vdir(es, v2, kk, c, di));
                    assert(!vdir(es, v1, kk, c, di));
                    assert(!xflag(poly, c, di));
                    assert(xflag(pn, c, di) == (c == p0 && di == d0));
                    if c == p0 && di == d0 {
                        assert(false);
                    }
                } else if di == rv {
                    assert(vdir(es, v1, kk, c, di) && vdir(es, v2, kk, c, di));
                    assert(xflag(poly, c, di));
                    assert(xflag(pn, c, di) == (c == p0 && di == d0));
                    if c == p0 && di == d0 {
                        assert(false);
                    }
                } else {
                    if c == w {
                        assert(false);
                    }
                }
            }
        } else if c == w {
            assert forall|di: int| 0 <= di < 4 implies ((#[trigger] vdir(es, v2, kk, c, di)
                != xflag(pn, c, di)) == (vdir(es, v1, kk, c, di) != xflag(poly, c, di))) by {
                if di == rvn {
                    assert(vdir(es, v2, kk, c, di) && !vdir(es, v1, kk, c, di));
                    assert(xflag(pn, c, di));
                    assert(xflag(poly, c, di) == (c == p0 && di == d0));
                    if c == p0 && di == d0 {
                        assert(false);
                    }
                }
            }
        } else {
            assert forall|di: int| 0 <= di < 4 implies ((#[trigger] vdir(es, v2, kk, c, di)
                != xflag(pn, c, di)) == (vdir(es, v1, kk, c, di) != xflag(poly, c, di))) by {
            }
        }
    }
}

/// An already-visited continuation can appear only at the walk's start
/// corner, along the walk's first edge: the closure moment.
proof fn lemma_closure_at_start(
    es: Seq<GridEdge>,
    v1: Seq<bool>,
    kk: i32,
    vs: Set<Voxel>,
    poly: Seq<(i32, i32)>,
    cdi: int,
)
    requires
        forall|c: (i32, i32)| #[trigger] balanced(es, v1, kk, vs, poly, c),
        poly.len() >= 2,
        0 <= dir_index(poly[poly.len() - 1], poly[poly.len() - 2]) < 4,
        0 <= cdi < 4,
        cdi != dir_index(poly[poly.len() - 1], poly[poly.len() - 2]),
        vdir(es, v1, kk, poly[poly.len() - 1], dir_index(poly[poly.len() - 1], poly[poly.len() - 2])),
        vdir(es, v1, kk, poly[poly.len() - 1], cdi),
        has_dir(es, kk, poly[poly.len() - 1], cdi),
        has_dir(es, kk, poly[poly.len() - 1], dir_index(poly[poly.len() - 1], poly[poly.len() - 2])),
        deg4(es, kk, poly[poly.len() - 1]) ==> cdi == sigma_dir(
            corner_member(vs, kk, poly[poly.len() - 1]),
            dir_index(poly[poly.len() - 1], poly[poly.len() - 2]),
        ),
    ensures
        poly[poly.len() - 1] == poly[0],
        cdi == dir_index(poly[0], poly[1]),
{
    reveal(balanced);
    let v = poly[poly.len() - 1];
    let rv = dir_index(v, poly[poly.len() - 2]);
    assert(balanced(es, v1, kk, vs, poly, v));
    assert(xflag(poly, v, rv));
    if deg4(es, kk, v) {
        let m = corner_member(vs, kk, v);
        assert(sigma_dir(m, sigma_dir(m, rv)) == rv);
        assert((vdir(es, v1, kk, v, cdi) != xflag(poly, v, cdi)) == (vdir(es, v1, kk, v, rv)
            != xflag(poly, v, rv)));
    }
    assert(xflag(poly, v, cdi));
    assert(v == poly[0] && cdi == dir_index(poly[0], poly[1]));
}

/// When the walk closes at its start corner, its two exceptional marks are
/// a consumed pair, and balance without exceptions holds again.
proof fn lemma_restore_balanced0(
    es: Seq<GridEdge>,
    v1: Seq<bool>,
    kk: i32,
    vs: Set<Voxel>,
    poly: Seq<(i32, i32)>,
    cdi: int,
)
    requires
        forall|c: (i32, i32)| #[trigger] balanced(es, v1, kk, vs, poly, c),
        poly.len() >= 2,
        0 <= dir_index(poly[poly.len() - 1], poly[poly.len() - 2]) < 4,
        0 <= cdi < 4,
        cdi != dir_index(poly[poly.len() - 1], poly[poly.len() - 2]),
        poly[poly.len() - 1] == poly[0],
        cdi == dir_index(poly[0], poly[1]),
        vdir(es, v1, kk, poly[poly.len() - 1], dir_index(poly[poly.len() - 1], poly[poly.len() - 2])),
        vdir(es, v1, kk, poly[poly.len() - 1], cdi),
        has_dir(es, kk, poly[poly.len() - 1], dir_index(poly[poly.len() - 1], poly[poly.len() - 2])),
        has_dir(es, kk, poly[poly.len() - 1], cdi),
        deg4(es, kk, poly[poly.len() - 1]) ==> cdi == sigma_dir(
            corner_member(vs, kk, poly[poly.len() - 1]),
            dir_index(poly[poly.len() - 1], poly[poly.len() - 2]),
        ),
        !deg4(es, kk, poly[poly.len() - 1]) ==> (forall|di: int|
            0 <= di < 4 && #[trigger] has_dir(es, kk, poly[poly.len() - 1], di) ==> di
                == dir_index(poly[poly.len() - 1], poly[poly.len() - 2]) || di == cdi),
    ensures
        forall|c: (i32, i32)| #[trigger] balanced0(es, v1, kk, vs, c),
{
    reveal(balanced);
    reveal(balanced0);
    let v = poly[poly.len() - 1];
    let rv = dir_index(v, poly[poly.len() - 2]);
    assert forall|c: (i32, i32)| #[trigger] balanced0(es, v1, kk, vs, c) by {
        assert(balanced(es, v1, kk, vs, poly, c));
        if c == v {
            let m = corner_member(vs, kk, c);
            assert(sigma_dir(m, sigma_dir(m, rv)) == rv);
            assert forall|di: int| 0 <= di < 4 implies (#[trigger] xflag(poly, c, di) == (di
                == cdi || di == rv)) by {
                assert(c == poly[0] && c == poly[poly.len() - 1]);
            }
            if deg4(es, kk, c) {
                assert forall|di: int| 0 <= di < 4 implies (#[trigger] vdir(es, v1, kk, c, di)
                    == vdir(es, v1, kk, c, sigma_dir(m, di))) by {
                    if di == rv || di == cdi {
                        assert(vdir(es, v1, kk, c, rv) && vdir(es, v1, kk, c, cdi));
                        assert(sigma_dir(m, rv) == cdi && sigma_dir(m, cdi) == rv);
                    } else {
                        assert((vdir(es, v1, kk, c, di) != xflag(poly, c, di)) == (vdir(
                            es,
                            v1,
                            kk,
                            c,
                            sigma_dir(m, di),
                        ) != xflag(poly, c, sigma_dir(m, di))));
                        assert(!xflag(poly, c, di));
                        assert(sigma_dir(m, di) != rv && sigma_dir(m, di) != cdi);
                        assert(!xflag(poly, c, sigma_dir(m, di)));
                    }
                }
            } else {
                assert forall|di: int, dj: int|
                    0 <= di < 4 && 0 <= dj < 4 && #[trigger] has_dir(es, kk, c, di)
                        && #[trigger] has_dir(es, kk, c, dj) implies (vdir(es, v1, kk, c, di)
                    == vdir(es, v1, kk, c, dj)) by {
                    let adi = (vdir(es, v1, kk, c, di) != xflag(poly, c, di));
                    let adj2 = (vdir(es, v1, kk, c, dj) != xflag(poly, c, dj));
                    assert(adi == adj2);
                    assert((vdir(es, v1, kk, c, rv) != xflag(poly, c, rv)) == adi);
                    assert(vdir(es, v1, kk, c, rv) && xflag(poly, c, rv));
                    assert(!adi);
                    if xflag(poly, c, di) {
                        assert(di == cdi || di == rv);
                        assert(vdir(es, v1, kk, c, di));
                    } else {
                        assert(!vdir(es, v1, kk, c, di));
                        assert(xflag(poly, c, rv));
                    }
                    if xflag(poly, c, dj) {
                        assert(vdir(es, v1, kk, c, dj));
                    } else {
                        assert(!vdir(es, v1, kk, c, dj));
                    }
                }
            }
        } else {
            assert forall|di: int| 0 <= di < 4 implies !#[trigger] xflag(poly, c, di) by {
            }
        }
    }
}

/// A corner coordinate that can come out of an admissible voxel.
pub open spec fn corner_ok(c: (i32, i32)) -> bool {
    &&& -MAX_COORD <= c.0 <= MAX_COORD + 1
    &&& -MAX_COORD <= c.1 <= MAX_COORD + 1
}

/// Shape facts about any member of `boundary_edges`: it lies on the layer of
/// an admissible member voxel and joins two adjacent lattice corners.
pub open spec fn edge_shape_ok(e: GridEdge) -> bool {
    &&& corner_ok(e.1)
    &&& corner_ok(e.2)
    &&& -MAX_COORD <= e.0 <= MAX_COORD
    &&& (e.1.0 == e.2.0 && (e.2.1 - e.1.1 == 1 || e.1.1 - e.2.1 == 1)) || (e.1.1 == e.2.1 && (
    e.2.0 - e.1.0 == 1 || e.1.0 - e.2.0 == 1))
}

/// Position `t` of `es` has its reversed edge somewhere in `es`.
pub open spec fn rev_in(es: Seq<GridEdge>, t: int) -> bool {
    exists|s: int| 0 <= s < es.len() && #[trigger] es[s] == ((es[t].0, es[t].2, es[t].1))
}

/// Returns the same edge with its two corner points swapped.
pub fn reverse_edge(edge: &GridEdge) -> (r: GridEdge)
    ensures
        r == (edge.0, edge.2, edge.1),
        edge_view(r) == rev_view(edge_view(*edge)),
{
    (edge.0, edge.2, edge.1)
}

/// Collects every oriented boundary edge of `vs`, each stored together with
/// its reverse.
fn collect_edges(vs: &VoxelSet) -> (r: Vec<GridEdge>)
    requires
        vs.wf(),
    ensures
        forall|t: int|
            0 <= t < r@.len() ==> boundary_edges(vs@).contains(edge_view(#[trigger] r@[t])),
        forall|ev: (int, (int, int), (int, int))|
            boundary_edges(vs@).contains(ev) ==> exists|t: int|
                0 <= t < r@.len() && edge_view(#[trigger] r@[t]) == ev,
        forall|t: int| 0 <= t < r@.len() ==> #[trigger] rev_in(r@, t),
        forall|t: int| 0 <= t < r@.len() ==> edge_shape_ok(#[trigger] r@[t]),
{
    let ghost gvs = vs@;
    let mut r: Vec<GridEdge> = Vec::new();
    let n = vs.len();
    let mut t: usize = 0;
    proof {
        vs.lemma_view();
    }
    while t < n
        invariant
            vs.wf(),
            gvs == vs@,
            n == vs.seq().len(),
            t <= n,
            forall|s: int|
                0 <= s < r@.len() ==> boundary_edges(gvs).contains(edge_view(#[trigger] r@[s])),
            forall|ti: int, d: int|
                0 <= ti < t && #[trigger] is_boundary_dir(gvs, vs.seq()[ti], d) ==> (exists|s: int|
                    0 <= s < r@.len() && edge_view(#[trigger] r@[s]) == fwd_edge(vs.seq()[ti], d))
                    && (exists|s: int|
                    0 <= s < r@.len() && edge_view(#[trigger] r@[s]) == rev_view(
                        fwd_edge(vs.seq()[ti], d),
                    )),
            forall|s: int| 0 <= s < r@.len() ==> #[trigger] rev_in(r@, s),
            forall|s: int| 0 <= s < r@.len() ==> edge_shape_ok(#[trigger] r@[s]),
        decreases n - t,
    {
        let v = vs.item(t);
        proof {
            vs.lemma_view();
            assert(coord_ok(v));
        }
        let nbrs = crate::geom::vn_neighbors(v);
        let mut d: usize = 0;
        while d < 4
            invariant
                vs.wf(),
                gvs == vs@,
                n == vs.seq().len(),
                t < n,
                d <= 4,
                v == vs.seq()[t as int],
                coord_ok(v),
                gvs.contains(v),
                nbrs@.len() == 4,
                forall|dd: int| 0 <= dd < 4 ==> nbrs@[dd] == vn_neighbor(v, dd),
                forall|s: int|
                    0 <= s < r@.len() ==> boundary_edges(gvs).contains(
                        edge_view(#[trigger] r@[s]),
                    ),
                forall|ti: int, dd: int|
                    0 <= ti < t && #[trigger] is_boundary_dir(gvs, vs.seq()[ti], dd) ==> (exists|
                        s: int,
                    |
                        0 <= s < r@.len() && edge_view(#[trigger] r@[s]) == fwd_edge(
                            vs.seq()[ti],
                            dd,
                        )) && (exists|s: int|
                        0 <= s < r@.len() && edge_view(#[trigger] r@[s]) == rev_view(
                            fwd_edge(vs.seq()[ti], dd),
                        )),
                forall|dd: int|
                    0 <= dd < d && is_boundary_dir(gvs, v, dd) ==> (exists|s: int|
                        0 <= s < r@.len() && edge_view(#[trigger] r@[s]) == fwd_edge(v, dd)) && (
                    exists|s: int|
                        0 <= s < r@.len() && edge_view(#[trigger] r@[s]) == rev_view(
                            fwd_edge(v, dd),
                        )),
                forall|s: int| 0 <= s < r@.len() ==> #[trigger] rev_in(r@, s),
                forall|s: int| 0 <= s < r@.len() ==> edge_shape_ok(#[trigger] r@[s]),
            decreases 4 - d,
        {
            let nb = nbrs[d];
            let ghost r0 = r@;
            if !vs.contains(&nb) {
                let c1: (i32, i32);
                let c2: (i32, i32);
                if d == 0 {
                    c1 = (v.i + 1, v.j);
                    c2 = (v.i + 1, v.j + 1);
                } else if d == 1 {
                    c1 = (v.i, v.j);
                    c2 = (v.i, v.j + 1);
                } else if d == 2 {
                    c1 = (v.i, v.j + 1);
                    c2 = (v.i + 1, v.j + 1);
                } else {
                    c1 = (v.i, v.j);
                    c2 = (v.i + 1, v.j);
                }
                let e: GridEdge = (v.k, c1, c2);
                let er: GridEdge = (v.k, c2, c1);
                proof {
                    assert(is_boundary_dir(gvs, v, d as int));
                    assert(edge_view(e) == fwd_edge(v, d as int));
                    assert(edge_view(er) == rev_view(fwd_edge(v, d as int)));
                    assert(boundary_edges(gvs).contains(edge_view(e)));
                    assert(boundary_edges(gvs).contains(edge_view(er)));
                }
                r.push(e);
                r.push(er);
                proof {
                    assert(r@[r@.len() - 2] == e && r@[r@.len() - 1] == er);
                    assert(edge_shape_ok(e) && edge_shape_ok(er));
                    assert forall|s: int| 0 <= s < r@.len() implies #[trigger] rev_in(r@, s) by {
                        if s < r0.len() {
                            assert(rev_in(r0, s));
                            let s2 = choose|s2: int|
                                0 <= s2 < r0.len() && #[trigger] r0[s2] == ((r0[s].0, r0[s].2, r0[s].1));
                            assert(r@[s2] == ((r@[s].0, r@[s].2, r@[s].1)));
                        } else if s == r0.len() {
                            assert(r@[s + 1] == ((r@[s].0, r@[s].2, r@[s].1)));
                        } else {
                            assert(r@[s - 1] == ((r@[s].0, r@[s].2, r@[s].1)));
                        }
                    }
                }
            }
            proof {
                if gvs.contains(nbrs@[d as int]) {
                    assert(!is_boundary_dir(gvs, v, d as int));
                }
                assert forall|ti: int, dd: int|
                    0 <= ti < t && #[trigger] is_boundary_dir(gvs, vs.seq()[ti], dd) implies (exists|
                    s: int,
                |
                    0 <= s < r@.len() && edge_view(#[trigger] r@[s]) == fwd_edge(vs.seq()[ti], dd))
                    && (exists|s: int|
                    0 <= s < r@.len() && edge_view(#[trigger] r@[s]) == rev_view(
                        fwd_edge(vs.seq()[ti], dd),
                    )) by {
                    let s1 = choose|s: int|
                        0 <= s < r0.len() && edge_view(#[trigger] r0[s]) == fwd_edge(
                            vs.seq()[ti],
                            dd,
                        );
                    assert(edge_view(r@[s1]) == fwd_edge(vs.seq()[ti], dd));
                    let s2 = choose|s: int|
                        0 <= s < r0.len() && edge_view(#[trigger] r0[s]) == rev_view(
                            fwd_edge(vs.seq()[ti], dd),
                        );
                    assert(edge_view(r@[s2]) == rev_view(fwd_edge(vs.seq()[ti], dd)));
                }
                assert forall|dd: int|
                    0 <= dd < d + 1 && is_boundary_dir(gvs, v, dd) implies (exists|s: int|
                    0 <= s < r@.len() && edge_view(#[trigger] r@[s]) == fwd_edge(v, dd)) && (exists|
                    s: int,
                |
                    0 <= s < r@.len() && edge_view(#[trigger] r@[s]) == rev_view(
                        fwd_edge(v, dd),
                    )) by {
                    if dd < d {
                        let s1 = choose|s: int|
                            0 <= s < r0.len() && edge_view(#[trigger] r0[s]) == fwd_edge(v, dd);
                        assert(edge_view(r@[s1]) == fwd_edge(v, dd));
                        let s2 = choose|s: int|
                            0 <= s < r0.len() && edge_view(#[trigger] r0[s]) == rev_view(
                                fwd_edge(v, dd),
                            );
                        assert(edge_view(r@[s2]) == rev_view(fwd_edge(v, dd)));
                    } else {
                        assert(edge_view(r@[r@.len() - 2]) == fwd_edge(v, dd));
                        assert(edge_view(r@[r@.len() - 1]) == rev_view(fwd_edge(v, dd)));
                    }
                }
            }
            d += 1;
        }
        t += 1;
    }
    proof {
        vs.lemma_view();
        assert forall|ev: (int, (int, int), (int, int))|
            boundary_edges(gvs).contains(ev) implies exists|s: int|
            0 <= s < r@.len() && edge_view(#[trigger] r@[s]) == ev by {
            let (v, d) = choose|v: Voxel, d: int|
                #[trigger] is_boundary_dir(gvs, v, d) && (ev == fwd_edge(v, d) || ev == rev_view(
                    fwd_edge(v, d),
                ));
            let ti = choose|ti: int| 0 <= ti < vs.seq().len() && vs.seq()[ti] == v;
            assert(is_boundary_dir(gvs, vs.seq()[ti], d));
        }
    }
    r
}


/// The absolute value of an integer.
pub open spec fn iabs(x: int) -> int {
    if x < 0 {
        -x
    } else {
        x
    }
}

/// Vertex `t` is collinear with its two neighbors: the cross product of
/// the step into it and the step out of it is zero.
pub open spec fn collin_drop(p: Seq<(i32, i32)>, t: int) -> bool {
    (p[t].0 - p[t - 1].0) * (p[t + 1].1 - p[t].1) - (p[t].1 - p[t - 1].1) * (p[t + 1].0 - p[t].0)
        == 0
}

/// The interior vertices of `p` with index in `[lo, hi)` that survive the
/// collinearity filter, in order.
pub open spec fn simplify_kept(p: Seq<(i32, i32)>, lo: int, hi: int) -> Seq<(i32, i32)>
    decreases hi - lo,
{
    if hi <= lo {
        Seq::empty()
    } else {
        simplify_kept(p, lo, hi - 1) + (if collin_drop(p, hi - 1) {
            Seq::empty()
        } else {
            seq![p[hi - 1]]
        })
    }
}

/// The exact result of the lossless simplification pass: interior vertices
/// collinear with their original neighbors are dropped, and the ring is
/// closed again on its first vertex.
pub open spec fn simplify_spec(p: Seq<(i32, i32)>) -> Seq<(i32, i32)> {
    if p.len() <= 3 {
        p
    } else {
        seq![p[0]] + simplify_kept(p, 1, p.len() - 1) + seq![p[0]]
    }
}

/// Removes every vertex that is collinear with its neighbors: an exact,
/// lossless reduction of a closed polygon.
pub fn simplify_polygon(polygon: Vec<(i32, i32)>) -> (r: Vec<(i32, i32)>)
    ensures
        r@ == simplify_spec(polygon@),
{
    let ghost p = polygon@;
    if polygon.len() <= 3 {
        return polygon;
    }
    let mut simplified: Vec<(i32, i32)> = Vec::new();
    simplified.push(polygon[0]);
    let mut t: usize = 1;
    while t < polygon.len() - 1
        invariant
            p == polygon@,
            p.len() > 3,
            1 <= t <= p.len() - 1,
            simplified@ == seq![p[0]] + simplify_kept(p, 1, t as int),
        decreases p.len() - t,
    {
        let u = polygon[t - 1];
        let v = polygon[t];
        let w = polygon[t + 1];
        let di_v = v.0 as i64 - u.0 as i64;
        let dj_v = v.1 as i64 - u.1 as i64;
        let di_w = w.0 as i64 - v.0 as i64;
        let dj_w = w.1 as i64 - v.1 as i64;
        proof {
            let b = 0x1_0000_0000int;
            assert((di_v as int) * (dj_w as int) <= b * b && (di_v as int) * (dj_w as int) >= -(b
                * b) && (dj_v as int) * (di_w as int) <= b * b && (dj_v as int) * (di_w as int)
                >= -(b * b)) by (nonlinear_arith)
                requires
                    -b <= di_v as int <= b,
                    -b <= dj_v as int <= b,
                    -b <= di_w as int <= b,
                    -b <= dj_w as int <= b,
            ;
        }
        let cross_a = (di_v as i128) * (dj_w as i128);
        let cross_b = (dj_v as i128) * (di_w as i128);
        if cross_a - cross_b == 0 {
            proof {
                assert(collin_drop(p, t as int));
            }
        } else {
            simplified.push(v);
            proof {
                assert(!collin_drop(p, t as int));
            }
        }
        proof {
            assert(simplified@ =~= seq![p[0]] + simplify_kept(p, 1, t + 1));
        }
        t += 1;
    }
    let first = simplified[0];
    simplified.push(first);
    proof {
        assert(simplified@ =~= simplify_spec(p));
    }
    simplified
}


proof fn lemma_simplify_kept_all(p: Seq<(i32, i32)>, lo: int, hi: int)
    requires
        1 <= lo <= hi,
        hi <= p.len() - 1,
        forall|t: int| lo <= t < hi ==> !collin_drop(p, t),
    ensures
        simplify_kept(p, lo, hi) == p.subrange(lo, hi),
    decreases hi - lo,
{
    if hi <= lo {
        assert(simplify_kept(p, lo, hi) =~= p.subrange(lo, hi));
    } else {
        lemma_simplify_kept_all(p, lo, hi - 1);
        assert(simplify_kept(p, lo, hi) =~= p.subrange(lo, hi));
    }
}

/// A closed ring with no collinear interior vertex is returned unchanged by
/// the simplification pass.
pub proof fn lemma_simplify_stable(p: Seq<(i32, i32)>)
    requires
        p.len() >= 1,
        p[0] == p[p.len() - 1],
        forall|t: int| 1 <= t < p.len() - 1 ==> !collin_drop(p, t),
    ensures
        simplify_spec(p) == p,
{
    if p.len() > 3 {
        lemma_simplify_kept_all(p, 1, p.len() - 1);
        assert(simplify_spec(p) =~= p);
    }
}

/// Vertex `t` sits on a single-unit staircase artifact: the steps around it
/// alternate axes and the two vertices two places away confirm, by Manhattan
/// distance, that the step spans a single unit.
pub open spec fn stair_drop(p: Seq<(i32, i32)>, t: int) -> bool {
    let di_v = p[t].0 - p[t - 1].0;
    let dj_v = p[t].1 - p[t - 1].1;
    let di_w = p[t + 1].0 - p[t].0;
    let dj_w = p[t + 1].1 - p[t].1;
    &&& ((di_v == 0) != (di_w == 0))
    &&& ((dj_v == 0) != (dj_w == 0))
    &&& iabs(p[t + 1].0 - p[t - 2].0) + iabs(p[t + 1].1 - p[t - 2].1) == 3
    &&& iabs(p[t - 1].0 - p[t + 2].0) + iabs(p[t - 1].1 - p[t + 2].1) == 3
}

/// The interior vertices of `p` with index in `[lo, hi)` that survive the
/// staircase filter, in order.
pub open spec fn antialias_kept(p: Seq<(i32, i32)>, lo: int, hi: int) -> Seq<(i32, i32)>
    decreases hi - lo,
{
    if hi <= lo {
        Seq::empty()
    } else {
        antialias_kept(p, lo, hi - 1) + (if stair_drop(p, hi - 1) {
            Seq::empty()
        } else {
            seq![p[hi - 1]]
        })
    }
}

/// The exact result of the antialiasing pass: single-unit staircase vertices
/// are dropped, the first two and last two vertices are always kept.
pub open spec fn antialias_spec(p: Seq<(i32, i32)>) -> Seq<(i32, i32)> {
    if p.len() <= 5 {
        p
    } else {
        p.subrange(0, 2) + antialias_kept(p, 2, p.len() - 2) + p.subrange(
            p.len() - 2,
            p.len() as int,
        )
    }
}

/// Removes single-voxel staircase jitter from a closed polygon.
pub fn antialias_polygon(polygon: Vec<(i32, i32)>) -> (r: Vec<(i32, i32)>)
    ensures
        r@ == antialias_spec(polygon@),
{
    let ghost p = polygon@;
    if polygon.len() <= 5 {
        return polygon;
    }
    let mut smoothed: Vec<(i32, i32)> = Vec::new();
    smoothed.push(polygon[0]);
    smoothed.push(polygon[1]);
    let mut t: usize = 2;
    proof {
        assert(smoothed@ =~= p.subrange(0, 2) + antialias_kept(p, 2, 2));
    }
    while t < polygon.len() - 2
        invariant
            p == polygon@,
            p.len() > 5,
            2 <= t <= p.len() - 2,
            smoothed@ == p.subrange(0, 2) + antialias_kept(p, 2, t as int),
        decreases p.len() - t,
    {
        let p1 = polygon[t - 2];
        let u = polygon[t - 1];
        let v = polygon[t];
        let w = polygon[t + 1];
        let p2 = polygon[t + 2];
        let di_v = v.0 as i64 - u.0 as i64;
        let dj_v = v.1 as i64 - u.1 as i64;
        let di_w = w.0 as i64 - v.0 as i64;
        let dj_w = w.1 as i64 - v.1 as i64;
        let stair = ((di_v == 0) != (di_w == 0)) && ((dj_v == 0) != (dj_w == 0));
        let m1 = abs64(w.0 as i64 - p1.0 as i64) + abs64(w.1 as i64 - p1.1 as i64);
        let m2 = abs64(u.0 as i64 - p2.0 as i64) + abs64(u.1 as i64 - p2.1 as i64);
        if stair && m1 == 3 && m2 == 3 {
            proof {
                assert(stair_drop(p, t as int));
            }
        } else {
            smoothed.push(v);
            proof {
                assert(!stair_drop(p, t as int));
            }
        }
        proof {
            assert(smoothed@ =~= p.subrange(0, 2) + antialias_kept(p, 2, t + 1));
        }
        t += 1;
    }
    let a = polygon[polygon.len() - 2];
    let b = polygon[polygon.len() - 1];
    smoothed.push(a);
    smoothed.push(b);
    proof {
        assert(smoothed@ =~= antialias_spec(p));
    }
    smoothed
}

proof fn lemma_antialias_kept_all(p: Seq<(i32, i32)>, lo: int, hi: int)
    requires
        2 <= lo <= hi,
        hi <= p.len() - 2,
        forall|t: int| lo <= t < hi ==> !stair_drop(p, t),
    ensures
        antialias_kept(p, lo, hi) == p.subrange(lo, hi),
    decreases hi - lo,
{
    if hi <= lo {
        assert(antialias_kept(p, lo, hi) =~= p.subrange(lo, hi));
    } else {
        lemma_antialias_kept_all(p, lo, hi - 1);
        assert(antialias_kept(p, lo, hi) =~= p.subrange(lo, hi));
    }
}

/// A polygon with no staircase pattern is returned unchanged by the
/// antialiasing pass.
pub proof fn lemma_antialias_stable(p: Seq<(i32, i32)>)
    requires
        forall|t: int| 2 <= t < p.len() - 2 ==> !stair_drop(p, t),
    ensures
        antialias_spec(p) == p,
{
    if p.len() > 5 {
        lemma_antialias_kept_all(p, 2, p.len() - 2);
        assert(antialias_spec(p) =~= p);
    }
}

/// Component-wise equality of two edges.
pub fn edges_equal(a: &GridEdge, b: &GridEdge) -> (r: bool)
    ensures
        r == (*a == *b),
{
    a.0 == b.0 && a.1.0 == b.1.0 && a.1.1 == b.1.1 && a.2.0 == b.2.0 && a.2.1 == b.2.1
}

/// The absolute value of a bounded machine integer.
fn abs64(x: i64) -> (r: i64)
    requires
        x > i64::MIN,
    ensures
        r == iabs(x as int),
{
    if x < 0 {
        -x
    } else {
        x
    }
}

/// Marking an edge and its reverse preserves pair synchronization.
proof fn lemma_pair_sync_mark(es: Seq<GridEdge>, v0: Seq<bool>, v1: Seq<bool>, e: GridEdge)
    requires
        v0.len() == es.len(),
        v1.len() == es.len(),
        pair_sync(es, v0),
        forall|t: int|
            0 <= t < es.len() ==> v1[t] == (v0[t] || (#[trigger] es[t]) == e || es[t] == ((
            e.0,
            e.2,
            e.1,
            ))),
    ensures
        pair_sync(es, v1),
{
    reveal(pair_sync);
    assert forall|t1: int, t2: int|
        0 <= t1 < es.len() && 0 <= t2 < es.len() && ((#[trigger] es[t2]) == (#[trigger] es[t1])
            || es[t2] == ((es[t1].0, es[t1].2, es[t1].1))) implies v1[t1] == v1[t2] by {
        assert(v0[t1] == v0[t2]);
    }
}

/// Visited flags agree across positions holding the same edge or an
/// edge and its reverse: pairs are always marked together.
#[verifier::opaque]
pub open spec fn pair_sync(es: Seq<GridEdge>, vis: Seq<bool>) -> bool {
    forall|t1: int, t2: int|
        0 <= t1 < es.len() && 0 <= t2 < es.len() && ((#[trigger] es[t2]) == (#[trigger] es[t1])
            || es[t2] == ((es[t1].0, es[t1].2, es[t1].1))) ==> vis[t1] == vis[t2]
}

/// Marks an edge and its reverse as visited.  Marking an absent or
/// already-visited edge is a programming error, as the walk never produces
/// one: the preconditions exclude it.
pub fn mark_visited(edges_k: &Vec<GridEdge>, visited_k: &mut Vec<bool>, edge: &GridEdge)
    requires
        old(visited_k)@.len() == edges_k@.len(),
        exists|t: int|
            0 <= t < edges_k@.len() && (#[trigger] edges_k@[t]) == *edge && !old(visited_k)@[t],
        exists|t: int|
            0 <= t < edges_k@.len() && (#[trigger] edges_k@[t]) == ((edge.0, edge.2, edge.1))
                && !old(visited_k)@[t],
    ensures
        final(visited_k)@.len() == edges_k@.len(),
        forall|t: int|
            0 <= t < edges_k@.len() ==> #[trigger] final(visited_k)@[t] == (old(visited_k)@[t]
                || edges_k@[t] == *edge || edges_k@[t] == ((edge.0, edge.2, edge.1))),
{
    let rev = reverse_edge(edge);
    let ghost v0 = old(visited_k)@;
    let mut t: usize = 0;
    while t < edges_k.len()
        invariant
            rev == ((edge.0, edge.2, edge.1)),
            v0.len() == edges_k@.len(),
            visited_k@.len() == edges_k@.len(),
            t <= edges_k@.len(),
            forall|s: int|
                0 <= s < t ==> #[trigger] visited_k@[s] == (v0[s] || edges_k@[s] == *edge
                    || edges_k@[s] == ((edge.0, edge.2, edge.1))),
            forall|s: int| t <= s < edges_k@.len() ==> visited_k@[s] == v0[s],
        decreases edges_k@.len() - t,
    {
        let ghost vis_a = visited_k@;
        let cur = edges_k[t];
        if edges_equal(&cur, edge) || edges_equal(&cur, &rev) {
            visited_k.set(t, true);
        }
        proof {
            assert(cur == edges_k@[t as int]);
            assert(visited_k@[t as int] == (v0[t as int] || cur == *edge || cur == rev));
            assert forall|s: int|
                0 <= s < t + 1 implies visited_k@[s] == (v0[s] || #[trigger] edges_k@[s] == *edge
                || edges_k@[s] == ((edge.0, edge.2, edge.1))) by {
                if s < t {
                    assert(visited_k@[s] == vis_a[s]);
                    assert(vis_a[s] == (v0[s] || edges_k@[s] == *edge || edges_k@[s] == ((
                    edge.0,
                    edge.2,
                    edge.1,
                    ))));
                } else {
                    assert(s == t);
                }
            }
        }
        t += 1;
    }
}


/// Some entry of `es` is exactly the oriented step `(kk, a, b)`.
pub open spec fn step_in(es: Seq<GridEdge>, kk: i32, a: (i32, i32), b: (i32, i32)) -> bool {
    exists|s: int| 0 <= s < es.len() && #[trigger] es[s] == ((kk, a, b))
}

/// Steps `(a1, b1)` and `(a2, b2)` traverse different undirected edges.
pub open spec fn steps_differ(a1: (i32, i32), b1: (i32, i32), a2: (i32, i32), b2: (i32, i32)) -> bool {
    !((a1, b1) == (a2, b2)) && !((a1, b1) == (b2, a2))
}

/// No two steps of the rings traverse the same undirected edge: nothing is
/// walked twice, in either orientation, within one layer's rings.
#[verifier::opaque]
pub open spec fn rings_distinct_steps(rs: Seq<Vec<(i32, i32)>>) -> bool {
    forall|ri1: int, t1: int, ri2: int, t2: int|
        0 <= ri1 < rs.len() && 0 <= t1 < rs[ri1]@.len() - 1 && 0 <= ri2 < rs.len() && 0 <= t2
            < rs[ri2]@.len() - 1 && !(ri1 == ri2 && t1 == t2) ==> steps_differ(
            #[trigger] rs[ri1]@[t1],
            rs[ri1]@[t1 + 1],
            #[trigger] rs[ri2]@[t2],
            rs[ri2]@[t2 + 1],
        )
}

/// No two steps of one walk traverse the same undirected edge.
#[verifier::opaque]
pub open spec fn ring_distinct_steps(r: Seq<(i32, i32)>) -> bool {
    forall|t1: int, t2: int|
        0 <= t1 < r.len() - 1 && 0 <= t2 < r.len() - 1 && t1 != t2 ==> steps_differ(
            #[trigger] r[t1],
            r[t1 + 1],
            #[trigger] r[t2],
            r[t2 + 1],
        )
}

/// No step of the rings shares an undirected edge with a step of the walk
/// `p`.
#[verifier::opaque]
pub open spec fn cross_distinct_steps(rs: Seq<Vec<(i32, i32)>>, p: Seq<(i32, i32)>) -> bool {
    forall|ri: int, t1: int, t2: int|
        0 <= ri < rs.len() && 0 <= t1 < rs[ri]@.len() - 1 && 0 <= t2 < p.len() - 1
            ==> steps_differ(#[trigger] rs[ri]@[t1], rs[ri]@[t1 + 1], #[trigger] p[t2], p[t2 + 1])
}

/// Some entry of `es` is exactly the oriented step `(kk, a, b)` and is
/// marked visited.
pub open spec fn step_visited(
    es: Seq<GridEdge>,
    vis: Seq<bool>,
    kk: i32,
    a: (i32, i32),
    b: (i32, i32),
) -> bool {
    exists|s: int| 0 <= s < es.len() && #[trigger] es[s] == ((kk, a, b)) && vis[s]
}

/// Every step of the walk `p` is a visited edge.
#[verifier::opaque]
pub open spec fn walk_steps_visited(
    es: Seq<GridEdge>,
    vis: Seq<bool>,
    kk: i32,
    p: Seq<(i32, i32)>,
) -> bool {
    forall|t: int| 0 <= t < p.len() - 1 ==> step_visited(es, vis, kk, #[trigger] p[t], p[t + 1])
}

/// Every step of every ring is a visited edge.
#[verifier::opaque]
pub open spec fn rings_steps_visited(
    es: Seq<GridEdge>,
    vis: Seq<bool>,
    kk: i32,
    rs: Seq<Vec<(i32, i32)>>,
) -> bool {
    forall|ri: int|
        0 <= ri < rs.len() ==> walk_steps_visited(es, vis, kk, (#[trigger] rs[ri])@)
}

proof fn lemma_walk_visited_mono(
    es: Seq<GridEdge>,
    v0: Seq<bool>,
    v1: Seq<bool>,
    kk: i32,
    p: Seq<(i32, i32)>,
)
    requires
        v0.len() == es.len(),
        v1.len() == es.len(),
        forall|t: int| 0 <= t < v0.len() ==> (v0[t] ==> v1[t]),
        walk_steps_visited(es, v0, kk, p),
    ensures
        walk_steps_visited(es, v1, kk, p),
{
    reveal(walk_steps_visited);
    assert forall|t: int| 0 <= t < p.len() - 1 implies step_visited(
        es,
        v1,
        kk,
        #[trigger] p[t],
        p[t + 1],
    ) by {
        assert(step_visited(es, v0, kk, p[t], p[t + 1]));
        let s = choose|s: int|
            0 <= s < es.len() && #[trigger] es[s] == ((kk, p[t], p[t + 1])) && v0[s];
        assert(v1[s]);
    }
}

proof fn lemma_rings_visited_mono(
    es: Seq<GridEdge>,
    v0: Seq<bool>,
    v1: Seq<bool>,
    kk: i32,
    rs: Seq<Vec<(i32, i32)>>,
)
    requires
        v0.len() == es.len(),
        v1.len() == es.len(),
        forall|t: int| 0 <= t < v0.len() ==> (v0[t] ==> v1[t]),
        rings_steps_visited(es, v0, kk, rs),
    ensures
        rings_steps_visited(es, v1, kk, rs),
{
    reveal(rings_steps_visited);
    assert forall|ri: int| 0 <= ri < rs.len() implies walk_steps_visited(
        es,
        v1,
        kk,
        (#[trigger] rs[ri])@,
    ) by {
        assert(walk_steps_visited(es, v0, kk, rs[ri]@));
        lemma_walk_visited_mono(es, v0, v1, kk, rs[ri]@);
    }
}

/// A freshly marked, previously unvisited edge differs, as an undirected
/// edge, from every step already walked: walked steps are visited, and
/// visited flags are synchronized across reverses.
proof fn lemma_fresh_step_differs(
    es: Seq<GridEdge>,
    vis: Seq<bool>,
    kk: i32,
    a1: (i32, i32),
    b1: (i32, i32),
    cont: int,
    a2: (i32, i32),
    b2: (i32, i32),
)
    requires
        vis.len() == es.len(),
        pair_sync(es, vis),
        step_visited(es, vis, kk, a1, b1),
        0 <= cont < es.len(),
        es[cont] == ((kk, a2, b2)),
        !vis[cont],
    ensures
        steps_differ(a1, b1, a2, b2),
{
    reveal(pair_sync);
    let s = choose|s: int| 0 <= s < es.len() && #[trigger] es[s] == ((kk, a1, b1)) && vis[s];
    if (a1, b1) == (a2, b2) {
        assert(es[cont] == es[s]);
        assert(vis[cont] == vis[s]);
        assert(false);
    }
    if (a1, b1) == (b2, a2) {
        assert(es[s] == ((es[cont].0, es[cont].2, es[cont].1)));
        assert(vis[cont] == vis[s]);
        assert(false);
    }
}

/// Every step of a walk whose steps are stored edges of one layer is an
/// oriented boundary edge of that layer.
proof fn lemma_walk_in_boundary(
    es: Seq<GridEdge>,
    vs: Set<Voxel>,
    kk: i32,
    poly: Seq<(i32, i32)>,
)
    requires
        layer_edges_ok(es, vs, kk),
        forall|t: int|
            0 <= t < poly.len() - 1 ==> #[trigger] step_in(es, kk, poly[t], poly[t + 1]),
    ensures
        ring_steps_in(boundary_edges(vs), kk as int, poly),
{
    reveal(layer_edges_ok);
    assert forall|t: int| 0 <= t < poly.len() - 1 implies boundary_edges(vs).contains(
        (kk as int, corner_view(#[trigger] poly[t]), corner_view(poly[t + 1])),
    ) by {
        assert(step_in(es, kk, poly[t], poly[t + 1]));
        let s = choose|s: int|
            0 <= s < es.len() && #[trigger] es[s] == ((kk, poly[t], poly[t + 1]));
        assert(boundary_edges(vs).contains(edge_view(es[s])));
    }
}

/// After marking the continuation edge and appending its far corner to the
/// walk, every visited edge is covered by an emitted ring or by the walk.
proof fn lemma_cover_after_push(
    es: Seq<GridEdge>,
    v1: Seq<bool>,
    v2: Seq<bool>,
    rings: Seq<Vec<(i32, i32)>>,
    poly_old: Seq<(i32, i32)>,
    econt: GridEdge,
)
    requires
        v1.len() == es.len(),
        v2.len() == es.len(),
        forall|t: int|
            0 <= t < es.len() ==> v2[t] == (v1[t] || (#[trigger] es[t]) == econt || es[t] == ((
            econt.0,
            econt.2,
            econt.1,
            ))),
        forall|t: int|
            0 <= t < es.len() && #[trigger] v1[t] ==> rings_cover(rings, es[t]) || ring_covers(
                poly_old,
                es[t],
            ),
        poly_old.len() >= 2,
        poly_old[poly_old.len() - 1] == econt.1,
    ensures
        forall|t: int|
            0 <= t < es.len() && #[trigger] v2[t] ==> rings_cover(rings, es[t]) || ring_covers(
                poly_old.push(econt.2),
                es[t],
            ),
{
    let pnew = poly_old.push(econt.2);
    assert forall|t: int|
        0 <= t < es.len() && #[trigger] v2[t] implies rings_cover(rings, es[t]) || ring_covers(
        pnew,
        es[t],
    ) by {
        if v1[t] {
            if ring_covers(poly_old, es[t]) {
                lemma_ring_covers_push(poly_old, econt.2, es[t]);
            }
        } else {
            assert(es[t] == econt || es[t] == ((econt.0, econt.2, econt.1)));
            assert((pnew[pnew.len() - 2], pnew[pnew.len() - 1]) == (econt.1, econt.2));
            assert(ring_covers(pnew, es[t]));
        }
    }
}

/// Extending the walk by a freshly marked edge keeps every step a visited
/// edge and keeps all steps, walked or already emitted, pairwise distinct
/// as undirected edges.
proof fn lemma_push_step_props(
    es: Seq<GridEdge>,
    v1: Seq<bool>,
    v2: Seq<bool>,
    kk: i32,
    poly_old: Seq<(i32, i32)>,
    rings: Seq<Vec<(i32, i32)>>,
    cont: int,
    wpt: (i32, i32),
)
    requires
        v1.len() == es.len(),
        v2.len() == es.len(),
        pair_sync(es, v1),
        forall|t: int| 0 <= t < v1.len() ==> (v1[t] ==> v2[t]),
        poly_old.len() >= 2,
        0 <= cont < es.len(),
        es[cont] == ((kk, poly_old[poly_old.len() - 1], wpt)),
        !v1[cont],
        v2[cont],
        walk_steps_visited(es, v1, kk, poly_old),
        ring_distinct_steps(poly_old),
        rings_steps_visited(es, v1, kk, rings),
        cross_distinct_steps(rings, poly_old),
    ensures
        walk_steps_visited(es, v2, kk, poly_old.push(wpt)),
        ring_distinct_steps(poly_old.push(wpt)),
        cross_distinct_steps(rings, poly_old.push(wpt)),
{
    reveal(walk_steps_visited);
    reveal(rings_steps_visited);
    reveal(ring_distinct_steps);
    reveal(cross_distinct_steps);
    let pnew = poly_old.push(wpt);
    let lnew = pnew.len() - 2;
    assert(pnew[lnew] == poly_old[poly_old.len() - 1] && pnew[lnew + 1] == wpt);
    assert forall|t: int| 0 <= t < pnew.len() - 1 implies step_visited(
        es,
        v2,
        kk,
        #[trigger] pnew[t],
        pnew[t + 1],
    ) by {
        if t < lnew {
            assert(pnew[t] == poly_old[t] && pnew[t + 1] == poly_old[t + 1]);
            assert(step_visited(es, v1, kk, poly_old[t], poly_old[t + 1]));
            let st = choose|st: int|
                0 <= st < es.len() && #[trigger] es[st] == ((kk, poly_old[t], poly_old[t + 1]))
                    && v1[st];
            assert(v2[st]);
        } else {
            assert(es[cont] == ((kk, pnew[t], pnew[t + 1])) && v2[cont]);
        }
    }
    assert forall|t1: int, t2: int|
        0 <= t1 < pnew.len() - 1 && 0 <= t2 < pnew.len() - 1 && t1 != t2 implies steps_differ(
        #[trigger] pnew[t1],
        pnew[t1 + 1],
        #[trigger] pnew[t2],
        pnew[t2 + 1],
    ) by {
        if t1 < lnew && t2 < lnew {
            assert(pnew[t1] == poly_old[t1] && pnew[t1 + 1] == poly_old[t1 + 1] && pnew[t2]
                == poly_old[t2] && pnew[t2 + 1] == poly_old[t2 + 1]);
            assert(steps_differ(
                poly_old[t1],
                poly_old[t1 + 1],
                poly_old[t2],
                poly_old[t2 + 1],
            ));
        } else if t1 < lnew {
            assert(pnew[t1] == poly_old[t1] && pnew[t1 + 1] == poly_old[t1 + 1]);
            assert(step_visited(es, v1, kk, poly_old[t1], poly_old[t1 + 1]));
            lemma_fresh_step_differs(
                es,
                v1,
                kk,
                poly_old[t1],
                poly_old[t1 + 1],
                cont,
                pnew[lnew],
                pnew[lnew + 1],
            );
        } else {
            assert(t2 < lnew);
            assert(pnew[t2] == poly_old[t2] && pnew[t2 + 1] == poly_old[t2 + 1]);
            assert(step_visited(es, v1, kk, poly_old[t2], poly_old[t2 + 1]));
            lemma_fresh_step_differs(
                es,
                v1,
                kk,
                poly_old[t2],
                poly_old[t2 + 1],
                cont,
                pnew[lnew],
                pnew[lnew + 1],
            );
        }
    }
    assert forall|ri: int, t1: int, t2: int|
        0 <= ri < rings.len() && 0 <= t1 < rings[ri]@.len() - 1 && 0 <= t2 < pnew.len()
            - 1 implies steps_differ(
        #[trigger] rings[ri]@[t1],
        rings[ri]@[t1 + 1],
        #[trigger] pnew[t2],
        pnew[t2 + 1],
    ) by {
        if t2 < lnew {
            assert(pnew[t2] == poly_old[t2] && pnew[t2 + 1] == poly_old[t2 + 1]);
            assert(steps_differ(
                rings[ri]@[t1],
                rings[ri]@[t1 + 1],
                poly_old[t2],
                poly_old[t2 + 1],
            ));
        } else {
            assert(walk_steps_visited(es, v1, kk, rings[ri]@));
            assert(step_visited(es, v1, kk, rings[ri]@[t1], rings[ri]@[t1 + 1]));
            lemma_fresh_step_differs(
                es,
                v1,
                kk,
                rings[ri]@[t1],
                rings[ri]@[t1 + 1],
                cont,
                pnew[lnew],
                pnew[lnew + 1],
            );
        }
    }
}

/// Emitting the completed walk as a ring keeps every ring step a visited
/// edge and all ring steps pairwise distinct as undirected edges.
proof fn lemma_close_ring_props(
    es: Seq<GridEdge>,
    vis: Seq<bool>,
    kk: i32,
    rings0: Seq<Vec<(i32, i32)>>,
    rs: Seq<Vec<(i32, i32)>>,
    poly: Seq<(i32, i32)>,
)
    requires
        rs.len() == rings0.len() + 1,
        forall|ri: int| 0 <= ri < rings0.len() ==> #[trigger] rs[ri] == rings0[ri],
        rs[rs.len() - 1]@ == poly,
        rings_steps_visited(es, vis, kk, rings0),
        rings_distinct_steps(rings0),
        walk_steps_visited(es, vis, kk, poly),
        ring_distinct_steps(poly),
        cross_distinct_steps(rings0, poly),
    ensures
        rings_steps_visited(es, vis, kk, rs),
        rings_distinct_steps(rs),
{
    reveal(walk_steps_visited);
    reveal(rings_steps_visited);
    reveal(ring_distinct_steps);
    reveal(cross_distinct_steps);
    reveal(rings_distinct_steps);
    let len0 = rings0.len() as int;
    assert forall|ri: int| 0 <= ri < rs.len() implies walk_steps_visited(
        es,
        vis,
        kk,
        (#[trigger] rs[ri])@,
    ) by {
        if ri < len0 {
            assert(rs[ri] == rings0[ri]);
            assert(walk_steps_visited(es, vis, kk, rings0[ri]@));
        } else {
            assert(rs[ri]@ == poly);
        }
    }
    assert forall|ri1: int, t1: int, ri2: int, t2: int|
        0 <= ri1 < rs.len() && 0 <= t1 < rs[ri1]@.len() - 1 && 0 <= ri2 < rs.len() && 0 <= t2
            < rs[ri2]@.len() - 1 && !(ri1 == ri2 && t1 == t2) implies steps_differ(
        #[trigger] rs[ri1]@[t1],
        rs[ri1]@[t1 + 1],
        #[trigger] rs[ri2]@[t2],
        rs[ri2]@[t2 + 1],
    ) by {
        if ri1 < len0 && ri2 < len0 {
            assert(rs[ri1] == rings0[ri1] && rs[ri2] == rings0[ri2]);
            assert(steps_differ(
                rings0[ri1]@[t1],
                rings0[ri1]@[t1 + 1],
                rings0[ri2]@[t2],
                rings0[ri2]@[t2 + 1],
            ));
        } else if ri1 < len0 {
            assert(rs[ri1] == rings0[ri1] && rs[ri2]@ == poly);
            assert(steps_differ(
                rings0[ri1]@[t1],
                rings0[ri1]@[t1 + 1],
                poly[t2],
                poly[t2 + 1],
            ));
        } else if ri2 < len0 {
            assert(rs[ri2] == rings0[ri2] && rs[ri1]@ == poly);
            assert(steps_differ(
                rings0[ri2]@[t2],
                rings0[ri2]@[t2 + 1],
                poly[t1],
                poly[t1 + 1],
            ));
        } else {
            assert(rs[ri1]@ == poly && rs[ri2]@ == poly);
            assert(t1 != t2);
            assert(steps_differ(poly[t1], poly[t1 + 1], poly[t2], poly[t2 + 1]));
        }
    }
}

/// A closed polygon ring: at least two points, first equal to last.
pub open spec fn ring_closed(r: Seq<(i32, i32)>) -> bool {
    r.len() >= 2 && r[0] == r[r.len() - 1]
}

/// Every consecutive point pair of ring `r` is an oriented boundary edge of
/// layer `k` in `es`.
pub open spec fn ring_steps_in(
    es: Set<(int, (int, int), (int, int))>,
    k: int,
    r: Seq<(i32, i32)>,
) -> bool {
    forall|t: int|
        0 <= t < r.len() - 1 ==> es.contains((k, corner_view(#[trigger] r[t]), corner_view(r[t + 1])))
}

/// Ring `r` walks edge `e`, in either orientation.
pub open spec fn ring_covers(r: Seq<(i32, i32)>, e: GridEdge) -> bool {
    exists|t: int|
        0 <= t < r.len() - 1 && ((#[trigger] r[t], r[t + 1]) == (e.1, e.2) || (r[t], r[t + 1]) == (
        e.2,
        e.1,
        ))
}

/// Some ring among `rs` walks edge `e`, in either orientation.
pub open spec fn rings_cover(rs: Seq<Vec<(i32, i32)>>, e: GridEdge) -> bool {
    exists|ri: int| 0 <= ri < rs.len() && ring_covers(#[trigger] rs[ri]@, e)
}

proof fn lemma_ring_covers_push(r: Seq<(i32, i32)>, x: (i32, i32), e: GridEdge)
    requires
        ring_covers(r, e),
    ensures
        ring_covers(r.push(x), e),
{
    let t = choose|t: int|
        0 <= t < r.len() - 1 && ((#[trigger] r[t], r[t + 1]) == (e.1, e.2) || (r[t], r[t + 1]) == (
        e.2,
        e.1,
        ));
    assert(r.push(x)[t] == r[t] && r.push(x)[t + 1] == r[t + 1]);
}

proof fn lemma_rings_cover_push(rs: Seq<Vec<(i32, i32)>>, nr: Vec<(i32, i32)>, e: GridEdge)
    requires
        rings_cover(rs, e) || ring_covers(nr@, e),
    ensures
        rings_cover(rs.push(nr), e),
{
    if rings_cover(rs, e) {
        let ri = choose|ri: int| 0 <= ri < rs.len() && ring_covers(#[trigger] rs[ri]@, e);
        assert(rs.push(nr)[ri] == rs[ri]);
    } else {
        assert(rs.push(nr)[rs.len() as int] == nr);
    }
}

/// Component-wise equality of two corner points.
fn corners_equal(a: &(i32, i32), b: &(i32, i32)) -> (r: bool)
    ensures
        r == (*a == *b),
{
    a.0 == b.0 && a.1 == b.1
}

/// Returns the index of the first unvisited entry, if any.
fn find_unvisited(visited: &Vec<bool>) -> (r: Option<usize>)
    ensures
        match r {
            Some(s) => s < visited@.len() && !visited@[s as int],
            None => forall|t: int| 0 <= t < visited@.len() ==> visited@[t],
        },
{
    let mut s: usize = 0;
    while s < visited.len()
        invariant
            s <= visited@.len(),
            forall|t: int| 0 <= t < s ==> visited@[t],
        decreases visited@.len() - s,
    {
        if !visited[s] {
            return Some(s);
        }
        s += 1;
    }
    None
}

/// Returns the position of `e` among the edges, if present.
fn find_edge(edges_k: &Vec<GridEdge>, e: &GridEdge) -> (r: Option<usize>)
    ensures
        match r {
            Some(s) => s < edges_k@.len() && edges_k@[s as int] == *e,
            None => forall|t: int| 0 <= t < edges_k@.len() ==> (#[trigger] edges_k@[t]) != *e,
        },
{
    let mut t: usize = 0;
    while t < edges_k.len()
        invariant
            t <= edges_k@.len(),
            forall|s2: int| 0 <= s2 < t ==> (#[trigger] edges_k@[s2]) != *e,
        decreases edges_k@.len() - t,
    {
        let cur = edges_k[t];
        if edges_equal(&cur, e) {
            return Some(t);
        }
        t += 1;
    }
    None
}

/// Selects the continuation at corner `v`, arrived at from `u`: the single
/// other incident edge at an unambiguous two-edge corner, or the edge the
/// membership-based handedness rule picks at a four-edge checkerboard
/// corner.  A continuation always exists: the local boundary degree of a
/// corner on the walk is two or four.
#[verifier::rlimit(100)]
fn choose_continuation(
    edges_k: &Vec<GridEdge>,
    vs: &VoxelSet,
    k: i32,
    u: (i32, i32),
    v: (i32, i32),
) -> (r: Option<usize>)
    requires
        vs.wf(),
        corner_ok(u),
        corner_ok(v),
        layer_edges_ok(edges_k@, vs@, k),
        exists|t: int| 0 <= t < edges_k@.len() && #[trigger] edges_k@[t] == ((k, u, v)),
    ensures
        r is Some,
        r matches Some(cont) ==> (cont as int) < edges_k@.len() && edges_k@[cont as int].1 == v
            && ({
            let rv = dir_index(v, u);
            let cdi = dir_index(v, edges_k@[cont as int].2);
            &&& 0 <= cdi < 4
            &&& edges_k@[cont as int] == out_edge(k, v, cdi)
            &&& cdi != rv
            &&& has_dir(edges_k@, k, v, cdi)
            &&& has_dir(edges_k@, k, v, rv)
            &&& (deg4(edges_k@, k, v) ==> cdi == sigma_dir(corner_member(vs@, k, v), rv))
            &&& (!deg4(edges_k@, k, v) ==> (forall|di: int|
                0 <= di < 4 && #[trigger] has_dir(edges_k@, k, v, di) ==> di == rv || di == cdi))
        }),
{
    let e_rt: GridEdge = (k, v, (v.0 + 1, v.1));
    let e_lf: GridEdge = (k, v, (v.0 - 1, v.1));
    let e_up: GridEdge = (k, v, (v.0, v.1 + 1));
    let e_dn: GridEdge = (k, v, (v.0, v.1 - 1));
    let p_rt = find_edge(edges_k, &e_rt);
    let p_lf = find_edge(edges_k, &e_lf);
    let p_up = find_edge(edges_k, &e_up);
    let p_dn = find_edge(edges_k, &e_dn);
    let b_rt = p_rt.is_some();
    let b_lf = p_lf.is_some();
    let b_up = p_up.is_some();
    let b_dn = p_dn.is_some();
    let cnt: usize = (if b_rt { 1 } else { 0 }) + (if b_lf { 1 } else { 0 }) + (if b_up {
        1
    } else {
        0
    }) + (if b_dn { 1 } else { 0 });
    proof {
        reveal(layer_edges_ok);
        let c = (v.0 as int, v.1 as int);
        let gvs = vs@;
        assert(edge_view(e_rt) == (k as int, c, (c.0 + 1, c.1)));
        assert(edge_view(e_lf) == (k as int, c, (c.0 - 1, c.1)));
        assert(edge_view(e_up) == (k as int, c, (c.0, c.1 + 1)));
        assert(edge_view(e_dn) == (k as int, c, (c.0, c.1 - 1)));
        assert(b_rt <==> boundary_edges(gvs).contains((k as int, c, (c.0 + 1, c.1)))) by {
            if b_rt {
                let t = choose|t: int| 0 <= t < edges_k@.len() && edges_k@[t] == e_rt;
                assert(boundary_edges(gvs).contains(edge_view(edges_k@[t])));
            }
            if boundary_edges(gvs).contains((k as int, c, (c.0 + 1, c.1))) {
                let t = choose|t: int|
                    0 <= t < edges_k@.len() && edge_view(#[trigger] edges_k@[t]) == (
                    k as int,
                    c,
                    (c.0 + 1, c.1),
                );
                assert(edges_k@[t] == e_rt);
            }
        }
        assert(b_lf <==> boundary_edges(gvs).contains((k as int, c, (c.0 - 1, c.1)))) by {
            if b_lf {
                let t = choose|t: int| 0 <= t < edges_k@.len() && edges_k@[t] == e_lf;
                assert(boundary_edges(gvs).contains(edge_view(edges_k@[t])));
            }
            if boundary_edges(gvs).contains((k as int, c, (c.0 - 1, c.1))) {
                let t = choose|t: int|
                    0 <= t < edges_k@.len() && edge_view(#[trigger] edges_k@[t]) == (
                    k as int,
                    c,
                    (c.0 - 1, c.1),
                );
                assert(edges_k@[t] == e_lf);
            }
        }
        assert(b_up <==> boundary_edges(gvs).contains((k as int, c, (c.0, c.1 + 1)))) by {
            if b_up {
                let t = choose|t: int| 0 <= t < edges_k@.len() && edges_k@[t] == e_up;
                assert(boundary_edges(gvs).contains(edge_view(edges_k@[t])));
            }
            if boundary_edges(gvs).contains((k as int, c, (c.0, c.1 + 1))) {
                let t = choose|t: int|
                    0 <= t < edges_k@.len() && edge_view(#[trigger] edges_k@[t]) == (
                    k as int,
                    c,
                    (c.0, c.1 + 1),
                );
                assert(edges_k@[t] == e_up);
            }
        }
        assert(b_dn <==> boundary_edges(gvs).contains((k as int, c, (c.0, c.1 - 1)))) by {
            if b_dn {
                let t = choose|t: int| 0 <= t < edges_k@.len() && edges_k@[t] == e_dn;
                assert(boundary_edges(gvs).contains(edge_view(edges_k@[t])));
            }
            if boundary_edges(gvs).contains((k as int, c, (c.0, c.1 - 1))) {
                let t = choose|t: int|
                    0 <= t < edges_k@.len() && edge_view(#[trigger] edges_k@[t]) == (
                    k as int,
                    c,
                    (c.0, c.1 - 1),
                );
                assert(edges_k@[t] == e_dn);
            }
        }
        lemma_corner_degree_even(gvs, k, c);
        let ta = choose|t: int| 0 <= t < edges_k@.len() && #[trigger] edges_k@[t] == ((k, u, v));
        assert(edge_shape_ok(edges_k@[ta]));
        assert(rev_in(edges_k@, ta));
        let tr = choose|t: int|
            0 <= t < edges_k@.len() && #[trigger] edges_k@[t] == ((edges_k@[ta].0, edges_k@[ta].2, edges_k@[ta].1));
        assert(edges_k@[tr] == ((k, v, u)));
        assert(((k, v, u)) == e_rt || ((k, v, u)) == e_lf || ((k, v, u)) == e_up || ((k, v, u))
            == e_dn);
        assert(cnt == 2 || cnt == 4);
        assert(e_rt == out_edge(k, v, 0) && e_lf == out_edge(k, v, 1) && e_up == out_edge(k, v, 2)
            && e_dn == out_edge(k, v, 3));
        assert(b_rt == has_dir(edges_k@, k, v, 0)) by {
            if b_rt {
                let t = choose|t: int| 0 <= t < edges_k@.len() && edges_k@[t] == e_rt;
                assert(has_dir(edges_k@, k, v, 0));
            }
            if has_dir(edges_k@, k, v, 0) {
                let t = choose|t: int|
                    0 <= t < edges_k@.len() && #[trigger] edges_k@[t] == out_edge(k, v, 0);
                assert(edges_k@[t] == e_rt);
            }
        }
        assert(b_lf == has_dir(edges_k@, k, v, 1)) by {
            if b_lf {
                let t = choose|t: int| 0 <= t < edges_k@.len() && edges_k@[t] == e_lf;
                assert(has_dir(edges_k@, k, v, 1));
            }
            if has_dir(edges_k@, k, v, 1) {
                let t = choose|t: int|
                    0 <= t < edges_k@.len() && #[trigger] edges_k@[t] == out_edge(k, v, 1);
                assert(edges_k@[t] == e_lf);
            }
        }
        assert(b_up == has_dir(edges_k@, k, v, 2)) by {
            if b_up {
                let t = choose|t: int| 0 <= t < edges_k@.len() && edges_k@[t] == e_up;
                assert(has_dir(edges_k@, k, v, 2));
            }
            if has_dir(edges_k@, k, v, 2) {
                let t = choose|t: int|
                    0 <= t < edges_k@.len() && #[trigger] edges_k@[t] == out_edge(k, v, 2);
                assert(edges_k@[t] == e_up);
            }
        }
        assert(b_dn == has_dir(edges_k@, k, v, 3)) by {
            if b_dn {
                let t = choose|t: int| 0 <= t < edges_k@.len() && edges_k@[t] == e_dn;
                assert(has_dir(edges_k@, k, v, 3));
            }
            if has_dir(edges_k@, k, v, 3) {
                let t = choose|t: int|
                    0 <= t < edges_k@.len() && #[trigger] edges_k@[t] == out_edge(k, v, 3);
                assert(edges_k@[t] == e_dn);
            }
        }
        assert(0 <= dir_index(v, u) < 4 && ((k, v, u)) == out_edge(k, v, dir_index(v, u)));
    }
    if cnt == 2 {
        let rev_is_rt = u.0 == v.0 + 1 && u.1 == v.1;
        let rev_is_lf = u.0 == v.0 - 1 && u.1 == v.1;
        let rev_is_up = u.0 == v.0 && u.1 == v.1 + 1;
        let rev_is_dn = u.0 == v.0 && u.1 == v.1 - 1;
        if b_rt && !rev_is_rt {
            match p_rt {
                Some(pos) => Some(pos),
                None => None,
            }
        } else if b_lf && !rev_is_lf {
            match p_lf {
                Some(pos) => Some(pos),
                None => None,
            }
        } else if b_up && !rev_is_up {
            match p_up {
                Some(pos) => Some(pos),
                None => None,
            }
        } else {
            proof {
                assert(b_dn && !rev_is_dn);
            }
            match p_dn {
                Some(pos) => Some(pos),
                None => None,
            }
        }
    } else {
        let di = v.0 - u.0;
        let dj = v.1 - u.1;
        let member = vs.contains(&Voxel { i: v.0, j: v.1, k });
        let w: (i32, i32);
        if member {
            if di == -1 {
                w = (v.0, v.1 - 1);
            } else if di == 1 {
                w = (v.0, v.1 + 1);
            } else if dj == -1 {
                w = (v.0 - 1, v.1);
            } else {
                proof {
                    assert(dj == 1);
                }
                w = (v.0 + 1, v.1);
            }
        } else {
            if di == -1 {
                w = (v.0, v.1 + 1);
            } else if di == 1 {
                w = (v.0, v.1 - 1);
            } else if dj == -1 {
                w = (v.0 + 1, v.1);
            } else {
                proof {
                    assert(dj == 1);
                }
                w = (v.0 - 1, v.1);
            }
        }
        let enext: GridEdge = (k, v, w);
        proof {
            assert(enext == e_rt || enext == e_lf || enext == e_up || enext == e_dn);
        }
        if w.0 == v.0 + 1 {
            match p_rt {
                Some(pos) => Some(pos),
                None => None,
            }
        } else if w.0 == v.0 - 1 {
            match p_lf {
                Some(pos) => Some(pos),
                None => None,
            }
        } else if w.1 == v.1 + 1 {
            match p_up {
                Some(pos) => Some(pos),
                None => None,
            }
        } else {
            match p_dn {
                Some(pos) => Some(pos),
                None => None,
            }
        }
    }
}

/// Everything the walk relies on about one layer's edge vector: every
/// entry lies on the layer and is a boundary edge of admissible shape, its
/// reverse is stored too, and every boundary edge of the layer is stored.
#[verifier::opaque]
pub open spec fn layer_edges_ok(es: Seq<GridEdge>, vs: Set<Voxel>, kk: i32) -> bool {
    &&& forall|t: int| 0 <= t < es.len() ==> (#[trigger] es[t]).0 == kk
    &&& forall|t: int|
        0 <= t < es.len() ==> boundary_edges(vs).contains(edge_view(#[trigger] es[t]))
    &&& forall|t: int| 0 <= t < es.len() ==> edge_shape_ok(#[trigger] es[t])
    &&& forall|t: int| 0 <= t < es.len() ==> #[trigger] rev_in(es, t)
    &&& forall|ev: (int, (int, int), (int, int))|
        #[trigger] boundary_edges(vs).contains(ev) && ev.0 == kk as int ==> exists|t: int|
            0 <= t < es.len() && edge_view(es[t]) == ev
}

/// The flag and presence facts a walk step needs, gathered from the
/// visited steps of the walk and the pair-synchronized marks.
proof fn lemma_step_facts(
    es: Seq<GridEdge>,
    vis: Seq<bool>,
    kk: i32,
    vs: Set<Voxel>,
    u: (i32, i32),
    v: (i32, i32),
    econt: GridEdge,
    cont: int,
    p0: (i32, i32),
    p1: (i32, i32),
)
    requires
        vis.len() == es.len(),
        pair_sync(es, vis),
        layer_edges_ok(es, vs, kk),
        step_visited(es, vis, kk, u, v),
        step_visited(es, vis, kk, p0, p1),
        0 <= cont < es.len(),
        es[cont] == econt,
        econt.1 == v,
        0 <= dir_index(v, econt.2) < 4,
        econt == out_edge(kk, v, dir_index(v, econt.2)),
    ensures
        0 <= dir_index(v, u) < 4,
        vdir(es, vis, kk, v, dir_index(v, u)),
        has_dir(es, kk, v, dir_index(v, u)),
        has_dir(es, kk, v, dir_index(v, econt.2)),
        corner_ok(econt.2),
        corner_ok(v),
        corner_ok(u),
        corner_ok(p0),
        corner_ok(p1),
        has_dir(es, kk, econt.2, opp_dir(dir_index(v, econt.2))),
        vdir(es, vis, kk, p0, dir_index(p0, p1)),
        0 <= dir_index(p0, p1) < 4,
        vis[cont] ==> vdir(es, vis, kk, v, dir_index(v, econt.2)),
        !vis[cont] ==> !vdir(es, vis, kk, v, dir_index(v, econt.2)),
        !vis[cont] ==> !vdir(es, vis, kk, econt.2, opp_dir(dir_index(v, econt.2))),
{
    reveal(pair_sync);
    reveal(layer_edges_ok);
    let cdi = dir_index(v, econt.2);
    let sa = choose|t: int| 0 <= t < es.len() && #[trigger] es[t] == ((kk, u, v)) && vis[t];
    assert(rev_in(es, sa));
    let sr = choose|t: int|
        0 <= t < es.len() && #[trigger] es[t] == ((es[sa].0, es[sa].2, es[sa].1));
    assert(es[sr] == ((kk, v, u)));
    assert(edge_shape_ok(es[sa]));
    assert(0 <= dir_index(v, u) < 4 && ((kk, v, u)) == out_edge(kk, v, dir_index(v, u)));
    assert(vis[sr] == vis[sa]);
    assert(vdir(es, vis, kk, v, dir_index(v, u)));
    assert(has_dir(es, kk, v, dir_index(v, u)));
    assert(has_dir(es, kk, v, cdi));
    assert(edge_shape_ok(econt));
    assert(corner_ok(econt.2));
    assert(rev_in(es, cont));
    let sc = choose|t: int|
        0 <= t < es.len() && #[trigger] es[t] == ((econt.0, econt.2, econt.1));
    assert(es[sc] == out_edge(kk, econt.2, opp_dir(cdi)));
    assert(has_dir(es, kk, econt.2, opp_dir(cdi)));
    let sf = choose|t: int|
        0 <= t < es.len() && #[trigger] es[t] == ((kk, p0, p1)) && vis[t];
    assert(edge_shape_ok(es[sf]));
    assert(corner_ok(p0) && corner_ok(p1));
    assert(es[sf] == out_edge(kk, p0, dir_index(p0, p1)));
    assert(vdir(es, vis, kk, p0, dir_index(p0, p1)));
    if vis[cont] {
        assert(vdir(es, vis, kk, v, cdi));
    } else {
        if vdir(es, vis, kk, v, cdi) {
            let t = choose|t: int|
                0 <= t < es.len() && #[trigger] es[t] == out_edge(kk, v, cdi) && vis[t];
            assert(vis[t] == vis[cont]);
            assert(false);
        }
        if vdir(es, vis, kk, econt.2, opp_dir(cdi)) {
            let t = choose|t: int|
                0 <= t < es.len() && #[trigger] es[t] == out_edge(kk, econt.2, opp_dir(cdi))
                    && vis[t];
            assert(es[t] == ((econt.0, econt.2, econt.1)));
            assert(vis[t] == vis[cont]);
            assert(false);
        }
    }
}

/// The arrival step of a walk names two admissible corners and is stored
/// in the layer's edge vector.
proof fn lemma_arrival_facts(
    es: Seq<GridEdge>,
    vs: Set<Voxel>,
    kk: i32,
    u: (i32, i32),
    v: (i32, i32),
)
    requires
        layer_edges_ok(es, vs, kk),
        step_in(es, kk, u, v),
    ensures
        corner_ok(u),
        corner_ok(v),
        exists|t: int| 0 <= t < es.len() && #[trigger] es[t] == ((kk, u, v)),
{
    reveal(layer_edges_ok);
    let s0 = choose|t: int| 0 <= t < es.len() && #[trigger] es[t] == ((kk, u, v));
    assert(edge_shape_ok(es[s0]));
}

/// An unvisited entry has an unvisited slot for itself and for its
/// reverse: what marking it requires.
proof fn lemma_mark_pre(es: Seq<GridEdge>, vis: Seq<bool>, kk: i32, vs: Set<Voxel>, pos: int)
    requires
        vis.len() == es.len(),
        pair_sync(es, vis),
        layer_edges_ok(es, vs, kk),
        0 <= pos < es.len(),
        !vis[pos],
    ensures
        exists|t: int| 0 <= t < es.len() && (#[trigger] es[t]) == es[pos] && !vis[t],
        exists|t: int|
            0 <= t < es.len() && (#[trigger] es[t]) == ((es[pos].0, es[pos].2, es[pos].1))
                && !vis[t],
{
    reveal(pair_sync);
    reveal(layer_edges_ok);
    assert(rev_in(es, pos));
    let s2 = choose|t: int|
        0 <= t < es.len() && #[trigger] es[t] == ((es[pos].0, es[pos].2, es[pos].1));
    assert(vis[s2] == vis[pos]);
}

/// The first and last steps of a walk whose steps are all visited.
proof fn lemma_walk_ends(es: Seq<GridEdge>, vis: Seq<bool>, kk: i32, poly: Seq<(i32, i32)>)
    requires
        walk_steps_visited(es, vis, kk, poly),
        poly.len() >= 2,
    ensures
        step_visited(es, vis, kk, poly[poly.len() - 2], poly[poly.len() - 1]),
        step_visited(es, vis, kk, poly[0], poly[1]),
{
    reveal(walk_steps_visited);
}

/// Walks the boundary edges of one depth layer into closed rings.  The
/// walk always succeeds: every corner of a voxel set's boundary graph has
/// even degree, and the handedness pairing of consumed edges leaves an
/// already-visited continuation possible only where the walk closes.
#[verifier::rlimit(100)]
#[verifier::spinoff_prover]
fn trace_layer(
    vs: &VoxelSet,
    k: i32,
    edges_k: &Vec<GridEdge>,
    visited: &mut Vec<bool>,
) -> (r: Option<Vec<Vec<(i32, i32)>>>)
    requires
        vs.wf(),
        layer_edges_ok(edges_k@, vs@, k),
    ensures
        r is Some,
        match r {
            Some(rings) => {
                &&& forall|ri: int|
                    0 <= ri < rings@.len() ==> ring_closed(#[trigger] rings@[ri]@) && ring_steps_in(
                        boundary_edges(vs@),
                        k as int,
                        rings@[ri]@,
                    )
                &&& forall|t: int|
                    0 <= t < edges_k@.len() ==> rings_cover(rings@, #[trigger] edges_k@[t])
                &&& rings_distinct_steps(rings@)
            },
            None => true,
        },
{
    let n = edges_k.len();
    visited.clear();
    while visited.len() < n
        invariant
            visited@.len() <= n,
            forall|t: int| 0 <= t < visited@.len() ==> !(#[trigger] visited@[t]),
        decreases n - visited@.len(),
    {
        visited.push(false);
    }
    let mut rings: Vec<Vec<(i32, i32)>> = Vec::new();
    proof {
        reveal(pair_sync);
        reveal(rings_steps_visited);
        reveal(rings_distinct_steps);
        assert(pair_sync(edges_k@, visited@));
        assert(rings_steps_visited(edges_k@, visited@, k, rings@));
        assert(rings_distinct_steps(rings@));
        assert forall|c: (i32, i32)| #[trigger] balanced0(
            edges_k@,
            visited@,
            k,
            vs@,
            c,
        ) by {
            reveal(balanced0);
            assert forall|di: int| 0 <= di < 4 implies !#[trigger] vdir(
                edges_k@,
                visited@,
                k,
                c,
                di,
            ) by {
                if vdir(edges_k@, visited@, k, c, di) {
                    let t = choose|t: int|
                        0 <= t < edges_k@.len() && #[trigger] edges_k@[t] == out_edge(k, c, di)
                            && visited@[t];
                    assert(false);
                }
            }
        }
    }
    loop
        invariant
            visited@.len() == n,
            n == edges_k@.len(),
            vs.wf(),
            pair_sync(edges_k@, visited@),
            forall|c: (i32, i32)| #[trigger] balanced0(edges_k@, visited@, k, vs@, c),
            layer_edges_ok(edges_k@, vs@, k),
            forall|t: int|
                0 <= t < n && #[trigger] visited@[t] ==> rings_cover(rings@, edges_k@[t]),
            forall|ri: int|
                0 <= ri < rings@.len() ==> ring_closed(#[trigger] rings@[ri]@) && ring_steps_in(
                    boundary_edges(vs@),
                    k as int,
                    rings@[ri]@,
                ),
            rings_steps_visited(edges_k@, visited@, k, rings@),
            rings_distinct_steps(rings@),
        ensures
            forall|t: int| 0 <= t < n ==> rings_cover(rings@, #[trigger] edges_k@[t]),
            forall|ri: int|
                0 <= ri < rings@.len() ==> ring_closed(#[trigger] rings@[ri]@) && ring_steps_in(
                    boundary_edges(vs@),
                    k as int,
                    rings@[ri]@,
                ),
            rings_distinct_steps(rings@),
        decreases crate::reach::count_false(visited@),
    {
        let start_opt = find_unvisited(visited);
        let start: usize;
        match start_opt {
            None => {
                proof {
                    assert forall|t: int| 0 <= t < n implies rings_cover(
                        rings@,
                        #[trigger] edges_k@[t],
                    ) by {
                        assert(visited@[t]);
                    }
                }
                break ;
            },
            Some(s) => {
                start = s;
            },
        }
        let ghost cf0 = crate::reach::count_false(visited@);
        let ghost vis0 = visited@;
        let e0 = edges_k[start];
        proof {
            reveal(pair_sync);
            reveal(layer_edges_ok);
            assert(rev_in(edges_k@, start as int));
            let s2 = choose|s2: int|
                0 <= s2 < edges_k@.len() && #[trigger] edges_k@[s2] == ((edges_k@[start as int].0, edges_k@[start as int].2, edges_k@[start as int].1));
            assert(visited@[s2] == visited@[start as int]);
        }
        mark_visited(edges_k, visited, &e0);
        proof {
            crate::reach::lemma_count_false_lt(vis0, visited@, start as int);
            lemma_pair_sync_mark(edges_k@, vis0, visited@, e0);
        }
        let mut poly: Vec<(i32, i32)> = Vec::new();
        poly.push(e0.1);
        poly.push(e0.2);
        let ghost rings0 = rings@;
        proof {
            reveal(layer_edges_ok);
            assert(e0 == edges_k@[start as int] && e0.0 == k);
            assert(edges_k@[start as int] == ((k, poly@[0], poly@[1])));
            assert(step_in(edges_k@, k, poly@[0], poly@[1]));
            assert(edge_shape_ok(e0));
            assert(0 <= dir_index(poly@[0], poly@[1]) < 4);
            assert(out_edge(k, poly@[0], dir_index(poly@[0], poly@[1])) == e0);
            assert(out_edge(k, poly@[1], dir_index(poly@[1], poly@[0])) == ((e0.0, e0.2, e0.1)));
            assert(has_dir(edges_k@, k, poly@[0], dir_index(poly@[0], poly@[1]))) by {
                assert(edges_k@[start as int] == out_edge(k, poly@[0], dir_index(poly@[0], poly@[1])));
            }
            assert(rev_in(edges_k@, start as int));
            let tr = choose|t: int|
                0 <= t < edges_k@.len() && #[trigger] edges_k@[t] == ((e0.0, e0.2, e0.1));
            assert(has_dir(edges_k@, k, poly@[1], dir_index(poly@[1], poly@[0]))) by {
                assert(edges_k@[tr] == out_edge(k, poly@[1], dir_index(poly@[1], poly@[0])));
            }
            assert(!vdir(edges_k@, vis0, k, poly@[0], dir_index(poly@[0], poly@[1]))) by {
                reveal(pair_sync);
                if vdir(edges_k@, vis0, k, poly@[0], dir_index(poly@[0], poly@[1])) {
                    let t = choose|t: int|
                        0 <= t < edges_k@.len() && #[trigger] edges_k@[t] == out_edge(
                            k,
                            poly@[0],
                            dir_index(poly@[0], poly@[1]),
                        ) && vis0[t];
                    assert(vis0[t] == vis0[start as int]);
                    assert(false);
                }
            }
            assert(!vdir(edges_k@, vis0, k, poly@[1], dir_index(poly@[1], poly@[0]))) by {
                reveal(pair_sync);
                if vdir(edges_k@, vis0, k, poly@[1], dir_index(poly@[1], poly@[0])) {
                    let t = choose|t: int|
                        0 <= t < edges_k@.len() && #[trigger] edges_k@[t] == out_edge(
                            k,
                            poly@[1],
                            dir_index(poly@[1], poly@[0]),
                        ) && vis0[t];
                    assert(edges_k@[t] == ((edges_k@[start as int].0, edges_k@[start as int].2, edges_k@[start as int].1)));
                    assert(vis0[t] == vis0[start as int]);
                    assert(false);
                }
            }
            lemma_balance_after_first_mark(edges_k@, vis0, visited@, k, vs@, e0, poly@);
            assert forall|t: int|
                0 <= t < n && #[trigger] visited@[t] implies rings_cover(rings@, edges_k@[t])
                || ring_covers(poly@, edges_k@[t]) by {
                if !vis0[t] {
                    assert(edges_k@[t] == e0 || edges_k@[t] == ((e0.0, e0.2, e0.1)));
                    assert((poly@[0], poly@[1]) == (e0.1, e0.2));
                    assert(ring_covers(poly@, edges_k@[t]));
                }
            }
            lemma_rings_visited_mono(edges_k@, vis0, visited@, k, rings@);
            reveal(walk_steps_visited);
            reveal(rings_steps_visited);
            reveal(ring_distinct_steps);
            reveal(cross_distinct_steps);
            assert(walk_steps_visited(edges_k@, visited@, k, poly@)) by {
                assert(visited@[start as int]);
                assert forall|t: int| 0 <= t < poly@.len() - 1 implies step_visited(
                    edges_k@,
                    visited@,
                    k,
                    #[trigger] poly@[t],
                    poly@[t + 1],
                ) by {
                    assert(t == 0);
                    assert(edges_k@[start as int] == ((k, poly@[0], poly@[1]))
                        && visited@[start as int]);
                }
            }
            assert(ring_distinct_steps(poly@));
            assert(cross_distinct_steps(rings@, poly@)) by {
                assert forall|ri: int, t1: int, t2: int|
                    0 <= ri < rings@.len() && 0 <= t1 < rings@[ri]@.len() - 1 && 0 <= t2
                        < poly@.len() - 1 implies steps_differ(
                    #[trigger] rings@[ri]@[t1],
                    rings@[ri]@[t1 + 1],
                    #[trigger] poly@[t2],
                    poly@[t2 + 1],
                ) by {
                    assert(walk_steps_visited(edges_k@, vis0, k, rings@[ri]@));
                    assert(step_visited(edges_k@, vis0, k, rings@[ri]@[t1], rings@[ri]@[t1 + 1]));
                    assert(t2 == 0);
                    lemma_fresh_step_differs(
                        edges_k@,
                        vis0,
                        k,
                        rings@[ri]@[t1],
                        rings@[ri]@[t1 + 1],
                        start as int,
                        poly@[0],
                        poly@[1],
                    );
                }
            }
        }
        loop
            invariant_except_break
                visited@.len() == n,
                n == edges_k@.len(),
                vs.wf(),
                pair_sync(edges_k@, visited@),
                layer_edges_ok(edges_k@, vs@, k),
                rings@ == rings0,
                poly@.len() >= 2,
                forall|c: (i32, i32)| #[trigger] balanced(edges_k@, visited@, k, vs@, poly@, c),
                0 <= dir_index(poly@[0], poly@[1]) < 4,
                poly@[poly@.len() - 1] == poly@[0] ==> dir_index(
                    poly@[poly@.len() - 1],
                    poly@[poly@.len() - 2],
                ) != dir_index(poly@[0], poly@[1]),
                forall|t: int|
                    0 <= t < poly@.len() - 1 ==> #[trigger] step_in(
                        edges_k@,
                        k,
                        poly@[t],
                        poly@[t + 1],
                    ),
                forall|t: int|
                    0 <= t < n && #[trigger] visited@[t] ==> rings_cover(rings@, edges_k@[t])
                        || ring_covers(poly@, edges_k@[t]),
                forall|ri: int|
                    0 <= ri < rings@.len() ==> ring_closed(#[trigger] rings@[ri]@) && ring_steps_in(
                        boundary_edges(vs@),
                        k as int,
                        rings@[ri]@,
                    ),
                rings_steps_visited(edges_k@, visited@, k, rings@),
                rings_distinct_steps(rings@),
                walk_steps_visited(edges_k@, visited@, k, poly@),
                ring_distinct_steps(poly@),
                cross_distinct_steps(rings@, poly@),
                crate::reach::count_false(visited@) < cf0,
            ensures
                visited@.len() == n,
                pair_sync(edges_k@, visited@),
                forall|c: (i32, i32)| #[trigger] balanced0(edges_k@, visited@, k, vs@, c),
                crate::reach::count_false(visited@) < cf0,
                forall|t: int|
                    0 <= t < n && #[trigger] visited@[t] ==> rings_cover(rings@, edges_k@[t]),
                forall|ri: int|
                    0 <= ri < rings@.len() ==> ring_closed(#[trigger] rings@[ri]@) && ring_steps_in(
                        boundary_edges(vs@),
                        k as int,
                        rings@[ri]@,
                    ),
                rings_steps_visited(edges_k@, visited@, k, rings@),
                rings_distinct_steps(rings@),
            decreases crate::reach::count_false(visited@),
        {
            let u = poly[poly.len() - 2];
            let v = poly[poly.len() - 1];
            proof {
                let t0 = poly@.len() - 2;
                assert(step_in(edges_k@, k, poly@[t0], poly@[t0 + 1]));
                lemma_arrival_facts(edges_k@, vs@, k, u, v);
            }
            let cont: usize = match choose_continuation(edges_k, vs, k, u, v) {
                Some(c) => c,
                None => {
                    return None;
                },
            };
            let econt = edges_k[cont];
            let ghost cdi = dir_index(v, econt.2);
            let ghost rv = dir_index(v, u);
            proof {
                lemma_walk_ends(edges_k@, visited@, k, poly@);
                assert(0 <= cdi < 4 && edges_k@[cont as int] == out_edge(k, v, cdi) && cdi != rv);
                lemma_step_facts(
                    edges_k@,
                    visited@,
                    k,
                    vs@,
                    u,
                    v,
                    econt,
                    cont as int,
                    poly@[0],
                    poly@[1],
                );
            }
            if visited[cont] {
                let p0 = poly[0];
                proof {
                    assert(vdir(edges_k@, visited@, k, v, cdi)) by {
                        assert(edges_k@[cont as int] == out_edge(k, v, cdi) && visited@[cont as int]);
                    }
                    lemma_closure_at_start(edges_k@, visited@, k, vs@, poly@, cdi);
                    assert(poly@[poly@.len() - 1] == poly@[0]);
                }
                if corners_equal(&p0, &v) {
                    proof {
                        assert(ring_closed(poly@));
                        lemma_walk_in_boundary(edges_k@, vs@, k, poly@);
                        lemma_restore_balanced0(edges_k@, visited@, k, vs@, poly@, cdi);
                    }
                    let ghost polyv = poly@;
                    rings.push(poly);
                    proof {
                        assert(rings@ == rings0.push(rings@[rings@.len() - 1]));
                        assert(rings@[rings@.len() - 1]@ == polyv);
                        assert forall|t: int|
                            0 <= t < n && #[trigger] visited@[t] implies rings_cover(
                            rings@,
                            edges_k@[t],
                        ) by {
                            lemma_rings_cover_push(rings0, rings@[rings@.len() - 1], edges_k@[t]);
                        }
                        lemma_close_ring_props(edges_k@, visited@, k, rings0, rings@, polyv);
                    }
                    break ;
                } else {
                    proof {
                        assert(false);
                    }
                    return None;
                }
            }
            let ghost vis1 = visited@;
            proof {
                lemma_mark_pre(edges_k@, visited@, k, vs@, cont as int);
            }
            mark_visited(edges_k, visited, &econt);
            proof {
                crate::reach::lemma_count_false_lt(vis1, visited@, cont as int);
                lemma_pair_sync_mark(edges_k@, vis1, visited@, econt);
            }
            let ghost poly_old = poly@;
            poly.push(econt.2);
            proof {
                assert(poly@ == poly_old.push(econt.2));
                assert(econt == ((k, poly@[poly@.len() - 2], poly@[poly@.len() - 1])));
                assert forall|t: int|
                    0 <= t < poly@.len() - 1 implies #[trigger] step_in(
                    edges_k@,
                    k,
                    poly@[t],
                    poly@[t + 1],
                ) by {
                    if t < poly_old.len() - 1 {
                        assert(poly@[t] == poly_old[t] && poly@[t + 1] == poly_old[t + 1]);
                        assert(step_in(edges_k@, k, poly_old[t], poly_old[t + 1]));
                    } else {
                        assert(edges_k@[cont as int] == ((k, poly@[t], poly@[t + 1])));
                    }
                }
                lemma_cover_after_push(edges_k@, vis1, visited@, rings@, poly_old, econt);
                lemma_rings_visited_mono(edges_k@, vis1, visited@, k, rings@);
                assert(poly_old[poly_old.len() - 1] == econt.1);
                lemma_push_step_props(
                    edges_k@,
                    vis1,
                    visited@,
                    k,
                    poly_old,
                    rings@,
                    cont as int,
                    econt.2,
                );
                lemma_balance_after_step(
                    edges_k@,
                    vis1,
                    visited@,
                    k,
                    vs@,
                    poly_old,
                    econt,
                    cdi,
                );
            }
        }
    }
    Some(rings)
}

/// All rings of each layer are closed boundary walks, and together they
/// cover every boundary edge of their layer.
pub open spec fn ring_covers_ev(r: Seq<(i32, i32)>, ev: (int, (int, int), (int, int))) -> bool {
    exists|t: int|
        0 <= t < r.len() - 1 && ((corner_view(#[trigger] r[t]), corner_view(r[t + 1])) == (
        ev.1,
        ev.2,
        ) || (corner_view(r[t]), corner_view(r[t + 1])) == (ev.2, ev.1))
}

/// Some ring among `rs` walks the edge view `ev`, in either orientation.
pub open spec fn rings_cover_ev(rs: Seq<Vec<(i32, i32)>>, ev: (int, (int, int), (int, int))) -> bool {
    exists|ri: int| 0 <= ri < rs.len() && ring_covers_ev(#[trigger] rs[ri]@, ev)
}

/// `k` is the lowest (or, with `hi`, the highest) depth layer any member
/// voxel occupies.
pub open spec fn extreme_layer(vs: Set<Voxel>, k: int, hi: bool) -> bool {
    &&& exists|v: Voxel| #[trigger] vs.contains(v) && v.k == k
    &&& forall|v: Voxel|
        #[trigger] vs.contains(v) ==> (if hi {
            v.k <= k
        } else {
            v.k >= k
        })
}

/// The layer list of a boundary extraction: one entry per depth layer from
/// the lowest to the highest occupied layer, in ascending contiguous order,
/// and no entry at all for an empty voxel set.
pub open spec fn layers_ok(vs: Set<Voxel>, out: Seq<(i32, Vec<Vec<(i32, i32)>>)>) -> bool {
    &&& (out.len() == 0 <==> vs == Set::<Voxel>::empty())
    &&& forall|li: int| 0 <= li < out.len() ==> (#[trigger] out[li].0 as int) == out[0].0 + li
    &&& out.len() > 0 ==> extreme_layer(vs, out[0].0 as int, false) && extreme_layer(
        vs,
        out[out.len() - 1].0 as int,
        true,
    )
}

/// What a successful boundary extraction yields: one entry per depth layer
/// from the lowest to the highest occupied layer, each ring a closed walk
/// along the layer's boundary edges, every boundary edge of the voxel set
/// walked by some ring of its layer, and no undirected edge walked twice
/// within a layer.
pub open spec fn traced_ok(vs: Set<Voxel>, out: Seq<(i32, Vec<Vec<(i32, i32)>>)>) -> bool {
    &&& layers_ok(vs, out)
    &&& forall|li: int| 0 <= li < out.len() ==> #[trigger] rings_distinct_steps(out[li].1@)
    &&& forall|li: int, ri: int|
        0 <= li < out.len() && 0 <= ri < out[li].1@.len() ==> ring_closed(
            #[trigger] out[li].1@[ri]@,
        ) && ring_steps_in(boundary_edges(vs), out[li].0 as int, out[li].1@[ri]@)
    &&& forall|ev: (int, (int, int), (int, int))|
        boundary_edges(vs).contains(ev) ==> exists|li: int|
            0 <= li < out.len() && (#[trigger] out[li].0 as int) == ev.0 && rings_cover_ev(
                out[li].1@,
                ev,
            )
}

/// `out` is `raw` with the antialiasing pass and then the simplification
/// pass applied to every ring, layer by layer.
pub open spec fn processed_of(
    raw: Seq<(i32, Vec<Vec<(i32, i32)>>)>,
    out: Seq<(i32, Vec<Vec<(i32, i32)>>)>,
) -> bool {
    &&& out.len() == raw.len()
    &&& forall|li: int|
        0 <= li < raw.len() ==> (#[trigger] out[li].0) == raw[li].0 && out[li].1@.len()
            == raw[li].1@.len()
    &&& forall|li: int, ri: int|
        0 <= li < raw.len() && 0 <= ri < raw[li].1@.len() ==> (#[trigger] out[li].1@[ri]@)
            == simplify_spec(antialias_spec(raw[li].1@[ri]@))
}

/// Collects the edges of `edges` lying on layer `k`.
fn layer_edges(edges: &Vec<GridEdge>, k: i32) -> (r: Vec<GridEdge>)
    ensures
        forall|t: int| 0 <= t < r@.len() ==> (#[trigger] r@[t]).0 == k && edges@.contains(r@[t]),
        forall|s: int|
            0 <= s < edges@.len() && (#[trigger] edges@[s]).0 == k ==> r@.contains(edges@[s]),
{
    let mut r: Vec<GridEdge> = Vec::new();
    let mut t: usize = 0;
    while t < edges.len()
        invariant
            t <= edges@.len(),
            forall|x: int|
                0 <= x < r@.len() ==> (#[trigger] r@[x]).0 == k && edges@.contains(r@[x]),
            forall|s: int|
                0 <= s < t && (#[trigger] edges@[s]).0 == k ==> r@.contains(edges@[s]),
        decreases edges@.len() - t,
    {
        let e = edges[t];
        if e.0 == k {
            let ghost r0 = r@;
            r.push(e);
            proof {
                assert(edges@.contains(edges@[t as int]));
                assert(r@[r@.len() - 1] == e);
                assert forall|s: int|
                    0 <= s < t + 1 && (#[trigger] edges@[s]).0 == k implies r@.contains(
                    edges@[s],
                ) by {
                    if s < t {
                        let x = choose|x: int| 0 <= x < r0.len() && r0[x] == edges@[s];
                        assert(r@[x] == edges@[s]);
                    } else {
                        assert(r@[r@.len() - 1] == edges@[s]);
                    }
                }
            }
        }
        t += 1;
    }
    r
}

/// Copies a ring point by point.
fn copy_ring(r: &Vec<(i32, i32)>) -> (c: Vec<(i32, i32)>)
    ensures
        c@ == r@,
{
    let mut c: Vec<(i32, i32)> = Vec::new();
    let mut t: usize = 0;
    while t < r.len()
        invariant
            t <= r@.len(),
            c@ == r@.subrange(0, t as int),
        decreases r@.len() - t,
    {
        c.push(r[t]);
        proof {
            assert(c@ =~= r@.subrange(0, t + 1));
        }
        t += 1;
    }
    proof {
        assert(c@ =~= r@);
    }
    c
}

/// Reconstructs, layer by layer, the closed polygon rings separating the
/// member voxels of a region from the rest of the grid.
pub struct PolygonBuilder {
    edges: Vec<GridEdge>,
    visited: Vec<bool>,
}

impl PolygonBuilder {
    pub fn new() -> (r: PolygonBuilder) {
        PolygonBuilder { edges: Vec::new(), visited: Vec::new() }
    }

    /// Traces the raw boundary rings of `vs`, one entry per depth layer in
    /// increasing order.  Extraction always succeeds: a voxel set's
    /// boundary graph has even degree at every corner, so the walk never
    /// lacks a continuation.
    #[verifier::rlimit(60)]
    pub fn extract_rings(&mut self, vs: &VoxelSet) -> (r: Option<
        Vec<(i32, Vec<Vec<(i32, i32)>>)>,
    >)
        requires
            vs.wf(),
        ensures
            r is Some,
            match r {
                Some(out) => traced_ok(vs@, out@),
                None => true,
            },
            vs.seq().len() == 0 ==> (r matches Some(out) && out@.len() == 0),
    {
        proof {
            vs.lemma_view();
        }
        let n = vs.len();
        if n == 0 {
            let out: Vec<(i32, Vec<Vec<(i32, i32)>>)> = Vec::new();
            proof {
                assert(vs@ =~= Set::<Voxel>::empty());
                assert forall|ev: (int, (int, int), (int, int))|
                    boundary_edges(vs@).contains(ev) implies exists|li: int|
                    0 <= li < out@.len() && (#[trigger] out@[li].0 as int) == ev.0
                        && rings_cover_ev(out@[li].1@, ev) by {
                    let (v, d) = choose|v: Voxel, d: int|
                        #[trigger] is_boundary_dir(vs@, v, d) && (ev == fwd_edge(v, d) || ev
                            == rev_view(fwd_edge(v, d)));
                    assert(vs@.contains(v));
                    assert(false);
                }
            }
            return Some(out);
        }
        let mut kmin = vs.item(0).k;
        let mut kmax = kmin;
        let mut t: usize = 1;
        while t < n
            invariant
                vs.wf(),
                n == vs.seq().len(),
                n >= 1,
                1 <= t <= n,
                -MAX_COORD <= kmin <= MAX_COORD,
                -MAX_COORD <= kmax <= MAX_COORD,
                kmin <= kmax,
                forall|s: int| 0 <= s < t ==> kmin <= (#[trigger] vs.seq()[s]).k <= kmax,
                exists|s: int| 0 <= s < t && (#[trigger] vs.seq()[s]).k == kmin,
                exists|s: int| 0 <= s < t && (#[trigger] vs.seq()[s]).k == kmax,
            decreases n - t,
        {
            let v = vs.item(t);
            proof {
                vs.lemma_view();
            }
            if v.k < kmin {
                kmin = v.k;
            }
            if v.k > kmax {
                kmax = v.k;
            }
            t += 1;
        }
        self.edges = collect_edges(vs);
        let ghost all_edges = self.edges@;
        let mut out: Vec<(i32, Vec<Vec<(i32, i32)>>)> = Vec::new();
        let mut k = kmin;
        while k <= kmax
            invariant
                vs.wf(),
                n == vs.seq().len(),
                n >= 1,
                all_edges == self.edges@,
                kmin <= k,
                k <= kmax + 1,
                -MAX_COORD <= kmin <= MAX_COORD,
                -MAX_COORD <= kmax <= MAX_COORD,
                forall|s: int| 0 <= s < n ==> kmin <= (#[trigger] vs.seq()[s]).k <= kmax,
                exists|s: int| 0 <= s < n && (#[trigger] vs.seq()[s]).k == kmin,
                exists|s: int| 0 <= s < n && (#[trigger] vs.seq()[s]).k == kmax,
                forall|t2: int|
                    0 <= t2 < all_edges.len() ==> boundary_edges(vs@).contains(
                        edge_view(#[trigger] all_edges[t2]),
                    ),
                forall|ev: (int, (int, int), (int, int))|
                    boundary_edges(vs@).contains(ev) ==> exists|t2: int|
                        0 <= t2 < all_edges.len() && edge_view(#[trigger] all_edges[t2]) == ev,
                forall|t2: int| 0 <= t2 < all_edges.len() ==> edge_shape_ok(#[trigger] all_edges[t2]),
                forall|t2: int| 0 <= t2 < all_edges.len() ==> #[trigger] rev_in(all_edges, t2),
                out@.len() == k - kmin,
                forall|li: int| 0 <= li < out@.len() ==> (#[trigger] out@[li].0) == kmin + li,
                forall|li: int, ri: int|
                    0 <= li < out@.len() && 0 <= ri < out@[li].1@.len() ==> ring_closed(
                        #[trigger] out@[li].1@[ri]@,
                    ) && ring_steps_in(boundary_edges(vs@), out@[li].0 as int, out@[li].1@[ri]@),
                forall|li: int| 0 <= li < out@.len() ==> #[trigger] rings_distinct_steps(
                    out@[li].1@,
                ),
                forall|ev: (int, (int, int), (int, int))|
                    boundary_edges(vs@).contains(ev) && ev.0 < k ==> exists|li: int|
                        0 <= li < out@.len() && (#[trigger] out@[li].0 as int) == ev.0
                            && rings_cover_ev(out@[li].1@, ev),
            decreases kmax + 1 - k,
        {
            let ek = layer_edges(&self.edges, k);
            proof {
                assert forall|t2: int| 0 <= t2 < ek@.len() implies boundary_edges(vs@).contains(
                    edge_view(#[trigger] ek@[t2]),
                ) && edge_shape_ok(ek@[t2]) by {
                    let s = choose|s: int|
                        0 <= s < all_edges.len() && all_edges[s] == ek@[t2];
                    assert(boundary_edges(vs@).contains(edge_view(all_edges[s])));
                }
                assert forall|ev: (int, (int, int), (int, int))|
                    #[trigger] boundary_edges(vs@).contains(ev) && ev.0 == k as int implies exists|
                    t2: int,
                |
                    0 <= t2 < ek@.len() && edge_view(ek@[t2]) == ev by {
                    let t3 = choose|t3: int|
                        0 <= t3 < all_edges.len() && edge_view(#[trigger] all_edges[t3]) == ev;
                    assert(all_edges[t3].0 == k);
                    assert(ek@.contains(all_edges[t3]));
                    let p = choose|p: int| 0 <= p < ek@.len() && ek@[p] == all_edges[t3];
                    assert(edge_view(ek@[p]) == ev);
                }
                assert forall|t2: int| 0 <= t2 < ek@.len() implies #[trigger] rev_in(ek@, t2) by {
                    let s = choose|s: int|
                        0 <= s < all_edges.len() && all_edges[s] == ek@[t2];
                    assert(rev_in(all_edges, s));
                    let s2 = choose|s2: int|
                        0 <= s2 < all_edges.len() && #[trigger] all_edges[s2] == ((all_edges[s].0, all_edges[s].2, all_edges[s].1));
                    assert(all_edges[s2].0 == k);
                    assert(ek@.contains(all_edges[s2]));
                    let p = choose|p: int| 0 <= p < ek@.len() && ek@[p] == all_edges[s2];
                    assert(ek@[p] == ((ek@[t2].0, ek@[t2].2, ek@[t2].1)));
                }
            }
            proof {
                assert(layer_edges_ok(ek@, vs@, k)) by {
                    reveal(layer_edges_ok);
                }
            }
            let rings_opt = trace_layer(vs, k, &ek, &mut self.visited);
            let rings: Vec<Vec<(i32, i32)>>;
            match rings_opt {
                Some(rs) => {
                    rings = rs;
                },
                None => {
                    proof {
                        assert(false);
                    }
                    return None;
                },
            }
            let ghost out0 = out@;
            out.push((k, rings));
            proof {
                assert(out@[out@.len() - 1] == ((k, rings)));
                assert forall|li: int| 0 <= li < out@.len() implies #[trigger] rings_distinct_steps(
                    out@[li].1@,
                ) by {
                    if li < out0.len() {
                        assert(out@[li] == out0[li]);
                        assert(rings_distinct_steps(out0[li].1@));
                    } else {
                        assert(out@[li].1 == rings);
                    }
                }
                assert forall|ev: (int, (int, int), (int, int))|
                    boundary_edges(vs@).contains(ev) && ev.0 < k + 1 implies exists|li: int|
                    0 <= li < out@.len() && (#[trigger] out@[li].0 as int) == ev.0
                        && rings_cover_ev(out@[li].1@, ev) by {
                    if ev.0 < k {
                        let li = choose|li: int|
                            0 <= li < out0.len() && (#[trigger] out0[li].0 as int) == ev.0
                                && rings_cover_ev(out0[li].1@, ev);
                        assert(out@[li] == out0[li]);
                        assert((out@[li].0 as int) == ev.0 && rings_cover_ev(out@[li].1@, ev));
                    } else {
                        let t2 = choose|t2: int|
                            0 <= t2 < all_edges.len() && edge_view(#[trigger] all_edges[t2]) == ev;
                        let e = all_edges[t2];
                        assert(e.0 == k);
                        assert(ek@.contains(e));
                        let p = choose|p: int| 0 <= p < ek@.len() && ek@[p] == e;
                        assert(rings_cover(rings@, ek@[p]));
                        let ri = choose|ri: int|
                            0 <= ri < rings@.len() && ring_covers(#[trigger] rings@[ri]@, e);
                        let st = choose|st: int|
                            0 <= st < rings@[ri]@.len() - 1 && ((#[trigger] rings@[ri]@[st], rings@[ri]@[st
                                + 1]) == (e.1, e.2) || (rings@[ri]@[st], rings@[ri]@[st + 1]) == (
                            e.2,
                            e.1,
                            ));
                        assert(ring_covers_ev(rings@[ri]@, ev));
                        assert(rings_cover_ev(out@[out@.len() - 1].1@, ev));
                        assert((out@[out@.len() - 1].0 as int) == ev.0);
                    }
                }
            }
            k += 1;
        }
        proof {
            assert forall|ev: (int, (int, int), (int, int))|
                boundary_edges(vs@).contains(ev) implies ev.0 < k by {
                let (v, d) = choose|v: Voxel, d: int|
                    #[trigger] is_boundary_dir(vs@, v, d) && (ev == rev_view(fwd_edge(v, d)) || ev
                        == fwd_edge(v, d));
                vs.lemma_view();
                let s = choose|s: int| 0 <= s < vs.seq().len() && vs.seq()[s] == v;
                assert(kmin <= vs.seq()[s].k <= kmax);
            }
            vs.lemma_view();
            let smin = choose|s: int| 0 <= s < n && (#[trigger] vs.seq()[s]).k == kmin;
            let smax = choose|s: int| 0 <= s < n && (#[trigger] vs.seq()[s]).k == kmax;
            assert(vs@.contains(vs.seq()[smin]) && vs@.contains(vs.seq()[smax]));
            assert(extreme_layer(vs@, kmin as int, false)) by {
                assert forall|v: Voxel| #[trigger] vs@.contains(v) implies v.k >= kmin by {
                    let s = choose|s: int| 0 <= s < vs.seq().len() && vs.seq()[s] == v;
                    assert(kmin <= vs.seq()[s].k);
                }
            }
            assert(extreme_layer(vs@, kmax as int, true)) by {
                assert forall|v: Voxel| #[trigger] vs@.contains(v) implies v.k <= kmax by {
                    let s = choose|s: int| 0 <= s < vs.seq().len() && vs.seq()[s] == v;
                    assert(vs.seq()[s].k <= kmax);
                }
            }
            assert(vs@.contains(vs.seq()[0]));
            if vs@ == Set::<Voxel>::empty() {
                assert(false);
            }
            assert(out@.len() > 0);
            assert(layers_ok(vs@, out@));
        }
        Some(out)
    }

    /// Traces the boundary rings of `vs` and runs the antialiasing pass and
    /// the exact simplification pass on every ring.  Always succeeds on a
    /// well-formed voxel set.
    pub fn cell_voxels_to_polygons(&mut self, vs: &VoxelSet) -> (r: Option<
        Vec<(i32, Vec<Vec<(i32, i32)>>)>,
    >)
        requires
            vs.wf(),
        ensures
            r is Some,
            match r {
                Some(out) => exists|raw: Seq<(i32, Vec<Vec<(i32, i32)>>)>|
                    #[trigger] traced_ok(vs@, raw) && processed_of(raw, out@),
                None => true,
            },
            vs.seq().len() == 0 ==> (r matches Some(out) && out@.len() == 0),
    {
        let raw_opt = self.extract_rings(vs);
        let raw: Vec<(i32, Vec<Vec<(i32, i32)>>)>;
        match raw_opt {
            Some(rs) => {
                raw = rs;
            },
            None => {
                proof {
                    assert(false);
                }
                return None;
            },
        }
        let ghost raw_v = raw@;
        let mut out: Vec<(i32, Vec<Vec<(i32, i32)>>)> = Vec::new();
        let mut li: usize = 0;
        while li < raw.len()
            invariant
                li <= raw@.len(),
                raw_v == raw@,
                out@.len() == li,
                forall|l2: int|
                    0 <= l2 < out@.len() ==> (#[trigger] out@[l2].0) == raw_v[l2].0
                        && out@[l2].1@.len() == raw_v[l2].1@.len(),
                forall|l2: int, ri: int|
                    0 <= l2 < out@.len() && 0 <= ri < raw_v[l2].1@.len() ==> (
                    #[trigger] out@[l2].1@[ri]@) == simplify_spec(
                        antialias_spec(raw_v[l2].1@[ri]@),
                    ),
            decreases raw@.len() - li,
        {
            let layer_k = raw[li].0;
            let nrings = raw[li].1.len();
            let mut processed: Vec<Vec<(i32, i32)>> = Vec::new();
            let mut ri: usize = 0;
            while ri < nrings
                invariant
                    li < raw@.len(),
                    raw_v == raw@,
                    nrings == raw_v[li as int].1@.len(),
                    ri <= nrings,
                    processed@.len() == ri,
                    forall|r2: int|
                        0 <= r2 < processed@.len() ==> (#[trigger] processed@[r2]@)
                            == simplify_spec(antialias_spec(raw_v[li as int].1@[r2]@)),
                decreases nrings - ri,
            {
                let ring = copy_ring(&raw[li].1[ri]);
                proof {
                    assert(ring@ == raw_v[li as int].1@[ri as int]@);
                }
                let smoothed = antialias_polygon(ring);
                let simplified = simplify_polygon(smoothed);
                processed.push(simplified);
                ri += 1;
            }
            out.push((layer_k, processed));
            li += 1;
        }
        proof {
            assert(traced_ok(vs@, raw_v) && processed_of(raw_v, out@));
        }
        Some(out)
    }
}
} // verus!
