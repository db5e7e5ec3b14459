use vstd::prelude::*;

use crate::geom::{adjacent, adjacent_nth, coord_ok, Voxel};
use crate::BACKGROUND_CELL;

verus! {

/// One occupied voxel: its coordinates, the region it is assigned to, and
/// the number of transcripts it contains.
#[derive(Clone, Copy, PartialEq, Eq, Structural, Debug)]
pub struct VoxelEntry {
    pub vox: Voxel,
    pub region: u32,
    pub transcripts: u32,
}

/// Incrementally maintained aggregates of one cell region: voxel count
/// (the volume in voxel units), total transcript count, and the coordinate
/// sums from which the centroid is derived.
#[derive(Clone, Copy, PartialEq, Eq, Structural, Debug)]
pub struct RegionStats {
    pub voxel_count: u64,
    pub transcript_count: u64,
    pub sum_i: i64,
    pub sum_j: i64,
    pub sum_k: i64,
}

/// The number of entries of `s` assigned to region `r`.
pub open spec fn region_voxels(s: Seq<VoxelEntry>, r: int) -> int
    decreases s.len(),
{
    if s.len() == 0 {
        0
    } else {
        region_voxels(s.drop_last(), r) + if s.last().region == r {
            1int
        } else {
            0int
        }
    }
}

/// The total transcript count of the entries of `s` assigned to region `r`.
pub open spec fn region_transcripts(s: Seq<VoxelEntry>, r: int) -> int
    decreases s.len(),
{
    if s.len() == 0 {
        0
    } else {
        region_transcripts(s.drop_last(), r) + if s.last().region == r {
            s.last().transcripts as int
        } else {
            0int
        }
    }
}

/// The sum of one coordinate (chosen by `axis`: 0 is `i`, 1 is `j`, other is
/// `k`) over the entries of `s` assigned to region `r`.
pub open spec fn region_coord_sum(s: Seq<VoxelEntry>, r: int, axis: int) -> int
    decreases s.len(),
{
    if s.len() == 0 {
        0
    } else {
        region_coord_sum(s.drop_last(), r, axis) + if s.last().region == r {
            if axis == 0 {
                s.last().vox.i as int
            } else if axis == 1 {
                s.last().vox.j as int
            } else {
                s.last().vox.k as int
            }
        } else {
            0int
        }
    }
}

/// The aggregates of region `r` are the exact sums over the entries of `s`.
pub open spec fn stats_exact_for(s: Seq<VoxelEntry>, r: int, st: RegionStats) -> bool {
    &&& st.voxel_count as int == region_voxels(s, r)
    &&& st.transcript_count as int == region_transcripts(s, r)
    &&& st.sum_i as int == region_coord_sum(s, r, 0)
    &&& st.sum_j as int == region_coord_sum(s, r, 1)
    &&& st.sum_k as int == region_coord_sum(s, r, 2)
}

/// Bounds on the exact sums, from the length of the entry sequence.
pub proof fn lemma_region_sum_bounds(s: Seq<VoxelEntry>, r: int)
    requires
        forall|t: int| 0 <= t < s.len() ==> coord_ok((#[trigger] s[t]).vox),
    ensures
        0 <= region_voxels(s, r) <= s.len(),
        0 <= region_transcripts(s, r) <= s.len() * (u32::MAX as int),
        -(s.len() * (crate::geom::MAX_COORD as int)) <= region_coord_sum(s, r, 0) <= s.len() * (
        crate::geom::MAX_COORD as int),
        -(s.len() * (crate::geom::MAX_COORD as int)) <= region_coord_sum(s, r, 1) <= s.len() * (
        crate::geom::MAX_COORD as int),
        -(s.len() * (crate::geom::MAX_COORD as int)) <= region_coord_sum(s, r, 2) <= s.len() * (
        crate::geom::MAX_COORD as int),
    decreases s.len(),
{
    if s.len() > 0 {
        assert forall|t: int| 0 <= t < s.drop_last().len() implies coord_ok(
            (#[trigger] s.drop_last()[t]).vox,
        ) by {
            assert(s.drop_last()[t] == s[t]);
        }
        lemma_region_sum_bounds(s.drop_last(), r);
        assert(coord_ok(s[s.len() - 1].vox));
        assert((s.len() - 1) * (u32::MAX as int) + (u32::MAX as int) == s.len() * (
        u32::MAX as int)) by (nonlinear_arith);
        assert((s.len() - 1) * (crate::geom::MAX_COORD as int) + (crate::geom::MAX_COORD as int)
            == s.len() * (crate::geom::MAX_COORD as int)) by (nonlinear_arith);
    }
}

/// The contribution of one entry never exceeds its region's exact sums.
pub proof fn lemma_region_member_bounds(s: Seq<VoxelEntry>, t: int)
    requires
        0 <= t < s.len(),
        forall|t1: int, t2: int| 0 <= t1 < t2 < s.len() ==> (#[trigger] s[t1]).vox != (
        #[trigger] s[t2]).vox,
    ensures
        region_voxels(s, s[t].region as int) >= 1,
        region_transcripts(s, s[t].region as int) >= s[t].transcripts as int,
    decreases s.len(),
{
    let r = s[t].region as int;
    if t == s.len() - 1 {
        lemma_region_bounds_weak(s.drop_last(), r);
    } else {
        lemma_region_member_bounds(s.drop_last(), t);
        assert(s.drop_last()[t] == s[t]);
        if s.last().region == r {
            lemma_region_bounds_weak(s.drop_last(), r);
        }
    }
}

proof fn lemma_region_bounds_weak(s: Seq<VoxelEntry>, r: int)
    ensures
        region_voxels(s, r) >= 0,
        region_transcripts(s, r) >= 0,
    decreases s.len(),
{
    if s.len() > 0 {
        lemma_region_bounds_weak(s.drop_last(), r);
    }
}

/// How the exact sums change when entry `t` of `s` is replaced by `e`.
pub proof fn lemma_region_sum_update(s: Seq<VoxelEntry>, t: int, e: VoxelEntry, r: int, axis: int)
    requires
        0 <= t < s.len(),
    ensures
        region_voxels(s.update(t, e), r) == region_voxels(s, r) - (if s[t].region == r {
            1int
        } else {
            0int
        }) + (if e.region == r {
            1int
        } else {
            0int
        }),
        region_transcripts(s.update(t, e), r) == region_transcripts(s, r) - (if s[t].region == r {
            s[t].transcripts as int
        } else {
            0int
        }) + (if e.region == r {
            e.transcripts as int
        } else {
            0int
        }),
        region_coord_sum(s.update(t, e), r, axis) == region_coord_sum(s, r, axis) - (if s[t].region
            == r {
            if axis == 0 {
                s[t].vox.i as int
            } else if axis == 1 {
                s[t].vox.j as int
            } else {
                s[t].vox.k as int
            }
        } else {
            0int
        }) + (if e.region == r {
            if axis == 0 {
                e.vox.i as int
            } else if axis == 1 {
                e.vox.j as int
            } else {
                e.vox.k as int
            }
        } else {
            0int
        }),
    decreases s.len(),
{
    let su = s.update(t, e);
    if t == s.len() - 1 {
        assert(su.drop_last() =~= s.drop_last());
        assert(su.last() == e);
    } else {
        assert(su.drop_last() =~= s.drop_last().update(t, e));
        assert(su.last() == s.last());
        lemma_region_sum_update(s.drop_last(), t, e, r, axis);
    }
}

/// The index of the entry holding voxel `v`.
pub open spec fn entry_index_of(s: Seq<VoxelEntry>, v: Voxel) -> int {
    choose|t: int| 0 <= t < s.len() && (#[trigger] s[t]).vox == v
}

/// Some entry of `s` holds voxel `v`.
pub open spec fn entry_exists(s: Seq<VoxelEntry>, v: Voxel) -> bool {
    exists|t: int| 0 <= t < s.len() && (#[trigger] s[t]).vox == v
}

/// The total mapping from occupied voxel to region identifier.
pub open spec fn assignment_of(s: Seq<VoxelEntry>) -> Map<Voxel, u32> {
    Map::new(|v: Voxel| entry_exists(s, v), |v: Voxel| s[entry_index_of(s, v)].region)
}

/// The regions of the occupied voxels adjacent to `v`, scanning directions
/// `d` to 7 in order.
pub open spec fn neighbor_regions_seq(m: Map<Voxel, u32>, v: Voxel, d: int) -> Seq<u32>
    decreases 8 - d,
{
    if d < 0 || d >= 8 {
        Seq::empty()
    } else {
        (if m.dom().contains(adjacent_nth(v, d)) {
            seq![m[adjacent_nth(v, d)]]
        } else {
            Seq::empty()
        }) + neighbor_regions_seq(m, v, d + 1)
    }
}

/// The sum of the four per-child transcript counts of one parent voxel.
pub open spec fn quad_sum(q: (u32, u32, u32, u32)) -> int {
    q.0 + q.1 + q.2 + q.3
}

/// The `n`-th component of a per-child transcript split.
pub open spec fn quad_nth(q: (u32, u32, u32, u32), n: int) -> u32 {
    if n == 0 {
        q.0
    } else if n == 1 {
        q.1
    } else if n == 2 {
        q.2
    } else {
        q.3
    }
}

/// How the exact sums change when an entry is appended.
pub proof fn lemma_region_sums_push(s: Seq<VoxelEntry>, e: VoxelEntry, r: int)
    ensures
        region_voxels(s.push(e), r) == region_voxels(s, r) + (if e.region == r {
            1int
        } else {
            0int
        }),
        region_transcripts(s.push(e), r) == region_transcripts(s, r) + (if e.region == r {
            e.transcripts as int
        } else {
            0int
        }),
{
    assert(s.push(e).drop_last() =~= s);
    assert(s.push(e).last() == e);
}

/// Properties of a subdivided entry sequence: children are distinct and in
/// range, and the child assignment is the parent assignment pulled back
/// through `parent_of`.
proof fn lemma_fine_props(s0: Seq<VoxelEntry>, fs: Seq<VoxelEntry>, ncells: int)
    requires
        fs.len() == 4 * s0.len(),
        forall|x: int|
            0 <= x < s0.len() ==> ((#[trigger] s0[x]).region == BACKGROUND_CELL || (
            s0[x].region as int) < ncells),
        forall|t1: int, t2: int|
            0 <= t1 < t2 < s0.len() ==> (#[trigger] s0[t1]).vox != (#[trigger] s0[t2]).vox,
        forall|x: int| 0 <= x < s0.len() ==> crate::geom::subdividable((#[trigger] s0[x]).vox),
        forall|x: int, q: int|
            0 <= x < s0.len() && 0 <= q < 4 ==> (#[trigger] fs[4 * x + q]).vox
                == crate::geom::children_of(s0[x].vox)[q] && fs[4 * x + q].region == s0[x].region,
    ensures
        forall|x1: int, x2: int|
            0 <= x1 < x2 < fs.len() ==> (#[trigger] fs[x1]).vox != (#[trigger] fs[x2]).vox,
        forall|x: int| 0 <= x < fs.len() ==> coord_ok((#[trigger] fs[x]).vox),
        forall|x: int|
            0 <= x < fs.len() ==> ((#[trigger] fs[x]).region == BACKGROUND_CELL || (
            fs[x].region as int) < ncells),
        forall|cv: Voxel|
            coord_ok(cv) ==> (#[trigger] entry_exists(fs, cv) <==> entry_exists(
                s0,
                crate::geom::parent_of(cv),
            )),
        forall|cv: Voxel|
            coord_ok(cv) && #[trigger] entry_exists(fs, cv) ==> assignment_of(fs)[cv]
                == assignment_of(s0)[crate::geom::parent_of(cv)],
{
    let n = s0.len() as int;
    assert forall|x1: int, x2: int|
        0 <= x1 < x2 < fs.len() implies (#[trigger] fs[x1]).vox != (#[trigger] fs[x2]).vox by {
        let a1 = x1 / 4;
        let q1 = x1 % 4;
        let a2 = x2 / 4;
        let q2 = x2 % 4;
        assert(x1 == 4 * a1 + q1 && 0 <= q1 < 4 && 0 <= a1 < n);
        assert(x2 == 4 * a2 + q2 && 0 <= q2 < 4 && 0 <= a2 < n);
        assert(fs[4 * a1 + q1].vox == crate::geom::children_of(s0[a1].vox)[q1]);
        assert(fs[4 * a2 + q2].vox == crate::geom::children_of(s0[a2].vox)[q2]);
        crate::geom::lemma_children_tile(s0[a1].vox);
        crate::geom::lemma_children_tile(s0[a2].vox);
        if a1 == a2 {
            assert(q1 != q2);
        } else {
            assert(s0[a1].vox != s0[a2].vox);
            assert(crate::geom::parent_of(fs[x1].vox) == s0[a1].vox);
            assert(crate::geom::parent_of(fs[x2].vox) == s0[a2].vox);
        }
    }
    assert forall|x: int| 0 <= x < fs.len() implies coord_ok((#[trigger] fs[x]).vox) by {
        let a = x / 4;
        let q = x % 4;
        assert(x == 4 * a + q && 0 <= q < 4 && 0 <= a < n);
        assert(fs[4 * a + q].vox == crate::geom::children_of(s0[a].vox)[q]);
        crate::geom::lemma_children_tile(s0[a].vox);
    }
    assert forall|x: int|
        0 <= x < fs.len() implies ((#[trigger] fs[x]).region == BACKGROUND_CELL || (
    fs[x].region as int) < ncells) by {
        let a = x / 4;
        let q = x % 4;
        assert(x == 4 * a + q && 0 <= q < 4 && 0 <= a < s0.len());
        assert(fs[4 * a + q].region == s0[a].region);
    }
    assert forall|cv: Voxel|
        coord_ok(cv) implies (#[trigger] entry_exists(fs, cv) <==> entry_exists(
        s0,
        crate::geom::parent_of(cv),
    )) by {
        if entry_exists(fs, cv) {
            let x = choose|x: int| 0 <= x < fs.len() && (#[trigger] fs[x]).vox == cv;
            let a = x / 4;
            let q = x % 4;
            assert(x == 4 * a + q && 0 <= q < 4 && 0 <= a < n);
            assert(fs[4 * a + q].vox == crate::geom::children_of(s0[a].vox)[q]);
            crate::geom::lemma_children_tile(s0[a].vox);
            assert(crate::geom::parent_of(cv) == s0[a].vox);
            assert(entry_exists(s0, crate::geom::parent_of(cv)));
        }
        if entry_exists(s0, crate::geom::parent_of(cv)) {
            let a = choose|a: int|
                0 <= a < s0.len() && (#[trigger] s0[a]).vox == crate::geom::parent_of(cv);
            crate::geom::lemma_children_tile(s0[a].vox);
            assert(crate::geom::children_of(s0[a].vox).contains(cv));
            let q = choose|q: int| 0 <= q < 4 && crate::geom::children_of(s0[a].vox)[q] == cv;
            assert(fs[4 * a + q].vox == cv);
            assert(entry_exists(fs, cv));
        }
    }
    assert forall|cv: Voxel|
        coord_ok(cv) && #[trigger] entry_exists(fs, cv) implies assignment_of(fs)[cv]
        == assignment_of(s0)[crate::geom::parent_of(cv)] by {
        let x = entry_index_of(fs, cv);
        assert(0 <= x < fs.len() && fs[x].vox == cv);
        let a = x / 4;
        let q = x % 4;
        assert(x == 4 * a + q && 0 <= q < 4 && 0 <= a < n);
        crate::geom::lemma_children_tile(s0[a].vox);
        assert(crate::geom::parent_of(cv) == s0[a].vox);
        assert(entry_exists(s0, crate::geom::parent_of(cv)));
        let aj = entry_index_of(s0, crate::geom::parent_of(cv));
        assert(0 <= aj < s0.len() && s0[aj].vox == crate::geom::parent_of(cv));
        if aj != a {
            assert(s0[aj].vox == s0[a].vox);
            assert(false);
        }
        assert(assignment_of(fs)[cv] == fs[x].region);
        assert(fs[4 * a + q].region == s0[a].region);
    }
}

/// Subdivides every entry into its four children, splitting transcripts as
/// `child_transcripts` says; region totals are preserved and counts
/// quadruple.
fn subdivide_entries(entries: &Vec<VoxelEntry>, child_transcripts: &Vec<(u32, u32, u32, u32)>) -> (r:
    Vec<VoxelEntry>)
    requires
        child_transcripts@.len() == entries@.len(),
        forall|t: int|
            0 <= t < entries@.len() ==> quad_sum(#[trigger] child_transcripts@[t])
                == entries@[t].transcripts as int,
        forall|t: int|
            0 <= t < entries@.len() ==> crate::geom::subdividable((#[trigger] entries@[t]).vox),
    ensures
        r@.len() == 4 * entries@.len(),
        forall|x: int, q: int|
            0 <= x < entries@.len() && 0 <= q < 4 ==> (#[trigger] r@[4 * x + q]).vox
                == crate::geom::children_of(entries@[x].vox)[q] && r@[4 * x + q].region
                == entries@[x].region && r@[4 * x + q].transcripts == quad_nth(
                child_transcripts@[x],
                q,
            ),
        forall|reg: int|
            region_transcripts(r@, #[trigger] (reg + 0)) == region_transcripts(entries@, reg)
                && region_voxels(r@, reg) == 4 * region_voxels(entries@, reg),
{
    let ghost s0 = entries@;
    let n = entries.len();
    let mut fine: Vec<VoxelEntry> = Vec::new();
    let mut t: usize = 0;
    while t < n
        invariant
            s0 == entries@,
            n == s0.len(),
            child_transcripts@.len() == n,
            forall|x: int|
                0 <= x < n ==> quad_sum(#[trigger] child_transcripts@[x]) == s0[x].transcripts as int,
            forall|x: int| 0 <= x < n ==> crate::geom::subdividable((#[trigger] s0[x]).vox),
            t <= n,
            fine@.len() == 4 * t,
            forall|x: int, q: int|
                0 <= x < t && 0 <= q < 4 ==> (#[trigger] fine@[4 * x + q]).vox
                    == crate::geom::children_of(s0[x].vox)[q] && fine@[4 * x + q].region
                    == s0[x].region && fine@[4 * x + q].transcripts == quad_nth(
                    child_transcripts@[x],
                    q,
                ),
            forall|reg: int|
                region_transcripts(fine@, #[trigger] (reg + 0)) == region_transcripts(
                    s0.subrange(0, t as int),
                    reg,
                ) && region_voxels(fine@, reg) == 4 * region_voxels(s0.subrange(0, t as int), reg),
        decreases n - t,
    {
        let e = entries[t];
        let q = child_transcripts[t];
        let kids = crate::geom::children(e.vox);
        let ghost f0 = fine@;
        let c0 = VoxelEntry { vox: kids[0], region: e.region, transcripts: q.0 };
        let c1 = VoxelEntry { vox: kids[1], region: e.region, transcripts: q.1 };
        let c2 = VoxelEntry { vox: kids[2], region: e.region, transcripts: q.2 };
        let c3 = VoxelEntry { vox: kids[3], region: e.region, transcripts: q.3 };
        fine.push(c0);
        fine.push(c1);
        fine.push(c2);
        fine.push(c3);
        proof {
            let f1 = f0.push(c0);
            let f2 = f1.push(c1);
            let f3 = f2.push(c2);
            let f4 = f3.push(c3);
            assert(fine@ =~= f4);
            assert forall|x: int, qq: int|
                0 <= x < t + 1 && 0 <= qq < 4 implies (#[trigger] fine@[4 * x + qq]).vox
                == crate::geom::children_of(s0[x].vox)[qq] && fine@[4 * x + qq].region
                == s0[x].region && fine@[4 * x + qq].transcripts == quad_nth(
                child_transcripts@[x],
                qq,
            ) by {
                if x < t {
                    assert(fine@[4 * x + qq] == f0[4 * x + qq]);
                } else {
                    assert(4 * x + qq == 4 * t + qq);
                    if qq == 0 {
                        assert(fine@[4 * t + 0] == c0);
                    } else if qq == 1 {
                        assert(fine@[4 * t + 1] == c1);
                    } else if qq == 2 {
                        assert(fine@[4 * t + 2] == c2);
                    } else {
                        assert(fine@[4 * t + 3] == c3);
                    }
                }
            }
            assert forall|reg: int|
                region_transcripts(fine@, #[trigger] (reg + 0)) == region_transcripts(
                s0.subrange(0, t + 1),
                reg,
            ) && region_voxels(fine@, reg) == 4 * region_voxels(s0.subrange(0, t + 1), reg) by {
                lemma_region_sums_push(f0, c0, reg);
                lemma_region_sums_push(f1, c1, reg);
                lemma_region_sums_push(f2, c2, reg);
                lemma_region_sums_push(f3, c3, reg);
                assert(s0.subrange(0, t + 1) =~= s0.subrange(0, t as int).push(s0[t as int]));
                lemma_region_sums_push(s0.subrange(0, t as int), s0[t as int], reg);
            }
        }
        t += 1;
    }
    proof {
        assert(s0.subrange(0, n as int) =~= s0);
    }
    fine
}

/// Recomputes every region's aggregates from an entry sequence.
fn recompute_stats(entries: &Vec<VoxelEntry>, ncells: usize) -> (r: Vec<RegionStats>)
    requires
        entries@.len() < u32::MAX as int,
        (ncells as int) < u32::MAX as int,
        forall|x: int| 0 <= x < entries@.len() ==> coord_ok((#[trigger] entries@[x]).vox),
        forall|x: int|
            0 <= x < entries@.len() ==> ((#[trigger] entries@[x]).region == BACKGROUND_CELL || (
            entries@[x].region as int) < ncells as int),
    ensures
        r@.len() == ncells,
        forall|reg: int|
            0 <= reg < ncells ==> stats_exact_for(entries@, reg, #[trigger] r@[reg]),
{
    let ghost fs = entries@;
    let zero = RegionStats { voxel_count: 0, transcript_count: 0, sum_i: 0, sum_j: 0, sum_k: 0 };
    let mut stats: Vec<RegionStats> = Vec::new();
    let mut c: usize = 0;
    while c < ncells
        invariant
            stats@.len() == c,
            c <= ncells,
            forall|r2: int| 0 <= r2 < c ==> #[trigger] stats@[r2] == zero,
            zero == (RegionStats {
                voxel_count: 0,
                transcript_count: 0,
                sum_i: 0,
                sum_j: 0,
                sum_k: 0,
            }),
        decreases ncells - c,
    {
        stats.push(zero);
        c += 1;
    }
    let fn_n = entries.len();
    let mut t2: usize = 0;
    proof {
        assert forall|r2: int|
            0 <= r2 < ncells implies stats_exact_for(
            fs.subrange(0, 0),
            r2,
            #[trigger] stats@[r2],
        ) by {
            assert(fs.subrange(0, 0) =~= Seq::<VoxelEntry>::empty());
        }
    }
    while t2 < fn_n
        invariant
            fs == entries@,
            fn_n == fs.len(),
            fn_n < u32::MAX as int,
            ncells == stats@.len(),
            (ncells as int) < u32::MAX as int,
            forall|x: int| 0 <= x < fs.len() ==> coord_ok((#[trigger] fs[x]).vox),
            forall|x: int|
                0 <= x < fs.len() ==> ((#[trigger] fs[x]).region == BACKGROUND_CELL || (
                fs[x].region as int) < ncells as int),
            t2 <= fn_n,
            forall|r2: int|
                0 <= r2 < ncells ==> stats_exact_for(
                    fs.subrange(0, t2 as int),
                    r2,
                    #[trigger] stats@[r2],
                ),
        decreases fn_n - t2,
    {
        let e = entries[t2];
        let ghost pre = fs.subrange(0, t2 as int);
        proof {
            assert(fs.subrange(0, t2 + 1).drop_last() =~= pre);
            assert(fs.subrange(0, t2 + 1).last() == e);
            assert forall|x: int| 0 <= x < pre.len() implies coord_ok((#[trigger] pre[x]).vox) by {
                assert(pre[x] == fs[x]);
            }
            lemma_region_sum_bounds(pre, e.region as int);
            assert(pre.len() * (u32::MAX as int) + (u32::MAX as int) <= (u32::MAX as int) * (
            u32::MAX as int)) by (nonlinear_arith)
                requires
                    pre.len() + 1 <= u32::MAX as int,
            ;
            assert(pre.len() * (crate::geom::MAX_COORD as int) + (crate::geom::MAX_COORD as int)
                <= (u32::MAX as int) * (crate::geom::MAX_COORD as int)) by (nonlinear_arith)
                requires
                    pre.len() + 1 <= u32::MAX as int,
            ;
        }
        if e.region != BACKGROUND_CELL {
            let st = stats[e.region as usize];
            let nst = RegionStats {
                voxel_count: st.voxel_count + 1,
                transcript_count: st.transcript_count + e.transcripts as u64,
                sum_i: st.sum_i + e.vox.i as i64,
                sum_j: st.sum_j + e.vox.j as i64,
                sum_k: st.sum_k + e.vox.k as i64,
            };
            stats.set(e.region as usize, nst);
        }
        proof {
            assert forall|r2: int|
                0 <= r2 < ncells implies stats_exact_for(
                fs.subrange(0, t2 + 1),
                r2,
                #[trigger] stats@[r2],
            ) by {
                assert(fs.subrange(0, t2 + 1).drop_last() =~= pre);
            }
        }
        t2 += 1;
    }
    proof {
        assert(fs.subrange(0, fn_n as int) =~= fs);
    }
    stats
}

/// Voxel `v` is a member of region `reg` in the entry sequence `s`.
pub open spec fn member_of(s: Seq<VoxelEntry>, v: Voxel, reg: int) -> bool {
    exists|t: int| 0 <= t < s.len() && (#[trigger] s[t]).vox == v && s[t].region == reg
}

/// Voxel `v` is a member of region `reg` among the first `bound` entries.
pub open spec fn member_src(s: Seq<VoxelEntry>, bound: int, v: Voxel, reg: int) -> bool {
    exists|t: int| 0 <= t < bound && t < s.len() && (#[trigger] s[t]).vox == v && s[t].region == reg
}
/// The adjacency edges between members of region `reg`.
pub open spec fn region_edge_set(s: Seq<VoxelEntry>, reg: int) -> Set<(Voxel, Voxel)> {
    Set::new(
        |pr: (Voxel, Voxel)| member_of(s, pr.0, reg) && member_of(s, pr.1, reg) && adjacent(
            pr.0,
            pr.1,
        ),
    )
}

/// Region `reg` forms a single connected component under planar + layer
/// adjacency (an empty or extinct region counts as connected).
pub open spec fn region_connected(s: Seq<VoxelEntry>, reg: int) -> bool {
    forall|a: Voxel, b: Voxel|
        #[trigger] member_of(s, a, reg) && #[trigger] member_of(s, b, reg)
            ==> crate::reach::reaches(region_edge_set(s, reg), a, b)
}

/// The assignment of every voxel to a cell region, with per-region
/// aggregates maintained incrementally.
pub struct PartitionState {
    entries: Vec<VoxelEntry>,
    stats: Vec<RegionStats>,
    resolution: u32,
}

impl PartitionState {
    /// The occupied voxels, in insertion order.
    pub closed spec fn entries_seq(&self) -> Seq<VoxelEntry> {
        self.entries@
    }

    /// The voxel-to-region assignment this state represents.
    pub open spec fn assignment(&self) -> Map<Voxel, u32> {
        assignment_of(self.entries_seq())
    }

    /// The number of cell regions (the background is not a region).
    pub closed spec fn num_regions(&self) -> int {
        self.stats@.len() as int
    }

    /// The current resolution level.
    pub closed spec fn resolution_level(&self) -> int {
        self.resolution as int
    }

    /// The aggregates stored for region `r`.
    pub closed spec fn stats_of(&self, r: int) -> RegionStats {
        self.stats@[r]
    }

    /// A valid region label: a cell region index or the background.
    pub open spec fn region_label_ok(&self, r: u32) -> bool {
        r == BACKGROUND_CELL || (r as int) < self.num_regions()
    }

    /// Structural well-formedness: occupied voxels are distinct and in
    /// range, region labels are valid, and the state stays countable.
    pub closed spec fn entries_ok(&self) -> bool {
        &&& forall|t1: int, t2: int|
            0 <= t1 < t2 < self.entries@.len() ==> (#[trigger] self.entries@[t1]).vox != (
            #[trigger] self.entries@[t2]).vox
        &&& forall|t: int| 0 <= t < self.entries@.len() ==> coord_ok((#[trigger] self.entries@[t]).vox)
        &&& forall|t: int|
            0 <= t < self.entries@.len() ==> self.region_label_ok(
                (#[trigger] self.entries@[t]).region,
            )
        &&& self.entries@.len() < u32::MAX as int
        &&& (self.num_regions()) < u32::MAX as int
    }

    /// Every region's stored aggregates are the exact sums over its current
    /// members.
    pub closed spec fn aggregates_exact(&self) -> bool {
        forall|r: int|
            0 <= r < self.num_regions() ==> stats_exact_for(
                self.entries@,
                r,
                #[trigger] self.stats@[r],
            )
    }

    /// Well-formedness: the structural invariant together with exact
    /// aggregates.
    pub open spec fn wf(&self) -> bool {
        self.entries_ok() && self.aggregates_exact()
    }

    /// A fresh state with `ncells` empty regions and no occupied voxel.
    pub fn new(ncells: u32) -> (r: PartitionState)
        requires
            ncells < u32::MAX,
        ensures
            r.wf(),
            r.assignment() == Map::<Voxel, u32>::empty(),
            r.entries_seq().len() == 0,
            r.num_regions() == ncells as int,
            r.resolution_level() == 0,
    {
        let mut stats: Vec<RegionStats> = Vec::new();
        let zero = RegionStats { voxel_count: 0, transcript_count: 0, sum_i: 0, sum_j: 0, sum_k: 0 };
        let mut c: usize = 0;
        while c < ncells as usize
            invariant
                stats@.len() == c,
                c <= ncells as usize,
                forall|r: int| 0 <= r < c ==> #[trigger] stats@[r] == zero,
                zero == (RegionStats { voxel_count: 0, transcript_count: 0, sum_i: 0, sum_j: 0, sum_k: 0 }),
            decreases ncells as usize - c,
        {
            stats.push(zero);
            c += 1;
        }
        let r = PartitionState { entries: Vec::new(), stats, resolution: 0 };
        proof {
            assert(r.assignment() =~= Map::<Voxel, u32>::empty());
        }
        r
    }

    /// Under well-formedness the entry sequence holds each occupied voxel
    /// once, with admissible coordinates and a valid region label.
    pub proof fn lemma_entries_ok(&self)
        requires
            self.wf(),
        ensures
            forall|t1: int, t2: int|
                0 <= t1 < t2 < self.entries_seq().len() ==> (#[trigger] self.entries_seq()[t1]).vox
                    != (#[trigger] self.entries_seq()[t2]).vox,
            forall|t: int|
                0 <= t < self.entries_seq().len() ==> coord_ok(
                    (#[trigger] self.entries_seq()[t]).vox,
                ) && self.region_label_ok(self.entries_seq()[t].region),
            self.entries_seq().len() < u32::MAX as int,
    {
    }

    /// Every occupied voxel of a well-formed state has admissible
    /// coordinates.
    pub proof fn lemma_dom_coord_ok(&self)
        requires
            self.wf(),
        ensures
            forall|v: Voxel| #[trigger] self.assignment().dom().contains(v) ==> coord_ok(v),
    {
        assert forall|v: Voxel| #[trigger] self.assignment().dom().contains(v) implies coord_ok(
            v,
        ) by {
            let t = choose|t: int|
                0 <= t < self.entries@.len() && (#[trigger] self.entries@[t]).vox == v;
            assert(coord_ok(self.entries@[t].vox));
        }
    }

    /// The region an occupied voxel is assigned to is a valid label.
    pub proof fn lemma_assigned_label_ok(&self, v: Voxel)
        requires
            self.wf(),
            self.assignment().dom().contains(v),
        ensures
            self.region_label_ok(self.assignment()[v]),
    {
        let t = entry_index_of(self.entries@, v);
        assert(0 <= t < self.entries@.len() && self.entries@[t].vox == v);
        assert(self.region_label_ok(self.entries@[t].region));
    }

    /// The region of voxel `v`, or `None` when `v` is unoccupied.
    pub fn region_of(&self, v: &Voxel) -> (r: Option<u32>)
        requires
            self.wf(),
        ensures
            match r {
                Some(c) => self.assignment().dom().contains(*v) && c == self.assignment()[*v],
                None => !self.assignment().dom().contains(*v),
            },
    {
        let mut t: usize = 0;
        while t < self.entries.len()
            invariant
                self.wf(),
                t <= self.entries@.len(),
                forall|s: int| 0 <= s < t ==> (#[trigger] self.entries@[s]).vox != *v,
            decreases self.entries@.len() - t,
        {
            let e = self.entries[t];
            if e.vox == *v {
                proof {
                    assert(entry_exists(self.entries@, *v));
                    let ti = entry_index_of(self.entries@, *v);
                    if ti != t as int {
                        assert(self.entries@[ti].vox == *v && self.entries@[t as int].vox == *v);
                        assert(false);
                    }
                }
                return Some(e.region);
            }
            t += 1;
        }
        proof {
            if entry_exists(self.entries@, *v) {
                let ti = choose|ti: int|
                    0 <= ti < self.entries@.len() && (#[trigger] self.entries@[ti]).vox == *v;
                assert(false);
            }
        }
        None
    }

    /// Occupies voxel `v` with `transcripts` transcripts, assigned to
    /// `region`.  Used when seeding the initial state.
    pub fn seed_voxel(&mut self, v: Voxel, region: u32, transcripts: u32)
        requires
            old(self).wf(),
            coord_ok(v),
            !old(self).assignment().dom().contains(v),
            old(self).region_label_ok(region),
            old(self).entries_seq().len() + 1 < u32::MAX as int,
        ensures
            final(self).wf(),
            final(self).assignment() == old(self).assignment().insert(v, region),
            final(self).entries_seq() == old(self).entries_seq().push(
                VoxelEntry { vox: v, region, transcripts },
            ),
            final(self).num_regions() == old(self).num_regions(),
            final(self).resolution_level() == old(self).resolution_level(),
    {
        let ghost s0 = self.entries@;
        let e = VoxelEntry { vox: v, region, transcripts };
        proof {
            if entry_exists(s0, v) {
                let t = choose|t: int| 0 <= t < s0.len() && (#[trigger] s0[t]).vox == v;
                assert(s0[t].vox == v);
                assert(assignment_of(s0).dom().contains(v));
            }
        }
        self.entries.push(e);
        proof {
            assert(self.entries@.drop_last() =~= s0);
            assert(self.entries@.last() == e);
        }
        if region != BACKGROUND_CELL {
            let st = self.stats[region as usize];
            proof {
                lemma_region_sum_bounds(s0, region as int);
                assert((s0.len() + 1) * (u32::MAX as int) <= (u32::MAX as int) * (
                u32::MAX as int)) by (nonlinear_arith)
                    requires
                        s0.len() + 1 <= u32::MAX as int,
                ;
                assert(s0.len() * (u32::MAX as int) + (u32::MAX as int) == (s0.len() + 1) * (
                u32::MAX as int)) by (nonlinear_arith);
                assert((s0.len() + 1) * (crate::geom::MAX_COORD as int) <= (u32::MAX as int) * (
                crate::geom::MAX_COORD as int)) by (nonlinear_arith)
                    requires
                        s0.len() + 1 <= u32::MAX as int,
                ;
                assert(s0.len() * (crate::geom::MAX_COORD as int) + (crate::geom::MAX_COORD as int)
                    == (s0.len() + 1) * (crate::geom::MAX_COORD as int)) by (nonlinear_arith);
            }
            let nst = RegionStats {
                voxel_count: st.voxel_count + 1,
                transcript_count: st.transcript_count + transcripts as u64,
                sum_i: st.sum_i + v.i as i64,
                sum_j: st.sum_j + v.j as i64,
                sum_k: st.sum_k + v.k as i64,
            };
            self.stats.set(region as usize, nst);
        }
        proof {
            assert forall|r: int|
                0 <= r < self.num_regions() implies stats_exact_for(
                self.entries@,
                r,
                #[trigger] self.stats@[r],
            ) by {
                assert(region_voxels(self.entries@, r) == region_voxels(s0, r) + if e.region == r {
                    1int
                } else {
                    0int
                });
            }
            assert forall|t1: int, t2: int|
                0 <= t1 < t2 < self.entries@.len() implies (#[trigger] self.entries@[t1]).vox != (
            #[trigger] self.entries@[t2]).vox by {
                if t2 == self.entries@.len() - 1 {
                    if s0[t1].vox == v {
                        assert(entry_exists(s0, v));
                        assert(assignment_of(s0).dom().contains(v));
                    }
                }
            }
            assert forall|u: Voxel|
                self.assignment().dom().contains(u) <==> old(self).assignment().insert(
                v,
                region,
            ).dom().contains(u) by {
                if u == v {
                    assert(self.entries@[self.entries@.len() - 1].vox == v);
                    assert(entry_exists(self.entries@, v));
                } else {
                    if entry_exists(s0, u) {
                        let t = choose|t: int| 0 <= t < s0.len() && (#[trigger] s0[t]).vox == u;
                        assert(self.entries@[t].vox == u);
                        assert(entry_exists(self.entries@, u));
                    }
                    if entry_exists(self.entries@, u) {
                        let t = choose|t: int|
                            0 <= t < self.entries@.len() && (#[trigger] self.entries@[t]).vox == u;
                        assert(t < s0.len() && s0[t].vox == u);
                        assert(entry_exists(s0, u));
                    }
                }
            }
            assert forall|u: Voxel| #[trigger]
                self.assignment().dom().contains(u) implies self.assignment()[u] == old(
                self,
            ).assignment().insert(v, region)[u] by {
                let ti = entry_index_of(self.entries@, u);
                assert(0 <= ti < self.entries@.len() && self.entries@[ti].vox == u);
                if u == v {
                    if ti != self.entries@.len() - 1 {
                        assert(s0[ti].vox == v);
                        assert(entry_exists(s0, v));
                        assert(assignment_of(s0).dom().contains(v));
                        assert(false);
                    }
                    assert(self.assignment()[u] == region);
                } else {
                    assert(ti < s0.len());
                    let tj = entry_index_of(s0, u);
                    assert(entry_exists(s0, u));
                    assert(0 <= tj < s0.len() && s0[tj].vox == u);
                    if ti != tj {
                        assert(self.entries@[ti].vox == self.entries@[tj].vox);
                        assert(false);
                    }
                }
            }
            assert(self.assignment() =~= old(self).assignment().insert(v, region));
        }
    }

    /// Reassigns voxel `v` to `region`, updating both regions' aggregates,
    /// and returns the previous region.
    pub fn assign(&mut self, v: &Voxel, region: u32) -> (prev: u32)
        requires
            old(self).wf(),
            old(self).assignment().dom().contains(*v),
            old(self).region_label_ok(region),
        ensures
            final(self).wf(),
            final(self).assignment() == old(self).assignment().insert(*v, region),
            prev == old(self).assignment()[*v],
            final(self).num_regions() == old(self).num_regions(),
            final(self).resolution_level() == old(self).resolution_level(),
            final(self).entries_seq().len() == old(self).entries_seq().len(),
    {
        let ghost s0 = self.entries@;
        let mut t: usize = 0;
        let n = self.entries.len();
        proof {
            assert(entry_exists(s0, *v));
        }
        while t < n
            invariant_except_break
                self == old(self),
                s0 == self.entries@,
                n == s0.len(),
                t <= n,
                forall|s: int| 0 <= s < t ==> (#[trigger] s0[s]).vox != *v,
            ensures
                self == old(self),
                s0 == self.entries@,
                n == s0.len(),
                (t < n && s0[t as int].vox == *v) || (t == n && forall|s: int|
                    0 <= s < n ==> (#[trigger] s0[s]).vox != *v),
            decreases n - t,
        {
            let e = self.entries[t];
            if e.vox == *v {
                break ;
            }
            t += 1;
        }
        proof {
            if t >= n {
                let ti = choose|ti: int| 0 <= ti < s0.len() && (#[trigger] s0[ti]).vox == *v;
                assert(false);
            }
        }
        let old_e = self.entries[t];
        let prev = old_e.region;
        proof {
            let ti = entry_index_of(s0, *v);
            if ti != t as int {
                assert(s0[ti].vox == *v && s0[t as int].vox == *v);
                assert(false);
            }
        }
        let new_e = VoxelEntry { vox: old_e.vox, region, transcripts: old_e.transcripts };
        self.entries.set(t, new_e);
        let ghost s1 = self.entries@;
        proof {
            assert(s1 == s0.update(t as int, new_e));
            lemma_region_sum_bounds(s0, prev as int);
            lemma_region_sum_bounds(s0, region as int);
            lemma_region_member_bounds(s0, t as int);
            assert(s0.len() * (u32::MAX as int) <= (u32::MAX as int) * (u32::MAX as int))
                by (nonlinear_arith)
                requires
                    s0.len() <= u32::MAX as int,
            ;
            assert(s0.len() * (crate::geom::MAX_COORD as int) <= (u32::MAX as int) * (
            crate::geom::MAX_COORD as int)) by (nonlinear_arith)
                requires
                    s0.len() <= u32::MAX as int,
            ;
        }
        if prev != BACKGROUND_CELL {
            let st = self.stats[prev as usize];
            proof {
                assert(stats_exact_for(s0, prev as int, st));
                assert(st.voxel_count as int >= 1);
                assert(st.transcript_count as int >= old_e.transcripts as int);
            }
            let nst = RegionStats {
                voxel_count: st.voxel_count - 1,
                transcript_count: st.transcript_count - old_e.transcripts as u64,
                sum_i: st.sum_i - old_e.vox.i as i64,
                sum_j: st.sum_j - old_e.vox.j as i64,
                sum_k: st.sum_k - old_e.vox.k as i64,
            };
            self.stats.set(prev as usize, nst);
        }
        if region != BACKGROUND_CELL {
            let st = self.stats[region as usize];
            proof {
                if region != prev {
                    assert(stats_exact_for(s0, region as int, st));
                } else {
                    assert(st.voxel_count as int == region_voxels(s0, region as int) - 1);
                }
            }
            let nst = RegionStats {
                voxel_count: st.voxel_count + 1,
                transcript_count: st.transcript_count + old_e.transcripts as u64,
                sum_i: st.sum_i + old_e.vox.i as i64,
                sum_j: st.sum_j + old_e.vox.j as i64,
                sum_k: st.sum_k + old_e.vox.k as i64,
            };
            self.stats.set(region as usize, nst);
        }
        proof {
            assert forall|r: int|
                0 <= r < self.num_regions() implies stats_exact_for(
                s1,
                r,
                #[trigger] self.stats@[r],
            ) by {
                lemma_region_sum_update(s0, t as int, new_e, r, 0);
                lemma_region_sum_update(s0, t as int, new_e, r, 1);
                lemma_region_sum_update(s0, t as int, new_e, r, 2);
            }
            assert forall|t1: int, t2: int|
                0 <= t1 < t2 < s1.len() implies (#[trigger] s1[t1]).vox != (#[trigger] s1[t2]).vox by {
                assert(s1[t1].vox == s0[t1].vox && s1[t2].vox == s0[t2].vox);
            }
            assert forall|tt: int| 0 <= tt < s1.len() implies coord_ok((#[trigger] s1[tt]).vox) by {
                assert(s1[tt].vox == s0[tt].vox);
            }
            assert forall|u: Voxel|
                self.assignment().dom().contains(u) <==> old(self).assignment().insert(
                *v,
                region,
            ).dom().contains(u) by {
                if entry_exists(s0, u) {
                    let ti = choose|ti: int| 0 <= ti < s0.len() && (#[trigger] s0[ti]).vox == u;
                    assert(s1[ti].vox == u);
                    assert(entry_exists(s1, u));
                }
                if entry_exists(s1, u) {
                    let ti = choose|ti: int| 0 <= ti < s1.len() && (#[trigger] s1[ti]).vox == u;
                    assert(s0[ti].vox == u);
                    assert(entry_exists(s0, u));
                }
            }
            assert forall|u: Voxel| #[trigger]
                self.assignment().dom().contains(u) implies self.assignment()[u] == old(
                self,
            ).assignment().insert(*v, region)[u] by {
                let ti = entry_index_of(s1, u);
                assert(0 <= ti < s1.len() && s1[ti].vox == u);
                if u == *v {
                    if ti != t as int {
                        assert(s1[ti].vox == s0[ti].vox);
                        assert(s0[ti].vox == *v && s0[t as int].vox == *v);
                        assert(false);
                    }
                    assert(self.assignment()[u] == region);
                } else {
                    assert(ti != t as int);
                    let tj = entry_index_of(s0, u);
                    assert(s0[ti].vox == u);
                    assert(entry_exists(s0, u));
                    assert(0 <= tj < s0.len() && s0[tj].vox == u);
                    if ti != tj {
                        assert(s0[ti].vox == s0[tj].vox);
                        assert(false);
                    }
                    assert(self.assignment()[u] == s0[tj].region);
                }
            }
            assert(self.assignment() =~= old(self).assignment().insert(*v, region));
        }
        prev
    }

    /// The stored aggregates of region `r`; under well-formedness they are
    /// the exact sums over the region's current members.
    pub fn aggregates(&self, r: u32) -> (st: RegionStats)
        requires
            (r as int) < self.num_regions(),
        ensures
            st == self.stats_of(r as int),
            self.wf() ==> stats_exact_for(self.entries_seq(), r as int, st),
    {
        self.stats[r as usize]
    }

    /// The number of cell regions.
    pub fn region_count(&self) -> (r: usize)
        ensures
            r as int == self.num_regions(),
    {
        self.stats.len()
    }

    /// The current resolution level.
    pub fn resolution(&self) -> (r: u32)
        ensures
            r as int == self.resolution_level(),
    {
        self.resolution
    }

    /// The number of occupied voxels.
    pub fn voxel_count(&self) -> (r: usize)
        ensures
            r as int == self.entries_seq().len(),
    {
        self.entries.len()
    }

    /// The entry at position `t`.
    pub fn entry_at(&self, t: usize) -> (e: VoxelEntry)
        requires
            (t as int) < self.entries_seq().len(),
        ensures
            e == self.entries_seq()[t as int],
    {
        self.entries[t]
    }

    /// Recomputes every region's aggregates from scratch and compares them
    /// with the incrementally maintained ones: the consistency audit.
    pub fn audit(&self) -> (r: bool)
        requires
            self.entries_ok(),
        ensures
            r == self.aggregates_exact(),
            self.wf() ==> r,
    {
        let ghost s0 = self.entries@;
        let ncells = self.stats.len();
        let zero = RegionStats { voxel_count: 0, transcript_count: 0, sum_i: 0, sum_j: 0, sum_k: 0 };
        let mut fresh: Vec<RegionStats> = Vec::new();
        let mut c: usize = 0;
        while c < ncells
            invariant
                fresh@.len() == c,
                c <= ncells,
                forall|r2: int| 0 <= r2 < c ==> #[trigger] fresh@[r2] == zero,
                zero == (RegionStats {
                    voxel_count: 0,
                    transcript_count: 0,
                    sum_i: 0,
                    sum_j: 0,
                    sum_k: 0,
                }),
            decreases ncells - c,
        {
            fresh.push(zero);
            c += 1;
        }
        let n = self.entries.len();
        let mut t: usize = 0;
        proof {
            assert forall|r2: int|
                0 <= r2 < ncells implies stats_exact_for(
                s0.subrange(0, 0),
                r2,
                #[trigger] fresh@[r2],
            ) by {
                assert(s0.subrange(0, 0) =~= Seq::<VoxelEntry>::empty());
            }
        }
        while t < n
            invariant
                self.entries_ok(),
                s0 == self.entries@,
                n == s0.len(),
                ncells == self.stats@.len(),
                t <= n,
                fresh@.len() == ncells,
                forall|r2: int|
                    0 <= r2 < ncells ==> stats_exact_for(
                        s0.subrange(0, t as int),
                        r2,
                        #[trigger] fresh@[r2],
                    ),
            decreases n - t,
        {
            let e = self.entries[t];
            let ghost pre = s0.subrange(0, t as int);
            proof {
                assert(s0.subrange(0, t + 1).drop_last() =~= pre);
                assert(s0.subrange(0, t + 1).last() == e);
                assert forall|t2: int| 0 <= t2 < pre.len() implies coord_ok(
                    (#[trigger] pre[t2]).vox,
                ) by {
                    assert(pre[t2] == s0[t2]);
                }
                lemma_region_sum_bounds(pre, e.region as int);
                assert(pre.len() * (u32::MAX as int) + (u32::MAX as int) <= (u32::MAX as int) * (
                u32::MAX as int)) by (nonlinear_arith)
                    requires
                        pre.len() + 1 <= u32::MAX as int,
                ;
                assert(pre.len() * (crate::geom::MAX_COORD as int) + (crate::geom::MAX_COORD as int)
                    <= (u32::MAX as int) * (crate::geom::MAX_COORD as int)) by (nonlinear_arith)
                    requires
                        pre.len() + 1 <= u32::MAX as int,
                ;
            }
            if e.region != BACKGROUND_CELL {
                let st = fresh[e.region as usize];
                let nst = RegionStats {
                    voxel_count: st.voxel_count + 1,
                    transcript_count: st.transcript_count + e.transcripts as u64,
                    sum_i: st.sum_i + e.vox.i as i64,
                    sum_j: st.sum_j + e.vox.j as i64,
                    sum_k: st.sum_k + e.vox.k as i64,
                };
                fresh.set(e.region as usize, nst);
            }
            proof {
                assert forall|r2: int|
                    0 <= r2 < ncells implies stats_exact_for(
                    s0.subrange(0, t + 1),
                    r2,
                    #[trigger] fresh@[r2],
                ) by {
                    assert(s0.subrange(0, t + 1).drop_last() =~= pre);
                }
            }
            t += 1;
        }
        proof {
            assert(s0.subrange(0, n as int) =~= s0);
        }
        let mut r2: usize = 0;
        let mut ok = true;
        while r2 < ncells
            invariant
                self.entries_ok(),
                s0 == self.entries@,
                ncells == self.stats@.len(),
                r2 <= ncells,
                fresh@.len() == ncells,
                forall|x: int| 0 <= x < ncells ==> stats_exact_for(s0, x, #[trigger] fresh@[x]),
                ok == forall|x: int|
                    0 <= x < r2 ==> stats_exact_for(s0, x, #[trigger] self.stats@[x]),
            decreases ncells - r2,
        {
            let a = self.stats[r2];
            let b = fresh[r2];
            let same = a == b;
            proof {
                if same {
                    assert(stats_exact_for(s0, r2 as int, self.stats@[r2 as int]));
                } else {
                    assert(!stats_exact_for(s0, r2 as int, self.stats@[r2 as int]));
                }
            }
            ok = ok && same;
            r2 += 1;
        }
        ok
    }

    /// The regions of the occupied voxels adjacent to `v`, in the fixed
    /// direction order (a multiset of labels: one per occupied neighbor).
    pub fn neighbors_regions(&self, v: &Voxel) -> (r: Vec<u32>)
        requires
            self.wf(),
            coord_ok(*v),
        ensures
            r@ == neighbor_regions_seq(self.assignment(), *v, 0),
    {
        let ghost m = self.assignment();
        let adjs = crate::geom::all_adjacent(*v);
        let mut r: Vec<u32> = Vec::new();
        let mut d: usize = 0;
        while d < 8
            invariant
                self.wf(),
                m == self.assignment(),
                coord_ok(*v),
                d <= 8,
                adjs@.len() == 8,
                forall|x: int| 0 <= x < 8 ==> adjs@[x] == adjacent_nth(*v, x),
                neighbor_regions_seq(m, *v, 0) == r@ + neighbor_regions_seq(m, *v, d as int),
            decreases 8 - d,
        {
            let nb = adjs[d];
            let ghost r0 = r@;
            match self.region_of(&nb) {
                Some(c) => {
                    r.push(c);
                    proof {
                        assert(r@ =~= r0 + seq![m[adjacent_nth(*v, d as int)]]);
                        assert(neighbor_regions_seq(m, *v, d as int) == seq![
                            m[adjacent_nth(*v, d as int)],
                        ] + neighbor_regions_seq(m, *v, d + 1));
                        assert(r0 + neighbor_regions_seq(m, *v, d as int) =~= r@
                            + neighbor_regions_seq(m, *v, d + 1));
                    }
                },
                None => {
                    proof {
                        assert(neighbor_regions_seq(m, *v, d as int) == Seq::<u32>::empty()
                            + neighbor_regions_seq(m, *v, d + 1));
                        assert(r0 + neighbor_regions_seq(m, *v, d as int) =~= r@
                            + neighbor_regions_seq(m, *v, d + 1));
                    }
                },
            }
            d += 1;
        }
        proof {
            assert(neighbor_regions_seq(m, *v, 8) =~= Seq::<u32>::empty());
            assert(neighbor_regions_seq(m, *v, 0) =~= r@);
        }
        r
    }

    /// Replaces the tiling with one of doubled planar resolution: every
    /// occupied voxel is subdivided into its four children, each child
    /// inherits the parent's region unconditionally, and the parent's
    /// transcripts are divided among the children as `child_transcripts`
    /// says.  Region transcript totals are preserved and voxel counts
    /// quadruple.
    #[verifier::rlimit(100)]
    #[verifier::spinoff_prover]
    pub fn double_resolution(self, child_transcripts: &Vec<(u32, u32, u32, u32)>) -> (r:
        PartitionState)
        requires
            self.wf(),
            self.resolution_level() < u32::MAX as int,
            4 * self.entries_seq().len() < u32::MAX as int,
            child_transcripts@.len() == self.entries_seq().len(),
            forall|t: int|
                0 <= t < self.entries_seq().len() ==> quad_sum(#[trigger] child_transcripts@[t])
                    == self.entries_seq()[t].transcripts as int,
            forall|t: int|
                0 <= t < self.entries_seq().len() ==> crate::geom::subdividable(
                    (#[trigger] self.entries_seq()[t]).vox,
                ),
        ensures
            r.wf(),
            r.num_regions() == self.num_regions(),
            r.resolution_level() == self.resolution_level() + 1,
            forall|c: Voxel|
                coord_ok(c) ==> (#[trigger] r.assignment().dom().contains(c)
                    <==> self.assignment().dom().contains(crate::geom::parent_of(c))),
            forall|c: Voxel|
                coord_ok(c) && #[trigger] r.assignment().dom().contains(c)
                    ==> r.assignment()[c] == self.assignment()[crate::geom::parent_of(c)],
            forall|reg: int|
                0 <= reg < self.num_regions() ==> (#[trigger] r.stats_of(reg)).transcript_count
                    == self.stats_of(reg).transcript_count && r.stats_of(reg).voxel_count == 4
                    * self.stats_of(reg).voxel_count,
            r.entries_seq().len() == 4 * self.entries_seq().len(),
            forall|x: int, q: int|
                0 <= x < self.entries_seq().len() && 0 <= q < 4 ==> (#[trigger] r.entries_seq()[4
                    * x + q]) == (VoxelEntry {
                    vox: crate::geom::children_of(self.entries_seq()[x].vox)[q],
                    region: self.entries_seq()[x].region,
                    transcripts: quad_nth(child_transcripts@[x], q),
                }),
    {
        let ghost s0 = self.entries@;
        let fine = subdivide_entries(&self.entries, child_transcripts);
        let ghost fs = fine@;
        proof {
            lemma_fine_props(s0, fs, self.stats@.len() as int);
        }
        let ncells = self.stats.len();
        let stats = recompute_stats(&fine, ncells);
        let out = PartitionState { entries: fine, stats, resolution: self.resolution + 1 };
        proof {
            assert(out.entries_ok());
            assert(out.aggregates_exact());
            assert forall|cv: Voxel|
                coord_ok(cv) && #[trigger] out.assignment().dom().contains(cv) implies
                out.assignment()[cv] == self.assignment()[crate::geom::parent_of(cv)] by {
                assert(entry_exists(fs, cv));
            }
            assert forall|reg: int|
                0 <= reg < self.num_regions() implies (#[trigger] out.stats_of(
                reg,
            )).transcript_count == self.stats_of(reg).transcript_count && out.stats_of(
                reg,
            ).voxel_count == 4 * self.stats_of(reg).voxel_count by {
                assert(stats_exact_for(fs, reg, out.stats_of(reg)));
                assert(stats_exact_for(s0, reg, self.stats_of(reg)));
                assert(region_transcripts(fs, reg + 0) == region_transcripts(s0, reg));
                assert(region_voxels(fs, reg + 0) == 4 * region_voxels(s0, reg));
            }
        }
        out
    }

    /// Decides, by an independent full flood fill over the region's current
    /// members, whether region `reg` forms a single connected component
    /// under planar + layer adjacency.
    #[verifier::rlimit(100)]
    pub fn region_is_connected(&self, reg: u32) -> (r: bool)
        requires
            self.wf(),
        ensures
            r == region_connected(self.entries_seq(), reg as int),
    {
        let ghost s0 = self.entries@;
        let ghost ee = region_edge_set(s0, reg as int);
        let n = self.entries.len();
        let mut members: Vec<Voxel> = Vec::new();
        let mut t: usize = 0;
        while t < n
            invariant
                self.wf(),
                s0 == self.entries@,
                n == s0.len(),
                t <= n,
                forall|x: int|
                    0 <= x < members@.len() ==> member_src(s0, t as int, #[trigger] members@[x], reg as int),
                forall|t2: int|
                    0 <= t2 < t && (#[trigger] s0[t2]).region == reg ==> members@.contains(
                        s0[t2].vox,
                    ),
                forall|x1: int, x2: int|
                    0 <= x1 < x2 < members@.len() ==> (#[trigger] members@[x1]) != (
                    #[trigger] members@[x2]),
            decreases n - t,
        {
            let e = self.entries[t];
            if e.region == reg {
                let ghost m0 = members@;
                members.push(e.vox);
                proof {
                    assert(s0[t as int].vox == e.vox && s0[t as int].region == reg);
                    assert(member_src(s0, t + 1, e.vox, reg as int));
                    assert forall|x: int|
                        0 <= x < members@.len() implies member_src(
                        s0,
                        t + 1,
                        #[trigger] members@[x],
                        reg as int,
                    ) by {
                        if x < m0.len() {
                            assert(members@[x] == m0[x]);
                            assert(member_src(s0, t as int, m0[x], reg as int));
                            let t2 = choose|t2: int|
                                0 <= t2 < t && (#[trigger] s0[t2]).vox == m0[x] && s0[t2].region
                                    == reg;
                            assert(member_src(s0, t + 1, m0[x], reg as int));
                        }
                    }
                    assert forall|t2: int|
                        0 <= t2 < t + 1 && (#[trigger] s0[t2]).region == reg implies
                        members@.contains(s0[t2].vox) by {
                        if t2 < t {
                            let x = choose|x: int| 0 <= x < m0.len() && m0[x] == s0[t2].vox;
                            assert(members@[x] == s0[t2].vox);
                        } else {
                            assert(members@[members@.len() - 1] == s0[t2].vox);
                        }
                    }
                    assert forall|x1: int, x2: int|
                        0 <= x1 < x2 < members@.len() implies (#[trigger] members@[x1]) != (
                    #[trigger] members@[x2]) by {
                        if x2 == members@.len() - 1 {
                            if members@[x1] == e.vox {
                                assert(member_src(s0, t as int, m0[x1], reg as int));
                                let t2 = choose|t2: int|
                                    0 <= t2 < t && t2 < s0.len() && (#[trigger] s0[t2]).vox
                                        == m0[x1] && s0[t2].region == reg;
                                assert(s0[t2].vox == s0[t as int].vox);
                                assert(false);
                            }
                        } else {
                            assert(members@[x1] == m0[x1] && members@[x2] == m0[x2]);
                        }
                    }
                }
            } else {
                proof {
                    assert forall|x: int|
                        0 <= x < members@.len() implies member_src(
                        s0,
                        t + 1,
                        #[trigger] members@[x],
                        reg as int,
                    ) by {
                        assert(member_src(s0, t as int, members@[x], reg as int));
                        let t2 = choose|t2: int|
                            0 <= t2 < t && (#[trigger] s0[t2]).vox == members@[x] && s0[t2].region
                                == reg;
                    }
                }
            }
            t += 1;
        }
        let ghost ms = members@;
        proof {
            assert forall|x: int|
                0 <= x < ms.len() implies member_of(s0, #[trigger] ms[x], reg as int) && coord_ok(
                ms[x],
            ) by {
                assert(member_src(s0, n as int, ms[x], reg as int));
                let t2 = choose|t2: int|
                    0 <= t2 < n && (#[trigger] s0[t2]).vox == ms[x] && s0[t2].region == reg;
                assert(coord_ok(s0[t2].vox));
            }

        }
        let m = members.len();
        if m == 0 {
            proof {
                assert forall|a: Voxel, b: Voxel|
                    #[trigger] member_of(s0, a, reg as int) && #[trigger] member_of(
                    s0,
                    b,
                    reg as int,
                ) implies crate::reach::reaches(region_edge_set(s0, reg as int), a, b) by {
                    let tx = choose|tx: int|
                        0 <= tx < s0.len() && (#[trigger] s0[tx]).vox == a && s0[tx].region == reg;
                    assert(members@.contains(s0[tx].vox));
                    assert(false);
                }
            }
            return true;
        }
        let mut visited: Vec<bool> = Vec::new();
        let mut c: usize = 0;
        while c < m
            invariant
                visited@.len() == c,
                c <= m,
                forall|x: int| 0 <= x < c ==> !(#[trigger] visited@[x]),
            decreases m - c,
        {
            visited.push(false);
            c += 1;
        }
        visited.set(0, true);
        let mut stack: Vec<usize> = Vec::new();
        stack.push(0);
        proof {
            crate::reach::lemma_reaches_refl(ee, ms[0]);
            assert(stack@[0] == 0usize);
            assert(stack@.contains(0usize));
        }
        loop
            invariant_except_break
                ms == members@,
                m == ms.len(),
                m >= 1,
                ee == region_edge_set(s0, reg as int),
                visited@.len() == m,
                visited@[0],
                forall|x: int|
                    0 <= x < ms.len() ==> member_of(s0, #[trigger] ms[x], reg as int) && coord_ok(
                        ms[x],
                    ),
                forall|t2: int|
                    0 <= t2 < s0.len() && (#[trigger] s0[t2]).region == reg ==> ms.contains(
                        s0[t2].vox,
                    ),
                forall|x1: int, x2: int|
                    0 <= x1 < x2 < ms.len() ==> (#[trigger] ms[x1]) != (#[trigger] ms[x2]),
                forall|x: int|
                    0 <= x < stack@.len() ==> (#[trigger] stack@[x] as int) < m
                        && visited@[stack@[x] as int],
                forall|x: int|
                    0 <= x < m && #[trigger] visited@[x] ==> crate::reach::reaches(
                        ee,
                        ms[0],
                        ms[x],
                    ),
                forall|x: int|
                    0 <= x < m && #[trigger] visited@[x] && !stack@.contains(x as usize) ==> (
                    forall|y: int|
                        0 <= y < m && adjacent(ms[x], #[trigger] ms[y]) ==> visited@[y]),
            ensures
                visited@.len() == m,
                visited@[0],
                ms == members@,
                forall|x: int|
                    0 <= x < m && #[trigger] visited@[x] ==> crate::reach::reaches(
                        ee,
                        ms[0],
                        ms[x],
                    ),
                forall|x: int|
                    0 <= x < m && #[trigger] visited@[x] ==> (forall|y: int|
                        0 <= y < m && adjacent(ms[x], #[trigger] ms[y]) ==> visited@[y]),
            decreases crate::reach::count_false(visited@), stack@.len(),
        {
            let ghost stack_pre = stack@;
            let ghost vis0 = visited@;
            let xo = stack.pop();
            let x: usize = match xo {
                Some(v) => v,
                None => {
                    proof {
                        assert forall|x2: int|
                            0 <= x2 < m && #[trigger] visited@[x2] implies (forall|y: int|
                            0 <= y < m && adjacent(ms[x2], #[trigger] ms[y]) ==> visited@[y]) by {
                            assert(!stack@.contains(x2 as usize));
                        }
                    }
                    break ;
                },
            };
            let ghost stack0 = stack@;
            proof {
                assert(stack_pre == stack0.push(x));
                assert forall|z: int|
                    0 <= z < m && #[trigger] vis0[z] && z != x as int && !stack0.contains(
                        z as usize,
                    ) implies (forall|w: int|
                    0 <= w < m && adjacent(ms[z], #[trigger] ms[w]) ==> vis0[w]) by {
                    if stack_pre.contains(z as usize) {
                        let xi = choose|xi: int|
                            0 <= xi < stack_pre.len() && stack_pre[xi] == z as usize;
                        if xi < stack0.len() {
                            assert(stack0[xi] == z as usize);
                            assert(false);
                        } else {
                            assert(z == x as int);
                            assert(false);
                        }
                    }
                }
            }
            let vx = members[x];
            let mut y: usize = 0;
            while y < m
                invariant
                    ms == members@,
                    m == ms.len(),
                    m >= 1,
                    ee == region_edge_set(s0, reg as int),
                    visited@.len() == m,
                    visited@[0],
                    x < m,
                    vx == ms[x as int],
                    visited@[x as int],
                    y <= m,
                    forall|z: int|
                        0 <= z < ms.len() ==> member_of(s0, #[trigger] ms[z], reg as int)
                            && coord_ok(ms[z]),
                    forall|x1: int, x2: int|
                        0 <= x1 < x2 < ms.len() ==> (#[trigger] ms[x1]) != (#[trigger] ms[x2]),
                    forall|z: int|
                        0 <= z < stack@.len() ==> (#[trigger] stack@[z] as int) < m
                            && visited@[stack@[z] as int],
                    forall|z: int|
                        0 <= z < m && #[trigger] visited@[z] ==> crate::reach::reaches(
                            ee,
                            ms[0],
                            ms[z],
                        ),
                    forall|z: int|
                        0 <= z < m && #[trigger] visited@[z] && z != x as int && !stack@.contains(
                            z as usize,
                        ) ==> (forall|w: int|
                            0 <= w < m && adjacent(ms[z], #[trigger] ms[w]) ==> visited@[w]),
                    forall|w: int|
                        0 <= w < y && adjacent(ms[x as int], #[trigger] ms[w]) ==> visited@[w],
                    forall|z: int| 0 <= z < m && #[trigger] vis0[z] ==> visited@[z],
                    crate::reach::count_false(visited@) + stack@.len() <= crate::reach::count_false(vis0)
                        + stack0.len(),
                decreases m - y,
            {
                let wv = members[y];
                proof {
                    assert(coord_ok(ms[x as int]) && coord_ok(ms[y as int]));
                }
                let adj = crate::geom::is_adjacent(&vx, &wv);
                if adj && !visited[y] {
                    let ghost vis_b = visited@;
                    let ghost stack_b = stack@;
                    visited.set(y, true);
                    stack.push(y);
                    proof {
                        assert(member_of(s0, ms[x as int], reg as int) && member_of(
                            s0,
                            ms[y as int],
                            reg as int,
                        ));
                        assert(ee.contains((ms[x as int], ms[y as int])));
                        crate::reach::lemma_reaches_step(ee, ms[0], ms[x as int], ms[y as int]);
                        crate::reach::lemma_count_false_set(vis_b, y as int);
                        assert forall|z: int|
                            0 <= z < m && #[trigger] visited@[z] && z != x as int
                                && !stack@.contains(z as usize) implies (forall|w: int|
                            0 <= w < m && adjacent(ms[z], #[trigger] ms[w]) ==> visited@[w]) by {
                            if stack_b.contains(z as usize) {
                                let xi = choose|xi: int|
                                    0 <= xi < stack_b.len() && stack_b[xi] == z as usize;
                                assert(stack@[xi] == z as usize);
                                assert(false);
                            }
                            if z == y as int {
                                assert(stack@[stack@.len() - 1] == (y as usize));
                                assert(false);
                            }
                            assert(vis_b[z]);
                            assert forall|w: int|
                                0 <= w < m && adjacent(ms[z], #[trigger] ms[w]) implies visited@[w] by {
                                assert(vis_b[w]);
                            }
                        }
                    }
                }
                y += 1;
            }
            proof {
                assert forall|z: int|
                    0 <= z < m && #[trigger] visited@[z] && !stack@.contains(z as usize) implies (
                forall|w: int|
                    0 <= w < m && adjacent(ms[z], #[trigger] ms[w]) ==> visited@[w]) by {
                }
                crate::reach::lemma_count_false_le(vis0, visited@);
            }
        }
        let mut all = true;
        let mut z: usize = 0;
        while z < m
            invariant
                z <= m,
                visited@.len() == m,
                ms == members@,
                m == ms.len(),
                all == forall|x: int| 0 <= x < z ==> #[trigger] visited@[x],
            decreases m - z,
        {
            let vz = visited[z];
            proof {
                if !vz {
                    assert(!(forall|x: int| 0 <= x < z + 1 ==> #[trigger] visited@[x]));
                }
            }
            all = all && vz;
            z += 1;
        }
        proof {
            if all {
                assert forall|a: Voxel, b: Voxel|
                    #[trigger] member_of(s0, a, reg as int) && #[trigger] member_of(
                    s0,
                    b,
                    reg as int,
                ) implies crate::reach::reaches(ee, a, b) by {
                    let ta = choose|tx: int|
                        0 <= tx < s0.len() && (#[trigger] s0[tx]).vox == a && s0[tx].region == reg;
                    let tb = choose|tx: int|
                        0 <= tx < s0.len() && (#[trigger] s0[tx]).vox == b && s0[tx].region == reg;
                    assert(ms.contains(s0[ta as int].vox) && ms.contains(s0[tb as int].vox));
                    let xa = choose|x: int| 0 <= x < ms.len() && ms[x] == a;
                    let xb = choose|x: int| 0 <= x < ms.len() && ms[x] == b;
                    assert(visited@[xa] && visited@[xb]);
                    assert(crate::reach::reaches(ee, ms[0], a));
                    assert(crate::reach::reaches(ee, ms[0], b));
                    assert forall|p: Voxel, q: Voxel| #[trigger]
                        ee.contains((p, q)) implies ee.contains((q, p)) by {
                        let tp = choose|tx: int|
                            0 <= tx < s0.len() && (#[trigger] s0[tx]).vox == p && s0[tx].region
                                == reg;
                        let tq = choose|tx: int|
                            0 <= tx < s0.len() && (#[trigger] s0[tx]).vox == q && s0[tx].region
                                == reg;
                        assert(coord_ok(p) && coord_ok(q));
                        crate::geom::lemma_adjacent_symm(p, q);
                    }
                    crate::reach::lemma_reaches_symm(ee, ms[0], a);
                    crate::reach::lemma_reaches_trans(ee, a, ms[0], b);
                }
                assert(region_connected(s0, reg as int));
            } else {
                let yu = choose|x: int| 0 <= x < m && !(#[trigger] visited@[x]);
                let ghost mk = Set::new(
                    |v: Voxel| exists|x: int| 0 <= x < m && #[trigger] visited@[x] && ms[x] == v,
                );
                assert(visited@[0] && ms[0] == ms[0]);
                assert(mk.contains(ms[0]));
                assert forall|p: Voxel, q: Voxel|
                    mk.contains(p) && #[trigger] ee.contains((p, q)) implies mk.contains(q) by {
                    let xp = choose|x: int| 0 <= x < m && #[trigger] visited@[x] && ms[x] == p;
                    assert(member_of(s0, q, reg as int));
                    let tq = choose|tx: int|
                        0 <= tx < s0.len() && (#[trigger] s0[tx]).vox == q && s0[tx].region == reg;
                    assert(ms.contains(s0[tq as int].vox));
                    let xq = choose|x: int| 0 <= x < ms.len() && ms[x] == q;
                    assert(adjacent(ms[xp], ms[xq]));
                    assert(visited@[xq]);
                }
                if crate::reach::reaches(ee, ms[0], ms[yu]) {
                    crate::reach::lemma_closed_set_contains_reachable(ee, mk, ms[0], ms[yu]);
                    let xw = choose|x: int| 0 <= x < m && #[trigger] visited@[x] && ms[x] == ms[yu];
                    if xw != yu {
                        assert(ms[xw] == ms[yu]);
                        assert(false);
                    }
                    assert(false);
                }
                assert(member_of(s0, ms[0], reg as int) && member_of(s0, ms[yu], reg as int));
                assert(!region_connected(s0, reg as int));
            }
        }
        all
    }
}


/// Committing an accepted move into a region the voxel borders preserves
/// that region's connectivity: the reassigned voxel attaches to one of its
/// adjacent members, and every existing connection survives.
#[verifier::rlimit(100)]
pub proof fn lemma_commit_preserves_destination_connectivity(
    s0: Seq<VoxelEntry>,
    s1: Seq<VoxelEntry>,
    t: int,
    e: VoxelEntry,
    dest: int,
)
    requires
        0 <= t < s0.len(),
        s1 == s0.update(t, e),
        e.vox == s0[t].vox,
        e.region == dest,
        s0[t].region != dest,
        forall|t1: int, t2: int|
            0 <= t1 < t2 < s0.len() ==> (#[trigger] s0[t1]).vox != (#[trigger] s0[t2]).vox,
        forall|x: int| 0 <= x < s0.len() ==> coord_ok((#[trigger] s0[x]).vox),
        region_connected(s0, dest),
        exists|w: Voxel| #[trigger] member_of(s0, w, dest) && adjacent(e.vox, w),
    ensures
        region_connected(s1, dest),
{
    let v = e.vox;
    let e0 = region_edge_set(s0, dest);
    let e1 = region_edge_set(s1, dest);
    assert forall|x: Voxel| #[trigger] member_of(s0, x, dest) implies member_of(s1, x, dest)
        && x != v by {
        let tx = choose|tx: int|
            0 <= tx < s0.len() && (#[trigger] s0[tx]).vox == x && s0[tx].region == dest;
        if tx == t {
            assert(false);
        }
        assert(s1[tx].vox == x && s1[tx].region == dest);
        if x == v {
            assert(s0[tx].vox == s0[t].vox);
            assert(false);
        }
    }
    assert(member_of(s1, v, dest)) by {
        assert(s1[t].vox == v && s1[t].region == dest);
    }
    assert forall|x: Voxel| #[trigger] member_of(s1, x, dest) implies member_of(s0, x, dest) || x
        == v by {
        let tx = choose|tx: int|
            0 <= tx < s1.len() && (#[trigger] s1[tx]).vox == x && s1[tx].region == dest;
        if tx != t {
            assert(s0[tx].vox == x && s0[tx].region == dest);
        }
    }
    assert(e0.subset_of(e1)) by {
        assert forall|pr: (Voxel, Voxel)| e0.contains(pr) implies e1.contains(pr) by {
            assert(member_of(s0, pr.0, dest) && member_of(s0, pr.1, dest));
        }
    }
    let w0 = choose|w: Voxel| #[trigger] member_of(s0, w, dest) && adjacent(v, w);
    assert(e1.contains((v, w0)));
    assert(e1.contains((w0, v))) by {
        let tw = choose|tw: int|
            0 <= tw < s0.len() && (#[trigger] s0[tw]).vox == w0 && s0[tw].region == dest;
        assert(coord_ok(w0) && coord_ok(v));
        crate::geom::lemma_adjacent_symm(v, w0);
    }
    assert forall|a: Voxel, b: Voxel|
        #[trigger] member_of(s1, a, dest) && #[trigger] member_of(s1, b, dest) implies
        crate::reach::reaches(e1, a, b) by {
        if member_of(s0, a, dest) && member_of(s0, b, dest) {
            assert(crate::reach::reaches(e0, a, b));
            crate::reach::lemma_reaches_subset(e0, e1, a, b);
        } else if a == v && b == v {
            crate::reach::lemma_reaches_refl(e1, v);
        } else if a == v {
            assert(member_of(s0, b, dest));
            assert(crate::reach::reaches(e0, w0, b));
            crate::reach::lemma_reaches_subset(e0, e1, w0, b);
            crate::reach::lemma_reaches_refl(e1, v);
            crate::reach::lemma_reaches_step(e1, v, v, w0);
            crate::reach::lemma_reaches_trans(e1, v, w0, b);
        } else {
            assert(b == v && member_of(s0, a, dest));
            assert(crate::reach::reaches(e0, a, w0));
            crate::reach::lemma_reaches_subset(e0, e1, a, w0);
            crate::reach::lemma_reaches_step(e1, a, w0, v);
        }
    }
}
} // verus!
