use vstd::prelude::*;

use crate::connectivity::{neighbors_stay_connected, ConnectivityChecker};
use crate::geom::{coord_ok, Voxel};
use crate::partition::{neighbor_regions_seq, PartitionState};
use crate::BACKGROUND_CELL;

verus! {

/// What became of one proposed voxel move.
#[derive(Clone, Copy, PartialEq, Eq, Structural, Debug)]
pub enum MoveOutcome {
    /// The move was committed; the voxel's previous region is recorded.
    Committed { prev: u32 },
    /// The destination borders no neighbor of the voxel (and is not the
    /// background): not a valid proposal site.
    InvalidProposal,
    /// Removing the voxel would disconnect its source region locally.
    RejectedDisconnects,
    /// The source region is at the minimum-size floor and may not shrink.
    RejectedFloor,
    /// The model oracle (or the Metropolis draw made from its score)
    /// declined the move.
    RejectedOracle,
}

/// The committed outcome recording the voxel's previous region.
pub open spec fn committed_with(prev: u32) -> MoveOutcome {
    MoveOutcome::Committed { prev }
}

/// The destination is the background or the region of some adjacent
/// occupied voxel.
pub open spec fn valid_destination(m: Map<Voxel, u32>, v: Voxel, dest: u32) -> bool {
    dest == BACKGROUND_CELL || neighbor_regions_seq(m, v, 0).contains(dest)
}

/// The regions of the occupied voxels adjacent to `v` other than
/// `current`, scanning directions `d` to 7 in order.
pub open spec fn candidate_seq(m: Map<Voxel, u32>, v: Voxel, current: u32, d: int) -> Seq<u32>
    decreases 8 - d,
{
    if d < 0 || d >= 8 {
        Seq::empty()
    } else {
        (if m.dom().contains(crate::geom::adjacent_nth(v, d)) && m[crate::geom::adjacent_nth(v, d)]
            != current {
            seq![m[crate::geom::adjacent_nth(v, d)]]
        } else {
            Seq::empty()
        }) + candidate_seq(m, v, current, d + 1)
    }
}

/// The candidate destinations of a move proposal for `v`: the regions of
/// its occupied neighbors other than its current region, and the
/// background when `v` is not already background.
pub open spec fn candidate_destinations_seq(m: Map<Voxel, u32>, v: Voxel, current: u32) -> Seq<
    u32,
> {
    candidate_seq(m, v, current, 0) + (if current != BACKGROUND_CELL {
        seq![BACKGROUND_CELL]
    } else {
        Seq::empty()
    })
}

proof fn lemma_candidate_sound(m: Map<Voxel, u32>, v: Voxel, current: u32, d: int, c: u32)
    requires
        candidate_seq(m, v, current, d).contains(c),
    ensures
        neighbor_regions_seq(m, v, d).contains(c),
        c != current,
    decreases 8 - d,
{
    if 0 <= d < 8 {
        let nb = crate::geom::adjacent_nth(v, d);
        let head: Seq<u32> = if m.dom().contains(nb) && m[nb] != current {
            seq![m[nb]]
        } else {
            Seq::empty()
        };
        let tail = candidate_seq(m, v, current, d + 1);
        let x = choose|x: int| 0 <= x < (head + tail).len() && (head + tail)[x] == c;
        if x < head.len() {
            assert(c == m[nb] && c != current);
            assert(neighbor_regions_seq(m, v, d)[0] == c);
        } else {
            assert(tail[x - head.len()] == c);
            assert(tail.contains(c));
            lemma_candidate_sound(m, v, current, d + 1, c);
            let nseq = neighbor_regions_seq(m, v, d + 1);
            let y = choose|y: int| 0 <= y < nseq.len() && #[trigger] nseq[y] == c;
            let hd: Seq<u32> = if m.dom().contains(nb) {
                seq![m[nb]]
            } else {
                Seq::empty()
            };
            assert(neighbor_regions_seq(m, v, d)[hd.len() + y] == c);
        }
    }
}

/// Enumerates the candidate destinations of a move proposal for `v`: the
/// background together with the regions of its occupied neighbors, the
/// current region excluded.  A region bordering `v` through several
/// neighbors appears once per neighbor, deliberately: drawing uniformly
/// from this list weights each destination by how much of `v`'s border it
/// shares, as sampling a neighbor voxel would.  Every candidate is a valid
/// destination for `try_move`.
pub fn candidate_destinations(state: &PartitionState, v: &Voxel, current: u32) -> (r: Vec<u32>)
    requires
        state.wf(),
        coord_ok(*v),
    ensures
        r@ == candidate_destinations_seq(state.assignment(), *v, current),
        forall|x: int|
            0 <= x < r@.len() ==> valid_destination(state.assignment(), *v, #[trigger] r@[x])
                && r@[x] != current,
{
    let ghost m = state.assignment();
    let nbrs = state.neighbors_regions(v);
    let mut r: Vec<u32> = Vec::new();
    let adjs = crate::geom::all_adjacent(*v);
    let mut d: usize = 0;
    while d < 8
        invariant
            state.wf(),
            m == state.assignment(),
            coord_ok(*v),
            d <= 8,
            adjs@.len() == 8,
            forall|x: int| 0 <= x < 8 ==> adjs@[x] == crate::geom::adjacent_nth(*v, x),
            candidate_seq(m, *v, current, 0) == r@ + candidate_seq(m, *v, current, d as int),
        decreases 8 - d,
    {
        let nb = adjs[d];
        let ghost r0 = r@;
        match state.region_of(&nb) {
            Some(c) => {
                if c != current {
                    r.push(c);
                    proof {
                        assert(r@ =~= r0 + seq![m[crate::geom::adjacent_nth(*v, d as int)]]);
                        assert(candidate_seq(m, *v, current, d as int) == seq![
                            m[crate::geom::adjacent_nth(*v, d as int)],
                        ] + candidate_seq(m, *v, current, d + 1));
                        assert(r0 + candidate_seq(m, *v, current, d as int) =~= r@
                            + candidate_seq(m, *v, current, d + 1));
                    }
                } else {
                    proof {
                        assert(candidate_seq(m, *v, current, d as int) == Seq::<u32>::empty()
                            + candidate_seq(m, *v, current, d + 1));
                        assert(r0 + candidate_seq(m, *v, current, d as int) =~= r@
                            + candidate_seq(m, *v, current, d + 1));
                    }
                }
            },
            None => {
                proof {
                    assert(candidate_seq(m, *v, current, d as int) == Seq::<u32>::empty()
                        + candidate_seq(m, *v, current, d + 1));
                    assert(r0 + candidate_seq(m, *v, current, d as int) =~= r@ + candidate_seq(
                        m,
                        *v,
                        current,
                        d + 1,
                    ));
                }
            },
        }
        d += 1;
    }
    proof {
        assert(candidate_seq(m, *v, current, 8) =~= Seq::<u32>::empty());
        assert(candidate_seq(m, *v, current, 0) =~= r@);
    }
    if current != BACKGROUND_CELL {
        r.push(BACKGROUND_CELL);
    }
    proof {
        assert(r@ =~= candidate_destinations_seq(m, *v, current));
        assert forall|x: int|
            0 <= x < r@.len() implies valid_destination(m, *v, #[trigger] r@[x]) && r@[x]
            != current by {
            let cs = candidate_seq(m, *v, current, 0);
            if x < cs.len() {
                assert(cs[x] == r@[x]);
                assert(cs.contains(r@[x]));
                lemma_candidate_sound(m, *v, current, 0, r@[x]);
            } else {
                assert(r@[x] == BACKGROUND_CELL && current != BACKGROUND_CELL);
            }
        }
    }
    r
}

/// One Metropolis-Hastings step over a boundary voxel, with the oracle's
/// accept decision supplied by the caller: the move is vetoed without
/// consulting the oracle when it would locally disconnect a non-background
/// source region or shrink it below `min_voxels`; otherwise it is committed
/// exactly when `oracle_accepts` holds.
pub fn try_move(
    state: &mut PartitionState,
    checker: &mut ConnectivityChecker,
    voxel: &Voxel,
    dest: u32,
    oracle_accepts: bool,
    min_voxels: u64,
) -> (r: MoveOutcome)
    requires
        old(state).wf(),
        coord_ok(*voxel),
        old(state).assignment().dom().contains(*voxel),
        old(state).region_label_ok(dest),
        dest != old(state).assignment()[*voxel],
    ensures
        final(state).wf(),
        final(state).num_regions() == old(state).num_regions(),
        final(state).resolution_level() == old(state).resolution_level(),
        !valid_destination(old(state).assignment(), *voxel, dest) ==> r
            == MoveOutcome::InvalidProposal && *final(state) == *old(state),
        valid_destination(old(state).assignment(), *voxel, dest) && old(state).assignment()[*voxel]
            != BACKGROUND_CELL && !neighbors_stay_connected(
            old(state).assignment(),
            *voxel,
            old(state).assignment()[*voxel],
        ) ==> r == MoveOutcome::RejectedDisconnects && *final(state) == *old(state),
        valid_destination(old(state).assignment(), *voxel, dest) && old(state).assignment()[*voxel]
            != BACKGROUND_CELL && neighbors_stay_connected(
            old(state).assignment(),
            *voxel,
            old(state).assignment()[*voxel],
        ) && old(state).stats_of(old(state).assignment()[*voxel] as int).voxel_count <= min_voxels
            ==> r == MoveOutcome::RejectedFloor && *final(state) == *old(state),
        valid_destination(old(state).assignment(), *voxel, dest) && (old(
            state,
        ).assignment()[*voxel] == BACKGROUND_CELL || (neighbors_stay_connected(
            old(state).assignment(),
            *voxel,
            old(state).assignment()[*voxel],
        ) && old(state).stats_of(old(state).assignment()[*voxel] as int).voxel_count > min_voxels))
            ==> (if oracle_accepts {
            r == committed_with(old(state).assignment()[*voxel]) && final(state).assignment()
                == old(state).assignment().insert(*voxel, dest)
        } else {
            r == MoveOutcome::RejectedOracle && *final(state) == *old(state)
        }),
{
    let current = match state.region_of(voxel) {
        Some(c) => c,
        None => {
            return MoveOutcome::InvalidProposal;
        },
    };
    if dest != BACKGROUND_CELL {
        let nbr_regions = state.neighbors_regions(voxel);
        let mut found = false;
        let mut t: usize = 0;
        while t < nbr_regions.len()
            invariant
                t <= nbr_regions@.len(),
                found == exists|x: int| 0 <= x < t && nbr_regions@[x] == dest,
            decreases nbr_regions@.len() - t,
        {
            let c = nbr_regions[t];
            proof {
                if c == dest {
                    assert(nbr_regions@[t as int] == dest);
                }
                if !(c == dest) && (exists|x: int| 0 <= x < t + 1 && nbr_regions@[x] == dest) {
                    let x = choose|x: int| 0 <= x < t + 1 && nbr_regions@[x] == dest;
                    assert(x < t);
                }
            }
            found = found || c == dest;
            t += 1;
        }
        proof {
            if found {
                let x = choose|x: int|
                    0 <= x < nbr_regions@.len() && nbr_regions@[x] == dest;
                assert(nbr_regions@.contains(dest));
            }
            if !found && nbr_regions@.contains(dest) {
                let x = choose|x: int| 0 <= x < nbr_regions@.len() && nbr_regions@[x] == dest;
                assert(false);
            }
        }
        if !found {
            return MoveOutcome::InvalidProposal;
        }
    }
    proof {
        state.lemma_assigned_label_ok(*voxel);
    }
    if current != BACKGROUND_CELL {
        if checker.hex_isarticulation(state, *voxel, current) {
            return MoveOutcome::RejectedDisconnects;
        }
        let st = state.aggregates(current);
        if st.voxel_count <= min_voxels {
            return MoveOutcome::RejectedFloor;
        }
    }
    if !oracle_accepts {
        return MoveOutcome::RejectedOracle;
    }
    let prev = state.assign(voxel, dest);
    MoveOutcome::Committed { prev }
}

} // verus!
