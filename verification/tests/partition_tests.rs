use proseg::geom::Voxel;
use proseg::partition::PartitionState;
use proseg::BACKGROUND_CELL;

fn block_state(ncells: u32) -> PartitionState {
    let mut st = PartitionState::new(ncells);
    for i in 0..3 {
        for j in 0..3 {
            let region = if i == 1 && j == 1 { BACKGROUND_CELL } else { 5 };
            st.seed_voxel(Voxel::new(i, j, 0), region, (i + j) as u32);
        }
    }
    st
}

#[test]
fn seeded_state_passes_audit() {
    let st = block_state(6);
    assert!(st.audit());
    let agg = st.aggregates(5);
    assert_eq!(agg.voxel_count, 8);
    // Transcript total over the eight region voxels: sum of i+j minus the
    // center's 2.
    assert_eq!(agg.transcript_count, 18 - 2);
    assert_eq!(agg.sum_i, 3 * (0 + 1 + 2) - 1);
    assert_eq!(agg.sum_j, 3 * (0 + 1 + 2) - 1);
    assert_eq!(agg.sum_k, 0);
    let empty = st.aggregates(0);
    assert_eq!(empty.voxel_count, 0);
    assert_eq!(empty.transcript_count, 0);
}

#[test]
fn assign_moves_aggregates_between_regions() {
    let mut st = block_state(6);
    let prev = st.assign(&Voxel::new(0, 0, 0), 2);
    assert_eq!(prev, 5);
    assert!(st.audit());
    assert_eq!(st.aggregates(5).voxel_count, 7);
    assert_eq!(st.aggregates(2).voxel_count, 1);
    assert_eq!(st.aggregates(2).transcript_count, 0);
    let prev2 = st.assign(&Voxel::new(0, 0, 0), BACKGROUND_CELL);
    assert_eq!(prev2, 2);
    assert!(st.audit());
    assert_eq!(st.aggregates(2).voxel_count, 0);
}

#[test]
fn region_of_reports_assignment() {
    let st = block_state(6);
    assert_eq!(st.region_of(&Voxel::new(0, 0, 0)), Some(5));
    assert_eq!(st.region_of(&Voxel::new(1, 1, 0)), Some(BACKGROUND_CELL));
    assert_eq!(st.region_of(&Voxel::new(7, 7, 7)), None);
}

#[test]
fn neighbors_regions_lists_occupied_neighbors() {
    let st = block_state(6);
    // The center voxel has all six planar neighbors inside the block
    // assigned to region 5, and no layer neighbors.
    let nr = st.neighbors_regions(&Voxel::new(1, 1, 0));
    assert_eq!(nr.len(), 6);
    assert!(nr.iter().all(|&c| c == 5));
    // A corner sees only its two in-block hex neighbors.
    let nr = st.neighbors_regions(&Voxel::new(0, 0, 0));
    assert_eq!(nr.len(), 2);
}

#[test]
fn region_connectivity_flood_fill() {
    let mut st = PartitionState::new(3);
    st.seed_voxel(Voxel::new(0, 0, 0), 1, 1);
    st.seed_voxel(Voxel::new(1, 0, 0), 1, 1);
    st.seed_voxel(Voxel::new(5, 5, 0), 1, 1);
    assert!(!st.region_is_connected(1));
    st.seed_voxel(Voxel::new(9, 9, 9), 2, 1);
    assert!(st.region_is_connected(2));
    // An extinct or unused region counts as connected.
    assert!(st.region_is_connected(0));
    // Layer adjacency joins voxels stacked in depth.
    let mut st2 = PartitionState::new(1);
    st2.seed_voxel(Voxel::new(0, 0, 0), 0, 1);
    st2.seed_voxel(Voxel::new(0, 0, 1), 0, 1);
    assert!(st2.region_is_connected(0));
}

#[test]
fn subdivision_tiles_parents_and_keeps_regions() {
    let mut st = PartitionState::new(2);
    st.seed_voxel(Voxel::new(0, 0, 0), 1, 8);
    st.seed_voxel(Voxel::new(1, 0, 0), 1, 3);
    st.seed_voxel(Voxel::new(-1, 2, 1), BACKGROUND_CELL, 4);
    assert_eq!(st.resolution(), 0);
    let splits = vec![(2, 2, 2, 2), (3, 0, 0, 0), (1, 1, 1, 1)];
    let fine = st.double_resolution(&splits);
    assert_eq!(fine.resolution(), 1);
    assert!(fine.audit());
    assert_eq!(fine.voxel_count(), 12);
    // Region transcript totals are preserved; voxel counts quadruple.
    assert_eq!(fine.aggregates(1).transcript_count, 11);
    assert_eq!(fine.aggregates(1).voxel_count, 8);
    // Every child inherits its parent's region id.
    assert_eq!(fine.region_of(&Voxel::new(0, 0, 0)), Some(1));
    assert_eq!(fine.region_of(&Voxel::new(1, 1, 0)), Some(1));
    assert_eq!(fine.region_of(&Voxel::new(3, 0, 0)), Some(1));
    assert_eq!(fine.region_of(&Voxel::new(2, 1, 0)), Some(1));
    assert_eq!(fine.region_of(&Voxel::new(-2, 4, 1)), Some(BACKGROUND_CELL));
    assert_eq!(fine.region_of(&Voxel::new(-1, 5, 1)), Some(BACKGROUND_CELL));
    // No gaps: the children tile exactly the three parents' footprints.
    for t in 0..fine.voxel_count() {
        let e = fine.entry_at(t);
        let parent = Voxel::new(e.vox.i.div_euclid(2), e.vox.j.div_euclid(2), e.vox.k);
        let expected = [Voxel::new(0, 0, 0), Voxel::new(1, 0, 0), Voxel::new(-1, 2, 1)];
        assert!(expected.contains(&parent));
    }
    // Subdivided regions stay connected.
    assert!(fine.region_is_connected(1));
}
