use proseg::connectivity::ConnectivityChecker;
use proseg::geom::Voxel;
use proseg::partition::PartitionState;
use proseg::sampler::{candidate_destinations, try_move, MoveOutcome};
use proseg::schedule::{monitor_due, plan_schedule, platform_presets, Platform, SchedulePhase};
use proseg::BACKGROUND_CELL;
use rand::{RngExt, SeedableRng};

fn block_state() -> PartitionState {
    let mut st = PartitionState::new(6);
    for i in 0..3 {
        for j in 0..3 {
            let region = if i == 1 && j == 1 { BACKGROUND_CELL } else { 5 };
            st.seed_voxel(Voxel::new(i, j, 0), region, 1);
        }
    }
    st
}

#[test]
fn corner_of_block_is_not_blocked_by_checker() {
    // A 3x3 block assigned to region 5 except the background center: the
    // corner voxel is not a cut vertex, and the checker does not veto
    // moving it to background.
    let st = block_state();
    let mut checker = ConnectivityChecker::new();
    assert!(!checker.hex_isarticulation(&st, Voxel::new(0, 0, 0), 5));
    assert!(!checker.hex_isarticulation(&st, Voxel::new(2, 2, 0), 5));
    let mut st = st;
    let outcome = try_move(
        &mut st,
        &mut checker,
        &Voxel::new(0, 0, 0),
        BACKGROUND_CELL,
        true,
        0,
    );
    assert_eq!(outcome, MoveOutcome::Committed { prev: 5 });
    assert!(st.region_is_connected(5));
    assert!(st.audit());
}

#[test]
fn bridge_voxel_is_blocked_by_checker() {
    // Two lobes joined by a single voxel: removing the bridge would
    // disconnect the region.
    let mut st = PartitionState::new(2);
    st.seed_voxel(Voxel::new(-1, 0, 0), 1, 1);
    st.seed_voxel(Voxel::new(0, 0, 0), 1, 1);
    st.seed_voxel(Voxel::new(1, 0, 0), 1, 1);
    let mut checker = ConnectivityChecker::new();
    assert!(checker.hex_isarticulation(&st, Voxel::new(0, 0, 0), 1));
    let outcome = try_move(
        &mut st,
        &mut checker,
        &Voxel::new(0, 0, 0),
        BACKGROUND_CELL,
        true,
        0,
    );
    assert_eq!(outcome, MoveOutcome::RejectedDisconnects);
    assert_eq!(st.region_of(&Voxel::new(0, 0, 0)), Some(1));
}

#[test]
fn floor_and_oracle_rejections() {
    let mut st = PartitionState::new(2);
    st.seed_voxel(Voxel::new(0, 0, 0), 1, 1);
    st.seed_voxel(Voxel::new(1, 0, 0), BACKGROUND_CELL, 1);
    let mut checker = ConnectivityChecker::new();
    // The region holds one voxel: the size floor forbids shrinking it.
    let outcome = try_move(
        &mut st,
        &mut checker,
        &Voxel::new(0, 0, 0),
        BACKGROUND_CELL,
        true,
        1,
    );
    assert_eq!(outcome, MoveOutcome::RejectedFloor);
    // With the floor lifted, the oracle's verdict decides.
    let outcome = try_move(
        &mut st,
        &mut checker,
        &Voxel::new(0, 0, 0),
        BACKGROUND_CELL,
        false,
        0,
    );
    assert_eq!(outcome, MoveOutcome::RejectedOracle);
    let outcome = try_move(
        &mut st,
        &mut checker,
        &Voxel::new(0, 0, 0),
        BACKGROUND_CELL,
        true,
        0,
    );
    assert_eq!(outcome, MoveOutcome::Committed { prev: 1 });
}

#[test]
fn move_to_nonbordering_region_is_invalid() {
    let mut st = PartitionState::new(3);
    st.seed_voxel(Voxel::new(0, 0, 0), 1, 1);
    st.seed_voxel(Voxel::new(1, 0, 0), 1, 1);
    st.seed_voxel(Voxel::new(9, 9, 0), 2, 1);
    let mut checker = ConnectivityChecker::new();
    let outcome = try_move(&mut st, &mut checker, &Voxel::new(0, 0, 0), 2, true, 0);
    assert_eq!(outcome, MoveOutcome::InvalidProposal);
}

#[test]
fn randomized_moves_preserve_connectivity_and_aggregates() {
    // A randomized single-layer move sequence, cross-validated after every
    // accepted move by the independent full flood fill and the aggregate
    // audit.
    let mut rng = rand::rngs::StdRng::seed_from_u64(7);
    let mut st = PartitionState::new(3);
    let mut voxels = Vec::new();
    for i in 0..4 {
        for j in 0..4 {
            let region = if i < 2 { 0 } else { 1 };
            let v = Voxel::new(i, j, 0);
            st.seed_voxel(v, region, (i * j) as u32);
            voxels.push(v);
        }
    }
    let mut checker = ConnectivityChecker::new();
    let mut committed = 0usize;
    for _ in 0..400 {
        let v = voxels[rng.random_range(0..voxels.len())];
        let current = st.region_of(&v).unwrap();
        let dests = candidate_destinations(&st, &v, current);
        if dests.is_empty() {
            continue;
        }
        let dest = dests[rng.random_range(0..dests.len())];
        let oracle = rng.random_range(0..4u32) > 0;
        let outcome = try_move(&mut st, &mut checker, &v, dest, oracle, 0);
        if let MoveOutcome::Committed { .. } = outcome {
            committed += 1;
            for reg in 0..2u32 {
                assert!(
                    st.region_is_connected(reg),
                    "region {} disconnected after accepted move",
                    reg
                );
            }
            assert!(st.audit());
        }
    }
    assert!(committed > 0);
}

#[test]
fn candidate_destinations_enumerate_bordering_regions() {
    let st = block_state();
    // A corner of the block: its two occupied neighbors are both region 5,
    // and background is always a candidate for a non-background voxel.
    let dests = candidate_destinations(&st, &Voxel::new(0, 0, 0), 5);
    assert_eq!(dests, vec![BACKGROUND_CELL]);
    // Next to the background center: region 5 neighbors are skipped when
    // current, listed when not.
    let dests = candidate_destinations(&st, &Voxel::new(1, 1, 0), BACKGROUND_CELL);
    assert_eq!(dests.len(), 6);
    assert!(dests.iter().all(|&c| c == 5));
    // A voxel bordering the center sees the background center once.
    let dests = candidate_destinations(&st, &Voxel::new(1, 0, 0), 5);
    assert_eq!(dests, vec![BACKGROUND_CELL, BACKGROUND_CELL]);
}

#[test]
fn schedule_plan_matches_run_structure() {
    let plan = plan_schedule(&vec![150, 150, 300], 100).unwrap();
    assert_eq!(plan.len(), 4);
    assert_eq!(
        plan[0],
        SchedulePhase { iterations: 150, double_before: false, record: false, burnin: true }
    );
    assert_eq!(
        plan[1],
        SchedulePhase { iterations: 150, double_before: true, record: false, burnin: true }
    );
    assert_eq!(
        plan[2],
        SchedulePhase { iterations: 200, double_before: true, record: false, burnin: false }
    );
    assert_eq!(
        plan[3],
        SchedulePhase { iterations: 100, double_before: false, record: true, burnin: false }
    );
    let single = plan_schedule(&vec![50], 10).unwrap();
    assert_eq!(single.len(), 2);
    assert_eq!(single[0].iterations, 40);
    assert_eq!(single[1].iterations, 10);
    assert!(single[1].record);
    assert!(plan_schedule(&vec![], 0).is_none());
    assert!(plan_schedule(&vec![50], 60).is_none());
}

#[test]
fn monitoring_cadence() {
    assert!(monitor_due(0, 10));
    assert!(!monitor_due(5, 10));
    assert!(monitor_due(20, 10));
    // Frequency zero means monitoring is off.
    assert!(!monitor_due(0, 0));
    assert!(!monitor_due(7, 0));
}

#[test]
fn platform_presets_pin_columns() {
    let x = platform_presets(Platform::Xenium);
    assert_eq!(x.transcript_column, "feature_name");
    assert_eq!(x.x_column, "x_location");
    assert_eq!(x.cell_id_unassigned, "UNASSIGNED");
    assert_eq!(x.qv_column, Some("qv"));
    assert_eq!(x.scale, 4);
    let c = platform_presets(Platform::Cosmx);
    assert_eq!(c.x_column, "x_global_px");
    assert_eq!(c.scale, 20);
    let cm = platform_presets(Platform::CosmxMicron);
    assert_eq!(cm.x_column, "x");
    assert_eq!(cm.scale, 4);
    let m = platform_presets(Platform::Merfish);
    assert_eq!(m.transcript_column, "gene");
    assert_eq!(m.cell_id_unassigned, "NA");
}
