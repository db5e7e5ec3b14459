use vstd::prelude::*;

verus! {

/// One phase of the outer sampling schedule.
#[derive(Clone, Copy, PartialEq, Eq, Structural, Debug)]
pub struct SchedulePhase {
    /// How many outer iterations to run.
    pub iterations: u64,
    /// Whether the planar resolution is doubled before this phase.
    pub double_before: bool,
    /// Whether per-iteration samples are recorded during this phase.
    pub record: bool,
    /// Whether this phase is part of the burn-in.
    pub burnin: bool,
}

/// Turns the outer iteration schedule into the phase list the run follows:
/// every entry but the last runs at increasing resolution during burn-in,
/// and the last entry is split so its final `recorded_samples` iterations
/// are recorded.  Returns `None` when the schedule is empty or asks to
/// record more samples than its last entry holds.
pub fn plan_schedule(schedule: &Vec<u64>, recorded_samples: u64) -> (r: Option<Vec<SchedulePhase>>)
    ensures
        (r is Some) <==> (schedule@.len() >= 1 && recorded_samples
            <= schedule@[schedule@.len() - 1]),
        r matches Some(ph) ==> {
            let n = schedule@.len();
            &&& ph@.len() == n + 1
            &&& (n > 1 ==> ph@[0] == (SchedulePhase {
                iterations: schedule@[0],
                double_before: false,
                record: false,
                burnin: true,
            }))
            &&& forall|i: int|
                1 <= i < n - 1 ==> ph@[i] == (SchedulePhase {
                    iterations: schedule@[i],
                    double_before: true,
                    record: false,
                    burnin: true,
                })
            &&& (n > 1 ==> ph@[n - 1] == (SchedulePhase {
                iterations: (schedule@[n - 1] - recorded_samples) as u64,
                double_before: true,
                record: false,
                burnin: false,
            }))
            &&& (n == 1 ==> ph@[0] == (SchedulePhase {
                iterations: (schedule@[0] - recorded_samples) as u64,
                double_before: false,
                record: false,
                burnin: false,
            }))
            &&& ph@[n as int] == (SchedulePhase {
                iterations: recorded_samples,
                double_before: false,
                record: true,
                burnin: false,
            })
        },
{
    let n = schedule.len();
    if n == 0 {
        return None;
    }
    let last = schedule[n - 1];
    if recorded_samples > last {
        return None;
    }
    let mut ph: Vec<SchedulePhase> = Vec::new();
    if n > 1 {
        ph.push(
            SchedulePhase {
                iterations: schedule[0],
                double_before: false,
                record: false,
                burnin: true,
            },
        );
        let mut i: usize = 1;
        while i < n - 1
            invariant
                n == schedule@.len(),
                n > 1,
                1 <= i <= n - 1,
                ph@.len() == i,
                ph@[0] == (SchedulePhase {
                    iterations: schedule@[0],
                    double_before: false,
                    record: false,
                    burnin: true,
                }),
                forall|x: int|
                    1 <= x < i ==> ph@[x] == (SchedulePhase {
                        iterations: schedule@[x],
                        double_before: true,
                        record: false,
                        burnin: true,
                    }),
            decreases n - i,
        {
            ph.push(
                SchedulePhase {
                    iterations: schedule[i],
                    double_before: true,
                    record: false,
                    burnin: true,
                },
            );
            i += 1;
        }
        ph.push(
            SchedulePhase {
                iterations: last - recorded_samples,
                double_before: true,
                record: false,
                burnin: false,
            },
        );
    } else {
        ph.push(
            SchedulePhase {
                iterations: last - recorded_samples,
                double_before: false,
                record: false,
                burnin: false,
            },
        );
    }
    ph.push(
        SchedulePhase {
            iterations: recorded_samples,
            double_before: false,
            record: true,
            burnin: false,
        },
    );
    Some(ph)
}

/// Decides whether a monitoring snapshot of the cell polygons is due at
/// step `total_steps`: one snapshot every `freq` steps, and never when
/// monitoring is off (`freq` zero).
pub fn monitor_due(total_steps: u64, freq: u64) -> (r: bool)
    ensures
        r == (freq != 0 && total_steps % freq == 0),
{
    freq != 0 && total_steps % freq == 0
}

/// The spatial platforms with built-in input presets.
#[derive(Clone, Copy, PartialEq, Eq, Structural, Debug)]
pub enum Platform {
    Xenium,
    Cosmx,
    CosmxMicron,
    Merfish,
}

/// The input-column presets of one platform, and the voxel scale its
/// coordinate units call for.
pub struct ColumnPresets {
    pub transcript_column: &'static str,
    pub transcript_id_column: Option<&'static str>,
    pub x_column: &'static str,
    pub y_column: &'static str,
    pub z_column: &'static str,
    pub compartment_column: Option<&'static str>,
    pub compartment_nuclear: Option<&'static str>,
    pub fov_column: Option<&'static str>,
    pub cell_id_column: &'static str,
    pub cell_id_unassigned: &'static str,
    pub qv_column: Option<&'static str>,
    pub scale: u32,
}

/// The optional column `o` is set and names `s`.
pub open spec fn named(o: Option<&'static str>, s: Seq<char>) -> bool {
    o matches Some(c) && c@ == s
}

/// The default input columns and voxel scale of each platform, every field
/// pinned.
pub fn platform_presets(p: Platform) -> (r: ColumnPresets)
    ensures
        p == Platform::Xenium ==> r.transcript_column@ == "feature_name"@ && named(
            r.transcript_id_column,
            "transcript_id"@,
        ) && r.x_column@ == "x_location"@ && r.y_column@ == "y_location"@ && r.z_column@
            == "z_location"@ && named(r.compartment_column, "overlaps_nucleus"@) && named(
            r.compartment_nuclear,
            "1"@,
        ) && r.fov_column is None && r.cell_id_column@ == "cell_id"@ && r.cell_id_unassigned@
            == "UNASSIGNED"@ && named(r.qv_column, "qv"@) && r.scale == 4,
        p == Platform::Cosmx ==> r.transcript_column@ == "target"@ && r.transcript_id_column
            is None && r.x_column@ == "x_global_px"@ && r.y_column@ == "y_global_px"@
            && r.z_column@ == "z"@ && named(r.compartment_column, "CellComp"@) && named(
            r.compartment_nuclear,
            "Nuclear"@,
        ) && named(r.fov_column, "fov"@) && r.cell_id_column@ == "cell_ID"@
            && r.cell_id_unassigned@ == "0"@ && r.qv_column is None && r.scale == 20,
        p == Platform::CosmxMicron ==> r.transcript_column@ == "target"@ && r.transcript_id_column
            is None && r.x_column@ == "x"@ && r.y_column@ == "y"@ && r.z_column@ == "z"@ && named(
            r.compartment_column,
            "CellComp"@,
        ) && named(r.compartment_nuclear, "Nuclear"@) && named(r.fov_column, "fov"@)
            && r.cell_id_column@ == "cell_ID"@ && r.cell_id_unassigned@ == "0"@ && r.qv_column
            is None && r.scale == 4,
        p == Platform::Merfish ==> r.transcript_column@ == "gene"@ && r.transcript_id_column
            is None && r.x_column@ == "x"@ && r.y_column@ == "y"@ && r.z_column@ == "z"@
            && r.compartment_column is None && r.compartment_nuclear is None && r.fov_column
            is None && r.cell_id_column@ == "cell"@ && r.cell_id_unassigned@ == "NA"@
            && r.qv_column is None && r.scale == 4,
{
    match p {
        Platform::Xenium => ColumnPresets {
            transcript_column: "feature_name",
            transcript_id_column: Some("transcript_id"),
            x_column: "x_location",
            y_column: "y_location",
            z_column: "z_location",
            compartment_column: Some("overlaps_nucleus"),
            compartment_nuclear: Some("1"),
            fov_column: None,
            cell_id_column: "cell_id",
            cell_id_unassigned: "UNASSIGNED",
            qv_column: Some("qv"),
            scale: 4,
        },
        Platform::Cosmx => ColumnPresets {
            transcript_column: "target",
            transcript_id_column: None,
            x_column: "x_global_px",
            y_column: "y_global_px",
            z_column: "z",
            compartment_column: Some("CellComp"),
            compartment_nuclear: Some("Nuclear"),
            fov_column: Some("fov"),
            cell_id_column: "cell_ID",
            cell_id_unassigned: "0",
            qv_column: None,
            scale: 20,
        },
        Platform::CosmxMicron => ColumnPresets {
            transcript_column: "target",
            transcript_id_column: None,
            x_column: "x",
            y_column: "y",
            z_column: "z",
            compartment_column: Some("CellComp"),
            compartment_nuclear: Some("Nuclear"),
            fov_column: Some("fov"),
            cell_id_column: "cell_ID",
            cell_id_unassigned: "0",
            qv_column: None,
            scale: 4,
        },
        Platform::Merfish => ColumnPresets {
            transcript_column: "gene",
            transcript_id_column: None,
            x_column: "x",
            y_column: "y",
            z_column: "z",
            compartment_column: None,
            compartment_nuclear: None,
            fov_column: None,
            cell_id_column: "cell",
            cell_id_unassigned: "NA",
            qv_column: None,
            scale: 4,
        },
    }
}

} // verus!
