//! The GPU backend's decisions, apart from the device work itself: what a
//! compiled pipeline is specialised to, what each tile dispatches, and how
//! the counters read back after a tile are judged.

use vstd::prelude::*;

use crate::config::ScanConfig;
use crate::filter::{failure_message, prepare_filters, prepared_filters, rotations_fit};
use crate::scan::WorkItem;
use crate::types::{CompiledRotation, Match, TextureAlgorithm};

verus! {

/// Matches one tile may report before its result buffer overflows.
pub const RESULT_CAPACITY: u32 = 262_144;
/// Candidates per workgroup along X and along Z.
pub const WORKGROUP_XZ: u32 = 16;
/// Layers each shader invocation checks along Y.
pub const CANDIDATES_PER_THREAD_Y: u32 = 32;

/// The configuration values a compiled search pipeline is specialised to.
#[derive(Clone, Copy, Debug, PartialEq, Eq, Structural)]
pub struct ShaderSpecialization {
    pub algorithm: TextureAlgorithm,
    pub error_tolerance: i32,
    pub y_start: i32,
    pub y_end: i32,
}

impl ShaderSpecialization {
    /// The specialisation for a configuration whose filter compiles.
    pub fn new(config: &ScanConfig) -> (specialization: Result<ShaderSpecialization, String>)
        requires
            rotations_fit(config.filter@, config.directions@),
        ensures
            match prepared_filters(
                config.filter@,
                config.algorithm,
                config.directions@,
                config.error_tolerance,
            ) {
                Ok(_) => specialization == Ok::<ShaderSpecialization, String>(
                    ShaderSpecialization {
                        algorithm: config.algorithm,
                        error_tolerance: config.error_tolerance,
                        y_start: config.y_range.start,
                        y_end: config.y_range.end,
                    },
                ),
                Err(failure) => specialization matches Err(message) && message@ == failure_message(
                    failure,
                    config.error_tolerance,
                ),
            },
    {
        match prepare_filters(
            config.filter.as_slice(),
            config.algorithm,
            config.directions.as_slice(),
            config.error_tolerance,
        ) {
            Ok(_) => Ok(
                ShaderSpecialization {
                    algorithm: config.algorithm,
                    error_tolerance: config.error_tolerance,
                    y_start: config.y_range.start,
                    y_end: config.y_range.end,
                },
            ),
            Err(message) => Err(message),
        }
    }
}

/// The 16-byte uniform record of one block constraint: the offsets, then the
/// acceptance mask.
pub fn filter_record(constraint: CompiledRotation) -> (record: [i32; 4])
    ensures
        record@ == seq![
            constraint.x as i32,
            constraint.y as i32,
            constraint.z as i32,
            constraint.accepted_indices as i32,
        ],
{
    let record = [
        constraint.x as i32,
        constraint.y as i32,
        constraint.z as i32,
        constraint.accepted_indices as i32,
    ];
    assert(record@ =~= seq![
        constraint.x as i32,
        constraint.y as i32,
        constraint.z as i32,
        constraint.accepted_indices as i32,
    ]);
    record
}

/// The match a shader result record `(x, y, z, mismatches, direction)`
/// describes.
pub fn match_record(record: [i32; 5]) -> (found: Match)
    ensures
        found == (Match {
            x: record@[0],
            y: record@[1],
            z: record@[2],
            mismatches: record@[3],
            direction: record@[4],
        }),
{
    Match { x: record[0], y: record[1], z: record[2], mismatches: record[3], direction: record[4] }
}

/// `value / divisor`, rounded up.
pub open spec fn ceil_div(value: int, divisor: int) -> int {
    (value + divisor - 1) / divisor
}

/// What one tile dispatches: workgroup counts along X, Y and Z, and the
/// shader parameters `(start x, start z, x span, z span, direction, forced
/// errors, constraint count)`.
pub struct TileDispatch {
    pub workgroups: [u32; 3],
    pub params: [u32; 7],
}

/// What to do with one work item.
pub enum TileStep {
    /// The forced errors alone exceed the tolerance: count the tile as done.
    Skip,
    Dispatch(TileDispatch),
}

/// The span of `[start, end)` as the shader receives it.
pub open spec fn span_param(start: i32, end: i32) -> u32 {
    (end - start) as u32
}

/// The workgroup counts a work item needs.
pub open spec fn workgroups_for(item: WorkItem) -> Seq<int> {
    seq![
        ceil_div(span_param(item.start.x, item.end.x) as int, WORKGROUP_XZ as int),
        ceil_div(span_param(item.start.y, item.end.y) as int, CANDIDATES_PER_THREAD_Y as int),
        ceil_div(span_param(item.start.z, item.end.z) as int, WORKGROUP_XZ as int),
    ]
}

/// Whether a work item fits the adapter's per-dimension workgroup limit.
pub open spec fn dispatch_fits(item: WorkItem, max_workgroups: u32) -> bool {
    forall|i: int| 0 <= i < 3 ==> #[trigger] workgroups_for(item)[i] <= max_workgroups
}

fn ceil_div_u32(value: u32, divisor: u32) -> (quotient: u32)
    requires
        divisor > 0,
    ensures
        quotient == ceil_div(value as int, divisor as int),
{
    let q: u64 = (value as u64 + divisor as u64 - 1) / divisor as u64;
    proof {
        let v = value as int;
        let d = divisor as int;
        if v == 0 {
            vstd::arithmetic::div_mod::lemma_basic_div(d - 1, d);
        } else {
            assert(v + d - 1 <= v * d) by (nonlinear_arith)
                requires
                    v >= 1,
                    d >= 1,
            ;
            vstd::arithmetic::div_mod::lemma_div_is_ordered(v + d - 1, v * d, d);
            vstd::arithmetic::div_mod::lemma_div_multiples_vanish(v, d);
        }
    }
    q as u32
}

fn span_of(start: i32, end: i32) -> (span: u32)
    ensures
        span == span_param(start, end),
{
    let span = (end as i64 - start as i64) as u32;
    assert(span == (end - start) as u32) by (bit_vector)
        requires
            span == ((end as i64 - start as i64) as u32),
    ;
    span
}

/// Decides what to do with one work item.
pub fn tile_step(
    item: &WorkItem,
    forced_errors: i32,
    constraint_count: usize,
    tolerance: i32,
    max_workgroups: u32,
) -> (step: Result<TileStep, String>)
    ensures
        forced_errors > tolerance ==> (step matches Ok(TileStep::Skip)),
        forced_errors <= tolerance && !dispatch_fits(*item, max_workgroups) ==> (step matches Err(
            message,
        ) && message@ == "gpuTileSize or Y range exceeds this adapter's dispatch limits"@),
        forced_errors <= tolerance && dispatch_fits(*item, max_workgroups) ==> (step matches Ok(
            TileStep::Dispatch(dispatch),
        ) && dispatch.workgroups@.map_values(|count: u32| count as int) == workgroups_for(*item)
            && dispatch.params@ == seq![
            item.start.x as u32,
            item.start.z as u32,
            span_param(item.start.x, item.end.x),
            span_param(item.start.z, item.end.z),
            item.direction as u32,
            forced_errors as u32,
            constraint_count as u32,
        ]),
{
    if forced_errors > tolerance {
        return Ok(TileStep::Skip);
    }
    let x_span = span_of(item.start.x, item.end.x);
    let y_span = span_of(item.start.y, item.end.y);
    let z_span = span_of(item.start.z, item.end.z);
    let workgroups = [
        ceil_div_u32(x_span, WORKGROUP_XZ),
        ceil_div_u32(y_span, CANDIDATES_PER_THREAD_Y),
        ceil_div_u32(z_span, WORKGROUP_XZ),
    ];
    assert(workgroups_for(*item)[0] == workgroups@[0] as int);
    assert(workgroups_for(*item)[1] == workgroups@[1] as int);
    assert(workgroups_for(*item)[2] == workgroups@[2] as int);
    assert(workgroups@.map_values(|count: u32| count as int) =~= workgroups_for(*item));
    if workgroups[0] > max_workgroups || workgroups[1] > max_workgroups || workgroups[2]
        > max_workgroups {
        return Err("gpuTileSize or Y range exceeds this adapter's dispatch limits".to_owned());
    }
    let params = [
        item.start.x as u32,
        item.start.z as u32,
        x_span,
        z_span,
        item.direction as u32,
        forced_errors as u32,
        constraint_count as u32,
    ];
    Ok(TileStep::Dispatch(TileDispatch { workgroups, params }))
}

/// The number of matches a tile reports from its counters `(matches,
/// overflowed)`, or the error for a tile whose results overflowed.
pub fn tile_matches(counters: [u32; 2]) -> (count: Result<u32, String>)
    ensures
        counters@[1] != 0 ==> (count matches Err(message) && message@
            == "a GPU tile produced more than 262144 matches; reduce gpuTileSize"@),
        counters@[1] == 0 ==> count == Ok::<u32, String>(counters@[0]),
{
    if counters[1] != 0 {
        return Err("a GPU tile produced more than 262144 matches; reduce gpuTileSize".to_owned());
    }
    Ok(counters[0])
}

} // verus!
