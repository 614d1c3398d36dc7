use coordsfinder::config::{IntRange, ScanConfig, ScanOrder, TileSize};
use coordsfinder::scan::{candidate_count, make_plan, WorkItem};
use coordsfinder::types::Int3;

fn area(order: ScanOrder, x: (i32, i32), z: (i32, i32), directions: Vec<i32>) -> ScanConfig {
    ScanConfig {
        scan_order: order,
        directions,
        x_range: IntRange { start: x.0, end: x.1 },
        y_range: IntRange { start: -2, end: 3 },
        z_range: IntRange { start: z.0, end: z.1 },
        ..ScanConfig::default()
    }
}

fn items(config: &ScanConfig, tile: TileSize) -> Vec<WorkItem> {
    let plan = make_plan(config, tile).unwrap();
    (0..plan.total_items())
        .map(|n| plan.work_item(n).unwrap())
        .collect()
}

#[test]
fn linear_plans_walk_columns_then_rows_then_directions() {
    let config = area(ScanOrder::Linear, (0, 5), (10, 14), vec![0, 90]);
    let found = items(&config, TileSize { x: 2, z: 3 });
    assert_eq!(found.len(), 3 * 2 * 2);
    assert_eq!(
        found[0],
        WorkItem {
            start: Int3 { x: 0, y: -2, z: 10 },
            end: Int3 { x: 2, y: 3, z: 13 },
            direction_index: 0,
            direction: 0,
        }
    );
    assert_eq!(found[1].direction, 90);
    assert_eq!((found[2].start.z, found[2].end.z), (13, 14));
    assert_eq!((found[11].start.x, found[11].end.x), (4, 5));
    let plan = make_plan(&config, TileSize { x: 2, z: 3 }).unwrap();
    assert!(plan.work_item(12).is_none());
}

#[test]
fn spiral_plans_start_at_the_origin_tile() {
    let config = area(ScanOrder::Spiral, (-10, 10), (-10, 10), vec![0]);
    let found = items(&config, TileSize { x: 4, z: 4 });
    assert_eq!(found.len(), 25);
    // The origin lies in column 2, row 2.
    assert_eq!((found[0].start.x, found[0].start.z), (-2, -2));
    // The next eight tiles form the ring around it.
    for item in &found[1..9] {
        assert!((item.start.x - -2).abs() <= 4 && (item.start.z - -2).abs() <= 4);
    }
}

#[test]
fn every_candidate_is_scanned_once_per_direction() {
    for order in [ScanOrder::Linear, ScanOrder::Spiral] {
        let config = area(order, (-7, 6), (3, 12), vec![0, 180]);
        let found = items(&config, TileSize { x: 4, z: 5 });
        for x in -7..6 {
            for z in 3..12 {
                for direction_index in 0..2 {
                    let holders = found
                        .iter()
                        .filter(|item| {
                            item.direction_index == direction_index
                                && item.start.x <= x
                                && x < item.end.x
                                && item.start.z <= z
                                && z < item.end.z
                        })
                        .count();
                    assert_eq!(holders, 1);
                }
            }
        }
    }
}

#[test]
fn candidates_are_counted_and_saturated() {
    let config = area(ScanOrder::Linear, (0, 5), (10, 14), vec![0, 90]);
    let plan = make_plan(&config, TileSize { x: 2, z: 3 }).unwrap();
    assert_eq!(plan.total_candidates, 5 * 4 * 5 * 2);
    assert!(!plan.total_candidates_saturated);
    let item = plan.work_item(0).unwrap();
    assert_eq!(candidate_count(&item), (2 * 3 * 5, false));
    let huge = WorkItem {
        start: Int3 { x: i32::MIN, y: i32::MIN, z: i32::MIN },
        end: Int3 { x: i32::MAX, y: i32::MAX, z: i32::MAX },
        direction_index: 0,
        direction: 0,
    };
    assert_eq!(candidate_count(&huge), (u64::MAX, true));
    let empty = WorkItem { end: Int3 { x: 0, y: 0, z: 0 }, start: Int3 { x: 1, y: 0, z: 0 }, ..huge };
    assert_eq!(candidate_count(&empty), (0, false));
}

#[test]
fn plans_that_cannot_be_made_are_refused() {
    let config = area(ScanOrder::Linear, (0, 5), (10, 14), vec![0]);
    assert_eq!(
        make_plan(&config, TileSize { x: 0, z: 3 }).err(),
        Some("tile size must be positive".to_owned())
    );
    let empty = area(ScanOrder::Linear, (5, 5), (10, 14), vec![0]);
    assert_eq!(
        make_plan(&empty, TileSize { x: 1, z: 1 }).err(),
        Some("scan ranges must not be empty".to_owned())
    );
    let undirected = area(ScanOrder::Linear, (0, 5), (10, 14), vec![]);
    assert_eq!(
        make_plan(&undirected, TileSize { x: 1, z: 1 }).err(),
        Some("at least one direction is required".to_owned())
    );
    let wide = area(ScanOrder::Linear, (-30_000_000, 30_000_000), (0, 16), vec![0]);
    assert_eq!(
        make_plan(&wide, TileSize { x: 1, z: 1 }).err(),
        Some("the plan needs more than 16777216 work items; use a larger tile size".to_owned())
    );
}

#[test]
fn spiral_plans_never_step_back_inwards() {
    let config = area(ScanOrder::Spiral, (-9, 30), (-40, 7), vec![0]);
    let tile = TileSize { x: 4, z: 5 };
    let found = items(&config, tile);
    // The origin sits in column 2 (x from -1) and row 8 (z from 0).
    assert_eq!((found[0].start.x, found[0].start.z), (-1, 0));
    let ring = |item: &WorkItem| {
        let column = (item.start.x - -9) / tile.x;
        let row = (item.start.z - -40) / tile.z;
        (column - 2).abs().max((row - 8).abs())
    };
    for pair in found.windows(2) {
        assert!(ring(&pair[0]) <= ring(&pair[1]));
    }
}
