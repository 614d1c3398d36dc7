use coordsfinder::config::{IntRange, ScanConfig, ScanOrder, TileSize};
use coordsfinder::cpu::{scan_work_item, CpuScanner};
use coordsfinder::scan::make_plan;
use coordsfinder::texture::get_texture;
use coordsfinder::types::{Face, Match, RotationInfo, TextureAlgorithm};

#[test]
fn matches_all_texture_algorithms() {
    let coordinate = (17, -4, -31);
    for algorithm in [
        TextureAlgorithm::Vanilla1,
        TextureAlgorithm::Vanilla2,
        TextureAlgorithm::Vanilla3,
        TextureAlgorithm::Sodium1,
        TextureAlgorithm::Sodium2,
    ] {
        let config = ScanConfig {
            algorithm,
            scan_order: ScanOrder::Linear,
            directions: vec![0],
            x_range: IntRange {
                start: coordinate.0,
                end: coordinate.0 + 1,
            },
            y_range: IntRange {
                start: coordinate.1,
                end: coordinate.1 + 1,
            },
            z_range: IntRange {
                start: coordinate.2,
                end: coordinate.2 + 1,
            },
            cpu_tile_size: TileSize { x: 1, z: 1 },
            filter: vec![RotationInfo::new(
                0,
                0,
                0,
                get_texture(algorithm, coordinate.0, coordinate.1, coordinate.2, 4),
                false,
            )],
            ..ScanConfig::default()
        };
        let plan = make_plan(&config, config.cpu_tile_size).unwrap();
        let mut found = Vec::new();
        CpuScanner::new(2)
            .unwrap()
            .scan(&config, &plan, &mut found, &mut Vec::new(), || false)
            .unwrap();
        assert_eq!(
            found,
            vec![Match {
                x: coordinate.0,
                y: coordinate.1,
                z: coordinate.2,
                mismatches: 0,
                direction: 0,
            }],
            "{}",
            algorithm.name()
        );
    }
}

#[test]
fn counts_conflicting_faces_once_per_block() {
    let expected = get_texture(TextureAlgorithm::Vanilla3, 1, 0, 0, 4);
    let config = ScanConfig {
        algorithm: TextureAlgorithm::Vanilla3,
        scan_order: ScanOrder::Linear,
        directions: vec![0],
        x_range: IntRange { start: 0, end: 1 },
        y_range: IntRange { start: 0, end: 1 },
        z_range: IntRange { start: 0, end: 1 },
        error_tolerance: 1,
        cpu_tile_size: TileSize { x: 1, z: 1 },
        filter: vec![
            RotationInfo::netherrack(0, 0, 0, 0, Face::Up),
            RotationInfo::netherrack(0, 0, 0, 1, Face::Up),
            RotationInfo::new(1, 0, 0, expected, false),
        ],
        ..ScanConfig::default()
    };
    let plan = make_plan(&config, config.cpu_tile_size).unwrap();
    let mut found = Vec::new();
    CpuScanner::new(1)
        .unwrap()
        .scan(&config, &plan, &mut found, &mut Vec::new(), || false)
        .unwrap();
    assert_eq!(found.len(), 1);
    assert_eq!(found[0].mismatches, 1);
}

#[test]
fn skips_direction_ruled_out_by_combined_faces() {
    let expected = get_texture(TextureAlgorithm::Vanilla1, 0, 0, 0, 4);
    let config = ScanConfig {
        algorithm: TextureAlgorithm::Vanilla1,
        scan_order: ScanOrder::Linear,
        directions: vec![0, 90],
        x_range: IntRange { start: 0, end: 1 },
        y_range: IntRange { start: 0, end: 1 },
        z_range: IntRange { start: 0, end: 1 },
        cpu_tile_size: TileSize { x: 1, z: 1 },
        filter: vec![
            RotationInfo::new(0, 0, 0, expected, false),
            RotationInfo::new(0, 0, 0, expected & 1, true),
        ],
        ..ScanConfig::default()
    };
    let plan = make_plan(&config, config.cpu_tile_size).unwrap();
    let mut found = Vec::new();
    CpuScanner::new(1)
        .unwrap()
        .scan(&config, &plan, &mut found, &mut Vec::new(), || false)
        .unwrap();
    assert_eq!(found.len(), 1);
    assert_eq!(found[0].direction, 0);
}

#[test]
fn zero_threads_are_refused() {
    assert_eq!(
        CpuScanner::new(0).err(),
        Some("CPU thread count must be positive".to_owned())
    );
    assert_eq!(CpuScanner::new(3).unwrap().threads(), 3);
}

#[test]
fn progress_reports_every_finished_item() {
    let expected = get_texture(TextureAlgorithm::Vanilla3, 0, 0, 0, 4);
    let config = ScanConfig {
        algorithm: TextureAlgorithm::Vanilla3,
        scan_order: ScanOrder::Linear,
        directions: vec![0],
        x_range: IntRange { start: 0, end: 4 },
        y_range: IntRange { start: 0, end: 2 },
        z_range: IntRange { start: 0, end: 3 },
        cpu_tile_size: TileSize { x: 2, z: 2 },
        filter: vec![RotationInfo::new(0, 0, 0, expected, false)],
        ..ScanConfig::default()
    };
    let plan = make_plan(&config, config.cpu_tile_size).unwrap();
    assert_eq!(plan.total_items(), 4);
    let mut reports = Vec::new();
    let mut found = Vec::new();
    CpuScanner::new(1)
        .unwrap()
        .scan(&config, &plan, &mut found, &mut reports, || false)
        .unwrap();
    assert_eq!(reports, vec![(8, 1), (12, 2), (20, 3), (24, 4)]);
    assert!(found.contains(&Match { x: 0, y: 0, z: 0, mismatches: 0, direction: 0 }));
}

#[test]
fn a_cancelled_scan_reports_nothing() {
    let config = ScanConfig {
        filter: vec![RotationInfo::new(0, 0, 0, 0, false)],
        ..ScanConfig::default()
    };
    let plan = make_plan(&config, TileSize { x: 1024, z: 1024 }).unwrap();
    let mut reports = Vec::new();
    let mut found = Vec::new();
    CpuScanner::new(1)
        .unwrap()
        .scan(&config, &plan, &mut found, &mut reports, || true)
        .unwrap();
    assert!(reports.is_empty());
    assert!(found.is_empty());
}

#[test]
fn a_filter_that_does_not_compile_is_reported_before_any_call() {
    let config = ScanConfig {
        filter: vec![
            RotationInfo::new(0, 0, 0, 1, false),
            RotationInfo::netherrack(0, 0, 0, 1, coordsfinder::types::Face::Up),
        ],
        ..ScanConfig::default()
    };
    let plan = make_plan(&config, TileSize { x: 1024, z: 1024 }).unwrap();
    let mut found = Vec::new();
    let mut reports = Vec::new();
    let outcome = CpuScanner::new(1)
        .unwrap()
        .scan(&config, &plan, &mut found, &mut reports, || false);
    assert!(outcome.unwrap_err().contains("mixes ordinary and netherrack"));
    assert!(found.is_empty() && reports.is_empty());
}

#[test]
fn a_work_item_reports_matches_in_scan_order() {
    let expected = get_texture(TextureAlgorithm::Sodium2, 5, 1, 7, 4);
    let config = ScanConfig {
        algorithm: TextureAlgorithm::Sodium2,
        scan_order: ScanOrder::Linear,
        directions: vec![0],
        x_range: IntRange { start: 5, end: 6 },
        y_range: IntRange { start: 1, end: 2 },
        z_range: IntRange { start: 7, end: 8 },
        filter: vec![RotationInfo::new(0, 0, 0, expected, false)],
        ..ScanConfig::default()
    };
    let plan = make_plan(&config, TileSize { x: 1, z: 1 }).unwrap();
    let item = plan.work_item(0).unwrap();
    let prepared = coordsfinder::filter::prepare_filters(
        &config.filter,
        config.algorithm,
        &config.directions,
        0,
    )
    .unwrap();
    let (found, finished) = scan_work_item(
        config.algorithm,
        &item,
        &prepared.directions[0].constraints,
        prepared.directions[0].forced_errors,
        0,
        &|| false,
    );
    assert!(finished);
    assert_eq!(found, vec![Match { x: 5, y: 1, z: 7, mismatches: 0, direction: 0 }]);
    let (none, stopped) = scan_work_item(
        config.algorithm,
        &item,
        &prepared.directions[0].constraints,
        prepared.directions[0].forced_errors,
        0,
        &|| true,
    );
    assert!(!stopped);
    assert!(none.is_empty());
}

#[test]
fn every_candidate_within_tolerance_is_found_once() {
    let config = ScanConfig {
        algorithm: TextureAlgorithm::Vanilla3,
        scan_order: ScanOrder::Linear,
        directions: vec![0, 90],
        x_range: IntRange { start: -3, end: 3 },
        y_range: IntRange { start: 0, end: 2 },
        z_range: IntRange { start: -3, end: 3 },
        cpu_tile_size: TileSize { x: 4, z: 4 },
        error_tolerance: 1,
        filter: vec![RotationInfo::new(0, 0, 0, 0, false)],
        ..ScanConfig::default()
    };
    let plan = make_plan(&config, config.cpu_tile_size).unwrap();
    let mut found = Vec::new();
    let mut reports = Vec::new();
    CpuScanner::new(1)
        .unwrap()
        .scan(&config, &plan, &mut found, &mut reports, || false)
        .unwrap();
    // One row and a tolerance of one accept every candidate: 6 x 6 columns,
    // 2 layers, 2 directions, each once.
    assert_eq!(found.len(), 144);
    for (i, a) in found.iter().enumerate() {
        assert!(!found[i + 1..].contains(a));
    }
    assert_eq!(reports.len(), plan.total_items());
}
