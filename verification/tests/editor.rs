use coordsfinder::config::{parse_text, IntRange, ScanConfig, TileSize};
use coordsfinder::gpu::{filter_record, match_record, tile_matches, tile_step, ShaderSpecialization, TileStep};
use coordsfinder::grid::{
    clamped_rotation, click_cell, cycled_rotation, drag_cell, fitted_bounds, rows_at,
};
use coordsfinder::model::{Brush, EditableConfig};
use coordsfinder::runner::BackendChoice;
use coordsfinder::scan::WorkItem;
use coordsfinder::summary::{summarize, thousands, Editor, Results};
use coordsfinder::types::{CompiledRotation, Face, Int3, Match, RotationInfo};

#[test]
fn thousands_groups_digits_from_the_right() {
    assert_eq!(thousands(0), "0");
    assert_eq!(thousands(999), "999");
    assert_eq!(thousands(1_000), "1\u{2009}000");
    assert_eq!(thousands(1_234_567), "1\u{2009}234\u{2009}567");
    assert_eq!(thousands(100_000_005), "100\u{2009}000\u{2009}005");
    assert_eq!(thousands(u64::MAX), "18\u{2009}446\u{2009}744\u{2009}073\u{2009}709\u{2009}551\u{2009}615");
}

#[test]
fn summarizes_a_valid_config() {
    let config = parse_text(
        "directions = [0, 90]\nxRange = (0, 100)\nyRange = (0, 10)\nzRange = (0, 50)\n\
         cpuTileSize = (16, 16)\ngpuTileSize = (64, 64)\nerrorTolerance = 1\n[filter]\n\
         0 0 0 | 0 netherrack-up\n0 0 0 | 1 netherrack-up\n1 0 0 | 2\n2 0 0 | 1\n",
    )
    .unwrap();
    let summary = summarize(config).unwrap();
    assert_eq!(summary.constraints, 3);
    assert_eq!(summary.cpu_items, 7 * 4 * 2);
    assert_eq!(summary.gpu_items, 2 * 1 * 2);
    assert_eq!(summary.candidates, 100 * 50 * 10 * 2);
    assert!(!summary.saturated);
    assert!(summary.warning.is_some());
}

#[test]
fn summarizing_reports_plan_problems() {
    let config = ScanConfig {
        cpu_tile_size: TileSize { x: 0, z: 1 },
        filter: vec![RotationInfo::new(0, 0, 0, 1, false)],
        ..ScanConfig::default()
    };
    assert_eq!(summarize(config).err(), Some("tile size must be positive".to_owned()));
}

#[test]
fn cells_split_rows_by_layer() {
    let mut config = EditableConfig::default();
    config.paint(1, 0, 2, Brush::FourWay, 1);
    config.paint(1, 0, 2, Brush::Side, 0);
    config.paint(1, 3, 2, Brush::FourWay, 2);
    config.paint(0, 0, 2, Brush::FourWay, 2);
    let cell = rows_at(&config, 1, 2, 0);
    assert_eq!(
        cell.here,
        vec![RotationInfo::new(1, 0, 2, 1, false), RotationInfo::new(1, 0, 2, 0, true)]
    );
    assert_eq!(cell.elsewhere, 1);
}

#[test]
fn fitting_keeps_a_margin_and_a_minimum_size() {
    assert_eq!(fitted_bounds(None), (-5, 5, -5, 5));
    assert_eq!(fitted_bounds(Some((0, 10, -2, -2))), (-3, 13, -7, 3));
    assert_eq!(fitted_bounds(Some((-128, 127, 120, 127))), (-128, 127, 117, 127));
}

#[test]
fn rotations_cycle_within_the_brush() {
    assert_eq!(cycled_rotation(3, Brush::FourWay), 0);
    assert_eq!(cycled_rotation(1, Brush::Netherrack(Face::Up)), 2);
    assert_eq!(cycled_rotation(1, Brush::Side), 0);
    assert_eq!(clamped_rotation(3, Brush::Side), 1);
    assert_eq!(clamped_rotation(3, Brush::FourWay), 3);
}

#[test]
fn gpu_tiles_dispatch_or_skip() {
    let item = WorkItem {
        start: Int3 { x: -3, y: -64, z: 5 },
        end: Int3 { x: 30, y: 320, z: 21 },
        direction_index: 1,
        direction: 90,
    };
    match tile_step(&item, 0, 7, 1, 65_535).unwrap() {
        TileStep::Dispatch(dispatch) => {
            assert_eq!(dispatch.workgroups, [3, 12, 1]);
            assert_eq!(dispatch.params, [(-3i32) as u32, 5, 33, 16, 90, 0, 7]);
        }
        TileStep::Skip => panic!("expected a dispatch"),
    }
    assert!(matches!(tile_step(&item, 2, 7, 1, 65_535), Ok(TileStep::Skip)));
    assert_eq!(
        tile_step(&item, 0, 7, 1, 2).err(),
        Some("gpuTileSize or Y range exceeds this adapter's dispatch limits".to_owned())
    );
    assert_eq!(tile_matches([12, 0]), Ok(12));
    assert!(tile_matches([262_144, 1]).is_err());
    assert_eq!(
        filter_record(CompiledRotation { x: -1, y: 2, z: -3, accepted_indices: 0x8001 }),
        [-1, 2, -3, 0x8001]
    );
    assert_eq!(
        match_record([1, 2, 3, 0, 270]),
        Match { x: 1, y: 2, z: 3, mismatches: 0, direction: 270 }
    );
}

#[test]
fn shader_specialization_follows_the_config() {
    let config = ScanConfig {
        y_range: IntRange { start: -10, end: 20 },
        filter: vec![RotationInfo::new(0, 0, 0, 1, false)],
        ..ScanConfig::default()
    };
    let specialization = ShaderSpecialization::new(&config).unwrap();
    assert_eq!((specialization.y_start, specialization.y_end), (-10, 20));
    assert!(ShaderSpecialization::new(&ScanConfig::default()).is_err());
}

#[test]
fn backend_choices_and_panes() {
    assert_eq!(BackendChoice::default(), BackendChoice::Auto);
    let labels: Vec<&str> = BackendChoice::all().iter().map(|choice| choice.label()).collect();
    assert_eq!(labels, vec!["Auto", "CPU", "GPU"]);
    assert!(Editor::Grid != Editor::Rows);
    assert!(Results::Matches != Results::Log);
}

#[test]
fn repeated_clicks_cycle_a_cell() {
    let mut config = EditableConfig::default();
    let mut rotation = 1;
    rotation = click_cell(&mut config, 2, 0, -3, Brush::FourWay, rotation);
    assert_eq!(rotation, 1);
    assert_eq!(config.filter, vec![RotationInfo::new(2, 0, -3, 1, false)]);
    rotation = click_cell(&mut config, 2, 0, -3, Brush::FourWay, rotation);
    assert_eq!(rotation, 2);
    assert_eq!(config.filter, vec![RotationInfo::new(2, 0, -3, 2, false)]);
    rotation = click_cell(&mut config, 2, 0, -3, Brush::FourWay, rotation);
    rotation = click_cell(&mut config, 2, 0, -3, Brush::FourWay, rotation);
    assert_eq!(rotation, 0);
    assert_eq!(config.filter, vec![RotationInfo::new(2, 0, -3, 0, false)]);
    // A side brush has two rotations.
    let side = click_cell(&mut config, 2, 0, -3, Brush::Side, 1);
    assert_eq!(side, 1);
    assert_eq!(click_cell(&mut config, 2, 0, -3, Brush::Side, side), 0);
}

#[test]
fn dragging_paints_only_what_differs() {
    let mut config = EditableConfig::default();
    assert!(drag_cell(&mut config, 0, 1, 0, Brush::Netherrack(Face::Up), 3));
    assert!(!drag_cell(&mut config, 0, 1, 0, Brush::Netherrack(Face::Up), 3));
    assert_eq!(config.filter, vec![RotationInfo::netherrack(0, 1, 0, 3, Face::Up)]);
    assert!(drag_cell(&mut config, 0, 1, 0, Brush::Netherrack(Face::Up), 2));
    assert_eq!(config.filter, vec![RotationInfo::netherrack(0, 1, 0, 2, Face::Up)]);
}

#[test]
fn clearing_a_layer_keeps_the_other_layers() {
    let mut config = EditableConfig::default();
    config.paint(0, 0, 0, Brush::FourWay, 1);
    config.paint(1, 2, 0, Brush::Side, 1);
    config.paint(2, 0, 3, Brush::FourWay, 2);
    config.clear_layer(0);
    assert_eq!(config.filter, vec![RotationInfo::new(1, 2, 0, 1, true)]);
}

#[test]
fn painting_keeps_one_row_per_block_and_kind() {
    let mut config = EditableConfig::default();
    for rotation in 0..4 {
        config.paint(1, 0, 1, Brush::FourWay, rotation);
        config.paint(1, 0, 1, Brush::Side, rotation);
        config.paint(2, 0, 1, Brush::Netherrack(Face::East), rotation);
        config.paint(2, 0, 1, Brush::Netherrack(Face::Up), rotation);
    }
    assert_eq!(config.filter.len(), 4);
    for (i, a) in config.filter.iter().enumerate() {
        for b in &config.filter[i + 1..] {
            assert!(!(a.x == b.x && a.y == b.y && a.z == b.z && a.kind == b.kind));
        }
    }
}
