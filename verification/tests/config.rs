use std::path::Path;

use coordsfinder::config::{parse, parse_text, IntRange, ScanConfig, ScanOrder, TileSize};
use coordsfinder::model::EditableConfig;
use coordsfinder::types::{Face, RotationInfo, TextureAlgorithm};

const EXAMPLE: &str = "# A search.\n\
algorithm = sodium-1\n\
scanOrder = Linear\n\
directions = [90, 0, 270]\n\
xRange = (-100, 100)\n\
yRange = ( -64 , 320 )\n\
zRange = (0, 1)\n\
errorTolerance = 2\n\
cpuTileSize = (8, 4)\n\
gpuTileSize = (256, 512)\n\
verbose = true\n\
\n\
[filter]\n\
1 2 3 | 3\n\
\t-4   0  5 |  1 side  \n\
0 0 -1 | 2 netherrack-west\n";

#[test]
fn reads_every_setting_and_row() {
    let config = parse_text(EXAMPLE).unwrap();
    assert_eq!(config.algorithm, TextureAlgorithm::Sodium1);
    assert_eq!(config.scan_order, ScanOrder::Linear);
    assert_eq!(config.directions, vec![90, 0, 270]);
    assert_eq!(config.x_range, IntRange { start: -100, end: 100 });
    assert_eq!(config.y_range, IntRange { start: -64, end: 320 });
    assert_eq!(config.z_range, IntRange { start: 0, end: 1 });
    assert_eq!(config.error_tolerance, 2);
    assert_eq!(config.cpu_tile_size, TileSize { x: 8, z: 4 });
    assert_eq!(config.gpu_tile_size, TileSize { x: 256, z: 512 });
    assert!(config.verbose);
    assert_eq!(
        config.filter,
        vec![
            RotationInfo::new(1, 2, 3, 3, false),
            RotationInfo::new(-4, 0, 5, 1, true),
            RotationInfo::netherrack(0, 0, -1, 2, Face::West),
        ]
    );
}

#[test]
fn missing_settings_keep_their_defaults() {
    let config = parse_text("[filter]\n0 0 0 | 1\n").unwrap();
    let defaults = ScanConfig::default();
    assert_eq!(config.algorithm, defaults.algorithm);
    assert_eq!(config.directions, vec![0]);
    assert_eq!(config.x_range, defaults.x_range);
    assert_eq!(config.cpu_tile_size, TileSize { x: 16, z: 16 });
    assert_eq!(config.gpu_tile_size, TileSize { x: 1024, z: 1024 });
    assert_eq!(config.filter, vec![RotationInfo::new(0, 0, 0, 1, false)]);
}

fn error_of(text: &str) -> String {
    parse_text(text).unwrap_err()
}

#[test]
fn reports_each_kind_of_mistake_with_its_line() {
    assert_eq!(error_of("algorithm Vanilla-3\n"), "line 1: expected a setting such as `key = value`");
    assert_eq!(error_of("\nspeed = 3\n"), "line 2: unknown setting 'speed'");
    assert_eq!(error_of("algorithm = Vanilla-9\n"), "line 1: unknown texture algorithm 'Vanilla-9'");
    assert_eq!(error_of("scanOrder = zigzag\n"), "line 1: scanOrder must be linear or spiral");
    assert_eq!(error_of("directions = 0\n"), "line 1: directions must be a list such as [0, 90]");
    assert_eq!(error_of("directions = []\n"), "line 1: directions must list at least one direction");
    assert_eq!(error_of("directions = [0, 45]\n"), "line 1: direction 45 is not one of 0, 90, 180, 270");
    assert_eq!(error_of("directions = [90, 90]\n"), "line 1: direction 90 is listed twice");
    assert_eq!(
        error_of("xRange = (1)\n"),
        "line 1: xRange must be a pair of integers such as (-100, 100)"
    );
    assert_eq!(error_of("zRange = (5, 5)\n"), "line 1: zRange is empty: its start must be below its end");
    assert_eq!(error_of("errorTolerance = -1\n"), "line 1: errorTolerance must be a non-negative integer");
    assert_eq!(
        error_of("gpuTileSize = (0, 4)\n"),
        "line 1: gpuTileSize must be a pair of positive integers such as (16, 16)"
    );
    assert_eq!(error_of("verbose = yes\n"), "line 1: verbose must be true or false");
    assert_eq!(error_of("[search]\n"), "line 1: unknown section [search]");
    assert_eq!(
        error_of("[filter]\n0 0 | 1\n"),
        "line 2: expected a filter row such as `x y z | rotation [side|netherrack-<face>]`"
    );
    assert_eq!(
        error_of("[filter]\n0 0 200 | 1\n"),
        "line 2: filter offsets must lie between -128 and 127"
    );
    assert_eq!(error_of("[filter]\n0 0 0 | 1 top\n"), "line 2: unknown row marker 'top'");
    assert_eq!(
        error_of("[filter]\n0 0 0 | 2 side\n"),
        "line 2: rotation must be between 0 and 1 for this row"
    );
    assert_eq!(
        error_of("[filter]\n"),
        "filter has no usable block constraints after combining observations"
    );
}

#[test]
fn errors_name_their_source() {
    let error = parse("verbose = maybe\n", Path::new("search.conf")).unwrap_err();
    assert_eq!(error, "search.conf: line 1: verbose must be true or false");
    assert!(parse("[filter]\n1 1 1 | 0\n", Path::new("search.conf")).is_ok());
}

#[test]
fn comments_and_blank_lines_are_ignored() {
    let config = parse_text("  # note\n\n   \ndirections = [ 180 ]\r\n[filter]\n# row\n3 3 3 | 0\n").unwrap();
    assert_eq!(config.directions, vec![180]);
    assert_eq!(config.filter.len(), 1);
}

#[test]
fn a_parsed_config_survives_a_save() {
    let ascending = EXAMPLE.replace("directions = [90, 0, 270]", "directions = [0, 90, 270]");
    let loaded = parse_text(&ascending).unwrap();
    let written = EditableConfig::from_scan_config(&loaded).to_conf_text();
    let reparsed = parse_text(&written).unwrap();
    assert_eq!(reparsed, loaded);
}

#[test]
fn a_save_lists_directions_in_ascending_order() {
    let loaded = parse_text(EXAMPLE).unwrap();
    let written = EditableConfig::from_scan_config(&loaded).to_conf_text();
    let reparsed = parse_text(&written).unwrap();
    assert_eq!(reparsed.directions, vec![0, 90, 270]);
    assert_eq!(reparsed.filter, loaded.filter);
    assert_eq!(reparsed.x_range, loaded.x_range);
}
