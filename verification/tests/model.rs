use std::path::PathBuf;

use coordsfinder::model::{Brush, EditableConfig};
use coordsfinder::types::{Face, RotationInfo};

fn sample() -> EditableConfig {
    let mut config = EditableConfig {
        directions: [true, false, true, false],
        ..EditableConfig::default()
    };
    config.paint(-6, 0, 0, Brush::FourWay, 3);
    config.paint(-5, 0, -1, Brush::Side, 1);
    config.paint(0, 1, 0, Brush::Netherrack(Face::North), 2);
    config
}

#[test]
fn round_trips_through_the_real_parser() {
    let config = sample();
    let path = PathBuf::from("memory.conf");
    let parsed = config.to_scan_config(&path).unwrap();
    assert_eq!(parsed.directions, vec![0, 180]);
    assert_eq!(parsed.filter, config.filter);
    assert_eq!(EditableConfig::from_scan_config(&parsed), config);
}

#[test]
fn painting_replaces_the_same_brush_and_clears_mixed_selectors() {
    let mut config = EditableConfig::default();
    config.paint(1, 0, 1, Brush::FourWay, 2);
    config.paint(1, 0, 1, Brush::Side, 1);
    config.paint(1, 0, 1, Brush::FourWay, 0);
    assert_eq!(config.filter.len(), 2);
    assert_eq!(config.filter[0].rotation, 0);

    // A netherrack row cannot share a block with ordinary rows.
    config.paint(1, 0, 1, Brush::Netherrack(Face::Up), 3);
    assert_eq!(
        config.filter,
        vec![RotationInfo::netherrack(1, 0, 1, 3, Face::Up)]
    );
}

#[test]
fn rejects_filter_text_that_the_parser_rejects() {
    let mut config = sample();
    let path = PathBuf::from("memory.conf");
    assert!(config.set_filter_text("0 0 0 | 9\n", &path).is_err());
    config.set_filter_text("2 0 3 | 1 side\n", &path).unwrap();
    assert_eq!(config.filter, vec![RotationInfo::new(2, 0, 3, 1, true)]);
}

#[test]
fn no_two_badges_share_a_letter() {
    // A side row is marked by its bar rather than a letter, which is what
    // keeps an "S" for side from sitting next to an "S" for south.
    assert_eq!(Brush::Side.badge(), "");
    assert_eq!(Brush::FourWay.badge(), "");
    let letters: Vec<&str> = Brush::all()
        .iter()
        .map(|brush| brush.badge())
        .filter(|badge| !badge.is_empty())
        .collect();
    let mut unique = letters.clone();
    unique.sort_unstable();
    unique.dedup();
    assert_eq!(letters.len(), 6, "every netherrack face needs a badge");
    assert_eq!(unique.len(), letters.len(), "badges collide: {letters:?}");
}

#[test]
fn empty_direction_selection_is_reported() {
    let config = EditableConfig {
        directions: [false; 4],
        ..sample()
    };
    assert!(
        config
            .to_scan_config(&PathBuf::from("memory.conf"))
            .is_err()
    );
}

#[test]
fn empty_direction_selection_message() {
    let config = EditableConfig {
        directions: [false; 4],
        ..sample()
    };
    assert_eq!(
        config.to_scan_config(&PathBuf::from("memory.conf")).unwrap_err(),
        "select at least one direction"
    );
}

#[test]
fn writes_the_exact_config_text() {
    let config = sample();
    let expected = "# Written by CoordsFinder GUI.\n\n\
algorithm = Vanilla-3\n\
scanOrder = spiral\n\
directions = [0, 180]\n\n\
xRange = (-5000, 5000)\n\
yRange = (-60, 0)\n\
zRange = (-5000, 5000)\n\n\
errorTolerance = 0\n\n\
cpuTileSize = (16, 16)\n\
gpuTileSize = (1024, 1024)\n\
verbose = false\n\n\
[filter]\n\
# x y z | variant [side|netherrack-<face>]\n\
-6 0 0 | 3\n\
-5 0 -1 | 1 side\n\
0 1 0 | 2 netherrack-north\n";
    assert_eq!(config.to_conf_text(), expected);
    assert_eq!(
        config.filter_text(),
        "-6 0 0 | 3\n-5 0 -1 | 1 side\n0 1 0 | 2 netherrack-north\n"
    );
}

#[test]
fn parser_errors_name_the_source_and_line() {
    let mut config = sample();
    let path = PathBuf::from("memory.conf");
    let error = config.set_filter_text("0 0 0 | 9\n", &path).unwrap_err();
    assert!(error.starts_with("memory.conf: line "), "{error}");
    assert!(error.ends_with("rotation must be between 0 and 3 for this row"), "{error}");
    // A failed edit leaves the rows alone.
    assert_eq!(config.filter, sample().filter);
}

#[test]
fn erasing_removes_every_row_at_the_block() {
    let mut config = EditableConfig::default();
    config.paint(1, 0, 1, Brush::FourWay, 2);
    config.paint(1, 0, 1, Brush::Side, 1);
    config.paint(2, 0, 1, Brush::FourWay, 1);
    assert!(config.erase(1, 0, 1));
    assert_eq!(config.filter, vec![RotationInfo::new(2, 0, 1, 1, false)]);
    assert!(!config.erase(1, 0, 1));
}

#[test]
fn extent_and_layers_cover_the_rows() {
    let config = sample();
    assert_eq!(config.extent(), Some((-6, 0, -1, 0)));
    assert_eq!(config.layers(), vec![0, 1]);
    assert_eq!(EditableConfig::default().extent(), None);
    assert_eq!(EditableConfig::default().layers(), Vec::<i8>::new());
}

#[test]
fn index_at_finds_the_row_of_a_brush() {
    let config = sample();
    assert_eq!(config.index_at(-5, 0, -1, Brush::Side), Some(1));
    assert_eq!(config.index_at(-5, 0, -1, Brush::FourWay), None);
    assert_eq!(config.selected_directions(), vec![0, 180]);
}

#[test]
fn brush_names_and_counts() {
    assert_eq!(Brush::Side.rotation_count(), 2);
    assert_eq!(Brush::Netherrack(Face::East).rotation_count(), 4);
    assert_eq!(Brush::FourWay.label(), "Top / bottom (4-way)");
    assert_eq!(Brush::Netherrack(Face::West).label(), "Netherrack west");
    assert_eq!(Brush::Netherrack(Face::South).badge(), "S");
    assert_eq!(coordsfinder::model::face_name(Face::Down), "down");
    assert_eq!(
        coordsfinder::model::row_text(&RotationInfo::netherrack(-1, 2, -3, 1, Face::Up)),
        "-1 2 -3 | 1 netherrack-up"
    );
    let info = RotationInfo::new(0, 0, 0, 1, true);
    assert_eq!(coordsfinder::model::brush_of(&info), Brush::Side);
}

#[test]
fn applying_the_rows_text_keeps_the_rows() {
    let mut config = sample();
    let text = config.filter_text();
    config.set_filter_text(&text, &PathBuf::from("memory.conf")).unwrap();
    assert_eq!(config, sample());
    // Also with no direction ticked, which only the scan itself rejects.
    let mut unticked = EditableConfig { directions: [false; 4], ..sample() };
    let text = unticked.filter_text();
    unticked.set_filter_text(&text, &PathBuf::from("memory.conf")).unwrap();
    assert_eq!(unticked.filter, sample().filter);
}
