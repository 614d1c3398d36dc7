use coordsfinder::history::{History, DEPTH};
use coordsfinder::model::{Brush, EditableConfig};

fn with_rows(rows: &[(i8, u8)]) -> EditableConfig {
    let mut config = EditableConfig::default();
    for (x, rotation) in rows {
        config.paint(*x, 0, 0, Brush::FourWay, *rotation);
    }
    config
}

/// Drives a burst the way a frame loop does: edits arrive while the pointer
/// is down, and the burst closes on a settled frame with no change.
fn burst(history: &mut History, config: &EditableConfig) {
    history.track(config, false);
    history.track(config, true);
}

#[test]
fn undo_and_redo_walk_the_edits() {
    let first = with_rows(&[(0, 1)]);
    let mut config = first.clone();
    let mut history = History::new(&config);
    assert!(!history.can_undo());

    config = with_rows(&[(0, 1), (1, 2)]);
    burst(&mut history, &config);
    let second = config.clone();
    config = with_rows(&[(0, 1), (1, 2), (2, 3)]);
    burst(&mut history, &config);
    let third = config.clone();

    assert!(history.undo(&mut config));
    assert_eq!(config, second);
    assert!(history.undo(&mut config));
    assert_eq!(config, first);
    assert!(!history.undo(&mut config), "history should be exhausted");

    assert!(history.redo(&mut config));
    assert_eq!(config, second);
    assert!(history.redo(&mut config));
    assert_eq!(config, third);
    assert!(!history.redo(&mut config));
}

#[test]
fn a_held_pointer_keeps_one_gesture_as_one_step() {
    let start = with_rows(&[]);
    let mut config = start.clone();
    let mut history = History::new(&config);

    // A stroke painting three cells without releasing the button.
    for x in 0..3 {
        config.paint(x, 0, 0, Brush::FourWay, 1);
        history.track(&config, false);
        // Frames in the middle of the stroke where nothing moved.
        history.track(&config, false);
    }
    history.track(&config, true);

    assert!(history.undo(&mut config));
    assert_eq!(config, start, "the whole stroke should undo at once");
}

#[test]
fn editing_after_an_undo_drops_the_redone_future() {
    let mut config = with_rows(&[]);
    let mut history = History::new(&config);
    config = with_rows(&[(0, 1)]);
    burst(&mut history, &config);

    assert!(history.undo(&mut config));
    assert!(history.can_redo());

    config = with_rows(&[(5, 3)]);
    history.track(&config, false);
    assert!(!history.can_redo(), "a new edit replaces the undone branch");
}

#[test]
fn an_unfinished_burst_is_still_undoable() {
    let start = with_rows(&[]);
    let mut config = start.clone();
    let mut history = History::new(&config);

    // Mid-drag: the burst has not been closed by a settled frame yet.
    config = with_rows(&[(0, 2)]);
    history.track(&config, false);
    assert!(history.can_undo());
    assert!(history.undo(&mut config));
    assert_eq!(config, start);
}

#[test]
fn history_is_bounded() {
    let mut config = EditableConfig::default();
    let mut history = History::new(&config);
    for step in 0..(DEPTH + 40) {
        config.error_tolerance = step as i32 % 7;
        history.track(&config, false);
        history.track(&config, true);
    }
    assert_eq!(history.undo_len(), DEPTH);
}

#[test]
fn reset_forgets_everything() {
    let mut config = with_rows(&[]);
    let mut history = History::new(&config);
    config = with_rows(&[(0, 1)]);
    burst(&mut history, &config);
    assert!(history.can_undo());

    history.reset(&config);
    assert!(!history.can_undo());
    assert!(!history.can_redo());
}

#[test]
fn redo_after_undo_restores_the_document() {
    let mut config = with_rows(&[]);
    let mut history = History::new(&config);
    config = with_rows(&[(3, 1), (4, 2)]);
    burst(&mut history, &config);
    let edited = config.clone();
    assert!(history.undo(&mut config));
    assert!(history.redo(&mut config));
    assert_eq!(config, edited);
}

#[test]
fn tracking_an_unchanged_document_records_nothing() {
    let config = with_rows(&[(0, 1)]);
    let mut history = History::new(&config);
    assert!(!history.track(&config, true));
    assert!(!history.can_undo());
}
