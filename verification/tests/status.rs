use coordsfinder::config::{ScanConfig, TileSize};
use coordsfinder::runner::{
    match_line, tile_size_for, Arrival, Backend, BackendChoice, FeedStep, MatchFeed, PollAction,
    PollState, DISPLAYED_MATCH_LIMIT,
};
use coordsfinder::status::{append_log, candidates_text, whole_duration, LOG_LIMIT};
use coordsfinder::types::Match;

#[test]
fn the_log_keeps_its_latest_lines() {
    let mut log = Vec::new();
    for index in 0..LOG_LIMIT + 3 {
        append_log(&mut log, format!("line {index}"));
    }
    assert_eq!(log.len(), LOG_LIMIT);
    assert_eq!(log[0], "line 3");
    assert_eq!(log[LOG_LIMIT - 1], format!("line {}", LOG_LIMIT + 2));
}

#[test]
fn saturated_counts_read_as_lower_bounds() {
    assert_eq!(candidates_text(1_234_567, false), "1\u{2009}234\u{2009}567");
    assert_eq!(candidates_text(u64::MAX, true), "more than 18\u{2009}446\u{2009}744\u{2009}073\u{2009}709\u{2009}551\u{2009}615");
    assert_eq!(candidates_text(0, false), "0");
}

#[test]
fn durations_are_compact() {
    assert_eq!(whole_duration(0), "0s");
    assert_eq!(whole_duration(59), "59s");
    assert_eq!(whole_duration(65), "1m 05s");
    assert_eq!(whole_duration(3_723), "1h 02m 03s");
    assert_eq!(whole_duration(360_000), "100h 00m 00s");
}

#[test]
fn matches_are_written_one_per_line() {
    let found = Match { x: -120, y: 64, z: 7, mismatches: 2, direction: 270 };
    assert_eq!(match_line(&found), "Found with 2 mismatch(es)! (-120, 64, 7), direction 270");
}

#[test]
fn the_display_takes_matches_up_to_its_limit() {
    let mut feed = MatchFeed::new();
    assert_eq!(feed.take(10), FeedStep { send: true, shown: 10, capped: false });
    assert_eq!(feed.take(0), FeedStep { send: true, shown: 0, capped: false });
    let step = feed.take(DISPLAYED_MATCH_LIMIT);
    assert_eq!(step, FeedStep { send: true, shown: DISPLAYED_MATCH_LIMIT - 10, capped: true });
    assert_eq!(feed.forwarded, DISPLAYED_MATCH_LIMIT);
    assert_eq!(feed.take(5), FeedStep { send: false, shown: 0, capped: false });
}

#[test]
fn a_lost_worker_is_reported_once() {
    let mut state = PollState::new();
    assert_eq!(state.step(Arrival::Progress(7)), PollAction::Keep);
    assert_eq!(state.step(Arrival::Other), PollAction::Keep);
    assert_eq!(state.step(Arrival::Empty), PollAction::Stop);
    assert_eq!(state.step(Arrival::Disconnected), PollAction::ReportLost(7));
    assert!(state.finished);
    assert_eq!(state.step(Arrival::Disconnected), PollAction::Stop);

    let mut done = PollState::new();
    assert_eq!(done.step(Arrival::Finished), PollAction::Keep);
    assert_eq!(done.step(Arrival::Disconnected), PollAction::Stop);
}

#[test]
fn backends_are_tried_in_order() {
    assert_eq!(BackendChoice::Auto.attempts(), vec![Backend::Gpu, Backend::Cpu]);
    assert_eq!(BackendChoice::Cpu.attempts(), vec![Backend::Cpu]);
    assert_eq!(BackendChoice::Gpu.attempts(), vec![Backend::Gpu]);
    let config = ScanConfig {
        cpu_tile_size: TileSize { x: 8, z: 4 },
        gpu_tile_size: TileSize { x: 256, z: 512 },
        ..ScanConfig::default()
    };
    assert_eq!(tile_size_for(&config, Backend::Cpu), TileSize { x: 8, z: 4 });
    assert_eq!(tile_size_for(&config, Backend::Gpu), TileSize { x: 256, z: 512 });
}

#[test]
fn a_worker_that_unwinds_is_reported_as_a_failure() {
    let mut scan = PollState::new();
    // A progress update, then no `Finished`: the worker panicked.
    assert_eq!(scan.step(Arrival::Progress(3)), PollAction::Keep);
    let drained = scan.step(Arrival::Disconnected);
    assert!(scan.finished);
    // The last known count survives the failure.
    assert_eq!(drained, PollAction::ReportLost(3));
    assert!(coordsfinder::runner::lost_worker_message().contains("stopped unexpectedly"));
}

#[test]
fn a_clean_finish_is_not_reported_twice() {
    let mut scan = PollState::new();
    let mut drained = 0;
    for arrival in [Arrival::Finished, Arrival::Disconnected] {
        match scan.step(arrival) {
            PollAction::Keep => drained += 1,
            PollAction::Stop => break,
            PollAction::ReportLost(_) => panic!("a finished scan was reported lost"),
        }
    }
    // The worker's own Finished, and only it.
    assert_eq!(drained, 1);
    assert!(scan.finished);
    assert_eq!(scan.step(Arrival::Disconnected), PollAction::Stop);
}
