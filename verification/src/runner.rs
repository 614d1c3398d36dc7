//! What a scan run is asked to do and the decisions taken while it runs:
//! which backends are tried, which tile size each scans with, how many
//! matches reach the display, how each match is written out, and how the
//! editor reads the updates a worker sends.

use vstd::prelude::*;

use crate::config::{ScanConfig, TileSize};
use crate::text::{decimal, push_decimal, push_str, string_from_chars};
use crate::types::Match;

verus! {

/// std's `PathBuf`, carried through opaque in a scan request.
#[verifier::external_type_specification]
#[verifier::external_body]
pub struct ExPathBuf(std::path::PathBuf);

/// Which backend the user asked for.
#[derive(Clone, Copy, Debug, PartialEq, Eq, Structural)]
pub enum BackendChoice {
    /// Use the GPU when one is usable, otherwise fall back to the CPU.
    Auto,
    Cpu,
    Gpu,
}

/// The name shown in the backend picker.
pub open spec fn backend_label(choice: BackendChoice) -> Seq<char> {
    match choice {
        BackendChoice::Auto => "Auto"@,
        BackendChoice::Cpu => "CPU"@,
        BackendChoice::Gpu => "GPU"@,
    }
}

impl BackendChoice {
    /// Every choice, in picker order.
    pub fn all() -> (choices: [BackendChoice; 3])
        ensures
            choices@ == seq![BackendChoice::Auto, BackendChoice::Cpu, BackendChoice::Gpu],
    {
        let choices = [BackendChoice::Auto, BackendChoice::Cpu, BackendChoice::Gpu];
        assert(choices@ =~= seq![BackendChoice::Auto, BackendChoice::Cpu, BackendChoice::Gpu]);
        choices
    }

    /// Name shown in the backend picker.
    pub fn label(self) -> (label: &'static str)
        ensures
            label@ == backend_label(self),
    {
        match self {
            BackendChoice::Auto => "Auto",
            BackendChoice::Cpu => "CPU",
            BackendChoice::Gpu => "GPU",
        }
    }
}

impl Default for BackendChoice {
    fn default() -> (choice: BackendChoice)
        ensures
            choice == BackendChoice::Auto,
    {
        BackendChoice::Auto
    }
}

/// Everything a scan worker needs to run without touching the editor.
pub struct ScanRequest {
    pub config: ScanConfig,
    pub backend: BackendChoice,
    pub threads: usize,
    /// File the matches are appended to, if any.
    pub output: Option<std::path::PathBuf>,
}

/// A backend a scan can run on.
#[derive(Clone, Copy, Debug, PartialEq, Eq, Structural)]
pub enum Backend {
    Cpu,
    Gpu,
}

/// The backends tried for a choice, in order, until one starts.
pub open spec fn attempts_for(choice: BackendChoice) -> Seq<Backend> {
    match choice {
        BackendChoice::Cpu => seq![Backend::Cpu],
        BackendChoice::Gpu => seq![Backend::Gpu],
        BackendChoice::Auto => seq![Backend::Gpu, Backend::Cpu],
    }
}

impl BackendChoice {
    /// The backends to try, in order, until one starts: `Auto` tries the GPU
    /// and falls back to the CPU.
    pub fn attempts(self) -> (backends: Vec<Backend>)
        ensures
            backends@ == attempts_for(self),
    {
        let mut backends: Vec<Backend> = Vec::new();
        match self {
            BackendChoice::Cpu => backends.push(Backend::Cpu),
            BackendChoice::Gpu => backends.push(Backend::Gpu),
            BackendChoice::Auto => {
                backends.push(Backend::Gpu);
                backends.push(Backend::Cpu);
            },
        }
        assert(backends@ =~= attempts_for(self));
        backends
    }
}

/// The tile size a scan on `backend` uses.
pub fn tile_size_for(config: &ScanConfig, backend: Backend) -> (tile: TileSize)
    ensures
        tile == (match backend {
            Backend::Cpu => config.cpu_tile_size,
            Backend::Gpu => config.gpu_tile_size,
        }),
{
    match backend {
        Backend::Cpu => config.cpu_tile_size,
        Backend::Gpu => config.gpu_tile_size,
    }
}

/// Matches held for display. Beyond this a scan keeps counting and still
/// writes every match to the output file, but stops feeding the match table
/// so an over-broad filter cannot exhaust memory.
pub const DISPLAYED_MATCH_LIMIT: usize = 50_000;

/// The line a match is written to the output file as.
pub open spec fn match_line_text(found: Match) -> Seq<char> {
    "Found with "@ + decimal(found.mismatches as int) + " mismatch(es)! ("@ + decimal(
        found.x as int,
    ) + ", "@ + decimal(found.y as int) + ", "@ + decimal(found.z as int) + "), direction "@
        + decimal(found.direction as int)
}

/// The line a match is written to the output file as.
pub fn match_line(found: &Match) -> (line: String)
    ensures
        line@ == match_line_text(*found),
{
    let mut out: Vec<char> = Vec::new();
    push_str(&mut out, "Found with ");
    push_decimal(&mut out, found.mismatches as i64);
    push_str(&mut out, " mismatch(es)! (");
    push_decimal(&mut out, found.x as i64);
    push_str(&mut out, ", ");
    push_decimal(&mut out, found.y as i64);
    push_str(&mut out, ", ");
    push_decimal(&mut out, found.z as i64);
    push_str(&mut out, "), direction ");
    push_decimal(&mut out, found.direction as i64);
    assert(out@ =~= match_line_text(*found));
    string_from_chars(&out)
}

/// What the display does with one batch of matches.
#[derive(Clone, Copy, Debug, PartialEq, Eq, Structural)]
pub struct FeedStep {
    /// Whether a batch goes to the display at all.
    pub send: bool,
    /// How many of the batch's matches, from its start, go to the display.
    pub shown: usize,
    /// Whether this batch filled the display.
    pub capped: bool,
}

/// How many matches the display has been given so far.
pub struct MatchFeed {
    pub forwarded: usize,
}

impl MatchFeed {
    /// A display that has been given nothing.
    pub fn new() -> (feed: MatchFeed)
        ensures
            feed.forwarded == 0,
    {
        MatchFeed { forwarded: 0 }
    }

    /// Takes a batch of `count` new matches. While the display has room it
    /// is sent the batch's first matches, as many as fit; once it is full
    /// nothing more is sent.
    pub fn take(&mut self, count: usize) -> (step: FeedStep)
        ensures
            step.send == (old(self).forwarded < DISPLAYED_MATCH_LIMIT),
            step.shown == (if !step.send {
                0
            } else if count <= DISPLAYED_MATCH_LIMIT - old(self).forwarded {
                count as int
            } else {
                DISPLAYED_MATCH_LIMIT - old(self).forwarded
            }),
            final(self).forwarded == old(self).forwarded + step.shown,
            old(self).forwarded <= DISPLAYED_MATCH_LIMIT ==> final(self).forwarded
                <= DISPLAYED_MATCH_LIMIT,
            step.capped == (step.send && final(self).forwarded == DISPLAYED_MATCH_LIMIT),
    {
        if self.forwarded < DISPLAYED_MATCH_LIMIT {
            let room = DISPLAYED_MATCH_LIMIT - self.forwarded;
            let shown = if count <= room {
                count
            } else {
                room
            };
            self.forwarded = self.forwarded + shown;
            FeedStep { send: true, shown, capped: self.forwarded >= DISPLAYED_MATCH_LIMIT }
        } else {
            FeedStep { send: false, shown: 0, capped: false }
        }
    }
}

/// What the editor finds when it looks for the next update of a scan.
#[derive(Clone, Copy, Debug, PartialEq, Eq, Structural)]
pub enum Arrival {
    /// The scan's final update.
    Finished,
    /// A progress update carrying the match count so far.
    Progress(u64),
    /// Any other update.
    Other,
    /// Nothing has arrived yet.
    Empty,
    /// The worker is gone.
    Disconnected,
}

/// What the editor does after an arrival.
#[derive(Clone, Copy, Debug, PartialEq, Eq, Structural)]
pub enum PollAction {
    /// Keep the update and look for the next one.
    Keep,
    /// Stop looking for now.
    Stop,
    /// The worker stopped without a final update: report it as failed with
    /// this match count, and stop.
    ReportLost(u64),
}

/// The error a scan whose worker was lost is reported with.
pub fn lost_worker_message() -> (text: &'static str)
    ensures
        text@ == "the scan thread stopped unexpectedly. On the GPU backend this is usually a display driver reset (Windows TDR); lower the GPU tile size under Advanced and try again."@,
{
    "the scan thread stopped unexpectedly. On the GPU backend this is usually a display driver reset (Windows TDR); lower the GPU tile size under Advanced and try again."
}

/// What the editor remembers of a running scan between looks.
#[derive(Clone, Copy, Debug, PartialEq, Eq, Structural)]
pub struct PollState {
    /// Whether the final update has been seen.
    pub finished: bool,
    /// The latest match count seen.
    pub last_matches: u64,
}

impl PollState {
    /// A scan nothing has been heard from.
    pub fn new() -> (state: PollState)
        ensures
            !state.finished,
            state.last_matches == 0,
    {
        PollState { finished: false, last_matches: 0 }
    }

    /// Takes one arrival. A worker always sends its final update before it
    /// returns, so one that is gone without it unwound: that is reported
    /// once, with the latest match count seen.
    pub fn step(&mut self, arrival: Arrival) -> (action: PollAction)
        ensures
            match arrival {
                Arrival::Finished => action == PollAction::Keep && *final(self) == (PollState {
                    finished: true,
                    ..*old(self)
                }),
                Arrival::Progress(matches) => action == PollAction::Keep && *final(self) == (
                PollState { last_matches: matches, ..*old(self) }),
                Arrival::Other => action == PollAction::Keep && *final(self) == *old(self),
                Arrival::Empty => action == PollAction::Stop && *final(self) == *old(self),
                Arrival::Disconnected => final(self).finished && final(self).last_matches == old(
                    self,
                ).last_matches && action == (if old(self).finished {
                    PollAction::Stop
                } else {
                    PollAction::ReportLost(old(self).last_matches)
                }),
            },
    {
        match arrival {
            Arrival::Finished => {
                self.finished = true;
                PollAction::Keep
            },
            Arrival::Progress(matches) => {
                self.last_matches = matches;
                PollAction::Keep
            },
            Arrival::Other => PollAction::Keep,
            Arrival::Empty => PollAction::Stop,
            Arrival::Disconnected => {
                let action = if self.finished {
                    PollAction::Stop
                } else {
                    PollAction::ReportLost(self.last_matches)
                };
                self.finished = true;
                action
            },
        }
    }
}

} // verus!
