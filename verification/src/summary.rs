//! What the editor shows about a valid configuration: block constraints,
//! work items, candidates, and warnings; and how large counts are written.

use vstd::prelude::*;

use crate::config::{ConfigView, ScanConfig};
use crate::filter::{
    failure_message, lemma_prepare_prefix_shape, prepare_filters, prepared_filters, rotations_fit,
    warning_text, DirectionPlan,
};
use crate::scan::{area_candidates, item_total, make_plan, plan_problem, planned, saturated_count};
use crate::text::{digit_char, digits, push_digits, push_str, string_from_chars};

verus! {

/// Which editor is shown in the central panel.
#[derive(Clone, Copy, Debug, PartialEq, Eq, Structural)]
pub enum Editor {
    Grid,
    Rows,
}

/// Which pane is shown in the results panel.
#[derive(Clone, Copy, Debug, PartialEq, Eq, Structural)]
pub enum Results {
    Matches,
    Log,
}

/// The separator between groups of three digits: a thin space.
pub const THIN_SPACE: char = '\u{2009}';

/// The three decimal digits of `r` (below 1000), zero-padded.
pub open spec fn three_digits(r: int) -> Seq<char> {
    seq![digit_char(r / 100), digit_char((r / 10) % 10), digit_char(r % 10)]
}

/// `value` in decimal with a thin space (U+2009) between each group of three
/// digits, counted from the right.
pub open spec fn thousands_text(value: nat) -> Seq<char>
    decreases value,
{
    if value < 1000 {
        digits(value)
    } else {
        thousands_text(value / 1000) + seq![THIN_SPACE] + three_digits((value % 1000) as int)
    }
}

fn push_thousands(out: &mut Vec<char>, value: u64)
    ensures
        final(out)@ == old(out)@ + thousands_text(value as nat),
    decreases value,
{
    if value < 1000 {
        push_digits(out, value);
    } else {
        push_thousands(out, value / 1000);
        out.push(THIN_SPACE);
        let rest = value % 1000;
        push_digits(out, rest / 100);
        push_digits(out, (rest / 10) % 10);
        push_digits(out, rest % 10);
        assert(digits((rest / 100) as nat) == seq![digit_char((rest / 100) as int)]);
        assert(digits(((rest / 10) % 10) as nat) == seq![digit_char(((rest / 10) % 10) as int)]);
        assert(digits((rest % 10) as nat) == seq![digit_char((rest % 10) as int)]);
        assert(final(out)@ =~= old(out)@ + thousands_text(value as nat));
    }
}

/// Formats `value` with thin-space thousands separators, such as
/// `1 234 567` with U+2009 between the groups.
pub fn thousands(value: u64) -> (text: String)
    ensures
        text@ == thousands_text(value as nat),
{
    let mut out: Vec<char> = Vec::new();
    push_thousands(&mut out, value);
    assert(out@ =~= thousands_text(value as nat));
    string_from_chars(&out)
}

/// Everything derived from a valid config.
pub struct Summary {
    pub config: ScanConfig,
    /// Block constraints of the first direction, forced errors included.
    pub constraints: usize,
    pub cpu_items: usize,
    pub gpu_items: usize,
    pub candidates: u64,
    pub saturated: bool,
    pub warning: Option<String>,
}

/// What a summary holds.
pub struct SummaryView {
    pub config: ConfigView,
    pub constraints: int,
    pub cpu_items: int,
    pub gpu_items: int,
    pub candidates: u64,
    pub saturated: bool,
    pub warning: Option<Seq<char>>,
}

impl View for Summary {
    type V = SummaryView;

    open spec fn view(&self) -> SummaryView {
        SummaryView {
            config: self.config@,
            constraints: self.constraints as int,
            cpu_items: self.cpu_items as int,
            gpu_items: self.gpu_items as int,
            candidates: self.candidates,
            saturated: self.saturated,
            warning: match self.warning {
                Some(text) => Some(text@),
                None => None,
            },
        }
    }
}

/// The constraints a direction checks: its usable block constraints plus
/// the blocks that can never match.
pub open spec fn constraint_total(plan: DirectionPlan) -> int {
    plan.constraints.len() + if plan.forced_errors >= 0 {
        plan.forced_errors as int
    } else {
        0
    }
}

/// The summary of a configuration, or the first error: compiling its
/// filter, then planning with the CPU tile size, then with the GPU one.
pub open spec fn summary_of(config: ConfigView) -> Result<SummaryView, Seq<char>> {
    match prepared_filters(
        config.filter,
        config.algorithm,
        config.directions,
        config.error_tolerance,
    ) {
        Err(failure) => Err(failure_message(failure, config.error_tolerance)),
        Ok(filters) => match plan_problem(config, config.cpu_tile_size) {
            Some(problem) => Err(problem),
            None => match plan_problem(config, config.gpu_tile_size) {
                Some(problem) => Err(problem),
                None => Ok(
                    SummaryView {
                        config,
                        constraints: constraint_total(filters.directions[0]),
                        cpu_items: item_total(planned(config, config.cpu_tile_size)),
                        gpu_items: item_total(planned(config, config.gpu_tile_size)),
                        candidates: saturated_count(area_candidates(config)).0,
                        saturated: saturated_count(area_candidates(config)).1,
                        warning: if filters.conflicts_by_direction.len() == 0 {
                            None
                        } else {
                            Some(warning_text(filters.conflicts_by_direction))
                        },
                    },
                ),
            },
        },
    }
}

/// Builds the derived facts the summary panel shows.
pub fn summarize(config: ScanConfig) -> (summary: Result<Summary, String>)
    requires
        rotations_fit(config.filter@, config.directions@),
    ensures
        match summary_of(config@) {
            Ok(expected) => summary matches Ok(found) && found@ == expected,
            Err(problem) => summary matches Err(message) && message@ == problem,
        },
{
    let prepared = match prepare_filters(
        config.filter.as_slice(),
        config.algorithm,
        config.directions.as_slice(),
        config.error_tolerance,
    ) {
        Ok(prepared) => prepared,
        Err(message) => return Err(message),
    };
    proof {
        lemma_prepare_prefix_shape(
            config.filter@,
            config.algorithm,
            config.directions@,
            config.error_tolerance,
            config.directions@.len(),
        );
    }
    let warning = prepared.warning();
    assert(prepared.directions@.len() > 0);
    assert(prepared@.directions[0] == prepared.directions@[0]@);
    let first = &prepared.directions[0];
    let forced: usize = if first.forced_errors >= 0 {
        first.forced_errors as usize
    } else {
        0
    };
    let constraints = first.constraints.len() + forced;
    let cpu = match make_plan(&config, config.cpu_tile_size) {
        Ok(plan) => plan,
        Err(message) => return Err(message),
    };
    let gpu = match make_plan(&config, config.gpu_tile_size) {
        Ok(plan) => plan,
        Err(message) => return Err(message),
    };
    let cpu_items = cpu.total_items();
    let gpu_items = gpu.total_items();
    let candidates = cpu.total_candidates;
    let saturated = cpu.total_candidates_saturated;
    let summary = Summary { config, constraints, cpu_items, gpu_items, candidates, saturated, warning };
    Ok(summary)
}

} // verus!
