//! Search configuration values and the `.conf` text format.

use vstd::prelude::*;

use crate::filter::{failure_message, prepared_filters, rotations_fit};
use crate::text::{
    capped, chars_equal_str, chars_of, decimal, find_char, find_char_from, integer_value,
    lines_of, lowercase, lowercase_chars, parse_integer, pieces, push_chars, push_decimal, push_digits,
    push_str, slice_chars, split_at, split_lines, split_words, string_from_chars, trim,
    trim_chars, words, NUMBER_LIMIT,
};
use crate::types::{algorithm_named, unknown_algorithm_message, Face, RotationInfo, RotationKind, TextureAlgorithm};

verus! {

/// A half-open `[start, end)` coordinate range.
#[derive(Clone, Copy, Debug, PartialEq, Eq, Structural)]
pub struct IntRange {
    pub start: i32,
    pub end: i32,
}

/// Width of a work tile along X and Z.
#[derive(Clone, Copy, Debug, PartialEq, Eq, Structural)]
pub struct TileSize {
    pub x: i32,
    pub z: i32,
}

/// The order in which work tiles are visited.
#[derive(Clone, Copy, Debug, PartialEq, Eq, Structural)]
pub enum ScanOrder {
    /// Row by row from the low X/Z corner.
    Linear,
    /// Outwards from the origin, nearest tiles first.
    Spiral,
}

/// Default CPU tile width along X and Z.
pub const DEFAULT_CPU_TILE: i32 = 16;
/// Default GPU tile width along X and Z.
pub const DEFAULT_GPU_TILE: i32 = 1024;

/// A parsed, validated search configuration.
#[derive(Clone, Debug, PartialEq, Eq)]
pub struct ScanConfig {
    pub algorithm: TextureAlgorithm,
    pub scan_order: ScanOrder,
    pub directions: Vec<i32>,
    pub x_range: IntRange,
    pub y_range: IntRange,
    pub z_range: IntRange,
    pub error_tolerance: i32,
    pub cpu_tile_size: TileSize,
    pub gpu_tile_size: TileSize,
    pub verbose: bool,
    pub filter: Vec<RotationInfo>,
}

/// What a configuration holds.
#[verifier::ext_equal]
pub struct ConfigView {
    pub algorithm: TextureAlgorithm,
    pub scan_order: ScanOrder,
    pub directions: Seq<i32>,
    pub x_range: IntRange,
    pub y_range: IntRange,
    pub z_range: IntRange,
    pub error_tolerance: i32,
    pub cpu_tile_size: TileSize,
    pub gpu_tile_size: TileSize,
    pub verbose: bool,
    pub filter: Seq<RotationInfo>,
}

impl View for ScanConfig {
    type V = ConfigView;

    open spec fn view(&self) -> ConfigView {
        ConfigView {
            algorithm: self.algorithm,
            scan_order: self.scan_order,
            directions: self.directions@,
            x_range: self.x_range,
            y_range: self.y_range,
            z_range: self.z_range,
            error_tolerance: self.error_tolerance,
            cpu_tile_size: self.cpu_tile_size,
            gpu_tile_size: self.gpu_tile_size,
            verbose: self.verbose,
            filter: self.filter@,
        }
    }
}

/// The settings a configuration starts from before any key is read.
pub open spec fn default_config() -> ConfigView {
    ConfigView {
        algorithm: TextureAlgorithm::Vanilla3,
        scan_order: ScanOrder::Spiral,
        directions: seq![0i32],
        x_range: IntRange { start: -5_000i32, end: 5_000i32 },
        y_range: IntRange { start: -60i32, end: 0i32 },
        z_range: IntRange { start: -5_000i32, end: 5_000i32 },
        error_tolerance: 0i32,
        cpu_tile_size: TileSize { x: DEFAULT_CPU_TILE, z: DEFAULT_CPU_TILE },
        gpu_tile_size: TileSize { x: DEFAULT_GPU_TILE, z: DEFAULT_GPU_TILE },
        verbose: false,
        filter: Seq::empty(),
    }
}

impl Default for ScanConfig {
    fn default() -> (config: ScanConfig)
        ensures
            config@ == default_config(),
    {
        let mut directions: Vec<i32> = Vec::new();
        directions.push(0);
        let config = ScanConfig {
            algorithm: TextureAlgorithm::Vanilla3,
            scan_order: ScanOrder::Spiral,
            directions,
            x_range: IntRange { start: -5_000, end: 5_000 },
            y_range: IntRange { start: -60, end: 0 },
            z_range: IntRange { start: -5_000, end: 5_000 },
            error_tolerance: 0,
            cpu_tile_size: TileSize { x: DEFAULT_CPU_TILE, z: DEFAULT_CPU_TILE },
            gpu_tile_size: TileSize { x: DEFAULT_GPU_TILE, z: DEFAULT_GPU_TILE },
            verbose: false,
            filter: Vec::new(),
        };
        assert(config@ =~= default_config());
        config
    }
}


// ---------------------------------------------------------------------------
// The text format
// ---------------------------------------------------------------------------

/// The integer `word` spells, when it lies in `[low, high]`.
pub open spec fn bounded_integer(word: Seq<char>, low: int, high: int) -> Option<int> {
    match integer_value(word) {
        Some(v) => if low <= v <= high {
            Some(v)
        } else {
            None
        },
        None => None,
    }
}

/// The two trimmed entries of a `(a, b)` value.
pub open spec fn pair_parts(value: Seq<char>) -> Option<(Seq<char>, Seq<char>)> {
    if value.len() >= 2 && value[0] == '(' && value.last() == ')' {
        let parts = pieces(value.subrange(1, value.len() - 1), ',');
        if parts.len() == 2 {
            Some((trim(parts[0]), trim(parts[1])))
        } else {
            None
        }
    } else {
        None
    }
}

/// The integers of a `(a, b)` value, both in `[low, high]`.
pub open spec fn pair_value(value: Seq<char>, low: int, high: int) -> Option<(int, int)> {
    match pair_parts(value) {
        Some((a, b)) => match (bounded_integer(a, low, high), bounded_integer(b, low, high)) {
            (Some(x), Some(y)) => Some((x, y)),
            _ => None,
        },
        None => None,
    }
}

/// The trimmed entries of a `[a, b, ...]` value (none for `[]`).
pub open spec fn list_items(value: Seq<char>) -> Option<Seq<Seq<char>>> {
    if value.len() >= 2 && value[0] == '[' && value.last() == ']' {
        let inner = value.subrange(1, value.len() - 1);
        if trim(inner).len() == 0 {
            Some(Seq::empty())
        } else {
            Some(pieces(inner, ',').map_values(|part: Seq<char>| trim(part)))
        }
    } else {
        None
    }
}

/// The `i32` values of `items`, when every one is such an integer.
pub open spec fn integers(items: Seq<Seq<char>>) -> Option<Seq<i32>>
    decreases items.len(),
{
    if items.len() == 0 {
        Some(Seq::empty())
    } else {
        match (
            integers(items.drop_last()),
            bounded_integer(items.last(), -2147483648, 2147483647),
        ) {
            (Some(values), Some(v)) => Some(values.push(v as i32)),
            _ => None,
        }
    }
}

/// The structure directions a search can be run at.
pub open spec fn known_direction(direction: i32) -> bool {
    direction == 0 || direction == 90 || direction == 180 || direction == 270
}

/// The first problem with a direction list, in list order.
pub open spec fn direction_problem(directions: Seq<i32>) -> Option<Seq<char>>
    decreases directions.len(),
{
    if directions.len() == 0 {
        None
    } else {
        match direction_problem(directions.drop_last()) {
            Some(problem) => Some(problem),
            None => {
                let d = directions.last();
                if !known_direction(d) {
                    Some("direction "@ + decimal(d as int) + " is not one of 0, 90, 180, 270"@)
                } else if directions.drop_last().contains(d) {
                    Some("direction "@ + decimal(d as int) + " is listed twice"@)
                } else {
                    None
                }
            },
        }
    }
}

/// The directions a `directions` value lists.
pub open spec fn directions_value(value: Seq<char>) -> Result<Seq<i32>, Seq<char>> {
    match list_items(value) {
        None => Err("directions must be a list such as [0, 90]"@),
        Some(items) => match integers(items) {
            None => Err("directions must be a list such as [0, 90]"@),
            Some(directions) => if directions.len() == 0 {
                Err("directions must list at least one direction"@)
            } else {
                match direction_problem(directions) {
                    Some(problem) => Err(problem),
                    None => Ok(directions),
                }
            },
        },
    }
}

/// The range a `xRange`/`yRange`/`zRange` value gives.
pub open spec fn range_value(key: Seq<char>, value: Seq<char>) -> Result<IntRange, Seq<char>> {
    match pair_value(value, -2147483648, 2147483647) {
        None => Err(key + " must be a pair of integers such as (-100, 100)"@),
        Some((start, end)) => if start < end {
            Ok(IntRange { start: start as i32, end: end as i32 })
        } else {
            Err(key + " is empty: its start must be below its end"@)
        },
    }
}

/// The tile size a `cpuTileSize`/`gpuTileSize` value gives.
pub open spec fn tile_value(key: Seq<char>, value: Seq<char>) -> Result<TileSize, Seq<char>> {
    match pair_value(value, 1, 2147483647) {
        None => Err(key + " must be a pair of positive integers such as (16, 16)"@),
        Some((x, z)) => Ok(TileSize { x: x as i32, z: z as i32 }),
    }
}

/// `config` with the setting `key` set to `value`.
pub open spec fn setting_value(config: ConfigView, key: Seq<char>, value: Seq<char>) -> Result<
    ConfigView,
    Seq<char>,
> {
    if key == "algorithm"@ {
        match algorithm_named(value) {
            Some(algorithm) => Ok(ConfigView { algorithm, ..config }),
            None => Err(unknown_algorithm_message(value)),
        }
    } else if key == "scanOrder"@ {
        if lowercase(value) == "linear"@ {
            Ok(ConfigView { scan_order: ScanOrder::Linear, ..config })
        } else if lowercase(value) == "spiral"@ {
            Ok(ConfigView { scan_order: ScanOrder::Spiral, ..config })
        } else {
            Err("scanOrder must be linear or spiral"@)
        }
    } else if key == "directions"@ {
        match directions_value(value) {
            Ok(directions) => Ok(ConfigView { directions, ..config }),
            Err(problem) => Err(problem),
        }
    } else if key == "xRange"@ {
        match range_value(key, value) {
            Ok(range) => Ok(ConfigView { x_range: range, ..config }),
            Err(problem) => Err(problem),
        }
    } else if key == "yRange"@ {
        match range_value(key, value) {
            Ok(range) => Ok(ConfigView { y_range: range, ..config }),
            Err(problem) => Err(problem),
        }
    } else if key == "zRange"@ {
        match range_value(key, value) {
            Ok(range) => Ok(ConfigView { z_range: range, ..config }),
            Err(problem) => Err(problem),
        }
    } else if key == "errorTolerance"@ {
        match bounded_integer(value, 0, 2147483647) {
            Some(tolerance) => Ok(ConfigView { error_tolerance: tolerance as i32, ..config }),
            None => Err("errorTolerance must be a non-negative integer"@),
        }
    } else if key == "cpuTileSize"@ {
        match tile_value(key, value) {
            Ok(tile) => Ok(ConfigView { cpu_tile_size: tile, ..config }),
            Err(problem) => Err(problem),
        }
    } else if key == "gpuTileSize"@ {
        match tile_value(key, value) {
            Ok(tile) => Ok(ConfigView { gpu_tile_size: tile, ..config }),
            Err(problem) => Err(problem),
        }
    } else if key == "verbose"@ {
        if value == "true"@ {
            Ok(ConfigView { verbose: true, ..config })
        } else if value == "false"@ {
            Ok(ConfigView { verbose: false, ..config })
        } else {
            Err("verbose must be true or false"@)
        }
    } else {
        Err("unknown setting '"@ + key + "'"@)
    }
}

/// `config` with one `key = value` setting line applied.
pub open spec fn apply_setting(config: ConfigView, line: Seq<char>) -> Result<ConfigView, Seq<char>> {
    let k = find_char(line, '=');
    if k >= line.len() {
        Err("expected a setting such as `key = value`"@)
    } else {
        setting_value(config, trim(line.take(k)), trim(line.skip(k + 1)))
    }
}

/// The kind a filter row marker selects.
pub open spec fn marker_kind(marker: Seq<char>) -> Option<RotationKind> {
    if marker == "side"@ {
        Some(RotationKind::StandardSide)
    } else if marker == "netherrack-up"@ {
        Some(RotationKind::Netherrack(Face::Up))
    } else if marker == "netherrack-down"@ {
        Some(RotationKind::Netherrack(Face::Down))
    } else if marker == "netherrack-north"@ {
        Some(RotationKind::Netherrack(Face::North))
    } else if marker == "netherrack-south"@ {
        Some(RotationKind::Netherrack(Face::South))
    } else if marker == "netherrack-east"@ {
        Some(RotationKind::Netherrack(Face::East))
    } else if marker == "netherrack-west"@ {
        Some(RotationKind::Netherrack(Face::West))
    } else {
        None
    }
}

/// How many rotations a row of `kind` can hold.
pub open spec fn rotation_limit(kind: RotationKind) -> int {
    match kind {
        RotationKind::StandardSide => 2,
        _ => 4,
    }
}

/// Whether `v` fits a filter offset.
pub open spec fn offset_fits(v: int) -> bool {
    -128 <= v <= 127
}

/// The message for a malformed filter row.
pub open spec fn row_shape_message() -> Seq<char> {
    "expected a filter row such as `x y z | rotation [side|netherrack-<face>]`"@
}

/// The observation one `x y z | rotation [marker]` row describes.
pub open spec fn filter_row(line: Seq<char>) -> Result<RotationInfo, Seq<char>> {
    let k = find_char(line, '|');
    let left = words(line.take(k));
    let right = words(line.skip(k + 1));
    if k >= line.len() || left.len() != 3 || right.len() < 1 || right.len() > 2 {
        Err(row_shape_message())
    } else {
        match (
            integer_value(left[0]),
            integer_value(left[1]),
            integer_value(left[2]),
            integer_value(right[0]),
        ) {
            (Some(x), Some(y), Some(z), Some(rotation)) => if !(offset_fits(x) && offset_fits(y)
                && offset_fits(z)) {
                Err("filter offsets must lie between -128 and 127"@)
            } else {
                let kind = if right.len() == 1 {
                    Some(RotationKind::StandardFourWay)
                } else {
                    marker_kind(right[1])
                };
                match kind {
                    None => Err("unknown row marker '"@ + right[1] + "'"@),
                    Some(kind) => if 0 <= rotation < rotation_limit(kind) {
                        Ok(
                            RotationInfo {
                                x: x as i8,
                                y: y as i8,
                                z: z as i8,
                                rotation: rotation as u8,
                                kind,
                            },
                        )
                    } else {
                        Err(
                            "rotation must be between 0 and "@ + decimal(rotation_limit(kind) - 1)
                                + " for this row"@,
                        )
                    },
                }
            },
            _ => Err(row_shape_message()),
        }
    }
}

/// Where a reader is in a configuration text.
pub struct ReadState {
    pub config: ConfigView,
    /// Whether the `[filter]` section has begun.
    pub in_filter: bool,
}

/// The reader after one more line (comments and blank lines change nothing).
pub open spec fn read_line(state: ReadState, line: Seq<char>) -> Result<ReadState, Seq<char>> {
    let t = trim(line);
    if t.len() == 0 || t[0] == '#' {
        Ok(state)
    } else if t[0] == '[' {
        if t == "[filter]"@ {
            Ok(ReadState { in_filter: true, ..state })
        } else {
            Err("unknown section "@ + t)
        }
    } else if state.in_filter {
        match filter_row(t) {
            Ok(info) => Ok(
                ReadState {
                    config: ConfigView { filter: state.config.filter.push(info), ..state.config },
                    ..state
                },
            ),
            Err(problem) => Err(problem),
        }
    } else {
        match apply_setting(state.config, t) {
            Ok(config) => Ok(ReadState { config, ..state }),
            Err(problem) => Err(problem),
        }
    }
}

/// `message` tagged with its 1-based line number.
pub open spec fn at_line(number: int, message: Seq<char>) -> Seq<char> {
    "line "@ + decimal(number) + ": "@ + message
}

/// The reader after the first `count` lines, or the first error.
pub open spec fn read_lines(lines: Seq<Seq<char>>, count: nat) -> Result<ReadState, Seq<char>>
    decreases count,
{
    if count == 0 {
        Ok(ReadState { config: default_config(), in_filter: false })
    } else {
        match read_lines(lines, (count - 1) as nat) {
            Err(problem) => Err(problem),
            Ok(state) => match read_line(state, lines[count - 1]) {
                Ok(next) => Ok(next),
                Err(problem) => Err(at_line(count as int, problem)),
            },
        }
    }
}

/// The configuration a text describes: every line read in order, then the
/// filter compiled for every direction; or the first error.
pub open spec fn parsed_text(text: Seq<char>) -> Result<ConfigView, Seq<char>> {
    let lines = lines_of(text);
    match read_lines(lines, lines.len()) {
        Err(problem) => Err(problem),
        Ok(state) => {
            let config = state.config;
            match prepared_filters(
                config.filter,
                config.algorithm,
                config.directions,
                config.error_tolerance,
            ) {
                Err(failure) => Err(failure_message(failure, config.error_tolerance)),
                Ok(_) => Ok(config),
            }
        },
    }
}

// ---------------------------------------------------------------------------
// Reading values
// ---------------------------------------------------------------------------

fn read_bounded(word: &Vec<char>, low: i64, high: i64) -> (value: Option<i64>)
    requires
        -NUMBER_LIMIT < low <= high < NUMBER_LIMIT,
    ensures
        match bounded_integer(word@, low as int, high as int) {
            Some(v) => value == Some(v as i64),
            None => value is None,
        },
{
    match parse_integer(word) {
        Some(v) => if low <= v && v <= high {
            Some(v)
        } else {
            None
        },
        None => None,
    }
}

fn read_pair(value: &Vec<char>, low: i64, high: i64) -> (pair: Option<(i64, i64)>)
    requires
        -NUMBER_LIMIT < low <= high < NUMBER_LIMIT,
    ensures
        match pair_value(value@, low as int, high as int) {
            Some((a, b)) => pair == Some((a as i64, b as i64)),
            None => pair is None,
        },
{
    let n = value.len();
    if n < 2 || value[0] != '(' || value[n - 1] != ')' {
        return None;
    }
    let inner = slice_chars(value, 1, n - 1);
    let parts = split_at(&inner, ',');
    if parts.len() != 2 {
        return None;
    }
    assert(parts@.map_values(|part: Vec<char>| part@)[0] == parts@[0]@);
    assert(parts@.map_values(|part: Vec<char>| part@)[1] == parts@[1]@);
    let a = trim_chars(&parts[0]);
    let b = trim_chars(&parts[1]);
    match (read_bounded(&a, low, high), read_bounded(&b, low, high)) {
        (Some(x), Some(y)) => Some((x, y)),
        _ => None,
    }
}

proof fn lemma_integers_failure_persists(items: Seq<Seq<char>>, count: int)
    requires
        0 <= count <= items.len(),
        integers(items.take(count)) is None,
    ensures
        integers(items) is None,
    decreases items.len() - count,
{
    if count < items.len() {
        assert(items.take(count + 1).drop_last() =~= items.take(count));
        lemma_integers_failure_persists(items, count + 1);
    } else {
        assert(items.take(count) =~= items);
    }
}

fn read_integers(value: &Vec<char>) -> (values: Option<Vec<i32>>)
    ensures
        match list_items(value@) {
            None => values is None,
            Some(items) => match integers(items) {
                Some(expected) => values matches Some(found) && found@ == expected,
                None => values is None,
            },
        },
{
    let n = value.len();
    if n < 2 || value[0] != '[' || value[n - 1] != ']' {
        return None;
    }
    let inner = slice_chars(value, 1, n - 1);
    let mut values: Vec<i32> = Vec::new();
    let inner_trimmed = trim_chars(&inner);
    if inner_trimmed.len() == 0 {
        return Some(values);
    }
    let parts = split_at(&inner, ',');
    let ghost items = pieces(inner@, ',').map_values(|part: Seq<char>| trim(part));
    assert(list_items(value@) == Some(items));
    let mut index: usize = 0;
    assert(items.take(0) =~= Seq::<Seq<char>>::empty());
    while index < parts.len()
        invariant
            index <= parts.len(),
            parts@.map_values(|part: Vec<char>| part@) == pieces(inner@, ','),
            items == pieces(inner@, ',').map_values(|part: Seq<char>| trim(part)),
            list_items(value@) == Some(items),
            integers(items.take(index as int)) == Some(values@),
        decreases parts.len() - index,
    {
        assert(parts@.map_values(|part: Vec<char>| part@)[index as int] == parts@[index as int]@);
        let word = trim_chars(&parts[index]);
        assert(word@ == items[index as int]);
        assert(items.take(index + 1).drop_last() =~= items.take(index as int));
        match read_bounded(&word, -2147483648, 2147483647) {
            Some(v) => {
                values.push(v as i32);
                assert(items.take(index + 1).last() == items[index as int]);
            },
            None => {
                proof {
                    assert(items.take(index + 1).last() == items[index as int]);
                    assert(integers(items.take(index + 1)) is None);
                    lemma_integers_failure_persists(items, index + 1);
                }
                return None;
            },
        }
        index = index + 1;
    }
    assert(items.take(parts.len() as int) =~= items);
    Some(values)
}

proof fn lemma_direction_problem_persists(directions: Seq<i32>, count: int)
    requires
        0 <= count <= directions.len(),
        direction_problem(directions.take(count)) is Some,
    ensures
        direction_problem(directions) == direction_problem(directions.take(count)),
    decreases directions.len() - count,
{
    if count < directions.len() {
        assert(directions.take(count + 1).drop_last() =~= directions.take(count));
        lemma_direction_problem_persists(directions, count + 1);
    } else {
        assert(directions.take(count) =~= directions);
    }
}

/// A direction list without a problem names only known directions.
proof fn lemma_directions_known(directions: Seq<i32>)
    requires
        direction_problem(directions) is None,
    ensures
        forall|i: int| 0 <= i < directions.len() ==> known_direction(#[trigger] directions[i]),
    decreases directions.len(),
{
    if directions.len() > 0 {
        lemma_directions_known(directions.drop_last());
        assert forall|i: int| 0 <= i < directions.len() implies known_direction(
            #[trigger] directions[i],
        ) by {
            if i < directions.len() - 1 {
                assert(directions[i] == directions.drop_last()[i]);
            }
        }
    }
}

fn find_direction_problem(directions: &Vec<i32>) -> (problem: Option<Vec<char>>)
    ensures
        match direction_problem(directions@) {
            Some(expected) => problem matches Some(found) && found@ == expected,
            None => problem is None,
        },
{
    let mut index: usize = 0;
    assert(directions@.take(0) =~= Seq::<i32>::empty());
    while index < directions.len()
        invariant
            index <= directions.len(),
            direction_problem(directions@.take(index as int)) is None,
        decreases directions.len() - index,
    {
        let d = directions[index];
        let ghost prefix = directions@.take(index + 1);
        assert(prefix.drop_last() =~= directions@.take(index as int));
        assert(prefix.last() == d);
        if !(d == 0 || d == 90 || d == 180 || d == 270) {
            let mut message: Vec<char> = Vec::new();
            push_str(&mut message, "direction ");
            push_decimal(&mut message, d as i64);
            push_str(&mut message, " is not one of 0, 90, 180, 270");
            proof {
                lemma_direction_problem_persists(directions@, index + 1);
            }
            return Some(message);
        }
        let mut earlier: usize = 0;
        while earlier < index && directions[earlier] != d
            invariant
                earlier <= index < directions.len(),
                d == directions@[index as int],
                forall|j: int| 0 <= j < earlier ==> directions@[j] != d,
            decreases index - earlier,
        {
            earlier = earlier + 1;
        }
        if earlier < index {
            assert(prefix.drop_last()[earlier as int] == d);
            let mut message: Vec<char> = Vec::new();
            push_str(&mut message, "direction ");
            push_decimal(&mut message, d as i64);
            push_str(&mut message, " is listed twice");
            proof {
                lemma_direction_problem_persists(directions@, index + 1);
            }
            return Some(message);
        }
        assert(!prefix.drop_last().contains(d)) by {
            if prefix.drop_last().contains(d) {
                let j = choose|j: int| 0 <= j < prefix.drop_last().len() && prefix.drop_last()[j] == d;
                assert(directions@[j] == d);
            }
        }
        index = index + 1;
    }
    assert(directions@.take(directions.len() as int) =~= directions@);
    None
}

fn read_range(key: &Vec<char>, value: &Vec<char>) -> (range: Result<IntRange, String>)
    ensures
        match range_value(key@, value@) {
            Ok(expected) => range == Ok::<IntRange, String>(expected),
            Err(problem) => range matches Err(found) && found@ == problem,
        },
{
    match read_pair(value, -2147483648, 2147483647) {
        None => {
            let mut message: Vec<char> = Vec::new();
            push_chars(&mut message, key);
            push_str(&mut message, " must be a pair of integers such as (-100, 100)");
            Err(string_from_chars(&message))
        },
        Some((start, end)) => if start < end {
            Ok(IntRange { start: start as i32, end: end as i32 })
        } else {
            let mut message: Vec<char> = Vec::new();
            push_chars(&mut message, key);
            push_str(&mut message, " is empty: its start must be below its end");
            Err(string_from_chars(&message))
        },
    }
}

fn read_tile(key: &Vec<char>, value: &Vec<char>) -> (tile: Result<TileSize, String>)
    ensures
        match tile_value(key@, value@) {
            Ok(expected) => tile == Ok::<TileSize, String>(expected),
            Err(problem) => tile matches Err(found) && found@ == problem,
        },
{
    match read_pair(value, 1, 2147483647) {
        None => {
            let mut message: Vec<char> = Vec::new();
            push_chars(&mut message, key);
            push_str(&mut message, " must be a pair of positive integers such as (16, 16)");
            Err(string_from_chars(&message))
        },
        Some((x, z)) => Ok(TileSize { x: x as i32, z: z as i32 }),
    }
}

fn read_directions(value: &Vec<char>) -> (directions: Result<Vec<i32>, String>)
    ensures
        match directions_value(value@) {
            Ok(expected) => directions matches Ok(found) && found@ == expected,
            Err(problem) => directions matches Err(found) && found@ == problem,
        },
{
    match read_integers(value) {
        None => Err("directions must be a list such as [0, 90]".to_owned()),
        Some(found) => if found.len() == 0 {
            Err("directions must list at least one direction".to_owned())
        } else {
            match find_direction_problem(&found) {
                Some(problem) => Err(string_from_chars(&problem)),
                None => Ok(found),
            }
        },
    }
}

fn apply_setting_line(config: &mut ScanConfig, line: &Vec<char>) -> (outcome: Result<(), String>)
    ensures
        match apply_setting(old(config)@, line@) {
            Ok(updated) => outcome is Ok && final(config)@ == updated,
            Err(problem) => outcome matches Err(found) && found@ == problem,
        },
{
    let k = find_char_from(line, '=');
    if k >= line.len() {
        return Err("expected a setting such as `key = value`".to_owned());
    }
    let key_part = slice_chars(line, 0, k);
    let value_part = slice_chars(line, k + 1, line.len());
    assert(key_part@ =~= line@.take(k as int));
    assert(value_part@ =~= line@.skip(k + 1));
    let key = trim_chars(&key_part);
    let value = trim_chars(&value_part);
    let ghost before = config@;
    if chars_equal_str(&key, "algorithm") {
        match TextureAlgorithm::from_chars(&value) {
            Ok(algorithm) => {
                config.algorithm = algorithm;
                assert(config@ =~= ConfigView { algorithm, ..before });
                Ok(())
            },
            Err(message) => Err(message),
        }
    } else if chars_equal_str(&key, "scanOrder") {
        let lowered = lowercase_chars(&value);
        if chars_equal_str(&lowered, "linear") {
            config.scan_order = ScanOrder::Linear;
            assert(config@ =~= ConfigView { scan_order: ScanOrder::Linear, ..before });
            Ok(())
        } else if chars_equal_str(&lowered, "spiral") {
            config.scan_order = ScanOrder::Spiral;
            assert(config@ =~= ConfigView { scan_order: ScanOrder::Spiral, ..before });
            Ok(())
        } else {
            Err("scanOrder must be linear or spiral".to_owned())
        }
    } else if chars_equal_str(&key, "directions") {
        match read_directions(&value) {
            Ok(directions) => {
                let ghost listed = directions@;
                config.directions = directions;
                assert(config@ =~= ConfigView { directions: listed, ..before });
                Ok(())
            },
            Err(problem) => Err(problem),
        }
    } else if chars_equal_str(&key, "xRange") {
        match read_range(&key, &value) {
            Ok(range) => {
                config.x_range = range;
                assert(config@ =~= ConfigView { x_range: range, ..before });
                Ok(())
            },
            Err(problem) => Err(problem),
        }
    } else if chars_equal_str(&key, "yRange") {
        match read_range(&key, &value) {
            Ok(range) => {
                config.y_range = range;
                assert(config@ =~= ConfigView { y_range: range, ..before });
                Ok(())
            },
            Err(problem) => Err(problem),
        }
    } else if chars_equal_str(&key, "zRange") {
        match read_range(&key, &value) {
            Ok(range) => {
                config.z_range = range;
                assert(config@ =~= ConfigView { z_range: range, ..before });
                Ok(())
            },
            Err(problem) => Err(problem),
        }
    } else if chars_equal_str(&key, "errorTolerance") {
        match read_bounded(&value, 0, 2147483647) {
            Some(tolerance) => {
                config.error_tolerance = tolerance as i32;
                assert(config@ =~= ConfigView { error_tolerance: tolerance as i32, ..before });
                Ok(())
            },
            None => Err("errorTolerance must be a non-negative integer".to_owned()),
        }
    } else if chars_equal_str(&key, "cpuTileSize") {
        match read_tile(&key, &value) {
            Ok(tile) => {
                config.cpu_tile_size = tile;
                assert(config@ =~= ConfigView { cpu_tile_size: tile, ..before });
                Ok(())
            },
            Err(problem) => Err(problem),
        }
    } else if chars_equal_str(&key, "gpuTileSize") {
        match read_tile(&key, &value) {
            Ok(tile) => {
                config.gpu_tile_size = tile;
                assert(config@ =~= ConfigView { gpu_tile_size: tile, ..before });
                Ok(())
            },
            Err(problem) => Err(problem),
        }
    } else if chars_equal_str(&key, "verbose") {
        if chars_equal_str(&value, "true") {
            config.verbose = true;
            assert(config@ =~= ConfigView { verbose: true, ..before });
            Ok(())
        } else if chars_equal_str(&value, "false") {
            config.verbose = false;
            assert(config@ =~= ConfigView { verbose: false, ..before });
            Ok(())
        } else {
            Err("verbose must be true or false".to_owned())
        }
    } else {
        let mut message: Vec<char> = Vec::new();
        push_str(&mut message, "unknown setting '");
        push_chars(&mut message, &key);
        push_str(&mut message, "'");
        Err(string_from_chars(&message))
    }
}

fn read_marker(marker: &Vec<char>) -> (kind: Option<RotationKind>)
    ensures
        kind == marker_kind(marker@),
{
    if chars_equal_str(marker, "side") {
        Some(RotationKind::StandardSide)
    } else if chars_equal_str(marker, "netherrack-up") {
        Some(RotationKind::Netherrack(Face::Up))
    } else if chars_equal_str(marker, "netherrack-down") {
        Some(RotationKind::Netherrack(Face::Down))
    } else if chars_equal_str(marker, "netherrack-north") {
        Some(RotationKind::Netherrack(Face::North))
    } else if chars_equal_str(marker, "netherrack-south") {
        Some(RotationKind::Netherrack(Face::South))
    } else if chars_equal_str(marker, "netherrack-east") {
        Some(RotationKind::Netherrack(Face::East))
    } else if chars_equal_str(marker, "netherrack-west") {
        Some(RotationKind::Netherrack(Face::West))
    } else {
        None
    }
}

fn read_filter_row(line: &Vec<char>) -> (row: Result<RotationInfo, String>)
    ensures
        match filter_row(line@) {
            Ok(expected) => row == Ok::<RotationInfo, String>(expected),
            Err(problem) => row matches Err(found) && found@ == problem,
        },
{
    let k = find_char_from(line, '|');
    if k >= line.len() {
        return Err(string_from_chars(&chars_of(
            "expected a filter row such as `x y z | rotation [side|netherrack-<face>]`",
        )));
    }
    let left_part = slice_chars(line, 0, k);
    let right_part = slice_chars(line, k + 1, line.len());
    assert(left_part@ =~= line@.take(k as int));
    assert(right_part@ =~= line@.skip(k + 1));
    let left = split_words(&left_part);
    let right = split_words(&right_part);
    let ghost left_words = words(line@.take(k as int));
    let ghost right_words = words(line@.skip(k + 1));
    if left.len() != 3 || right.len() < 1 || right.len() > 2 {
        return Err(
            "expected a filter row such as `x y z | rotation [side|netherrack-<face>]`".to_owned(),
        );
    }
    assert(left@.map_values(|word: Vec<char>| word@)[0] == left@[0]@);
    assert(left@.map_values(|word: Vec<char>| word@)[1] == left@[1]@);
    assert(left@.map_values(|word: Vec<char>| word@)[2] == left@[2]@);
    assert(right@.map_values(|word: Vec<char>| word@)[0] == right@[0]@);
    assert(left_words[0] == left@[0]@ && left_words[1] == left@[1]@ && left_words[2] == left@[2]@);
    assert(right_words[0] == right@[0]@);
    let x = parse_integer(&left[0]);
    let y = parse_integer(&left[1]);
    let z = parse_integer(&left[2]);
    let rotation = parse_integer(&right[0]);
    match (x, y, z, rotation) {
        (Some(x), Some(y), Some(z), Some(rotation)) => {
            if !(-128 <= x && x <= 127 && -128 <= y && y <= 127 && -128 <= z && z <= 127) {
                return Err("filter offsets must lie between -128 and 127".to_owned());
            }
            let kind = if right.len() == 1 {
                Some(RotationKind::StandardFourWay)
            } else {
                assert(right@.map_values(|word: Vec<char>| word@)[1] == right@[1]@);
                read_marker(&right[1])
            };
            match kind {
                None => {
                    assert(right_words[1] == right@[1]@);
                    let mut message: Vec<char> = Vec::new();
                    push_str(&mut message, "unknown row marker '");
                    push_chars(&mut message, &right[1]);
                    push_str(&mut message, "'");
                    Err(string_from_chars(&message))
                },
                Some(kind) => {
                    let limit: i64 = match kind {
                        RotationKind::StandardSide => 2,
                        _ => 4,
                    };
                    if 0 <= rotation && rotation < limit {
                        Ok(
                            RotationInfo {
                                x: x as i8,
                                y: y as i8,
                                z: z as i8,
                                rotation: rotation as u8,
                                kind,
                            },
                        )
                    } else {
                        let mut message: Vec<char> = Vec::new();
                        push_str(&mut message, "rotation must be between 0 and ");
                        push_decimal(&mut message, limit - 1);
                        push_str(&mut message, " for this row");
                        Err(string_from_chars(&message))
                    }
                },
            }
        },
        _ => Err(
            "expected a filter row such as `x y z | rotation [side|netherrack-<face>]`".to_owned(),
        ),
    }
}

// ---------------------------------------------------------------------------
// Reading a whole text
// ---------------------------------------------------------------------------

/// What every configuration read from text satisfies: each row's rotation
/// is one its kind accepts, at least one direction is listed and each is a
/// known one, ranges are non-empty, the tolerance is non-negative and tiles
/// are at least one block wide.
pub open spec fn readable(config: ConfigView) -> bool {
    &&& forall|i: int|
        0 <= i < config.filter.len() ==> #[trigger] config.filter[i].rotation < rotation_limit(
            config.filter[i].kind,
        )
    &&& config.directions.len() > 0
    &&& forall|j: int|
        0 <= j < config.directions.len() ==> known_direction(#[trigger] config.directions[j])
    &&& config.x_range.start < config.x_range.end
    &&& config.y_range.start < config.y_range.end
    &&& config.z_range.start < config.z_range.end
    &&& config.error_tolerance >= 0
    &&& config.cpu_tile_size.x >= 1 && config.cpu_tile_size.z >= 1
    &&& config.gpu_tile_size.x >= 1 && config.gpu_tile_size.z >= 1
}

proof fn lemma_read_line_readable(state: ReadState, line: Seq<char>)
    requires
        readable(state.config),
    ensures
        read_line(state, line) matches Ok(next) ==> readable(next.config),
{
    let t = trim(line);
    if !(t.len() == 0 || t[0] == '#') && t[0] != '[' {
        if state.in_filter {
            if let Ok(info) = filter_row(t) {
                let rows = state.config.filter.push(info);
                assert forall|i: int| 0 <= i < rows.len() implies #[trigger] rows[i].rotation
                    < rotation_limit(rows[i].kind) by {
                    if i < state.config.filter.len() {
                        assert(rows[i] == state.config.filter[i]);
                    }
                }
            }
        } else {
            let k = find_char(t, '=');
            if k < t.len() {
                let value = trim(t.skip(k + 1));
                if let Ok(directions) = directions_value(value) {
                    lemma_directions_known(directions);
                }
            }
        }
    }
}

/// Every configuration read from text is readable.
proof fn lemma_read_lines_readable(lines: Seq<Seq<char>>, count: nat)
    requires
        count <= lines.len(),
    ensures
        read_lines(lines, count) matches Ok(state) ==> readable(state.config),
    decreases count,
{
    if count == 0 {
        assert(known_direction(default_config().directions[0]));
    } else {
        lemma_read_lines_readable(lines, (count - 1) as nat);
        if let Ok(state) = read_lines(lines, (count - 1) as nat) {
            lemma_read_line_readable(state, lines[count - 1]);
        }
    }
}

/// A configuration that parses is readable.
pub proof fn lemma_parsed_is_readable(text: Seq<char>)
    ensures
        parsed_text(text) matches Ok(config) ==> readable(config),
{
    lemma_read_lines_readable(lines_of(text), lines_of(text).len());
}

/// A readable configuration rotates every row by every direction safely.
proof fn lemma_readable_rotations_fit(config: ConfigView)
    requires
        readable(config),
    ensures
        rotations_fit(config.filter, config.directions),
{
    assert forall|i: int, j: int|
        0 <= i < config.filter.len() && 0 <= j < config.directions.len() implies crate::filter::rotation_fits(
        #[trigger] config.filter[i],
        #[trigger] config.directions[j],
    ) by {
        assert(config.filter[i].rotation < rotation_limit(config.filter[i].kind));
        assert(known_direction(config.directions[j]));
    }
}

proof fn lemma_read_failure_persists(lines: Seq<Seq<char>>, count: nat)
    requires
        count <= lines.len(),
        read_lines(lines, count) is Err,
    ensures
        read_lines(lines, lines.len()) == read_lines(lines, count),
    decreases lines.len() - count,
{
    if count < lines.len() {
        lemma_read_failure_persists(lines, count + 1);
    }
}

fn read_one_line(config: &mut ScanConfig, in_filter: &mut bool, line: &Vec<char>) -> (outcome: Result<(), String>)
    ensures
        match read_line(ReadState { config: old(config)@, in_filter: *old(in_filter) }, line@) {
            Ok(next) => outcome is Ok && final(config)@ == next.config && *final(in_filter)
                == next.in_filter,
            Err(problem) => outcome matches Err(found) && found@ == problem,
        },
{
    let t = trim_chars(line);
    if t.len() == 0 || t[0] == '#' {
        return Ok(());
    }
    if t[0] == '[' {
        if chars_equal_str(&t, "[filter]") {
            *in_filter = true;
            return Ok(());
        }
        let mut message: Vec<char> = Vec::new();
        push_str(&mut message, "unknown section ");
        push_chars(&mut message, &t);
        return Err(string_from_chars(&message));
    }
    if *in_filter {
        match read_filter_row(&t) {
            Ok(info) => {
                let ghost before = config@;
                config.filter.push(info);
                assert(config@ =~= ConfigView { filter: before.filter.push(info), ..before });
                Ok(())
            },
            Err(problem) => Err(problem),
        }
    } else {
        apply_setting_line(config, &t)
    }
}

fn line_message(number: usize, problem: &String) -> (message: String)
    ensures
        message@ == at_line(number as int, problem@),
{
    let mut out: Vec<char> = Vec::new();
    push_str(&mut out, "line ");
    push_digits(&mut out, number as u64);
    push_str(&mut out, ": ");
    push_str(&mut out, problem.as_str());
    assert(out@ =~= at_line(number as int, problem@));
    string_from_chars(&out)
}

/// Parses configuration text already in memory.
pub fn parse_text(text: &str) -> (parsed: Result<ScanConfig, String>)
    ensures
        match parsed_text(text@) {
            Ok(expected) => parsed matches Ok(config) && config@ == expected,
            Err(problem) => parsed matches Err(message) && message@ == problem,
        },
{
    let chars = chars_of(text);
    let lines = split_lines(&chars);
    let ghost all = lines_of(text@);
    let mut config = ScanConfig::default();
    let mut in_filter = false;
    let mut index: usize = 0;
    while index < lines.len()
        invariant
            index <= lines.len(),
            lines@.map_values(|line: Vec<char>| line@) == all,
            all == lines_of(text@),
            read_lines(all, index as nat) == Ok::<ReadState, Seq<char>>(
                ReadState { config: config@, in_filter },
            ),
            readable(config@),
        decreases lines.len() - index,
    {
        assert(lines@.map_values(|line: Vec<char>| line@)[index as int] == lines@[index as int]@);
        let ghost state = ReadState { config: config@, in_filter };
        proof {
            lemma_read_line_readable(state, all[index as int]);
        }
        match read_one_line(&mut config, &mut in_filter, &lines[index]) {
            Ok(()) => {},
            Err(problem) => {
                let message = line_message(index + 1, &problem);
                proof {
                    lemma_read_failure_persists(all, (index + 1) as nat);
                }
                return Err(message);
            },
        }
        index = index + 1;
    }
    proof {
        lemma_readable_rotations_fit(config@);
    }
    match crate::filter::prepare_filters(
        config.filter.as_slice(),
        config.algorithm,
        config.directions.as_slice(),
        config.error_tolerance,
    ) {
        Ok(_) => Ok(config),
        Err(message) => Err(message),
    }
}

/// Parses configuration text; an error is the path as displayed, `": "`,
/// and the problem.
pub fn parse(text: &str, source_path: &std::path::Path) -> (parsed: Result<ScanConfig, String>)
    ensures
        match parsed_text(text@) {
            Ok(expected) => parsed matches Ok(config) && config@ == expected,
            Err(problem) => parsed matches Err(message) && (exists|shown: Seq<char>|
                message@ == shown + ": "@ + problem) && message@.len() >= problem.len() + 2
                && message@.subrange(message@.len() - problem.len() - 2, message@.len() as int)
                == ": "@ + problem,
        },
{
    match parse_text(text) {
        Ok(config) => Ok(config),
        Err(problem) => {
            let shown = path_display(source_path);
            let mut out: Vec<char> = chars_of(shown.as_str());
            let ghost named = out@;
            push_str(&mut out, ": ");
            push_str(&mut out, problem.as_str());
            proof {
                reveal_strlit(": ");
                assert(out@ =~= named + ": "@ + problem@);
                assert(out@.subrange(out@.len() - problem@.len() - 2, out@.len() as int)
                    =~= ": "@ + problem@);
            }
            Err(string_from_chars(&out))
        },
    }
}

} // verus!

verus! {

/// std's `Path`, carried through opaque: nothing is read from it here but
/// how it displays.
#[verifier::external_type_specification]
#[verifier::external_body]
pub struct ExPath(std::path::Path);

/// std's `Path::display`, written out as a `String`. Nothing is claimed of
/// the text: it depends on the path, which has no model here.
#[verifier::external_body]
fn path_display(source_path: &std::path::Path) -> (shown: String) {
    source_path.display().to_string()
}

} // verus!
