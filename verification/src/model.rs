//! Editable in-memory representation of a search config.
//!
//! A document being edited may be temporarily invalid, which a [`ScanConfig`]
//! cannot represent. Validation, saving and scanning all go through
//! [`EditableConfig::to_conf_text`] and the config parser, so the three can
//! never disagree about what a document means.

use vstd::prelude::*;

use crate::config::{parse, parsed_text, IntRange, ScanConfig, ScanOrder, TileSize};
use crate::text::{decimal, joined, lemma_joined_push, push_chars, push_decimal, push_str, string_from_chars};
use crate::types::{algorithm_name, Face, RotationInfo, RotationKind, TextureAlgorithm};

verus! {

/// Every texture algorithm, in the order shown in the picker.
pub const ALGORITHMS: [TextureAlgorithm; 5] = [
    TextureAlgorithm::Vanilla1,
    TextureAlgorithm::Vanilla2,
    TextureAlgorithm::Vanilla3,
    TextureAlgorithm::Sodium1,
    TextureAlgorithm::Sodium2,
];

/// The four structure directions a filter can be scanned at.
pub const DIRECTIONS: [i32; 4] = [0, 90, 180, 270];

/// Filter offsets are stored as `i8`, which bounds the grid editor too.
pub const OFFSET_MIN: i32 = -128;

/// Upper bound of a filter offset on any axis.
pub const OFFSET_MAX: i32 = 127;

/// Which kind of texture observation the grid editor paints.
#[derive(Clone, Copy, Debug, PartialEq, Eq, Structural)]
pub enum Brush {
    /// Top or bottom face of an ordinary rotated block; four states.
    FourWay,
    /// Side face of a mirrored block such as stone; two states.
    Side,
    /// One named world face of a netherrack block; four states.
    Netherrack(Face),
}

/// The observation kind a brush paints.
pub open spec fn brush_kind(brush: Brush) -> RotationKind {
    match brush {
        Brush::FourWay => RotationKind::StandardFourWay,
        Brush::Side => RotationKind::StandardSide,
        Brush::Netherrack(face) => RotationKind::Netherrack(face),
    }
}

/// The brush that paints an observation kind.
pub open spec fn kind_brush(kind: RotationKind) -> Brush {
    match kind {
        RotationKind::StandardFourWay => Brush::FourWay,
        RotationKind::StandardSide => Brush::Side,
        RotationKind::Netherrack(face) => Brush::Netherrack(face),
    }
}

/// Config-file spelling of a netherrack face marker.
pub open spec fn face_word(face: Face) -> Seq<char> {
    match face {
        Face::Up => "up"@,
        Face::Down => "down"@,
        Face::North => "north"@,
        Face::South => "south"@,
        Face::East => "east"@,
        Face::West => "west"@,
    }
}

/// Compass letter drawn on a netherrack cell.
pub open spec fn face_letter(face: Face) -> Seq<char> {
    match face {
        Face::Up => "U"@,
        Face::Down => "D"@,
        Face::North => "N"@,
        Face::South => "S"@,
        Face::East => "E"@,
        Face::West => "W"@,
    }
}

/// Name shown in the brush picker.
pub open spec fn brush_label(brush: Brush) -> Seq<char> {
    match brush {
        Brush::FourWay => "Top / bottom (4-way)"@,
        Brush::Side => "Side face (2-way)"@,
        Brush::Netherrack(face) => match face {
            Face::Up => "Netherrack up"@,
            Face::Down => "Netherrack down"@,
            Face::North => "Netherrack north"@,
            Face::South => "Netherrack south"@,
            Face::East => "Netherrack east"@,
            Face::West => "Netherrack west"@,
        },
    }
}

impl Brush {
    /// Every brush, in picker order.
    pub fn all() -> (brushes: [Brush; 8])
        ensures
            brushes@ == seq![
                Brush::FourWay,
                Brush::Side,
                Brush::Netherrack(Face::Up),
                Brush::Netherrack(Face::Down),
                Brush::Netherrack(Face::North),
                Brush::Netherrack(Face::South),
                Brush::Netherrack(Face::East),
                Brush::Netherrack(Face::West),
            ],
    {
        let brushes = [
            Brush::FourWay,
            Brush::Side,
            Brush::Netherrack(Face::Up),
            Brush::Netherrack(Face::Down),
            Brush::Netherrack(Face::North),
            Brush::Netherrack(Face::South),
            Brush::Netherrack(Face::East),
            Brush::Netherrack(Face::West),
        ];
        assert(brushes@ =~= seq![
            Brush::FourWay,
            Brush::Side,
            Brush::Netherrack(Face::Up),
            Brush::Netherrack(Face::Down),
            Brush::Netherrack(Face::North),
            Brush::Netherrack(Face::South),
            Brush::Netherrack(Face::East),
            Brush::Netherrack(Face::West),
        ]);
        brushes
    }

    /// The matching [`RotationKind`] for filter rows.
    pub fn kind(self) -> (kind: RotationKind)
        ensures
            kind == brush_kind(self),
    {
        match self {
            Brush::FourWay => RotationKind::StandardFourWay,
            Brush::Side => RotationKind::StandardSide,
            Brush::Netherrack(face) => RotationKind::Netherrack(face),
        }
    }

    /// Number of distinct rotations this brush accepts.
    pub fn rotation_count(self) -> (count: u8)
        ensures
            count == (if self == Brush::Side { 2u8 } else { 4u8 }),
    {
        match self {
            Brush::Side => 2,
            _ => 4,
        }
    }

    /// Name shown in the brush picker.
    pub fn label(self) -> (label: &'static str)
        ensures
            label@ == brush_label(self),
    {
        match self {
            Brush::FourWay => "Top / bottom (4-way)",
            Brush::Side => "Side face (2-way)",
            Brush::Netherrack(face) => match face {
                Face::Up => "Netherrack up",
                Face::Down => "Netherrack down",
                Face::North => "Netherrack north",
                Face::South => "Netherrack south",
                Face::East => "Netherrack east",
                Face::West => "Netherrack west",
            },
        }
    }

    /// Single-character badge drawn on a painted cell.
    ///
    /// Only netherrack rows get one, and it is always a compass letter: a side
    /// row is marked by its bar instead, so an `S` for "side" never sits next
    /// to an `S` for "south".
    pub fn badge(self) -> (badge: &'static str)
        ensures
            badge@ == match self {
                Brush::Netherrack(face) => face_letter(face),
                _ => ""@,
            },
    {
        match self {
            Brush::FourWay | Brush::Side => "",
            Brush::Netherrack(face) => face_badge(face),
        }
    }
}

/// The brush that produced an existing filter row.
pub fn brush_of(info: &RotationInfo) -> (brush: Brush)
    ensures
        brush == kind_brush(info.kind),
{
    match info.kind {
        RotationKind::StandardFourWay => Brush::FourWay,
        RotationKind::StandardSide => Brush::Side,
        RotationKind::Netherrack(face) => Brush::Netherrack(face),
    }
}

/// Config-file spelling of a netherrack face marker.
pub fn face_name(face: Face) -> (name: &'static str)
    ensures
        name@ == face_word(face),
{
    match face {
        Face::Up => "up",
        Face::Down => "down",
        Face::North => "north",
        Face::South => "south",
        Face::East => "east",
        Face::West => "west",
    }
}

fn face_badge(face: Face) -> (badge: &'static str)
    ensures
        badge@ == face_letter(face),
{
    match face {
        Face::Up => "U",
        Face::Down => "D",
        Face::North => "N",
        Face::South => "S",
        Face::East => "E",
        Face::West => "W",
    }
}

/// The marker that follows a row's rotation in the config file.
pub open spec fn kind_marker(kind: RotationKind) -> Seq<char> {
    match kind {
        RotationKind::StandardFourWay => Seq::empty(),
        RotationKind::StandardSide => " side"@,
        RotationKind::Netherrack(face) => " netherrack-"@ + face_word(face),
    }
}

/// One filter row exactly as the config parser reads it:
/// `x y z | rotation[ marker]`.
pub open spec fn row_line(info: RotationInfo) -> Seq<char> {
    decimal(info.x as int) + " "@ + decimal(info.y as int) + " "@ + decimal(info.z as int)
        + " | "@ + decimal(info.rotation as int) + kind_marker(info.kind)
}

fn push_row(out: &mut Vec<char>, info: &RotationInfo)
    ensures
        final(out)@ == old(out)@ + row_line(*info),
{
    push_decimal(out, info.x as i64);
    push_str(out, " ");
    push_decimal(out, info.y as i64);
    push_str(out, " ");
    push_decimal(out, info.z as i64);
    push_str(out, " | ");
    push_decimal(out, info.rotation as i64);
    match info.kind {
        RotationKind::StandardFourWay => {},
        RotationKind::StandardSide => {
            push_str(out, " side");
        },
        RotationKind::Netherrack(face) => {
            push_str(out, " netherrack-");
            push_str(out, face_name(face));
        },
    }
    assert(final(out)@ =~= old(out)@ + row_line(*info));
}

/// Renders one filter row exactly as the config parser expects it.
pub fn row_text(info: &RotationInfo) -> (text: String)
    ensures
        text@ == row_line(*info),
{
    let mut out: Vec<char> = Vec::new();
    push_row(&mut out, info);
    assert(out@ =~= row_line(*info));
    string_from_chars(&out)
}

/// Every row, each followed by a newline.
pub open spec fn rows_text(rows: Seq<RotationInfo>) -> Seq<char>
    decreases rows.len(),
{
    if rows.len() == 0 {
        Seq::empty()
    } else {
        rows_text(rows.drop_last()) + row_line(rows.last()) + "\n"@
    }
}

/// A settings-and-filter document being edited.
///
/// Ranges use the same half-open `[start, end)` bounds as the config file.
#[derive(Clone, Debug, PartialEq)]
pub struct EditableConfig {
    pub algorithm: TextureAlgorithm,
    pub scan_order: ScanOrder,
    /// One flag per entry of [`DIRECTIONS`].
    pub directions: [bool; 4],
    pub x_range: IntRange,
    pub y_range: IntRange,
    pub z_range: IntRange,
    pub error_tolerance: i32,
    pub cpu_tile_size: TileSize,
    pub gpu_tile_size: TileSize,
    pub verbose: bool,
    pub filter: Vec<RotationInfo>,
}

/// What a document holds.
#[verifier::ext_equal]
pub struct DocumentView {
    pub algorithm: TextureAlgorithm,
    pub scan_order: ScanOrder,
    pub directions: Seq<bool>,
    pub x_range: IntRange,
    pub y_range: IntRange,
    pub z_range: IntRange,
    pub error_tolerance: i32,
    pub cpu_tile_size: TileSize,
    pub gpu_tile_size: TileSize,
    pub verbose: bool,
    pub filter: Seq<RotationInfo>,
}

impl View for EditableConfig {
    type V = DocumentView;

    open spec fn view(&self) -> DocumentView {
        DocumentView {
            algorithm: self.algorithm,
            scan_order: self.scan_order,
            directions: self.directions@,
            x_range: self.x_range,
            y_range: self.y_range,
            z_range: self.z_range,
            error_tolerance: self.error_tolerance,
            cpu_tile_size: self.cpu_tile_size,
            gpu_tile_size: self.gpu_tile_size,
            verbose: self.verbose,
            filter: self.filter@,
        }
    }
}

/// A new document: Vanilla-3, spiral order, facing 0°, a 10,000-block square
/// around the origin from Y -60 up to 0, no tolerance, the engine's tile
/// sizes, and an empty filter.
pub open spec fn default_document() -> DocumentView {
    DocumentView {
        algorithm: TextureAlgorithm::Vanilla3,
        scan_order: ScanOrder::Spiral,
        directions: seq![true, false, false, false],
        x_range: IntRange { start: -5_000i32, end: 5_000i32 },
        y_range: IntRange { start: -60i32, end: 0i32 },
        z_range: IntRange { start: -5_000i32, end: 5_000i32 },
        error_tolerance: 0i32,
        cpu_tile_size: crate::config::default_config().cpu_tile_size,
        gpu_tile_size: crate::config::default_config().gpu_tile_size,
        verbose: false,
        filter: Seq::empty(),
    }
}

impl Default for EditableConfig {
    fn default() -> (config: EditableConfig)
        ensures
            config@ == default_document(),
    {
        // A new document starts on the engine's own tile sizes.
        let engine = ScanConfig::default();
        let config = EditableConfig {
            algorithm: TextureAlgorithm::Vanilla3,
            scan_order: ScanOrder::Spiral,
            directions: [true, false, false, false],
            x_range: IntRange { start: -5_000, end: 5_000 },
            y_range: IntRange { start: -60, end: 0 },
            z_range: IntRange { start: -5_000, end: 5_000 },
            error_tolerance: 0,
            cpu_tile_size: engine.cpu_tile_size,
            gpu_tile_size: engine.gpu_tile_size,
            verbose: false,
            filter: Vec::new(),
        };
        assert(config@ =~= default_document());
        config
    }
}

/// The direction flags a configuration's direction list sets.
pub open spec fn direction_flags(directions: Seq<i32>) -> Seq<bool> {
    seq![
        directions.contains(0i32),
        directions.contains(90i32),
        directions.contains(180i32),
        directions.contains(270i32),
    ]
}

/// The directions whose flags are set, ascending.
pub open spec fn selected(flags: Seq<bool>) -> Seq<i32> {
    (if flags[0] { seq![0i32] } else { Seq::empty() }) + (if flags[1] {
        seq![90i32]
    } else {
        Seq::empty()
    }) + (if flags[2] { seq![180i32] } else { Seq::empty() }) + (if flags[3] {
        seq![270i32]
    } else {
        Seq::empty()
    })
}

/// The document view of a parsed configuration.
pub open spec fn document_of(config: crate::config::ConfigView) -> DocumentView {
    DocumentView {
        algorithm: config.algorithm,
        scan_order: config.scan_order,
        directions: direction_flags(config.directions),
        x_range: config.x_range,
        y_range: config.y_range,
        z_range: config.z_range,
        error_tolerance: config.error_tolerance,
        cpu_tile_size: config.cpu_tile_size,
        gpu_tile_size: config.gpu_tile_size,
        verbose: config.verbose,
        filter: config.filter,
    }
}

fn contains_direction(directions: &Vec<i32>, value: i32) -> (found: bool)
    ensures
        found == directions@.contains(value),
{
    let mut index: usize = 0;
    while index < directions.len()
        invariant
            index <= directions.len(),
            forall|j: int| 0 <= j < index ==> directions@[j] != value,
        decreases directions.len() - index,
    {
        if directions[index] == value {
            return true;
        }
        index = index + 1;
    }
    false
}

fn copy_rows(rows: &Vec<RotationInfo>) -> (copy: Vec<RotationInfo>)
    ensures
        copy@ == rows@,
{
    let mut copy: Vec<RotationInfo> = Vec::new();
    let mut index: usize = 0;
    while index < rows.len()
        invariant
            index <= rows.len(),
            copy@ == rows@.take(index as int),
        decreases rows.len() - index,
    {
        copy.push(rows[index]);
        assert(rows@.take(index + 1) =~= rows@.take(index as int).push(rows@[index as int]));
        index = index + 1;
    }
    assert(rows@.take(rows.len() as int) =~= rows@);
    copy
}

/// Whether a row sits at block `(x, y, z)`.
pub open spec fn row_at(info: RotationInfo, x: i8, y: i8, z: i8) -> bool {
    info.x == x && info.y == y && info.z == z
}

/// Whether a row uses the netherrack model selector.
pub open spec fn is_netherrack(kind: RotationKind) -> bool {
    kind is Netherrack
}

/// Index of the first row at `(x, y, z)` of kind `kind`, or -1.
pub open spec fn row_position(rows: Seq<RotationInfo>, x: i8, y: i8, z: i8, kind: RotationKind) -> int
    decreases rows.len(),
{
    if rows.len() == 0 {
        -1
    } else {
        let earlier = row_position(rows.drop_last(), x, y, z, kind);
        if earlier >= 0 {
            earlier
        } else if row_at(rows.last(), x, y, z) && rows.last().kind == kind {
            rows.len() - 1
        } else {
            -1
        }
    }
}

/// The row a brush paints.
pub open spec fn brush_row(x: i8, y: i8, z: i8, brush: Brush, rotation: u8) -> RotationInfo {
    match brush {
        Brush::FourWay => RotationInfo {
            x,
            y,
            z,
            rotation: rotation % 4,
            kind: RotationKind::StandardFourWay,
        },
        Brush::Side => RotationInfo { x, y, z, rotation: rotation % 2, kind: RotationKind::StandardSide },
        Brush::Netherrack(face) => RotationInfo {
            x,
            y,
            z,
            rotation: rotation % 4,
            kind: RotationKind::Netherrack(face),
        },
    }
}

/// The rows kept when painting a selector family at a block: rows elsewhere,
/// and rows of the same family at that block.
pub open spec fn compatible_rows(
    rows: Seq<RotationInfo>,
    x: i8,
    y: i8,
    z: i8,
    netherrack: bool,
) -> Seq<RotationInfo> {
    rows.filter(|info: RotationInfo| !row_at(info, x, y, z) || is_netherrack(info.kind) == netherrack)
}

/// The filter after painting `brush` with `rotation` at `(x, y, z)`.
pub open spec fn painted(
    rows: Seq<RotationInfo>,
    x: i8,
    y: i8,
    z: i8,
    brush: Brush,
    rotation: u8,
) -> Seq<RotationInfo> {
    let kept = compatible_rows(rows, x, y, z, brush is Netherrack);
    let row = brush_row(x, y, z, brush, rotation);
    let index = row_position(kept, x, y, z, brush_kind(brush));
    if index >= 0 {
        kept.update(index, row)
    } else {
        kept.push(row)
    }
}

/// The filter without any row at `(x, y, z)`.
pub open spec fn erased(rows: Seq<RotationInfo>, x: i8, y: i8, z: i8) -> Seq<RotationInfo> {
    rows.filter(|info: RotationInfo| !row_at(info, x, y, z))
}

proof fn lemma_row_position_prefix(
    rows: Seq<RotationInfo>,
    k: int,
    x: i8,
    y: i8,
    z: i8,
    kind: RotationKind,
)
    requires
        0 <= k <= rows.len(),
        row_position(rows.take(k), x, y, z, kind) >= 0,
    ensures
        row_position(rows, x, y, z, kind) == row_position(rows.take(k), x, y, z, kind),
    decreases rows.len() - k,
{
    if k < rows.len() {
        assert(rows.take(k + 1).drop_last() =~= rows.take(k));
        lemma_row_position_prefix(rows, k + 1, x, y, z, kind);
    } else {
        assert(rows.take(k) =~= rows);
    }
}

/// `row_position` names the first matching row, or -1 when none matches.
pub proof fn lemma_row_position(rows: Seq<RotationInfo>, x: i8, y: i8, z: i8, kind: RotationKind)
    ensures
        -1 <= row_position(rows, x, y, z, kind) < rows.len(),
        row_position(rows, x, y, z, kind) >= 0 ==> row_at(
            rows[row_position(rows, x, y, z, kind)],
            x,
            y,
            z,
        ) && rows[row_position(rows, x, y, z, kind)].kind == kind,
        forall|j: int|
            0 <= j < rows.len() && (row_position(rows, x, y, z, kind) == -1 || j < row_position(
                rows,
                x,
                y,
                z,
                kind,
            )) ==> !(row_at(#[trigger] rows[j], x, y, z) && rows[j].kind == kind),
    decreases rows.len(),
{
    if rows.len() > 0 {
        let earlier = rows.drop_last();
        lemma_row_position(earlier, x, y, z, kind);
        assert forall|j: int|
            0 <= j < rows.len() && (row_position(rows, x, y, z, kind) == -1 || j < row_position(
                rows,
                x,
                y,
                z,
                kind,
            )) implies !(row_at(#[trigger] rows[j], x, y, z) && rows[j].kind == kind) by {
            if j < earlier.len() {
                assert(rows[j] == earlier[j]);
            }
        }
        if row_position(earlier, x, y, z, kind) >= 0 {
            assert(rows[row_position(earlier, x, y, z, kind)] == earlier[row_position(
                earlier,
                x,
                y,
                z,
                kind,
            )]);
        }
    }
}

fn position_of(rows: &Vec<RotationInfo>, x: i8, y: i8, z: i8, kind: RotationKind) -> (found: Option<usize>)
    ensures
        match found {
            Some(index) => index == row_position(rows@, x, y, z, kind),
            None => row_position(rows@, x, y, z, kind) == -1,
        },
{
    let mut index: usize = 0;
    while index < rows.len()
        invariant
            index <= rows.len(),
            row_position(rows@.take(index as int), x, y, z, kind) == -1,
        decreases rows.len() - index,
    {
        assert(rows@.take(index + 1).drop_last() =~= rows@.take(index as int));
        let info = rows[index];
        if info.x == x && info.y == y && info.z == z && info.kind == kind {
            proof {
                lemma_row_position_prefix(rows@, index + 1, x, y, z, kind);
            }
            return Some(index);
        }
        index = index + 1;
    }
    assert(rows@.take(rows.len() as int) =~= rows@);
    None
}

impl EditableConfig {
    /// A copy of this document.
    pub fn snapshot(&self) -> (copy: EditableConfig)
        ensures
            copy@ == self@,
    {
        let copy = EditableConfig {
            algorithm: self.algorithm,
            scan_order: self.scan_order,
            directions: self.directions,
            x_range: self.x_range,
            y_range: self.y_range,
            z_range: self.z_range,
            error_tolerance: self.error_tolerance,
            cpu_tile_size: self.cpu_tile_size,
            gpu_tile_size: self.gpu_tile_size,
            verbose: self.verbose,
            filter: copy_rows(&self.filter),
        };
        assert(copy@ =~= self@);
        copy
    }

    /// Whether two documents hold the same settings and rows.
    pub fn same_document(&self, other: &EditableConfig) -> (same: bool)
        ensures
            same == (self@ == other@),
    {
        if self.algorithm != other.algorithm || self.scan_order != other.scan_order
            || self.x_range != other.x_range || self.y_range != other.y_range || self.z_range
            != other.z_range || self.error_tolerance != other.error_tolerance || self.cpu_tile_size
            != other.cpu_tile_size || self.gpu_tile_size != other.gpu_tile_size || self.verbose
            != other.verbose {
            return false;
        }
        if self.directions[0] != other.directions[0] || self.directions[1] != other.directions[1]
            || self.directions[2] != other.directions[2] || self.directions[3]
            != other.directions[3] {
            return false;
        }
        assert(self.directions@ =~= other.directions@);
        if self.filter.len() != other.filter.len() {
            return false;
        }
        let mut index: usize = 0;
        while index < self.filter.len()
            invariant
                index <= self.filter.len(),
                self.filter.len() == other.filter.len(),
                forall|j: int| 0 <= j < index ==> self.filter@[j] == other.filter@[j],
            decreases self.filter.len() - index,
        {
            if self.filter[index] != other.filter[index] {
                return false;
            }
            index = index + 1;
        }
        assert(self.filter@ =~= other.filter@);
        assert(self@ =~= other@);
        true
    }

    /// Rebuilds the editable form from a parsed config.
    pub fn from_scan_config(config: &ScanConfig) -> (document: EditableConfig)
        ensures
            document@ == document_of(config@),
    {
        let directions = [
            contains_direction(&config.directions, 0),
            contains_direction(&config.directions, 90),
            contains_direction(&config.directions, 180),
            contains_direction(&config.directions, 270),
        ];
        let document = EditableConfig {
            algorithm: config.algorithm,
            scan_order: config.scan_order,
            directions,
            x_range: config.x_range,
            y_range: config.y_range,
            z_range: config.z_range,
            error_tolerance: config.error_tolerance,
            cpu_tile_size: config.cpu_tile_size,
            gpu_tile_size: config.gpu_tile_size,
            verbose: config.verbose,
            filter: copy_rows(&config.filter),
        };
        assert(document@ =~= document_of(config@));
        document
    }

    /// The directions that are ticked, in ascending order.
    pub fn selected_directions(&self) -> (chosen: Vec<i32>)
        ensures
            chosen@ == selected(self.directions@),
    {
        let mut chosen: Vec<i32> = Vec::new();
        if self.directions[0] {
            chosen.push(0);
        }
        if self.directions[1] {
            chosen.push(90);
        }
        if self.directions[2] {
            chosen.push(180);
        }
        if self.directions[3] {
            chosen.push(270);
        }
        assert(chosen@ =~= selected(self.directions@));
        chosen
    }

    /// Index of the row at `(x, y, z)` painted with `brush`, if any.
    pub fn index_at(&self, x: i8, y: i8, z: i8, brush: Brush) -> (found: Option<usize>)
        ensures
            match found {
                Some(index) => index == row_position(self.filter@, x, y, z, brush_kind(brush)),
                None => row_position(self.filter@, x, y, z, brush_kind(brush)) == -1,
            },
    {
        let kind = brush.kind();
        position_of(&self.filter, x, y, z, kind)
    }

    /// Paints one observation, replacing any earlier row of the same brush.
    ///
    /// A single block cannot use both model selectors, so painting a
    /// netherrack face clears ordinary rows at that offset and vice versa; the
    /// config parser rejects that mix, and clearing it here keeps the editor
    /// from producing a document that cannot validate.
    pub fn paint(&mut self, x: i8, y: i8, z: i8, brush: Brush, rotation: u8)
        ensures
            final(self)@ == (DocumentView {
                filter: painted(old(self).filter@, x, y, z, brush, rotation),
                ..old(self)@
            }),
    {
        let netherrack = match brush {
            Brush::Netherrack(_) => true,
            _ => false,
        };
        let ghost keep = |info: RotationInfo|
            !row_at(info, x, y, z) || is_netherrack(info.kind) == netherrack;
        let mut kept: Vec<RotationInfo> = Vec::new();
        let mut index: usize = 0;
        while index < self.filter.len()
            invariant
                index <= self.filter.len(),
                keep == (|info: RotationInfo|
                    !row_at(info, x, y, z) || is_netherrack(info.kind) == netherrack),
                kept@ == self.filter@.take(index as int).filter(keep),
            decreases self.filter.len() - index,
        {
            let info = self.filter[index];
            proof {
                assert(self.filter@.take(index + 1) =~= self.filter@.take(index as int).push(info));
                self.filter@.take(index as int).lemma_filter_push(info, keep);
            }
            let same_block = info.x == x && info.y == y && info.z == z;
            let info_netherrack = match info.kind {
                RotationKind::Netherrack(_) => true,
                _ => false,
            };
            if !same_block || info_netherrack == netherrack {
                kept.push(info);
            }
            index = index + 1;
        }
        assert(self.filter@.take(self.filter.len() as int) =~= self.filter@);
        let row = match brush {
            Brush::FourWay => RotationInfo::new(x, y, z, rotation, false),
            Brush::Side => RotationInfo::new(x, y, z, rotation, true),
            Brush::Netherrack(face) => RotationInfo::netherrack(x, y, z, rotation, face),
        };
        let kind = brush.kind();
        proof {
            lemma_row_position(kept@, x, y, z, kind);
        }
        match position_of(&kept, x, y, z, kind) {
            Some(position) => {
                kept.set(position, row);
            },
            None => {
                kept.push(row);
            },
        }
        self.filter = kept;
    }

    /// Removes every row at `(x, y, z)`. Returns whether anything was removed.
    pub fn erase(&mut self, x: i8, y: i8, z: i8) -> (removed: bool)
        ensures
            final(self)@ == (DocumentView { filter: erased(old(self).filter@, x, y, z), ..old(self)@ }),
            removed == (erased(old(self).filter@, x, y, z).len() != old(self).filter@.len()),
    {
        let before = self.filter.len();
        let ghost keep = |info: RotationInfo| !row_at(info, x, y, z);
        let mut kept: Vec<RotationInfo> = Vec::new();
        let mut index: usize = 0;
        while index < self.filter.len()
            invariant
                index <= self.filter.len(),
                keep == (|info: RotationInfo| !row_at(info, x, y, z)),
                kept@ == self.filter@.take(index as int).filter(keep),
            decreases self.filter.len() - index,
        {
            let info = self.filter[index];
            proof {
                assert(self.filter@.take(index + 1) =~= self.filter@.take(index as int).push(info));
                self.filter@.take(index as int).lemma_filter_push(info, keep);
            }
            if info.x != x || info.y != y || info.z != z {
                kept.push(info);
            }
            index = index + 1;
        }
        assert(self.filter@.take(self.filter.len() as int) =~= self.filter@);
        self.filter = kept;
        before != self.filter.len()
    }

    /// Removes every row on Y layer `layer`, keeping the others in order.
    pub fn clear_layer(&mut self, layer: i8)
        ensures
            final(self)@ == (DocumentView {
                filter: old(self).filter@.filter(|info: RotationInfo| info.y != layer),
                ..old(self)@
            }),
    {
        let ghost keep = |info: RotationInfo| info.y != layer;
        let mut kept: Vec<RotationInfo> = Vec::new();
        let mut index: usize = 0;
        while index < self.filter.len()
            invariant
                index <= self.filter.len(),
                keep == (|info: RotationInfo| info.y != layer),
                kept@ == self.filter@.take(index as int).filter(keep),
            decreases self.filter.len() - index,
        {
            let info = self.filter[index];
            proof {
                assert(self.filter@.take(index + 1) =~= self.filter@.take(index as int).push(info));
                self.filter@.take(index as int).lemma_filter_push(info, keep);
            }
            if info.y != layer {
                kept.push(info);
            }
            index = index + 1;
        }
        assert(self.filter@.take(self.filter.len() as int) =~= self.filter@);
        self.filter = kept;
    }

    /// Inclusive X/Z bounds covering every filter row, or `None` when empty.
    pub fn extent(&self) -> (bounds: Option<(i32, i32, i32, i32)>)
        ensures
            self.filter@.len() == 0 <==> bounds is None,
            bounds matches Some(b) ==> {
                &&& forall|j: int|
                    0 <= j < self.filter@.len() ==> b.0 <= #[trigger] self.filter@[j].x <= b.1 && b.2
                        <= self.filter@[j].z <= b.3
                &&& exists|j: int| 0 <= j < self.filter@.len() && #[trigger] self.filter@[j].x == b.0
                &&& exists|j: int| 0 <= j < self.filter@.len() && #[trigger] self.filter@[j].x == b.1
                &&& exists|j: int| 0 <= j < self.filter@.len() && #[trigger] self.filter@[j].z == b.2
                &&& exists|j: int| 0 <= j < self.filter@.len() && #[trigger] self.filter@[j].z == b.3
            },
    {
        if self.filter.len() == 0 {
            return None;
        }
        let first = self.filter[0];
        let mut bounds: (i32, i32, i32, i32) = (
            first.x as i32,
            first.x as i32,
            first.z as i32,
            first.z as i32,
        );
        let ghost mut witnesses: (int, int, int, int) = (0, 0, 0, 0);
        let mut index: usize = 1;
        while index < self.filter.len()
            invariant
                1 <= index <= self.filter.len(),
                forall|j: int|
                    0 <= j < index ==> bounds.0 <= #[trigger] self.filter@[j].x <= bounds.1
                        && bounds.2 <= self.filter@[j].z <= bounds.3,
                0 <= witnesses.0 < index && self.filter@[witnesses.0].x == bounds.0,
                0 <= witnesses.1 < index && self.filter@[witnesses.1].x == bounds.1,
                0 <= witnesses.2 < index && self.filter@[witnesses.2].z == bounds.2,
                0 <= witnesses.3 < index && self.filter@[witnesses.3].z == bounds.3,
            decreases self.filter.len() - index,
        {
            let info = self.filter[index];
            if (info.x as i32) < bounds.0 {
                bounds.0 = info.x as i32;
                proof {
                    witnesses.0 = index as int;
                }
            }
            if (info.x as i32) > bounds.1 {
                bounds.1 = info.x as i32;
                proof {
                    witnesses.1 = index as int;
                }
            }
            if (info.z as i32) < bounds.2 {
                bounds.2 = info.z as i32;
                proof {
                    witnesses.2 = index as int;
                }
            }
            if (info.z as i32) > bounds.3 {
                bounds.3 = info.z as i32;
                proof {
                    witnesses.3 = index as int;
                }
            }
            assert(info == self.filter@[index as int]);
            assert forall|j: int| 0 <= j < index + 1 implies bounds.0 <= #[trigger] self.filter@[j].x
                <= bounds.1 && bounds.2 <= self.filter@[j].z <= bounds.3 by {
                if j < index {
                    assert(bounds.0 <= self.filter@[j].x);
                }
            }
            index = index + 1;
        }
        Some(bounds)
    }

    /// Every Y layer that holds at least one row, ascending.
    pub fn layers(&self) -> (layers: Vec<i8>)
        ensures
            forall|i: int, j: int| 0 <= i < j < layers@.len() ==> layers@[i] < layers@[j],
            forall|y: i8|
                layers@.contains(y) <==> exists|j: int|
                    0 <= j < self.filter@.len() && #[trigger] self.filter@[j].y == y,
    {
        let mut layers: Vec<i8> = Vec::new();
        let mut index: usize = 0;
        while index < self.filter.len()
            invariant
                index <= self.filter.len(),
                forall|i: int, j: int| 0 <= i < j < layers@.len() ==> layers@[i] < layers@[j],
                forall|y: i8|
                    layers@.contains(y) <==> exists|j: int|
                        0 <= j < index && #[trigger] self.filter@[j].y == y,
            decreases self.filter.len() - index,
        {
            let y = self.filter[index].y;
            let mut position: usize = 0;
            let mut present = false;
            while position < layers.len() && layers[position] < y
                invariant
                    position <= layers.len(),
                    forall|j: int| 0 <= j < position ==> layers@[j] < y,
                decreases layers.len() - position,
            {
                position = position + 1;
            }
            if position < layers.len() && layers[position] == y {
                present = true;
            }
            let ghost old_layers = layers@;
            if !present {
                layers.insert(position, y);
                proof {
                    assert forall|i: int, j: int| 0 <= i < j < layers@.len() implies layers@[i]
                        < layers@[j] by {
                        if i < position && j == position {
                        } else if i == position && j > position {
                            if position < old_layers.len() {
                                assert(old_layers[position as int] > y);
                                assert(old_layers[position as int] <= old_layers[j - 1]);
                            }
                        }
                    }
                }
            }
            proof {
                assert forall|value: i8| layers@.contains(value) <==> exists|j: int|
                    0 <= j < index + 1 && #[trigger] self.filter@[j].y == value by {
                    if layers@.contains(value) {
                        let k = choose|k: int| 0 <= k < layers@.len() && layers@[k] == value;
                        if value != y {
                            if present {
                                assert(old_layers.contains(value));
                            } else {
                                if k < position {
                                    assert(old_layers[k] == value);
                                } else {
                                    assert(old_layers[k - 1] == value);
                                }
                                assert(old_layers.contains(value));
                            }
                        } else {
                            assert(self.filter@[index as int].y == value);
                        }
                    }
                    if exists|j: int| 0 <= j < index + 1 && #[trigger] self.filter@[j].y == value {
                        if value == y {
                            if present {
                                assert(layers@[position as int] == value);
                            } else {
                                assert(layers@[position as int] == value);
                            }
                        } else {
                            let j = choose|j: int| 0 <= j < index + 1 && #[trigger] self.filter@[j].y == value;
                            assert(j < index);
                            assert(old_layers.contains(value));
                            let k = choose|k: int| 0 <= k < old_layers.len() && old_layers[k] == value;
                            if present {
                            } else if k < position {
                                assert(layers@[k] == value);
                            } else {
                                assert(layers@[k + 1] == value);
                            }
                        }
                    }
                }
            }
            index = index + 1;
        }
        layers
    }
}

// ---------------------------------------------------------------------------
// Laws of the editing operations
// ---------------------------------------------------------------------------

/// No two brushes that draw a badge draw the same one, and only netherrack
/// brushes draw one.
pub proof fn lemma_badges_distinct(first: Face, second: Face)
    ensures
        face_letter(first).len() > 0,
        first != second ==> face_letter(first) != face_letter(second),
{
    reveal_strlit("U");
    reveal_strlit("D");
    reveal_strlit("N");
    reveal_strlit("S");
    reveal_strlit("E");
    reveal_strlit("W");
    if first != second {
        assert(face_letter(first)[0] != face_letter(second)[0]);
    }
}

/// No block holds rows of both selector families.
pub open spec fn unmixed(rows: Seq<RotationInfo>) -> bool {
    forall|i: int, j: int|
        0 <= i < rows.len() && 0 <= j < rows.len() && row_at(
            #[trigger] rows[i],
            rows[j].x,
            rows[j].y,
            rows[j].z,
        ) ==> is_netherrack(rows[i].kind) == is_netherrack(#[trigger] rows[j].kind)
}

proof fn lemma_filter_member(rows: Seq<RotationInfo>, keep: spec_fn(RotationInfo) -> bool, i: int)
    requires
        0 <= i < rows.filter(keep).len(),
    ensures
        keep(rows.filter(keep)[i]),
        rows.contains(rows.filter(keep)[i]),
{
    rows.lemma_filter_pred(keep, i);
    assert(rows.filter(keep).contains(rows.filter(keep)[i]));
    rows.lemma_filter_contains_rev(keep, rows.filter(keep)[i]);
}

/// Painting keeps every block to one selector family: the painted block holds
/// only rows of the brush's family, one of them the painted row, and an
/// unmixed filter stays unmixed.
pub proof fn lemma_paint_keeps_blocks_unmixed(
    rows: Seq<RotationInfo>,
    x: i8,
    y: i8,
    z: i8,
    brush: Brush,
    rotation: u8,
)
    ensures
        painted(rows, x, y, z, brush, rotation).contains(brush_row(x, y, z, brush, rotation)),
        forall|i: int|
            0 <= i < painted(rows, x, y, z, brush, rotation).len() && row_at(
                #[trigger] painted(rows, x, y, z, brush, rotation)[i],
                x,
                y,
                z,
            ) ==> is_netherrack(painted(rows, x, y, z, brush, rotation)[i].kind) == (brush is Netherrack),
        unmixed(rows) ==> unmixed(painted(rows, x, y, z, brush, rotation)),
{
    let netherrack = brush is Netherrack;
    let keep = |info: RotationInfo| !row_at(info, x, y, z) || is_netherrack(info.kind) == netherrack;
    let kept = compatible_rows(rows, x, y, z, netherrack);
    assert(kept == rows.filter(keep));
    let row = brush_row(x, y, z, brush, rotation);
    let index = row_position(kept, x, y, z, brush_kind(brush));
    lemma_row_position(kept, x, y, z, brush_kind(brush));
    let result = painted(rows, x, y, z, brush, rotation);
    assert(is_netherrack(row.kind) == netherrack);
    assert(row_at(row, x, y, z));
    // Every row of the result is the painted row or a kept row.
    assert forall|i: int| 0 <= i < result.len() implies #[trigger] result[i] == row || (
    rows.contains(result[i]) && keep(result[i])) by {
        if index >= 0 {
            if i != index {
                assert(result[i] == kept[i]);
                lemma_filter_member(rows, keep, i);
            }
        } else if i < kept.len() {
            assert(result[i] == kept[i]);
            lemma_filter_member(rows, keep, i);
        }
    }
    if index >= 0 {
        assert(result[index] == row);
    } else {
        assert(result[kept.len() as int] == row);
    }
    assert forall|i: int|
        0 <= i < result.len() && row_at(#[trigger] result[i], x, y, z) implies is_netherrack(
        result[i].kind,
    ) == netherrack by {
        assert(result[i] == row || (rows.contains(result[i]) && keep(result[i])));
    }
    if unmixed(rows) {
        assert forall|i: int, j: int|
            0 <= i < result.len() && 0 <= j < result.len() && row_at(
                #[trigger] result[i],
                result[j].x,
                result[j].y,
                result[j].z,
            ) implies is_netherrack(result[i].kind) == is_netherrack(#[trigger] result[j].kind) by {
            let a = result[i];
            let b = result[j];
            assert(a == row || (rows.contains(a) && keep(a)));
            assert(b == row || (rows.contains(b) && keep(b)));
            if row_at(a, x, y, z) {
                assert(row_at(b, x, y, z));
            } else if a != row && b != row {
                let ia = choose|k: int| 0 <= k < rows.len() && rows[k] == a;
                let ib = choose|k: int| 0 <= k < rows.len() && rows[k] == b;
                assert(row_at(rows[ia], rows[ib].x, rows[ib].y, rows[ib].z));
            }
        }
    }
}

/// Whether two rows sit at the same block with the same kind.
pub open spec fn same_slot(a: RotationInfo, b: RotationInfo) -> bool {
    a.x == b.x && a.y == b.y && a.z == b.z && a.kind == b.kind
}

/// Whether no block holds two rows of one kind.
pub open spec fn one_row_per_slot(rows: Seq<RotationInfo>) -> bool {
    forall|i: int, j: int|
        0 <= i < j < rows.len() ==> !same_slot(#[trigger] rows[i], #[trigger] rows[j])
}

proof fn lemma_filter_one_per_slot(rows: Seq<RotationInfo>, keep: spec_fn(RotationInfo) -> bool)
    requires
        one_row_per_slot(rows),
    ensures
        one_row_per_slot(rows.filter(keep)),
    decreases rows.len(),
{
    if rows.len() > 0 {
        let rest = rows.drop_last();
        let last = rows.last();
        assert forall|i: int, j: int| 0 <= i < j < rest.len() implies !same_slot(
            #[trigger] rest[i],
            #[trigger] rest[j],
        ) by {
            assert(rest[i] == rows[i] && rest[j] == rows[j]);
        }
        lemma_filter_one_per_slot(rest, keep);
        assert(rows =~= rest.push(last));
        rest.lemma_filter_push(last, keep);
        let before = rest.filter(keep);
        if keep(last) {
            let after = before.push(last);
            assert forall|i: int, j: int| 0 <= i < j < after.len() implies !same_slot(
                #[trigger] after[i],
                #[trigger] after[j],
            ) by {
                if j == before.len() {
                    lemma_filter_member(rest, keep, i);
                    let k = choose|k: int| 0 <= k < rest.len() && rest[k] == before[i];
                    assert(rows[k] == before[i] && rows[rows.len() - 1] == last);
                    assert(after[i] == before[i] && after[j] == last);
                } else {
                    assert(after[i] == before[i] && after[j] == before[j]);
                }
            }
        }
    }
}

/// Painting keeps at most one row per block and kind: a filter with no
/// block holding two rows of one kind keeps that after any paint.
pub proof fn lemma_paint_keeps_one_row_per_slot(
    rows: Seq<RotationInfo>,
    x: i8,
    y: i8,
    z: i8,
    brush: Brush,
    rotation: u8,
)
    requires
        one_row_per_slot(rows),
    ensures
        one_row_per_slot(painted(rows, x, y, z, brush, rotation)),
{
    let netherrack = brush is Netherrack;
    let keep = |info: RotationInfo| !row_at(info, x, y, z) || is_netherrack(info.kind) == netherrack;
    let kept = compatible_rows(rows, x, y, z, netherrack);
    assert(kept == rows.filter(keep));
    lemma_filter_one_per_slot(rows, keep);
    let row = brush_row(x, y, z, brush, rotation);
    let kind = brush_kind(brush);
    assert(row_at(row, x, y, z) && row.kind == kind);
    let index = row_position(kept, x, y, z, kind);
    lemma_row_position(kept, x, y, z, kind);
    let result = painted(rows, x, y, z, brush, rotation);
    if index >= 0 {
        assert(result == kept.update(index, row));
        assert(same_slot(kept[index], row));
        assert forall|i: int, j: int| 0 <= i < j < result.len() implies !same_slot(
            #[trigger] result[i],
            #[trigger] result[j],
        ) by {
            if i == index {
                assert(result[j] == kept[j]);
            } else if j == index {
                assert(result[i] == kept[i]);
            } else {
                assert(result[i] == kept[i] && result[j] == kept[j]);
            }
        }
    } else {
        assert(result == kept.push(row));
        assert forall|i: int, j: int| 0 <= i < j < result.len() implies !same_slot(
            #[trigger] result[i],
            #[trigger] result[j],
        ) by {
            assert(result[i] == kept[i]);
            if j < kept.len() {
                assert(result[j] == kept[j]);
            } else {
                assert(result[j] == row);
            }
        }
    }
}

/// Erasing leaves no row at the erased block and keeps every other row.
pub proof fn lemma_erase_clears_block(rows: Seq<RotationInfo>, x: i8, y: i8, z: i8)
    ensures
        forall|i: int|
            0 <= i < erased(rows, x, y, z).len() ==> !row_at(
                #[trigger] erased(rows, x, y, z)[i],
                x,
                y,
                z,
            ),
        forall|i: int|
            0 <= i < rows.len() && !row_at(#[trigger] rows[i], x, y, z) ==> erased(
                rows,
                x,
                y,
                z,
            ).contains(rows[i]),
{
    let keep = |info: RotationInfo| !row_at(info, x, y, z);
    assert(erased(rows, x, y, z) == rows.filter(keep));
    assert forall|i: int| 0 <= i < erased(rows, x, y, z).len() implies !row_at(
        #[trigger] erased(rows, x, y, z)[i],
        x,
        y,
        z,
    ) by {
        lemma_filter_member(rows, keep, i);
    }
    assert forall|i: int| 0 <= i < rows.len() && !row_at(#[trigger] rows[i], x, y, z) implies erased(
        rows,
        x,
        y,
        z,
    ).contains(rows[i]) by {
        rows.lemma_filter_contains(keep, i);
    }
}

// ---------------------------------------------------------------------------
// Writing and re-reading the document
// ---------------------------------------------------------------------------

/// The config-file word for a scan order.
pub open spec fn order_word(order: ScanOrder) -> Seq<char> {
    match order {
        ScanOrder::Linear => "linear"@,
        ScanOrder::Spiral => "spiral"@,
    }
}

/// The config-file word for a flag.
pub open spec fn flag_word(flag: bool) -> Seq<char> {
    if flag {
        "true"@
    } else {
        "false"@
    }
}

/// `a, b, ...` for a direction list.
pub open spec fn direction_list(directions: Seq<i32>) -> Seq<char> {
    joined(directions.map_values(|d: i32| decimal(d as int)), ", "@)
}

/// `(a, b)`.
pub open spec fn pair_text(a: int, b: int) -> Seq<char> {
    "("@ + decimal(a) + ", "@ + decimal(b) + ")"@
}

/// `lines`, each followed by a newline.
pub open spec fn lines_text(lines: Seq<Seq<char>>) -> Seq<char>
    decreases lines.len(),
{
    if lines.len() == 0 {
        Seq::empty()
    } else {
        lines_text(lines.drop_last()) + lines.last() + "\n"@
    }
}

/// The settings lines of the config text, up to and including the
/// `[filter]` header and its comment line.
pub open spec fn settings_lines(document: DocumentView) -> Seq<Seq<char>> {
    seq![
        "# Written by CoordsFinder GUI."@,
        Seq::empty(),
        "algorithm = "@ + algorithm_name(document.algorithm),
        "scanOrder = "@ + order_word(document.scan_order),
        "directions = ["@ + direction_list(selected(document.directions)) + "]"@,
        Seq::empty(),
        "xRange = "@ + pair_text(document.x_range.start as int, document.x_range.end as int),
        "yRange = "@ + pair_text(document.y_range.start as int, document.y_range.end as int),
        "zRange = "@ + pair_text(document.z_range.start as int, document.z_range.end as int),
        Seq::empty(),
        "errorTolerance = "@ + decimal(document.error_tolerance as int),
        Seq::empty(),
        "cpuTileSize = "@ + pair_text(
            document.cpu_tile_size.x as int,
            document.cpu_tile_size.z as int,
        ),
        "gpuTileSize = "@ + pair_text(
            document.gpu_tile_size.x as int,
            document.gpu_tile_size.z as int,
        ),
        "verbose = "@ + flag_word(document.verbose),
        Seq::empty(),
        "[filter]"@,
        "# x y z | variant [side|netherrack-<face>]"@,
    ]
}

/// The settings part of the config text.
pub open spec fn settings_text(document: DocumentView) -> Seq<char> {
    lines_text(settings_lines(document))
}

/// The whole config text written for a document.
pub open spec fn conf_text(document: DocumentView) -> Seq<char> {
    settings_text(document) + rows_text(document.filter)
}

/// The document a filter-text edit is validated in: no rows of its own, and
/// at least one direction so that an empty selection (reported elsewhere)
/// does not hide problems with the rows.
pub open spec fn probe_document(document: DocumentView) -> DocumentView {
    DocumentView {
        filter: Seq::empty(),
        directions: if selected(document.directions).len() == 0 {
            document.directions.update(0, true)
        } else {
            document.directions
        },
        ..document
    }
}

/// `message` ends with `": "` and `problem`, as the parser reports an error
/// after naming its source.
pub open spec fn reports(message: Seq<char>, problem: Seq<char>) -> bool {
    message.len() >= problem.len() + 2 && message.subrange(
        message.len() - problem.len() - 2,
        message.len() as int,
    ) == ": "@ + problem
}

fn push_pair(out: &mut Vec<char>, a: i32, b: i32)
    ensures
        final(out)@ == old(out)@ + pair_text(a as int, b as int),
{
    push_str(out, "(");
    push_decimal(out, a as i64);
    push_str(out, ", ");
    push_decimal(out, b as i64);
    push_str(out, ")");
    assert(final(out)@ =~= old(out)@ + pair_text(a as int, b as int));
}

fn push_rows(out: &mut Vec<char>, rows: &Vec<RotationInfo>)
    ensures
        final(out)@ == old(out)@ + rows_text(rows@),
{
    let ghost start = out@;
    let mut index: usize = 0;
    assert(start + rows_text(rows@.take(0)) =~= start);
    while index < rows.len()
        invariant
            index <= rows.len(),
            out@ == start + rows_text(rows@.take(index as int)),
        decreases rows.len() - index,
    {
        push_row(out, &rows[index]);
        push_str(out, "\n");
        assert(rows@.take(index + 1).drop_last() =~= rows@.take(index as int));
        assert(out@ =~= start + rows_text(rows@.take(index + 1)));
        index = index + 1;
    }
    assert(rows@.take(rows.len() as int) =~= rows@);
}

fn push_directions(out: &mut Vec<char>, flags: &[bool; 4])
    ensures
        final(out)@ == old(out)@ + direction_list(selected(flags@)),
{
    let ghost start = out@;
    let values: [i32; 4] = [0, 90, 180, 270];
    let mut chosen: Vec<i32> = Vec::new();
    let mut index: usize = 0;
    let ghost parts: Seq<Seq<char>> = Seq::empty();
    while index < 4
        invariant
            index <= 4,
            values@ == seq![0i32, 90i32, 180i32, 270i32],
            parts == chosen@.map_values(|d: i32| decimal(d as int)),
            out@ == start + joined(parts, ", "@),
            chosen@ == selected(flags@.take(index as int) + seq![false, false, false, false].take(
                4 - index,
            )),
        decreases 4 - index,
    {
        let ghost before = chosen@;
        if flags[index] {
            if chosen.len() > 0 {
                push_str(out, ", ");
            }
            push_decimal(out, values[index] as i64);
            chosen.push(values[index]);
            proof {
                lemma_joined_push(parts, ", "@, decimal(values@[index as int] as int));
                parts = parts.push(decimal(values@[index as int] as int));
                assert(parts =~= chosen@.map_values(|d: i32| decimal(d as int)));
            }
        }
        proof {
            let old_flags = flags@.take(index as int) + seq![false, false, false, false].take(4 - index);
            let new_flags = flags@.take(index + 1) + seq![false, false, false, false].take(3 - index);
            assert(new_flags =~= old_flags.update(index as int, flags@[index as int]));
        }
        index = index + 1;
    }
    assert(flags@.take(4) + seq![false, false, false, false].take(0) =~= flags@);
}

/// One more line adds the line and a newline.
pub proof fn lemma_lines_text_push(lines: Seq<Seq<char>>, line: Seq<char>)
    ensures
        lines_text(lines.push(line)) == lines_text(lines) + line + "\n"@,
{
    assert(lines.push(line).drop_last() =~= lines);
}

fn append_line(out: &mut Vec<char>, line: &Vec<char>)
    ensures
        final(out)@ == old(out)@ + line@ + "\n"@,
{
    push_chars(out, line);
    push_str(out, "\n");
}

fn text_line(text: &str) -> (line: Vec<char>)
    ensures
        line@ == text@,
{
    let mut line: Vec<char> = Vec::new();
    push_str(&mut line, text);
    line
}

fn pair_line(key: &str, a: i32, b: i32) -> (line: Vec<char>)
    ensures
        line@ == key@ + pair_text(a as int, b as int),
{
    let mut line: Vec<char> = Vec::new();
    push_str(&mut line, key);
    push_pair(&mut line, a, b);
    line
}

fn push_settings(out: &mut Vec<char>, document: &EditableConfig)
    ensures
        final(out)@ == old(out)@ + settings_text(document@),
{
    let ghost start = out@;
    let ghost mut done: Seq<Seq<char>> = Seq::empty();
    let mut lines: Vec<Vec<char>> = Vec::new();
    lines.push(text_line("# Written by CoordsFinder GUI."));
    lines.push(Vec::new());
    let mut algorithm = text_line("algorithm = ");
    push_str(&mut algorithm, document.algorithm.name());
    lines.push(algorithm);
    let mut order = text_line("scanOrder = ");
    match document.scan_order {
        ScanOrder::Linear => push_str(&mut order, "linear"),
        ScanOrder::Spiral => push_str(&mut order, "spiral"),
    }
    lines.push(order);
    let mut directions = text_line("directions = [");
    push_directions(&mut directions, &document.directions);
    push_str(&mut directions, "]");
    lines.push(directions);
    lines.push(Vec::new());
    lines.push(pair_line("xRange = ", document.x_range.start, document.x_range.end));
    lines.push(pair_line("yRange = ", document.y_range.start, document.y_range.end));
    lines.push(pair_line("zRange = ", document.z_range.start, document.z_range.end));
    lines.push(Vec::new());
    let mut tolerance = text_line("errorTolerance = ");
    push_decimal(&mut tolerance, document.error_tolerance as i64);
    lines.push(tolerance);
    lines.push(Vec::new());
    lines.push(pair_line("cpuTileSize = ", document.cpu_tile_size.x, document.cpu_tile_size.z));
    lines.push(pair_line("gpuTileSize = ", document.gpu_tile_size.x, document.gpu_tile_size.z));
    let mut verbose = text_line("verbose = ");
    if document.verbose {
        push_str(&mut verbose, "true");
    } else {
        push_str(&mut verbose, "false");
    }
    lines.push(verbose);
    lines.push(Vec::new());
    lines.push(text_line("[filter]"));
    lines.push(text_line("# x y z | variant [side|netherrack-<face>]"));
    assert(lines@.map_values(|line: Vec<char>| line@) =~= settings_lines(document@));
    let mut index: usize = 0;
    while index < lines.len()
        invariant
            index <= lines@.len(),
            lines@.map_values(|line: Vec<char>| line@) == settings_lines(document@),
            out@ == start + lines_text(settings_lines(document@).take(index as int)),
        decreases lines@.len() - index,
    {
        append_line(out, &lines[index]);
        proof {
            let all = settings_lines(document@);
            assert(all[index as int] == lines@[index as int]@);
            lemma_lines_text_push(all.take(index as int), all[index as int]);
            assert(all.take(index + 1) =~= all.take(index as int).push(all[index as int]));
        }
        index = index + 1;
    }
    assert(settings_lines(document@).take(lines@.len() as int) =~= settings_lines(document@));
}

impl EditableConfig {
    /// Writes the config-file text for this document.
    pub fn to_conf_text(&self) -> (text: String)
        ensures
            text@ == conf_text(self@),
    {
        let mut out: Vec<char> = Vec::new();
        push_settings(&mut out, self);
        push_rows(&mut out, &self.filter);
        assert(out@ =~= conf_text(self@));
        string_from_chars(&out)
    }

    /// Writes just the `[filter]` rows, one per line.
    pub fn filter_text(&self) -> (text: String)
        ensures
            text@ == rows_text(self.filter@),
    {
        let mut out: Vec<char> = Vec::new();
        push_rows(&mut out, &self.filter);
        assert(out@ =~= rows_text(self.filter@));
        string_from_chars(&out)
    }

    /// Replaces the filter rows by re-parsing them through the config
    /// parser, in the context of this document's settings.
    pub fn set_filter_text(&mut self, rows: &str, source_path: &std::path::Path) -> (outcome: Result<(), String>)
        ensures
            match parsed_text(conf_text(probe_document(old(self)@)) + rows@) {
                Ok(config) => outcome is Ok && final(self)@ == (DocumentView {
                    filter: config.filter,
                    ..old(self)@
                }),
                Err(problem) => outcome matches Err(message) && reports(message@, problem)
                    && final(self)@ == old(self)@,
            },
    {
        let mut probe = self.snapshot();
        probe.filter = Vec::new();
        if !(probe.directions[0] || probe.directions[1] || probe.directions[2]
            || probe.directions[3]) {
            probe.directions[0] = true;
        }
        assert(probe@ =~= probe_document(self@));
        let mut out: Vec<char> = Vec::new();
        push_settings(&mut out, &probe);
        push_rows(&mut out, &probe.filter);
        push_str(&mut out, rows);
        assert(out@ =~= conf_text(probe@) + rows@);
        let text = string_from_chars(&out);
        match parse(text.as_str(), source_path) {
            Ok(parsed) => {
                let ghost before = self@;
                self.filter = parsed.filter;
                assert(self@ =~= DocumentView { filter: parsed@.filter, ..before });
                Ok(())
            },
            Err(message) => Err(message),
        }
    }

    /// Validates the document and returns the config a scan would run.
    pub fn to_scan_config(&self, source_path: &std::path::Path) -> (outcome: Result<ScanConfig, String>)
        ensures
            selected(self.directions@).len() == 0 ==> (outcome matches Err(message) && message@
                == "select at least one direction"@),
            selected(self.directions@).len() > 0 ==> match parsed_text(conf_text(self@)) {
                Ok(config) => outcome matches Ok(scan) && scan@ == config,
                Err(problem) => outcome matches Err(message) && reports(message@, problem),
            },
    {
        if !(self.directions[0] || self.directions[1] || self.directions[2] || self.directions[3]) {
            return Err("select at least one direction".to_owned());
        }
        let text = self.to_conf_text();
        parse(text.as_str(), source_path)
    }
}

} // verus!
