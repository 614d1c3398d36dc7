//! Shared value types used by configuration, planning, and scan backends.

use vstd::prelude::*;

use crate::text::{chars_equal_str, chars_of, lowercase, lowercase_chars, push_str, string_from_chars};

verus! {

/// Maximum number of compiled block constraints supported by the GPU layout.
pub const MAX_FILTER_COUNT: usize = 256;

/// Texture randomization implementation to reproduce during a search.
#[derive(Clone, Copy, Debug, PartialEq, Eq, Structural)]
pub enum TextureAlgorithm {
    Vanilla1,
    Vanilla2,
    Vanilla3,
    Sodium1,
    Sodium2,
}

/// The display name of an algorithm.
pub open spec fn algorithm_name(algorithm: TextureAlgorithm) -> Seq<char> {
    match algorithm {
        TextureAlgorithm::Vanilla1 => "Vanilla-1"@,
        TextureAlgorithm::Vanilla2 => "Vanilla-2"@,
        TextureAlgorithm::Vanilla3 => "Vanilla-3"@,
        TextureAlgorithm::Sodium1 => "Sodium-1"@,
        TextureAlgorithm::Sodium2 => "Sodium-2"@,
    }
}

/// The algorithm a (case-insensitive) name selects.
pub open spec fn algorithm_named(value: Seq<char>) -> Option<TextureAlgorithm> {
    let lowered = lowercase(value);
    if lowered == "vanilla-1"@ {
        Some(TextureAlgorithm::Vanilla1)
    } else if lowered == "vanilla-2"@ {
        Some(TextureAlgorithm::Vanilla2)
    } else if lowered == "vanilla-3"@ {
        Some(TextureAlgorithm::Vanilla3)
    } else if lowered == "sodium-1"@ {
        Some(TextureAlgorithm::Sodium1)
    } else if lowered == "sodium-2"@ {
        Some(TextureAlgorithm::Sodium2)
    } else {
        None
    }
}

/// The error for an unknown algorithm name.
pub open spec fn unknown_algorithm_message(value: Seq<char>) -> Seq<char> {
    "unknown texture algorithm '"@ + value + "'"@
}

impl TextureAlgorithm {
    /// The display name, such as `Vanilla-3`.
    pub fn name(self) -> (name: &'static str)
        ensures
            name@ == algorithm_name(self),
    {
        match self {
            TextureAlgorithm::Vanilla1 => "Vanilla-1",
            TextureAlgorithm::Vanilla2 => "Vanilla-2",
            TextureAlgorithm::Vanilla3 => "Vanilla-3",
            TextureAlgorithm::Sodium1 => "Sodium-1",
            TextureAlgorithm::Sodium2 => "Sodium-2",
        }
    }

    /// The display name as an owned string.
    pub fn to_text(self) -> (text: String)
        ensures
            text@ == algorithm_name(self),
    {
        let chars = chars_of(self.name());
        string_from_chars(&chars)
    }

    /// Selects an algorithm by name, ignoring ASCII case.
    pub fn from_chars(value: &Vec<char>) -> (parsed: Result<TextureAlgorithm, String>)
        ensures
            match algorithm_named(value@) {
                Some(algorithm) => parsed == Ok::<TextureAlgorithm, String>(algorithm),
                None => parsed matches Err(message) && message@ == unknown_algorithm_message(value@),
            },
    {
        let lowered = lowercase_chars(value);
        if chars_equal_str(&lowered, "vanilla-1") {
            Ok(TextureAlgorithm::Vanilla1)
        } else if chars_equal_str(&lowered, "vanilla-2") {
            Ok(TextureAlgorithm::Vanilla2)
        } else if chars_equal_str(&lowered, "vanilla-3") {
            Ok(TextureAlgorithm::Vanilla3)
        } else if chars_equal_str(&lowered, "sodium-1") {
            Ok(TextureAlgorithm::Sodium1)
        } else if chars_equal_str(&lowered, "sodium-2") {
            Ok(TextureAlgorithm::Sodium2)
        } else {
            let mut message: Vec<char> = Vec::new();
            push_str(&mut message, "unknown texture algorithm '");
            let mut index: usize = 0;
            let ghost start = message@;
            while index < value.len()
                invariant
                    index <= value.len(),
                    message@ == start + value@.take(index as int),
                decreases value.len() - index,
            {
                message.push(value[index]);
                assert(value@.take(index + 1) =~= value@.take(index as int).push(value@[index as int]));
                index = index + 1;
            }
            assert(value@.take(value.len() as int) =~= value@);
            push_str(&mut message, "'");
            assert(message@ =~= unknown_algorithm_message(value@));
            Err(string_from_chars(&message))
        }
    }

    /// Selects an algorithm by name, ignoring ASCII case.
    pub fn from_name(value: &str) -> (parsed: Result<TextureAlgorithm, String>)
        ensures
            match algorithm_named(value@) {
                Some(algorithm) => parsed == Ok::<TextureAlgorithm, String>(algorithm),
                None => parsed matches Err(message) && message@ == unknown_algorithm_message(value@),
            },
    {
        let chars = chars_of(value);
        TextureAlgorithm::from_chars(&chars)
    }
}

impl std::str::FromStr for TextureAlgorithm {
    type Err = String;

    fn from_str(value: &str) -> (parsed: Result<TextureAlgorithm, String>)
        ensures
            match algorithm_named(value@) {
                Some(algorithm) => parsed == Ok::<TextureAlgorithm, String>(algorithm),
                None => parsed matches Err(message) && message@ == unknown_algorithm_message(value@),
            },
    {
        TextureAlgorithm::from_name(value)
    }
}

/// A signed three-dimensional coordinate or half-open bound.
#[derive(Clone, Copy, Debug, Default, PartialEq, Eq, Structural)]
pub struct Int3 {
    pub x: i32,
    pub y: i32,
    pub z: i32,
}

/// One of Minecraft's six world-facing block faces.
#[derive(Clone, Copy, Debug, PartialEq, Eq, Hash, Structural)]
pub enum Face {
    Up,
    Down,
    North,
    South,
    East,
    West,
}

/// One clockwise quarter turn around Y; vertical faces stay put.
pub open spec fn quarter_turn(face: Face) -> Face {
    match face {
        Face::North => Face::East,
        Face::East => Face::South,
        Face::South => Face::West,
        Face::West => Face::North,
        vertical => vertical,
    }
}

/// `turns` clockwise quarter turns around Y.
pub open spec fn turned(face: Face, turns: nat) -> Face
    decreases turns,
{
    if turns == 0 {
        face
    } else {
        quarter_turn(turned(face, (turns - 1) as nat))
    }
}

impl Face {
    /// Rotates a horizontal face clockwise around Y in world coordinates.
    pub fn rotate_y(self, quarter_turns: u8) -> (rotated: Face)
        ensures
            rotated == turned(self, (quarter_turns % 4) as nat),
    {
        let mut face = self;
        let turns: u8 = quarter_turns % 4;
        let mut done: u8 = 0;
        while done < turns
            invariant
                done <= turns,
                turns < 4,
                face == turned(self, done as nat),
            decreases turns - done,
        {
            face = match face {
                Face::North => Face::East,
                Face::East => Face::South,
                Face::South => Face::West,
                Face::West => Face::North,
                vertical => vertical,
            };
            done = done + 1;
        }
        face
    }
}

/// How a configured texture observation is interpreted.
#[derive(Clone, Copy, Debug, PartialEq, Eq, Structural)]
pub enum RotationKind {
    StandardFourWay,
    StandardSide,
    Netherrack(Face),
}

/// One texture observation at an offset from a candidate origin.
#[derive(Clone, Copy, Debug, PartialEq, Eq, Structural)]
pub struct RotationInfo {
    pub x: i8,
    pub y: i8,
    pub z: i8,
    pub rotation: u8,
    pub kind: RotationKind,
}

impl RotationInfo {
    /// Creates a normalized observation for a four-state face or two-state side.
    pub fn new(x: i8, y: i8, z: i8, rotation: u8, side: bool) -> (info: RotationInfo)
        ensures
            info.x == x && info.y == y && info.z == z,
            side ==> info.kind == RotationKind::StandardSide && info.rotation == rotation % 2,
            !side ==> info.kind == RotationKind::StandardFourWay && info.rotation == rotation % 4,
    {
        let kind = if side {
            RotationKind::StandardSide
        } else {
            RotationKind::StandardFourWay
        };
        RotationInfo { x, y, z, rotation: rotation % if side { 2 } else { 4 }, kind }
    }

    /// Creates a netherrack face observation.
    pub fn netherrack(x: i8, y: i8, z: i8, rotation: u8, face: Face) -> (info: RotationInfo)
        ensures
            info == (RotationInfo { x, y, z, rotation: rotation % 4, kind: RotationKind::Netherrack(face) }),
    {
        RotationInfo { x, y, z, rotation: rotation % 4, kind: RotationKind::Netherrack(face) }
    }
}

/// One preprocessed block constraint consumed by both scan backends.
#[derive(Clone, Copy, Debug, PartialEq, Eq, Structural)]
pub struct CompiledRotation {
    pub x: i8,
    pub y: i8,
    pub z: i8,
    /// Bit `i` is set when 16-way model index `i` satisfies this block.
    pub accepted_indices: u16,
}

/// A candidate coordinate accepted by a scan backend.
#[derive(Clone, Copy, Debug, PartialEq, Eq, Structural)]
pub struct Match {
    pub x: i32,
    pub y: i32,
    pub z: i32,
    pub mismatches: i32,
    pub direction: i32,
}

} // verus!
