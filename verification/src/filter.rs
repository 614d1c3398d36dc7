//! Semantic filter transformation and compilation into block constraints.

use vstd::prelude::*;

use crate::text::{
    decimal, joined, lemma_joined_push, push_chars, push_decimal, push_digits, push_str,
    string_from_chars,
};
use crate::texture::texture_variant;
use crate::types::{
    turned, CompiledRotation, Face, Int3, RotationInfo, RotationKind, TextureAlgorithm,
    MAX_FILTER_COUNT,
};

verus! {

// ---------------------------------------------------------------------------
// Directions
// ---------------------------------------------------------------------------

/// Rust's truncating `direction / 90`.
pub open spec fn quarter_turns(direction: i32) -> int {
    if direction >= 0 {
        direction / 90
    } else {
        -((-direction) / 90)
    }
}

/// `(x, z)` rotated clockwise by `direction / 90` quarter turns; any other
/// quotient leaves the offset unchanged.
pub open spec fn rotated_xz(x: int, z: int, direction: i32) -> (int, int) {
    let q = quarter_turns(direction);
    if q == 1 {
        (-z, x)
    } else if q == 2 {
        (-x, -z)
    } else if q == 3 {
        (z, -x)
    } else {
        (x, z)
    }
}

pub(crate) fn rotate_xz(x: i32, z: i32, direction: i32) -> (rotated: (i32, i32))
    requires
        x > i32::MIN,
        z > i32::MIN,
    ensures
        rotated.0 == rotated_xz(x as int, z as int, direction).0,
        rotated.1 == rotated_xz(x as int, z as int, direction).1,
{
    let q = direction / 90;
    assert(q == quarter_turns(direction));
    if q == 1 {
        (-z, x)
    } else if q == 2 {
        (-x, -z)
    } else if q == 3 {
        (z, -x)
    } else {
        (x, z)
    }
}

// ---------------------------------------------------------------------------
// Acceptance masks
// ---------------------------------------------------------------------------

/// Netherrack's visible raw-PNG rotations for model indices 0 through 15.
/// Face order is up, down, north, south, east, west.
pub open spec fn netherrack_rotation(index: int, face: int) -> int {
    seq![
        seq![0int, 0, 0, 0, 0, 0],
        seq![0int, 2, 2, 0, 1, 3],
        seq![0int, 0, 2, 2, 2, 2],
        seq![2int, 0, 2, 0, 3, 1],
        seq![1int, 3, 0, 0, 0, 0],
        seq![1int, 1, 3, 1, 2, 0],
        seq![1int, 3, 2, 2, 2, 2],
        seq![3int, 3, 1, 3, 2, 0],
        seq![2int, 2, 0, 0, 0, 0],
        seq![2int, 0, 0, 2, 3, 1],
        seq![2int, 2, 2, 2, 2, 2],
        seq![0int, 2, 0, 2, 1, 3],
        seq![3int, 1, 0, 0, 0, 0],
        seq![3int, 3, 1, 3, 0, 2],
        seq![3int, 1, 2, 2, 2, 2],
        seq![1int, 1, 3, 1, 0, 2],
    ][index][face]
}

pub const NETHERRACK_FACE_ROTATIONS: [[u8; 6]; 16] = [
    [0, 0, 0, 0, 0, 0],
    [0, 2, 2, 0, 1, 3],
    [0, 0, 2, 2, 2, 2],
    [2, 0, 2, 0, 3, 1],
    [1, 3, 0, 0, 0, 0],
    [1, 1, 3, 1, 2, 0],
    [1, 3, 2, 2, 2, 2],
    [3, 3, 1, 3, 2, 0],
    [2, 2, 0, 0, 0, 0],
    [2, 0, 0, 2, 3, 1],
    [2, 2, 2, 2, 2, 2],
    [0, 2, 0, 2, 1, 3],
    [3, 1, 0, 0, 0, 0],
    [3, 3, 1, 3, 0, 2],
    [3, 1, 2, 2, 2, 2],
    [1, 1, 3, 1, 0, 2],
];

fn netherrack_rotation_exec(index: u8, face: usize) -> (rotation: u8)
    requires
        index < 16,
        face < 6,
    ensures
        rotation as int == netherrack_rotation(index as int, face as int),
{
    let row: [u8; 6] = NETHERRACK_FACE_ROTATIONS[index as usize];
    assert(NETHERRACK_FACE_ROTATIONS@ =~= seq![
        [0u8, 0, 0, 0, 0, 0],
        [0u8, 2, 2, 0, 1, 3],
        [0u8, 0, 2, 2, 2, 2],
        [2u8, 0, 2, 0, 3, 1],
        [1u8, 3, 0, 0, 0, 0],
        [1u8, 1, 3, 1, 2, 0],
        [1u8, 3, 2, 2, 2, 2],
        [3u8, 3, 1, 3, 2, 0],
        [2u8, 2, 0, 0, 0, 0],
        [2u8, 0, 0, 2, 3, 1],
        [2u8, 2, 2, 2, 2, 2],
        [0u8, 2, 0, 2, 1, 3],
        [3u8, 1, 0, 0, 0, 0],
        [3u8, 3, 1, 3, 0, 2],
        [3u8, 1, 2, 2, 2, 2],
        [1u8, 1, 3, 1, 0, 2],
    ]);
    row[face]
}

/// Position of a face in the netherrack table.
pub open spec fn face_position(face: Face) -> int {
    match face {
        Face::Up => 0,
        Face::Down => 1,
        Face::North => 2,
        Face::South => 3,
        Face::East => 4,
        Face::West => 5,
    }
}

fn face_index(face: Face) -> (position: usize)
    ensures
        position as int == face_position(face),
        position < 6,
{
    match face {
        Face::Up => 0,
        Face::Down => 1,
        Face::North => 2,
        Face::South => 3,
        Face::East => 4,
        Face::West => 5,
    }
}

/// The four-state rotation visible for 16-way model index `index`.
pub open spec fn visible_rotation(algorithm: TextureAlgorithm, index: u8) -> u8 {
    match algorithm {
        TextureAlgorithm::Vanilla3 => index >> 2u8,
        _ => index & 3u8,
    }
}

fn visible_four_way(algorithm: TextureAlgorithm, index: u8) -> (rotation: u8)
    ensures
        rotation == visible_rotation(algorithm, index),
{
    match algorithm {
        TextureAlgorithm::Vanilla3 => index >> 2u8,
        _ => index & 3u8,
    }
}

/// Whether model index `index` (0..16) produces what `observation` saw.
pub open spec fn accepts(observation: RotationInfo, algorithm: TextureAlgorithm, index: u8) -> bool {
    match observation.kind {
        RotationKind::StandardFourWay => visible_rotation(algorithm, index) == observation.rotation,
        RotationKind::StandardSide => visible_rotation(algorithm, index) & 1u8
            == observation.rotation,
        RotationKind::Netherrack(face) => netherrack_rotation(index as int, face_position(face))
            == observation.rotation,
    }
}

/// Bit `index` of `mask`.
pub open spec fn has_index(mask: u16, index: int) -> bool {
    mask & (1u16 << (index as u16)) != 0
}

/// The mask with bit `i` set, for `i < count`, exactly when `i` is accepted.
pub open spec fn acceptance_bits(
    observation: RotationInfo,
    algorithm: TextureAlgorithm,
    count: nat,
) -> u16
    decreases count,
{
    if count == 0 {
        0
    } else {
        let below = acceptance_bits(observation, algorithm, (count - 1) as nat);
        if accepts(observation, algorithm, (count - 1) as u8) {
            below | (1u16 << ((count - 1) as u16))
        } else {
            below
        }
    }
}

/// The 16-way acceptance mask of one observation.
pub open spec fn observation_mask(observation: RotationInfo, algorithm: TextureAlgorithm) -> u16 {
    acceptance_bits(observation, algorithm, 16)
}

proof fn lemma_set_bit(mask: u16, k: u16, j: u16)
    requires
        k < 16,
        j < 16,
    ensures
        (mask | (1u16 << k)) & (1u16 << j) != 0 <==> (mask & (1u16 << j) != 0 || j == k),
{
    assert((mask | (1u16 << k)) & (1u16 << j) != 0 <==> (mask & (1u16 << j) != 0 || j == k))
        by (bit_vector)
        requires
            k < 16,
            j < 16,
    ;
}

proof fn lemma_acceptance_bits(
    observation: RotationInfo,
    algorithm: TextureAlgorithm,
    count: nat,
    j: int,
)
    requires
        count <= 16,
        0 <= j < 16,
    ensures
        has_index(acceptance_bits(observation, algorithm, count), j) <==> (j < count && accepts(
            observation,
            algorithm,
            j as u8,
        )),
    decreases count,
{
    if count > 0 {
        let below = acceptance_bits(observation, algorithm, (count - 1) as nat);
        lemma_acceptance_bits(observation, algorithm, (count - 1) as nat, j);
        lemma_set_bit(below, (count - 1) as u16, j as u16);
    } else {
        let jj = j as u16;
        assert(0u16 & (1u16 << jj) == 0) by (bit_vector);
    }
}

/// Bit `i` of an observation's mask is set exactly when model index `i`
/// shows what the observation saw.
pub proof fn lemma_observation_mask(observation: RotationInfo, algorithm: TextureAlgorithm, index: int)
    requires
        0 <= index < 16,
    ensures
        has_index(observation_mask(observation, algorithm), index) <==> accepts(
            observation,
            algorithm,
            index as u8,
        ),
{
    lemma_acceptance_bits(observation, algorithm, 16, index);
}

pub fn acceptance_mask(observation: RotationInfo, algorithm: TextureAlgorithm) -> (mask: u16)
    ensures
        mask == observation_mask(observation, algorithm),
{
    let mut mask: u16 = 0;
    let mut index: u8 = 0;
    while index < 16
        invariant
            index <= 16,
            mask == acceptance_bits(observation, algorithm, index as nat),
        decreases 16 - index,
    {
        let accepted = match observation.kind {
            RotationKind::StandardFourWay => {
                visible_four_way(algorithm, index) == observation.rotation
            },
            RotationKind::StandardSide => {
                visible_four_way(algorithm, index) & 1u8 == observation.rotation
            },
            RotationKind::Netherrack(face) => {
                netherrack_rotation_exec(index, face_index(face)) == observation.rotation
            },
        };
        if accepted {
            mask = mask | (1u16 << (index as u16));
        }
        index = index + 1;
    }
    mask
}

// ---------------------------------------------------------------------------
// Rotating observations
// ---------------------------------------------------------------------------

/// The `u8` quarter-turn count the rotation applies (`(direction / 90) as u8`).
pub open spec fn turn_count(direction: i32) -> u8 {
    quarter_turns(direction) as u8
}

/// Whether rotating `observation` by `direction` stays within `u8`
/// arithmetic.
pub open spec fn rotation_fits(observation: RotationInfo, direction: i32) -> bool {
    let turns = turn_count(direction) as int;
    match observation.kind {
        RotationKind::StandardFourWay => observation.rotation + turns < 256,
        RotationKind::Netherrack(Face::Up) => observation.rotation + turns < 256,
        RotationKind::Netherrack(Face::Down) => observation.rotation + 4 < 256
            && observation.rotation + 4 >= turns,
        _ => true,
    }
}

/// An observation as seen from a structure rotated by `direction`.
pub open spec fn rotated_observation(observation: RotationInfo, direction: i32) -> RotationInfo {
    let turns = turn_count(direction);
    let (x, z) = rotated_xz(observation.x as int, observation.z as int, direction);
    let moved = RotationInfo { x: x as i8, z: z as i8, ..observation };
    match observation.kind {
        RotationKind::StandardFourWay => RotationInfo {
            rotation: ((observation.rotation + turns) % 4) as u8,
            ..moved
        },
        RotationKind::StandardSide => moved,
        RotationKind::Netherrack(face) => RotationInfo {
            kind: RotationKind::Netherrack(turned(face, (turns % 4) as nat)),
            rotation: match face {
                Face::Up => ((observation.rotation + turns) % 4) as u8,
                Face::Down => ((observation.rotation + 4 - turns) % 4) as u8,
                _ => observation.rotation,
            },
            ..moved
        },
    }
}

/// Whether rotating `observation` by `direction` stays within `u8`
/// arithmetic; see [`rotation_fits`].
pub fn rotation_fits_exec(observation: RotationInfo, direction: i32) -> (fits: bool)
    ensures
        fits == rotation_fits(observation, direction),
{
    let turns = (direction / 90) as u8;
    assert(turns == turn_count(direction));
    let rotation = observation.rotation as u32;
    let turns = turns as u32;
    match observation.kind {
        RotationKind::StandardFourWay => rotation + turns < 256,
        RotationKind::Netherrack(Face::Up) => rotation + turns < 256,
        RotationKind::Netherrack(Face::Down) => rotation + 4 < 256 && rotation + 4 >= turns,
        _ => true,
    }
}

/// Whether every observation can be rotated by every direction; see
/// [`rotations_fit`].
pub fn rotations_fit_exec(observations: &[RotationInfo], directions: &[i32]) -> (fits: bool)
    ensures
        fits == rotations_fit(observations@, directions@),
{
    let mut i: usize = 0;
    while i < observations.len()
        invariant
            i <= observations@.len(),
            forall|a: int, b: int|
                0 <= a < i && 0 <= b < directions@.len() ==> rotation_fits(
                    #[trigger] observations@[a],
                    #[trigger] directions@[b],
                ),
        decreases observations.len() - i,
    {
        let mut j: usize = 0;
        while j < directions.len()
            invariant
                i < observations@.len(),
                j <= directions@.len(),
                forall|a: int, b: int|
                    0 <= a < i && 0 <= b < directions@.len() ==> rotation_fits(
                        #[trigger] observations@[a],
                        #[trigger] directions@[b],
                    ),
                forall|b: int| 0 <= b < j ==> rotation_fits(observations@[i as int], #[trigger] directions@[b]),
            decreases directions.len() - j,
        {
            if !rotation_fits_exec(observations[i], directions[j]) {
                return false;
            }
            j = j + 1;
        }
        assert forall|a: int, b: int|
            0 <= a < i + 1 && 0 <= b < directions@.len() implies rotation_fits(
            #[trigger] observations@[a],
            #[trigger] directions@[b],
        ) by {
            if a == i {
                assert(rotation_fits(observations@[i as int], directions@[b]));
            }
        }
        i = i + 1;
    }
    true
}

pub fn rotate_observation(observation: RotationInfo, direction: i32) -> (rotated: RotationInfo)
    requires
        rotation_fits(observation, direction),
    ensures
        rotated == rotated_observation(observation, direction),
{
    let mut observation = observation;
    let turns = (direction / 90) as u8;
    assert(turns == turn_count(direction));
    let (x, z) = rotate_xz(observation.x as i32, observation.z as i32, direction);
    observation.x = x as i8;
    observation.z = z as i8;
    match observation.kind {
        RotationKind::StandardFourWay => {
            observation.rotation = (observation.rotation + turns) % 4;
        },
        RotationKind::StandardSide => {},
        RotationKind::Netherrack(face) => {
            observation.kind = RotationKind::Netherrack(face.rotate_y(turns));
            observation.rotation = match face {
                Face::Up => (observation.rotation + turns) % 4,
                Face::Down => (observation.rotation + 4 - turns) % 4,
                _ => observation.rotation,
            };
        },
    }
    observation
}

proof fn lemma_turned_add(face: Face, a: nat, b: nat)
    ensures
        turned(turned(face, a), b) == turned(face, a + b),
    decreases b,
{
    if b > 0 {
        lemma_turned_add(face, a, (b - 1) as nat);
    }
}

proof fn lemma_turned_period(face: Face)
    ensures
        turned(face, 4) == face,
{
    reveal_with_fuel(turned, 5);
}

proof fn lemma_turned_mod(face: Face, a: nat, b: nat)
    requires
        a < 4,
        b < 4,
    ensures
        turned(turned(face, a), b) == turned(face, ((a + b) % 4) as nat),
{
    lemma_turned_add(face, a, b);
    if a + b >= 4 {
        lemma_turned_period(face);
        lemma_turned_add(face, 4, (a + b - 4) as nat);
    }
}

/// Whether `direction` is one of the four structure directions.
pub open spec fn is_direction(direction: i32) -> bool {
    direction == 0 || direction == 90 || direction == 180 || direction == 270
}

proof fn lemma_xz_compose(x: int, z: int, first: i32, second: i32)
    requires
        is_direction(first),
        is_direction(second),
    ensures
        ({
            let (x1, z1) = rotated_xz(x, z, first);
            rotated_xz(x1, z1, second) == rotated_xz(x, z, ((first + second) % 360) as i32)
        }),
{
}

proof fn lemma_turns_compose(first: i32, second: i32)
    requires
        is_direction(first),
        is_direction(second),
    ensures
        turn_count(first) < 4,
        turn_count(second) < 4,
        is_direction(((first + second) % 360) as i32),
        turn_count(((first + second) % 360) as i32) == (turn_count(first) + turn_count(second)) % 4,
{
}

proof fn lemma_vertical_stays(face: Face, n: nat)
    ensures
        (face == Face::Up || face == Face::Down) <==> (turned(face, n) == Face::Up || turned(
            face,
            n,
        ) == Face::Down),
        (face == Face::Up || face == Face::Down) ==> turned(face, n) == face,
    decreases n,
{
    if n > 0 {
        lemma_vertical_stays(face, (n - 1) as nat);
    }
}

/// The face and rotation parts of two netherrack rotations in a row.
proof fn lemma_netherrack_compose(face: Face, rotation: u8, ta: nat, tb: nat)
    requires
        rotation < 4,
        ta < 4,
        tb < 4,
    ensures
        ({
            let face1 = turned(face, ta);
            let rotation1: int = match face {
                Face::Up => (rotation + ta) % 4,
                Face::Down => (rotation + 4 - ta) % 4,
                _ => rotation as int,
            };
            let rotation2: int = match face1 {
                Face::Up => (rotation1 + tb) % 4,
                Face::Down => (rotation1 + 4 - tb) % 4,
                _ => rotation1,
            };
            let t = (ta + tb) % 4;
            &&& turned(face1, tb) == turned(face, t as nat)
            &&& rotation2 == match face {
                Face::Up => (rotation + t) % 4,
                Face::Down => (rotation + 4 - t) % 4,
                _ => rotation as int,
            }
        }),
{
    lemma_turned_mod(face, ta, tb);
    lemma_vertical_stays(face, ta);
}

/// Rotations compose: rotating an observation by `first` and then by
/// `second` is rotating it once by their sum, taken modulo a full turn. It
/// holds for observations that a filter row can hold (a rotation below four)
/// away from the lowest offset, whose negation leaves `i8`.
#[verifier::spinoff_prover]
#[verifier::rlimit(40)]
pub proof fn lemma_rotations_compose(observation: RotationInfo, first: i32, second: i32)
    requires
        is_direction(first),
        is_direction(second),
        observation.rotation < 4,
        observation.x > -128,
        observation.z > -128,
    ensures
        rotated_observation(rotated_observation(observation, first), second)
            == rotated_observation(observation, ((first + second) % 360) as i32),
{
    let both = ((first + second) % 360) as i32;
    lemma_turns_compose(first, second);
    lemma_xz_compose(observation.x as int, observation.z as int, first, second);
    let ta = turn_count(first) as int;
    let tb = turn_count(second) as int;
    let once = rotated_observation(observation, first);
    let twice = rotated_observation(once, second);
    let direct = rotated_observation(observation, both);
    let (x1, z1) = rotated_xz(observation.x as int, observation.z as int, first);
    assert(-127 <= x1 <= 127 && -127 <= z1 <= 127);
    assert(once.x as int == x1 && once.z as int == z1);
    assert(twice.x == direct.x && twice.z == direct.z);
    let r = observation.rotation as int;
    assert(((r + ta) % 4 + tb) % 4 == (r + (ta + tb) % 4) % 4);
    assert(((r + 4 - ta) % 4 + 4 - tb) % 4 == (r + 4 - (ta + tb) % 4) % 4);
    match observation.kind {
        RotationKind::Netherrack(face) => {
            lemma_netherrack_compose(face, observation.rotation, ta as nat, tb as nat);
            assert(once.kind == RotationKind::Netherrack(turned(face, ta as nat)));
            assert(twice.kind == direct.kind);
            assert(twice.rotation == direct.rotation);
        },
        RotationKind::StandardFourWay => {
            assert(twice.rotation == direct.rotation);
        },
        RotationKind::StandardSide => {},
    }
    assert(twice.kind == direct.kind && twice.rotation == direct.rotation);
    assert(twice == direct);
}

// ---------------------------------------------------------------------------
// Grouping observations by block
// ---------------------------------------------------------------------------

/// Which model selector a block uses; one block cannot mix them.
#[derive(Clone, Copy, Debug, PartialEq, Eq, Structural)]
pub enum SelectorFamily {
    Standard,
    Netherrack,
}

pub open spec fn family_of(kind: RotationKind) -> SelectorFamily {
    match kind {
        RotationKind::StandardFourWay | RotationKind::StandardSide => SelectorFamily::Standard,
        RotationKind::Netherrack(_) => SelectorFamily::Netherrack,
    }
}

fn family(kind: RotationKind) -> (selector: SelectorFamily)
    ensures
        selector == family_of(kind),
{
    match kind {
        RotationKind::StandardFourWay | RotationKind::StandardSide => SelectorFamily::Standard,
        RotationKind::Netherrack(_) => SelectorFamily::Netherrack,
    }
}

/// The combined observations at one block offset.
#[derive(Clone, Copy, Debug, PartialEq, Eq, Structural)]
pub struct BlockGroup {
    pub x: i8,
    pub y: i8,
    pub z: i8,
    pub family: SelectorFamily,
    pub mask: u16,
}

pub open spec fn at_block(group: BlockGroup, x: i8, y: i8, z: i8) -> bool {
    group.x == x && group.y == y && group.z == z
}

/// Index of the first group at `(x, y, z)`, or -1.
pub open spec fn find_group(groups: Seq<BlockGroup>, x: i8, y: i8, z: i8) -> int
    decreases groups.len(),
{
    if groups.len() == 0 {
        -1
    } else {
        let earlier = find_group(groups.drop_last(), x, y, z);
        if earlier >= 0 {
            earlier
        } else if at_block(groups.last(), x, y, z) {
            groups.len() - 1
        } else {
            -1
        }
    }
}

/// Folds one (already rotated) observation into the groups; `None` when the
/// block already holds observations of the other selector family.
pub open spec fn add_observation(
    groups: Seq<BlockGroup>,
    observation: RotationInfo,
    algorithm: TextureAlgorithm,
) -> Option<Seq<BlockGroup>> {
    let index = find_group(groups, observation.x, observation.y, observation.z);
    let selector = family_of(observation.kind);
    let mask = observation_mask(observation, algorithm);
    if index < 0 {
        Some(
            groups.push(
                BlockGroup {
                    x: observation.x,
                    y: observation.y,
                    z: observation.z,
                    family: selector,
                    mask,
                },
            ),
        )
    } else if groups[index].family != selector {
        None
    } else {
        Some(groups.update(index, BlockGroup { mask: groups[index].mask & mask, ..groups[index] }))
    }
}

/// The groups built from the first `count` observations, rotated by
/// `direction`, or the first raw observation whose block mixes selectors.
pub open spec fn group_prefix(
    observations: Seq<RotationInfo>,
    algorithm: TextureAlgorithm,
    direction: i32,
    count: nat,
) -> Result<Seq<BlockGroup>, RotationInfo>
    decreases count,
{
    if count == 0 {
        Ok(Seq::empty())
    } else {
        match group_prefix(observations, algorithm, direction, (count - 1) as nat) {
            Err(raw) => Err(raw),
            Ok(groups) => match add_observation(
                groups,
                rotated_observation(observations[count - 1], direction),
                algorithm,
            ) {
                Some(next) => Ok(next),
                None => Err(observations[count - 1]),
            },
        }
    }
}

/// All observations grouped by block for one direction.
pub open spec fn grouped(
    observations: Seq<RotationInfo>,
    algorithm: TextureAlgorithm,
    direction: i32,
) -> Result<Seq<BlockGroup>, RotationInfo> {
    group_prefix(observations, algorithm, direction, observations.len())
}

proof fn lemma_find_group_prefix(groups: Seq<BlockGroup>, k: int, x: i8, y: i8, z: i8)
    requires
        0 <= k <= groups.len(),
        find_group(groups.take(k), x, y, z) >= 0,
    ensures
        find_group(groups, x, y, z) == find_group(groups.take(k), x, y, z),
    decreases groups.len() - k,
{
    if k < groups.len() {
        assert(groups.take(k + 1).drop_last() =~= groups.take(k));
        lemma_find_group_prefix(groups, k + 1, x, y, z);
    } else {
        assert(groups.take(k) =~= groups);
    }
}

proof fn lemma_find_group_bounds(groups: Seq<BlockGroup>, x: i8, y: i8, z: i8)
    ensures
        -1 <= find_group(groups, x, y, z) < groups.len(),
        find_group(groups, x, y, z) >= 0 ==> at_block(groups[find_group(groups, x, y, z)], x, y, z),
    decreases groups.len(),
{
    if groups.len() > 0 {
        lemma_find_group_bounds(groups.drop_last(), x, y, z);
    }
}

fn find_block(groups: &Vec<BlockGroup>, x: i8, y: i8, z: i8) -> (found: Option<usize>)
    ensures
        match found {
            Some(index) => index == find_group(groups@, x, y, z),
            None => find_group(groups@, x, y, z) == -1,
        },
{
    let mut index: usize = 0;
    while index < groups.len()
        invariant
            index <= groups.len(),
            find_group(groups@.take(index as int), x, y, z) == -1,
        decreases groups.len() - index,
    {
        assert(groups@.take(index + 1).drop_last() =~= groups@.take(index as int));
        let group = groups[index];
        if group.x == x && group.y == y && group.z == z {
            proof {
                lemma_find_group_prefix(groups@, index + 1, x, y, z);
            }
            return Some(index);
        }
        index = index + 1;
    }
    assert(groups@.take(groups.len() as int) =~= groups@);
    None
}

// ---------------------------------------------------------------------------
// Ordering constraints and conflicts
// ---------------------------------------------------------------------------

/// Number of set bits among the lowest `count` bits.
pub open spec fn count_bits(mask: u16, count: nat) -> nat
    decreases count,
{
    if count == 0 {
        0
    } else {
        count_bits(mask, (count - 1) as nat) + if has_index(mask, count - 1) {
            1nat
        } else {
            0nat
        }
    }
}

/// Number of accepted model indices.
pub open spec fn popcount(mask: u16) -> nat {
    count_bits(mask, 16)
}

fn count_ones(mask: u16) -> (count: u32)
    ensures
        count == popcount(mask),
        count <= 16,
{
    let mut count: u32 = 0;
    let mut index: u16 = 0;
    while index < 16
        invariant
            index <= 16,
            count == count_bits(mask, index as nat),
            count <= index,
        decreases 16 - index,
    {
        if mask & (1u16 << index) != 0 {
            count = count + 1;
        }
        index = index + 1;
    }
    count
}

/// The items of `items` with exactly `count` accepted indices, in order.
pub open spec fn with_popcount(items: Seq<CompiledRotation>, count: nat) -> Seq<CompiledRotation>
    decreases items.len(),
{
    if items.len() == 0 {
        Seq::empty()
    } else {
        let earlier = with_popcount(items.drop_last(), count);
        if popcount(items.last().accepted_indices) == count {
            earlier.push(items.last())
        } else {
            earlier
        }
    }
}

/// The items with `from` or more accepted indices, fewest first, keeping
/// the order they came in among equals.
pub open spec fn popcount_buckets(items: Seq<CompiledRotation>, from: nat) -> Seq<CompiledRotation>
    decreases 17 - from,
{
    if from > 16 {
        Seq::empty()
    } else {
        with_popcount(items, from) + popcount_buckets(items, from + 1)
    }
}

/// `items` stably sorted by number of accepted indices.
pub open spec fn sorted_by_popcount(items: Seq<CompiledRotation>) -> Seq<CompiledRotation> {
    popcount_buckets(items, 0)
}

fn sort_by_popcount(items: &Vec<CompiledRotation>) -> (sorted: Vec<CompiledRotation>)
    ensures
        sorted@ == sorted_by_popcount(items@),
{
    let mut counts: Vec<u32> = Vec::new();
    let mut index: usize = 0;
    while index < items.len()
        invariant
            index <= items.len(),
            counts.len() == index,
            forall|j: int| 0 <= j < index ==> counts[j] == popcount(#[trigger] items@[j].accepted_indices),
        decreases items.len() - index,
    {
        counts.push(count_ones(items[index].accepted_indices));
        index = index + 1;
    }
    let mut sorted: Vec<CompiledRotation> = Vec::new();
    let mut bucket: u32 = 0;
    while bucket <= 16
        invariant
            bucket <= 17,
            counts.len() == items.len(),
            forall|j: int| 0 <= j < items.len() ==> counts[j] == popcount(#[trigger] items@[j].accepted_indices),
            sorted@ + popcount_buckets(items@, bucket as nat) == popcount_buckets(items@, 0),
        decreases 17 - bucket,
    {
        let ghost before = sorted@;
        let mut index: usize = 0;
        while index < items.len()
            invariant
                index <= items.len(),
                bucket <= 16,
                counts.len() == items.len(),
                forall|j: int| 0 <= j < items.len() ==> counts[j] == popcount(#[trigger] items@[j].accepted_indices),
                sorted@ == before + with_popcount(items@.take(index as int), bucket as nat),
            decreases items.len() - index,
        {
            assert(items@.take(index + 1).drop_last() =~= items@.take(index as int));
            if counts[index] == bucket {
                sorted.push(items[index]);
            }
            index = index + 1;
        }
        assert(items@.take(items.len() as int) =~= items@);
        assert(popcount_buckets(items@, bucket as nat) == with_popcount(items@, bucket as nat)
            + popcount_buckets(items@, (bucket + 1) as nat));
        assert(sorted@ + popcount_buckets(items@, (bucket + 1) as nat) =~= before
            + popcount_buckets(items@, bucket as nat));
        bucket = bucket + 1;
    }
    assert(popcount_buckets(items@, 17) =~= Seq::<CompiledRotation>::empty());
    assert(sorted@ =~= sorted@ + popcount_buckets(items@, 17));
    sorted
}

/// Lexicographic order of offsets.
pub open spec fn offset_before(a: Int3, b: Int3) -> bool {
    a.x < b.x || (a.x == b.x && (a.y < b.y || (a.y == b.y && a.z < b.z)))
}

/// Where `offset` goes in `sorted`: before the first larger element.
pub open spec fn insertion_point(sorted: Seq<Int3>, offset: Int3) -> int
    decreases sorted.len(),
{
    if sorted.len() == 0 {
        0
    } else if offset_before(offset, sorted[0]) {
        0
    } else {
        1 + insertion_point(sorted.drop_first(), offset)
    }
}

/// Insertion sort of offsets.
pub open spec fn sorted_offsets(offsets: Seq<Int3>) -> Seq<Int3>
    decreases offsets.len(),
{
    if offsets.len() == 0 {
        Seq::empty()
    } else {
        let earlier = sorted_offsets(offsets.drop_last());
        earlier.insert(insertion_point(earlier, offsets.last()), offsets.last())
    }
}

proof fn lemma_insertion_point_bounds(sorted: Seq<Int3>, offset: Int3)
    ensures
        0 <= insertion_point(sorted, offset) <= sorted.len(),
    decreases sorted.len(),
{
    if sorted.len() > 0 {
        lemma_insertion_point_bounds(sorted.drop_first(), offset);
    }
}

proof fn lemma_insertion_point_skip(sorted: Seq<Int3>, offset: Int3, k: int)
    requires
        0 <= k <= sorted.len(),
        forall|j: int| 0 <= j < k ==> !offset_before(offset, #[trigger] sorted[j]),
    ensures
        insertion_point(sorted, offset) == k + insertion_point(sorted.skip(k), offset),
    decreases k,
{
    if k > 0 {
        assert(sorted.skip(1) =~= sorted.drop_first());
        lemma_insertion_point_skip(sorted.drop_first(), offset, k - 1);
        assert(sorted.drop_first().skip(k - 1) =~= sorted.skip(k));
    } else {
        assert(sorted.skip(0) =~= sorted);
    }
}

fn insert_offset(sorted: &mut Vec<Int3>, offset: Int3)
    ensures
        final(sorted)@ == old(sorted)@.insert(insertion_point(old(sorted)@, offset), offset),
{
    let mut index: usize = 0;
    let mut found: bool = false;
    while index < sorted.len() && !found
        invariant
            index <= sorted.len(),
            sorted@ == old(sorted)@,
            forall|j: int| 0 <= j < index ==> !offset_before(offset, #[trigger] sorted@[j]),
            found ==> index < sorted.len() && offset_before(offset, sorted@[index as int]),
        decreases sorted.len() - index + if found { 0int } else { 1int },
    {
        let item = sorted[index];
        if offset.x < item.x || (offset.x == item.x && (offset.y < item.y || (offset.y == item.y
            && offset.z < item.z))) {
            found = true;
        } else {
            index = index + 1;
        }
    }
    proof {
        lemma_insertion_point_skip(sorted@, offset, index as int);
        if found {
            assert(sorted@.skip(index as int)[0] == sorted@[index as int]);
        } else {
            assert(sorted@.skip(index as int) =~= Seq::<Int3>::empty());
        }
        lemma_insertion_point_bounds(old(sorted)@, offset);
    }
    sorted.insert(index, offset);
}

fn sort_offsets(offsets: &Vec<Int3>) -> (sorted: Vec<Int3>)
    ensures
        sorted@ == sorted_offsets(offsets@),
{
    let mut sorted: Vec<Int3> = Vec::new();
    let mut index: usize = 0;
    while index < offsets.len()
        invariant
            index <= offsets.len(),
            sorted@ == sorted_offsets(offsets@.take(index as int)),
        decreases offsets.len() - index,
    {
        assert(offsets@.take(index + 1).drop_last() =~= offsets@.take(index as int));
        insert_offset(&mut sorted, offsets[index]);
        index = index + 1;
    }
    assert(offsets@.take(offsets.len() as int) =~= offsets@);
    sorted
}


// ---------------------------------------------------------------------------
// Compiled directions
// ---------------------------------------------------------------------------

/// One direction-specific, fully compiled runtime filter.
#[derive(Clone, Debug, PartialEq, Eq)]
pub struct PreparedDirection {
    pub constraints: Vec<CompiledRotation>,
    pub forced_errors: i32,
}

/// Compiled filters for every configured direction, plus recoverable conflicts.
#[derive(Clone, Debug, PartialEq, Eq)]
pub struct PreparedFilters {
    pub directions: Vec<PreparedDirection>,
    pub conflicts_by_direction: Vec<(i32, Vec<Int3>)>,
}

/// What a compiled direction holds.
#[verifier::ext_equal]
pub struct DirectionPlan {
    pub constraints: Seq<CompiledRotation>,
    pub forced_errors: i32,
}

/// What compiled filters hold.
#[verifier::ext_equal]
pub struct FiltersPlan {
    pub directions: Seq<DirectionPlan>,
    pub conflicts_by_direction: Seq<(i32, Seq<Int3>)>,
}

impl View for PreparedDirection {
    type V = DirectionPlan;

    open spec fn view(&self) -> DirectionPlan {
        DirectionPlan { constraints: self.constraints@, forced_errors: self.forced_errors }
    }
}

impl View for PreparedFilters {
    type V = FiltersPlan;

    open spec fn view(&self) -> FiltersPlan {
        FiltersPlan {
            directions: self.directions@.map_values(|d: PreparedDirection| d@),
            conflicts_by_direction: self.conflicts_by_direction@.map_values(
                |entry: (i32, Vec<Int3>)| (entry.0, entry.1@),
            ),
        }
    }
}

/// The block constraint a group compiles to.
pub open spec fn constraint_of(group: BlockGroup) -> CompiledRotation {
    CompiledRotation { x: group.x, y: group.y, z: group.z, accepted_indices: group.mask }
}

/// The offset of a group.
pub open spec fn offset_of(group: BlockGroup) -> Int3 {
    Int3 { x: group.x as i32, y: group.y as i32, z: group.z as i32 }
}

/// Constraints of the groups some model index can satisfy, in group order.
pub open spec fn usable_constraints(groups: Seq<BlockGroup>) -> Seq<CompiledRotation>
    decreases groups.len(),
{
    if groups.len() == 0 {
        Seq::empty()
    } else if groups.last().mask != 0 {
        usable_constraints(groups.drop_last()).push(constraint_of(groups.last()))
    } else {
        usable_constraints(groups.drop_last())
    }
}

/// Offsets of the groups no model index can satisfy, in group order.
pub open spec fn forced_offsets(groups: Seq<BlockGroup>) -> Seq<Int3>
    decreases groups.len(),
{
    if groups.len() == 0 {
        Seq::empty()
    } else if groups.last().mask == 0 {
        forced_offsets(groups.drop_last()).push(offset_of(groups.last()))
    } else {
        forced_offsets(groups.drop_last())
    }
}

/// The compiled direction for a grouping: usable constraints sorted by how
/// many model indices they accept, and the unsatisfiable blocks counted as
/// forced errors.
pub open spec fn direction_plan(groups: Seq<BlockGroup>) -> DirectionPlan {
    DirectionPlan {
        constraints: sorted_by_popcount(usable_constraints(groups)),
        forced_errors: sorted_offsets(forced_offsets(groups)).len() as i32,
    }
}

/// The unsatisfiable block offsets of a grouping, in offset order.
pub open spec fn direction_conflicts(groups: Seq<BlockGroup>) -> Seq<Int3> {
    sorted_offsets(forced_offsets(groups))
}

/// Why filter preparation fails.
pub enum FilterFailure {
    /// This raw observation shares a block with one of the other selector family.
    MixedSelectors(RotationInfo),
    /// A direction has more usable block constraints than the GPU layout holds.
    TooManyConstraints,
    /// A direction that fits the tolerance has no usable constraint left.
    NoUsableConstraints,
    /// Every direction has more forced errors than the tolerance; the
    /// per-direction conflicts found.
    ToleranceExceeded(Seq<(i32, Seq<Int3>)>),
}

/// The text of one decimal offset triple `(x, y, z)`.
pub open spec fn triple_text(x: int, y: int, z: int) -> Seq<char> {
    "("@ + decimal(x) + ", "@ + decimal(y) + ", "@ + decimal(z) + ")"@
}

/// `direction D has N forced error(s)` for every conflicting direction.
pub open spec fn forced_error_counts(conflicts: Seq<(i32, Seq<Int3>)>) -> Seq<char> {
    joined(
        conflicts.map_values(
            |entry: (i32, Seq<Int3>)|
                "direction "@ + decimal(entry.0 as int) + " has "@ + decimal(entry.1.len() as int)
                    + " forced error(s)"@,
        ),
        ", "@,
    )
}

/// The error message for a failure.
pub open spec fn failure_message(failure: FilterFailure, tolerance: i32) -> Seq<char> {
    match failure {
        FilterFailure::MixedSelectors(raw) => "block offset "@ + triple_text(
            raw.x as int,
            raw.y as int,
            raw.z as int,
        ) + " mixes ordinary and netherrack observations"@,
        FilterFailure::TooManyConstraints => "filter contains more than "@ + decimal(
            MAX_FILTER_COUNT as int,
        ) + " unique usable block offsets"@,
        FilterFailure::NoUsableConstraints => "filter has no usable block constraints after combining observations"@,
        FilterFailure::ToleranceExceeded(conflicts) => "combined observations exceed errorTolerance "@
            + decimal(tolerance as int) + " in every requested direction ("@ + forced_error_counts(
            conflicts,
        ) + ")"@,
    }
}

fn push_triple(out: &mut Vec<char>, x: i64, y: i64, z: i64)
    ensures
        final(out)@ == old(out)@ + triple_text(x as int, y as int, z as int),
{
    push_str(out, "(");
    push_decimal(out, x);
    push_str(out, ", ");
    push_decimal(out, y);
    push_str(out, ", ");
    push_decimal(out, z);
    push_str(out, ")");
    assert(final(out)@ =~= old(out)@ + triple_text(x as int, y as int, z as int));
}

fn mixed_selectors_message(raw: RotationInfo) -> (message: String)
    ensures
        message@ == failure_message(FilterFailure::MixedSelectors(raw), 0),
{
    let mut out: Vec<char> = Vec::new();
    push_str(&mut out, "block offset ");
    push_triple(&mut out, raw.x as i64, raw.y as i64, raw.z as i64);
    push_str(&mut out, " mixes ordinary and netherrack observations");
    assert(out@ =~= failure_message(FilterFailure::MixedSelectors(raw), 0));
    string_from_chars(&out)
}

pub fn compile_direction(
    observations: &[RotationInfo],
    algorithm: TextureAlgorithm,
    direction: i32,
) -> (compiled: Result<(PreparedDirection, Vec<Int3>), String>)
    requires
        forall|i: int| 0 <= i < observations@.len() ==> rotation_fits(#[trigger] observations@[i], direction),
    ensures
        match grouped(observations@, algorithm, direction) {
            Ok(groups) => compiled matches Ok((prepared, conflicts)) && prepared@ == direction_plan(groups)
                && conflicts@ == direction_conflicts(groups),
            Err(raw) => compiled matches Err(message) && message@ == failure_message(
                FilterFailure::MixedSelectors(raw),
                0,
            ),
        },
{
    let mut groups: Vec<BlockGroup> = Vec::new();
    let mut count: usize = 0;
    while count < observations.len()
        invariant
            count <= observations@.len(),
            forall|i: int| 0 <= i < observations@.len() ==> rotation_fits(#[trigger] observations@[i], direction),
            group_prefix(observations@, algorithm, direction, count as nat) == Ok::<
                Seq<BlockGroup>,
                RotationInfo,
            >(groups@),
        decreases observations.len() - count,
    {
        let raw = observations[count];
        let observation = rotate_observation(raw, direction);
        let selector = family(observation.kind);
        let mask = acceptance_mask(observation, algorithm);
        let found = find_block(&groups, observation.x, observation.y, observation.z);
        proof {
            lemma_find_group_bounds(groups@, observation.x, observation.y, observation.z);
        }
        match found {
            Some(index) => {
                let existing = groups[index];
                if existing.family != selector {
                    let message = mixed_selectors_message(raw);
                    proof {
                        assert(group_prefix(observations@, algorithm, direction, (count + 1) as nat)
                            == Err::<Seq<BlockGroup>, RotationInfo>(raw));
                        lemma_group_error_persists(
                            observations@,
                            algorithm,
                            direction,
                            (count + 1) as nat,
                        );
                    }
                    return Err(message);
                }
                groups.set(index, BlockGroup { mask: existing.mask & mask, ..existing });
            },
            None => {
                groups.push(
                    BlockGroup {
                        x: observation.x,
                        y: observation.y,
                        z: observation.z,
                        family: selector,
                        mask,
                    },
                );
            },
        }
        count = count + 1;
    }

    let mut usable: Vec<CompiledRotation> = Vec::new();
    let mut forced: Vec<Int3> = Vec::new();
    let mut index: usize = 0;
    while index < groups.len()
        invariant
            index <= groups.len(),
            usable@ == usable_constraints(groups@.take(index as int)),
            forced@ == forced_offsets(groups@.take(index as int)),
        decreases groups.len() - index,
    {
        assert(groups@.take(index + 1).drop_last() =~= groups@.take(index as int));
        let group = groups[index];
        if group.mask == 0 {
            forced.push(Int3 { x: group.x as i32, y: group.y as i32, z: group.z as i32 });
        } else {
            usable.push(
                CompiledRotation { x: group.x, y: group.y, z: group.z, accepted_indices: group.mask },
            );
        }
        index = index + 1;
    }
    assert(groups@.take(groups.len() as int) =~= groups@);
    let constraints = sort_by_popcount(&usable);
    let conflicts = sort_offsets(&forced);
    let forced_errors = conflicts.len() as i32;
    Ok((PreparedDirection { constraints, forced_errors }, conflicts))
}

proof fn lemma_group_error_persists(
    observations: Seq<RotationInfo>,
    algorithm: TextureAlgorithm,
    direction: i32,
    count: nat,
)
    requires
        count <= observations.len(),
        group_prefix(observations, algorithm, direction, count) is Err,
    ensures
        group_prefix(observations, algorithm, direction, observations.len()) == group_prefix(
            observations,
            algorithm,
            direction,
            count,
        ),
    decreases observations.len() - count,
{
    if count < observations.len() {
        lemma_group_error_persists(observations, algorithm, direction, count + 1);
    }
}

/// The compiled directions, the conflicts found, and the number of
/// directions within the tolerance, after the first `count` directions.
pub open spec fn prepare_prefix(
    observations: Seq<RotationInfo>,
    algorithm: TextureAlgorithm,
    directions: Seq<i32>,
    tolerance: i32,
    count: nat,
) -> Result<(Seq<DirectionPlan>, Seq<(i32, Seq<Int3>)>, nat), FilterFailure>
    decreases count,
{
    if count == 0 {
        Ok((Seq::empty(), Seq::empty(), 0))
    } else {
        match prepare_prefix(observations, algorithm, directions, tolerance, (count - 1) as nat) {
            Err(failure) => Err(failure),
            Ok((plans, conflicts, viable)) => {
                let direction = directions[count - 1];
                match grouped(observations, algorithm, direction) {
                    Err(raw) => Err(FilterFailure::MixedSelectors(raw)),
                    Ok(groups) => {
                        let plan = direction_plan(groups);
                        let offsets = direction_conflicts(groups);
                        if plan.constraints.len() > MAX_FILTER_COUNT {
                            Err(FilterFailure::TooManyConstraints)
                        } else if plan.constraints.len() == 0 && plan.forced_errors <= tolerance {
                            Err(FilterFailure::NoUsableConstraints)
                        } else {
                            Ok(
                                (
                                    plans.push(plan),
                                    if offsets.len() == 0 {
                                        conflicts
                                    } else {
                                        conflicts.push((direction, offsets))
                                    },
                                    if plan.forced_errors <= tolerance {
                                        viable + 1
                                    } else {
                                        viable
                                    },
                                ),
                            )
                        }
                    },
                }
            },
        }
    }
}

/// Filter preparation: every direction compiled, or the first failure.
pub open spec fn prepared_filters(
    observations: Seq<RotationInfo>,
    algorithm: TextureAlgorithm,
    directions: Seq<i32>,
    tolerance: i32,
) -> Result<FiltersPlan, FilterFailure> {
    match prepare_prefix(observations, algorithm, directions, tolerance, directions.len()) {
        Err(failure) => Err(failure),
        Ok((plans, conflicts, viable)) => if viable == 0 {
            Err(FilterFailure::ToleranceExceeded(conflicts))
        } else {
            Ok(FiltersPlan { directions: plans, conflicts_by_direction: conflicts })
        },
    }
}

/// Whether every observation can be rotated by every direction.
pub open spec fn rotations_fit(observations: Seq<RotationInfo>, directions: Seq<i32>) -> bool {
    forall|i: int, j: int|
        0 <= i < observations.len() && 0 <= j < directions.len() ==> rotation_fits(
            #[trigger] observations[i],
            #[trigger] directions[j],
        )
}

proof fn lemma_prepare_error_persists(
    observations: Seq<RotationInfo>,
    algorithm: TextureAlgorithm,
    directions: Seq<i32>,
    tolerance: i32,
    count: nat,
)
    requires
        count <= directions.len(),
        prepare_prefix(observations, algorithm, directions, tolerance, count) is Err,
    ensures
        prepare_prefix(observations, algorithm, directions, tolerance, directions.len())
            == prepare_prefix(observations, algorithm, directions, tolerance, count),
    decreases directions.len() - count,
{
    if count < directions.len() {
        lemma_prepare_error_persists(observations, algorithm, directions, tolerance, count + 1);
    }
}

/// After `count` directions: one plan per direction, none over the
/// constraint limit, and no more viable directions than directions.
pub proof fn lemma_prepare_prefix_shape(
    observations: Seq<RotationInfo>,
    algorithm: TextureAlgorithm,
    directions: Seq<i32>,
    tolerance: i32,
    count: nat,
)
    requires
        count <= directions.len(),
        prepare_prefix(observations, algorithm, directions, tolerance, count) is Ok,
    ensures
        ({
            let (plans, conflicts, viable) = prepare_prefix(
                observations,
                algorithm,
                directions,
                tolerance,
                count,
            )->Ok_0;
            &&& plans.len() == count
            &&& viable <= count
            &&& forall|i: int|
                0 <= i < count ==> (#[trigger] plans[i]).constraints.len() <= MAX_FILTER_COUNT
        }),
    decreases count,
{
    if count > 0 {
        lemma_prepare_prefix_shape(observations, algorithm, directions, tolerance, (count - 1) as nat);
        let (plans, conflicts, viable) = prepare_prefix(
            observations,
            algorithm,
            directions,
            tolerance,
            count,
        )->Ok_0;
        let (before, _, _) = prepare_prefix(
            observations,
            algorithm,
            directions,
            tolerance,
            (count - 1) as nat,
        )->Ok_0;
        assert forall|i: int| 0 <= i < count implies (#[trigger] plans[i]).constraints.len()
            <= MAX_FILTER_COUNT by {
            if i < count - 1 {
                assert(plans[i] == before[i]);
            }
        }
    }
}

fn tolerance_message(conflicts: &Vec<(i32, Vec<Int3>)>, tolerance: i32) -> (message: String)
    ensures
        message@ == failure_message(
            FilterFailure::ToleranceExceeded(
                conflicts@.map_values(|entry: (i32, Vec<Int3>)| (entry.0, entry.1@)),
            ),
            tolerance,
        ),
{
    let ghost entries = conflicts@.map_values(|entry: (i32, Vec<Int3>)| (entry.0, entry.1@));
    let ghost parts = entries.map_values(
        |entry: (i32, Seq<Int3>)|
            "direction "@ + decimal(entry.0 as int) + " has "@ + decimal(entry.1.len() as int)
                + " forced error(s)"@,
    );
    let mut details: Vec<char> = Vec::new();
    let mut index: usize = 0;
    while index < conflicts.len()
        invariant
            index <= conflicts.len(),
            entries == conflicts@.map_values(|entry: (i32, Vec<Int3>)| (entry.0, entry.1@)),
            parts == entries.map_values(
                |entry: (i32, Seq<Int3>)|
                    "direction "@ + decimal(entry.0 as int) + " has "@ + decimal(
                        entry.1.len() as int,
                    ) + " forced error(s)"@,
            ),
            details@ == joined(parts.take(index as int), ", "@),
        decreases conflicts.len() - index,
    {
        let ghost before = details@;
        if index > 0 {
            push_str(&mut details, ", ");
        }
        let ghost after_separator = details@;
        push_str(&mut details, "direction ");
        push_decimal(&mut details, conflicts[index].0 as i64);
        push_str(&mut details, " has ");
        push_digits(&mut details, conflicts[index].1.len() as u64);
        push_str(&mut details, " forced error(s)");
        proof {
            let part = parts[index as int];
            assert(part == "direction "@ + decimal(conflicts@[index as int].0 as int) + " has "@
                + decimal(conflicts@[index as int].1@.len() as int) + " forced error(s)"@);
            assert(details@ =~= after_separator + part);
            assert(parts.take(index + 1) =~= parts.take(index as int).push(part));
            lemma_joined_push(parts.take(index as int), ", "@, part);
        }
        index = index + 1;
    }
    assert(parts.take(conflicts.len() as int) =~= parts);
    let mut out: Vec<char> = Vec::new();
    push_str(&mut out, "combined observations exceed errorTolerance ");
    push_decimal(&mut out, tolerance as i64);
    push_str(&mut out, " in every requested direction (");
    push_chars(&mut out, &details);
    push_str(&mut out, ")");
    assert(out@ =~= failure_message(FilterFailure::ToleranceExceeded(entries), tolerance));
    string_from_chars(&out)
}

fn too_many_message() -> (message: String)
    ensures
        message@ == failure_message(FilterFailure::TooManyConstraints, 0),
{
    let mut out: Vec<char> = Vec::new();
    push_str(&mut out, "filter contains more than ");
    push_decimal(&mut out, MAX_FILTER_COUNT as i64);
    push_str(&mut out, " unique usable block offsets");
    assert(out@ =~= failure_message(FilterFailure::TooManyConstraints, 0));
    string_from_chars(&out)
}

fn no_usable_message() -> (message: String)
    ensures
        message@ == failure_message(FilterFailure::NoUsableConstraints, 0),
{
    let mut out: Vec<char> = Vec::new();
    push_str(&mut out, "filter has no usable block constraints after combining observations");
    string_from_chars(&out)
}

/// Compiles semantic face observations into one acceptance mask per block,
/// for every requested direction.
pub fn prepare_filters(
    observations: &[RotationInfo],
    algorithm: TextureAlgorithm,
    directions: &[i32],
    error_tolerance: i32,
) -> (prepared: Result<PreparedFilters, String>)
    requires
        rotations_fit(observations@, directions@),
    ensures
        match prepared_filters(observations@, algorithm, directions@, error_tolerance) {
            Ok(plan) => prepared matches Ok(filters) && filters@ == plan,
            Err(failure) => prepared matches Err(message) && message@ == failure_message(
                failure,
                error_tolerance,
            ),
        },
{
    let mut prepared: Vec<PreparedDirection> = Vec::new();
    let mut conflicts_by_direction: Vec<(i32, Vec<Int3>)> = Vec::new();
    let mut viable_directions: usize = 0;
    let mut count: usize = 0;
    assert(prepared@.map_values(|d: PreparedDirection| d@) =~= Seq::<DirectionPlan>::empty());
    assert(conflicts_by_direction@.map_values(|entry: (i32, Vec<Int3>)| (entry.0, entry.1@))
        =~= Seq::<(i32, Seq<Int3>)>::empty());
    while count < directions.len()
        invariant
            count <= directions@.len(),
            rotations_fit(observations@, directions@),
            viable_directions <= count,
            prepare_prefix(observations@, algorithm, directions@, error_tolerance, count as nat)
                == Ok::<(Seq<DirectionPlan>, Seq<(i32, Seq<Int3>)>, nat), FilterFailure>(
                (
                    prepared@.map_values(|d: PreparedDirection| d@),
                    conflicts_by_direction@.map_values(
                        |entry: (i32, Vec<Int3>)| (entry.0, entry.1@),
                    ),
                    viable_directions as nat,
                ),
            ),
        decreases directions.len() - count,
    {
        let direction = directions[count];
        assert forall|i: int| 0 <= i < observations@.len() implies rotation_fits(
            #[trigger] observations@[i],
            direction,
        ) by {
            assert(rotation_fits(observations@[i], directions@[count as int]));
        }
        let outcome = compile_direction(observations, algorithm, direction);
        let (compiled, conflicts) = match outcome {
            Ok(pair) => pair,
            Err(message) => {
                proof {
                    lemma_prepare_error_persists(
                        observations@,
                        algorithm,
                        directions@,
                        error_tolerance,
                        (count + 1) as nat,
                    );
                }
                return Err(message);
            },
        };
        if compiled.forced_errors <= error_tolerance {
            viable_directions = viable_directions + 1;
        }
        if compiled.constraints.len() > MAX_FILTER_COUNT {
            proof {
                lemma_prepare_error_persists(
                    observations@,
                    algorithm,
                    directions@,
                    error_tolerance,
                    (count + 1) as nat,
                );
            }
            return Err(too_many_message());
        }
        if compiled.constraints.len() == 0 && compiled.forced_errors <= error_tolerance {
            proof {
                lemma_prepare_error_persists(
                    observations@,
                    algorithm,
                    directions@,
                    error_tolerance,
                    (count + 1) as nat,
                );
            }
            return Err(no_usable_message());
        }
        let ghost old_conflicts = conflicts_by_direction@;
        let ghost old_prepared = prepared@;
        if conflicts.len() > 0 {
            conflicts_by_direction.push((direction, conflicts));
            proof {
                assert(conflicts_by_direction@.map_values(
                    |entry: (i32, Vec<Int3>)| (entry.0, entry.1@),
                ) =~= old_conflicts.map_values(|entry: (i32, Vec<Int3>)| (entry.0, entry.1@)).push(
                    (direction, conflicts@),
                ));
            }
        }
        prepared.push(compiled);
        proof {
            assert(prepared@.map_values(|d: PreparedDirection| d@) =~= old_prepared.map_values(
                |d: PreparedDirection| d@,
            ).push(compiled@));
        }
        count = count + 1;
    }
    if viable_directions == 0 {
        return Err(tolerance_message(&conflicts_by_direction, error_tolerance));
    }
    Ok(PreparedFilters { directions: prepared, conflicts_by_direction })
}

/// `(x, y, z)` for every offset, comma separated.
pub open spec fn offsets_text(offsets: Seq<Int3>) -> Seq<char> {
    joined(
        offsets.map_values(|o: Int3| triple_text(o.x as int, o.y as int, o.z as int)),
        ", "@,
    )
}

/// `direction D: offsets` for one conflicting direction.
pub open spec fn direction_conflict_text(entry: (i32, Seq<Int3>)) -> Seq<char> {
    "direction "@ + decimal(entry.0 as int) + ": "@ + offsets_text(entry.1)
}

/// The warning about forced block errors.
pub open spec fn warning_text(conflicts: Seq<(i32, Seq<Int3>)>) -> Seq<char> {
    "combined observations create forced block errors ("@ + joined(
        conflicts.map_values(|entry: (i32, Seq<Int3>)| direction_conflict_text(entry)),
        "; "@,
    ) + ")"@
}

fn push_offsets(out: &mut Vec<char>, offsets: &Vec<Int3>)
    ensures
        final(out)@ == old(out)@ + offsets_text(offsets@),
{
    let ghost parts = offsets@.map_values(
        |o: Int3| triple_text(o.x as int, o.y as int, o.z as int),
    );
    let mut text: Vec<char> = Vec::new();
    let mut index: usize = 0;
    while index < offsets.len()
        invariant
            index <= offsets.len(),
            parts == offsets@.map_values(
                |o: Int3| triple_text(o.x as int, o.y as int, o.z as int),
            ),
            text@ == joined(parts.take(index as int), ", "@),
        decreases offsets.len() - index,
    {
        if index > 0 {
            push_str(&mut text, ", ");
        }
        let ghost after_separator = text@;
        let offset = offsets[index];
        push_triple(&mut text, offset.x as i64, offset.y as i64, offset.z as i64);
        proof {
            let part = parts[index as int];
            assert(parts.take(index + 1) =~= parts.take(index as int).push(part));
            lemma_joined_push(parts.take(index as int), ", "@, part);
        }
        index = index + 1;
    }
    assert(parts.take(offsets.len() as int) =~= parts);
    push_chars(out, &text);
}

impl PreparedFilters {
    /// Describes masks that can never match and consume the error budget.
    pub fn warning(&self) -> (warning: Option<String>)
        ensures
            self.conflicts_by_direction@.len() == 0 ==> warning is None,
            self.conflicts_by_direction@.len() > 0 ==> (warning matches Some(text) && text@
                == warning_text(self@.conflicts_by_direction)),
    {
        if self.conflicts_by_direction.len() == 0 {
            return None;
        }
        let ghost entries = self@.conflicts_by_direction;
        let ghost parts = entries.map_values(
            |entry: (i32, Seq<Int3>)| direction_conflict_text(entry),
        );
        let mut details: Vec<char> = Vec::new();
        let mut index: usize = 0;
        while index < self.conflicts_by_direction.len()
            invariant
                index <= self.conflicts_by_direction.len(),
                entries == self@.conflicts_by_direction,
                parts == entries.map_values(
                    |entry: (i32, Seq<Int3>)| direction_conflict_text(entry),
                ),
                details@ == joined(parts.take(index as int), "; "@),
            decreases self.conflicts_by_direction.len() - index,
        {
            if index > 0 {
                push_str(&mut details, "; ");
            }
            let ghost after_separator = details@;
            push_str(&mut details, "direction ");
            push_decimal(&mut details, self.conflicts_by_direction[index].0 as i64);
            push_str(&mut details, ": ");
            push_offsets(&mut details, &self.conflicts_by_direction[index].1);
            proof {
                let part = parts[index as int];
                assert(details@ =~= after_separator + part);
                assert(parts.take(index + 1) =~= parts.take(index as int).push(part));
                lemma_joined_push(parts.take(index as int), "; "@, part);
            }
            index = index + 1;
        }
        assert(parts.take(self.conflicts_by_direction.len() as int) =~= parts);
        let mut out: Vec<char> = Vec::new();
        push_str(&mut out, "combined observations create forced block errors (");
        push_chars(&mut out, &details);
        push_str(&mut out, ")");
        assert(out@ =~= warning_text(self@.conflicts_by_direction));
        Some(string_from_chars(&out))
    }
}

// ---------------------------------------------------------------------------
// Laws
// ---------------------------------------------------------------------------


proof fn lemma_find_group_absent(groups: Seq<BlockGroup>, x: i8, y: i8, z: i8)
    ensures
        find_group(groups, x, y, z) == -1 <==> forall|j: int|
            0 <= j < groups.len() ==> !at_block(#[trigger] groups[j], x, y, z),
    decreases groups.len(),
{
    if groups.len() > 0 {
        let earlier = groups.drop_last();
        lemma_find_group_absent(earlier, x, y, z);
        lemma_find_group_bounds(earlier, x, y, z);
        if find_group(earlier, x, y, z) >= 0 {
            let j = find_group(earlier, x, y, z);
            assert(groups[j] == earlier[j]);
        }
        if forall|j: int| 0 <= j < groups.len() ==> !at_block(#[trigger] groups[j], x, y, z) {
            assert forall|j: int| 0 <= j < earlier.len() implies !at_block(
                #[trigger] earlier[j],
                x,
                y,
                z,
            ) by {
                assert(earlier[j] == groups[j]);
            }
            assert(!at_block(groups[groups.len() - 1], x, y, z));
        }
        if find_group(groups, x, y, z) == -1 {
            assert forall|j: int| 0 <= j < groups.len() implies !at_block(
                #[trigger] groups[j],
                x,
                y,
                z,
            ) by {
                if j < groups.len() - 1 {
                    assert(earlier[j] == groups[j]);
                }
            }
        }
    }
}

proof fn lemma_and_bit(a: u16, b: u16, index: int)
    requires
        0 <= index < 16,
    ensures
        has_index(a & b, index) <==> has_index(a, index) && has_index(b, index),
{
    let k = index as u16;
    assert((a & b) & (1u16 << k) != 0 <==> (a & (1u16 << k) != 0 && b & (1u16 << k) != 0))
        by (bit_vector)
        requires
            k < 16,
    ;
}

/// Whether every observation at block `(x, y, z)`, rotated by `direction`,
/// is produced by model index `index`.
pub open spec fn block_accepts(
    observations: Seq<RotationInfo>,
    algorithm: TextureAlgorithm,
    direction: i32,
    count: nat,
    x: i8,
    y: i8,
    z: i8,
    index: int,
) -> bool {
    forall|k: int|
        0 <= k < count && #[trigger] rotated_observation(observations[k], direction).x == x
            && rotated_observation(observations[k], direction).y == y && rotated_observation(
            observations[k],
            direction,
        ).z == z ==> accepts(rotated_observation(observations[k], direction), algorithm, index as u8)
}

/// Grouping is faithful: there is one group per distinct (rotated) block,
/// every observation's block has a group of its own selector family, and a
/// model index satisfies a group exactly when it produces every observation
/// made at that block. This is why conflicting faces on one block cost the
/// error budget once, not once per face.
pub proof fn lemma_grouping_combines_observations(
    observations: Seq<RotationInfo>,
    algorithm: TextureAlgorithm,
    direction: i32,
    count: nat,
)
    requires
        count <= observations.len(),
        group_prefix(observations, algorithm, direction, count) is Ok,
    ensures
        ({
            let groups = group_prefix(observations, algorithm, direction, count)->Ok_0;
            &&& forall|a: int, b: int|
                0 <= a < b < groups.len() ==> !at_block(
                    #[trigger] groups[a],
                    #[trigger] groups[b].x,
                    groups[b].y,
                    groups[b].z,
                )
            &&& forall|k: int|
                #![trigger rotated_observation(observations[k], direction)]
                0 <= k < count ==> {
                    let o = rotated_observation(observations[k], direction);
                    let g = find_group(groups, o.x, o.y, o.z);
                    0 <= g < groups.len() && groups[g].family == family_of(o.kind)
                }
            &&& forall|j: int, index: int|
                0 <= j < groups.len() && 0 <= index < 16 ==> (#[trigger] has_index(
                    groups[j].mask,
                    index,
                ) <==> block_accepts(
                    observations,
                    algorithm,
                    direction,
                    count,
                    groups[j].x,
                    groups[j].y,
                    groups[j].z,
                    index,
                ))
        }),
    decreases count,
{
    if count == 0 {
        return;
    }
    let previous = (count - 1) as nat;
    assert(group_prefix(observations, algorithm, direction, previous) is Ok);
    lemma_grouping_combines_observations(observations, algorithm, direction, previous);
    let groups = group_prefix(observations, algorithm, direction, previous)->Ok_0;
    let next = group_prefix(observations, algorithm, direction, count)->Ok_0;
    let o = rotated_observation(observations[count - 1], direction);
    let found = find_group(groups, o.x, o.y, o.z);
    let mask = observation_mask(o, algorithm);
    lemma_find_group_bounds(groups, o.x, o.y, o.z);
    lemma_find_group_absent(groups, o.x, o.y, o.z);
    assert forall|index: int| 0 <= index < 16 implies (has_index(mask, index) <==> accepts(
        o,
        algorithm,
        index as u8,
    )) by {
        lemma_observation_mask(o, algorithm, index);
    }
    // Distinct blocks.
    assert forall|a: int, b: int| 0 <= a < b < next.len() implies !at_block(
        #[trigger] next[a],
        #[trigger] next[b].x,
        next[b].y,
        next[b].z,
    ) by {
        if found < 0 && b == groups.len() {
            assert(!at_block(groups[a], o.x, o.y, o.z));
        }
    }
    // Every observation has its group.
    assert forall|k: int|
        #![trigger rotated_observation(observations[k], direction)]
        0 <= k < count implies {
        let ok = rotated_observation(observations[k], direction);
        let g = find_group(next, ok.x, ok.y, ok.z);
        0 <= g < next.len() && next[g].family == family_of(ok.kind)
    } by {
        let ok = rotated_observation(observations[k], direction);
        lemma_find_group_bounds(next, ok.x, ok.y, ok.z);
        lemma_find_group_absent(next, ok.x, ok.y, ok.z);
        if k < count - 1 {
            let g = find_group(groups, ok.x, ok.y, ok.z);
            lemma_find_group_bounds(groups, ok.x, ok.y, ok.z);
            assert(at_block(next[g], ok.x, ok.y, ok.z));
            let h = find_group(next, ok.x, ok.y, ok.z);
            if h != g {
                if h < g {
                    assert(!at_block(next[h], next[g].x, next[g].y, next[g].z));
                } else {
                    assert(!at_block(next[g], next[h].x, next[h].y, next[h].z));
                }
            }
        } else {
            if found < 0 {
                assert(at_block(next[groups.len() as int], ok.x, ok.y, ok.z));
            } else {
                assert(at_block(next[found], ok.x, ok.y, ok.z));
            }
            let h = find_group(next, ok.x, ok.y, ok.z);
            let expected = if found < 0 { groups.len() as int } else { found };
            if h != expected {
                if h < expected {
                    assert(!at_block(next[h], next[expected].x, next[expected].y, next[expected].z));
                } else {
                    assert(!at_block(next[expected], next[h].x, next[h].y, next[h].z));
                }
            }
        }
    }
    // Masks combine exactly the observations at each block.
    assert forall|j: int, index: int| 0 <= j < next.len() && 0 <= index < 16 implies (#[trigger] has_index(
        next[j].mask,
        index,
    ) <==> block_accepts(
        observations,
        algorithm,
        direction,
        count,
        next[j].x,
        next[j].y,
        next[j].z,
        index,
    )) by {
        let gj = next[j];
        if j < groups.len() as int && !at_block(gj, o.x, o.y, o.z) {
            assert(gj == groups[j]);
            if block_accepts(observations, algorithm, direction, previous, gj.x, gj.y, gj.z, index) {
                assert forall|k: int|
                    0 <= k < count && #[trigger] rotated_observation(observations[k], direction).x
                        == gj.x && rotated_observation(observations[k], direction).y == gj.y
                        && rotated_observation(observations[k], direction).z == gj.z implies accepts(
                    rotated_observation(observations[k], direction),
                    algorithm,
                    index as u8,
                ) by {
                    if k == count - 1 {
                        assert(at_block(gj, o.x, o.y, o.z));
                    }
                }
            }
        } else if found < 0 {
            assert(j == groups.len() as int);
            assert(gj.mask == mask);
            if has_index(mask, index) {
                assert forall|k: int|
                    0 <= k < count && #[trigger] rotated_observation(observations[k], direction).x
                        == gj.x && rotated_observation(observations[k], direction).y == gj.y
                        && rotated_observation(observations[k], direction).z == gj.z implies accepts(
                    rotated_observation(observations[k], direction),
                    algorithm,
                    index as u8,
                ) by {
                    if k < count - 1 {
                        let ok = rotated_observation(observations[k], direction);
                        let g = find_group(groups, ok.x, ok.y, ok.z);
                        lemma_find_group_bounds(groups, ok.x, ok.y, ok.z);
                        assert(at_block(groups[g], o.x, o.y, o.z));
                    }
                }
            }
        } else {
            assert(j == found) by {
                if j != found {
                    if j < found {
                        assert(!at_block(next[j], next[found].x, next[found].y, next[found].z));
                    } else {
                        assert(!at_block(next[found], next[j].x, next[j].y, next[j].z));
                    }
                }
            }
            lemma_and_bit(groups[found].mask, mask, index);
            let g0 = groups[found];
            if block_accepts(observations, algorithm, direction, previous, g0.x, g0.y, g0.z, index)
                && has_index(mask, index) {
                assert forall|k: int|
                    0 <= k < count && #[trigger] rotated_observation(observations[k], direction).x
                        == gj.x && rotated_observation(observations[k], direction).y == gj.y
                        && rotated_observation(observations[k], direction).z == gj.z implies accepts(
                    rotated_observation(observations[k], direction),
                    algorithm,
                    index as u8,
                ) by {}
            }
        }
    }
}


proof fn lemma_count_bits_bound(mask: u16, count: nat)
    ensures
        count_bits(mask, count) <= count,
    decreases count,
{
    if count > 0 {
        lemma_count_bits_bound(mask, (count - 1) as nat);
    }
}

proof fn lemma_with_popcount_elements(items: Seq<CompiledRotation>, count: nat)
    ensures
        forall|i: int|
            0 <= i < with_popcount(items, count).len() ==> popcount(
                #[trigger] with_popcount(items, count)[i].accepted_indices,
            ) == count,
    decreases items.len(),
{
    if items.len() > 0 {
        let earlier = with_popcount(items.drop_last(), count);
        lemma_with_popcount_elements(items.drop_last(), count);
        assert forall|i: int| 0 <= i < with_popcount(items, count).len() implies popcount(
            #[trigger] with_popcount(items, count)[i].accepted_indices,
        ) == count by {
            if i < earlier.len() {
                assert(with_popcount(items, count)[i] == earlier[i]);
            }
        }
    }
}

proof fn lemma_buckets_sorted(items: Seq<CompiledRotation>, from: nat)
    ensures
        forall|i: int|
            0 <= i < popcount_buckets(items, from).len() ==> popcount(
                #[trigger] popcount_buckets(items, from)[i].accepted_indices,
            ) >= from,
        forall|i: int, j: int|
            0 <= i <= j < popcount_buckets(items, from).len() ==> popcount(
                #[trigger] popcount_buckets(items, from)[i].accepted_indices,
            ) <= popcount(#[trigger] popcount_buckets(items, from)[j].accepted_indices),
    decreases 17 - from,
{
    if from <= 16 {
        lemma_buckets_sorted(items, from + 1);
        lemma_with_popcount_elements(items, from);
        let bucket = with_popcount(items, from);
        let rest = popcount_buckets(items, from + 1);
        assert(popcount_buckets(items, from) == bucket + rest);
        assert forall|i: int| 0 <= i < (bucket + rest).len() implies popcount(
            #[trigger] (bucket + rest)[i].accepted_indices,
        ) >= from by {
            if i >= bucket.len() {
                assert((bucket + rest)[i] == rest[i - bucket.len()]);
            }
        }
        assert forall|i: int, j: int| 0 <= i <= j < (bucket + rest).len() implies popcount(
            #[trigger] (bucket + rest)[i].accepted_indices,
        ) <= popcount(#[trigger] (bucket + rest)[j].accepted_indices) by {
            if j < bucket.len() {
            } else if i < bucket.len() {
                assert((bucket + rest)[j] == rest[j - bucket.len()]);
            } else {
                assert((bucket + rest)[i] == rest[i - bucket.len()]);
                assert((bucket + rest)[j] == rest[j - bucket.len()]);
            }
        }
    }
}

proof fn lemma_buckets_push(items: Seq<CompiledRotation>, item: CompiledRotation, from: nat)
    ensures
        popcount_buckets(items.push(item), from).to_multiset() == if from <= popcount(
            item.accepted_indices,
        ) {
            popcount_buckets(items, from).to_multiset().insert(item)
        } else {
            popcount_buckets(items, from).to_multiset()
        },
    decreases 17 - from,
{
    broadcast use vstd::seq_lib::group_to_multiset_ensures;
    broadcast use vstd::multiset::group_multiset_axioms;

    lemma_count_bits_bound(item.accepted_indices, 16);
    if from <= 16 {
        lemma_buckets_push(items, item, from + 1);
        assert(items.push(item).drop_last() =~= items);
        let bucket = with_popcount(items, from);
        let rest = popcount_buckets(items, from + 1);
        let rest2 = popcount_buckets(items.push(item), from + 1);
        vstd::seq_lib::lemma_multiset_commutative(bucket, rest);
        if popcount(item.accepted_indices) == from {
            vstd::seq_lib::lemma_multiset_commutative(bucket.push(item), rest2);
            assert(popcount_buckets(items.push(item), from).to_multiset() =~= popcount_buckets(
                items,
                from,
            ).to_multiset().insert(item));
        } else {
            vstd::seq_lib::lemma_multiset_commutative(bucket, rest2);
            assert(popcount_buckets(items.push(item), from).to_multiset() =~= if from <= popcount(
                item.accepted_indices,
            ) {
                popcount_buckets(items, from).to_multiset().insert(item)
            } else {
                popcount_buckets(items, from).to_multiset()
            });
        }
    } else {
        assert(popcount_buckets(items.push(item), from).to_multiset() =~= popcount_buckets(
            items,
            from,
        ).to_multiset());
    }
}

/// Constraint ordering only reorders: the result holds the same constraints,
/// with the number of accepted model indices never decreasing along it.
pub proof fn lemma_sorted_by_popcount(items: Seq<CompiledRotation>)
    ensures
        sorted_by_popcount(items).to_multiset() == items.to_multiset(),
        forall|i: int, j: int|
            0 <= i <= j < sorted_by_popcount(items).len() ==> popcount(
                #[trigger] sorted_by_popcount(items)[i].accepted_indices,
            ) <= popcount(#[trigger] sorted_by_popcount(items)[j].accepted_indices),
    decreases items.len(),
{
    broadcast use vstd::seq_lib::group_to_multiset_ensures;

    lemma_buckets_sorted(items, 0);
    if items.len() == 0 {
        assert(popcount_buckets(items, 0).to_multiset() =~= items.to_multiset()) by {
            lemma_buckets_empty(items, 0);
        }
    } else {
        lemma_sorted_by_popcount(items.drop_last());
        lemma_buckets_push(items.drop_last(), items.last(), 0);
        assert(items.drop_last().push(items.last()) =~= items);
    }
}

proof fn lemma_buckets_empty(items: Seq<CompiledRotation>, from: nat)
    requires
        items.len() == 0,
    ensures
        popcount_buckets(items, from) == Seq::<CompiledRotation>::empty(),
    decreases 17 - from,
{
    if from <= 16 {
        lemma_buckets_empty(items, from + 1);
        assert(popcount_buckets(items, from) =~= Seq::<CompiledRotation>::empty());
    }
}

/// Offsets in strictly increasing lexicographic order.
pub open spec fn strictly_ascending(offsets: Seq<Int3>) -> bool {
    forall|i: int, j: int|
        0 <= i < j < offsets.len() ==> offset_before(#[trigger] offsets[i], #[trigger] offsets[j])
}

proof fn lemma_insertion_point_facts(sorted: Seq<Int3>, offset: Int3)
    ensures
        0 <= insertion_point(sorted, offset) <= sorted.len(),
        forall|j: int|
            0 <= j < insertion_point(sorted, offset) ==> !offset_before(offset, #[trigger] sorted[j]),
        insertion_point(sorted, offset) < sorted.len() ==> offset_before(
            offset,
            sorted[insertion_point(sorted, offset)],
        ),
    decreases sorted.len(),
{
    if sorted.len() > 0 && !offset_before(offset, sorted[0]) {
        lemma_insertion_point_facts(sorted.drop_first(), offset);
        assert forall|j: int| 0 <= j < insertion_point(sorted, offset) implies !offset_before(
            offset,
            #[trigger] sorted[j],
        ) by {
            if j > 0 {
                assert(sorted[j] == sorted.drop_first()[j - 1]);
            }
        }
    }
}

proof fn lemma_insert_ascending(sorted: Seq<Int3>, offset: Int3)
    requires
        strictly_ascending(sorted),
        !sorted.contains(offset),
    ensures
        strictly_ascending(sorted.insert(insertion_point(sorted, offset), offset)),
{
    lemma_insertion_point_facts(sorted, offset);
    let p = insertion_point(sorted, offset);
    let result = sorted.insert(p, offset);
    assert forall|i: int, j: int| 0 <= i < j < result.len() implies offset_before(
        #[trigger] result[i],
        #[trigger] result[j],
    ) by {
        if i < p && j == p {
            assert(sorted[i] != offset);
        } else if i == p && j > p {
            if j - 1 > p {
                assert(offset_before(sorted[p], sorted[j - 1]));
            }
        } else if i < p && j > p {
            assert(sorted[i] != offset);
        }
    }
}

/// Sorting distinct offsets gives them in strictly increasing order, each
/// exactly once.
pub proof fn lemma_sorted_offsets(offsets: Seq<Int3>)
    requires
        offsets.no_duplicates(),
    ensures
        strictly_ascending(sorted_offsets(offsets)),
        sorted_offsets(offsets).to_multiset() == offsets.to_multiset(),
    decreases offsets.len(),
{
    broadcast use vstd::seq_lib::group_to_multiset_ensures;
    broadcast use vstd::seq_lib::to_multiset_insert;

    if offsets.len() > 0 {
        let earlier = offsets.drop_last();
        lemma_sorted_offsets(earlier);
        let sorted = sorted_offsets(earlier);
        lemma_insertion_point_facts(sorted, offsets.last());
        if sorted.contains(offsets.last()) {
            assert(sorted.to_multiset().count(offsets.last()) > 0);
            assert(earlier.contains(offsets.last()));
            let k = choose|k: int| 0 <= k < earlier.len() && earlier[k] == offsets.last();
            assert(offsets[k] == offsets[offsets.len() - 1]);
        }
        lemma_insert_ascending(sorted, offsets.last());
        assert(earlier.push(offsets.last()) =~= offsets);
    }
}


proof fn lemma_forced_offsets_distinct(groups: Seq<BlockGroup>)
    requires
        forall|a: int, b: int|
            0 <= a < b < groups.len() ==> !at_block(
                #[trigger] groups[a],
                #[trigger] groups[b].x,
                groups[b].y,
                groups[b].z,
            ),
    ensures
        forced_offsets(groups).no_duplicates(),
        forall|i: int|
            0 <= i < forced_offsets(groups).len() ==> exists|j: int|
                0 <= j < groups.len() && groups[j].mask == 0 && #[trigger] forced_offsets(groups)[i]
                    == offset_of(groups[j]),
    decreases groups.len(),
{
    if groups.len() > 0 {
        let earlier = groups.drop_last();
        assert forall|a: int, b: int| 0 <= a < b < earlier.len() implies !at_block(
            #[trigger] earlier[a],
            #[trigger] earlier[b].x,
            earlier[b].y,
            earlier[b].z,
        ) by {
            assert(earlier[a] == groups[a] && earlier[b] == groups[b]);
        }
        lemma_forced_offsets_distinct(earlier);
        let before = forced_offsets(earlier);
        assert forall|i: int| 0 <= i < forced_offsets(groups).len() implies exists|j: int|
            0 <= j < groups.len() && groups[j].mask == 0 && #[trigger] forced_offsets(groups)[i]
                == offset_of(groups[j]) by {
            if i < before.len() {
                assert(forced_offsets(groups)[i] == before[i]);
                let j = choose|j: int|
                    0 <= j < earlier.len() && earlier[j].mask == 0 && #[trigger] before[i]
                        == offset_of(earlier[j]);
                assert(groups[j] == earlier[j]);
            } else {
                assert(forced_offsets(groups)[i] == offset_of(groups.last()));
            }
        }
        if groups.last().mask == 0 {
            assert forall|i: int| 0 <= i < before.len() implies before[i] != offset_of(
                groups.last(),
            ) by {
                let j = choose|j: int|
                    0 <= j < earlier.len() && earlier[j].mask == 0 && #[trigger] before[i]
                        == offset_of(earlier[j]);
                assert(groups[j] == earlier[j]);
                assert(!at_block(groups[j], groups[groups.len() - 1].x, groups[groups.len() - 1].y, groups[groups.len() - 1].z));
            }
            assert forall|a: int, b: int|
                0 <= a < forced_offsets(groups).len() && 0 <= b < forced_offsets(groups).len()
                    && a != b implies forced_offsets(groups)[a] != forced_offsets(groups)[b] by {
                if a < before.len() && b < before.len() {
                } else if a < before.len() {
                    assert(forced_offsets(groups)[a] == before[a]);
                } else {
                    assert(forced_offsets(groups)[b] == before[b]);
                }
            }
        }
    }
}

/// The unsatisfiable blocks of a direction are reported each once, in
/// strictly increasing offset order, and they are exactly what the direction
/// counts as forced errors.
pub proof fn lemma_direction_conflicts(
    observations: Seq<RotationInfo>,
    algorithm: TextureAlgorithm,
    direction: i32,
)
    requires
        grouped(observations, algorithm, direction) is Ok,
    ensures
        ({
            let groups = grouped(observations, algorithm, direction)->Ok_0;
            &&& strictly_ascending(direction_conflicts(groups))
            &&& direction_conflicts(groups).to_multiset() == forced_offsets(groups).to_multiset()
            &&& direction_plan(groups).forced_errors == direction_conflicts(groups).len() as i32
        }),
{
    broadcast use vstd::seq_lib::group_to_multiset_ensures;

    lemma_grouping_combines_observations(observations, algorithm, direction, observations.len());
    let groups = grouped(observations, algorithm, direction)->Ok_0;
    lemma_forced_offsets_distinct(groups);
    lemma_sorted_offsets(forced_offsets(groups));
}

/// Sampling with 16 variants and reading the visible four-way rotation gives
/// exactly what sampling with 4 variants gives, for every algorithm and every
/// block: the 16-way masks reproduce four-state observations.
pub proof fn lemma_sixteen_way_refines_four_way(
    algorithm: TextureAlgorithm,
    x: i32,
    y: i32,
    z: i32,
)
    ensures
        visible_rotation(algorithm, texture_variant(algorithm, x, y, z, 16) as u8) as int
            == texture_variant(algorithm, x, y, z, 4),
{
    crate::texture::lemma_texture_variant_in_range(algorithm, x, y, z, 16);
    crate::texture::lemma_texture_variant_in_range(algorithm, x, y, z, 4);
    match algorithm {
        TextureAlgorithm::Vanilla3 => {
            let seed = crate::texture::coordinate_random(x, y, z);
            let start = crate::texture::java_scramble(seed) as int;
            let next = crate::texture::lcg_next(start);
            let bits = crate::texture::lcg_bits31(next);
            assert(0 <= next < 0x1_0000_0000_0000);
            assert(0 <= bits < 0x8000_0000);
            let b = bits as u64;
            assert(((16 * b) / 0x8000_0000) / 4 == (4 * b) / 0x8000_0000) by (bit_vector)
                requires
                    b < 0x8000_0000,
            ;
            let q = ((16 * bits) / 0x8000_0000) as u8;
            assert(q >> 2u8 == q / 4) by (bit_vector);
        },
        _ => {
            let v = texture_variant(algorithm, x, y, z, 16);
            let t = v as u8;
            assert(t < 16 ==> t & 3u8 == t % 4) by (bit_vector);
            let a = match algorithm {
                TextureAlgorithm::Vanilla1 => crate::texture::coordinate_random_legacy(x, y, z) as int,
                TextureAlgorithm::Vanilla2 => crate::texture::vanilla2_value(
                    crate::texture::coordinate_random(x, y, z),
                ) as int,
                TextureAlgorithm::Sodium1 => crate::texture::sodium1_value(
                    crate::texture::coordinate_random(x, y, z) as u64,
                ) as int,
                _ => crate::texture::sodium2_value(
                    crate::texture::coordinate_random(x, y, z) as u64,
                ) as int,
            };
            let m = if a < 0 { -a } else { a };
            vstd::arithmetic::div_mod::lemma_mod_mod(m, 4, 4);
        },
    }
}

/// Rotating a netherrack face observation by `turns` quarter turns keeps it
/// satisfied by the model index whose yaw advanced by the same turns: the
/// face table and the rotation rules agree for every index, face and yaw.
pub proof fn lemma_netherrack_yaw(index: int, face: Face, turns: int)
    requires
        0 <= index < 16,
        0 <= turns < 4,
    ensures
        accepts(
            rotated_observation(
                RotationInfo {
                    x: 0,
                    y: 0,
                    z: 0,
                    rotation: (netherrack_rotation(index, face_position(face)) % 4) as u8,
                    kind: RotationKind::Netherrack(face),
                },
                (turns * 90) as i32,
            ),
            TextureAlgorithm::Vanilla3,
            (((index / 4 + turns) % 4) * 4 + index % 4) as u8,
        ),
{
    reveal_with_fuel(turned, 4);
    assert(quarter_turns((turns * 90) as i32) == turns);
}

/// Whether a constraint sits at an offset.
pub open spec fn constraint_at(constraint: CompiledRotation, offset: Int3) -> bool {
    constraint.x as i32 == offset.x && constraint.y as i32 == offset.y && constraint.z as i32
        == offset.z
}

/// Whether no two groups sit at one block.
pub open spec fn distinct_blocks(groups: Seq<BlockGroup>) -> bool {
    forall|a: int, b: int|
        0 <= a < b < groups.len() ==> !at_block(
            #[trigger] groups[a],
            #[trigger] groups[b].x,
            groups[b].y,
            groups[b].z,
        )
}

proof fn lemma_usable_origin(groups: Seq<BlockGroup>, c: CompiledRotation)
    requires
        usable_constraints(groups).contains(c),
    ensures
        exists|g: int|
            0 <= g < groups.len() && groups[g].mask != 0 && #[trigger] constraint_of(groups[g]) == c,
    decreases groups.len(),
{
    let rest = groups.drop_last();
    if groups.last().mask != 0 && c == constraint_of(groups.last()) {
        assert(constraint_of(groups[groups.len() - 1]) == c);
    } else {
        if groups.last().mask != 0 {
            let u = usable_constraints(rest);
            let i = choose|i: int| 0 <= i < u.push(constraint_of(groups.last())).len() && u.push(
                constraint_of(groups.last()),
            )[i] == c;
            assert(u[i] == c);
        }
        lemma_usable_origin(rest, c);
        let g = choose|g: int| 0 <= g < rest.len() && rest[g].mask != 0 && #[trigger] constraint_of(rest[g]) == c;
        assert(groups[g] == rest[g]);
    }
}

proof fn lemma_forced_origin(groups: Seq<BlockGroup>, offset: Int3)
    requires
        forced_offsets(groups).contains(offset),
    ensures
        exists|g: int| 0 <= g < groups.len() && groups[g].mask == 0 && #[trigger] offset_of(groups[g]) == offset,
    decreases groups.len(),
{
    let rest = groups.drop_last();
    if groups.last().mask == 0 && offset == offset_of(groups.last()) {
        assert(offset_of(groups[groups.len() - 1]) == offset);
    } else {
        if groups.last().mask == 0 {
            let f = forced_offsets(rest);
            let i = choose|i: int| 0 <= i < f.push(offset_of(groups.last())).len() && f.push(
                offset_of(groups.last()),
            )[i] == offset;
            assert(f[i] == offset);
        }
        lemma_forced_origin(rest, offset);
        let g = choose|g: int| 0 <= g < rest.len() && rest[g].mask == 0 && #[trigger] offset_of(rest[g]) == offset;
        assert(groups[g] == rest[g]);
    }
}

proof fn lemma_usable_distinct(groups: Seq<BlockGroup>)
    requires
        distinct_blocks(groups),
    ensures
        forall|i: int, j: int|
            0 <= i < j < usable_constraints(groups).len() ==> !constraint_at(
                #[trigger] usable_constraints(groups)[i],
                constraint_offset(#[trigger] usable_constraints(groups)[j]),
            ),
        forall|i: int| 0 <= i < usable_constraints(groups).len() ==> (#[trigger] usable_constraints(groups)[i]).accepted_indices != 0,
    decreases groups.len(),
{
    if groups.len() > 0 {
        let rest = groups.drop_last();
        assert forall|a: int, b: int| 0 <= a < b < rest.len() implies !at_block(
            #[trigger] rest[a],
            #[trigger] rest[b].x,
            rest[b].y,
            rest[b].z,
        ) by {
            assert(rest[a] == groups[a] && rest[b] == groups[b]);
        }
        lemma_usable_distinct(rest);
        let u = usable_constraints(rest);
        if groups.last().mask != 0 {
            let all = usable_constraints(groups);
            let last = constraint_of(groups.last());
            assert(all == u.push(last));
            assert forall|i: int, j: int| 0 <= i < j < all.len() implies !constraint_at(
                #[trigger] all[i],
                constraint_offset(#[trigger] all[j]),
            ) by {
                if j == u.len() {
                    assert(all[i] == u[i]);
                    assert(u.contains(u[i]));
                    lemma_usable_origin(rest, u[i]);
                    let g = choose|g: int| 0 <= g < rest.len() && rest[g].mask != 0 && #[trigger] constraint_of(rest[g]) == u[i];
                    assert(groups[g] == rest[g]);
                    assert(!at_block(groups[g], groups[groups.len() - 1].x, groups[groups.len() - 1].y, groups[groups.len() - 1].z));
                } else {
                    assert(all[i] == u[i] && all[j] == u[j]);
                }
            }
        }
    }
}

/// The offset a constraint sits at.
pub open spec fn constraint_offset(constraint: CompiledRotation) -> Int3 {
    Int3 { x: constraint.x as i32, y: constraint.y as i32, z: constraint.z as i32 }
}

/// The shape of a compiled direction: its forced errors are its conflicts,
/// listed once each in strictly increasing offset order; its constraints
/// come in non-decreasing order of accepted model indices, each accepts at
/// least one, no two sit at one offset, and none sits at a conflict.
pub proof fn lemma_compiled_direction_shape(
    observations: Seq<RotationInfo>,
    algorithm: TextureAlgorithm,
    direction: i32,
)
    requires
        grouped(observations, algorithm, direction) is Ok,
    ensures
        ({
            let groups = grouped(observations, algorithm, direction)->Ok_0;
            let plan = direction_plan(groups);
            let conflicts = direction_conflicts(groups);
            &&& plan.forced_errors == conflicts.len() as i32
            &&& strictly_ascending(conflicts)
            &&& forall|i: int, j: int|
                0 <= i <= j < plan.constraints.len() ==> popcount(
                    #[trigger] plan.constraints[i].accepted_indices,
                ) <= popcount(#[trigger] plan.constraints[j].accepted_indices)
            &&& forall|i: int|
                0 <= i < plan.constraints.len() ==> (#[trigger] plan.constraints[i]).accepted_indices
                    != 0
            &&& forall|i: int, j: int|
                0 <= i < plan.constraints.len() && 0 <= j < plan.constraints.len() && i != j
                    ==> !constraint_at(
                    #[trigger] plan.constraints[i],
                    constraint_offset(#[trigger] plan.constraints[j]),
                )
            &&& forall|i: int, k: int|
                0 <= i < plan.constraints.len() && 0 <= k < conflicts.len() ==> !constraint_at(
                    #[trigger] plan.constraints[i],
                    #[trigger] conflicts[k],
                )
        }),
{
    let groups = grouped(observations, algorithm, direction)->Ok_0;
    let plan = direction_plan(groups);
    let conflicts = direction_conflicts(groups);
    let usable = usable_constraints(groups);
    lemma_direction_conflicts(observations, algorithm, direction);
    lemma_sorted_by_popcount(usable);
    lemma_grouping_combines_observations(observations, algorithm, direction, observations.len());
    assert(distinct_blocks(groups));
    lemma_usable_distinct(groups);
    // The usable constraints hold no value twice, and neither do the sorted ones.
    assert(usable.no_duplicates()) by {
        assert forall|i: int, j: int| 0 <= i < usable.len() && 0 <= j < usable.len() && i != j
            implies usable[i] != usable[j] by {
            if i < j {
                assert(!constraint_at(usable[i], constraint_offset(usable[j])));
            } else {
                assert(!constraint_at(usable[j], constraint_offset(usable[i])));
            }
        }
    }
    usable.lemma_multiset_has_no_duplicates();
    plan.constraints.lemma_multiset_has_no_duplicates_conv();
    assert forall|i: int| 0 <= i < plan.constraints.len() implies usable.contains(
        #[trigger] plan.constraints[i],
    ) by {
        assert(plan.constraints.to_multiset().count(plan.constraints[i]) > 0) by {
            plan.constraints.to_multiset_ensures();
            assert(plan.constraints.contains(plan.constraints[i]));
        }
        usable.to_multiset_ensures();
    }
    assert forall|i: int| 0 <= i < plan.constraints.len() implies (
    #[trigger] plan.constraints[i]).accepted_indices != 0 by {
        let c = plan.constraints[i];
        let k = choose|k: int| 0 <= k < usable.len() && usable[k] == c;
    }
    assert forall|i: int, j: int|
        0 <= i < plan.constraints.len() && 0 <= j < plan.constraints.len() && i != j implies !constraint_at(
        #[trigger] plan.constraints[i],
        constraint_offset(#[trigger] plan.constraints[j]),
    ) by {
        let a = plan.constraints[i];
        let b = plan.constraints[j];
        assert(usable.contains(a) && usable.contains(b));
        let p = choose|p: int| 0 <= p < usable.len() && usable[p] == a;
        let q = choose|q: int| 0 <= q < usable.len() && usable[q] == b;
        assert(a != b);
        assert(p != q);
        if p < q {
            assert(!constraint_at(usable[p], constraint_offset(usable[q])));
        } else {
            assert(!constraint_at(usable[q], constraint_offset(usable[p])));
        }
    }
    assert forall|i: int, k: int| 0 <= i < plan.constraints.len() && 0 <= k < conflicts.len()
        implies !constraint_at(#[trigger] plan.constraints[i], #[trigger] conflicts[k]) by {
        let c = plan.constraints[i];
        let offset = conflicts[k];
        assert(usable.contains(c));
        lemma_usable_origin(groups, c);
        let g = choose|g: int| 0 <= g < groups.len() && groups[g].mask != 0 && #[trigger] constraint_of(groups[g]) == c;
        assert(conflicts.to_multiset().count(offset) > 0) by {
            conflicts.to_multiset_ensures();
            assert(conflicts.contains(offset));
        }
        forced_offsets(groups).to_multiset_ensures();
        lemma_forced_origin(groups, offset);
        let h = choose|h: int| 0 <= h < groups.len() && groups[h].mask == 0 && #[trigger] offset_of(groups[h]) == offset;
        assert(g != h);
        if g < h {
            assert(!at_block(groups[g], groups[h].x, groups[h].y, groups[h].z));
        } else {
            assert(!at_block(groups[h], groups[g].x, groups[g].y, groups[g].z));
        }
    }
}

/// Whether some one of the first `count` observations, rotated by
/// `direction`, sits at block `(x, y, z)`.
pub open spec fn block_seen(
    observations: Seq<RotationInfo>,
    direction: i32,
    count: nat,
    x: i8,
    y: i8,
    z: i8,
) -> bool {
    exists|k: int|
        0 <= k < count && #[trigger] rotated_observation(observations[k], direction).x == x
            && rotated_observation(observations[k], direction).y == y && rotated_observation(
            observations[k],
            direction,
        ).z == z
}

proof fn lemma_groups_seen(
    observations: Seq<RotationInfo>,
    algorithm: TextureAlgorithm,
    direction: i32,
    count: nat,
)
    requires
        count <= observations.len(),
        group_prefix(observations, algorithm, direction, count) is Ok,
    ensures
        ({
            let groups = group_prefix(observations, algorithm, direction, count)->Ok_0;
            forall|j: int|
                0 <= j < groups.len() ==> block_seen(
                    observations,
                    direction,
                    count,
                    #[trigger] groups[j].x,
                    groups[j].y,
                    groups[j].z,
                )
        }),
    decreases count,
{
    if count > 0 {
        let c = (count - 1) as nat;
        lemma_groups_seen(observations, algorithm, direction, c);
        let before = group_prefix(observations, algorithm, direction, c)->Ok_0;
        let groups = group_prefix(observations, algorithm, direction, count)->Ok_0;
        let o = rotated_observation(observations[count - 1], direction);
        let index = find_group(before, o.x, o.y, o.z);
        lemma_find_group_bounds(before, o.x, o.y, o.z);
        assert forall|j: int| 0 <= j < groups.len() implies block_seen(
            observations,
            direction,
            count,
            #[trigger] groups[j].x,
            groups[j].y,
            groups[j].z,
        ) by {
            if j < before.len() && (index < 0 || j != index) {
                assert(groups[j] == before[j]);
                let k = choose|k: int|
                    0 <= k < c && #[trigger] rotated_observation(observations[k], direction).x
                        == before[j].x && rotated_observation(observations[k], direction).y
                        == before[j].y && rotated_observation(observations[k], direction).z
                        == before[j].z;
                assert(rotated_observation(observations[k], direction).x == groups[j].x);
            } else {
                assert(groups[j].x == o.x && groups[j].y == o.y && groups[j].z == o.z);
                assert(rotated_observation(observations[count - 1], direction).x == groups[j].x);
            }
        }
    }
}

proof fn lemma_usable_holds(groups: Seq<BlockGroup>, g: int)
    requires
        0 <= g < groups.len(),
        groups[g].mask != 0,
    ensures
        usable_constraints(groups).contains(constraint_of(groups[g])),
    decreases groups.len(),
{
    let rest = groups.drop_last();
    if g == groups.len() - 1 {
        let u = usable_constraints(rest).push(constraint_of(groups.last()));
        assert(u[u.len() - 1] == constraint_of(groups[g]));
    } else {
        assert(rest[g] == groups[g]);
        lemma_usable_holds(rest, g);
        let u = usable_constraints(rest);
        let i = choose|i: int| 0 <= i < u.len() && u[i] == constraint_of(groups[g]);
        if groups.last().mask != 0 {
            assert(u.push(constraint_of(groups.last()))[i] == constraint_of(groups[g]));
        }
    }
}

proof fn lemma_forced_holds(groups: Seq<BlockGroup>, g: int)
    requires
        0 <= g < groups.len(),
        groups[g].mask == 0,
    ensures
        forced_offsets(groups).contains(offset_of(groups[g])),
    decreases groups.len(),
{
    let rest = groups.drop_last();
    if g == groups.len() - 1 {
        let f = forced_offsets(rest).push(offset_of(groups.last()));
        assert(f[f.len() - 1] == offset_of(groups[g]));
    } else {
        assert(rest[g] == groups[g]);
        lemma_forced_holds(rest, g);
        let f = forced_offsets(rest);
        let i = choose|i: int| 0 <= i < f.len() && f[i] == offset_of(groups[g]);
        if groups.last().mask == 0 {
            assert(f.push(offset_of(groups.last()))[i] == offset_of(groups[g]));
        }
    }
}

proof fn lemma_same_bits(a: u16, b: u16)
    requires
        forall|i: int| 0 <= i < 16 ==> (#[trigger] has_index(a, i) <==> has_index(b, i)),
    ensures
        a == b,
{
    assert(has_index(a, 0) <==> has_index(b, 0));
    assert(has_index(a, 1) <==> has_index(b, 1));
    assert(has_index(a, 2) <==> has_index(b, 2));
    assert(has_index(a, 3) <==> has_index(b, 3));
    assert(has_index(a, 4) <==> has_index(b, 4));
    assert(has_index(a, 5) <==> has_index(b, 5));
    assert(has_index(a, 6) <==> has_index(b, 6));
    assert(has_index(a, 7) <==> has_index(b, 7));
    assert(has_index(a, 8) <==> has_index(b, 8));
    assert(has_index(a, 9) <==> has_index(b, 9));
    assert(has_index(a, 10) <==> has_index(b, 10));
    assert(has_index(a, 11) <==> has_index(b, 11));
    assert(has_index(a, 12) <==> has_index(b, 12));
    assert(has_index(a, 13) <==> has_index(b, 13));
    assert(has_index(a, 14) <==> has_index(b, 14));
    assert(has_index(a, 15) <==> has_index(b, 15));
    assert(a == b) by (bit_vector)
        requires
            (a & (1u16 << 0u16) != 0) == (b & (1u16 << 0u16) != 0),
            (a & (1u16 << 1u16) != 0) == (b & (1u16 << 1u16) != 0),
            (a & (1u16 << 2u16) != 0) == (b & (1u16 << 2u16) != 0),
            (a & (1u16 << 3u16) != 0) == (b & (1u16 << 3u16) != 0),
            (a & (1u16 << 4u16) != 0) == (b & (1u16 << 4u16) != 0),
            (a & (1u16 << 5u16) != 0) == (b & (1u16 << 5u16) != 0),
            (a & (1u16 << 6u16) != 0) == (b & (1u16 << 6u16) != 0),
            (a & (1u16 << 7u16) != 0) == (b & (1u16 << 7u16) != 0),
            (a & (1u16 << 8u16) != 0) == (b & (1u16 << 8u16) != 0),
            (a & (1u16 << 9u16) != 0) == (b & (1u16 << 9u16) != 0),
            (a & (1u16 << 10u16) != 0) == (b & (1u16 << 10u16) != 0),
            (a & (1u16 << 11u16) != 0) == (b & (1u16 << 11u16) != 0),
            (a & (1u16 << 12u16) != 0) == (b & (1u16 << 12u16) != 0),
            (a & (1u16 << 13u16) != 0) == (b & (1u16 << 13u16) != 0),
            (a & (1u16 << 14u16) != 0) == (b & (1u16 << 14u16) != 0),
            (a & (1u16 << 15u16) != 0) == (b & (1u16 << 15u16) != 0),
    ;
}

proof fn lemma_zero_bits(a: u16)
    requires
        forall|i: int| 0 <= i < 16 ==> !#[trigger] has_index(a, i),
    ensures
        a == 0,
{
    assert(forall|i: int| 0 <= i < 16 ==> !#[trigger] has_index(0u16, i)) by {
        assert forall|i: int| 0 <= i < 16 implies !#[trigger] has_index(0u16, i) by {
            let k = i as u16;
            assert(0u16 & (1u16 << k) == 0) by (bit_vector);
        }
    }
    lemma_same_bits(a, 0u16);
}

/// Compilation splits the observed blocks exactly: a constraint is
/// compiled for a block some rotated observation sits at, with the model
/// indices that produce every observation made there, exactly when at least
/// one index does; the block is a conflict exactly when none does. Nothing
/// else is compiled.
pub proof fn lemma_compiled_direction_split(
    observations: Seq<RotationInfo>,
    algorithm: TextureAlgorithm,
    direction: i32,
    constraint: CompiledRotation,
    x: i8,
    y: i8,
    z: i8,
)
    requires
        grouped(observations, algorithm, direction) is Ok,
    ensures
        ({
            let groups = grouped(observations, algorithm, direction)->Ok_0;
            let n = observations.len();
            &&& direction_plan(groups).constraints.contains(constraint) <==> {
                &&& block_seen(observations, direction, n, constraint.x, constraint.y, constraint.z)
                &&& constraint.accepted_indices != 0
                &&& forall|index: int|
                    0 <= index < 16 ==> (#[trigger] has_index(constraint.accepted_indices, index)
                        <==> block_accepts(
                        observations,
                        algorithm,
                        direction,
                        n,
                        constraint.x,
                        constraint.y,
                        constraint.z,
                        index,
                    ))
            }
            &&& direction_conflicts(groups).contains(
                Int3 { x: x as i32, y: y as i32, z: z as i32 },
            ) <==> {
                &&& block_seen(observations, direction, n, x, y, z)
                &&& forall|index: int|
                    0 <= index < 16 ==> !#[trigger] block_accepts(
                        observations,
                        algorithm,
                        direction,
                        n,
                        x,
                        y,
                        z,
                        index,
                    )
            }
        }),
{
    let n = observations.len();
    let groups = grouped(observations, algorithm, direction)->Ok_0;
    let plan = direction_plan(groups);
    let conflicts = direction_conflicts(groups);
    let usable = usable_constraints(groups);
    lemma_grouping_combines_observations(observations, algorithm, direction, n);
    lemma_groups_seen(observations, algorithm, direction, n);
    lemma_direction_conflicts(observations, algorithm, direction);
    lemma_sorted_by_popcount(usable);
    plan.constraints.to_multiset_ensures();
    usable.to_multiset_ensures();
    conflicts.to_multiset_ensures();
    forced_offsets(groups).to_multiset_ensures();
    let c = constraint;
    // Constraints.
    if plan.constraints.contains(c) {
        assert(plan.constraints.to_multiset().count(c) > 0);
        assert(usable.contains(c));
        lemma_usable_origin(groups, c);
        let g = choose|g: int| 0 <= g < groups.len() && groups[g].mask != 0 && #[trigger] constraint_of(groups[g]) == c;
        assert(block_seen(observations, direction, n, groups[g].x, groups[g].y, groups[g].z));
    }
    if block_seen(observations, direction, n, c.x, c.y, c.z) && c.accepted_indices != 0 && (
    forall|index: int|
        0 <= index < 16 ==> (#[trigger] has_index(c.accepted_indices, index) <==> block_accepts(
            observations,
            algorithm,
            direction,
            n,
            c.x,
            c.y,
            c.z,
            index,
        ))) {
        let k = choose|k: int|
            0 <= k < n && #[trigger] rotated_observation(observations[k], direction).x == c.x
                && rotated_observation(observations[k], direction).y == c.y && rotated_observation(
                observations[k],
                direction,
            ).z == c.z;
        let o = rotated_observation(observations[k], direction);
        let g = find_group(groups, o.x, o.y, o.z);
        lemma_find_group_bounds(groups, o.x, o.y, o.z);
        assert(0 <= g < groups.len());
        assert forall|i: int| 0 <= i < 16 implies (#[trigger] has_index(groups[g].mask, i)
            <==> has_index(c.accepted_indices, i)) by {}
        lemma_same_bits(groups[g].mask, c.accepted_indices);
        assert(constraint_of(groups[g]) == c);
        lemma_usable_holds(groups, g);
        assert(usable.to_multiset().count(c) > 0);
        assert(plan.constraints.to_multiset().count(c) > 0);
    }
    // Conflicts.
    let offset = Int3 { x: x as i32, y: y as i32, z: z as i32 };
    if conflicts.contains(offset) {
        assert(conflicts.to_multiset().count(offset) > 0);
        assert(forced_offsets(groups).contains(offset));
        lemma_forced_origin(groups, offset);
        let g = choose|g: int| 0 <= g < groups.len() && groups[g].mask == 0 && #[trigger] offset_of(groups[g]) == offset;
        assert(groups[g].x == x && groups[g].y == y && groups[g].z == z);
        assert(block_seen(observations, direction, n, groups[g].x, groups[g].y, groups[g].z));
        assert forall|index: int| 0 <= index < 16 implies !#[trigger] block_accepts(
            observations,
            algorithm,
            direction,
            n,
            x,
            y,
            z,
            index,
        ) by {
            let k = index as u16;
            assert(0u16 & (1u16 << k) == 0) by (bit_vector);
            assert(!has_index(groups[g].mask, index));
        }
    }
    if block_seen(observations, direction, n, x, y, z) && (forall|index: int|
        0 <= index < 16 ==> !#[trigger] block_accepts(
            observations,
            algorithm,
            direction,
            n,
            x,
            y,
            z,
            index,
        )) {
        let k = choose|k: int|
            0 <= k < n && #[trigger] rotated_observation(observations[k], direction).x == x
                && rotated_observation(observations[k], direction).y == y && rotated_observation(
                observations[k],
                direction,
            ).z == z;
        let o = rotated_observation(observations[k], direction);
        let g = find_group(groups, o.x, o.y, o.z);
        lemma_find_group_bounds(groups, o.x, o.y, o.z);
        assert forall|i: int| 0 <= i < 16 implies !#[trigger] has_index(groups[g].mask, i) by {
            assert(!block_accepts(observations, algorithm, direction, n, x, y, z, i));
        }
        lemma_zero_bits(groups[g].mask);
        lemma_forced_holds(groups, g);
        assert(offset_of(groups[g]) == offset);
        assert(forced_offsets(groups).to_multiset().count(offset) > 0);
        assert(conflicts.to_multiset().count(offset) > 0);
    }
}

/// Whether one direction alone refuses the filter: its blocks mix
/// selector families, it has more constraints than the GPU layout holds,
/// or it fits the tolerance with no usable constraint.
pub open spec fn direction_refused(
    observations: Seq<RotationInfo>,
    algorithm: TextureAlgorithm,
    direction: i32,
    tolerance: i32,
) -> bool {
    match grouped(observations, algorithm, direction) {
        Err(_) => true,
        Ok(groups) => {
            let plan = direction_plan(groups);
            plan.constraints.len() > MAX_FILTER_COUNT || (plan.constraints.len() == 0
                && plan.forced_errors <= tolerance)
        },
    }
}

/// Whether a direction can still match: its forced errors fit the tolerance.
pub open spec fn direction_viable(
    observations: Seq<RotationInfo>,
    algorithm: TextureAlgorithm,
    direction: i32,
    tolerance: i32,
) -> bool {
    match grouped(observations, algorithm, direction) {
        Err(_) => false,
        Ok(groups) => direction_plan(groups).forced_errors <= tolerance,
    }
}

proof fn lemma_prepare_prefix_refused(
    observations: Seq<RotationInfo>,
    algorithm: TextureAlgorithm,
    directions: Seq<i32>,
    tolerance: i32,
    count: nat,
)
    requires
        count <= directions.len(),
    ensures
        prepare_prefix(observations, algorithm, directions, tolerance, count) is Err <==> exists|j: int|
            0 <= j < count && #[trigger] direction_refused(observations, algorithm, directions[j], tolerance),
        prepare_prefix(observations, algorithm, directions, tolerance, count) matches Ok((_, _, viable))
            ==> (viable > 0 <==> exists|j: int|
            0 <= j < count && #[trigger] direction_viable(observations, algorithm, directions[j], tolerance)),
    decreases count,
{
    if count > 0 {
        let c = (count - 1) as nat;
        lemma_prepare_prefix_refused(observations, algorithm, directions, tolerance, c);
        let d = directions[count - 1];
        if direction_refused(observations, algorithm, d, tolerance) {
            assert(direction_refused(observations, algorithm, directions[count - 1], tolerance));
        }
        if direction_viable(observations, algorithm, d, tolerance) {
            assert(direction_viable(observations, algorithm, directions[count - 1], tolerance));
        }
        if exists|j: int|
            0 <= j < count && #[trigger] direction_refused(observations, algorithm, directions[j], tolerance) {
            let j = choose|j: int|
                0 <= j < count && #[trigger] direction_refused(observations, algorithm, directions[j], tolerance);
            if j < count - 1 {
                assert(exists|i: int|
                    0 <= i < c && #[trigger] direction_refused(observations, algorithm, directions[i], tolerance));
            }
        }
        if exists|j: int|
            0 <= j < count && #[trigger] direction_viable(observations, algorithm, directions[j], tolerance) {
            let j = choose|j: int|
                0 <= j < count && #[trigger] direction_viable(observations, algorithm, directions[j], tolerance);
            if j < count - 1 {
                assert(exists|i: int|
                    0 <= i < c && #[trigger] direction_viable(observations, algorithm, directions[i], tolerance));
            }
        }
    }
}

/// When filter preparation fails: exactly when some direction refuses the
/// filter on its own (mixed selector families at a block, more constraints
/// than the GPU layout holds, or no usable constraint while its forced
/// errors fit the tolerance), or when no direction's forced errors fit the
/// tolerance (so in particular when no direction is given).
pub proof fn lemma_prepare_fails_exactly(
    observations: Seq<RotationInfo>,
    algorithm: TextureAlgorithm,
    directions: Seq<i32>,
    tolerance: i32,
)
    ensures
        prepared_filters(observations, algorithm, directions, tolerance) is Err <==> (exists|j: int|
            0 <= j < directions.len() && #[trigger] direction_refused(
                observations,
                algorithm,
                directions[j],
                tolerance,
            )) || !(exists|j: int|
            0 <= j < directions.len() && #[trigger] direction_viable(
                observations,
                algorithm,
                directions[j],
                tolerance,
            )),
{
    lemma_prepare_prefix_refused(observations, algorithm, directions, tolerance, directions.len());
}

/// A four-way observation accepts exactly the model indices that show its
/// rotation: bit `index` of its mask is set when, and only when, that
/// index's visible four-way rotation is the observed one. So the
/// constraint holds at a block exactly when the block's 4-way texture
/// variant is the observed rotation.
pub proof fn lemma_four_way_mask(
    observation: RotationInfo,
    algorithm: TextureAlgorithm,
    index: int,
    x: i32,
    y: i32,
    z: i32,
)
    requires
        observation.kind == RotationKind::StandardFourWay,
        0 <= index < 16,
    ensures
        has_index(observation_mask(observation, algorithm), index) <==> visible_rotation(
            algorithm,
            index as u8,
        ) == observation.rotation,
        has_index(
            observation_mask(observation, algorithm),
            crate::texture::texture_variant(algorithm, x, y, z, 16),
        ) <==> crate::texture::texture_variant(algorithm, x, y, z, 4) == observation.rotation,
{
    lemma_observation_mask(observation, algorithm, index);
    crate::texture::lemma_texture_variant_in_range(algorithm, x, y, z, 16);
    let v = crate::texture::texture_variant(algorithm, x, y, z, 16);
    lemma_observation_mask(observation, algorithm, v);
    lemma_sixteen_way_refines_four_way(algorithm, x, y, z);
}

/// A side observation accepts exactly the model indices whose visible
/// four-way rotation has the observed low bit.
pub proof fn lemma_side_mask(observation: RotationInfo, algorithm: TextureAlgorithm, index: int)
    requires
        observation.kind == RotationKind::StandardSide,
        0 <= index < 16,
    ensures
        has_index(observation_mask(observation, algorithm), index) <==> visible_rotation(
            algorithm,
            index as u8,
        ) & 1u8 == observation.rotation,
{
    lemma_observation_mask(observation, algorithm, index);
}

} // verus!
