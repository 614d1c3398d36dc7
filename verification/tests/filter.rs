use coordsfinder::filter::{
    acceptance_mask, compile_direction, prepare_filters, rotate_observation, rotations_fit_exec,
    NETHERRACK_FACE_ROTATIONS,
};
use coordsfinder::texture::get_texture;
use coordsfinder::types::{Face, RotationInfo, TextureAlgorithm};

#[test]
fn legacy_masks_reproduce_bound_four_sampling() {
    for algorithm in [
        TextureAlgorithm::Vanilla1,
        TextureAlgorithm::Vanilla2,
        TextureAlgorithm::Vanilla3,
        TextureAlgorithm::Sodium1,
        TextureAlgorithm::Sodium2,
    ] {
        for x in -12..=12 {
            for y in -3..=3 {
                let z = x * 17 - y * 31;
                let expected = get_texture(algorithm, x, y, z, 4);
                let index = get_texture(algorithm, x, y, z, 16);
                let full = RotationInfo::new(0, 0, 0, expected, false);
                let side = RotationInfo::new(0, 0, 0, expected & 1, true);
                assert_ne!(acceptance_mask(full, algorithm) & (1 << index), 0);
                assert_ne!(acceptance_mask(side, algorithm) & (1 << index), 0);
            }
        }
    }
}

#[test]
fn all_netherrack_faces_follow_yaw_direction_rules() {
    let faces = [
        Face::Up,
        Face::Down,
        Face::North,
        Face::South,
        Face::East,
        Face::West,
    ];
    for (index, rotations) in NETHERRACK_FACE_ROTATIONS.iter().enumerate() {
        let x_rotation = index % 4;
        let y_rotation = index / 4;
        for (face_index_value, face) in faces.into_iter().enumerate() {
            let rotation = rotations[face_index_value];
            for turns in 0..4_usize {
                let observation = RotationInfo::netherrack(0, 0, 0, rotation, face);
                let rotated = rotate_observation(observation, (turns * 90) as i32);
                let rotated_index = ((y_rotation + turns) % 4) * 4 + x_rotation;
                assert_ne!(
                    acceptance_mask(rotated, TextureAlgorithm::Vanilla3) & (1 << rotated_index),
                    0,
                    "index={index}, face={face:?}, turns={turns}"
                );
            }
        }
    }
}

#[test]
fn combines_correlated_netherrack_faces() {
    let observations = [
        RotationInfo::netherrack(0, 0, 0, 1, Face::Up),
        RotationInfo::netherrack(0, 0, 0, 3, Face::North),
        RotationInfo::netherrack(0, 0, 0, 2, Face::East),
    ];
    let prepared = prepare_filters(&observations, TextureAlgorithm::Vanilla3, &[0], 0).unwrap();
    assert_eq!(prepared.directions[0].constraints.len(), 1);
    assert_eq!(
        prepared.directions[0].constraints[0].accepted_indices,
        1 << 5
    );
}

#[test]
fn removes_recoverable_forced_errors() {
    let observations = [
        RotationInfo::netherrack(0, 0, 0, 0, Face::Up),
        RotationInfo::netherrack(0, 0, 0, 1, Face::Up),
        RotationInfo::new(1, 0, 0, 2, false),
    ];
    let prepared = prepare_filters(&observations, TextureAlgorithm::Vanilla3, &[0], 1).unwrap();
    assert_eq!(prepared.directions[0].forced_errors, 1);
    assert_eq!(prepared.directions[0].constraints.len(), 1);
    assert!(prepared.warning().is_some());
    assert!(prepare_filters(&observations, TextureAlgorithm::Vanilla3, &[0], 0).is_err());
}

#[test]
fn keeps_viable_directions_when_grouped_faces_rule_one_out() {
    let observations = [
        RotationInfo::new(0, 0, 0, 0, false),
        RotationInfo::new(0, 0, 0, 0, true),
    ];
    let prepared =
        prepare_filters(&observations, TextureAlgorithm::Vanilla1, &[0, 90], 0).unwrap();
    assert_eq!(prepared.directions[0].forced_errors, 0);
    assert_eq!(prepared.directions[1].forced_errors, 1);
    assert!(prepared.warning().is_some());
}

#[test]
fn rejects_mixed_selector_families_at_one_block() {
    let observations = [
        RotationInfo::new(0, 0, 0, 0, false),
        RotationInfo::netherrack(0, 0, 0, 0, Face::Up),
    ];
    assert!(
        prepare_filters(&observations, TextureAlgorithm::Vanilla3, &[0], 0)
            .unwrap_err()
            .contains("mixes ordinary and netherrack")
    );
}

#[test]
fn rotates_netherrack_faces_and_rotations() {
    let observations = [
        RotationInfo::netherrack(2, 0, -3, 0, Face::Up),
        RotationInfo::netherrack(2, 0, -3, 0, Face::Down),
        RotationInfo::netherrack(2, 0, -3, 0, Face::North),
    ];
    let (prepared, _) =
        compile_direction(&observations, TextureAlgorithm::Vanilla3, 90).unwrap();
    assert_eq!(prepared.constraints.len(), 1);
    // These transformed faces are jointly satisfied by model index 4.
    assert_ne!(prepared.constraints[0].accepted_indices & (1 << 4), 0);
    assert_eq!(
        (prepared.constraints[0].x, prepared.constraints[0].z),
        (3, 2)
    );
}

#[test]
fn exact_failure_messages() {
    let mixed = [
        RotationInfo::new(1, -2, 3, 0, false),
        RotationInfo::netherrack(1, -2, 3, 0, Face::Up),
    ];
    assert_eq!(
        prepare_filters(&mixed, TextureAlgorithm::Vanilla3, &[0], 0).unwrap_err(),
        "block offset (1, -2, 3) mixes ordinary and netherrack observations"
    );
    assert_eq!(
        prepare_filters(&[], TextureAlgorithm::Vanilla3, &[0], 0).unwrap_err(),
        "filter has no usable block constraints after combining observations"
    );
    let conflicting = [
        RotationInfo::netherrack(0, 0, 0, 0, Face::Up),
        RotationInfo::netherrack(0, 0, 0, 1, Face::Up),
        RotationInfo::new(1, 0, 0, 2, false),
    ];
    assert_eq!(
        prepare_filters(&conflicting, TextureAlgorithm::Vanilla3, &[0], 0).unwrap_err(),
        "combined observations exceed errorTolerance 0 in every requested direction \
         (direction 0 has 1 forced error(s))"
    );
}

#[test]
fn rotation_turns_offsets_clockwise() {
    let observation = RotationInfo::new(2, 5, -3, 1, false);
    let turned = rotate_observation(observation, 90);
    assert_eq!((turned.x, turned.y, turned.z, turned.rotation), (3, 5, 2, 2));
    let back = rotate_observation(observation, 180);
    assert_eq!((back.x, back.z, back.rotation), (-2, 3, 3));
}

#[test]
fn rotations_compose() {
    let samples = [
        RotationInfo::new(3, -2, 5, 1, false),
        RotationInfo::new(-7, 0, 2, 1, true),
        RotationInfo::netherrack(1, 1, -4, 2, Face::North),
        RotationInfo::netherrack(0, 2, 6, 3, Face::Up),
        RotationInfo::netherrack(-1, 0, 1, 0, Face::Down),
    ];
    let directions = [0, 90, 180, 270];
    for sample in samples {
        for first in directions {
            for second in directions {
                let twice = rotate_observation(rotate_observation(sample, first), second);
                assert_eq!(twice, rotate_observation(sample, (first + second) % 360));
            }
        }
    }
}

#[test]
fn rotations_that_overflow_are_detected() {
    let rows = [RotationInfo::new(0, 0, 0, 3, false), RotationInfo::new(1, 0, 0, 1, true)];
    assert!(rotations_fit_exec(&rows, &[0, 90, 180, 270]));
    let high = [RotationInfo { rotation: 253, ..RotationInfo::new(0, 0, 0, 0, false) }];
    assert!(rotations_fit_exec(&high, &[0, 180]));
    assert!(!rotations_fit_exec(&high, &[0, 270]));
}
