use coordsfinder::texture::get_texture;
use coordsfinder::types::TextureAlgorithm;

#[test]
fn matches_texture_rotations_reference_vectors() {
    let algorithms = [
        TextureAlgorithm::Vanilla1,
        TextureAlgorithm::Vanilla2,
        TextureAlgorithm::Vanilla3,
        TextureAlgorithm::Sodium1,
        TextureAlgorithm::Sodium2,
    ];
    let vectors = [
        (0, 0, 0, [0, 0, 2, 3, 2]),
        (1, 2, 3, [0, 2, 3, 2, 0]),
        (-1, -2, -3, [3, 3, 0, 1, 0]),
        (353, -60, -53, [2, 2, 0, 1, 3]),
        (-29_999_984, -64, 29_999_983, [1, 2, 1, 3, 0]),
        (29_999_999, 319, -29_999_999, [3, 3, 2, 3, 3]),
        (-538, 67, -575, [3, 3, 1, 0, 2]),
        (17, -4, -31, [3, 0, 3, 0, 3]),
        (1_000_000, 319, -1_000_000, [0, 0, 2, 0, 0]),
        (-30_000_000, -64, 30_000_000, [0, 2, 0, 0, 2]),
        (1_234_567, 72, -7_654_321, [0, 1, 2, 2, 1]),
        (-16_777_216, 255, 16_777_215, [3, 2, 3, 1, 1]),
        (31, 63, 127, [1, 1, 1, 2, 2]),
        (-32, -64, -128, [1, 2, 0, 0, 0]),
        (4096, 0, 4096, [3, 0, 3, 2, 3]),
        (-4096, 1, -4096, [1, 1, 0, 2, 1]),
    ];

    for (x, y, z, expected) in vectors {
        for (index, algorithm) in algorithms.into_iter().enumerate() {
            assert_eq!(get_texture(algorithm, x, y, z, 4), expected[index]);
        }
    }
}

#[test]
fn variants_stay_below_the_requested_count() {
    let algorithms = [
        TextureAlgorithm::Vanilla1,
        TextureAlgorithm::Vanilla2,
        TextureAlgorithm::Vanilla3,
        TextureAlgorithm::Sodium1,
        TextureAlgorithm::Sodium2,
    ];
    for algorithm in algorithms {
        for variants in [1u8, 2, 3, 4, 5, 7, 16, 100, 255] {
            for x in -20..20 {
                let value = get_texture(algorithm, x, x * 3 - 7, -x * 11, variants);
                assert!(value < variants);
            }
        }
    }
}

#[test]
fn non_power_of_two_vanilla3_uses_rejection_sampling() {
    // With a bound of 1 every algorithm must answer 0.
    assert_eq!(get_texture(TextureAlgorithm::Vanilla3, 5, 6, 7, 1), 0);
    // Bound 3 takes the rejection path; the result is a valid remainder.
    let value = get_texture(TextureAlgorithm::Vanilla3, 5, 6, 7, 3);
    assert!(value < 3);
}

#[test]
fn sixteen_way_sample_refines_four_way_sample() {
    let algorithms = [
        TextureAlgorithm::Vanilla1,
        TextureAlgorithm::Vanilla2,
        TextureAlgorithm::Vanilla3,
        TextureAlgorithm::Sodium1,
        TextureAlgorithm::Sodium2,
    ];
    for algorithm in algorithms {
        for x in -30..30 {
            let four = get_texture(algorithm, x, 64, x * 5, 4);
            let sixteen = get_texture(algorithm, x, 64, x * 5, 16);
            let visible = if algorithm == TextureAlgorithm::Vanilla3 { sixteen >> 2 } else { sixteen & 3 };
            assert_eq!(visible, four);
        }
    }
}
