use folio::colorpalette::{extract_palette, PaletteError, PaletteExtractionAlgorithm};
use folio::median_cut::median_cut;

const ALL: [PaletteExtractionAlgorithm; 3] = [
    PaletteExtractionAlgorithm::MedianCut,
    PaletteExtractionAlgorithm::MeanCut,
    PaletteExtractionAlgorithm::ModeBisect,
];

fn sorted(mut v: Vec<[u8; 3]>) -> Vec<[u8; 3]> {
    v.sort();
    v
}

#[test]
fn empty_input_fails_for_every_depth_and_algorithm() {
    for alg in ALL.iter() {
        for depth in 0..6 {
            let mut values: Vec<[u8; 3]> = vec![];
            assert_eq!(
                extract_palette(&mut values, depth, alg),
                Err(PaletteError::EmptyInput)
            );
        }
    }
}

#[test]
fn single_sample_is_its_own_palette() {
    for alg in ALL.iter() {
        for depth in 0..5 {
            let mut values = vec![[12u8, 200, 7]];
            assert_eq!(extract_palette(&mut values, depth, alg), Ok(vec![[12, 200, 7]]));
        }
    }
}

#[test]
fn depth_zero_gives_the_truncated_mean() {
    for alg in ALL.iter() {
        let mut values = vec![[0u8, 10, 255], [1, 20, 255], [2, 31, 254]];
        assert_eq!(extract_palette(&mut values, 0, alg), Ok(vec![[1, 20, 254]]));
    }
}

#[test]
fn depth_zero_mean_does_not_overflow() {
    let mut values = vec![[255u8, 255, 255]; 1000];
    values.push([0, 0, 0]);
    let out = extract_palette(&mut values, 0, &PaletteExtractionAlgorithm::MedianCut);
    assert_eq!(out, Ok(vec![[254, 254, 254]]));
}

#[test]
fn scenario_median_cut_splits_four_samples_in_two() {
    let mut values = vec![[0u8, 0, 0], [10, 0, 0], [20, 0, 0], [30, 0, 0]];
    let out = extract_palette(&mut values, 1, &PaletteExtractionAlgorithm::MedianCut);
    assert_eq!(out, Ok(vec![[5, 0, 0], [25, 0, 0]]));
}

#[test]
fn scenario_two_samples_stay_apart_at_any_depth() {
    for alg in ALL.iter() {
        let mut values = vec![[0u8, 0, 0], [100, 0, 0]];
        assert_eq!(
            extract_palette(&mut values, 5, alg),
            Ok(vec![[0, 0, 0], [100, 0, 0]])
        );
    }
}

#[test]
fn scenario_identical_samples_all_average_to_themselves() {
    // Median cut splits by population, so every leaf holds copies of one
    // colour and every palette entry is that colour.
    let mut values = vec![[7u8, 7, 7]; 5];
    let out = extract_palette(&mut values, 3, &PaletteExtractionAlgorithm::MedianCut).unwrap();
    assert_eq!(out, vec![[7, 7, 7]; 5]);
}

#[test]
fn identical_samples_under_mean_cut_reduce_to_one_colour() {
    let mut values = vec![[7u8, 7, 7]; 5];
    let out = extract_palette(&mut values, 3, &PaletteExtractionAlgorithm::MeanCut);
    assert_eq!(out, Ok(vec![[7, 7, 7]]));
}

#[test]
fn identical_samples_under_mode_bisect_reduce_to_one_colour() {
    let mut values = vec![[7u8, 7, 7]; 5];
    let out = extract_palette(&mut values, 3, &PaletteExtractionAlgorithm::ModeBisect);
    assert_eq!(out, Ok(vec![[7, 7, 7]]));
}

#[test]
fn widest_channel_is_chosen_and_ties_take_the_first() {
    // Channel 1 has the widest range.
    let mut values = vec![[5u8, 0, 9], [6, 200, 9], [5, 100, 9], [6, 50, 9]];
    let out = extract_palette(&mut values, 1, &PaletteExtractionAlgorithm::MedianCut);
    assert_eq!(out, Ok(vec![[5, 25, 9], [5, 150, 9]]));
    // Channels 0 and 2 tie: channel 0 decides the order.
    let mut values = vec![[9u8, 0, 0], [0, 0, 9], [4, 0, 4]];
    let out = extract_palette(&mut values, 1, &PaletteExtractionAlgorithm::MedianCut);
    assert_eq!(out, Ok(vec![[0, 0, 9], [6, 0, 2]]));
}

#[test]
fn mean_cut_splits_after_the_mean() {
    let mut values = vec![[0u8, 0, 0], [1, 0, 0], [2, 0, 0], [90, 0, 0]];
    let out = extract_palette(&mut values, 1, &PaletteExtractionAlgorithm::MeanCut);
    assert_eq!(out, Ok(vec![[1, 0, 0], [90, 0, 0]]));
}

#[test]
fn mode_bisect_cuts_between_clusters() {
    let mut values = vec![
        [10u8, 0, 0],
        [200, 0, 0],
        [12, 0, 0],
        [201, 0, 0],
        [11, 0, 0],
        [202, 0, 0],
    ];
    let out = extract_palette(&mut values, 1, &PaletteExtractionAlgorithm::ModeBisect);
    assert_eq!(out, Ok(vec![[11, 0, 0], [201, 0, 0]]));
}

#[test]
fn mode_bisect_does_not_split_when_no_cut_helps() {
    // The whole bucket's deviation rounds down to 0, so no cut scores below
    // it: the bucket is never split and reduces to its mean.
    let mut values = vec![[0u8, 0, 0], [1, 0, 0], [0, 0, 0], [1, 0, 0]];
    let out = extract_palette(&mut values, 2, &PaletteExtractionAlgorithm::ModeBisect);
    assert_eq!(out, Ok(vec![[0, 0, 0]]));
}

#[test]
fn palette_size_is_bounded() {
    let mut seed: u32 = 12345;
    let mut values: Vec<[u8; 3]> = Vec::new();
    for _ in 0..300 {
        seed = seed.wrapping_mul(1103515245).wrapping_add(12345);
        let b = seed.to_be_bytes();
        values.push([b[0], b[1], b[2]]);
    }
    for alg in ALL.iter() {
        for depth in 0..6 {
            let mut v = values.clone();
            let out = extract_palette(&mut v, depth, alg).unwrap();
            assert!(out.len() >= 1);
            assert!(out.len() <= 1 << depth);
            assert!(out.len() <= values.len());
            assert_eq!(sorted(v), sorted(values.clone()));
        }
    }
}

#[test]
fn extraction_is_deterministic() {
    let values = vec![[3u8, 90, 1], [200, 4, 5], [17, 17, 17], [90, 91, 92], [0, 255, 128]];
    for alg in ALL.iter() {
        let mut a = values.clone();
        let mut b = values.clone();
        assert_eq!(extract_palette(&mut a, 3, alg), extract_palette(&mut b, 3, alg));
    }
}

#[test]
fn palette_entries_cover_the_input() {
    // Each of the two leaves is a singleton here, so the entries are the samples.
    let mut values = vec![[100u8, 5, 5], [0, 5, 5]];
    let out = extract_palette(&mut values, 1, &PaletteExtractionAlgorithm::MedianCut).unwrap();
    assert_eq!(sorted(out), sorted(vec![[100, 5, 5], [0, 5, 5]]));
}

#[test]
fn median_cut_matches_extract_palette() {
    let values = vec![[0u8, 0, 0], [10, 0, 0], [20, 0, 0], [30, 0, 0]];
    let mut a = values.clone();
    assert_eq!(median_cut(&mut a, 1), Some(vec![[5, 0, 0], [25, 0, 0]]));
    let mut empty: Vec<[u8; 3]> = vec![];
    assert_eq!(median_cut(&mut empty, 2), None);
}

#[test]
fn depth_zero_leaves_samples_in_place() {
    for alg in ALL.iter() {
        let original = vec![[30u8, 1, 2], [0, 9, 9], [15, 200, 3]];
        let mut values = original.clone();
        extract_palette(&mut values, 0, alg).unwrap();
        assert_eq!(values, original);
    }
    let original = vec![[1u8, 2, 3], [4, 5, 6], [255, 255, 255]];
    let mut values = original.clone();
    assert_eq!(median_cut(&mut values, 0), Some(vec![[86, 87, 88]]));
    assert_eq!(values, original);
}

#[test]
fn sorted_samples_stay_in_place() {
    let original = vec![[0u8, 0, 0], [10, 0, 0], [20, 0, 0], [30, 0, 0]];
    let mut values = original.clone();
    extract_palette(&mut values, 1, &PaletteExtractionAlgorithm::MedianCut).unwrap();
    assert_eq!(values, original);
    for alg in ALL.iter() {
        let original = vec![[0u8, 0, 0], [100, 0, 0]];
        let mut values = original.clone();
        extract_palette(&mut values, 5, alg).unwrap();
        assert_eq!(values, original);
    }
    let original = vec![[0u8, 0, 10], [10, 0, 0]];
    let mut values = original.clone();
    let out = extract_palette(&mut values, 1, &PaletteExtractionAlgorithm::MedianCut);
    assert_eq!(out, Ok(vec![[0, 0, 10], [10, 0, 0]]));
    assert_eq!(values, original);
}

#[test]
fn samples_end_sorted_by_the_split_channel() {
    let mut values = vec![[5u8, 0, 9], [6, 200, 9], [5, 100, 9], [6, 50, 9]];
    extract_palette(&mut values, 1, &PaletteExtractionAlgorithm::MedianCut).unwrap();
    assert_eq!(values, vec![[5, 0, 9], [6, 50, 9], [5, 100, 9], [6, 200, 9]]);
}

#[test]
fn equal_inputs_leave_equal_slices() {
    let values = vec![[3u8, 90, 1], [200, 4, 5], [17, 17, 17], [90, 91, 92], [0, 255, 128]];
    for alg in ALL.iter() {
        let mut a = values.clone();
        let mut b = values.clone();
        extract_palette(&mut a, 3, alg).unwrap();
        extract_palette(&mut b, 3, alg).unwrap();
        assert_eq!(a, b);
    }
    let mut a = values.clone();
    let mut b = values.clone();
    assert_eq!(
        median_cut(&mut a, 2),
        extract_palette(&mut b, 2, &PaletteExtractionAlgorithm::MedianCut).ok()
    );
    assert_eq!(a, b);
}
