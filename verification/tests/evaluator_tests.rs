use image_evaluator::distance_field::DistanceField;
use image_evaluator::evaluator::ImageEvaluator;
use image_evaluator::EvaluationError;

fn grid_filled(rows: usize, cols: usize, value: u8) -> Vec<Vec<u8>> {
    let mut g = Vec::new();
    for _ in 0..rows {
        let mut row = Vec::new();
        for _ in 0..cols {
            row.push(value);
        }
        g.push(row);
    }
    g
}

fn zero_heatmap(rows: usize, cols: usize) -> DistanceField {
    let mut data = Vec::new();
    for _ in 0..rows * cols {
        data.push(0i32);
    }
    let ser = image_evaluator::streaming_evaluator::SerializableHeatmap {
        data,
        shape: (rows, cols),
    };
    ser.to_field().unwrap()
}

#[test]
fn test_extract_non_background_pixels() {
    let evaluator = ImageEvaluator::new(false);
    let mut image = grid_filled(3, 3, 255);
    image[1][1] = 0;
    image[2][2] = 100;

    let pixels = evaluator.extract_non_background_pixels(&image, 255);
    assert_eq!(pixels.len(), 2);
    assert!(pixels.contains(&(1, 1)));
    assert!(pixels.contains(&(2, 2)));
}

#[test]
fn test_fill_heatmap() {
    let evaluator = ImageEvaluator::new(false);
    let pixels = vec![(1, 1)];
    let heatmap = DistanceField::unvisited(3, 3);

    let result = evaluator.fill_heatmap(&pixels, heatmap).unwrap();

    assert_eq!(result.distance_at(1, 1), 0); // Source pixel
    assert_eq!(result.distance_at(0, 1), 1); // Adjacent pixel
    assert_eq!(result.distance_at(1, 0), 1); // Adjacent pixel
    assert_eq!(result.distance_at(0, 0), 2); // Diagonal pixel
}

#[test]
fn test_new_evaluator() {
    let evaluator = ImageEvaluator::new(true);
    assert!(evaluator.bg_transparent);

    let evaluator = ImageEvaluator::new(false);
    assert!(!evaluator.bg_transparent);
}

#[test]
fn test_empty_drawing_validation() {
    let evaluator = ImageEvaluator::new(false);
    let reference_pixels = vec![(100, 100), (101, 101)];
    let observation_pixels = vec![]; // Empty observation

    let reference_heatmap = zero_heatmap(500, 500);
    let observation_heatmap = zero_heatmap(500, 500);

    let result = evaluator.calculate_error_percentage(
        &reference_heatmap,
        &observation_heatmap,
        &reference_pixels,
        &observation_pixels,
    );

    assert!(result.is_err());
    assert!(result.unwrap_err().message().contains("empty"));
}

#[test]
fn test_empty_reference_validation() {
    let evaluator = ImageEvaluator::new(false);
    let reference_pixels = vec![]; // Empty reference
    let observation_pixels = vec![(100, 100)];

    let result = evaluator.calculate_error_percentage(
        &zero_heatmap(500, 500),
        &zero_heatmap(500, 500),
        &reference_pixels,
        &observation_pixels,
    );

    assert!(result.is_err());
    assert!(result.unwrap_err().message().contains("no drawing content"));
}

#[test]
fn test_build_rejects_empty_source_set() {
    match DistanceField::build(&vec![], 3, 3) {
        Err(e) => assert_eq!(e, EvaluationError::EmptySourceSet),
        Ok(_) => panic!("an empty source set must be rejected"),
    }
}

#[test]
fn test_build_equals_extend_from_unvisited() {
    let sources = vec![(0, 2), (4, 1)];
    let built = DistanceField::build(&sources, 5, 5).unwrap();
    let mut extended = DistanceField::unvisited(5, 5);
    extended.extend(&sources);
    for y in 0..5 {
        for x in 0..5 {
            assert_eq!(built.distance_at(y, x), extended.distance_at(y, x));
        }
    }
}

#[test]
fn test_batched_extends_match_single_build() {
    let b1 = vec![(0, 0), (3, 4)];
    let b2 = vec![(2, 2), (0, 0)];
    let mut whole = Vec::new();
    whole.extend_from_slice(&b1);
    whole.extend_from_slice(&b2);

    let mut batched = DistanceField::unvisited(6, 6);
    batched.extend(&b1);
    batched.extend(&b2);
    let all_at_once = DistanceField::build(&whole, 6, 6).unwrap();
    for y in 0..6 {
        for x in 0..6 {
            assert_eq!(batched.distance_at(y, x), all_at_once.distance_at(y, x));
        }
    }
}

#[test]
fn test_extend_never_increases_distances() {
    let mut field = DistanceField::build(&vec![(4, 4)], 5, 5).unwrap();
    let mut before = Vec::new();
    for y in 0..5 {
        for x in 0..5 {
            before.push(field.distance_at(y, x));
        }
    }
    field.extend(&vec![(0, 0), (2, 3)]);
    for y in 0..5 {
        for x in 0..5 {
            assert!(field.distance_at(y, x) <= before[y * 5 + x]);
        }
    }
}

#[test]
fn test_evaluate_grids_exact_metrics() {
    // Reference pixel (1,1) and observation pixel (0,0) on a 3x3 canvas;
    // both drawn grids live in the top-left corner of the 500x500 canvas,
    // so each side reads the cross-distance 2 and every distance lands in
    // aggregation block (0,0).
    let evaluator = ImageEvaluator::new(false);
    let mut reference = grid_filled(3, 3, 255);
    reference[1][1] = 0;
    let mut observation = grid_filled(3, 3, 255);
    observation[0][0] = 0;

    let metrics = evaluator.evaluate_grids(&reference, &observation).unwrap();
    assert_eq!(metrics.pixel_count, 1);
    assert_eq!(metrics.error_sum, 4);
    assert_eq!(metrics.error_count, 2);
    assert_eq!(metrics.top_5_sum, 2);
    let top5 = metrics.top_5_sum as f64 / 25.0;
    let mean = metrics.error_sum as f64 / (metrics.error_count as f64 * 5.0) * 100.0;
    assert_eq!(top5, 0.08);
    assert_eq!(mean, 40.0);
}

#[test]
fn test_evaluate_grids_empty_sides() {
    let evaluator = ImageEvaluator::new(false);
    let blank = grid_filled(3, 3, 255);
    let mut drawn = grid_filled(3, 3, 255);
    drawn[1][1] = 0;

    let r = evaluator.evaluate_grids(&blank, &drawn);
    assert_eq!(r.unwrap_err(), EvaluationError::EmptyReference);
    let r = evaluator.evaluate_grids(&drawn, &blank);
    assert_eq!(r.unwrap_err(), EvaluationError::EmptyObservation);
}

#[test]
fn test_crop_region_copies_window() {
    let mut image = grid_filled(4, 6, 0);
    image[2][3] = 9;
    image[1][1] = 7;
    let window = image_evaluator::evaluator::crop_region(&image, 1, 1, 3, 4);
    assert_eq!(window.len(), 3);
    assert_eq!(window[0].len(), 4);
    assert_eq!(window[0][0], 7);
    assert_eq!(window[1][2], 9);
}

#[test]
fn test_error_messages() {
    assert_eq!(
        EvaluationError::EmptyReference.message(),
        "Reference image contains no drawing content"
    );
    assert_eq!(
        EvaluationError::EmptyObservation.message(),
        "Observation drawing is empty - no content to evaluate"
    );
    assert_eq!(
        EvaluationError::InvalidSerializedShape.message(),
        "Invalid serialized heatmap data"
    );
    assert_eq!(
        EvaluationError::EmptySourceSet.message(),
        "Distance field source set is empty"
    );
}
