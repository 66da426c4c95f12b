use image_evaluator::streaming_evaluator::StreamingEvaluator;
use image_evaluator::EvaluationError;

fn white_canvas() -> Vec<Vec<u8>> {
    let mut g = Vec::new();
    for _ in 0..500 {
        let mut row = Vec::new();
        for _ in 0..500 {
            row.push(255u8);
        }
        g.push(row);
    }
    g
}

#[test]
fn test_streaming_evaluator_creation() {
    let mut reference = white_canvas();
    reference[100][100] = 0;
    reference[101][101] = 0;

    let evaluator = StreamingEvaluator::from_reference_arrays(reference, false);
    assert!(evaluator.is_ok());
}

#[test]
fn test_incremental_pixel_addition() {
    let mut reference = white_canvas();
    reference[100][100] = 0;

    let mut evaluator = StreamingEvaluator::from_reference_arrays(reference, false).unwrap();

    // Add some observation pixels
    let new_pixels = vec![(95, 95), (96, 96)];
    let error = evaluator.add_observation_pixels(&new_pixels).unwrap();

    assert!(error > 0);
    assert_eq!(evaluator.observation_pixel_count(), 2);
}

#[test]
fn test_serialization_roundtrip() {
    let mut reference = white_canvas();
    reference[100][100] = 0;

    let evaluator1 = StreamingEvaluator::from_reference_arrays(reference, false).unwrap();
    let state = evaluator1.export_state();
    let evaluator2 = StreamingEvaluator::from_serialized_state(state).unwrap();

    assert_eq!(
        evaluator1.reference_pixel_count(),
        evaluator2.reference_pixel_count()
    );
}

#[test]
fn test_three_by_three_scenario() {
    // Reference pixels {(1,1)} on a 3x3 canvas: the full build yields the
    // distances [[2,1,2],[1,0,1],[2,1,2]].
    let built = image_evaluator::distance_field::DistanceField::build(&vec![(1, 1)], 3, 3)
        .unwrap();
    let expected = [[2, 1, 2], [1, 0, 1], [2, 1, 2]];
    for y in 0..3 {
        for x in 0..3 {
            assert_eq!(built.distance_at(y, x), expected[y][x]);
        }
    }

    // The same reference in a session with the aggregation grid scaled to
    // the canvas: one block per cell.
    let mut session =
        StreamingEvaluator::with_config(vec![(1, 1)], 3, 3, 1, 3, false).unwrap();
    // Adding observation pixel (0,0) reads cross-distance 2 at that pixel,
    // and the reference pixel reads cross-distance 2 in the observation
    // field, so two blocks hold 2 and the top-5 sum is 4.
    let top5 = session.add_observation_pixels(&vec![(0, 0)]).unwrap();
    assert_eq!(top5, 4);
    assert_eq!(top5 as f64 / 25.0, 0.16);

    let metrics = session.get_full_evaluation().unwrap();
    assert_eq!(metrics.error_sum, 4);
    assert_eq!(metrics.error_count, 2);
    assert_eq!(metrics.pixel_count, 1);
    assert_eq!(metrics.top_5_sum, 4);
    let mean = metrics.error_sum as f64 / (metrics.error_count as f64 * 5.0) * 100.0;
    assert_eq!(mean, 40.0);
}

#[test]
fn test_add_observation_is_idempotent() {
    let mut session =
        StreamingEvaluator::with_config(vec![(1, 1)], 3, 3, 1, 3, false).unwrap();
    let batch = vec![(0, 0), (2, 2)];
    let first = session.add_observation_pixels(&batch).unwrap();
    let count = session.observation_pixel_count();
    let metrics_first = session.get_full_evaluation().unwrap();

    let second = session.add_observation_pixels(&batch).unwrap();
    assert_eq!(first, second);
    assert_eq!(session.observation_pixel_count(), count);
    let metrics_second = session.get_full_evaluation().unwrap();
    assert_eq!(metrics_first.top_5_sum, metrics_second.top_5_sum);
    assert_eq!(metrics_first.error_sum, metrics_second.error_sum);
    assert_eq!(metrics_first.error_count, metrics_second.error_count);
    assert_eq!(metrics_first.grid, metrics_second.grid);
}

#[test]
fn test_reset_observation_restores_fresh_results() {
    let mut session =
        StreamingEvaluator::with_config(vec![(1, 1)], 3, 3, 1, 3, false).unwrap();
    session.add_observation_pixels(&vec![(0, 1), (2, 0)]).unwrap();

    session.reset_observation();
    let r = session.get_full_evaluation();
    assert_eq!(r.unwrap_err(), EvaluationError::EmptyObservation);
    assert_eq!(session.observation_pixel_count(), 0);
    assert_eq!(session.get_current_top5_error(), 0);

    // After the reset, the same observation reproduces what a fresh session
    // reports for it.
    let mut fresh = StreamingEvaluator::with_config(vec![(1, 1)], 3, 3, 1, 3, false).unwrap();
    let batch = vec![(0, 0)];
    let replayed = session.add_observation_pixels(&batch).unwrap();
    let fresh_score = fresh.add_observation_pixels(&batch).unwrap();
    assert_eq!(replayed, fresh_score);
    let m1 = session.get_full_evaluation().unwrap();
    let m2 = fresh.get_full_evaluation().unwrap();
    assert_eq!(m1.top_5_sum, m2.top_5_sum);
    assert_eq!(m1.error_sum, m2.error_sum);
    assert_eq!(m1.error_count, m2.error_count);
    assert_eq!(m1.pixel_count, m2.pixel_count);
    assert_eq!(m1.grid, m2.grid);
}

#[test]
fn test_roundtrip_preserves_reference_and_results() {
    let mut reference = white_canvas();
    reference[100][100] = 0;
    reference[250][400] = 0;

    let mut original = StreamingEvaluator::from_reference_arrays(reference, false).unwrap();
    let state = original.export_state();
    let heatmap_data = state.reference_heatmap.data.clone();
    let pixel_list = state.reference_pixels.clone();

    let mut restored = StreamingEvaluator::from_serialized_state(state).unwrap();

    // The restored reference side is element-wise identical.
    let reexported = restored.export_state();
    assert_eq!(reexported.reference_heatmap.data, heatmap_data);
    assert_eq!(reexported.reference_heatmap.shape, (500, 500));
    assert_eq!(reexported.reference_pixels, pixel_list);
    assert!(!reexported.bg_transparent);

    // Subsequent updates match the original session.
    let batch = vec![(90, 90), (110, 130)];
    let s1 = original.add_observation_pixels(&batch).unwrap();
    let s2 = restored.add_observation_pixels(&batch).unwrap();
    assert_eq!(s1, s2);
    let m1 = original.get_full_evaluation().unwrap();
    let m2 = restored.get_full_evaluation().unwrap();
    assert_eq!(m1.top_5_sum, m2.top_5_sum);
    assert_eq!(m1.error_sum, m2.error_sum);
    assert_eq!(m1.error_count, m2.error_count);
    assert_eq!(m1.pixel_count, m2.pixel_count);
    assert_eq!(m1.grid, m2.grid);
}

#[test]
fn test_out_of_bounds_pixels_are_ignored() {
    let mut session =
        StreamingEvaluator::with_config(vec![(1, 1)], 3, 3, 1, 3, false).unwrap();
    let in_bounds_score = session.add_observation_pixels(&vec![(0, 0)]).unwrap();
    let count = session.observation_pixel_count();

    // A batch entirely outside [0,3)x[0,3) is accepted and changes nothing.
    let stray = vec![(3, 0), (0, 3), (1000, 1000)];
    let score = session.add_observation_pixels(&stray).unwrap();
    assert_eq!(score, in_bounds_score);
    assert_eq!(session.observation_pixel_count(), count);
    let metrics = session.get_full_evaluation().unwrap();
    assert_eq!(metrics.error_count, 2);
}

#[test]
fn test_invalid_serialized_shape_is_rejected() {
    let ser = image_evaluator::streaming_evaluator::SerializableHeatmap {
        data: vec![0, 0, 0, 0, 0],
        shape: (2, 3),
    };
    match ser.to_field() {
        Err(e) => assert_eq!(e, EvaluationError::InvalidSerializedShape),
        Ok(_) => panic!("a mismatched shape must be rejected"),
    }

    let state = image_evaluator::streaming_evaluator::StreamingEvaluatorState {
        reference_heatmap: image_evaluator::streaming_evaluator::SerializableHeatmap {
            data: vec![1, 2, 3],
            shape: (2, 2),
        },
        reference_pixels: vec![(0, 0)],
        bg_transparent: false,
    };
    match StreamingEvaluator::from_serialized_state(state) {
        Err(e) => assert_eq!(e, EvaluationError::InvalidSerializedShape),
        Ok(_) => panic!("a mismatched shape must be rejected"),
    }
}

#[test]
fn test_empty_reference_is_rejected() {
    let blank = white_canvas();
    match StreamingEvaluator::from_reference_arrays(blank, false) {
        Err(e) => assert_eq!(e, EvaluationError::EmptyReference),
        Ok(_) => panic!("an empty reference must be rejected"),
    }
}
