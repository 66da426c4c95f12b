use image_evaluator::observation::Image;
use image_evaluator::observation::Observation;

#[test]
fn test_total_non_white_pixels_calculation() {
    let obs1 = Observation::new(Image::standard_white(None));
    assert_eq!(obs1.get_total_non_white_pixels(), 0);

    let mut image2 = Image::standard_white(None);
    image2.set_pixel(0, 0, [0, 0, 0, 255]);
    image2.set_pixel(0, 1, [255, 0, 0, 255]);
    image2.set_pixel(0, 2, [0, 255, 0, 255]);
    image2.set_pixel(0, 3, [0, 0, 255, 255]);
    let obs2 = Observation::new(image2);
    assert_eq!(obs2.get_total_non_white_pixels(), 4);
}

#[test]
fn test_set_pixel_updates_histogram() {
    let mut image = Image::standard_white(Some((4, 4)));
    image.set_pixel(2, 3, [1, 2, 3, 255]);
    image.set_pixel(2, 3, [255, 255, 255, 255]);
    let obs = Observation::new(image);
    assert_eq!(obs.get_total_non_white_pixels(), 0);
}

#[test]
fn test_finish_observation_is_sticky() {
    let mut obs = Observation::new(Image::standard_white(Some((2, 2))));
    assert!(obs.get_end_time().is_none());
    obs.finish_observation();
    let first_end = obs.get_end_time();
    assert!(first_end.is_some());
    obs.finish_observation();
    assert_eq!(obs.get_end_time(), first_end);
    let duration = obs.get_duration();
    assert!(obs.get_start_time() + duration >= obs.get_start_time());
}
