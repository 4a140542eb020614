use hog_features::grayimg::{gray_dimensions, gray_from_vec, gray_into_vec, gray_new};

#[test]
fn fresh_buffers_are_black() {
    let b = gray_new(3, 2);
    assert_eq!(gray_dimensions(&b), (3, 2));
    assert_eq!(gray_into_vec(b), vec![0u8; 6]);
}

#[test]
fn buffers_round_trip_their_samples() {
    let samples = vec![1u8, 2, 3, 4, 5, 6, 7, 8, 9, 10, 11, 12];
    let b = gray_from_vec(4, 3, samples.clone());
    assert_eq!(gray_dimensions(&b), (4, 3));
    assert_eq!(gray_into_vec(b), samples);
}
