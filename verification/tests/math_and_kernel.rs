use hog_features::kernel::{Kernel, SobelDirection};
use hog_features::mathq::{fold_orientation_udeg, isqrt, magnitude_q, orient_udeg};
use hog_features::grayimg::gray_from_vec;

#[test]
fn folding_maps_half_turn_to_zero() {
    // exactly 180 degrees folds to 0
    assert_eq!(fold_orientation_udeg(180_000_000), 0);
    // a tiny negative angle folds to just under 180 degrees
    assert_eq!(fold_orientation_udeg(-100), 179_999_900);
}

#[test]
fn folding_is_periodic() {
    assert_eq!(fold_orientation_udeg(0), 0);
    assert_eq!(fold_orientation_udeg(190_000_000), 10_000_000);
    assert_eq!(fold_orientation_udeg(-180_000_000), 0);
    assert_eq!(fold_orientation_udeg(360_000_000), 0);
    assert_eq!(fold_orientation_udeg(-30_000_000), 150_000_000);
}

#[test]
fn orientation_on_the_axes() {
    assert_eq!(orient_udeg(0, 5), 0);
    assert_eq!(orient_udeg(5, 0), 90_000_000);
    // a pure leftward gradient is a half turn, which folds to zero
    assert_eq!(orient_udeg(0, -5), 0);
    // a pure downward gradient folds onto ninety degrees
    assert_eq!(orient_udeg(-5, 0), 90_000_000);
    assert_eq!(orient_udeg(0, 0), 0);
}

#[test]
fn orientation_of_diagonals_is_near_forty_five() {
    let a = orient_udeg(1_000_000, 1_000_000);
    assert!(a >= 44_990_000 && a <= 45_010_000, "angle was {}", a);
    let b = orient_udeg(-1_000_000, 1_000_000);
    assert!(b >= 134_990_000 && b <= 135_010_000, "angle was {}", b);
}

#[test]
fn magnitude_is_the_euclidean_length() {
    assert_eq!(magnitude_q(3, 4), 5);
    assert_eq!(magnitude_q(-3, 4), 5);
    assert_eq!(magnitude_q(0, 0), 0);
    assert_eq!(magnitude_q(3_000_000, 4_000_000), 5_000_000);
}

#[test]
fn integer_square_root_is_the_floor() {
    assert_eq!(isqrt(0), 0);
    assert_eq!(isqrt(1), 1);
    assert_eq!(isqrt(3), 1);
    assert_eq!(isqrt(4), 2);
    assert_eq!(isqrt(10_000_000), 3162);
    assert_eq!(isqrt(u64::MAX as u128), 4294967295);
}

#[test]
fn sobel_kernels_hold_the_fixed_weights() {
    let hk = Kernel::sobel(SobelDirection::Horizontal);
    assert_eq!(hk.height, 3);
    assert_eq!(hk.width, 3);
    assert_eq!(
        hk.content,
        vec![
            1_000_000, 2_000_000, 1_000_000, 0, 0, 0, -1_000_000, -2_000_000, -1_000_000
        ]
    );
    let vk = Kernel::sobel(SobelDirection::Vertical);
    assert_eq!(
        vk.content,
        vec![
            -1_000_000, 0, 1_000_000, -2_000_000, 0, 2_000_000, -1_000_000, 0, 1_000_000
        ]
    );
}

#[test]
fn gradient_kernels_vanish_on_constant_images() {
    let img = gray_from_vec(5, 5, vec![100; 25]);
    let hk = Kernel::sobel(SobelDirection::Horizontal);
    let vk = Kernel::sobel(SobelDirection::Vertical);
    assert_eq!(hk.apply_kernel_on_pixel(&img, 2, 2), 0);
    assert_eq!(vk.apply_kernel_on_pixel(&img, 2, 2), 0);
    // edge clamping keeps the result zero at the border too
    assert_eq!(hk.apply_kernel_on_pixel(&img, 0, 0), 0);
}

#[test]
fn neighborhood_sum_clamps_at_the_edges() {
    // 2 x 2 image, all-ones 3 x 3 kernel at the top left corner:
    // clamped neighbors are 10 10 20 / 10 10 20 / 30 30 40
    let img = gray_from_vec(2, 2, vec![10, 20, 30, 40]);
    let ones = Kernel::new(3, 3, vec![1_000_000; 9]);
    assert_eq!(ones.apply_kernel_on_pixel(&img, 0, 0), 180_000_000);
    // at the bottom right corner: 10 20 20 / 30 40 40 / 30 40 40
    assert_eq!(ones.apply_kernel_on_pixel(&img, 1, 1), 270_000_000);
}

#[test]
fn single_cell_kernel_scales_one_sample() {
    let img = gray_from_vec(3, 1, vec![5, 100, 9]);
    let k = Kernel::new(1, 1, vec![2_000_000]);
    assert_eq!(k.apply_kernel_on_pixel(&img, 1, 0), 200_000_000);
}
