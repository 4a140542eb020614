use hog_features::feature_detect::{calc_hog, gradient_field, hog_hists, normalise_blocks};
use hog_features::grayimg::gray_from_vec;

fn flat(w: u32, h: u32, v: u8) -> Vec<u8> {
    vec![v; (w * h) as usize]
}

#[test]
fn flat_image_gives_all_zero_descriptor() {
    let img = gray_from_vec(32, 32, flat(32, 32, 77));
    let grads = gradient_field(&img);
    assert_eq!(grads.len(), 1024);
    for &(m, _) in &grads {
        assert_eq!(m, 0);
    }
    let img2 = gray_from_vec(32, 32, flat(32, 32, 77));
    let hog = calc_hog(img2);
    assert_eq!(hog.dimensions, (32, 32));
    assert_eq!(hog.cell_size, 8);
    assert_eq!(hog.block_size, 2);
    assert_eq!(hog.data.len(), 9);
    for row in &hog.data {
        assert_eq!(row.len(), 36);
        for &v in row {
            assert_eq!(v, 0);
        }
    }
}

fn vertical_edge(w: u32, h: u32) -> Vec<u8> {
    let mut d = Vec::new();
    for _y in 0..h {
        for x in 0..w {
            d.push(if x < w / 2 { 0 } else { 255 });
        }
    }
    d
}

#[test]
fn vertical_edge_concentrates_weight_near_ninety_degrees() {
    let img = gray_from_vec(16, 16, vertical_edge(16, 16));
    let hists = hog_hists(&img);
    assert_eq!(hists.len(), 4);
    let mut any_weight = false;
    for hist in &hists {
        assert_eq!(hist.len(), 9);
        // gradients point along the row axis, so the orientation is
        // exactly ninety degrees: an even split of bins four and five
        assert_eq!(hist[4], hist[5]);
        for (b, &v) in hist.iter().enumerate() {
            if b != 4 && b != 5 {
                assert_eq!(v, 0);
            }
        }
        if hist[4] > 0 {
            any_weight = true;
        }
    }
    assert!(any_weight);
}

fn ramp(w: u32, h: u32) -> Vec<u8> {
    let mut d = Vec::new();
    for y in 0..h {
        for x in 0..w {
            d.push((x + 30 * y) as u8);
        }
    }
    d
}

#[test]
fn histogram_bins_sum_to_cell_magnitudes() {
    let img = gray_from_vec(8, 8, ramp(8, 8));
    let grads = gradient_field(&img);
    let img2 = gray_from_vec(8, 8, ramp(8, 8));
    let hists = hog_hists(&img2);
    assert_eq!(hists.len(), 1);
    let bin_total: u64 = hists[0].iter().sum();
    let mag_total: u64 = grads.iter().map(|&(m, _)| m).sum();
    assert_eq!(bin_total, mag_total);
    assert!(mag_total > 0);
}

#[test]
fn steep_orientation_wraps_into_bins_eight_and_zero() {
    // a ramp rising along the column axis with a slight tilt gives an
    // orientation close below one hundred eighty degrees everywhere
    let img = gray_from_vec(8, 8, ramp(8, 8));
    let hists = hog_hists(&img);
    assert_eq!(hists.len(), 1);
    let hist = &hists[0];
    assert!(hist[8] > 0);
    assert!(hist[0] > 0);
    for b in 1..8 {
        assert_eq!(hist[b], 0);
    }
}

#[test]
fn block_grid_has_expected_shape() {
    // 40 x 32 pixels: five by four cells, so four by three blocks
    let img = gray_from_vec(40, 32, vertical_edge(40, 32));
    let hog = calc_hog(img);
    assert_eq!(hog.data.len(), 12);
    for row in &hog.data {
        assert_eq!(row.len(), 36);
    }
}

#[test]
fn block_vectors_have_unit_norm_when_energy_is_large() {
    let img = gray_from_vec(16, 16, vertical_edge(16, 16));
    let hog = calc_hog(img);
    assert_eq!(hog.data.len(), 1);
    for row in &hog.data {
        let ssq: f64 = row
            .iter()
            .map(|&v| {
                let x = v as f64 / 1_000_000.0;
                x * x
            })
            .sum();
        assert!((ssq - 1.0).abs() < 0.01, "sum of squares was {}", ssq);
    }
}

#[test]
fn empty_block_grids_are_valid() {
    let none = normalise_blocks(vec![vec![0; 9]], 1, 1);
    assert_eq!(none.len(), 0);
    let none2 = normalise_blocks(vec![], 0, 0);
    assert_eq!(none2.len(), 0);
}

#[test]
fn all_zero_block_normalizes_to_zero_not_nan() {
    let hists = vec![vec![0u64; 9]; 4];
    let blocks = normalise_blocks(hists, 2, 2);
    assert_eq!(blocks.len(), 1);
    assert_eq!(blocks[0], vec![0u64; 36]);
}
