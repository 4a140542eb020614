use hog_features::codec::DescError;
use hog_features::feature_detect::{calc_hog, visualize_hog, HogResult};
use hog_features::grayimg::{gray_from_vec, gray_into_vec};

fn vertical_edge(w: u32, h: u32) -> Vec<u8> {
    let mut d = Vec::new();
    for _y in 0..h {
        for x in 0..w {
            d.push(if x < w / 2 { 0 } else { 255 });
        }
    }
    d
}

#[test]
fn stored_form_is_the_expected_document() {
    let d = HogResult {
        dimensions: (16, 16),
        cell_size: 8,
        block_size: 2,
        data: vec![vec![500_000; 36]],
    };
    let bytes = d.to_json();
    let expected = format!(
        "{{\"dimensions\":[16,16],\"cell_size\":8,\"block_size\":2,\"data\":[[{}]]}}",
        vec!["0.500000"; 36].join(",")
    );
    assert_eq!(String::from_utf8(bytes).unwrap(), expected);
}

#[test]
fn round_trip_reproduces_every_field() {
    let img = gray_from_vec(16, 16, vertical_edge(16, 16));
    let d = calc_hog(img);
    let bytes = d.to_json();
    let back = HogResult::from_json(&bytes).unwrap();
    assert_eq!(back.dimensions, d.dimensions);
    assert_eq!(back.cell_size, d.cell_size);
    assert_eq!(back.block_size, d.block_size);
    assert_eq!(back.data, d.data);
}

#[test]
fn round_trip_of_a_larger_descriptor() {
    let img = gray_from_vec(40, 32, vertical_edge(40, 32));
    let d = calc_hog(img);
    let bytes = d.to_json();
    let back = HogResult::from_json(&bytes).unwrap();
    assert_eq!(back.data, d.data);
    assert_eq!(back.dimensions, (40, 32));
}

#[test]
fn malformed_documents_are_rejected() {
    assert_eq!(HogResult::from_json(&b"{}".to_vec()), Err(DescError::Malformed));
    assert_eq!(HogResult::from_json(&Vec::new()), Err(DescError::Malformed));
    // a truncated document
    let d = HogResult {
        dimensions: (16, 16),
        cell_size: 8,
        block_size: 2,
        data: vec![vec![500_000; 36]],
    };
    let mut bytes = d.to_json();
    bytes.pop();
    assert_eq!(HogResult::from_json(&bytes), Err(DescError::Malformed));
    // trailing bytes after the document
    let mut bytes2 = d.to_json();
    bytes2.push(b' ');
    assert_eq!(HogResult::from_json(&bytes2), Err(DescError::Malformed));
}

#[test]
fn wrong_shapes_are_rejected() {
    // a row that is too short for the declared block size
    let text = "{\"dimensions\":[16,16],\"cell_size\":8,\"block_size\":2,\"data\":[[0.500000]]}";
    assert_eq!(
        HogResult::from_json(&text.as_bytes().to_vec()),
        Err(DescError::Malformed)
    );
    // a block count that does not match the dimensions
    let text2 = "{\"dimensions\":[16,16],\"cell_size\":8,\"block_size\":2,\"data\":[]}";
    assert_eq!(
        HogResult::from_json(&text2.as_bytes().to_vec()),
        Err(DescError::Malformed)
    );
}

#[test]
fn visualization_of_a_zero_descriptor_is_black() {
    let d = HogResult {
        dimensions: (16, 16),
        cell_size: 8,
        block_size: 2,
        data: vec![vec![0; 36]],
    };
    let canvas = visualize_hog(&d, 1_000_000);
    let pixels = gray_into_vec(canvas);
    assert_eq!(pixels, vec![0u8; 256]);
}

#[test]
fn visualization_draws_one_horizontal_segment() {
    // one block whose first bin holds full weight: a segment at zero
    // degrees through the center of the top-left cell, full intensity
    let d = HogResult {
        dimensions: (16, 16),
        cell_size: 8,
        block_size: 2,
        data: vec![{
            let mut row = vec![0u64; 36];
            row[0] = 1_000_000;
            row
        }],
    };
    let canvas = visualize_hog(&d, 1_000_000);
    let pixels = gray_into_vec(canvas);
    let mut expected = vec![0u8; 256];
    for x in 0..9 {
        expected[4 * 16 + x] = 255;
    }
    assert_eq!(pixels, expected);
}

#[test]
fn visualization_skips_weak_bins() {
    let d = HogResult {
        dimensions: (16, 16),
        cell_size: 8,
        block_size: 2,
        data: vec![{
            let mut row = vec![0u64; 36];
            // strength 0.09 stays below the threshold of a tenth
            row[0] = 90_000;
            row
        }],
    };
    let canvas = visualize_hog(&d, 1_000_000);
    assert_eq!(gray_into_vec(canvas), vec![0u8; 256]);
}

#[test]
fn visualization_of_the_forward_pipeline_output() {
    let img = gray_from_vec(16, 16, vertical_edge(16, 16));
    let d = calc_hog(img);
    let canvas = visualize_hog(&d, 2_000_000);
    let pixels = gray_into_vec(canvas);
    assert_eq!(pixels.len(), 256);
    assert!(pixels.iter().any(|&p| p > 0));
}

#[test]
fn images_smaller_than_one_cell_give_an_empty_descriptor() {
    let img = gray_from_vec(4, 4, vec![9; 16]);
    let d = calc_hog(img);
    assert_eq!(d.dimensions, (4, 4));
    assert_eq!(d.data.len(), 0);
    let bytes = d.to_json();
    assert_eq!(
        String::from_utf8(bytes.clone()).unwrap(),
        "{\"dimensions\":[4,4],\"cell_size\":8,\"block_size\":2,\"data\":[]}"
    );
    let back = HogResult::from_json(&bytes).unwrap();
    assert_eq!(back, d);
}

#[test]
fn single_cell_blocks_round_trip_and_render() {
    let d = HogResult {
        dimensions: (16, 16),
        cell_size: 8,
        block_size: 1,
        data: vec![vec![250_000; 9]; 1],
    };
    let bytes = d.to_json();
    let back = HogResult::from_json(&bytes).unwrap();
    assert_eq!(back, d);
    let canvas = visualize_hog(&back, 4_000_000);
    let pixels = gray_into_vec(canvas);
    assert_eq!(pixels.len(), 256);
    assert!(pixels.iter().any(|&p| p > 0));
}

#[test]
fn odd_cell_sizes_are_handled() {
    let d = HogResult {
        dimensions: (21, 21),
        cell_size: 7,
        block_size: 2,
        data: vec![vec![400_000; 36]; 4],
    };
    let bytes = d.to_json();
    let back = HogResult::from_json(&bytes).unwrap();
    assert_eq!(back, d);
    let canvas = visualize_hog(&d, 1_000_000);
    assert_eq!(gray_into_vec(canvas).len(), 441);
}

#[test]
fn intensity_rounds_to_the_nearest_sample() {
    // strength 0.5 at scale 1.0: 255 * 0.5 = 127.5 rounds up to 128
    let d = HogResult {
        dimensions: (16, 16),
        cell_size: 8,
        block_size: 2,
        data: vec![{
            let mut row = vec![0u64; 36];
            row[0] = 500_000;
            row
        }],
    };
    let canvas = visualize_hog(&d, 1_000_000);
    let pixels = gray_into_vec(canvas);
    assert_eq!(pixels[4 * 16 + 4], 128);
}
