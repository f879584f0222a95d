use pixelpipe::color::{
    binarize_bytes, hsv_to_rgb, rgb_to_bgr, rgb_to_grayscale, rgb_to_hsv, Hsv,
};
use pixelpipe::diff;
use pixelpipe::image::{BitDepth, ColorModel, ImageMetadata, ImageRecord};
use pixelpipe::otsu::{build_histogram, otsu_threshold};
use pixelpipe::pipeline::{apply_indexed, Transform, TransformError};

fn record(width: u32, height: u32, color: ColorModel, bytes: Vec<u8>) -> ImageRecord {
    ImageRecord {
        meta: ImageMetadata {
            width,
            height,
            color,
            depth: BitDepth::Eight,
        },
        bytes,
    }
}

#[test]
fn identity_returns_input_unchanged() {
    let rec = record(2, 1, ColorModel::Rgb, vec![10, 20, 30, 200, 100, 50]);
    let out = apply_indexed(0, rec).unwrap();
    assert_eq!(out.bytes, vec![10, 20, 30, 200, 100, 50]);
    assert_eq!(out.meta.color, ColorModel::Rgb);
    assert_eq!(out.meta.width, 2);
    assert_eq!(out.meta.height, 1);
}

#[test]
fn channel_swap_two_pixels() {
    let rec = record(2, 1, ColorModel::Rgb, vec![10, 20, 30, 200, 100, 50]);
    let out = apply_indexed(1, rec).unwrap();
    assert_eq!(out.bytes, vec![30, 20, 10, 50, 100, 200]);
    assert_eq!(out.meta.color, ColorModel::Rgb);
    assert_eq!(out.meta.width, 2);
    assert_eq!(out.meta.height, 1);
}

#[test]
fn grayscale_white_pixel() {
    let rec = record(1, 1, ColorModel::Rgb, vec![255, 255, 255]);
    let out = apply_indexed(2, rec).unwrap();
    assert_eq!(out.bytes, vec![255]);
    assert_eq!(out.meta.color, ColorModel::Grayscale);
}

#[test]
fn grayscale_weights_truncate() {
    // (2126*10 + 7152*20 + 722*30) / 10000 = 185960 / 10000 -> 18
    let rec = record(1, 1, ColorModel::Rgb, vec![10, 20, 30]);
    let out = apply_indexed(2, rec).unwrap();
    assert_eq!(out.bytes, vec![18]);
}

#[test]
fn fixed_binarize_splits_at_128() {
    let rec = record(2, 1, ColorModel::Rgb, vec![10, 20, 30, 250, 250, 250]);
    let out = apply_indexed(3, rec).unwrap();
    assert_eq!(out.bytes, vec![0, 255]);
    assert_eq!(out.meta.color, ColorModel::Grayscale);
}

#[test]
fn otsu_binarize_two_cluster_image() {
    // Two black and two white pixels: every split scores the same, so the
    // first valid one (level 1) is kept; binarizing there separates them.
    let rec = record(
        2,
        2,
        ColorModel::Rgb,
        vec![0, 0, 0, 0, 0, 0, 255, 255, 255, 255, 255, 255],
    );
    let out = apply_indexed(4, rec).unwrap();
    assert_eq!(out.bytes, vec![0, 0, 255, 255]);
    assert_eq!(out.meta.color, ColorModel::Grayscale);
}

#[test]
fn otsu_binarize_uniform_image_reports_no_threshold() {
    let rec = record(2, 1, ColorModel::Rgb, vec![90, 90, 90, 90, 90, 90]);
    assert!(matches!(apply_indexed(4, rec), Err(TransformError::NoThreshold)));
}

#[test]
fn hue_invert_red_to_cyan() {
    let rec = record(1, 1, ColorModel::Rgb, vec![255, 0, 0]);
    let out = apply_indexed(5, rec).unwrap();
    assert_eq!(out.bytes, vec![0, 255, 255]);
    assert_eq!(out.meta.color, ColorModel::Rgb);
}

#[test]
fn hue_invert_cyan_back_to_red() {
    let rec = record(1, 1, ColorModel::Rgb, vec![0, 255, 255]);
    let out = apply_indexed(5, rec).unwrap();
    assert_eq!(out.bytes, vec![255, 0, 0]);
}

#[test]
fn out_of_range_index_is_a_config_error() {
    let rec = record(2, 1, ColorModel::Rgb, vec![10, 20, 30, 200, 100, 50]);
    assert!(matches!(apply_indexed(99, rec), Err(TransformError::BadIndex)));
}

#[test]
fn first_index_past_the_catalog_is_refused() {
    let rec = record(1, 1, ColorModel::Rgb, vec![1, 2, 3]);
    assert!(matches!(apply_indexed(6, rec), Err(TransformError::BadIndex)));
}

#[test]
fn wrong_color_model_is_fatal() {
    let rec = record(3, 1, ColorModel::Grayscale, vec![1, 2, 3]);
    assert!(matches!(apply_indexed(1, rec), Err(TransformError::WrongColorModel)));
}

#[test]
fn unsupported_depth_is_refused_before_the_catalog() {
    let rec = ImageRecord {
        meta: ImageMetadata {
            width: 1,
            height: 1,
            color: ColorModel::Rgb,
            depth: BitDepth::Sixteen,
        },
        bytes: vec![1, 2, 3],
    };
    assert!(matches!(apply_indexed(99, rec), Err(TransformError::UnsupportedDepth)));
}

#[test]
fn from_index_covers_the_catalog_in_order() {
    assert_eq!(Transform::from_index(0), Some(Transform::Identity));
    assert_eq!(Transform::from_index(1), Some(Transform::ChannelSwap));
    assert_eq!(Transform::from_index(2), Some(Transform::Grayscale));
    assert_eq!(Transform::from_index(3), Some(Transform::FixedBinarize));
    assert_eq!(Transform::from_index(4), Some(Transform::OtsuBinarize));
    assert_eq!(Transform::from_index(5), Some(Transform::HueInvert));
    assert_eq!(Transform::from_index(6), None);
}

#[test]
fn grayscale_buffer_direct() {
    let out = rgb_to_grayscale(&vec![255, 255, 255, 10, 20, 30]);
    assert_eq!(out, vec![255, 18]);
}

#[test]
fn bgr_twice_is_identity() {
    let bytes = vec![10, 20, 30, 200, 100, 50, 0, 255, 7];
    let once = rgb_to_bgr(&bytes);
    let twice = rgb_to_bgr(&once);
    assert_eq!(twice, bytes);
}

#[test]
fn hsv_round_trip_reproduces_bytes() {
    let bytes = vec![
        10, 20, 30, 200, 100, 50, 0, 0, 0, 255, 255, 255, 1, 2, 3, 250, 3, 77, 128, 128, 127,
    ];
    let samples = rgb_to_hsv(&bytes);
    let back = hsv_to_rgb(&samples);
    assert_eq!(back, bytes);
}

#[test]
fn hsv_of_pure_red() {
    let p = Hsv::from_rgb(255, 0, 0);
    assert_eq!(p.hue_num, 0);
    assert_eq!(p.sat, 255);
    assert_eq!(p.val, 255);
}

#[test]
fn hsv_of_cyan_sits_half_way_round() {
    let p = Hsv::from_rgb(0, 255, 255);
    // hue 180 degrees, held as 180 * sat
    assert_eq!(p.hue_num, 180 * 255);
    assert_eq!(p.sat, 255);
    assert_eq!(p.val, 255);
}

#[test]
fn binarize_produces_only_extremes() {
    let bytes = vec![0, 1, 127, 128, 129, 255];
    let out = binarize_bytes(&bytes, 128);
    assert_eq!(out, vec![0, 0, 0, 255, 255, 255]);
    for v in out {
        assert!(v == 0 || v == 255);
    }
}

#[test]
fn binarize_is_idempotent_at_same_or_lower_threshold() {
    let bytes = vec![3, 200, 128, 0, 255];
    let once = binarize_bytes(&bytes, 128);
    assert_eq!(binarize_bytes(&once, 128), once);
    assert_eq!(binarize_bytes(&once, 1), once);
}

#[test]
fn histogram_counts_every_byte() {
    let bytes = vec![1, 1, 2, 255, 0];
    let h = build_histogram(&bytes);
    assert_eq!(h.len(), 256);
    assert_eq!(h[0], 1);
    assert_eq!(h[1], 2);
    assert_eq!(h[2], 1);
    assert_eq!(h[3], 0);
    assert_eq!(h[255], 1);
    let total: usize = h.iter().sum();
    assert_eq!(total, bytes.len());
}

#[test]
fn otsu_threshold_two_cluster_histogram() {
    let mut h = vec![0usize; 256];
    h[10] = 100;
    h[200] = 100;
    let t = otsu_threshold(&h).unwrap();
    assert!(t > 10 && t < 200);
    // every split between the clusters scores the same; the first is kept
    assert_eq!(t, 11);
}

#[test]
fn otsu_threshold_single_bin_has_no_split() {
    let mut h = vec![0usize; 256];
    h[7] = 100;
    assert_eq!(otsu_threshold(&h), None);
}

#[test]
fn otsu_threshold_empty_histogram_has_no_split() {
    let h = vec![0usize; 256];
    assert_eq!(otsu_threshold(&h), None);
}

#[test]
fn diff_is_the_absolute_difference() {
    assert_eq!(diff(3, 10), 7);
    assert_eq!(diff(10, 3), 7);
    assert_eq!(diff(5, 5), 0);
}
