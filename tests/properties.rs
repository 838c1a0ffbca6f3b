use image::{GrayImage, Luma, Rgb, RgbImage};
use sdf_maker::algorithms::{algorithm_from_lowercase, create_algorithm, Algorithm, SDFAlgorithm};
use sdf_maker::brute_force::BruteForce;
use sdf_maker::error::SDFError;
use sdf_maker::feature_aware::FeatureAwareJFA;
use sdf_maker::fixed::{integer_sqrt, UNITS_PER_PIXEL};
use sdf_maker::jfa::JumpFloodingAlgorithm;
use sdf_maker::multi_channel::{BlendMode, ChannelWeights, MultiChannelInput};
use sdf_maker::raster::{create_binary_mask, Raster};
use sdf_maker::regions::MIN_REGION_PIXELS;
use sdf_maker::sdf::{SDFData, SDF};

const PX: i64 = UNITS_PER_PIXEL as i64;

/// A filled circle of `radius` pixels centred on `(cx, cy)`: inside when the
/// squared distance is at most the squared radius.
fn circle_raster(side: u32, cx: i64, cy: i64, radius: i64) -> Raster {
    let mut luma = Vec::new();
    for y in 0..side as i64 {
        for x in 0..side as i64 {
            let d = (x - cx) * (x - cx) + (y - cy) * (y - cy);
            luma.push(if d <= radius * radius { 255 } else { 0 });
        }
    }
    Raster::new(side, side, luma).unwrap()
}

fn store_with(raster: Raster) -> MultiChannelInput {
    let mut input = MultiChannelInput::new();
    input.set_channel("alpha", raster);
    input
}

fn uniform_raster(w: u32, h: u32, value: u8) -> Raster {
    Raster::new(w, h, vec![value; (w * h) as usize]).unwrap()
}

#[test]
fn brute_force_disk_center_and_corner() {
    let input = store_with(circle_raster(64, 32, 32, 16));
    let sdf = BruteForce::new().with_threshold(128).with_max_distance(32 * UNITS_PER_PIXEL).process(&input).unwrap();
    let center = sdf.get(32, 32);
    assert!(center <= -16 * PX && center >= -17 * PX, "center {}", center);
    // The square window around the corner reaches the disk pixel (21, 21):
    // floor(256 * sqrt(21^2 + 21^2)) units, under the clamp.
    assert_eq!(sdf.get(0, 0), 7602);
    // Far from the disk the value is clamped to exactly the maximum distance.
    let input = store_with(circle_raster(160, 80, 80, 16));
    let sdf = BruteForce::new().process(&input).unwrap();
    assert_eq!(sdf.get(0, 0), 32 * PX);
    // The nearest outside pixel is at offset (16, 1): floor(256 * sqrt(257)).
    assert_eq!(sdf.get(80, 80), -4103);
}

#[test]
fn brute_force_exact_values_near_edge() {
    // A single inside pixel at (2, 2) on a 5x5 canvas.
    let mut luma = vec![0u8; 25];
    luma[2 * 5 + 2] = 200;
    let input = store_with(Raster::new(5, 5, luma).unwrap());
    let sdf = BruteForce::new().with_max_distance(3 * UNITS_PER_PIXEL).process(&input).unwrap();
    assert_eq!(sdf.get(2, 2), -PX);
    assert_eq!(sdf.get(3, 2), PX);
    // sqrt(2) pixels, rounded down to units: floor(256 * 1.41421...) = 362.
    assert_eq!(sdf.get(3, 3), 362);
    // sqrt(8) = 2.828... pixels: 724 units.
    assert_eq!(sdf.get(0, 0), 724);
    assert_eq!(sdf.get(0, 2), 2 * PX);
}

#[test]
fn brute_force_clamps_beyond_max_distance() {
    let input = store_with(circle_raster(64, 32, 32, 4));
    let sdf = BruteForce::new().with_max_distance(5 * UNITS_PER_PIXEL).process(&input).unwrap();
    // (0, 0) is far more than 5 pixels from the disk.
    assert_eq!(sdf.get(0, 0), 5 * PX);
    assert_eq!(sdf.get(63, 63), 5 * PX);
}

#[test]
fn jump_flooding_agrees_with_brute_force() {
    let input = store_with(circle_raster(64, 32, 32, 16));
    let bf = BruteForce::new().process(&input).unwrap();
    let jfa = JumpFloodingAlgorithm::new().process(&input).unwrap();
    assert_eq!(bf.data.len(), jfa.data.len());
    for i in 0..bf.data.len() {
        let diff = (bf.data[i] - jfa.data[i]).abs();
        assert!(diff <= 2 * PX, "cell {} differs by {}", i, diff);
        if bf.data[i] < 0 {
            assert!(jfa.data[i] <= 0);
        } else {
            assert!(jfa.data[i] >= 0);
        }
    }
    assert!(jfa.get(32, 32) < 0);
    assert!(jfa.get(0, 0) > 0);
}

#[test]
fn jump_flooding_uniform_masks() {
    let outside = store_with(uniform_raster(7, 5, 10));
    let sdf = JumpFloodingAlgorithm::new().with_max_distance(4 * UNITS_PER_PIXEL).process(&outside).unwrap();
    assert_eq!(sdf.data.len(), 35);
    assert!(sdf.data.iter().all(|v| *v == 4 * PX));

    let inside = store_with(uniform_raster(7, 5, 250));
    let sdf = JumpFloodingAlgorithm::new().with_max_distance(4 * UNITS_PER_PIXEL).process(&inside).unwrap();
    assert!(sdf.data.iter().all(|v| *v == -4 * PX));
}

#[test]
fn both_algorithms_return_one_value_per_pixel() {
    let mut luma = vec![0u8; 3 * 7];
    luma[4] = 255;
    let input = store_with(Raster::new(3, 7, luma).unwrap());
    assert_eq!(BruteForce::new().process(&input).unwrap().data.len(), 21);
    assert_eq!(JumpFloodingAlgorithm::new().process(&input).unwrap().data.len(), 21);
    let one = store_with(Raster::new(1, 2, vec![0, 255]).unwrap());
    assert_eq!(BruteForce::new().process(&one).unwrap().data.len(), 2);
    assert_eq!(JumpFloodingAlgorithm::new().process(&one).unwrap().data.len(), 2);
}

#[test]
fn threshold_is_strictly_greater() {
    let raster = Raster::new(3, 1, vec![127, 128, 129]).unwrap();
    assert_eq!(create_binary_mask(&raster, 128), vec![false, false, true]);
}

#[test]
fn feature_aware_delegates_to_jump_flooding() {
    let input = store_with(circle_raster(32, 16, 16, 6));
    let fa = FeatureAwareJFA::new().with_normal_influence(90).with_curvature_influence(10).process(&input).unwrap();
    let jfa = JumpFloodingAlgorithm::new().process(&input).unwrap();
    assert_eq!(fa.data, jfa.data);
    assert_eq!(FeatureAwareJFA::new().name(), "feature-aware-jfa");
}

fn grid_with_squares() -> SDFData {
    let mut sdf = SDFData::new(20, 12, 8 * UNITS_PER_PIXEL);
    for y in 0..12 {
        for x in 0..20 {
            sdf.set(x, y, PX);
        }
    }
    // Square A: x 1..=4, y 1..=4 (16 pixels).
    for y in 1..5 {
        for x in 1..5 {
            sdf.set(x, y, -PX);
        }
    }
    // Square B: x 10..=14, y 2..=6 (25 pixels).
    for y in 2..7 {
        for x in 10..15 {
            sdf.set(x, y, -PX);
        }
    }
    // A blob of five pixels.
    for (x, y) in [(17, 9), (18, 9), (17, 10), (18, 10), (19, 11)] {
        sdf.set(x, y, -PX);
    }
    sdf
}

#[test]
fn region_analysis_keeps_the_two_squares() {
    let regions = grid_with_squares().analyze_regions();
    assert_eq!(regions.len(), 2);
    assert_eq!(regions[0].pixel_count, 16);
    assert_eq!(regions[0].bounds, (1, 1, 4, 4));
    assert_eq!((regions[0].center_x, regions[0].center_y), (640, 640));
    assert_eq!(regions[1].pixel_count, 25);
    assert_eq!(regions[1].bounds, (10, 2, 14, 6));
    assert_eq!((regions[1].center_x, regions[1].center_y), (12 * 256, 4 * 256));
}

#[test]
fn region_analysis_joins_diagonal_neighbours_and_drops_small_ones() {
    let mut sdf = SDFData::new(12, 12, 8 * UNITS_PER_PIXEL);
    // A diagonal line of 11 pixels is one 8-connected region.
    for i in 0..11 {
        sdf.set(i, i, -1);
    }
    let regions = sdf.analyze_regions();
    assert_eq!(regions.len(), 1);
    assert_eq!(regions[0].pixel_count, 11);
    assert_eq!(regions[0].bounds, (0, 0, 10, 10));
    // A region of exactly the floor is kept; one pixel fewer is dropped.
    let mut at_floor = SDFData::new(12, 1, 8 * UNITS_PER_PIXEL);
    for i in 0..MIN_REGION_PIXELS as u32 {
        at_floor.set(i, 0, -1);
    }
    let regions = at_floor.analyze_regions();
    assert_eq!(regions.len(), 1);
    assert_eq!(regions[0].pixel_count, 10);
    assert_eq!(regions[0].bounds, (0, 0, 9, 0));
    let mut small = SDFData::new(12, 1, 8 * UNITS_PER_PIXEL);
    for i in 0..MIN_REGION_PIXELS as u32 - 1 {
        small.set(i, 0, -1);
    }
    assert!(small.analyze_regions().is_empty());
}

#[test]
fn validation_of_empty_store() {
    let input = MultiChannelInput::new();
    assert!(matches!(input.validate(), Err(SDFError::ValidationError { .. })));
    assert!(matches!(input.dimensions(), Err(SDFError::ValidationError { .. })));
    assert!(matches!(input.get_primary_channel(), Err(SDFError::ValidationError { .. })));
    assert!(matches!(BruteForce::new().process(&input), Err(SDFError::ValidationError { .. })));
    assert!(matches!(JumpFloodingAlgorithm::new().process(&input), Err(SDFError::ValidationError { .. })));
}

#[test]
fn validation_reports_mismatched_dimensions() {
    let mut input = MultiChannelInput::new();
    input.set_channel("alpha", uniform_raster(32, 32, 0));
    input.set_channel("normal", uniform_raster(16, 8, 0));
    match input.validate() {
        Err(SDFError::DimensionMismatch { expected, expected_h, actual_w, actual_h }) => {
            assert_eq!((expected, expected_h, actual_w, actual_h), (32, 32, 16, 8));
        },
        _ => panic!("expected a dimension mismatch"),
    }
}

#[test]
fn primary_channel_follows_priority() {
    let mut input = MultiChannelInput::new();
    input.set_channel("zeta", uniform_raster(2, 2, 1));
    input.set_channel("height", uniform_raster(3, 3, 2));
    assert_eq!(input.dimensions().unwrap(), (3, 3));
    input.set_channel("ao", uniform_raster(4, 4, 3));
    assert_eq!(input.get_primary_channel().unwrap().luma[0], 3);
    assert!(input.has_ao() && input.has_height() && !input.has_curvature());
    // Replacing a custom channel keeps one entry.
    input.set_channel("zeta", uniform_raster(4, 4, 9));
    assert_eq!(input.custom_channels.len(), 1);
    assert_eq!(input.custom_channels[0].1.luma[0], 9);
    input.set_channel("curvature", uniform_raster(4, 4, 0));
    input.set_channel("height", uniform_raster(4, 4, 0));
    assert!(input.validate().is_ok());
}

#[test]
fn raster_requires_one_byte_per_pixel() {
    assert!(Raster::new(3, 2, vec![0; 5]).is_none());
    assert!(Raster::new(3, 2, vec![0; 6]).is_some());
}

#[test]
fn image_conversion_uses_luma() {
    let mut rgb = RgbImage::new(2, 1);
    rgb.put_pixel(0, 0, Rgb([255, 255, 255]));
    rgb.put_pixel(1, 0, Rgb([0, 0, 0]));
    let raster = Raster::from_image(&image::DynamicImage::ImageRgb8(rgb));
    assert_eq!((raster.width, raster.height), (2, 1));
    assert_eq!(raster.luma, vec![255, 0]);
    let mut gray = GrayImage::new(1, 1);
    gray.put_pixel(0, 0, Luma([77]));
    let input = MultiChannelInput::from_alpha(image::DynamicImage::ImageLuma8(gray));
    assert_eq!(input.get_primary_channel().unwrap().luma, vec![77]);
}

#[test]
fn visualization_matches_formula() {
    let mut sdf = SDFData::new(4, 1, 16 * UNITS_PER_PIXEL);
    sdf.set(0, 0, -640);
    sdf.set(1, 0, -16 * PX);
    sdf.set(2, 0, 0);
    sdf.set(3, 0, 40 * PX);
    let normalized = sdf.to_visualization(true);
    // (-640 + 4096) / 8192 * 255 = 107.58...
    assert_eq!(normalized, vec![107, 0, 127, 255]);
    let raw = sdf.to_visualization(false);
    assert_eq!(raw, vec![0, 0, 0, 255]);
    for x in 0..4 {
        let v = sdf.get(x, 0) as f64;
        let m = sdf.max_distance as f64;
        let expected = ((v + m) / (2.0 * m)).clamp(0.0, 1.0) * 255.0;
        assert!((normalized[x as usize] as f64 - expected).abs() <= 1.0);
    }
    assert_eq!(sdf.get_normalized(0, 0), 27648);
    let img = sdf.to_grayscale_image(true).to_luma8();
    assert_eq!(img.into_raw(), normalized);
}

#[test]
fn visualization_with_zero_max_distance() {
    let mut sdf = SDFData::new(3, 1, 0);
    sdf.set(0, 0, -5);
    sdf.set(1, 0, 0);
    sdf.set(2, 0, 5);
    assert_eq!(sdf.to_visualization(true), vec![0, 0, 255]);
}

#[test]
fn algorithm_selection_by_name() {
    assert!(matches!(create_algorithm("BRUTE"), Ok(Algorithm::BruteForce(_))));
    assert!(matches!(create_algorithm("brute-force"), Ok(Algorithm::BruteForce(_))));
    assert!(matches!(create_algorithm("JFA"), Ok(Algorithm::JumpFlooding(_))));
    assert!(matches!(create_algorithm("Jump-Flooding"), Ok(Algorithm::JumpFlooding(_))));
    assert!(matches!(create_algorithm("Feature-Aware"), Ok(Algorithm::FeatureAware(_))));
    assert!(matches!(create_algorithm("feature-aware-jfa"), Ok(Algorithm::FeatureAware(_))));
    match create_algorithm("Voronoi") {
        Err(SDFError::ProcessingFailed { reason }) => assert_eq!(reason, "Unknown algorithm: Voronoi"),
        _ => panic!("expected an unknown algorithm"),
    }
    assert!(matches!(algorithm_from_lowercase("BRUTE", "BRUTE"), Err(SDFError::ProcessingFailed { .. })));
    let a = create_algorithm("jfa").unwrap();
    assert_eq!(a.name(), "jump-flooding");
    assert_eq!(BruteForce::new().name(), "brute-force");
    let input = store_with(circle_raster(16, 8, 8, 3));
    assert_eq!(a.process(&input).unwrap().data, JumpFloodingAlgorithm::new().process(&input).unwrap().data);
}

#[test]
fn recovery_suggestions() {
    let e = SDFError::DimensionMismatch { expected: 1, expected_h: 2, actual_w: 3, actual_h: 4 };
    assert_eq!(e.recovery_suggestion().unwrap(), "Try resizing all input channels to the same dimensions");
    let e = SDFError::OutOfMemory { requested: 10 };
    assert_eq!(e.recovery_suggestion().unwrap(), "Try reducing the image size or using streaming processing");
    let e = SDFError::UnsupportedFormat { format: "webp".to_string() };
    assert_eq!(e.recovery_suggestion().unwrap(), "Convert webp to PNG, JPEG, or TGA format");
    assert!(SDFError::ValidationError { details: "x".to_string() }.recovery_suggestion().is_none());
    assert!(SDFError::InvalidChannelConfig("x".to_string()).recovery_suggestion().is_none());
    assert!(SDFError::ProcessingFailed { reason: "x".to_string() }.recovery_suggestion().is_none());
}

#[test]
fn integer_square_root() {
    assert_eq!(integer_sqrt(0), 0);
    assert_eq!(integer_sqrt(15), 3);
    assert_eq!(integer_sqrt(16), 4);
    assert_eq!(integer_sqrt(u64::MAX), 4294967295);
}

#[test]
fn defaults_and_metadata() {
    let w = ChannelWeights::default();
    assert_eq!((w.alpha, w.normal, w.ao, w.curvature, w.height), (100, 70, 50, 30, 40));
    assert_eq!(BlendMode::default(), BlendMode::Multiply);
    let sdf = SDF::from_raw_data(vec![1, 2], 2, 1, 7);
    assert_eq!(sdf.metadata.algorithm, "unknown");
    assert_eq!(sdf.metadata.threshold, 128);
    assert!(sdf.metadata.source_file.is_none() && sdf.metadata.processing_time.is_none());
    assert_eq!(sdf.data.data, vec![1, 2]);
    let j = JumpFloodingAlgorithm::new().with_subpixel_precision(true).with_threshold(3);
    assert!(j.subpixel_precision && j.threshold == 3 && j.max_distance == 32 * UNITS_PER_PIXEL);
    let f = FeatureAwareJFA::new().with_threshold(9).with_max_distance(5);
    assert_eq!((f.threshold, f.max_distance, f.normal_influence, f.curvature_influence), (9, 5, 50, 30));
}

#[test]
fn channels_listed_in_priority_order() {
    let mut input = MultiChannelInput::new();
    input.set_channel("mask2", uniform_raster(2, 2, 5));
    input.set_channel("height", uniform_raster(2, 2, 4));
    input.set_channel("alpha", uniform_raster(2, 2, 1));
    input.set_channel("mask1", uniform_raster(2, 2, 6));
    let listed: Vec<(String, u8)> =
        input.iter_channels().into_iter().map(|(name, r)| (name.to_string(), r.luma[0])).collect();
    assert_eq!(
        listed,
        vec![
            ("alpha".to_string(), 1),
            ("height".to_string(), 4),
            ("mask2".to_string(), 5),
            ("mask1".to_string(), 6),
        ]
    );
}

#[test]
fn channel_probe_plan_lists_patterns_in_order() {
    let plan = sdf_maker::detect::channel_probe_plan("tex");
    assert_eq!(plan.len(), 12);
    assert_eq!(plan[0].channel, "alpha");
    assert_eq!(plan[0].files, vec!["tex_diffuse.png", "tex_diffuse.jpg", "tex_diffuse.jpeg", "tex_diffuse.tga", "tex_diffuse.bmp"]);
    assert_eq!(plan[5].channel, "normal");
    assert_eq!(plan[5].files[2], "tex_n.jpeg");
    assert_eq!(plan[7].channel, "ao");
    assert_eq!(plan[7].files[0], "tex_ambient.png");
    assert_eq!(plan[11].channel, "curvature");
    assert_eq!(plan[11].files[4], "tex_c.bmp");
}

#[test]
fn default_store_is_empty() {
    let input = MultiChannelInput::default();
    assert!(input.iter_channels().is_empty());
    assert!(matches!(input.validate(), Err(SDFError::ValidationError { .. })));
}

#[test]
fn validation_error_details() {
    let input = MultiChannelInput::new();
    match input.validate() {
        Err(SDFError::ValidationError { details }) => assert_eq!(details, "At least one input channel is required"),
        _ => panic!("expected a validation error"),
    }
    match input.dimensions() {
        Err(SDFError::ValidationError { details }) => assert_eq!(details, "No input channels available"),
        _ => panic!("expected a validation error"),
    }
    match BruteForce::new().process(&input) {
        Err(SDFError::ValidationError { details }) => assert_eq!(details, "No input channels available"),
        _ => panic!("expected a validation error"),
    }
}

#[test]
fn new_store_has_default_configuration() {
    let input = MultiChannelInput::new();
    assert_eq!(input.blend_mode, BlendMode::Multiply);
    assert_eq!(input.weights.alpha, 100);
    assert_eq!(input.weights.height, 40);
    assert!(input.weights.custom.is_empty());
}

#[test]
fn brute_force_disk_center_on_wide_canvas() {
    // 100 x 80 canvas, disk of radius 10 at (50, 40), maximum distance 8 pixels.
    let mut luma = Vec::new();
    for y in 0..80i64 {
        for x in 0..100i64 {
            let d = (x - 50) * (x - 50) + (y - 40) * (y - 40);
            luma.push(if d <= 100 { 255 } else { 0 });
        }
    }
    let input = store_with(Raster::new(100, 80, luma).unwrap());
    let sdf = BruteForce::new().with_max_distance(8 * UNITS_PER_PIXEL).process(&input).unwrap();
    assert_eq!(sdf.get(50, 40), -8 * PX);
    let sdf = BruteForce::new().with_max_distance(30 * UNITS_PER_PIXEL).process(&input).unwrap();
    let v = sdf.get(50, 40);
    assert!(v <= -10 * PX && v >= -11 * PX);
}
