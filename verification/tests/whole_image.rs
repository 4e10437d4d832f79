use oculante::buffer::FrameBuffer;
use oculante::executor::target_dims;
use oculante::ops::{ImageOperation, ScaleFilter};
use oculante::pipeline::process_ops;
use oculante::pixel::process_pixels;
use oculante::settings::PersistentSettings;
use oculante::stats::ExtendedImageInfo;

fn buffer_from(width: u32, height: u32, bytes: Vec<u8>) -> FrameBuffer {
    FrameBuffer::from_raw(width, height, bytes).expect("well-formed buffer")
}

#[test]
fn chromatic_aberration_zero_is_identity() {
    let bytes: Vec<u8> = (0..36).map(|v| (v * 5) as u8).collect();
    let mut buf = buffer_from(3, 3, bytes.clone());
    let op = ImageOperation::ChromaticAberration(0);
    op.process_image(&mut buf);
    assert_eq!(buf.width, 3);
    assert_eq!(buf.height, 3);
    assert_eq!(buf.data, bytes);
}

#[test]
fn chromatic_aberration_shifts_red_and_blue() {
    // Two pixels in one row: red comes from the right neighbour, blue from
    // the left, both clamped at the edges; green and alpha stay centered.
    let mut buf = buffer_from(2, 1, vec![10, 20, 30, 40, 50, 60, 70, 80]);
    let op = ImageOperation::ChromaticAberration(1);
    op.process_image(&mut buf);
    // pixel 0: red from x=1 (50), blue from x=0 clamped (30)
    assert_eq!(&buf.data[0..4], &[50, 20, 30, 40]);
    // pixel 1: red from x=1 clamped (50), blue from x=0 (30)
    assert_eq!(&buf.data[4..8], &[50, 60, 30, 80]);
}

#[test]
fn blur_zero_sigma_is_noop() {
    let bytes: Vec<u8> = (0..16).map(|v| (v * 9) as u8).collect();
    let mut buf = buffer_from(2, 2, bytes.clone());
    ImageOperation::Blur(0).process_image(&mut buf);
    assert_eq!(buf.data, bytes);
}

#[test]
fn blur_keeps_uniform_buffer_uniform() {
    let mut buf = buffer_from(3, 3, vec![100u8; 36]);
    ImageOperation::Blur(1).process_image(&mut buf);
    assert_eq!(buf.data, vec![100u8; 36]);
}

#[test]
fn blur_averages_neighbours() {
    // One row of three pixels with red 0, 90, 0: the horizontal box pass of
    // radius 1 averages each window of three clamped samples, rounding to
    // nearest; the vertical pass then leaves the single row unchanged.
    let mut buf = buffer_from(
        3,
        1,
        vec![0, 0, 0, 255, 90, 0, 0, 255, 0, 0, 0, 255],
    );
    ImageOperation::Blur(1).process_image(&mut buf);
    // windows: [0,0,90] -> 30, [0,90,0] -> 30, [90,0,0] -> 30
    assert_eq!(buf.data[0], 30);
    assert_eq!(buf.data[4], 30);
    assert_eq!(buf.data[8], 30);
    assert_eq!(buf.data[3], 255);
}

#[test]
fn resize_aspect_scenario() {
    // A 1000 by 500 source fit into a 300 by 200 target keeps the 2:1 ratio
    // and stays inside the target.
    let (ow, oh) = target_dims(1000, 500, 300, 200, true);
    assert_eq!((ow, oh), (300, 150));
    assert!(ow <= 300 && oh <= 200);
    // the ratio is exactly 2:1 here
    assert_eq!(ow, oh * 2);
}

#[test]
fn resize_degenerate_target_clamps_to_one() {
    assert_eq!(target_dims(10, 10, 0, 0, false), (1, 1));
    assert_eq!(target_dims(10, 10, 0, 5, false), (1, 5));
}

#[test]
fn resize_produces_target_dimensions() {
    let mut buf = buffer_from(4, 2, vec![200u8; 32]);
    let op = ImageOperation::Resize {
        dimensions: (2, 1),
        aspect: false,
        filter: ScaleFilter::Nearest,
    };
    op.process_image(&mut buf);
    assert_eq!(buf.width, 2);
    assert_eq!(buf.height, 1);
    assert_eq!(buf.data.len(), 8);
}

#[test]
fn resize_with_aspect_through_pipeline() {
    let mut buf = buffer_from(10, 5, vec![7u8; 200]);
    let ops = vec![ImageOperation::Resize {
        dimensions: (300, 200),
        aspect: true,
        filter: ScaleFilter::Hamming,
    }];
    process_ops(&mut buf, &ops);
    assert_eq!(buf.width, 300);
    assert_eq!(buf.height, 150);
    assert_eq!(buf.data.len(), 300 * 150 * 4);
}

#[test]
fn pipeline_fuses_prefix_then_executes_rest() {
    let mut piped = buffer_from(2, 1, vec![100, 100, 100, 255, 30, 30, 30, 255]);
    let ops = vec![
        ImageOperation::Brightness(10),
        ImageOperation::Exposure(20),
        ImageOperation::ChromaticAberration(0),
        ImageOperation::Brightness(5),
    ];
    process_ops(&mut piped, &ops);

    let mut manual = buffer_from(2, 1, vec![100, 100, 100, 255, 30, 30, 30, 255]);
    for op in &ops {
        op.process_image(&mut manual);
    }
    assert_eq!(piped.data, manual.data);
    // brightness 10 -> 110, exposure 20 -> 132, brightness 5 -> 137
    assert_eq!(&piped.data[0..4], &[137, 137, 137, 255]);
}

#[test]
fn stats_concrete_two_by_two() {
    let buf = buffer_from(
        2,
        2,
        vec![
            0, 0, 0, 0, 255, 255, 255, 255, 10, 10, 10, 255, 250, 10, 10, 255,
        ],
    );
    let info = ExtendedImageInfo::from_image(&buf);
    assert_eq!(info.num_pixels, 4);
    assert_eq!(info.num_transparent_pixels, 1);
    // all four RGB triples are distinct even though one alpha differs
    assert_eq!(info.num_colors, 4);
    // grey levels: 0, 255, 10, (250+10+10)/3 = 90
    assert_eq!(info.grey_histogram[0], 1);
    assert_eq!(info.grey_histogram[255], 1);
    assert_eq!(info.grey_histogram[10], 1);
    assert_eq!(info.grey_histogram[90], 1);
    assert_eq!(info.red_histogram[250], 1);
    assert_eq!(info.green_histogram[10], 2);
    assert_eq!(info.blue_histogram[255], 1);
}

#[test]
fn stats_histogram_totals() {
    let bytes: Vec<u8> = (0..48).map(|v| (v * 11) as u8).collect();
    let buf = buffer_from(4, 3, bytes);
    let info = ExtendedImageInfo::from_image(&buf);
    assert_eq!(info.num_pixels, 12);
    for hist in [
        &info.grey_histogram,
        &info.red_histogram,
        &info.green_histogram,
        &info.blue_histogram,
    ] {
        let total: u64 = hist.iter().sum();
        assert_eq!(total, info.num_pixels);
    }
}

#[test]
fn stats_duplicate_colors_counted_once() {
    let buf = buffer_from(
        2,
        1,
        vec![5, 6, 7, 255, 5, 6, 7, 0],
    );
    let info = ExtendedImageInfo::from_image(&buf);
    assert_eq!(info.num_colors, 1);
    assert_eq!(info.num_transparent_pixels, 1);
}

#[test]
fn fusion_matches_sequential_application() {
    let bytes: Vec<u8> = (0..24).map(|v| (v * 10) as u8).collect();
    let ops = [
        ImageOperation::Brightness(10),
        ImageOperation::Contrast(10),
        ImageOperation::Exposure(20),
        ImageOperation::Posterize(8),
    ];
    let mut fused = buffer_from(3, 2, bytes.clone());
    process_pixels(&mut fused, &ops);
    let mut sequential = buffer_from(3, 2, bytes);
    for op in &ops {
        op.process_image(&mut sequential);
    }
    assert_eq!(fused.data, sequential.data);
}

#[test]
fn default_settings() {
    let s = PersistentSettings::default();
    assert_eq!(s.accent_color, [255, 0, 75]);
    assert!(s.vsync);
}
