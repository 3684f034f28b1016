use dominantcolor::{get_dominant_color, DominantColorError};
use dominantcolor::cluster::dominant_pixel_color;

fn png_bytes_rgb(img: &image::RgbImage) -> Vec<u8> {
    let mut buf: Vec<u8> = Vec::new();
    img.write_to(&mut std::io::Cursor::new(&mut buf), image::ImageFormat::Png)
        .unwrap();
    buf
}

fn png_bytes_rgba(img: &image::RgbaImage) -> Vec<u8> {
    let mut buf: Vec<u8> = Vec::new();
    img.write_to(&mut std::io::Cursor::new(&mut buf), image::ImageFormat::Png)
        .unwrap();
    buf
}

#[test]
fn solid_red_reports_red_exactly() {
    let img = image::RgbImage::from_pixel(10, 10, image::Rgb([255, 0, 0]));
    let bytes = png_bytes_rgb(&img);
    assert_eq!(get_dominant_color(&bytes), Ok(0xFF0000));
}

#[test]
fn solid_color_survives_averaging_exactly() {
    let img = image::RgbImage::from_pixel(7, 5, image::Rgb([12, 200, 80]));
    let bytes = png_bytes_rgb(&img);
    assert_eq!(get_dominant_color(&bytes), Ok(0x0CC850));
}

#[test]
fn upscaled_solid_red_exceeding_ceiling_reports_red() {
    // A 2x1 all-red image upscaled far past the sampling ceiling.
    let img = image::RgbImage::from_pixel(300, 200, image::Rgb([255, 0, 0]));
    let bytes = png_bytes_rgb(&img);
    assert_eq!(get_dominant_color(&bytes), Ok(0xFF0000));
}

#[test]
fn majority_region_wins() {
    // 70 blue pixels against 30 green pixels, no alpha.
    let img = image::RgbImage::from_fn(10, 10, |x, y| {
        if y * 10 + x < 70 {
            image::Rgb([0, 0, 255])
        } else {
            image::Rgb([0, 255, 0])
        }
    });
    let bytes = png_bytes_rgb(&img);
    assert_eq!(get_dominant_color(&bytes), Ok(0x0000FF));
}

#[test]
fn opaque_minority_outweighs_transparent_majority() {
    // 30 fully opaque red pixels (weight 30*255) against 70 nearly
    // transparent blue pixels (weight 70*1): weight, not count, decides.
    let img = image::RgbaImage::from_fn(10, 10, |x, y| {
        if y * 10 + x < 30 {
            image::Rgba([255, 0, 0, 255])
        } else {
            image::Rgba([0, 0, 255, 1])
        }
    });
    let bytes = png_bytes_rgba(&img);
    assert_eq!(get_dominant_color(&bytes), Ok(0xFF0000));
}

#[test]
fn repeated_calls_agree() {
    let img = image::RgbImage::from_fn(9, 9, |x, y| {
        image::Rgb([(x * 28) as u8, (y * 28) as u8, 99])
    });
    let bytes = png_bytes_rgb(&img);
    let first = get_dominant_color(&bytes);
    let second = get_dominant_color(&bytes);
    assert!(first.is_ok());
    assert_eq!(first, second);
}

#[test]
fn output_stable_across_large_resolutions() {
    let small = png_bytes_rgb(&image::RgbImage::from_pixel(300, 300, image::Rgb([12, 200, 80])));
    let large = png_bytes_rgb(&image::RgbImage::from_pixel(500, 240, image::Rgb([12, 200, 80])));
    let a = get_dominant_color(&small);
    let b = get_dominant_color(&large);
    assert_eq!(a, Ok(0x0CC850));
    assert_eq!(a, b);
}

#[test]
fn garbage_bytes_report_decode_failure() {
    let bytes = b"this is certainly not an encoded image";
    assert_eq!(
        get_dominant_color(bytes),
        Err(DominantColorError::DecodeFailure)
    );
}

#[test]
fn empty_bytes_report_decode_failure() {
    assert_eq!(
        get_dominant_color(&[]),
        Err(DominantColorError::DecodeFailure)
    );
}

#[test]
fn fully_transparent_pixel_reports_empty_input_failure() {
    let img = image::RgbaImage::from_pixel(1, 1, image::Rgba([200, 100, 50, 0]));
    let bytes = png_bytes_rgba(&img);
    assert_eq!(
        get_dominant_color(&bytes),
        Err(DominantColorError::EmptyInputFailure)
    );
}

#[test]
fn averaging_rounds_half_up() {
    // (100,0,0) and (101,0,0) share one cluster; the average red channel
    // is 100.5 and must round up to 101.
    let img = image::RgbImage::from_fn(2, 1, |x, _| image::Rgb([100 + x as u8, 0, 0]));
    let bytes = png_bytes_rgb(&img);
    assert_eq!(get_dominant_color(&bytes), Ok(0x650000));
}

#[test]
fn equal_weights_break_toward_lowest_cluster_key() {
    // Black (cluster key 0) and white (cluster key 63), one pixel each:
    // equal weight, and the lower key must win deterministically.
    let img = image::RgbImage::from_fn(2, 1, |x, _| {
        if x == 0 {
            image::Rgb([255, 255, 255])
        } else {
            image::Rgb([0, 0, 0])
        }
    });
    let bytes = png_bytes_rgb(&img);
    assert_eq!(get_dominant_color(&bytes), Ok(0x000000));
}

#[test]
fn grayscale_image_decodes_to_its_gray() {
    let img = image::GrayImage::from_pixel(3, 3, image::Luma([128]));
    let mut buf: Vec<u8> = Vec::new();
    img.write_to(&mut std::io::Cursor::new(&mut buf), image::ImageFormat::Png)
        .unwrap();
    assert_eq!(get_dominant_color(&buf), Ok(0x808080));
}

#[test]
fn opaque_alpha_image_reports_its_color() {
    let img = image::RgbaImage::from_pixel(4, 4, image::Rgba([0, 255, 0, 255]));
    let bytes = png_bytes_rgba(&img);
    assert_eq!(get_dominant_color(&bytes), Ok(0x00FF00));
}

#[test]
fn pixel_core_solid_red_without_alpha() {
    let pixels = vec![255u8, 0, 0];
    assert_eq!(dominant_pixel_color(&pixels, false), Some(0xFF0000));
}

#[test]
fn pixel_core_empty_buffer_has_no_dominant_color() {
    let pixels: Vec<u8> = Vec::new();
    assert_eq!(dominant_pixel_color(&pixels, false), None);
    assert_eq!(dominant_pixel_color(&pixels, true), None);
}

#[test]
fn pixel_core_zero_alpha_has_no_dominant_color() {
    let pixels = vec![10u8, 20, 30, 0, 40, 50, 60, 0];
    assert_eq!(dominant_pixel_color(&pixels, true), None);
}

#[test]
fn pixel_core_weights_scale_contributions() {
    // One pixel at (200,0,0) with alpha 200 and one at (210,0,0) with
    // alpha 100 share a cluster key; the weighted average red channel is
    // (200*200 + 210*100) / 300 = 203.33, rounded to 203.
    let pixels = vec![200u8, 0, 0, 200, 210, 0, 0, 100];
    assert_eq!(dominant_pixel_color(&pixels, true), Some(0xCB0000));
}
