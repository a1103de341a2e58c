//! SEEDS on images small enough that no resampling happens: the block grid
//! is sized here in floating point, the rest is the library's.

use swatchthis::color::Rgb;
use swatchthis::preprocessors::seeds::seeds_labels;
use swatchthis::preprocessors::superpixel_averages;

fn share_better(h: u32, t: u64, bh: u32, bt: u64) -> bool {
    (h as f32 / t as f32) > (bh as f32 / bt as f32)
}

fn intersection(o: (u128, u64, u64)) -> f32 {
    if o.1 == 0 || o.2 == 0 {
        0.0
    } else {
        (o.0 as f64 / (o.1 as f64 * o.2 as f64)) as f32
    }
}

fn prefer(current: (u128, u64, u64), neighbor: (u128, u64, u64)) -> bool {
    intersection(neighbor) > intersection(current) + 0.1
}

fn seeds_small(
    pixels: &[Rgb],
    width: usize,
    height: usize,
    num_superpixels: usize,
    num_levels: usize,
    histogram_bins: usize,
) -> Vec<Rgb> {
    if pixels.is_empty() || width == 0 || height == 0 {
        return Vec::new();
    }
    assert!(width <= 512 && height <= 512);
    let n = width * height;
    let k = num_superpixels.max(1).min(n);
    let block_area = (n as f64 / k as f64).sqrt();
    let blocks_x = ((width as f64 / block_area).round() as usize).max(1);
    let blocks_y = ((height as f64 / block_area).round() as usize).max(1);
    let labels = seeds_labels(
        pixels,
        width,
        height,
        blocks_x,
        blocks_y,
        num_levels.max(1),
        histogram_bins.max(1),
        prefer,
        share_better,
    );
    superpixel_averages(pixels, &labels)
}

#[test]
fn seeds_uniform_image() {
    let color = Rgb::new(128, 64, 32);
    let pixels = vec![color; 100];
    let result = seeds_small(&pixels, 10, 10, 4, 3, 5);
    for c in &result {
        assert_eq!(*c, color);
    }
}

#[test]
fn seeds_two_color_split() {
    let width = 20;
    let height = 10;
    let mut pixels = Vec::with_capacity(width * height);
    for _y in 0..height {
        for x in 0..width {
            if x < width / 2 {
                pixels.push(Rgb::new(255, 0, 0));
            } else {
                pixels.push(Rgb::new(0, 0, 255));
            }
        }
    }

    let result = seeds_small(&pixels, width, height, 4, 3, 5);
    assert!(!result.is_empty());

    let has_red = result.iter().any(|c| c.r > 200 && c.b < 50);
    let has_blue = result.iter().any(|c| c.b > 200 && c.r < 50);
    assert!(has_red, "Expected red superpixels, got: {:?}", result);
    assert!(has_blue, "Expected blue superpixels, got: {:?}", result);
}

#[test]
fn seeds_tiny_image_1x1() {
    let pixels = vec![Rgb::new(42, 42, 42)];
    let result = seeds_small(&pixels, 1, 1, 1, 2, 3);
    assert_eq!(result.len(), 1);
    assert_eq!(result[0], Rgb::new(42, 42, 42));
}

#[test]
fn seeds_tiny_image_2x2() {
    let pixels = vec![
        Rgb::new(255, 0, 0),
        Rgb::new(0, 255, 0),
        Rgb::new(0, 0, 255),
        Rgb::new(255, 255, 0),
    ];
    let result = seeds_small(&pixels, 2, 2, 4, 2, 3);
    assert!(!result.is_empty());
}

#[test]
fn seeds_empty_image() {
    let result = seeds_small(&[], 0, 0, 4, 3, 5);
    assert!(result.is_empty());
}
