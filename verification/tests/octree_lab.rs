//! The CIELAB octree: the tree itself is the library's; the colour
//! conversions it is handed here follow the D65 sRGB ↔ CIELAB formulas.

use swatchthis::algorithms::octree::{extract_colors_octree, OctreeColorSpace, OctreeDepth};
use swatchthis::color::Rgb;

fn linearize(c: u8) -> f32 {
    let c = c as f32 / 255.0;
    if c <= 0.04045 {
        c / 12.92
    } else {
        ((c + 0.055) / 1.055).powf(2.4)
    }
}

fn delinearize(c: f32) -> u8 {
    let c = if c <= 0.0031308 {
        12.92 * c
    } else {
        1.055 * c.powf(1.0 / 2.4) - 0.055
    };
    (c.clamp(0.0, 1.0) * 255.0).round() as u8
}

fn lab_f(t: f32) -> f32 {
    let delta: f32 = 6.0 / 29.0;
    if t > delta * delta * delta {
        t.cbrt()
    } else {
        t / (3.0 * delta * delta) + 4.0 / 29.0
    }
}

fn lab_f_inv(t: f32) -> f32 {
    let delta: f32 = 6.0 / 29.0;
    if t > delta {
        t * t * t
    } else {
        3.0 * delta * delta * (t - 4.0 / 29.0)
    }
}

fn to_lab(c: Rgb) -> (f32, f32, f32) {
    let (r, g, b) = (linearize(c.r), linearize(c.g), linearize(c.b));
    let x = r * 0.4124564 + g * 0.3575761 + b * 0.1804375;
    let y = r * 0.2126729 + g * 0.7151522 + b * 0.0721750;
    let z = r * 0.0193339 + g * 0.1191920 + b * 0.9503041;
    let (fx, fy, fz) = (lab_f(x / 0.95047), lab_f(y), lab_f(z / 1.08883));
    (116.0 * fy - 16.0, 500.0 * (fx - fy), 200.0 * (fy - fz))
}

fn to_rgb(l: f32, a: f32, b: f32) -> Rgb {
    let fy = (l + 16.0) / 116.0;
    let fx = a / 500.0 + fy;
    let fz = fy - b / 200.0;
    let x = 0.95047 * lab_f_inv(fx);
    let y = lab_f_inv(fy);
    let z = 1.08883 * lab_f_inv(fz);
    let r = x * 3.2404542 + y * -1.5371385 + z * -0.4985314;
    let g = x * -0.9692660 + y * 1.8760108 + z * 0.0415560;
    let bb = x * 0.0556434 + y * -0.2040259 + z * 1.0572252;
    Rgb::new(delinearize(r), delinearize(g), delinearize(bb))
}

fn lab_octree(pixels: &[Rgb], k: usize) -> Vec<(Rgb, u32)> {
    extract_colors_octree(
        pixels,
        k,
        OctreeColorSpace::Lab,
        OctreeDepth::D6,
        |c: Rgb| {
            let (l, a, b) = to_lab(c);
            (l as i32, a as i32, b as i32)
        },
        |s0: i64, s1: i64, s2: i64, n: u32| {
            let n = n as f32;
            to_rgb(s0 as f32 / n, s1 as f32 / n, s2 as f32 / n)
        },
    )
}

fn make_pixels(colors: &[(u8, u8, u8)], count_each: usize) -> Vec<Rgb> {
    colors
        .iter()
        .flat_map(|&(r, g, b)| std::iter::repeat_n(Rgb::new(r, g, b), count_each))
        .collect()
}

fn total_population(result: &[(Rgb, u32)]) -> u32 {
    result.iter().map(|(_, p)| p).sum()
}

#[test]
fn single_color_lab() {
    let pixels = make_pixels(&[(42, 42, 42)], 50);
    let result = lab_octree(&pixels, 1);
    assert_eq!(result.len(), 1);
    assert_eq!(result[0].1, 50);
    let c = result[0].0;
    assert!(
        Rgb::new(42, 42, 42).distance_squared(c) < 10,
        "expected ~(42,42,42), got ({},{},{})",
        c.r,
        c.g,
        c.b,
    );
}

#[test]
fn octree_extracts_obvious_clusters_lab() {
    let pixels = make_pixels(&[(255, 0, 0), (0, 255, 0), (0, 0, 255)], 100);
    let result = lab_octree(&pixels, 3);
    assert_eq!(result.len(), 3);
    for expected in [
        Rgb::new(255, 0, 0),
        Rgb::new(0, 255, 0),
        Rgb::new(0, 0, 255),
    ] {
        assert!(
            result
                .iter()
                .any(|(c, _)| c.distance_squared(expected) < 400),
            "missing expected colour {expected:?} in {result:?}",
        );
    }
}

#[test]
fn lab_preserves_population() {
    let pixels = make_pixels(&[(200, 50, 50), (50, 200, 50)], 60);
    let result = lab_octree(&pixels, 2);
    assert_eq!(total_population(&result), 120);
}
