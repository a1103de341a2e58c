use swatchthis::algorithms::octree::{extract_colors_octree, OctreeColorSpace, OctreeDepth};
use swatchthis::color::Rgb;

fn make_pixels(colors: &[(u8, u8, u8)], count_each: usize) -> Vec<Rgb> {
    colors
        .iter()
        .flat_map(|&(r, g, b)| std::iter::repeat_n(Rgb::new(r, g, b), count_each))
        .collect()
}

fn total_population(result: &[(Rgb, u32)]) -> u32 {
    result.iter().map(|(_, p)| p).sum()
}

/// The RGB colour space never consults the CIELAB conversions.
fn rgb_octree(pixels: &[Rgb], k: usize, depth: OctreeDepth) -> Vec<(Rgb, u32)> {
    extract_colors_octree(
        pixels,
        k,
        OctreeColorSpace::Rgb,
        depth,
        |_c: Rgb| (0, 0, 0),
        |_a: i64, _b: i64, _c: i64, _n: u32| Rgb::new(0, 0, 0),
    )
}

#[test]
fn octree_empty_input() {
    assert!(rgb_octree(&[], 5, OctreeDepth::D6).is_empty());
}

#[test]
fn octree_zero_k() {
    let pixels = vec![Rgb::new(255, 0, 0); 10];
    assert!(rgb_octree(&pixels, 0, OctreeDepth::D6).is_empty());
}

#[test]
fn single_color_rgb() {
    let pixels = make_pixels(&[(42, 42, 42)], 50);
    let result = rgb_octree(&pixels, 1, OctreeDepth::D6);
    assert_eq!(result.len(), 1);
    assert_eq!(result[0].0, Rgb::new(42, 42, 42));
    assert_eq!(result[0].1, 50);
}

#[test]
fn octree_extracts_obvious_clusters_rgb() {
    let pixels = make_pixels(&[(255, 0, 0), (0, 255, 0), (0, 0, 255)], 100);
    let result = rgb_octree(&pixels, 3, OctreeDepth::D6);
    assert_eq!(result.len(), 3);
    for expected in [
        Rgb::new(255, 0, 0),
        Rgb::new(0, 255, 0),
        Rgb::new(0, 0, 255),
    ] {
        assert!(
            result
                .iter()
                .any(|(c, _)| c.distance_squared(expected) < 10),
            "missing expected colour {expected:?}",
        );
    }
}

#[test]
fn respects_k_limit() {
    let pixels = make_pixels(
        &[
            (255, 0, 0),
            (0, 255, 0),
            (0, 0, 255),
            (255, 255, 0),
            (255, 0, 255),
            (0, 255, 255),
            (128, 128, 128),
            (0, 0, 0),
        ],
        100,
    );
    let result = rgb_octree(&pixels, 4, OctreeDepth::D6);
    assert!(
        result.len() <= 4,
        "got {} colors, expected <= 4",
        result.len()
    );
}

#[test]
fn k_larger_than_distinct_colors() {
    let pixels = make_pixels(&[(10, 20, 30), (40, 50, 60)], 50);
    let result = rgb_octree(&pixels, 100, OctreeDepth::D6);
    assert!(result.len() <= 2);
    assert_eq!(total_population(&result), 100);
}

#[test]
fn octree_population_sums_to_pixel_count() {
    let pixels = make_pixels(&[(200, 50, 50), (50, 200, 50), (50, 50, 200)], 80);
    let result = rgb_octree(&pixels, 3, OctreeDepth::D6);
    assert_eq!(total_population(&result), 240);
}

#[test]
fn sorted_by_population_descending() {
    let mut pixels = make_pixels(&[(255, 0, 0)], 200);
    pixels.extend(make_pixels(&[(0, 255, 0)], 100));
    pixels.extend(make_pixels(&[(0, 0, 255)], 50));
    let result = rgb_octree(&pixels, 3, OctreeDepth::D6);
    for w in result.windows(2) {
        assert!(w[0].1 >= w[1].1, "palette not sorted by population");
    }
}

#[test]
fn k_fewer_than_octree_branches() {
    let pixels = make_pixels(
        &[
            (255, 0, 0),
            (0, 255, 0),
            (0, 0, 255),
            (255, 255, 0),
            (255, 0, 255),
            (0, 255, 255),
            (128, 128, 128),
            (255, 255, 255),
        ],
        100,
    );
    let result = rgb_octree(&pixels, 2, OctreeDepth::D6);
    assert!(result.len() <= 2);
}

#[test]
fn octree_k_one() {
    let pixels = make_pixels(&[(100, 150, 200), (200, 100, 50)], 50);
    let result = rgb_octree(&pixels, 1, OctreeDepth::D6);
    assert_eq!(result.len(), 1);
}

#[test]
fn different_depths() {
    let pixels = make_pixels(&[(255, 0, 0), (0, 255, 0)], 50);
    for depth in [
        OctreeDepth::D1,
        OctreeDepth::D2,
        OctreeDepth::D3,
        OctreeDepth::D4,
        OctreeDepth::D5,
        OctreeDepth::D6,
        OctreeDepth::D7,
        OctreeDepth::D8,
    ] {
        let result = rgb_octree(&pixels, 2, depth);
        assert!(!result.is_empty(), "empty result at depth {depth:?}");
        assert_eq!(total_population(&result), 100);
    }
}

#[test]
fn many_similar_colors() {
    let pixels: Vec<Rgb> = (0..50)
        .map(|i| Rgb::new(100 + i, 100 + i, 100 + i))
        .collect();
    let result = rgb_octree(&pixels, 3, OctreeDepth::D6);
    assert!(result.len() <= 3);
    assert_eq!(total_population(&result), 50);
}

#[test]
fn octree_depth_from_u32_maps_out_of_range_to_d8() {
    assert_eq!(OctreeDepth::from_u32(0), OctreeDepth::D8);
    assert_eq!(OctreeDepth::from_u32(1), OctreeDepth::D1);
    assert_eq!(OctreeDepth::from_u32(5), OctreeDepth::D5);
    assert_eq!(OctreeDepth::from_u32(8), OctreeDepth::D8);
    assert_eq!(OctreeDepth::from_u32(99), OctreeDepth::D8);
}

#[test]
fn octree_two_colours_keep_their_means() {
    let pixels = make_pixels(&[(10, 20, 30), (200, 100, 50)], 5);
    let result = rgb_octree(&pixels, 2, OctreeDepth::D8);
    assert_eq!(result.len(), 2);
    assert!(result.contains(&(Rgb::new(10, 20, 30), 5)));
    assert!(result.contains(&(Rgb::new(200, 100, 50), 5)));
}

#[test]
fn octree_eight_colours_k_at_least_eight_keeps_all_pixels() {
    let pixels = make_pixels(
        &[
            (255, 0, 0),
            (0, 255, 0),
            (0, 0, 255),
            (255, 255, 0),
            (255, 0, 255),
            (0, 255, 255),
            (128, 128, 128),
            (0, 0, 0),
        ],
        10,
    );
    let result = rgb_octree(&pixels, 8, OctreeDepth::D6);
    assert_eq!(total_population(&result), 80);
    assert!(result.iter().all(|(_, p)| *p >= 1));
}
