use swatchthis::algorithms::kmeans::{InitMethod, KmeansColorSpace};
use swatchthis::algorithms::octree::{OctreeColorSpace, OctreeDepth};
use swatchthis::color::Rgb;
use swatchthis::{
    generate_swatches_kmeans, generate_swatches_median_cut, generate_swatches_octree,
    pixels_from_rgba, sample_pixels,
};

fn no_lab(_v: Vec<Rgb>, _k: usize, _cs: KmeansColorSpace, _i: InitMethod, _s: u64) -> Vec<(Rgb, u32)> {
    Vec::new()
}

#[test]
fn kmeans_swatches_from_rgba() {
    let rgba: Vec<u8> = [255, 0, 0, 255]
        .repeat(4)
        .into_iter()
        .chain([0, 0, 255, 255].repeat(4))
        .collect();
    let pixels = pixels_from_rgba(&rgba);
    let swatches = generate_swatches_kmeans(
        &pixels,
        2,
        KmeansColorSpace::Rgb,
        InitMethod::KMeansPlusPlus,
        42,
        no_lab,
    );
    assert_eq!(swatches.len(), 2);
}

#[test]
fn kmeans_swatch_single_colour() {
    let pixels = vec![Rgb::new(255, 0, 0); 100];
    let swatches =
        generate_swatches_kmeans(&pixels, 1, KmeansColorSpace::Rgb, InitMethod::Random, 1, no_lab);
    assert_eq!(swatches[0].color, Rgb::new(255, 0, 0));
    assert_eq!(swatches[0].population, 100);
}

#[test]
fn median_cut_swatches_most_common_first() {
    let mut pixels = vec![Rgb::new(0, 0, 255); 10];
    pixels.extend(vec![Rgb::new(255, 0, 0); 30]);
    pixels.extend(vec![Rgb::new(0, 255, 0); 20]);
    let swatches = generate_swatches_median_cut(&pixels, 3);
    assert_eq!(swatches.len(), 3);
    for w in swatches.windows(2) {
        assert!(w[0].population >= w[1].population);
    }
    let total: u32 = swatches.iter().map(|s| s.population).sum();
    assert_eq!(total, 60);
}

#[test]
fn octree_swatches_most_common_first() {
    let mut pixels = vec![Rgb::new(0, 0, 255); 5];
    pixels.extend(vec![Rgb::new(255, 0, 0); 15]);
    let swatches = generate_swatches_octree(
        &pixels,
        4,
        OctreeColorSpace::Rgb,
        OctreeDepth::D6,
        |_c: Rgb| (0, 0, 0),
        |_a: i64, _b: i64, _c: i64, _n: u32| Rgb::new(0, 0, 0),
    );
    assert_eq!(swatches.len(), 2);
    assert_eq!(swatches[0].color, Rgb::new(255, 0, 0));
    assert_eq!(swatches[0].population, 15);
    assert_eq!(swatches[1].population, 5);
    assert_eq!(swatches[0].hex(), "#ff0000");
}

#[test]
fn equal_populations_keep_palette_order() {
    // Two boxes of equal size: median cut lists the lower-red half first,
    // and sorting by population keeps that order.
    let pixels: Vec<Rgb> = (0..4).map(|i| Rgb::new(i * 60, 0, 0)).collect();
    let swatches = generate_swatches_median_cut(&pixels, 2);
    assert_eq!(swatches[0].color, Rgb::new(30, 0, 0));
    assert_eq!(swatches[1].color, Rgb::new(150, 0, 0));
}

#[test]
fn sampling_keeps_every_step_th_pixel() {
    let small: Vec<Rgb> = (0..5).map(|i| Rgb::new(i, 0, 0)).collect();
    assert_eq!(sample_pixels(&small), small);
    let big: Vec<Rgb> = (0..45_000u32).map(|i| Rgb::new((i % 256) as u8, 0, 0)).collect();
    let s = sample_pixels(&big);
    // 45_000 / 20_000 = 2: every second pixel.
    assert_eq!(s.len(), 22_500);
    assert_eq!(s[1], big[2]);
    assert!(sample_pixels(&[]).is_empty());
}
