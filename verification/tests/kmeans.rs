use swatchthis::algorithms::kmeans::{
    extract_colors_kmeans, init_random, InitMethod, KmeansColorSpace, SimpleRng,
};
use swatchthis::color::Rgb;

fn make_pixels(colors: &[(u8, u8, u8)], count_each: usize) -> Vec<Rgb> {
    colors
        .iter()
        .flat_map(|&(r, g, b)| std::iter::repeat_n(Rgb::new(r, g, b), count_each))
        .collect()
}

fn no_lab(_v: Vec<Rgb>, _k: usize, _cs: KmeansColorSpace, _i: InitMethod, _s: u64) -> Vec<(Rgb, u32)> {
    Vec::new()
}

fn rgb_kmeans(pixels: &[Rgb], k: usize, init: InitMethod, seed: u64) -> Vec<(Rgb, u32)> {
    extract_colors_kmeans(pixels, k, KmeansColorSpace::Rgb, init, seed, no_lab)
}

#[test]
fn kmeans_extracts_obvious_clusters_rgb() {
    let pixels = make_pixels(&[(255, 0, 0), (0, 255, 0), (0, 0, 255)], 100);
    let swatches = rgb_kmeans(&pixels, 3, InitMethod::KMeansPlusPlus, 42);
    assert_eq!(swatches.len(), 3);
    for expected in [
        Rgb::new(255, 0, 0),
        Rgb::new(0, 255, 0),
        Rgb::new(0, 0, 255),
    ] {
        assert!(
            swatches
                .iter()
                .any(|(s, _)| s.distance_squared(expected) < 10),
            "missing expected colour {expected:?}"
        );
    }
}

#[test]
fn random_init_works() {
    let pixels = make_pixels(&[(200, 50, 50), (50, 200, 50)], 50);
    let swatches = rgb_kmeans(&pixels, 2, InitMethod::Random, 7);
    assert_eq!(swatches.len(), 2);
}

#[test]
fn single_colour() {
    let pixels = make_pixels(&[(42, 42, 42)], 10);
    let swatches = rgb_kmeans(&pixels, 1, InitMethod::KMeansPlusPlus, 1);
    assert_eq!(swatches.len(), 1);
    assert_eq!(swatches[0].0, Rgb::new(42, 42, 42));
}

#[test]
fn kmeans_empty_input() {
    assert!(rgb_kmeans(&[], 5, InitMethod::Random, 0).is_empty());
}

#[test]
fn kmeans_k_larger_than_pixels() {
    let pixels = vec![Rgb::new(10, 20, 30), Rgb::new(40, 50, 60)];
    let swatches = rgb_kmeans(&pixels, 100, InitMethod::Random, 1);
    assert_eq!(swatches.len(), 2);
}

#[test]
fn kmeans_zero_k_is_empty() {
    let pixels = make_pixels(&[(1, 2, 3)], 4);
    assert!(rgb_kmeans(&pixels, 0, InitMethod::KMeansPlusPlus, 9).is_empty());
}

#[test]
fn xorshift_first_value() {
    // Seed zero starts from state one; one xorshift step of 1 is 1082269761.
    let mut rng = SimpleRng::new(0);
    assert_eq!(rng.next_u64(), 1082269761);
    let mut rng = SimpleRng::new(1);
    assert_eq!(rng.next_u64(), 1082269761);
    assert_eq!(rng.state, 1082269761);
}

#[test]
fn init_random_draws_distinct_positions() {
    let items: Vec<u32> = (0..10).collect();
    let mut rng = SimpleRng::new(5);
    let mut picks = init_random(&items, 10, &mut rng);
    picks.sort();
    assert_eq!(picks, items);
    let mut rng = SimpleRng::new(5);
    assert_eq!(init_random(&items, 0, &mut rng), Vec::<u32>::new());
}

#[test]
fn kmeans_is_deterministic_per_seed() {
    let pixels: Vec<Rgb> = (0..200u32)
        .map(|i| Rgb::new((i * 37 % 256) as u8, (i * 91 % 256) as u8, (i * 13 % 256) as u8))
        .collect();
    for init in [InitMethod::Random, InitMethod::KMeansPlusPlus] {
        let a = rgb_kmeans(&pixels, 5, init, 123);
        let b = rgb_kmeans(&pixels, 5, init, 123);
        assert_eq!(a, b);
    }
}

#[test]
fn kmeans_populations_add_up() {
    let pixels: Vec<Rgb> = (0..300u32)
        .map(|i| Rgb::new((i * 7 % 256) as u8, (i * 11 % 256) as u8, (i * 3 % 256) as u8))
        .collect();
    for init in [InitMethod::Random, InitMethod::KMeansPlusPlus] {
        for k in [1, 2, 5, 17] {
            let result = rgb_kmeans(&pixels, k, init, 99);
            let total: u32 = result.iter().map(|(_, p)| p).sum();
            assert_eq!(total, 300);
            assert!(!result.is_empty() && result.len() <= k);
        }
    }
}

#[test]
fn kmeans_plusplus_stops_at_distinct_colours() {
    // Only two distinct colours: seeding stops after two centroids.
    let pixels = make_pixels(&[(10, 10, 10), (250, 250, 250)], 20);
    let result = rgb_kmeans(&pixels, 5, InitMethod::KMeansPlusPlus, 3);
    assert_eq!(result.len(), 2);
    assert!(result.contains(&(Rgb::new(10, 10, 10), 20)));
    assert!(result.contains(&(Rgb::new(250, 250, 250), 20)));
}

#[test]
fn kmeans_lab_goes_to_the_hook() {
    let pixels = make_pixels(&[(1, 2, 3)], 3);
    let result = extract_colors_kmeans(
        &pixels,
        10,
        KmeansColorSpace::Lab,
        InitMethod::Random,
        4,
        |v: Vec<Rgb>, k: usize, cs: KmeansColorSpace, _i: InitMethod, seed: u64| {
            assert_eq!(cs, KmeansColorSpace::Lab);
            vec![(v[0], (v.len() * 100 + k * 10) as u32 + seed as u32)]
        },
    );
    assert_eq!(result, vec![(Rgb::new(1, 2, 3), 334)]);
}

#[test]
fn init_random_advances_generator_once_per_pick() {
    let items: Vec<u32> = (0..10).collect();
    let mut rng = SimpleRng::new(11);
    let _ = init_random(&items, 4, &mut rng);
    let mut fresh = SimpleRng::new(11);
    for _ in 0..4 {
        fresh.next_u64();
    }
    assert_eq!(rng.state, fresh.state);
}
