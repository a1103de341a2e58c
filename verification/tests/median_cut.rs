use swatchthis::algorithms::median_cut::extract_colors_median_cut;
use swatchthis::color::Rgb;

fn make_pixels(colors: &[(u8, u8, u8)], count_each: usize) -> Vec<Rgb> {
    colors
        .iter()
        .flat_map(|&(r, g, b)| std::iter::repeat_n(Rgb::new(r, g, b), count_each))
        .collect()
}

fn total_population(result: &[(Rgb, u32)]) -> u32 {
    result.iter().map(|(_, p)| p).sum()
}

#[test]
fn median_cut_empty_input() {
    assert!(extract_colors_median_cut(&[], 5).is_empty());
}

#[test]
fn median_cut_zero_k() {
    let pixels = vec![Rgb::new(255, 0, 0); 10];
    assert!(extract_colors_median_cut(&pixels, 0).is_empty());
}

#[test]
fn single_color() {
    let pixels = make_pixels(&[(42, 42, 42)], 50);
    let result = extract_colors_median_cut(&pixels, 1);
    assert_eq!(result.len(), 1);
    assert_eq!(result[0].0, Rgb::new(42, 42, 42));
    assert_eq!(result[0].1, 50);
}

#[test]
fn extracts_distinct_colors() {
    let pixels = make_pixels(&[(255, 0, 0), (0, 255, 0), (0, 0, 255)], 100);
    let result = extract_colors_median_cut(&pixels, 3);
    assert_eq!(result.len(), 3);
    for pair in result.windows(2) {
        assert!(
            pair[0].0.distance_squared(pair[1].0) > 0,
            "got duplicate colours in result",
        );
    }
}

#[test]
fn median_cut_population_sums_to_pixel_count() {
    let pixels = make_pixels(&[(200, 50, 50), (50, 200, 50), (50, 50, 200)], 80);
    let result = extract_colors_median_cut(&pixels, 3);
    assert_eq!(total_population(&result), 240);
}

#[test]
fn median_cut_k_larger_than_pixels() {
    let pixels = vec![Rgb::new(10, 20, 30), Rgb::new(40, 50, 60)];
    let result = extract_colors_median_cut(&pixels, 100);
    assert_eq!(result.len(), 2);
}

#[test]
fn median_cut_k_one() {
    let pixels = make_pixels(&[(100, 150, 200), (200, 100, 50)], 50);
    let result = extract_colors_median_cut(&pixels, 1);
    assert_eq!(result.len(), 1);
    assert_eq!(total_population(&result), 100);
}

#[test]
fn median_cut_splits_widest_channel_at_median() {
    // Red spans 0..=90, green and blue are constant: the first cut sorts by
    // red and halves the box, so the two means are those of each half.
    let pixels: Vec<Rgb> = (0..10).map(|i| Rgb::new(i * 10, 5, 5)).collect();
    let result = extract_colors_median_cut(&pixels, 2);
    assert_eq!(result.len(), 2);
    assert_eq!(result[0], (Rgb::new(20, 5, 5), 5));
    assert_eq!(result[1], (Rgb::new(70, 5, 5), 5));
}

#[test]
fn median_cut_mean_is_truncated() {
    let pixels = vec![Rgb::new(1, 2, 3), Rgb::new(2, 3, 5)];
    let result = extract_colors_median_cut(&pixels, 1);
    assert_eq!(result, vec![(Rgb::new(1, 2, 4), 2)]);
}

#[test]
fn median_cut_len_is_min_of_k_and_sample() {
    // Every pixel distinct: the boxes split until there are exactly k.
    let pixels: Vec<Rgb> = (0..40).map(|i| Rgb::new(i * 6, 255 - i * 6, 7)).collect();
    for k in 1..45 {
        let result = extract_colors_median_cut(&pixels, k);
        assert_eq!(result.len(), k.min(40));
        assert_eq!(total_population(&result), 40);
        assert!(result.iter().all(|(_, p)| *p >= 1));
    }
}

#[test]
fn median_cut_counts_sampled_pixels_of_large_input() {
    // 50_000 pixels are sampled every second pixel: 25_000 remain.
    let pixels = vec![Rgb::new(9, 9, 9); 50_000];
    let result = extract_colors_median_cut(&pixels, 4);
    assert_eq!(total_population(&result), 25_000);
    assert_eq!(result.len(), 4);
}
