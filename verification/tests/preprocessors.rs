use swatchthis::color::Rgb;
use swatchthis::preprocessors::seeds::seeds_labels;
use swatchthis::preprocessors::slic::{enforce_connectivity, init_centers, lowest_gradient};
use swatchthis::preprocessors::{compute_superpixel_averages, rgb_vec_to_rgba, superpixel_averages};

#[test]
fn compute_averages_basic() {
    let pixels = vec![
        Rgb::new(100, 0, 0),
        Rgb::new(200, 0, 0),
        Rgb::new(0, 100, 0),
        Rgb::new(0, 200, 0),
    ];
    let labels = vec![0, 0, 1, 1];
    let avgs = compute_superpixel_averages(&pixels, &labels, 2);
    assert_eq!(avgs.len(), 2);
    assert_eq!(avgs[0], Rgb::new(150, 0, 0));
    assert_eq!(avgs[1], Rgb::new(0, 150, 0));
}

#[test]
fn compute_averages_skips_empty_labels() {
    let pixels = vec![Rgb::new(100, 100, 100); 4];
    let labels = vec![0, 0, 2, 2];
    let avgs = compute_superpixel_averages(&pixels, &labels, 3);
    assert_eq!(avgs.len(), 2);
}

#[test]
fn averages_use_largest_label() {
    let pixels = vec![Rgb::new(10, 0, 0), Rgb::new(20, 0, 0), Rgb::new(0, 0, 9)];
    let labels = vec![3, 3, 1];
    assert_eq!(
        superpixel_averages(&pixels, &labels),
        vec![Rgb::new(0, 0, 9), Rgb::new(15, 0, 0)]
    );
}

#[test]
fn rgba_bytes_have_opaque_alpha() {
    let out = rgb_vec_to_rgba(&[Rgb::new(1, 2, 3), Rgb::new(4, 5, 6)]);
    assert_eq!(out, vec![1, 2, 3, 255, 4, 5, 6, 255]);
}

#[test]
fn connectivity_splits_and_merges() {
    // Equal labels that do not touch become separate regions.
    let mut labels = vec![5, 7, 5];
    enforce_connectivity(&mut labels, 3, 1, 0);
    assert_eq!(labels, vec![0, 1, 2]);
    // Regions smaller than the minimum join their nearest labelled neighbour.
    let mut labels = vec![5, 7, 5];
    enforce_connectivity(&mut labels, 3, 1, 2);
    assert_eq!(labels, vec![0, 0, 0]);
    // A connected region keeps one label.
    let mut labels = vec![1, 1, 2, 2];
    enforce_connectivity(&mut labels, 2, 2, 0);
    assert_eq!(labels, vec![0, 0, 1, 1]);
}

#[test]
fn centers_on_grid() {
    assert_eq!(init_centers(10, 10, 4), vec![(2, 2), (6, 2), (2, 6), (6, 6)]);
    assert_eq!(init_centers(1, 1, 4), vec![(0, 0)]);
    assert_eq!(init_centers(3, 1, 1), vec![(0, 0), (1, 0), (2, 0)]);
}

#[test]
fn lowest_gradient_picks_first_minimum() {
    let flat = vec![Rgb::new(9, 9, 9); 9];
    assert_eq!(lowest_gradient(&flat, 3, 3, 1, 1), (0, 0));
    // A bright pixel raises the gradient of its neighbours, not its corner.
    let mut img = vec![Rgb::new(0, 0, 0); 16];
    img[5] = Rgb::new(255, 255, 255);
    assert_eq!(lowest_gradient(&img, 4, 4, 1, 1), (0, 0));
}

fn share_better(h: u32, t: u64, bh: u32, bt: u64) -> bool {
    (h as f32 / t as f32) > (bh as f32 / bt as f32)
}

fn score(o: (u128, u64, u64)) -> f32 {
    if o.1 == 0 || o.2 == 0 {
        0.0
    } else {
        (o.0 as f64 / (o.1 as f64 * o.2 as f64)) as f32
    }
}

fn prefer(current: (u128, u64, u64), neighbor: (u128, u64, u64)) -> bool {
    score(neighbor) > score(current) + 0.1
}

#[test]
fn seeds_uniform_grid_stays() {
    let pixels = vec![Rgb::new(128, 64, 32); 16];
    let labels = seeds_labels(&pixels, 4, 4, 2, 2, 2, 2, prefer, share_better);
    assert_eq!(labels, vec![0, 0, 1, 1, 0, 0, 1, 1, 2, 2, 3, 3, 2, 2, 3, 3]);
}

#[test]
fn seeds_labels_stay_in_range() {
    let pixels: Vec<Rgb> = (0..48u32)
        .map(|i| if i % 8 < 3 { Rgb::new(250, 10, 10) } else { Rgb::new(10, 10, 250) })
        .collect();
    let labels = seeds_labels(&pixels, 8, 6, 2, 2, 3, 4, prefer, share_better);
    assert_eq!(labels.len(), 48);
    assert!(labels.iter().all(|&l| l < 4));
}

#[test]
fn rgba_round_trip() {
    let pixels = vec![Rgb::new(9, 8, 7), Rgb::new(0, 255, 128), Rgb::new(1, 1, 1)];
    let bytes = rgb_vec_to_rgba(&pixels);
    assert_eq!(swatchthis::pixels_from_rgba(&bytes), pixels);
}

#[test]
fn connectivity_merges_into_nearest_or_stays_fresh() {
    // A one-cell region inside another joins it.
    let mut labels = vec![3, 3, 3, 3, 9, 3, 3, 3, 3];
    enforce_connectivity(&mut labels, 3, 3, 2);
    assert_eq!(labels, vec![0; 9]);
    // The first small region has no labelled neighbour yet and keeps a fresh
    // label; the next one joins it.
    let mut labels = vec![5, 5, 7];
    enforce_connectivity(&mut labels, 3, 1, 3);
    assert_eq!(labels, vec![0, 0, 0]);
    // Of two labelled neighbours, the one nearer the region's first cell wins.
    let mut labels = vec![1, 1, 2, 2, 1, 7, 7, 2, 1, 1, 2, 2];
    enforce_connectivity(&mut labels, 4, 3, 3);
    assert_eq!(labels, vec![0, 0, 1, 1, 0, 0, 0, 1, 0, 0, 1, 1]);
}
