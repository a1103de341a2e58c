//! CIELAB k-means: the sampling and capping are the library's; the clustering
//! it is handed here works on D65 CIELAB coordinates.

use swatchthis::algorithms::kmeans::{extract_colors_kmeans, init_random, InitMethod, KmeansColorSpace, SimpleRng};
use swatchthis::color::Rgb;

fn linearize(c: u8) -> f32 {
    let c = c as f32 / 255.0;
    if c <= 0.04045 {
        c / 12.92
    } else {
        ((c + 0.055) / 1.055).powf(2.4)
    }
}

fn delinearize(c: f32) -> u8 {
    let c = if c <= 0.0031308 {
        12.92 * c
    } else {
        1.055 * c.powf(1.0 / 2.4) - 0.055
    };
    (c.clamp(0.0, 1.0) * 255.0).round() as u8
}

fn lab_f(t: f32) -> f32 {
    let delta: f32 = 6.0 / 29.0;
    if t > delta * delta * delta {
        t.cbrt()
    } else {
        t / (3.0 * delta * delta) + 4.0 / 29.0
    }
}

fn lab_f_inv(t: f32) -> f32 {
    let delta: f32 = 6.0 / 29.0;
    if t > delta {
        t * t * t
    } else {
        3.0 * delta * delta * (t - 4.0 / 29.0)
    }
}

fn to_lab(c: Rgb) -> (f32, f32, f32) {
    let (r, g, b) = (linearize(c.r), linearize(c.g), linearize(c.b));
    let x = r * 0.4124564 + g * 0.3575761 + b * 0.1804375;
    let y = r * 0.2126729 + g * 0.7151522 + b * 0.0721750;
    let z = r * 0.0193339 + g * 0.1191920 + b * 0.9503041;
    let (fx, fy, fz) = (lab_f(x / 0.95047), lab_f(y), lab_f(z / 1.08883));
    (116.0 * fy - 16.0, 500.0 * (fx - fy), 200.0 * (fy - fz))
}

fn to_rgb(l: f32, a: f32, b: f32) -> Rgb {
    let fy = (l + 16.0) / 116.0;
    let fx = a / 500.0 + fy;
    let fz = fy - b / 200.0;
    let x = 0.95047 * lab_f_inv(fx);
    let y = lab_f_inv(fy);
    let z = 1.08883 * lab_f_inv(fz);
    let r = x * 3.2404542 + y * -1.5371385 + z * -0.4985314;
    let g = x * -0.9692660 + y * 1.8760108 + z * 0.0415560;
    let bb = x * 0.0556434 + y * -0.2040259 + z * 1.0572252;
    Rgb::new(delinearize(r), delinearize(g), delinearize(bb))
}

type Lab = (f32, f32, f32);

fn lab_dist(p: Lab, q: Lab) -> f32 {
    (p.0 - q.0) * (p.0 - q.0) + (p.1 - q.1) * (p.1 - q.1) + (p.2 - q.2) * (p.2 - q.2)
}

fn nearest(p: Lab, centroids: &[Lab]) -> usize {
    let mut best = 0;
    for (j, c) in centroids.iter().enumerate() {
        if lab_dist(p, *c) < lab_dist(p, centroids[best]) {
            best = j;
        }
    }
    best
}

fn plusplus(labs: &[Lab], k: usize, rng: &mut SimpleRng) -> Vec<Lab> {
    let mut centroids = vec![labs[rng.next_usize() % labs.len()]];
    while centroids.len() < k {
        let dists: Vec<f32> = labs.iter().map(|p| lab_dist(*p, centroids[nearest(*p, &centroids)])).collect();
        let total: f32 = dists.iter().sum();
        if total <= 0.0 {
            break;
        }
        let threshold = (rng.next_u64() % 1_000_000) as f32 / 1_000_000.0 * total;
        let mut cumulative = 0.0;
        let mut pick = dists.iter().rposition(|d| *d > 0.0).unwrap_or(0);
        for (i, d) in dists.iter().enumerate() {
            cumulative += d;
            if *d > 0.0 && cumulative > threshold {
                pick = i;
                break;
            }
        }
        centroids.push(labs[pick]);
    }
    centroids
}

fn lab_cluster(pixels: Vec<Rgb>, k: usize, _cs: KmeansColorSpace, init: InitMethod, seed: u64) -> Vec<(Rgb, u32)> {
    let labs: Vec<Lab> = pixels.iter().map(|p| to_lab(*p)).collect();
    let mut rng = SimpleRng::new(seed);
    let mut centroids = match init {
        InitMethod::Random => init_random(&labs, k, &mut rng),
        InitMethod::KMeansPlusPlus => plusplus(&labs, k, &mut rng),
    };
    let mut counts = vec![0u32; centroids.len()];
    for _ in 0..20 {
        let mut sums = vec![(0f64, 0f64, 0f64); centroids.len()];
        counts = vec![0u32; centroids.len()];
        for p in &labs {
            let j = nearest(*p, &centroids);
            sums[j].0 += p.0 as f64;
            sums[j].1 += p.1 as f64;
            sums[j].2 += p.2 as f64;
            counts[j] += 1;
        }
        for (j, c) in centroids.iter_mut().enumerate() {
            if counts[j] > 0 {
                let n = counts[j] as f64;
                *c = ((sums[j].0 / n) as f32, (sums[j].1 / n) as f32, (sums[j].2 / n) as f32);
            }
        }
    }
    centroids
        .iter()
        .zip(counts.iter())
        .filter(|(_, n)| **n > 0)
        .map(|(c, n)| (to_rgb(c.0, c.1, c.2), *n))
        .collect()
}

fn make_pixels(colors: &[(u8, u8, u8)], count_each: usize) -> Vec<Rgb> {
    colors
        .iter()
        .flat_map(|&(r, g, b)| std::iter::repeat_n(Rgb::new(r, g, b), count_each))
        .collect()
}

#[test]
fn kmeans_extracts_obvious_clusters_lab() {
    let pixels = make_pixels(&[(255, 0, 0), (0, 255, 0), (0, 0, 255)], 100);
    let swatches = extract_colors_kmeans(&pixels, 3, KmeansColorSpace::Lab, InitMethod::KMeansPlusPlus, 42, lab_cluster);
    assert_eq!(swatches.len(), 3);
    for expected in [Rgb::new(255, 0, 0), Rgb::new(0, 255, 0), Rgb::new(0, 0, 255)] {
        assert!(
            swatches.iter().any(|(s, _)| s.distance_squared(expected) < 100),
            "missing expected colour {expected:?} in {swatches:?}"
        );
    }
}
