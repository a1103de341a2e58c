use swatchthis::color::Rgb;
use swatchthis::pixels_from_rgba;
use swatchthis::swatch::Swatch;

#[test]
fn rgb_to_hex() {
    assert_eq!(Rgb::new(255, 128, 0).to_hex(), "#ff8000");
    assert_eq!(Rgb::new(0, 0, 0).to_hex(), "#000000");
}

#[test]
fn hex_of_mixed_digits() {
    assert_eq!(Rgb::new(0x0a, 0xb1, 0x9f).to_hex(), "#0ab19f");
    assert_eq!(Rgb::new(255, 255, 255).to_hex(), "#ffffff");
}

#[test]
fn distance_squared_values() {
    assert_eq!(Rgb::new(0, 0, 0).distance_squared(Rgb::new(255, 255, 255)), 195075);
    assert_eq!(Rgb::new(10, 20, 30).distance_squared(Rgb::new(13, 16, 30)), 25);
    assert_eq!(Rgb::new(7, 7, 7).distance_squared(Rgb::new(7, 7, 7)), 0);
}

#[test]
fn swatch_hex_and_fields() {
    let s = Swatch::new(Rgb::new(255, 0, 16), 12);
    assert_eq!(s.color, Rgb::new(255, 0, 16));
    assert_eq!(s.population, 12);
    assert_eq!(s.hex(), "#ff0010");
}

#[test]
fn pixels_from_rgba_drops_alpha() {
    let rgba = [255, 128, 0, 255, 0, 0, 0, 255];
    let pixels = pixels_from_rgba(&rgba);
    assert_eq!(pixels, vec![Rgb::new(255, 128, 0), Rgb::new(0, 0, 0)]);
}

#[test]
fn pixels_from_rgba_ignores_trailing_bytes() {
    let rgba = [1, 2, 3, 4, 5, 6, 7];
    assert_eq!(pixels_from_rgba(&rgba), vec![Rgb::new(1, 2, 3)]);
    assert!(pixels_from_rgba(&[]).is_empty());
}
