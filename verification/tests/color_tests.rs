use rasterizer::color::Color;

#[test]
fn test_new() {
    let color = Color::new(255, 128, 64);
    assert_eq!(color.r, 255);
    assert_eq!(color.g, 128);
    assert_eq!(color.b, 64);
}

#[test]
fn test_new_clamping() {
    let color = Color::new(300, -50, 128);
    assert_eq!(color.r, 255);
    assert_eq!(color.g, 0);
    assert_eq!(color.b, 128);
}

#[test]
fn test_from_hex() {
    let color = Color::from_hex(0xFF5733);
    assert_eq!(color.r, 255);
    assert_eq!(color.g, 87);
    assert_eq!(color.b, 51);
}

#[test]
fn test_to_hex() {
    let color = Color::new(255, 87, 51);
    assert_eq!(color.to_hex(), 0xFF5733);
}

#[test]
fn test_add() {
    let color1 = Color::new(100, 150, 200);
    let color2 = Color::new(50, 60, 70);
    let summed_color = color1 + color2;
    assert_eq!(summed_color.r, 150);
    assert_eq!(summed_color.g, 210);
    assert_eq!(summed_color.b, 255); // Ensuring clamping
}

#[test]
fn test_display() {
    let color = Color::new(100, 150, 200);
    assert_eq!(format!("{}", color.to_string()), "Color (R: 100, G: 150, B: 200)");
}

#[test]
fn new_clamps_at_both_ends_of_the_range() {
    let color = Color::new(i32::MIN, i32::MAX, 0);
    assert_eq!((color.r, color.g, color.b), (0, 255, 0));
    let color = Color::new(-1, 256, 255);
    assert_eq!((color.r, color.g, color.b), (0, 255, 255));
}

#[test]
fn from_hex_ignores_bits_above_the_low_24() {
    let color = Color::from_hex(0xAB12_3456);
    assert_eq!((color.r, color.g, color.b), (0x12, 0x34, 0x56));
}

#[test]
fn packing_round_trips_for_sampled_colors() {
    for r in [0u8, 1, 127, 128, 254, 255] {
        for g in [0u8, 1, 127, 128, 254, 255] {
            for b in [0u8, 1, 127, 128, 254, 255] {
                let color = Color { r, g, b };
                let back = Color::from_hex(color.to_hex());
                assert_eq!((back.r, back.g, back.b), (r, g, b));
            }
        }
    }
}

#[test]
fn unpacking_round_trips_for_sampled_integers() {
    for hex in [0x000000u32, 0x000001, 0x00FF00, 0x123456, 0xFFFFFF] {
        assert_eq!(Color::from_hex(hex).to_hex(), hex);
    }
    assert_eq!(Color::from_hex(0xFF00_0001).to_hex(), 0x000001);
}

#[test]
fn to_hex_places_each_channel() {
    assert_eq!(Color { r: 1, g: 0, b: 0 }.to_hex(), 0x010000);
    assert_eq!(Color { r: 0, g: 1, b: 0 }.to_hex(), 0x000100);
    assert_eq!(Color { r: 0, g: 0, b: 1 }.to_hex(), 0x000001);
}

#[test]
fn add_saturates_every_channel() {
    let sum = Color::new(250, 250, 250) + Color::new(10, 10, 10);
    assert_eq!((sum.r, sum.g, sum.b), (255, 255, 255));
}

#[test]
fn add_clamps_each_channel_on_its_own() {
    let sum = Color::new(200, 10, 255) + Color::new(100, 20, 0);
    assert_eq!((sum.r, sum.g, sum.b), (255, 30, 255));
    let sum = Color::new(0, 0, 0) + Color::new(0, 255, 1);
    assert_eq!((sum.r, sum.g, sum.b), (0, 255, 1));
}

#[test]
fn text_has_no_leading_zeros() {
    assert_eq!(Color::new(0, 7, 42).to_string(), "Color (R: 0, G: 7, B: 42)");
    assert_eq!(Color::new(255, 100, 10).to_string(), "Color (R: 255, G: 100, B: 10)");
    assert_eq!(Color::new(9, 99, 109).to_string(), "Color (R: 9, G: 99, B: 109)");
}
