use softrender::color::{blend_colors, halve_channels, lerp_color, Color, BLEND_ONE};

#[test]
fn from_hex_splits_channels() {
    let c = Color::from_hex(0x123456);
    assert_eq!((c.r, c.g, c.b), (0x12, 0x34, 0x56));
    assert_eq!(Color::from_hex(0xFF00_0000 | 0x00AAFF), Color::new(0x00, 0xAA, 0xFF));
}

#[test]
fn to_hex_packs_channels() {
    assert_eq!(Color::new(0x80, 0x90, 0xA0).to_hex(), 0x8090A0);
    assert_eq!(Color::black().to_hex(), 0);
    assert_eq!(Color::new(255, 255, 255).to_hex(), 0xFFFFFF);
}

#[test]
fn pack_unpack_round_trip_every_channel_value() {
    for v in 0..=255u8 {
        for c in [Color::new(v, 0, 0), Color::new(0, v, 0), Color::new(0, 0, v), Color::new(v, 255 - v, v / 3)] {
            assert_eq!(Color::from_hex(c.to_hex()), c);
        }
    }
}

#[test]
fn lerp_endpoints_give_the_inputs() {
    let a = Color::new(10, 20, 30);
    let b = Color::new(200, 100, 0);
    assert_eq!(lerp_color(&a, &b, 0), a);
    assert_eq!(lerp_color(&a, &b, BLEND_ONE), b);
    assert_eq!(lerp_color(&a, &b, BLEND_ONE + 1000), b);
}

#[test]
fn lerp_midpoint_and_truncation() {
    let a = Color::new(10, 20, 30);
    let b = Color::new(200, 100, 0);
    assert_eq!(lerp_color(&a, &b, BLEND_ONE / 2), Color::new(105, 60, 15));
    let black = Color::black();
    let one = Color::new(1, 1, 1);
    assert_eq!(lerp_color(&black, &one, BLEND_ONE / 2), black);
    let white = Color::new(255, 255, 255);
    assert_eq!(lerp_color(&white, &black, 1), Color::new(254, 254, 254));
}

#[test]
fn blend_matches_lerp() {
    let base = Color::from_hex(0x8090A0);
    let glow = Color::from_hex(0x00AAFF);
    let t = BLEND_ONE / 4;
    assert_eq!(blend_colors(&base, &glow, t), lerp_color(&base, &glow, t));
    assert_eq!(blend_colors(&base, &glow, t), Color::new(96, 150, 183));
}

#[test]
fn halving_dims_each_channel() {
    assert_eq!(halve_channels(0x404080), 0x202040);
    assert_eq!(halve_channels(0xFFFFFF), 0x7F7F7F);
    assert_eq!(halve_channels(0x010203), 0x000101);
}

#[test]
fn scaling_truncates_and_caps() {
    let c = Color::new(200, 101, 0);
    assert_eq!(c.scale(BLEND_ONE), c);
    assert_eq!(c.scale(BLEND_ONE / 2), Color::new(100, 50, 0));
    assert_eq!(c.scale(0), Color::black());
    assert_eq!(c.scale(2 * BLEND_ONE), Color::new(255, 202, 0));
    assert_eq!(Color::new(10, 10, 10).scale(u32::MAX), Color::new(255, 255, 255));
}
