use softrender::depth::depth_key;
use softrender::framebuffer::FAR_DEPTH;

#[test]
fn zeros_share_a_key() {
    assert_eq!(depth_key(0.0f32.to_bits()), 0x8000_0000);
    assert_eq!(depth_key((-0.0f32).to_bits()), 0x8000_0000);
}

#[test]
fn keys_of_exact_values() {
    assert_eq!(depth_key(1.0f32.to_bits()), 0xBF80_0000);
    assert_eq!(depth_key((-1.0f32).to_bits()), 0x4080_0000);
}

#[test]
fn keys_order_as_values() {
    let values = [-1000.0f32, -2.0, -1.0, -0.25, 0.0, 1e-30, 0.5, 1.0, 3.5, 1e30];
    for w in values.windows(2) {
        assert!(depth_key(w[0].to_bits()) < depth_key(w[1].to_bits()));
    }
}

#[test]
fn infinity_and_nan_are_far() {
    assert_eq!(depth_key(f32::INFINITY.to_bits()), FAR_DEPTH);
    assert_eq!(depth_key(f32::NAN.to_bits()), FAR_DEPTH);
    assert_eq!(depth_key((-f32::NAN).to_bits()), FAR_DEPTH);
    assert!(depth_key(f32::MAX.to_bits()) < FAR_DEPTH);
    assert!(depth_key(f32::NEG_INFINITY.to_bits()) < depth_key(f32::MIN.to_bits()));
}
