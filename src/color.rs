//! 24-bit RGB colors, packing to `0xRRGGBB`, and fixed-point blending.
use vstd::prelude::*;

verus! {

/// The blend weight that stands for 1.0: weights are fixed-point fractions
/// of this value.
pub const BLEND_ONE: u32 = 65536;

/// An RGB color with one byte per channel.
#[derive(Clone, Copy, Debug, PartialEq, Eq, Structural)]
pub struct Color {
    pub r: u8,
    pub g: u8,
    pub b: u8,
}

/// The packed `0xRRGGBB` value of three channels.
pub open spec fn pack(r: int, g: int, b: int) -> int {
    r * 65536 + g * 256 + b
}

/// The color whose channels are the three low bytes of `hex`.
pub open spec fn unpack(hex: int) -> Color {
    Color {
        r: ((hex / 65536) % 256) as u8,
        g: ((hex / 256) % 256) as u8,
        b: (hex % 256) as u8,
    }
}

/// One channel of a linear blend from `a` to `b` at weight `t / BLEND_ONE`,
/// truncated toward zero.
pub open spec fn lerp_channel(a: int, b: int, t: int) -> int {
    (a * (BLEND_ONE - t) + b * t) / (BLEND_ONE as int)
}

/// A blend weight clamped into `[0, BLEND_ONE]`.
pub open spec fn clamp_weight(t: int) -> int {
    if t > BLEND_ONE { BLEND_ONE as int } else { t }
}

/// The linear blend of two colors at weight `t` (clamped), channel by channel.
pub open spec fn lerp_spec(a: Color, b: Color, t: int) -> Color {
    let w = clamp_weight(t);
    Color {
        r: lerp_channel(a.r as int, b.r as int, w) as u8,
        g: lerp_channel(a.g as int, b.g as int, w) as u8,
        b: lerp_channel(a.b as int, b.b as int, w) as u8,
    }
}

/// One channel scaled by `factor / BLEND_ONE`, truncated and capped at 255.
pub open spec fn scale_channel(c: int, factor: int) -> int {
    let v = c * factor / (BLEND_ONE as int);
    if v > 255 {
        255
    } else {
        v
    }
}

impl Color {
    pub open spec fn packed(self) -> int {
        pack(self.r as int, self.g as int, self.b as int)
    }

    pub fn new(r: u8, g: u8, b: u8) -> (c: Color)
        ensures
            c.r == r && c.g == g && c.b == b,
    {
        Color { r, g, b }
    }

    pub fn black() -> (c: Color)
        ensures
            c.r == 0 && c.g == 0 && c.b == 0,
    {
        Color { r: 0, g: 0, b: 0 }
    }

    /// The color of a packed `0xRRGGBB` value; bits above the low 24 are ignored.
    pub fn from_hex(hex: u32) -> (c: Color)
        ensures
            c == unpack(hex as int),
    {
        Color { r: (hex / 65536 % 256) as u8, g: (hex / 256 % 256) as u8, b: (hex % 256) as u8 }
    }

    /// The packed `0xRRGGBB` value of this color.
    pub fn to_hex(&self) -> (hex: u32)
        ensures
            hex as int == self.packed(),
            hex < 0x100_0000,
    {
        (self.r as u32) * 65536 + (self.g as u32) * 256 + (self.b as u32)
    }

    /// Each channel multiplied by `factor / BLEND_ONE`, truncated and capped at 255.
    pub fn scale(&self, factor: u32) -> (c: Color)
        ensures
            c.r as int == scale_channel(self.r as int, factor as int),
            c.g as int == scale_channel(self.g as int, factor as int),
            c.b as int == scale_channel(self.b as int, factor as int),
    {
        Color {
            r: scale_channel_exec(self.r, factor),
            g: scale_channel_exec(self.g, factor),
            b: scale_channel_exec(self.b, factor),
        }
    }
}

fn scale_channel_exec(c: u8, factor: u32) -> (r: u8)
    ensures
        r as int == scale_channel(c as int, factor as int),
{
    proof {
        assert((c as int) * (factor as int) <= 255 * 0xFFFF_FFFF) by (nonlinear_arith)
            requires c <= 255, factor <= 0xFFFF_FFFF;
        assert((c as int) * (factor as int) >= 0) by (nonlinear_arith)
            requires c >= 0, factor >= 0;
    }
    let v = (c as u64) * (factor as u64) / (BLEND_ONE as u64);
    if v > 255 {
        255
    } else {
        v as u8
    }
}

fn lerp_channel_exec(a: u8, b: u8, t: u32) -> (r: u8)
    requires
        t <= BLEND_ONE,
    ensures
        r as int == lerp_channel(a as int, b as int, t as int),
{
    let u = BLEND_ONE - t;
    proof {
        assert((a as int) * (u as int) <= 255 * (u as int)) by (nonlinear_arith)
            requires a <= 255, u >= 0;
        assert((b as int) * (t as int) <= 255 * (t as int)) by (nonlinear_arith)
            requires b <= 255, t >= 0;
    }
    let x = (a as u64) * (u as u64) + (b as u64) * (t as u64);
    proof {
        assert(x / (BLEND_ONE as u64) <= 255) by (nonlinear_arith)
            requires x <= 255 * BLEND_ONE, BLEND_ONE == 65536;
    }
    (x / (BLEND_ONE as u64)) as u8
}

/// Linear interpolation from `a` (weight 0) to `b` (weight `BLEND_ONE`), per
/// channel, truncating; weights above `BLEND_ONE` are clamped to it.
pub fn lerp_color(a: &Color, b: &Color, t: u32) -> (c: Color)
    ensures
        c == lerp_spec(*a, *b, t as int),
{
    let w = if t > BLEND_ONE { BLEND_ONE } else { t };
    Color {
        r: lerp_channel_exec(a.r, b.r, w),
        g: lerp_channel_exec(a.g, b.g, w),
        b: lerp_channel_exec(a.b, b.b, w),
    }
}

/// Blends `overlay` over `base` by `factor`: the same operation as `lerp_color`.
pub fn blend_colors(base: &Color, overlay: &Color, factor: u32) -> (c: Color)
    ensures
        c == lerp_spec(*base, *overlay, factor as int),
{
    lerp_color(base, overlay, factor)
}

/// Halves each channel of a packed color, rounding down: the dimmed tone used
/// for guide lines.
pub fn halve_channels(hex: u32) -> (r: u32)
    ensures
        r as int == pack(
            unpack(hex as int).r as int / 2,
            unpack(hex as int).g as int / 2,
            unpack(hex as int).b as int / 2,
        ),
{
    let c = Color::from_hex(hex);
    let half = Color { r: c.r / 2, g: c.g / 2, b: c.b / 2 };
    half.to_hex()
}

/// Packing three channels and unpacking the result gives the three channels back.
pub proof fn lemma_pack_round_trip(r: u8, g: u8, b: u8)
    ensures
        unpack(pack(r as int, g as int, b as int)) == (Color { r, g, b }),
{
    let p = pack(r as int, g as int, b as int);
    assert(p / 65536 == r as int) by (nonlinear_arith)
        requires p == r * 65536 + g * 256 + b, 0 <= g < 256, 0 <= b < 256, 0 <= r;
    assert(p / 256 == r as int * 256 + g as int) by (nonlinear_arith)
        requires p == r * 65536 + g * 256 + b, 0 <= b < 256, 0 <= r, 0 <= g;
    assert((r as int * 256 + g as int) % 256 == g as int) by (nonlinear_arith)
        requires 0 <= g < 256, 0 <= r;
    assert(p % 256 == b as int) by (nonlinear_arith)
        requires p == r * 65536 + g * 256 + b, 0 <= b < 256, 0 <= r, 0 <= g;
}

/// A blend at weight 0 gives the first color and at weight `BLEND_ONE` the second.
pub proof fn lemma_lerp_endpoints(a: Color, b: Color)
    ensures
        lerp_spec(a, b, 0) == a,
        lerp_spec(a, b, BLEND_ONE as int) == b,
{
    let one = BLEND_ONE as int;
    assert forall|x: int, y: int| 0 <= x < 256 && 0 <= y < 256 implies #[trigger] lerp_channel(x, y, 0) == x
        && lerp_channel(x, y, one) == y by {
        assert(x * one / one == x) by (nonlinear_arith)
            requires one == 65536;
        assert(y * one / one == y) by (nonlinear_arith)
            requires one == 65536;
        assert(x * (one - 0) + y * 0 == x * one) by (nonlinear_arith);
        assert(x * (one - one) + y * one == y * one) by (nonlinear_arith);
    }
    assert(lerp_channel(a.r as int, b.r as int, 0) == a.r);
    assert(lerp_channel(a.g as int, b.g as int, 0) == a.g);
    assert(lerp_channel(a.b as int, b.b as int, 0) == a.b);
    assert(lerp_channel(a.r as int, b.r as int, one) == b.r);
    assert(lerp_channel(a.g as int, b.g as int, one) == b.g);
    assert(lerp_channel(a.b as int, b.b as int, one) == b.b);
}

} // verus!
