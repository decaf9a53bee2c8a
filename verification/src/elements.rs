//! Packed 32-bit colours: alpha in bits 24..32, red in 16..24, green in 8..16,
//! blue in 0..8. Any four channel values make a colour.

use vstd::prelude::*;

verus! {

/// The colour encoder and the named colours.
pub struct Color;

impl Color {
    /// Every channel at 255.
    pub const WHITE: u32 = 0xFFFF_FFFF;

    /// Opaque, with no red, green or blue.
    pub const BLACK: u32 = 0xFF00_0000;

    /// Opaque, with red alone.
    pub const RED: u32 = 0xFFFF_0000;

    /// Opaque, with green alone.
    pub const GREEN: u32 = 0xFF00_FF00;

    /// Opaque, with blue alone.
    pub const BLUE: u32 = 0xFF00_00FF;

    /// Every channel at 0.
    pub const TRANSPARENT: u32 = 0x0000_0000;

    /// The packed value of four channels, stated arithmetically.
    pub open spec fn spec_from_argb(alpha: u8, red: u8, green: u8, blue: u8) -> u32 {
        (alpha as int * 0x100_0000 + red as int * 0x1_0000 + green as int * 0x100
            + blue as int) as u32
    }

    /// The packed value of three channels under an alpha of 255.
    pub open spec fn spec_from_rgb(red: u8, green: u8, blue: u8) -> u32 {
        Self::spec_from_argb(255, red, green, blue)
    }

    /// The alpha channel of a packed colour.
    pub open spec fn spec_alpha(color: u32) -> u8 {
        (color as int / 0x100_0000) as u8
    }

    /// The red channel of a packed colour.
    pub open spec fn spec_red(color: u32) -> u8 {
        (color as int / 0x1_0000 % 0x100) as u8
    }

    /// The green channel of a packed colour.
    pub open spec fn spec_green(color: u32) -> u8 {
        (color as int / 0x100 % 0x100) as u8
    }

    /// The blue channel of a packed colour.
    pub open spec fn spec_blue(color: u32) -> u8 {
        (color as int % 0x100) as u8
    }

    /// Packs four channels into one colour.
    #[verifier::when_used_as_spec(spec_from_argb)]
    pub fn from_argb(alpha: u8, red: u8, green: u8, blue: u8) -> (color: u32)
        ensures
            color == Self::spec_from_argb(alpha, red, green, blue),
            Self::spec_alpha(color) == alpha,
            Self::spec_red(color) == red,
            Self::spec_green(color) == green,
            Self::spec_blue(color) == blue,
    {
        let color: u32 = (alpha as u32) << 24 | (red as u32) << 16 | (green as u32) << 8 | (
        blue as u32);
        assert(color == (alpha as u32) * 0x100_0000 + (red as u32) * 0x1_0000 + (green as u32)
            * 0x100 + (blue as u32) && color / 0x100_0000 == alpha as u32 && color / 0x1_0000
            % 0x100 == red as u32 && color / 0x100 % 0x100 == green as u32 && color % 0x100
            == blue as u32) by (bit_vector)
            requires
                color == (alpha as u32) << 24 | (red as u32) << 16 | (green as u32) << 8 | (
                blue as u32),
        ;
        color
    }

    /// Packs three channels into a fully opaque colour: the colour that
    /// `from_argb` gives for them with an alpha of 255.
    #[verifier::when_used_as_spec(spec_from_rgb)]
    pub fn from_rgb(red: u8, green: u8, blue: u8) -> (color: u32)
        ensures
            color == Self::spec_from_rgb(red, green, blue),
            color == Self::spec_from_argb(255, red, green, blue),
    {
        Self::from_argb(255, red, green, blue)
    }

    /// The alpha channel of `color`.
    #[verifier::when_used_as_spec(spec_alpha)]
    pub fn alpha(color: u32) -> (channel: u8)
        ensures
            channel == Self::spec_alpha(color),
    {
        assert(color >> 24 == color / 0x100_0000 && (color >> 24) < 0x100) by (bit_vector);
        (color >> 24) as u8
    }

    /// The red channel of `color`.
    #[verifier::when_used_as_spec(spec_red)]
    pub fn red(color: u32) -> (channel: u8)
        ensures
            channel == Self::spec_red(color),
    {
        assert((color >> 16) & 0xFF == color / 0x1_0000 % 0x100 && ((color >> 16) & 0xFF) < 0x100)
            by (bit_vector);
        ((color >> 16) & 0xFF) as u8
    }

    /// The green channel of `color`.
    #[verifier::when_used_as_spec(spec_green)]
    pub fn green(color: u32) -> (channel: u8)
        ensures
            channel == Self::spec_green(color),
    {
        assert((color >> 8) & 0xFF == color / 0x100 % 0x100 && ((color >> 8) & 0xFF) < 0x100)
            by (bit_vector);
        ((color >> 8) & 0xFF) as u8
    }

    /// The blue channel of `color`.
    #[verifier::when_used_as_spec(spec_blue)]
    pub fn blue(color: u32) -> (channel: u8)
        ensures
            channel == Self::spec_blue(color),
    {
        assert(color & 0xFF == color % 0x100 && (color & 0xFF) < 0x100) by (bit_vector);
        (color & 0xFF) as u8
    }
}

/// The channels of a colour built from four channels are those four.
pub proof fn lemma_channels_of_packed(alpha: u8, red: u8, green: u8, blue: u8)
    ensures
        Color::alpha(Color::from_argb(alpha, red, green, blue)) == alpha,
        Color::red(Color::from_argb(alpha, red, green, blue)) == red,
        Color::green(Color::from_argb(alpha, red, green, blue)) == green,
        Color::blue(Color::from_argb(alpha, red, green, blue)) == blue,
{
}

/// A colour is the colour built from its four channels.
pub proof fn lemma_packed_of_channels(color: u32)
    ensures
        Color::from_argb(
            Color::alpha(color),
            Color::red(color),
            Color::green(color),
            Color::blue(color),
        ) == color,
{
}

/// A colour built from three channels is the colour built from an alpha of
/// 255 and those three.
pub proof fn lemma_rgb_is_opaque_argb(red: u8, green: u8, blue: u8)
    ensures
        Color::from_rgb(red, green, blue) == Color::from_argb(255, red, green, blue),
        Color::alpha(Color::from_rgb(red, green, blue)) == 255,
{
}

/// The named colours are the colours of their channels.
pub proof fn lemma_named_colors()
    ensures
        Color::WHITE == Color::from_argb(255, 255, 255, 255),
        Color::BLACK == Color::from_rgb(0, 0, 0),
        Color::RED == Color::from_rgb(255, 0, 0),
        Color::GREEN == Color::from_rgb(0, 255, 0),
        Color::BLUE == Color::from_rgb(0, 0, 255),
        Color::TRANSPARENT == Color::from_argb(0, 0, 0, 0),
{
}

} // verus!
