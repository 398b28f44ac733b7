//! The four-byte encoded pixel of the wire format and the decoded pixel.

use vstd::arithmetic::power2::pow2;
use vstd::prelude::*;
use vstd::std_specs::convert::FromSpecImpl;

verus! {

/// A pixel as it travels in the stream: three mantissa bytes and one exponent
/// byte that all three share.
#[derive(Debug, Clone, Copy, PartialEq, Eq, Structural)]
pub struct RGBE {
    /// The red mantissa.
    pub r: u8,
    /// The green mantissa.
    pub g: u8,
    /// The blue mantissa.
    pub b: u8,
    /// The shared exponent, biased by 128.
    pub e: u8,
}

/// One of the four planes in which a scanline can be stored.
#[derive(Debug, Clone, Copy, PartialEq, Eq, Structural)]
pub enum Channel {
    /// The red mantissas.
    Red,
    /// The green mantissas.
    Green,
    /// The blue mantissas.
    Blue,
    /// The shared exponents.
    Exponent,
}

/// The decoded R, G, and B value of a pixel.
///
/// The radiance of a channel is its mantissa times `2^expo / 255`; the scale
/// `2^expo / 255` is one number for the whole pixel. The three radiances are
/// kept in this exact form, so that nothing is rounded here. Each of them is
/// a whole number of steps of `2^-128 / 255`; [`RGB::red`], [`RGB::green`] and
/// [`RGB::blue`] count these steps.
#[derive(Debug, Clone, Copy, PartialEq, Eq, Structural)]
pub struct RGB {
    /// The red channel's mantissa.
    pub r: u8,
    /// The green channel's mantissa.
    pub g: u8,
    /// The blue channel's mantissa.
    pub b: u8,
    /// The power of two by which every mantissa is scaled.
    pub expo: i8,
}

impl RGBE {
    /// Whether the mantissas are `(1, 1, 1)`.
    pub open spec fn rle_marker(self) -> bool {
        self.r == 1 && self.g == 1 && self.b == 1
    }

    /// Whether red and green are 2 and the top bit of blue is clear.
    pub open spec fn new_decrunch_marker(self) -> bool {
        self.r == 2 && self.g == 2 && self.b < 128
    }

    /// The pixel that the first four bytes of `s` encode.
    pub open spec fn from_seq(s: Seq<u8>) -> RGBE
        recommends
            s.len() >= 4,
    {
        RGBE { r: s[0], g: s[1], b: s[2], e: s[3] }
    }

    /// Tells whether this pixel stands for a repetition of the pixel before
    /// it. Its `e` is then a repeat count and no exponent.
    #[inline]
    pub fn is_rle_marker(&self) -> (marker: bool)
        ensures
            marker == self.rle_marker(),
    {
        self.r == 1 && self.g == 1 && self.b == 1
    }

    /// Tells whether this pixel, read at the start of a scanline, announces
    /// that the scanline is stored plane by plane.
    #[inline]
    pub fn is_new_decrunch_marker(&self) -> (marker: bool)
        ensures
            marker == self.new_decrunch_marker(),
    {
        let blue: u8 = self.b;
        assert(blue & 128 == 0 <==> blue < 128) by (bit_vector);
        self.r == 2 && self.g == 2 && blue & 128 == 0
    }
}

impl From<[u8; 4]> for RGBE {
    #[inline]
    fn from(bytes: [u8; 4]) -> (rgbe: Self) {
        RGBE { r: bytes[0], g: bytes[1], b: bytes[2], e: bytes[3] }
    }
}

impl FromSpecImpl<[u8; 4]> for RGBE {
    open spec fn obeys_from_spec() -> bool {
        true
    }

    open spec fn from_spec(bytes: [u8; 4]) -> Self {
        RGBE { r: bytes[0], g: bytes[1], b: bytes[2], e: bytes[3] }
    }
}

impl From<RGBE> for [u8; 4] {
    #[inline]
    fn from(rgbe: RGBE) -> (bytes: Self) {
        [rgbe.r, rgbe.g, rgbe.b, rgbe.e]
    }
}

impl FromSpecImpl<RGBE> for [u8; 4] {
    open spec fn obeys_from_spec() -> bool {
        true
    }

    open spec fn from_spec(rgbe: RGBE) -> Self {
        [rgbe.r, rgbe.g, rgbe.b, rgbe.e]
    }
}

impl RGB {
    /// The exponent that the biased exponent byte `e` stands for.
    pub open spec fn unbias(e: u8) -> i8 {
        (e - 128) as i8
    }

    /// The pixel that `rgbe` encodes: its mantissas, and its exponent without
    /// the bias.
    pub open spec fn from_rgbe(rgbe: RGBE) -> RGB {
        RGB { r: rgbe.r, g: rgbe.g, b: rgbe.b, expo: Self::unbias(rgbe.e) }
    }

    /// This pixel with the plane `channel` replaced by the stream byte `val`:
    /// a mantissa is stored as it is, an exponent byte loses its bias.
    pub open spec fn with_channel(self, channel: Channel, val: u8) -> RGB {
        match channel {
            Channel::Red => RGB { r: val, ..self },
            Channel::Green => RGB { g: val, ..self },
            Channel::Blue => RGB { b: val, ..self },
            Channel::Exponent => RGB { expo: Self::unbias(val), ..self },
        }
    }

    /// The scale of this pixel, in steps of `2^-128 / 255`: `2^(expo + 128)`.
    pub open spec fn scale(self) -> nat {
        pow2((self.expo + 128) as nat)
    }

    /// The red radiance, in steps of `2^-128 / 255`.
    pub open spec fn red(self) -> nat {
        self.r as nat * self.scale()
    }

    /// The green radiance, in steps of `2^-128 / 255`.
    pub open spec fn green(self) -> nat {
        self.g as nat * self.scale()
    }

    /// The blue radiance, in steps of `2^-128 / 255`.
    pub open spec fn blue(self) -> nat {
        self.b as nat * self.scale()
    }

    /// Sets the scale of this pixel from the exponent byte `expo` of the
    /// stream: every channel is then its mantissa times
    /// `2^(expo - 128) / 255`.
    #[inline]
    pub fn apply_exposure(&mut self, expo: u8)
        ensures
            *final(self) == (RGB { expo: Self::unbias(expo), ..*old(self) }),
            final(self).expo == expo - 128,
            final(self).scale() == pow2(expo as nat),
    {
        let expo: i32 = expo as i32 - 128;
        self.expo = expo as i8;
    }

    /// Stores the stream byte `val` in the plane `channel` of this pixel.
    #[inline]
    pub fn set_channel(&mut self, channel: Channel, val: u8)
        ensures
            *final(self) == old(self).with_channel(channel, val),
    {
        match channel {
            Channel::Red => {
                self.r = val;
            },
            Channel::Green => {
                self.g = val;
            },
            Channel::Blue => {
                self.b = val;
            },
            Channel::Exponent => {
                self.apply_exposure(val);
            },
        }
    }
}

impl From<RGBE> for RGB {
    /// Decodes a pixel of the stream: the mantissas are kept and the exponent
    /// loses its bias of 128.
    #[inline]
    fn from(rgbe: RGBE) -> (rgb: Self) {
        let mut rgb = RGB { r: rgbe.r, g: rgbe.g, b: rgbe.b, expo: 0 };
        rgb.apply_exposure(rgbe.e);
        rgb
    }
}

impl FromSpecImpl<RGBE> for RGB {
    open spec fn obeys_from_spec() -> bool {
        true
    }

    open spec fn from_spec(rgbe: RGBE) -> Self {
        RGB::from_rgbe(rgbe)
    }
}

/// The radiances of a decoded pixel are the mantissas of the encoded one,
/// each times `2^e`, in steps of `2^-128 / 255`: the exponent byte `e` scales
/// the three channels alike.
pub proof fn lemma_radiance_of_rgbe(rgbe: RGBE)
    ensures
        RGB::from_rgbe(rgbe).scale() == pow2(rgbe.e as nat),
        RGB::from_rgbe(rgbe).red() == rgbe.r * pow2(rgbe.e as nat),
        RGB::from_rgbe(rgbe).green() == rgbe.g * pow2(rgbe.e as nat),
        RGB::from_rgbe(rgbe).blue() == rgbe.b * pow2(rgbe.e as nat),
{
}

} // verus!
