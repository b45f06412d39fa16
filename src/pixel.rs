//! A single RGBA pixel and its packed screen colour.

use vstd::prelude::*;

verus! {

/// One pixel: four 8-bit channels.
#[derive(Debug, Clone, Copy, PartialEq, Eq, Structural)]
pub struct Pixel {
    pub r: u8,
    pub g: u8,
    pub b: u8,
    pub a: u8,
}

/// The `0x00RRGGBB` value of a colour; alpha is dropped.
pub open spec fn packed_rgb(r: u8, g: u8, b: u8) -> int {
    (r as u32) * 65536 + (g as u32) * 256 + (b as u32)
}

/// Packs three channels as `0x00RRGGBB`.
pub fn rgb_to_u32(r: u8, g: u8, b: u8) -> (res: u32)
    ensures
        res == packed_rgb(r, g, b),
{
    let rr = r as u32;
    let gg = g as u32;
    let bb = b as u32;
    let res = (rr << 16u32) | (gg << 8u32) | bb;
    assert(res == rr * 65536 + gg * 256 + bb) by (bit_vector)
        requires
            rr < 256,
            gg < 256,
            bb < 256,
            res == (rr << 16u32) | (gg << 8u32) | bb,
    ;
    res
}

impl Pixel {
    /// The four channels as a sequence, in r, g, b, a order.
    pub open spec fn channels(self) -> Seq<u8> {
        seq![self.r, self.g, self.b, self.a]
    }

    pub fn new(r: u8, g: u8, b: u8, a: u8) -> (p: Self)
        ensures
            p == (Pixel { r, g, b, a }),
    {
        Pixel { r, g, b, a }
    }

    pub fn transparent() -> (p: Self)
        ensures
            p == (Pixel { r: 0, g: 0, b: 0, a: 0 }),
    {
        Pixel { r: 0, g: 0, b: 0, a: 0 }
    }

    /// The pixel held by the first four bytes, if there are four.
    pub fn from_bytes(bytes: &[u8]) -> (p: Option<Self>)
        ensures
            bytes@.len() >= 4 <==> p.is_some(),
            p.is_some() ==> p.unwrap().channels() == bytes@.subrange(0, 4),
    {
        if bytes.len() >= 4 {
            let p = Pixel::new(bytes[0], bytes[1], bytes[2], bytes[3]);
            assert(p.channels() =~= bytes@.subrange(0, 4));
            Some(p)
        } else {
            None
        }
    }

    /// The pixel as `0x00RRGGBB`.
    pub fn to_rgba32(&self) -> (c: u32)
        ensures
            c == packed_rgb(self.r, self.g, self.b),
    {
        rgb_to_u32(self.r, self.g, self.b)
    }

    /// Whether the pixel is less than fully opaque.
    pub fn is_transparent(&self) -> (t: bool)
        ensures
            t == (self.a < 255),
    {
        self.a < 255
    }
}

/// The screen colour of a pixel, `0x00RRGGBB`.
pub fn pixel_to_minifb_color(pixel: &Pixel) -> (c: u32)
    ensures
        c == packed_rgb(pixel.r, pixel.g, pixel.b),
{
    rgb_to_u32(pixel.r, pixel.g, pixel.b)
}

/// The screen colour of four channels, `0x00RRGGBB`; alpha is ignored.
pub fn rgba_to_minifb_color(r: u8, g: u8, b: u8, _a: u8) -> (c: u32)
    ensures
        c == packed_rgb(r, g, b),
{
    rgb_to_u32(r, g, b)
}

} // verus!
