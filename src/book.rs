//! Frames and pixel books: row-major RGBA buffers that share one size.

use vstd::prelude::*;
use vstd::arithmetic::div_mod::lemma_fundamental_div_mod;
use vstd::arithmetic::div_mod::lemma_fundamental_div_mod_converse;
use crate::pixel::Pixel;

verus! {

/// Offset of the first byte of pixel `(x, y)` in a row-major RGBA buffer.
pub open spec fn byte_offset(width: int, x: int, y: int) -> int {
    (y * width + x) * 4
}

pub open spec fn in_bounds(width: int, height: int, x: int, y: int) -> bool {
    0 <= x < width && 0 <= y < height
}

/// The pixel that byte `i` of a row-major RGBA buffer belongs to.
pub open spec fn point_of_byte(width: int, i: int) -> (int, int) {
    ((i / 4) % width, (i / 4) / width)
}

/// The buffer with every pixel whose point lies in `pts` set to `color`
/// (points outside the buffer have no pixel and are ignored).
pub open spec fn paint(px: Seq<u8>, width: int, pts: Set<(int, int)>, color: Seq<u8>) -> Seq<u8> {
    Seq::new(
        px.len(),
        |i: int|
            if pts.contains(point_of_byte(width, i)) {
                color[i % 4]
            } else {
                px[i]
            },
    )
}

/// The buffer with the four bytes at `o` replaced by `color`.
pub open spec fn with_pixel(px: Seq<u8>, o: int, color: Seq<u8>) -> Seq<u8> {
    px.update(o, color[0]).update(o + 1, color[1]).update(o + 2, color[2]).update(o + 3, color[3])
}

/// The four bytes of pixel `(x, y)`.
pub open spec fn color_at(px: Seq<u8>, width: int, x: int, y: int) -> Seq<u8> {
    px.subrange(byte_offset(width, x, y), byte_offset(width, x, y) + 4)
}

pub proof fn lemma_pixel_in_buffer(width: int, height: int, x: int, y: int)
    requires
        in_bounds(width, height, x, y),
    ensures
        0 <= y * width + x < width * height,
        0 <= byte_offset(width, x, y),
        byte_offset(width, x, y) + 4 <= width * height * 4,
{
    assert(0 <= y * width) by (nonlinear_arith)
        requires
            0 <= y,
            0 <= width,
    ;
    assert(y * width + x < width * height) by (nonlinear_arith)
        requires
            0 <= x < width,
            0 <= y < height,
    ;
}

/// The bytes of pixel `(x, y)` are exactly those whose point is `(x, y)`.
pub proof fn lemma_point_of_byte(width: int, x: int, y: int, i: int)
    requires
        0 <= x < width,
        0 <= y,
        0 <= i,
    ensures
        (point_of_byte(width, i) == (x, y)) <==> (byte_offset(width, x, y) <= i < byte_offset(width, x, y) + 4),
{
    let q = i / 4;
    lemma_fundamental_div_mod(i, 4);
    lemma_fundamental_div_mod(q, width);
    if byte_offset(width, x, y) <= i < byte_offset(width, x, y) + 4 {
        lemma_fundamental_div_mod_converse(i, 4, y * width + x, i - byte_offset(width, x, y));
        lemma_fundamental_div_mod_converse(q, width, y, x);
    }
    if point_of_byte(width, i) == (x, y) {
        assert(q == y * width + x) by (nonlinear_arith)
            requires
                q == width * (q / width) + q % width,
                q % width == x,
                q / width == y,
        ;
    }
}

/// Painting one more in-bounds point writes exactly that pixel's four bytes.
pub proof fn lemma_paint_insert(
    px: Seq<u8>,
    width: int,
    height: int,
    pts: Set<(int, int)>,
    color: Seq<u8>,
    x: int,
    y: int,
)
    requires
        px.len() == width * height * 4,
        in_bounds(width, height, x, y),
        color.len() == 4,
    ensures
        paint(px, width, pts.insert((x, y)), color) == with_pixel(
            paint(px, width, pts, color),
            byte_offset(width, x, y),
            color,
        ),
{
    lemma_pixel_in_buffer(width, height, x, y);
    let o = byte_offset(width, x, y);
    let lhs = paint(px, width, pts.insert((x, y)), color);
    let rhs = with_pixel(paint(px, width, pts, color), o, color);
    assert forall|i: int| 0 <= i < px.len() implies lhs[i] == rhs[i] by {
        lemma_point_of_byte(width, x, y, i);
        if o <= i < o + 4 {
            lemma_fundamental_div_mod_converse(i, 4, y * width + x, i - o);
        }
    }
    assert(lhs =~= rhs);
}

/// Painting no point leaves the buffer as it is.
pub proof fn lemma_paint_empty(px: Seq<u8>, width: int, color: Seq<u8>)
    ensures
        paint(px, width, Set::empty(), color) == px,
{
    assert(paint(px, width, Set::empty(), color) =~= px);
}

/// `byte_offset` computed without overflow.
pub fn pixel_byte_offset(x: u16, y: u16, width: u16) -> (o: u64)
    ensures
        o == byte_offset(width as int, x as int, y as int),
{
    assert((y as int) * (width as int) <= 65535 * 65535) by (nonlinear_arith)
        requires
            y <= 65535,
            width <= 65535,
    ;
    let yw: u64 = (y as u64) * (width as u64);
    (yw + (x as u64)) * 4
}

/// One image of a book: `width * height` RGBA pixels, row by row.
#[derive(Debug, Clone)]
pub struct Frame {
    pub index: usize,
    pub pixels: Vec<u8>,
}

impl Frame {
    /// A frame of transparent (all-zero) pixels.
    pub fn new(index: usize, width: u16, height: u16) -> (f: Self)
        requires
            width * height * 4 <= usize::MAX,
        ensures
            f.index == index,
            f.pixels@ == Seq::new((width * height * 4) as nat, |_i: int| 0u8),
    {
        let n: usize = (width as usize) * (height as usize) * 4;
        let mut pixels: Vec<u8> = Vec::with_capacity(n);
        let mut i: usize = 0;
        while i < n
            invariant
                i <= n,
                n == width * height * 4,
                pixels@ == Seq::new(i as nat, |_i: int| 0u8),
            decreases n - i,
        {
            pixels.push(0u8);
            i = i + 1;
            assert(pixels@ =~= Seq::new(i as nat, |_i: int| 0u8));
        }
        Frame { index, pixels }
    }

    /// The pixel at `(x, y)` for a frame of the given width, if its bytes lie in the buffer.
    pub fn get_pixel(&self, x: u16, y: u16, width: u16) -> (p: Option<Pixel>)
        ensures
            p.is_some() <==> byte_offset(width as int, x as int, y as int) + 4 <= self.pixels@.len(),
            p.is_some() ==> p.unwrap().channels() == color_at(self.pixels@, width as int, x as int, y as int),
    {
        let idx: u64 = pixel_byte_offset(x, y, width);
        if idx + 3 < self.pixels.len() as u64 {
            let i = idx as usize;
            let p = Pixel::new(self.pixels[i], self.pixels[i + 1], self.pixels[i + 2], self.pixels[i + 3]);
            assert(p.channels() =~= color_at(self.pixels@, width as int, x as int, y as int));
            Some(p)
        } else {
            None
        }
    }

    /// Writes the pixel at `(x, y)` for a frame of the given width; false, and
    /// nothing written, where its bytes do not lie in the buffer.
    pub fn set_pixel(&mut self, x: u16, y: u16, width: u16, pixel: Pixel) -> (ok: bool)
        ensures
            ok <==> byte_offset(width as int, x as int, y as int) + 4 <= old(self).pixels@.len(),
            final(self).index == old(self).index,
            final(self).pixels@ == if ok {
                with_pixel(old(self).pixels@, byte_offset(width as int, x as int, y as int), pixel.channels())
            } else {
                old(self).pixels@
            },
    {
        let idx: u64 = pixel_byte_offset(x, y, width);
        if idx + 3 < self.pixels.len() as u64 {
            let i = idx as usize;
            self.pixels.set(i, pixel.r);
            self.pixels.set(i + 1, pixel.g);
            self.pixels.set(i + 2, pixel.b);
            self.pixels.set(i + 3, pixel.a);
            true
        } else {
            false
        }
    }
}

/// A named sequence of equally sized frames.
#[derive(Debug, Clone)]
pub struct PixelBook {
    pub filename: String,
    pub width: u16,
    pub height: u16,
    pub frames: Vec<Frame>,
}

impl PixelBook {
    /// Both dimensions are positive, each frame's index is its position and
    /// each buffer holds exactly `width * height` pixels.
    pub open spec fn wf(&self) -> bool {
        &&& self.width >= 1
        &&& self.height >= 1
        &&& forall|i: int|
            0 <= i < self.frames@.len() ==> {
                &&& (#[trigger] self.frames@[i]).index == i
                &&& self.frames@[i].pixels@.len() == self.width * self.height * 4
            }
    }

    /// The pixel bytes of every frame, in order.
    pub open spec fn frame_bytes(&self) -> Seq<Seq<u8>> {
        self.frames@.map_values(|f: Frame| f.pixels@)
    }

    /// A book of `frame_count` transparent frames.
    pub fn new(filename: String, width: u16, height: u16, frame_count: usize) -> (book: Self)
        requires
            width * height * 4 <= usize::MAX,
        ensures
            book.filename@ == filename@,
            book.width == width,
            book.height == height,
            book.frames@.len() == frame_count,
            forall|i: int|
                0 <= i < frame_count ==> {
                    &&& (#[trigger] book.frames@[i]).index == i
                    &&& book.frames@[i].pixels@ == Seq::new((width * height * 4) as nat, |_j: int| 0u8)
                },
            width >= 1 && height >= 1 ==> book.wf(),
    {
        let mut frames: Vec<Frame> = Vec::new();
        let mut i: usize = 0;
        while i < frame_count
            invariant
                i <= frame_count,
                width * height * 4 <= usize::MAX,
                frames@.len() == i,
                forall|j: int|
                    0 <= j < i ==> {
                        &&& (#[trigger] frames@[j]).index == j
                        &&& frames@[j].pixels@ == Seq::new((width * height * 4) as nat, |_k: int| 0u8)
                    },
            decreases frame_count - i,
        {
            frames.push(Frame::new(i, width, height));
            i = i + 1;
        }
        PixelBook { filename, width, height, frames }
    }
}

/// What a new book is made from.
#[derive(Debug, Clone)]
pub struct CreatePixelBookRequest {
    pub filename: String,
    pub width: u16,
    pub height: u16,
    pub frames: usize,
}

} // verus!
