//! The viewer's state and the arithmetic of showing a frame in a window.

use vstd::prelude::*;
use crate::book::PixelBook;

verus! {

/// What the viewer shows: a book, which of its frames, and the last error.
#[derive(Debug)]
pub struct AppState {
    pub current_book: Option<PixelBook>,
    pub current_frame: usize,
    pub is_connected: bool,
    pub last_error: Option<String>,
}

impl AppState {
    pub fn new() -> (s: Self)
        ensures
            s.current_book is None,
            s.current_frame == 0,
            !s.is_connected,
            s.last_error is None,
    {
        AppState { current_book: None, current_frame: 0, is_connected: false, last_error: None }
    }

    /// Shows `book` from its first frame and forgets the last error.
    pub fn set_book(&mut self, book: PixelBook)
        ensures
            final(self).current_book == Some(book),
            final(self).current_frame == 0,
            final(self).last_error is None,
            final(self).is_connected == old(self).is_connected,
    {
        self.current_book = Some(book);
        self.current_frame = 0;
        self.last_error = None;
    }

    pub fn clear_book(&mut self)
        ensures
            final(self).current_book is None,
            final(self).current_frame == 0,
            final(self).last_error == old(self).last_error,
            final(self).is_connected == old(self).is_connected,
    {
        self.current_book = None;
        self.current_frame = 0;
    }

    /// Moves to frame `frame` where the book has it; otherwise nothing changes.
    pub fn set_frame(&mut self, frame: usize)
        ensures
            final(self).current_frame == if old(self).current_book is Some && frame < old(self).current_book->Some_0.frames@.len() {
                frame
            } else {
                old(self).current_frame
            },
            final(self).current_book == old(self).current_book,
            final(self).last_error == old(self).last_error,
            final(self).is_connected == old(self).is_connected,
    {
        if let Some(book) = &self.current_book {
            if frame < book.frames.len() {
                self.current_frame = frame;
            }
        }
    }

    /// Moves one frame on, unless at the book's last frame or without a book.
    pub fn next_frame(&mut self)
        ensures
            final(self).current_frame == if old(self).current_book is Some && old(self).current_frame + 1 < old(
                self,
            ).current_book->Some_0.frames@.len() {
                old(self).current_frame + 1
            } else {
                old(self).current_frame as int
            },
            final(self).current_book == old(self).current_book,
            final(self).last_error == old(self).last_error,
            final(self).is_connected == old(self).is_connected,
    {
        if let Some(book) = &self.current_book {
            let n = book.frames.len();
            if n > 0 && self.current_frame < n - 1 {
                self.current_frame = self.current_frame + 1;
            }
        }
    }

    /// Moves one frame back, unless at the first.
    pub fn prev_frame(&mut self)
        ensures
            final(self).current_frame == if old(self).current_frame > 0 {
                old(self).current_frame - 1
            } else {
                0
            },
            final(self).current_book == old(self).current_book,
            final(self).last_error == old(self).last_error,
            final(self).is_connected == old(self).is_connected,
    {
        if self.current_frame > 0 {
            self.current_frame = self.current_frame - 1;
        }
    }

    pub fn set_error(&mut self, error: String)
        ensures
            final(self).last_error == Some(error),
            final(self).current_book == old(self).current_book,
            final(self).current_frame == old(self).current_frame,
            final(self).is_connected == old(self).is_connected,
    {
        self.last_error = Some(error);
    }

    pub fn clear_error(&mut self)
        ensures
            final(self).last_error is None,
            final(self).current_book == old(self).current_book,
            final(self).current_frame == old(self).current_frame,
            final(self).is_connected == old(self).is_connected,
    {
        self.last_error = None;
    }
}

/// The light and dark squares drawn behind transparent pixels.
pub struct CheckerboardPattern {
    light_color: u32,
    dark_color: u32,
    square_size: u32,
}

impl CheckerboardPattern {
    pub closed spec fn light(&self) -> u32 {
        self.light_color
    }

    pub closed spec fn dark(&self) -> u32 {
        self.dark_color
    }

    pub closed spec fn square(&self) -> u32 {
        self.square_size
    }

    /// Light grey `0xF0F0F0` and dark grey `0xC8C8C8` squares of 8 pixels.
    pub fn new() -> (p: Self)
        ensures
            p.light() == 0xF0F0F0,
            p.dark() == 0xC8C8C8,
            p.square() == 8,
    {
        CheckerboardPattern { light_color: 0xF0F0F0, dark_color: 0xC8C8C8, square_size: 8 }
    }

    /// The colour at screen point `(x, y)` when squares are scaled by `scale`:
    /// light where the square's column and row have an even sum.
    pub fn get_color_at(&self, x: u32, y: u32, scale: u32) -> (c: u32)
        requires
            scale >= 1,
            self.square() >= 1,
            self.square() * scale <= u32::MAX,
        ensures
            c == if ((x as int) / (self.square() * scale) + (y as int) / (self.square() * scale)) % 2 == 0 {
                self.light()
            } else {
                self.dark()
            },
    {
        assert(self.square_size * scale >= 1) by (nonlinear_arith)
            requires
                self.square_size >= 1,
                scale >= 1,
        ;
        let checker_size = self.square_size * scale;
        let checker_x = (x / checker_size) as u64;
        let checker_y = (y / checker_size) as u64;
        if (checker_x + checker_y) % 2 == 0 {
            self.light_color
        } else {
            self.dark_color
        }
    }
}

/// `v / 2` rounded toward zero.
pub open spec fn half_toward_zero(v: int) -> int {
    if v >= 0 {
        v / 2
    } else {
        -((-v) / 2)
    }
}

/// The largest whole scale at which the image fits the window, at least 1.
pub open spec fn fit_scale(image_width: int, image_height: int, window_width: int, window_height: int) -> int {
    let sx = window_width / image_width;
    let sy = window_height / image_height;
    let s = if sx <= sy { sx } else { sy };
    if s >= 1 {
        s
    } else {
        1
    }
}

/// Where a scaled frame goes in a window.
pub struct ScalingCalculator;

impl ScalingCalculator {
    /// The scale at which the image fits the window (at least 1) and the offsets
    /// that centre it.
    pub fn calculate_scale_and_offset(image_width: u16, image_height: u16, window_width: usize, window_height: usize) -> (r: (
        u32,
        i32,
        i32,
    ))
        requires
            image_width >= 1,
            image_height >= 1,
            window_width <= i32::MAX,
            window_height <= i32::MAX,
        ensures
            ({
                let s = fit_scale(image_width as int, image_height as int, window_width as int, window_height as int);
                &&& r.0 == s
                &&& r.1 == half_toward_zero(window_width - image_width * s)
                &&& r.2 == half_toward_zero(window_height - image_height * s)
            }),
    {
        let scale_x = window_width / image_width as usize;
        let scale_y = window_height / image_height as usize;
        let smaller = if scale_x <= scale_y { scale_x } else { scale_y };
        let scale: u32 = if smaller >= 1 { smaller as u32 } else { 1 };
        proof {
            vstd::arithmetic::div_mod::lemma_fundamental_div_mod(window_width as int, image_width as int);
            vstd::arithmetic::div_mod::lemma_fundamental_div_mod(window_height as int, image_height as int);
            assert(image_width * scale <= i32::MAX && image_height * scale <= i32::MAX) by (nonlinear_arith)
                requires
                    scale == if smaller >= 1 { smaller as int } else { 1 },
                    smaller <= scale_x,
                    smaller <= scale_y,
                    window_width as int == image_width * scale_x + (window_width as int) % (image_width as int),
                    window_height as int == image_height * scale_y + (window_height as int) % (image_height as int),
                    0 <= (window_width as int) % (image_width as int),
                    0 <= (window_height as int) % (image_height as int),
                    window_width <= i32::MAX,
                    window_height <= i32::MAX,
                    1 <= image_width <= 65535,
                    1 <= image_height <= 65535,
            ;
        }
        let scaled_width = (image_width as u32 * scale) as i32;
        let scaled_height = (image_height as u32 * scale) as i32;
        let dx = window_width as i32 - scaled_width;
        let dy = window_height as i32 - scaled_height;
        let offset_x = if dx >= 0 { dx / 2 } else { -((-dx) / 2) };
        let offset_y = if dy >= 0 { dy / 2 } else { -((-dy) / 2) };
        (scale, offset_x, offset_y)
    }

    /// The screen position of the top-left corner of image pixel `(pixel_x, pixel_y)`.
    pub fn pixel_to_screen_coords(pixel_x: u16, pixel_y: u16, scale: u32, offset_x: i32, offset_y: i32) -> (r: (i32, i32))
        requires
            pixel_x * scale <= i32::MAX,
            pixel_y * scale <= i32::MAX,
            i32::MIN <= offset_x + pixel_x * scale <= i32::MAX,
            i32::MIN <= offset_y + pixel_y * scale <= i32::MAX,
        ensures
            r.0 == offset_x + pixel_x * scale,
            r.1 == offset_y + pixel_y * scale,
    {
        let screen_x = offset_x + (pixel_x as u32 * scale) as i32;
        let screen_y = offset_y + (pixel_y as u32 * scale) as i32;
        (screen_x, screen_y)
    }
}

} // verus!
