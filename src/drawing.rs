//! The drawing engine: applies drawing operations to a book in place.

use vstd::prelude::*;
use vstd::arithmetic::div_mod::lemma_fundamental_div_mod;
use crate::book::{PixelBook, color_at, in_bounds, paint, point_of_byte};
use crate::book::{lemma_paint_insert, lemma_paint_empty, lemma_pixel_in_buffer};
use crate::errors::PixelError;
use crate::operations::{DrawingOperation, LineType, Point, ShapeType, Size};
use crate::pixel::Pixel;
use crate::raster::{abs_diff, bresenham, circle_center, circle_points, circle_radius, crossings, edge, edge_crossing, edge_x};
use crate::raster::{in_span, le_i64, line_points, midpoint_walk, octants, offset_points, outline_points, oval_points, polygon_points};
use crate::raster::{rect_points, segment_points, sort_ascending, span, triangle_points, triangle_vertices};
use crate::raster::{bresenham_first, centered, circle_first, first_in, lex_first, lex_le, line_first, midpoint_first, octant_order, or_else};
use crate::raster::{outline_first, oval_first, polygon_first, rect_first, segment_first, triangle_first};
use crate::raster::{lemma_lex_first_is, lemma_lex_first_none, lemma_outline_first_grows, lemma_bresenham_step, lemma_no_span, lemma_offset_points_prefix, lemma_outline_grows, lemma_square_exceeds};
use crate::region::{adjacent, has_color, region, count_false, lemma_count_false_set, lemma_region_closed, lemma_region_extend, lemma_region_seed, lemma_color_after_paint};

verus! {

/// Same name, size and number of frames.
pub open spec fn same_layout(a: PixelBook, b: PixelBook) -> bool {
    &&& a.filename@ == b.filename@
    &&& a.width == b.width
    &&& a.height == b.height
    &&& a.frames@.len() == b.frames@.len()
}

/// `new` is `old` with the points `pts` of frame `f` set to `color`.
pub open spec fn painted_book(old: PixelBook, new: PixelBook, f: int, pts: Set<(int, int)>, color: Seq<u8>) -> bool {
    &&& new.wf()
    &&& same_layout(old, new)
    &&& new.frame_bytes() == old.frame_bytes().update(
        f,
        paint(old.frame_bytes()[f], old.width as int, pts, color),
    )
}

/// The call's result where `first` is the first point it would plot inside
/// the image: fine where there is none, else `InvalidCoordinates` naming it.
pub open spec fn fail_at(first: Option<(int, int)>, width: u16, height: u16) -> Result<(), PixelError> {
    match first {
        None => Ok(()),
        Some(p) => Err(PixelError::InvalidCoordinates { x: p.0 as u16, y: p.1 as u16, width, height }),
    }
}

/// The outcome of plotting the points `pts` of frame `f` one pixel at a time,
/// `first` being the first of them inside the image in drawing order: on an
/// existing frame they are painted; on a missing one the book is left as it
/// is and the call fails at `first`, or succeeds where no point is inside.
pub open spec fn plotted(
    old: PixelBook,
    new: PixelBook,
    f: int,
    pts: Set<(int, int)>,
    first: Option<(int, int)>,
    color: Seq<u8>,
    r: Result<(), PixelError>,
) -> bool {
    if 0 <= f < old.frames@.len() {
        r == Ok::<(), PixelError>(()) && painted_book(old, new, f, pts, color)
    } else {
        new == old && r == fail_at(first, old.width, old.height)
    }
}

/// The state part-way through plotting: the points `s` done so far are painted
/// (on a missing frame, none is done and nothing changed).
pub open spec fn progress(old: PixelBook, cur: PixelBook, f: int, s: Set<(int, int)>, color: Seq<u8>) -> bool {
    if 0 <= f < old.frames@.len() {
        painted_book(old, cur, f, s, color)
    } else {
        cur == old && s == Set::<(int, int)>::empty()
    }
}

/// Two point sets that agree inside the image paint alike.
pub proof fn lemma_paint_agree(px: Seq<u8>, width: int, height: int, a: Set<(int, int)>, b: Set<(int, int)>, color: Seq<u8>)
    requires
        width > 0,
        px.len() == width * height * 4,
        forall|p: (int, int)| in_bounds(width, height, p.0, p.1) ==> (a.contains(p) <==> b.contains(p)),
    ensures
        paint(px, width, a, color) == paint(px, width, b, color),
{
    assert forall|i: int| 0 <= i < px.len() implies (a.contains(point_of_byte(width, i)) <==> b.contains(point_of_byte(width, i))) by {
        let q = i / 4;
        lemma_fundamental_div_mod(i, 4);
        lemma_fundamental_div_mod(q, width);
        assert(q / width < height) by (nonlinear_arith)
            requires
                q == width * (q / width) + q % width,
                0 <= q % width,
                0 <= q,
                4 * q <= i,
                i < width * height * 4,
                width > 0,
        ;
        assert(0 <= q / width) by (nonlinear_arith)
            requires
                0 <= q,
                width > 0,
        ;
    }
    assert(paint(px, width, a, color) =~= paint(px, width, b, color));
}

/// Plotting is finished once the points done are exactly the visible points
/// of the shape (on a missing frame none is visible, so `first` is none).
pub proof fn lemma_plotted_from_progress(
    old: PixelBook,
    cur: PixelBook,
    f: int,
    s: Set<(int, int)>,
    pts: Set<(int, int)>,
    first: Option<(int, int)>,
    color: Seq<u8>,
)
    requires
        old.wf(),
        progress(old, cur, f, s, color),
        forall|p: (int, int)|
            #[trigger] s.contains(p) <==> pts.contains(p) && in_bounds(old.width as int, old.height as int, p.0, p.1),
        !(0 <= f < old.frames@.len()) ==> first is None,
    ensures
        plotted(old, cur, f, pts, first, color, Ok(())),
{
    let w = old.width as int;
    let h = old.height as int;
    if 0 <= f < old.frames@.len() {
        assert(old.frames@[f].pixels@.len() == w * h * 4);
        lemma_paint_agree(old.frame_bytes()[f], w, h, s, pts, color);
    }
}

/// As above, for a shape plotted row by row.
pub proof fn lemma_rows_plotted_from_progress(
    old: PixelBook,
    cur: PixelBook,
    f: int,
    s: Set<(int, int)>,
    pts: Set<(int, int)>,
    color: Seq<u8>,
)
    requires
        old.wf(),
        progress(old, cur, f, s, color),
        forall|p: (int, int)|
            #[trigger] s.contains(p) <==> pts.contains(p) && in_bounds(old.width as int, old.height as int, p.0, p.1),
    ensures
        plotted(old, cur, f, pts, lex_first(pts, old.width as int, old.height as int), color, Ok(())),
{
    let w = old.width as int;
    let h = old.height as int;
    if !(0 <= f < old.frames@.len()) {
        assert forall|q: (int, int)| !(#[trigger] pts.contains(q) && in_bounds(w, h, q.0, q.1)) by {
            assert(!s.contains(q));
        }
        lemma_lex_first_none(pts, w, h);
    }
    lemma_plotted_from_progress(old, cur, f, s, pts, lex_first(pts, w, h), color);
}

/// Painting twice with one colour paints the union.
pub proof fn lemma_paint_union(px: Seq<u8>, width: int, a: Set<(int, int)>, b: Set<(int, int)>, color: Seq<u8>)
    ensures
        paint(paint(px, width, a, color), width, b, color) == paint(px, width, a.union(b), color),
{
    assert(paint(paint(px, width, a, color), width, b, color) =~= paint(px, width, a.union(b), color));
}

pub proof fn lemma_progress_start(old: PixelBook, f: int, color: Seq<u8>)
    requires
        old.wf(),
    ensures
        progress(old, old, f, Set::empty(), color),
{
    if 0 <= f < old.frames@.len() {
        lemma_paint_empty(old.frame_bytes()[f], old.width as int, color);
        assert(old.frame_bytes().update(f, old.frame_bytes()[f]) =~= old.frame_bytes());
    }
}

/// Plotting `a` and then `b` is plotting their union.
pub proof fn lemma_plotted_seq(
    b0: PixelBook,
    b1: PixelBook,
    b2: PixelBook,
    f: int,
    a: Set<(int, int)>,
    fa: Option<(int, int)>,
    b: Set<(int, int)>,
    fb: Option<(int, int)>,
    color: Seq<u8>,
    r: Result<(), PixelError>,
)
    requires
        b0.wf(),
        plotted(b0, b1, f, a, fa, color, Ok(())),
        plotted(b1, b2, f, b, fb, color, r),
    ensures
        plotted(b0, b2, f, a.union(b), or_else(fa, fb), color, r),
{
    let w = b0.width as int;
    if 0 <= f < b0.frames@.len() {
        lemma_paint_union(b0.frame_bytes()[f], w, a, b, color);
        assert(b1.frame_bytes()[f] == paint(b0.frame_bytes()[f], w, a, color));
        assert(b0.frame_bytes().update(f, paint(b0.frame_bytes()[f], w, a, color)).update(
            f,
            paint(paint(b0.frame_bytes()[f], w, a, color), w, b, color),
        ) =~= b0.frame_bytes().update(f, paint(b0.frame_bytes()[f], w, a.union(b), color)));
    } else {
        assert(fa is None);
    }
}

/// A failure part-way stands for the whole shape.
pub proof fn lemma_plotted_err(
    b0: PixelBook,
    b1: PixelBook,
    f: int,
    a: Set<(int, int)>,
    fa: Option<(int, int)>,
    b: Set<(int, int)>,
    fb: Option<(int, int)>,
    color: Seq<u8>,
    r: Result<(), PixelError>,
)
    requires
        plotted(b0, b1, f, a, fa, color, r),
        r is Err,
    ensures
        plotted(b0, b1, f, a.union(b), or_else(fa, fb), color, r),
{
    assert(fa is Some);
}

pub proof fn lemma_plotted_nothing(b: PixelBook, f: int, color: Seq<u8>)
    requires
        b.wf(),
    ensures
        plotted(b, b, f, Set::empty(), None, color, Ok(())),
{
    lemma_progress_start(b, f, color);
    lemma_plotted_from_progress(b, b, f, Set::empty(), Set::empty(), None, color);
}

/// What flood fill from `(x, y)` does: fails where the frame or the point does
/// not exist; changes nothing where the seed already has `color`; otherwise
/// paints the seed's 4-connected region of its colour.
pub open spec fn fill_outcome(old: PixelBook, new: PixelBook, f: int, x: u16, y: u16, color: Seq<u8>, r: Result<(), PixelError>) -> bool {
    let w = old.width as int;
    let h = old.height as int;
    if !(0 <= f < old.frames@.len() && x < old.width && y < old.height) {
        &&& r == Err::<(), PixelError>(PixelError::InvalidCoordinates { x, y, width: old.width, height: old.height })
        &&& new == old
    } else {
        let px = old.frame_bytes()[f];
        let target = color_at(px, w, x as int, y as int);
        &&& r == Ok::<(), PixelError>(())
        &&& if target == color {
            new == old
        } else {
            painted_book(old, new, f, region(px, w, h, (x as int, y as int), target), color)
        }
    }
}

/// Some entry of the stack is `q`.
pub open spec fn on_stack(stack: Seq<(u16, u16)>, q: (int, int)) -> bool {
    exists|i: int| 0 <= i < stack.len() && (#[trigger] stack[i]).0 == q.0 && stack[i].1 == q.1
}

/// Whether pixel `p` has been looked at.
pub open spec fn seen(visited: Seq<bool>, width: int, p: (int, int)) -> bool {
    visited[p.1 * width + p.0]
}

/// The frame an operation draws on (0 for one that draws nothing).
pub open spec fn op_frame(op: DrawingOperation) -> int {
    match op {
        DrawingOperation::DrawPixel { frame, .. } => frame as int,
        DrawingOperation::SetColor { .. } => 0,
        DrawingOperation::DrawLine { frame, .. } => frame as int,
        DrawingOperation::DrawShape { frame, .. } => frame as int,
        DrawingOperation::DrawPolygon { frame, .. } => frame as int,
        DrawingOperation::FillArea { frame, .. } => frame as int,
    }
}

pub open spec fn op_color(op: DrawingOperation) -> Seq<u8> {
    match op {
        DrawingOperation::DrawPixel { color, .. } => color@,
        DrawingOperation::SetColor { color } => color@,
        DrawingOperation::DrawLine { color, .. } => color@,
        DrawingOperation::DrawShape { color, .. } => color@,
        DrawingOperation::DrawPolygon { color, .. } => color@,
        DrawingOperation::FillArea { color, .. } => color@,
    }
}

/// The points a line, shape or polygon plots; `outline` holds the sample
/// offsets of an unfilled oval.
pub open spec fn op_points(op: DrawingOperation, outline: Seq<(i32, i32)>) -> Set<(int, int)> {
    match op {
        DrawingOperation::DrawLine { start, end, .. } => line_points(start, end),
        DrawingOperation::DrawShape { shape, position, size, filled, .. } => match shape {
            ShapeType::Rectangle => rect_points(position, size, filled),
            ShapeType::Circle => circle_points(position, size, filled),
            ShapeType::Oval => oval_points(position, size, filled, outline),
            ShapeType::Triangle => triangle_points(position, size, filled),
        },
        DrawingOperation::DrawPolygon { points, filled, .. } => polygon_points(points@, filled),
        _ => Set::empty(),
    }
}

/// The first point inside a `w` by `h` image that a line, shape or polygon
/// plots, in drawing order.
pub open spec fn op_first(op: DrawingOperation, outline: Seq<(i32, i32)>, w: int, h: int) -> Option<(int, int)> {
    match op {
        DrawingOperation::DrawLine { start, end, .. } => line_first(start, end, w, h),
        DrawingOperation::DrawShape { shape, position, size, filled, .. } => match shape {
            ShapeType::Rectangle => rect_first(position, size, filled, w, h),
            ShapeType::Circle => circle_first(position, size, filled, w, h),
            ShapeType::Oval => oval_first(position, size, filled, outline, w, h),
            ShapeType::Triangle => triangle_first(position, size, filled, w, h),
        },
        DrawingOperation::DrawPolygon { points, filled, .. } => polygon_first(points@, filled, w, h),
        _ => None,
    }
}

/// What an operation returns on frames of a `w` by `h` book: a pixel or a
/// fill needs an existing frame and point, and otherwise names that point; a
/// line, shape or polygon on a missing frame fails at its first point inside
/// the image, if it has one.
#[verifier::opaque]
pub open spec fn op_result(frames: Seq<Seq<u8>>, w: int, h: int, op: DrawingOperation, outline: Seq<(i32, i32)>) -> Result<(), PixelError> {
    match op {
        DrawingOperation::DrawPixel { frame, x, y, .. } => if frame < frames.len() && x < w && y < h {
            Ok(())
        } else {
            Err(PixelError::InvalidCoordinates { x, y, width: w as u16, height: h as u16 })
        },
        DrawingOperation::SetColor { .. } => Ok(()),
        DrawingOperation::FillArea { frame, x, y, .. } => if frame < frames.len() && x < w && y < h {
            Ok(())
        } else {
            Err(PixelError::InvalidCoordinates { x, y, width: w as u16, height: h as u16 })
        },
        _ => if op_frame(op) < frames.len() {
            Ok(())
        } else {
            fail_at(op_first(op, outline, w, h), w as u16, h as u16)
        },
    }
}

/// Whether an operation fails on frames of a `w` by `h` book.
pub open spec fn op_fails(frames: Seq<Seq<u8>>, w: int, h: int, op: DrawingOperation, outline: Seq<(i32, i32)>) -> bool {
    op_result(frames, w, h, op, outline) is Err
}

/// The frames after an operation (unchanged where it fails).
#[verifier::opaque]
pub open spec fn op_effect(frames: Seq<Seq<u8>>, w: int, h: int, op: DrawingOperation, outline: Seq<(i32, i32)>) -> Seq<Seq<u8>> {
    let f = op_frame(op);
    if op_fails(frames, w, h, op, outline) || !(0 <= f < frames.len()) {
        frames
    } else {
        match op {
            DrawingOperation::DrawPixel { x, y, color, .. } => frames.update(f, paint(frames[f], w, set![(x as int, y as int)], color@)),
            DrawingOperation::SetColor { .. } => frames,
            DrawingOperation::FillArea { x, y, color, .. } => {
                let target = color_at(frames[f], w, x as int, y as int);
                if target == color@ {
                    frames
                } else {
                    frames.update(f, paint(frames[f], w, region(frames[f], w, h, (x as int, y as int), target), color@))
                }
            },
            _ => frames.update(f, paint(frames[f], w, op_points(op, outline), op_color(op))),
        }
    }
}

/// What one operation does to a book: it keeps the book's layout, changes the
/// frames as `op_effect` says and returns what `op_result` says.
pub open spec fn op_outcome(old: PixelBook, new: PixelBook, op: DrawingOperation, outline: Seq<(i32, i32)>, r: Result<(), PixelError>) -> bool {
    let w = old.width as int;
    let h = old.height as int;
    &&& new.wf()
    &&& same_layout(old, new)
    &&& r == op_result(old.frame_bytes(), w, h, op, outline)
    &&& new.frame_bytes() == op_effect(old.frame_bytes(), w, h, op, outline)
}

/// The frames after the first `k` operations, none of them failing.
pub open spec fn run_ops(frames: Seq<Seq<u8>>, w: int, h: int, ops: Seq<DrawingOperation>, outlines: Seq<Vec<(i32, i32)>>, k: int) -> Seq<Seq<u8>>
    decreases k,
{
    if k <= 0 {
        frames
    } else {
        op_effect(run_ops(frames, w, h, ops, outlines, k - 1), w, h, ops[k - 1], outlines[k - 1]@)
    }
}

/// A failing operation changes no frame.
pub proof fn lemma_failure_keeps_frames(frames: Seq<Seq<u8>>, w: int, h: int, op: DrawingOperation, outline: Seq<(i32, i32)>)
    requires
        op_fails(frames, w, h, op, outline),
    ensures
        op_effect(frames, w, h, op, outline) == frames,
{
    reveal(op_effect);
}

/// Applies drawing operations to books.
pub struct DrawingService;

impl DrawingService {
    pub fn new() -> (s: Self) {
        DrawingService
    }

    /// Sets one pixel of one frame; fails, changing nothing, where the frame
    /// or the point does not exist.
    pub fn draw_pixel(&self, book: &mut PixelBook, frame_idx: usize, x: u16, y: u16, color: [u8; 4]) -> (r: Result<(), PixelError>)
        requires
            old(book).wf(),
        ensures
            if frame_idx < old(book).frames@.len() && x < old(book).width && y < old(book).height {
                r == Ok::<(), PixelError>(()) && painted_book(*old(book), *final(book), frame_idx as int, set![(x as int, y as int)], color@)
            } else {
                &&& r == Err::<(), PixelError>(PixelError::InvalidCoordinates { x, y, width: old(book).width, height: old(book).height })
                &&& *final(book) == *old(book)
            },
    {
        if frame_idx >= book.frames.len() {
            return Err(PixelError::InvalidCoordinates { x, y, width: book.width, height: book.height });
        }
        if x >= book.width || y >= book.height {
            return Err(PixelError::InvalidCoordinates { x, y, width: book.width, height: book.height });
        }
        let ghost old_book = *book;
        let w = book.width;
        let pixel = Pixel::new(color[0], color[1], color[2], color[3]);
        proof {
            lemma_pixel_in_buffer(w as int, book.height as int, x as int, y as int);
            assert(pixel.channels() =~= color@);
            lemma_paint_empty(old_book.frame_bytes()[frame_idx as int], w as int, color@);
            lemma_paint_insert(old_book.frame_bytes()[frame_idx as int], w as int, book.height as int, Set::empty(), color@, x as int, y as int);
            assert(Set::<(int, int)>::empty().insert((x as int, y as int)) =~= set![(x as int, y as int)]);
        }
        let _ = book.frames[frame_idx].set_pixel(x, y, w, pixel);
        proof {
            assert(book.frame_bytes() =~= old_book.frame_bytes().update(
                frame_idx as int,
                paint(old_book.frame_bytes()[frame_idx as int], w as int, set![(x as int, y as int)], color@),
            ));
        }
        Ok(())
    }
    /// Plots one visible point as a step of a shape.
    fn plot(
        &self,
        book: &mut PixelBook,
        frame_idx: usize,
        x: u16,
        y: u16,
        color: [u8; 4],
        Ghost(start): Ghost<PixelBook>,
        Ghost(s): Ghost<Set<(int, int)>>,
    ) -> (r: Result<(), PixelError>)
        requires
            start.wf(),
            progress(start, *old(book), frame_idx as int, s, color@),
            x < start.width,
            y < start.height,
        ensures
            r is Ok ==> frame_idx < start.frames@.len() && progress(
                start,
                *final(book),
                frame_idx as int,
                s.insert((x as int, y as int)),
                color@,
            ),
            r is Err ==> {
                &&& frame_idx >= start.frames@.len()
                &&& *final(book) == *old(book)
                &&& r == Err::<(), PixelError>(PixelError::InvalidCoordinates { x, y, width: start.width, height: start.height })
            },
    {
        let ghost cur = *book;
        let r = self.draw_pixel(book, frame_idx, x, y, color);
        proof {
            if r is Ok {
                let f = frame_idx as int;
                lemma_paint_union(start.frame_bytes()[f], start.width as int, s, set![(x as int, y as int)], color@);
                assert(s.union(set![(x as int, y as int)]) =~= s.insert((x as int, y as int)));
                assert(cur.frame_bytes().update(f, paint(cur.frame_bytes()[f], start.width as int, set![(x as int, y as int)], color@))
                    =~= start.frame_bytes().update(f, paint(start.frame_bytes()[f], start.width as int, s.insert((x as int, y as int)), color@)));
            }
        }
        r
    }
    /// Draws a rectangle, clipped to the image.
    #[verifier::rlimit(60)]
    #[verifier::spinoff_prover]
    pub fn draw_rectangle(
        &self,
        book: &mut PixelBook,
        frame_idx: usize,
        position: Point,
        size: Size,
        filled: bool,
        color: [u8; 4],
    ) -> (r: Result<(), PixelError>)
        requires
            old(book).wf(),
        ensures
            plotted(
                *old(book),
                *final(book),
                frame_idx as int,
                rect_points(position, size, filled),
                rect_first(position, size, filled, old(book).width as int, old(book).height as int),
                color@,
                r,
            ),
    {
        let ghost start = *book;
        let ghost pts = rect_points(position, size, filled);
        let ghost f = frame_idx as int;
        let w = book.width as u32;
        let h = book.height as u32;
        let x1 = position.x as u32;
        let y1 = position.y as u32;
        let x2 = x1 + if size.width > 0 { size.width as u32 - 1 } else { 0 };
        let y2 = y1 + if size.height > 0 { size.height as u32 - 1 } else { 0 };
        let xe = if x2 < w - 1 { x2 } else { w - 1 };
        let ye = if y2 < h - 1 { y2 } else { h - 1 };
        let ghost mut s = Set::<(int, int)>::empty();
        proof {
            lemma_progress_start(start, f, color@);
        }
        if filled {
            let mut y = y1;
            while y <= ye
                invariant
                    start.wf(),
                    f == frame_idx as int,
                    start == *old(book),
                    x1 == position.x as u32,
                    y1 == position.y as u32,
                    x2 == x1 + span(size.width),
                    y2 == y1 + span(size.height),
                    xe as int == if x2 < w - 1 { x2 as int } else { w - 1 },
                    ye as int == if y2 < h - 1 { y2 as int } else { h - 1 },
                    start.width == w,
                    start.height == h,
                    progress(start, *book, f, s, color@),
                    y1 <= y <= ye + 1 || y == y1,
                    ye < h,
                    xe < w,
                    pts == rect_points(position, size, filled),
                    filled,
                    forall|p: (int, int)| #[trigger] s.contains(p) <==> (x1 <= p.0 <= xe && y1 <= p.1 < y),
                decreases ye + 1 - y,
            {
                let mut x = x1;
                while x <= xe
                    invariant
                        start.wf(),
                        f == frame_idx as int,
                        start == *old(book),
                        x1 == position.x as u32,
                        y1 == position.y as u32,
                        x2 == x1 + span(size.width),
                        y2 == y1 + span(size.height),
                        xe as int == if x2 < w - 1 { x2 as int } else { w - 1 },
                        ye as int == if y2 < h - 1 { y2 as int } else { h - 1 },
                        start.width == w,
                        start.height == h,
                        progress(start, *book, f, s, color@),
                        y1 <= y <= ye,
                        x1 <= x <= xe + 1 || x == x1,
                        ye < h,
                        xe < w,
                        pts == rect_points(position, size, filled),
                        filled,
                        forall|p: (int, int)|
                            #[trigger] s.contains(p) <==> (x1 <= p.0 <= xe && y1 <= p.1 < y) || (p.1 == y && x1 <= p.0 < x),
                    decreases xe + 1 - x,
                {
                    let r = self.plot(book, frame_idx, x as u16, y as u16, color, Ghost(start), Ghost(s));
                    if r.is_err() {
                        proof {
                            assert(pts.contains((x as int, y as int)));
                            assert forall|q: (int, int)| #[trigger] pts.contains(q) && in_bounds(w as int, h as int, q.0, q.1) implies lex_le((x as int, y as int), q) by {
                                assert(!s.contains(q));
                            }
                            lemma_lex_first_is(pts, w as int, h as int, (x as int, y as int));
                        }
                        return r;
                    }
                    proof {
                        s = s.insert((x as int, y as int));
                    }
                    x = x + 1;
                }
                y = y + 1;
            }
        } else {
            let mut x = x1;
            while x <= xe
                invariant
                    start.wf(),
                    f == frame_idx as int,
                    start == *old(book),
                    x1 == position.x as u32,
                    y1 == position.y as u32,
                    x2 == x1 + span(size.width),
                    y2 == y1 + span(size.height),
                    xe as int == if x2 < w - 1 { x2 as int } else { w - 1 },
                    ye as int == if y2 < h - 1 { y2 as int } else { h - 1 },
                    start.width == w,
                    start.height == h,
                    progress(start, *book, f, s, color@),
                    x1 <= x <= xe + 1 || x == x1,
                    xe < w,
                    x2 == x1 + span(size.width),
                    y2 == y1 + span(size.height),
                    pts == rect_points(position, size, filled),
                    !filled,
                    forall|p: (int, int)|
                        #[trigger] s.contains(p) <==> x1 <= p.0 < x && ((p.1 == y1 && y1 < h) || (p.1 == y2 && y2 < h)),
                decreases xe + 1 - x,
            {
                if y1 < h {
                    let r = self.plot(book, frame_idx, x as u16, y1 as u16, color, Ghost(start), Ghost(s));
                    if r.is_err() {
                        proof {
                            assert(pts.contains((x as int, y1 as int)));
                            assert forall|q: (int, int)| #[trigger] pts.contains(q) && in_bounds(w as int, h as int, q.0, q.1) implies lex_le((x as int, y1 as int), q) by {
                                assert(!s.contains(q));
                            }
                            lemma_lex_first_is(pts, w as int, h as int, (x as int, y1 as int));
                        }
                        return r;
                    }
                    proof {
                        s = s.insert((x as int, y1 as int));
                    }
                }
                if y2 < h && y2 != y1 {
                    let r = self.plot(book, frame_idx, x as u16, y2 as u16, color, Ghost(start), Ghost(s));
                    if r.is_err() {
                        proof {
                            assert(pts.contains((x as int, y2 as int)));
                            assert forall|q: (int, int)| #[trigger] pts.contains(q) && in_bounds(w as int, h as int, q.0, q.1) implies lex_le((x as int, y2 as int), q) by {
                                assert(!s.contains(q));
                            }
                            lemma_lex_first_is(pts, w as int, h as int, (x as int, y2 as int));
                        }
                        return r;
                    }
                    proof {
                        s = s.insert((x as int, y2 as int));
                    }
                }
                x = x + 1;
            }
            let mut y = y1;
            while y <= ye
                invariant
                    start.wf(),
                    f == frame_idx as int,
                    start == *old(book),
                    x1 == position.x as u32,
                    y1 == position.y as u32,
                    x2 == x1 + span(size.width),
                    y2 == y1 + span(size.height),
                    xe as int == if x2 < w - 1 { x2 as int } else { w - 1 },
                    ye as int == if y2 < h - 1 { y2 as int } else { h - 1 },
                    start.width == w,
                    start.height == h,
                    progress(start, *book, f, s, color@),
                    y1 <= y <= ye + 1 || y == y1,
                    ye < h,
                    x2 == x1 + span(size.width),
                    y2 == y1 + span(size.height),
                    pts == rect_points(position, size, filled),
                    !filled,
                    forall|p: (int, int)|
                        #[trigger] s.contains(p) <==> (x1 <= p.0 <= xe && ((p.1 == y1 && y1 < h) || (p.1 == y2 && y2 < h)))
                            || (y1 <= p.1 < y && ((p.0 == x1 && x1 < w) || (p.0 == x2 && x2 < w))),
                decreases ye + 1 - y,
            {
                if x1 < w {
                    let r = self.plot(book, frame_idx, x1 as u16, y as u16, color, Ghost(start), Ghost(s));
                    if r.is_err() {
                        proof {
                            assert(pts.contains((x1 as int, y as int)));
                            assert forall|q: (int, int)| #[trigger] pts.contains(q) && in_bounds(w as int, h as int, q.0, q.1) implies lex_le((x1 as int, y as int), q) by {
                                assert(!s.contains(q));
                            }
                            lemma_lex_first_is(pts, w as int, h as int, (x1 as int, y as int));
                        }
                        return r;
                    }
                    proof {
                        s = s.insert((x1 as int, y as int));
                    }
                }
                if x2 < w && x2 != x1 {
                    let r = self.plot(book, frame_idx, x2 as u16, y as u16, color, Ghost(start), Ghost(s));
                    if r.is_err() {
                        proof {
                            assert(pts.contains((x2 as int, y as int)));
                            assert forall|q: (int, int)| #[trigger] pts.contains(q) && in_bounds(w as int, h as int, q.0, q.1) implies lex_le((x2 as int, y as int), q) by {
                                assert(!s.contains(q));
                            }
                            lemma_lex_first_is(pts, w as int, h as int, (x2 as int, y as int));
                        }
                        return r;
                    }
                    proof {
                        s = s.insert((x2 as int, y as int));
                    }
                }
                y = y + 1;
            }
        }
        proof {
            lemma_rows_plotted_from_progress(start, *book, f, s, pts, color@);
        }
        Ok(())
    }
    /// Draws a line with Bresenham's algorithm; points outside the image are skipped.
    pub fn draw_straight_line(&self, book: &mut PixelBook, frame_idx: usize, start: Point, end: Point, color: [u8; 4]) -> (r:
        Result<(), PixelError>)
        requires
            old(book).wf(),
        ensures
            plotted(
                *old(book),
                *final(book),
                frame_idx as int,
                line_points(start, end),
                line_first(start, end, old(book).width as int, old(book).height as int),
                color@,
                r,
            ),
    {
        self.draw_segment(book, frame_idx, start.x as i64, start.y as i64, end.x as i64, end.y as i64, color)
    }

    /// Bresenham's walk between two points of non-negative coordinates.
    fn draw_segment(&self, book: &mut PixelBook, frame_idx: usize, x0: i64, y0: i64, x1: i64, y1: i64, color: [u8; 4]) -> (r:
        Result<(), PixelError>)
        requires
            old(book).wf(),
            0 <= x0 <= 0x2_0000,
            0 <= y0 <= 0x2_0000,
            0 <= x1 <= 0x2_0000,
            0 <= y1 <= 0x2_0000,
        ensures
            plotted(
                *old(book),
                *final(book),
                frame_idx as int,
                segment_points(x0 as int, y0 as int, x1 as int, y1 as int),
                segment_first(x0 as int, y0 as int, x1 as int, y1 as int, old(book).width as int, old(book).height as int),
                color@,
                r,
            ),
    {
        let ghost begin = *book;
        let ghost pts = segment_points(x0 as int, y0 as int, x1 as int, y1 as int);
        let ghost f = frame_idx as int;
        let dx: i64 = if x1 >= x0 { x1 - x0 } else { x0 - x1 };
        let dy: i64 = if y1 >= y0 { y1 - y0 } else { y0 - y1 };
        let sx: i64 = if x0 < x1 { 1 } else { -1 };
        let sy: i64 = if y0 < y1 { 1 } else { -1 };
        let w = book.width as i64;
        let h = book.height as i64;
        let mut x = x0;
        let mut y = y0;
        let mut err = dx - dy;
        let ghost mut fuel: nat = (dx + dy) as nat;
        let ghost first_all = segment_first(x0 as int, y0 as int, x1 as int, y1 as int, w as int, h as int);
        let ghost mut done = Set::<(int, int)>::empty();
        let ghost mut s = Set::<(int, int)>::empty();
        proof {
            lemma_progress_start(begin, f, color@);
            assert(pts == done.union(bresenham(x as int, y as int, x1 as int, y1 as int, dx as int, dy as int, sx as int, sy as int, err as int, fuel)));
        }
        loop
            invariant
                begin.wf(),
                begin == *old(book),
                f == frame_idx as int,
                begin.width == w,
                begin.height == h,
                progress(begin, *book, f, s, color@),
                pts == segment_points(x0 as int, y0 as int, x1 as int, y1 as int),
                0 <= x0 <= 0x2_0000,
                0 <= y0 <= 0x2_0000,
                0 <= x1 <= 0x2_0000,
                0 <= y1 <= 0x2_0000,
                dx == abs_diff(x1 as int, x0 as int),
                dy == abs_diff(y1 as int, y0 as int),
                sx == if x0 < x1 { 1i64 } else { -1i64 },
                sy == if y0 < y1 { 1i64 } else { -1i64 },
                0 <= (x - x0) * sx <= dx,
                0 <= (y - y0) * sy <= dy,
                err == dx - dy - ((x - x0) * sx) * dy + ((y - y0) * sy) * dx,
                fuel >= (dx - (x - x0) * sx) + (dy - (y - y0) * sy),
                pts == done.union(bresenham(x as int, y as int, x1 as int, y1 as int, dx as int, dy as int, sx as int, sy as int, err as int, fuel)),
                forall|p: (int, int)| #[trigger] s.contains(p) <==> done.contains(p) && in_bounds(w as int, h as int, p.0, p.1),
                first_all == segment_first(x0 as int, y0 as int, x1 as int, y1 as int, w as int, h as int),
                !(0 <= f < begin.frames@.len()) ==> first_all == bresenham_first(
                    x as int,
                    y as int,
                    x1 as int,
                    y1 as int,
                    dx as int,
                    dy as int,
                    sx as int,
                    sy as int,
                    err as int,
                    fuel,
                    w as int,
                    h as int,
                ),
            decreases fuel,
        {
            let ghost here = bresenham(x as int, y as int, x1 as int, y1 as int, dx as int, dy as int, sx as int, sy as int, err as int, fuel);
            assert(here.contains((x as int, y as int)));
            if x >= 0 && y >= 0 && x < w && y < h {
                let r = self.plot(book, frame_idx, x as u16, y as u16, color, Ghost(begin), Ghost(s));
                if r.is_err() {
                    return r;
                }
                proof {
                    s = s.insert((x as int, y as int));
                }
            }
            proof {
                done = done.insert((x as int, y as int));
            }
            if x == x1 && y == y1 {
                proof {
                    assert(here == set![(x as int, y as int)]);
                    assert(pts =~= done);
                    lemma_plotted_from_progress(begin, *book, f, s, pts, first_all, color@);
                }
                return Ok(());
            }
            let ghost i = (x - x0) * sx;
            let ghost j = (y - y0) * sy;
            proof {
                assert(x1 - x0 == sx * dx && x1 - x == sx * (dx - i)) by (nonlinear_arith)
                    requires
                        dx == abs_diff(x1 as int, x0 as int),
                        sx == if x0 < x1 { 1i64 } else { -1i64 },
                        i == (x - x0) * sx,
                ;
                assert(y1 - y0 == sy * dy && y1 - y == sy * (dy - j)) by (nonlinear_arith)
                    requires
                        dy == abs_diff(y1 as int, y0 as int),
                        sy == if y0 < y1 { 1i64 } else { -1i64 },
                        j == (y - y0) * sy,
                ;
                lemma_bresenham_step(dx as int, dy as int, i, j, err as int);
                assert(-(dx * dy) <= i * dy <= dx * dy && 0 <= j * dx <= dy * dx) by (nonlinear_arith)
                    requires
                        0 <= i <= dx,
                        0 <= j <= dy,
                ;
                assert(dx * dy <= 0x2_0000 * 0x2_0000) by (nonlinear_arith)
                    requires
                        0 <= dx <= 0x2_0000,
                        0 <= dy <= 0x2_0000,
                ;
            }
            let ghost ox = x;
            let ghost oy = y;
            let ghost oerr = err;
            let e2 = 2 * err;
            let xs = e2 > -dy;
            let ys = e2 < dx;
            if xs {
                err = err - dy;
                x = x + sx;
            }
            if ys {
                err = err + dx;
                y = y + sy;
            }
            proof {
                assert(sx * sx == 1 && sy * sy == 1);
                assert((ox + sx - x0) * sx == (ox - x0) * sx + sx * sx) by (nonlinear_arith);
                assert((oy + sy - y0) * sy == (oy - y0) * sy + sy * sy) by (nonlinear_arith);
                let ni = if xs { i + 1 } else { i };
                let nj = if ys { j + 1 } else { j };
                assert((x - x0) * sx == ni);
                assert((y - y0) * sy == nj);
                assert(err == dx - dy - ni * dy + nj * dx) by (nonlinear_arith)
                    requires
                        oerr == dx - dy - i * dy + j * dx,
                        err == oerr - (if xs { dy } else { 0 }) + (if ys { dx } else { 0 }),
                        ni == if xs { i + 1 } else { i },
                        nj == if ys { j + 1 } else { j },
                ;
                assert(here == bresenham(x as int, y as int, x1 as int, y1 as int, dx as int, dy as int, sx as int, sy as int, err as int, (fuel - 1) as nat).insert((ox as int, oy as int)));
                if !(0 <= f < begin.frames@.len()) {
                    assert(!in_bounds(w as int, h as int, ox as int, oy as int));
                    assert(bresenham_first(ox as int, oy as int, x1 as int, y1 as int, dx as int, dy as int, sx as int, sy as int, oerr as int, fuel, w as int, h as int)
                        == bresenham_first(x as int, y as int, x1 as int, y1 as int, dx as int, dy as int, sx as int, sy as int, err as int, (fuel - 1) as nat, w as int, h as int));
                }
                fuel = (fuel - 1) as nat;
                assert(pts =~= done.union(bresenham(x as int, y as int, x1 as int, y1 as int, dx as int, dy as int, sx as int, sy as int, err as int, fuel)));
            }
        }
    }
    /// Plots `center + o` for each offset `o`, skipping points outside the image.
    fn plot_offsets(&self, book: &mut PixelBook, frame_idx: usize, cx: i64, cy: i64, offs: &Vec<(i32, i32)>, color: [u8; 4]) -> (r:
        Result<(), PixelError>)
        requires
            old(book).wf(),
            -0x1_0000_0000 <= cx <= 0x1_0000_0000,
            -0x1_0000_0000 <= cy <= 0x1_0000_0000,
        ensures
            plotted(
                *old(book),
                *final(book),
                frame_idx as int,
                offset_points(cx as int, cy as int, offs@),
                first_in(centered(cx as int, cy as int, offs@), old(book).width as int, old(book).height as int),
                color@,
                r,
            ),
    {
        let ghost begin = *book;
        let ghost f = frame_idx as int;
        let w = book.width as i64;
        let h = book.height as i64;
        let ghost all = centered(cx as int, cy as int, offs@);
        let ghost first_all = first_in(all, w as int, h as int);
        assert(all.subrange(0, all.len() as int) =~= all);
        let ghost mut s = Set::<(int, int)>::empty();
        proof {
            lemma_progress_start(begin, f, color@);
        }
        let mut i: usize = 0;
        while i < offs.len()
            invariant
                begin.wf(),
                begin == *old(book),
                f == frame_idx as int,
                begin.width == w,
                begin.height == h,
                i <= offs@.len(),
                -0x1_0000_0000 <= cx <= 0x1_0000_0000,
                -0x1_0000_0000 <= cy <= 0x1_0000_0000,
                progress(begin, *book, f, s, color@),
                forall|p: (int, int)|
                    #[trigger] s.contains(p) <==> offset_points(cx as int, cy as int, offs@.subrange(0, i as int)).contains(p)
                        && in_bounds(w as int, h as int, p.0, p.1),
                all == centered(cx as int, cy as int, offs@),
                first_all == first_in(all, w as int, h as int),
                !(0 <= f < begin.frames@.len()) ==> first_all == first_in(all.subrange(i as int, all.len() as int), w as int, h as int),
            decreases offs@.len() - i,
        {
            let (ox, oy) = offs[i];
            let px = cx + ox as i64;
            let py = cy + oy as i64;
            assert(offs@.subrange(0, i + 1).drop_last() =~= offs@.subrange(0, i as int));
            assert(all.subrange(i as int, all.len() as int).drop_first() =~= all.subrange(i + 1, all.len() as int));
            assert(all.subrange(i as int, all.len() as int)[0] == (px as int, py as int));
            if px >= 0 && py >= 0 && px < w && py < h {
                let r = self.plot(book, frame_idx, px as u16, py as u16, color, Ghost(begin), Ghost(s));
                if r.is_err() {
                    proof {
                        let pts = offset_points(cx as int, cy as int, offs@);
                        assert(offset_points(cx as int, cy as int, offs@.subrange(0, i + 1)).contains((px as int, py as int)));
                        lemma_offset_points_prefix(cx as int, cy as int, offs@, i + 1);
                    }
                    return r;
                }
                proof {
                    s = s.insert((px as int, py as int));
                }
            }
            i = i + 1;
        }
        proof {
            assert(offs@.subrange(0, i as int) =~= offs@);
            assert(all.subrange(i as int, all.len() as int) =~= Seq::<(int, int)>::empty());
            lemma_plotted_from_progress(begin, *book, f, s, offset_points(cx as int, cy as int, offs@), first_all, color@);
        }
        Ok(())
    }

    /// Plots the eight symmetric points of `(x, y)` about `(cx, cy)`.
    pub fn draw_circle_points(&self, book: &mut PixelBook, frame_idx: usize, cx: i32, cy: i32, x: i32, y: i32, color: [u8; 4]) -> (r:
        Result<(), PixelError>)
        requires
            old(book).wf(),
            x > i32::MIN,
            y > i32::MIN,
        ensures
            plotted(
                *old(book),
                *final(book),
                frame_idx as int,
                octants(cx as int, cy as int, x as int, y as int),
                first_in(octant_order(cx as int, cy as int, x as int, y as int), old(book).width as int, old(book).height as int),
                color@,
                r,
            ),
    {
        let nx = -x;
        let ny = -y;
        let offs: Vec<(i32, i32)> = vec![(x, y), (x, ny), (nx, y), (nx, ny), (y, x), (y, nx), (ny, x), (ny, nx)];
        proof {
            reveal_with_fuel(offset_points, 9);
            assert(offset_points(cx as int, cy as int, offs@) =~= octants(cx as int, cy as int, x as int, y as int));
            assert(centered(cx as int, cy as int, offs@) =~= octant_order(cx as int, cy as int, x as int, y as int));
        }
        self.plot_offsets(book, frame_idx, cx as i64, cy as i64, &offs, color)
    }
    /// Draws the circle inscribed in the box at `position` of size `size`.
    pub fn draw_circle(&self, book: &mut PixelBook, frame_idx: usize, position: Point, size: Size, filled: bool, color: [u8; 4]) -> (r:
        Result<(), PixelError>)
        requires
            old(book).wf(),
        ensures
            plotted(
                *old(book),
                *final(book),
                frame_idx as int,
                circle_points(position, size, filled),
                circle_first(position, size, filled, old(book).width as int, old(book).height as int),
                color@,
                r,
            ),
    {
        let ghost begin = *book;
        let ghost f = frame_idx as int;
        let ghost pts = circle_points(position, size, filled);
        let cx: i64 = position.x as i64 + size.width as i64 / 2;
        let cy: i64 = position.y as i64 + size.height as i64 / 2;
        let radius: i64 = (if size.width <= size.height { size.width } else { size.height }) as i64 / 2;
        let w = book.width as i64;
        let h = book.height as i64;
        if filled {
            let ys = if cy - radius > 0 { cy - radius } else { 0 };
            let ye = if cy + radius + 1 < h { cy + radius + 1 } else { h };
            let xs = if cx - radius > 0 { cx - radius } else { 0 };
            let xe = if cx + radius + 1 < w { cx + radius + 1 } else { w };
            let ghost mut s = Set::<(int, int)>::empty();
            proof {
                lemma_progress_start(begin, f, color@);
                assert forall|p: (int, int)| #[trigger] s.contains(p) <==> pts.contains(p) && in_bounds(w as int, h as int, p.0, p.1) && p.1 < ys by {
                    if pts.contains(p) && p.1 < ys && p.1 >= 0 {
                        lemma_square_exceeds(p.1 - cy, radius as int);
                        assert((p.0 - cx) * (p.0 - cx) >= 0) by (nonlinear_arith);
                    }
                }
            }
            let mut y = ys;
            while y < ye
                invariant
                    begin.wf(),
                    begin == *old(book),
                    f == frame_idx as int,
                    begin.width == w,
                    begin.height == h,
                    filled,
                    pts == circle_points(position, size, filled),
                    (cx as int, cy as int) == circle_center(position, size),
                    radius == circle_radius(size),
                    0 <= radius <= 32767,
                    xs == if cx - radius > 0 { cx - radius } else { 0 },
                    xe == if cx + radius + 1 < w { cx + radius + 1 } else { w as int },
                    ye == if cy + radius + 1 < h { cy + radius + 1 } else { h as int },
                    ys <= y,
                    0 <= ys,
                    progress(begin, *book, f, s, color@),
                    forall|p: (int, int)| #[trigger] s.contains(p) <==> pts.contains(p) && in_bounds(w as int, h as int, p.0, p.1) && p.1 < y,
                decreases ye - y,
            {
                let mut x = xs;
                proof {
                    assert forall|p: (int, int)| #[trigger] s.contains(p) <==> pts.contains(p) && in_bounds(w as int, h as int, p.0, p.1)
                        && (p.1 < y || (p.1 == y && p.0 < x)) by {
                        if pts.contains(p) && p.1 == y && p.0 < xs && p.0 >= 0 {
                            lemma_square_exceeds(p.0 - cx, radius as int);
                            assert((p.1 - cy) * (p.1 - cy) >= 0) by (nonlinear_arith);
                        }
                    }
                }
                while x < xe
                    invariant
                        begin.wf(),
                        begin == *old(book),
                        f == frame_idx as int,
                        begin.width == w,
                        begin.height == h,
                        filled,
                        pts == circle_points(position, size, filled),
                        (cx as int, cy as int) == circle_center(position, size),
                        radius == circle_radius(size),
                        0 <= radius <= 32767,
                        xe == if cx + radius + 1 < w { cx + radius + 1 } else { w as int },
                        ye == if cy + radius + 1 < h { cy + radius + 1 } else { h as int },
                        0 <= ys <= y < ye,
                        0 <= xs <= x,
                        progress(begin, *book, f, s, color@),
                        forall|p: (int, int)| #[trigger] s.contains(p) <==> pts.contains(p) && in_bounds(w as int, h as int, p.0, p.1)
                            && (p.1 < y || (p.1 == y && p.0 < x)),
                    decreases xe - x,
                {
                    let dx = x - cx;
                    let dy = y - cy;
                    assert(0 <= cx <= 0x2_0000 && 0 <= cy <= 0x2_0000);
                    assert(0 <= x < 65536 && 0 <= y < 65536);
                    proof {
                        assert(0 <= dx * dx <= 0x4_0000_0000 && 0 <= dy * dy <= 0x4_0000_0000 && 0 <= radius * radius <= 0x4000_0000) by (nonlinear_arith)
                            requires
                                -0x2_0000 <= dx <= 0x2_0000,
                                -0x2_0000 <= dy <= 0x2_0000,
                                0 <= radius <= 32767,
                        ;
                    }
                    let ddx = dx * dx;
                    let ddy = dy * dy;
                    if ddx + ddy <= radius * radius {
                        let r = self.plot(book, frame_idx, x as u16, y as u16, color, Ghost(begin), Ghost(s));
                        if r.is_err() {
                            proof {
                                assert(pts.contains((x as int, y as int)));
                                assert forall|q: (int, int)| #[trigger] pts.contains(q) && in_bounds(w as int, h as int, q.0, q.1) implies lex_le((x as int, y as int), q) by {
                                    assert(!s.contains(q));
                                }
                                lemma_lex_first_is(pts, w as int, h as int, (x as int, y as int));
                            }
                            return r;
                        }
                        proof {
                            s = s.insert((x as int, y as int));
                        }
                    }
                    x = x + 1;
                }
                proof {
                    assert forall|p: (int, int)| #[trigger] s.contains(p) <==> pts.contains(p) && in_bounds(w as int, h as int, p.0, p.1)
                        && p.1 < y + 1 by {
                        if pts.contains(p) && p.1 == y && p.0 >= x && p.0 < w {
                            lemma_square_exceeds(p.0 - cx, radius as int);
                            assert((p.1 - cy) * (p.1 - cy) >= 0) by (nonlinear_arith);
                        }
                    }
                }
                y = y + 1;
            }
            proof {
                assert forall|p: (int, int)| #[trigger] s.contains(p) <==> pts.contains(p) && in_bounds(w as int, h as int, p.0, p.1) by {
                    if pts.contains(p) && p.1 >= y && p.1 < h {
                        lemma_square_exceeds(p.1 - cy, radius as int);
                        assert((p.0 - cx) * (p.0 - cx) >= 0) by (nonlinear_arith);
                    }
                }
                lemma_rows_plotted_from_progress(begin, *book, f, s, pts, color@);
            }
            Ok(())
        } else {
            let mut x: i64 = 0;
            let mut y: i64 = radius;
            let mut d: i64 = 1 - radius;
            let ghost mut done = Set::<(int, int)>::empty();
            let ghost bw = begin.width as int;
            let ghost bh = begin.height as int;
            let ghost first_all = circle_first(position, size, filled, bw, bh);
            proof {
                lemma_plotted_nothing(begin, f, color@);
                assert(pts =~= done.union(midpoint_walk(cx as int, cy as int, x as int, y as int, d as int)));
            }
            while x <= y
                invariant
                    begin.wf(),
                    begin == *old(book),
                    book.wf(),
                    f == frame_idx as int,
                    0 <= radius <= 32767,
                    0 <= cx <= 0x2_0000,
                    0 <= cy <= 0x2_0000,
                    0 <= x <= radius + 1,
                    y <= radius,
                    -(1 + radius + x * (2 * radius + 5)) <= d <= 1 + radius + x * (2 * radius + 5),
                    plotted(begin, *book, f, done, None, color@, Ok(())),
                    pts == circle_points(position, size, filled),
                    !filled,
                    (cx as int, cy as int) == circle_center(position, size),
                    bw == begin.width,
                    bh == begin.height,
                    first_all == circle_first(position, size, filled, bw, bh),
                    !(0 <= f < begin.frames@.len()) ==> first_all == midpoint_first(cx as int, cy as int, x as int, y as int, d as int, bw, bh),
                    pts == done.union(midpoint_walk(cx as int, cy as int, x as int, y as int, d as int)),
                decreases y + 2 - x,
            {
                let ghost mid = *book;
                let ghost oct = octants(cx as int, cy as int, x as int, y as int);
                let ghost rest = midpoint_walk(cx as int, cy as int, x as int, y as int, d as int);
                let ghost oct_first = first_in(octant_order(cx as int, cy as int, x as int, y as int), bw, bh);
                proof {
                    assert(x * (2 * radius + 5) <= 32769 * 65539) by (nonlinear_arith)
                        requires
                            0 <= x <= radius + 1,
                            0 <= radius <= 32767,
                    ;
                    assert((x + 1) * (2 * radius + 5) == x * (2 * radius + 5) + 2 * radius + 5) by (nonlinear_arith);
                }
                let r = self.draw_circle_points(book, frame_idx, cx as i32, cy as i32, x as i32, y as i32, color);
                proof {
                    lemma_plotted_seq(begin, mid, *book, f, done, None, oct, oct_first, color@, r);
                }
                if r.is_err() {
                    proof {
                        lemma_plotted_err(begin, *book, f, done.union(oct), or_else(None, oct_first), rest, None, color@, r);
                        assert(pts =~= done.union(oct).union(rest));
                        assert(plotted(begin, *book, f, done.union(oct).union(rest), first_all, color@, r));
                    }
                    return r;
                }
                let ghost od = d;
                let ghost oy = y;
                if d < 0 {
                    d = d + 2 * x + 3;
                } else {
                    d = d + 2 * (x - y) + 5;
                    y = y - 1;
                }
                x = x + 1;
                proof {
                    assert(rest == oct.union(midpoint_walk(cx as int, cy as int, x as int, y as int, d as int)));
                    assert(plotted(begin, *book, f, done.union(oct), None, color@, Ok(())));
                    done = done.union(oct);
                    assert(pts =~= done.union(midpoint_walk(cx as int, cy as int, x as int, y as int, d as int)));
                }
            }
            proof {
                assert(pts =~= done);
                assert(plotted(begin, *book, f, pts, first_all, color@, Ok(())));
            }
            Ok(())
        }
    }
    /// Draws the ellipse inscribed in the box at `position` of size `size`;
    /// an outline plots the given sample offsets around the centre.
    pub fn draw_oval(
        &self,
        book: &mut PixelBook,
        frame_idx: usize,
        position: Point,
        size: Size,
        filled: bool,
        color: [u8; 4],
        outline: &Vec<(i32, i32)>,
    ) -> (r: Result<(), PixelError>)
        requires
            old(book).wf(),
        ensures
            plotted(
                *old(book),
                *final(book),
                frame_idx as int,
                oval_points(position, size, filled, outline@),
                oval_first(position, size, filled, outline@, old(book).width as int, old(book).height as int),
                color@,
                r,
            ),
    {
        let ghost begin = *book;
        let ghost f = frame_idx as int;
        let ghost pts = oval_points(position, size, filled, outline@);
        let cx: i64 = position.x as i64 + size.width as i64 / 2;
        let cy: i64 = position.y as i64 + size.height as i64 / 2;
        let rx: i64 = size.width as i64 / 2;
        let ry: i64 = size.height as i64 / 2;
        if !filled {
            return self.plot_offsets(book, frame_idx, cx, cy, outline, color);
        }
        let w = book.width as i64;
        let h = book.height as i64;
        let ys = if cy - ry > 0 { cy - ry } else { 0 };
        let ye = if cy + ry + 1 < h { cy + ry + 1 } else { h };
        let xs = if cx - rx > 0 { cx - rx } else { 0 };
        let xe = if cx + rx + 1 < w { cx + rx + 1 } else { w };
        let ghost mut s = Set::<(int, int)>::empty();
        proof {
            lemma_progress_start(begin, f, color@);
        }
        let mut y = ys;
        while y < ye
            invariant
                begin.wf(),
                begin == *old(book),
                f == frame_idx as int,
                begin.width == w,
                begin.height == h,
                filled,
                pts == oval_points(position, size, filled, outline@),
                (cx as int, cy as int) == circle_center(position, size),
                rx == size.width / 2,
                ry == size.height / 2,
                xs == if cx - rx > 0 { cx - rx } else { 0 },
                xe == if cx + rx + 1 < w { cx + rx + 1 } else { w as int },
                ys == if cy - ry > 0 { cy - ry } else { 0 },
                ye == if cy + ry + 1 < h { cy + ry + 1 } else { h as int },
                ys <= y,
                progress(begin, *book, f, s, color@),
                forall|p: (int, int)| #[trigger] s.contains(p) <==> pts.contains(p) && in_bounds(w as int, h as int, p.0, p.1) && p.1 < y,
            decreases ye - y,
        {
            let mut x = xs;
            while x < xe
                invariant
                    begin.wf(),
                    begin == *old(book),
                    f == frame_idx as int,
                    begin.width == w,
                    begin.height == h,
                    filled,
                    pts == oval_points(position, size, filled, outline@),
                    (cx as int, cy as int) == circle_center(position, size),
                    rx == size.width / 2,
                    ry == size.height / 2,
                    xs == if cx - rx > 0 { cx - rx } else { 0 },
                    xe == if cx + rx + 1 < w { cx + rx + 1 } else { w as int },
                    ys == if cy - ry > 0 { cy - ry } else { 0 },
                    ye == if cy + ry + 1 < h { cy + ry + 1 } else { h as int },
                    ys <= y < ye,
                    xs <= x,
                    progress(begin, *book, f, s, color@),
                    forall|p: (int, int)| #[trigger] s.contains(p) <==> pts.contains(p) && in_bounds(w as int, h as int, p.0, p.1)
                        && (p.1 < y || (p.1 == y && p.0 < x)),
                decreases xe - x,
            {
                let dx = x - cx;
                let dy = y - cy;
                proof {
                    assert(0 <= rx * rx <= 0x4000_0000 && 0 <= ry * ry <= 0x4000_0000 && 0 <= dx * dx <= 0x4000_0000 && 0 <= dy * dy
                        <= 0x4000_0000) by (nonlinear_arith)
                        requires
                            0 <= rx <= 32767,
                            0 <= ry <= 32767,
                            -rx <= dx <= rx,
                            -ry <= dy <= ry,
                    ;
                    assert(0 <= (rx * rx) * (dy * dy) <= 0x4000_0000 * 0x4000_0000 && 0 <= (ry * ry) * (dx * dx) <= 0x4000_0000
                        * 0x4000_0000 && 0 <= (rx * rx) * (ry * ry) <= 0x4000_0000 * 0x4000_0000) by (nonlinear_arith)
                        requires
                            0 <= rx * rx <= 0x4000_0000,
                            0 <= ry * ry <= 0x4000_0000,
                            0 <= dx * dx <= 0x4000_0000,
                            0 <= dy * dy <= 0x4000_0000,
                    ;
                }
                let rr = (rx * rx) * (ry * ry);
                let lhs = (rx * rx) * (dy * dy) + (ry * ry) * (dx * dx);
                if lhs <= rr {
                    let r = self.plot(book, frame_idx, x as u16, y as u16, color, Ghost(begin), Ghost(s));
                    if r.is_err() {
                        proof {
                            assert(pts.contains((x as int, y as int)));
                            assert forall|q: (int, int)| #[trigger] pts.contains(q) && in_bounds(w as int, h as int, q.0, q.1) implies lex_le((x as int, y as int), q) by {
                                assert(!s.contains(q));
                            }
                            lemma_lex_first_is(pts, w as int, h as int, (x as int, y as int));
                        }
                        return r;
                    }
                    proof {
                        s = s.insert((x as int, y as int));
                    }
                }
                x = x + 1;
            }
            y = y + 1;
        }
        proof {
            lemma_rows_plotted_from_progress(begin, *book, f, s, pts, color@);
        }
        Ok(())
    }

    /// Draws the triangle with apex at the top middle of the box at `position`
    /// of size `size` and base along its bottom row.
    pub fn draw_triangle(&self, book: &mut PixelBook, frame_idx: usize, position: Point, size: Size, filled: bool, color: [u8; 4]) -> (r:
        Result<(), PixelError>)
        requires
            old(book).wf(),
        ensures
            plotted(
                *old(book),
                *final(book),
                frame_idx as int,
                triangle_points(position, size, filled),
                triangle_first(position, size, filled, old(book).width as int, old(book).height as int),
                color@,
                r,
            ),
    {
        let ghost begin = *book;
        let ghost f = frame_idx as int;
        let ghost pts = triangle_points(position, size, filled);
        let x1: u64 = position.x as u64 + size.width as u64 / 2;
        let y1: u64 = position.y as u64;
        let x2: u64 = position.x as u64;
        let y2: u64 = position.y as u64 + if size.height > 0 { size.height as u64 - 1 } else { 0 };
        let x3: u64 = position.x as u64 + if size.width > 0 { size.width as u64 - 1 } else { 0 };
        if !filled {
            let ghost a = segment_points(x1 as int, y1 as int, x2 as int, y2 as int);
            let ghost b = segment_points(x2 as int, y2 as int, x3 as int, y2 as int);
            let ghost c = segment_points(x3 as int, y2 as int, x1 as int, y1 as int);
            let ghost bw = begin.width as int;
            let ghost bh = begin.height as int;
            let ghost fa = segment_first(x1 as int, y1 as int, x2 as int, y2 as int, bw, bh);
            let ghost fb = segment_first(x2 as int, y2 as int, x3 as int, y2 as int, bw, bh);
            let ghost fc = segment_first(x3 as int, y2 as int, x1 as int, y1 as int, bw, bh);
            let r = self.draw_segment(book, frame_idx, x1 as i64, y1 as i64, x2 as i64, y2 as i64, color);
            if r.is_err() {
                proof {
                    lemma_plotted_err(begin, *book, f, a, fa, b, fb, color@, r);
                    lemma_plotted_err(begin, *book, f, a.union(b), or_else(fa, fb), c, fc, color@, r);
                }
                return r;
            }
            let ghost m1 = *book;
            let r = self.draw_segment(book, frame_idx, x2 as i64, y2 as i64, x3 as i64, y2 as i64, color);
            proof {
                lemma_plotted_seq(begin, m1, *book, f, a, fa, b, fb, color@, r);
            }
            if r.is_err() {
                proof {
                    lemma_plotted_err(begin, *book, f, a.union(b), or_else(fa, fb), c, fc, color@, r);
                }
                return r;
            }
            let ghost m2 = *book;
            let r = self.draw_segment(book, frame_idx, x3 as i64, y2 as i64, x1 as i64, y1 as i64, color);
            proof {
                lemma_plotted_seq(begin, m2, *book, f, a.union(b), or_else(fa, fb), c, fc, color@, r);
            }
            return r;
        }
        let w = book.width as u64;
        let h = book.height as u64;
        let ye = if y2 < h - 1 { y2 } else { h - 1 };
        let ghost mut s = Set::<(int, int)>::empty();
        proof {
            lemma_progress_start(begin, f, color@);
        }
        let mut y = y1;
        while y <= ye
            invariant
                begin.wf(),
                begin == *old(book),
                f == frame_idx as int,
                begin.width == w,
                begin.height == h,
                filled,
                pts == triangle_points(position, size, filled),
                triangle_vertices(position, size) == (x1 as int, y1 as int, x2 as int, y2 as int, x3 as int, y2 as int),
                x2 <= x1 <= x3,
                x3 <= 0x2_0000,
                y2 <= 0x2_0000,
                y1 <= y2,
                ye == if y2 < h - 1 { y2 as int } else { h - 1 },
                y1 <= y,
                y <= ye + 1 || y == y1,
                progress(begin, *book, f, s, color@),
                forall|p: (int, int)| #[trigger] s.contains(p) <==> pts.contains(p) && in_bounds(w as int, h as int, p.0, p.1) && p.1 < y,
            decreases ye + 1 - y,
        {
            let t = y - y1;
            let den = y2 - y1;
            proof {
                assert(t * (x1 - x2) <= den * x1 && x1 * den <= 0x2_0000 * 0x2_0000 && t * (x3 - x1) <= 0x2_0000 * 0x2_0000) by (nonlinear_arith)
                    requires
                        0 <= t <= den,
                        den <= 0x2_0000,
                        x2 <= x1 <= x3 <= 0x2_0000,
                        0 <= x2,
                ;
            }
            let left = if den == 0 { x1 } else { (x1 * den - t * (x1 - x2)) / den };
            let right = if den == 0 { x1 } else { (x1 * den + t * (x3 - x1)) / den };
            assert((t as int) * ((x1 - x2) as int) == -((t as int) * ((x2 as int) - (x1 as int)))) by (nonlinear_arith);
            assert(left == edge_x(x1 as int, y1 as int, x2 as int, y2 as int, y as int));
            assert(right == edge_x(x1 as int, y1 as int, x3 as int, y2 as int, y as int));
            let xe = if right < w - 1 { right } else { w - 1 };
            let mut x = left;
            while x <= xe
                invariant
                    begin.wf(),
                    begin == *old(book),
                    f == frame_idx as int,
                    begin.width == w,
                    begin.height == h,
                    filled,
                    pts == triangle_points(position, size, filled),
                    triangle_vertices(position, size) == (x1 as int, y1 as int, x2 as int, y2 as int, x3 as int, y2 as int),
                    y1 <= y <= ye,
                    ye < h,
                    y <= y2,
                    left == edge_x(x1 as int, y1 as int, x2 as int, y2 as int, y as int),
                    right == edge_x(x1 as int, y1 as int, x3 as int, y2 as int, y as int),
                    xe == if right < w - 1 { right as int } else { w - 1 },
                    left <= x,
                    x <= xe + 1 || x == left,
                    progress(begin, *book, f, s, color@),
                    forall|p: (int, int)| #[trigger] s.contains(p) <==> pts.contains(p) && in_bounds(w as int, h as int, p.0, p.1)
                        && (p.1 < y || (p.1 == y && p.0 < x)),
                decreases xe + 1 - x,
            {
                let r = self.plot(book, frame_idx, x as u16, y as u16, color, Ghost(begin), Ghost(s));
                if r.is_err() {
                    proof {
                        assert(pts.contains((x as int, y as int)));
                        assert forall|q: (int, int)| #[trigger] pts.contains(q) && in_bounds(w as int, h as int, q.0, q.1) implies lex_le((x as int, y as int), q) by {
                            assert(!s.contains(q));
                        }
                        lemma_lex_first_is(pts, w as int, h as int, (x as int, y as int));
                    }
                    return r;
                }
                proof {
                    s = s.insert((x as int, y as int));
                }
                x = x + 1;
            }
            y = y + 1;
        }
        proof {
            lemma_rows_plotted_from_progress(begin, *book, f, s, pts, color@);
        }
        Ok(())
    }
    /// Flood fill: paints the 4-connected region of the seed's colour with
    /// `color`, using an explicit stack.
    #[verifier::rlimit(100)]
    #[verifier::spinoff_prover]
    pub fn fill_area(&self, book: &mut PixelBook, frame_idx: usize, x: u16, y: u16, color: [u8; 4]) -> (r: Result<(), PixelError>)
        requires
            old(book).wf(),
        ensures
            fill_outcome(*old(book), *final(book), frame_idx as int, x, y, color@, r),
    {
        if frame_idx >= book.frames.len() || x >= book.width || y >= book.height {
            return Err(PixelError::InvalidCoordinates { x, y, width: book.width, height: book.height });
        }
        let ghost begin = *book;
        let ghost f = frame_idx as int;
        let w = book.width;
        let h = book.height;
        let ghost orig = begin.frame_bytes()[f];
        let ghost seed = (x as int, y as int);
        let target = match book.frames[frame_idx].get_pixel(x, y, w) {
            Some(p) => p,
            None => {
                proof {
                    lemma_pixel_in_buffer(w as int, h as int, x as int, y as int);
                }
                return Ok(());
            },
        };
        let ghost tcol = color_at(orig, w as int, x as int, y as int);
        let paint_px = Pixel::new(color[0], color[1], color[2], color[3]);
        proof {
            assert(tcol == target.channels());
            assert(paint_px.channels() =~= color@);
        }
        if target == paint_px {
            return Ok(());
        }
        assert(tcol != color@) by {
            if tcol == color@ {
                assert(target.channels()[0] == paint_px.channels()[0]);
                assert(target.channels()[1] == paint_px.channels()[1]);
                assert(target.channels()[2] == paint_px.channels()[2]);
                assert(target.channels()[3] == paint_px.channels()[3]);
            }
        }
        let ghost reg = region(orig, w as int, h as int, seed, tcol);
        proof {
            lemma_region_seed(orig, w as int, h as int, seed, tcol);
            lemma_pixel_in_buffer(w as int, h as int, x as int, y as int);
        }
        let plen = book.frames[frame_idx].pixels.len();
        assert(plen == (w as int) * (h as int) * 4);
        let n: usize = (w as usize) * (h as usize);
        let mut visited: Vec<bool> = Vec::with_capacity(n);
        let mut i: usize = 0;
        while i < n
            invariant
                i <= n,
                visited@ == Seq::new(i as nat, |_k: int| false),
            decreases n - i,
        {
            visited.push(false);
            i = i + 1;
            assert(visited@ =~= Seq::new(i as nat, |_k: int| false));
        }
        let mut stack: Vec<(u16, u16)> = Vec::new();
        stack.push((x, y));
        let ghost mut done = Set::<(int, int)>::empty();
        proof {
            lemma_progress_start(begin, f, color@);
            assert(stack@[0] == (x, y));
            assert forall|p: (int, int)| in_bounds(w as int, h as int, p.0, p.1) implies !#[trigger] seen(visited@, w as int, p) by {
                lemma_pixel_in_buffer(w as int, h as int, p.0, p.1);
            }
        }
        while stack.len() > 0
            invariant
                begin.wf(),
                begin == *old(book),
                f == frame_idx as int,
                0 <= f < begin.frames@.len(),
                w == begin.width,
                h == begin.height,
                n == w * h,
                orig == begin.frame_bytes()[f],
                orig.len() == w * h * 4,
                seed == (x as int, y as int),
                x < w,
                y < h,
                tcol == color_at(orig, w as int, x as int, y as int),
                tcol == target.channels(),
                tcol != color@,
                paint_px.channels() == color@,
                reg == region(orig, w as int, h as int, seed, tcol),
                reg.contains(seed),
                painted_book(begin, *book, f, done, color@),
                forall|p: (int, int)| #[trigger] done.contains(p) ==> reg.contains(p),
                visited@.len() == n,
                forall|p: (int, int)|
                    in_bounds(w as int, h as int, p.0, p.1) && #[trigger] seen(visited@, w as int, p) ==> done.contains(p)
                        || color_at(orig, w as int, p.0, p.1) != tcol,
                forall|i: int|
                    0 <= i < stack@.len() ==> {
                        &&& (#[trigger] stack@[i]).0 < w
                        &&& stack@[i].1 < h
                        &&& (stack@[i] == (x, y) || exists|p: (int, int)|
                            done.contains(p) && #[trigger] adjacent(p, (stack@[i].0 as int, stack@[i].1 as int)))
                    },
                done.contains(seed) || on_stack(stack@, seed),
                forall|p: (int, int), q: (int, int)|
                    #[trigger] done.contains(p) && #[trigger] adjacent(p, q) && in_bounds(w as int, h as int, q.0, q.1) ==> on_stack(
                        stack@,
                        q,
                    ) || seen(visited@, w as int, q),
            decreases 5 * count_false(visited@) + stack@.len(),
        {
            let ghost old_stack = stack@;
            let ghost old_visited = visited@;
            let ghost old_done = done;
            let (cx, cy) = match stack.pop() {
                Some(e) => e,
                None => {
                    return Ok(());
                },
            };
            let ghost q = (cx as int, cy as int);
            assert(old_stack[old_stack.len() - 1] == (cx, cy));
            assert(stack@ =~= old_stack.drop_last());
            // entries other than the popped one are still on the stack
            assert forall|r: (int, int)| on_stack(old_stack, r) && r != q implies on_stack(stack@, r) by {
                let i = choose|i: int| 0 <= i < old_stack.len() && (#[trigger] old_stack[i]).0 == r.0 && old_stack[i].1 == r.1;
                assert(stack@[i] == old_stack[i]);
            }
            if cx >= w || cy >= h {
                continue;
            }
            proof {
                lemma_pixel_in_buffer(w as int, h as int, cx as int, cy as int);
            }
            let k: usize = (cy as usize) * (w as usize) + (cx as usize);
            assert(seen(visited@, w as int, q) == visited@[k as int]);
            if visited[k] {
                continue;
            }
            let cur = match book.frames[frame_idx].get_pixel(cx, cy, w) {
                Some(p) => p,
                None => {
                    return Ok(());
                },
            };
            proof {
                lemma_color_after_paint(orig, w as int, h as int, done, color@, cx as int, cy as int);
                lemma_count_false_set(visited@, k as int);
            }
            visited.set(k, true);
            if cur != target {
                assert(cur.channels() != target.channels());
                assert(book.frame_bytes()[f] == book.frames@[f].pixels@);
                assert(done.contains(seed) || on_stack(stack@, seed)) by {
                    if !done.contains(seed) && q == seed {
                        assert(color_at(orig, w as int, x as int, y as int) == tcol);
                    }
                }
                assert forall|p: (int, int)| in_bounds(w as int, h as int, p.0, p.1) && #[trigger] seen(visited@, w as int, p) implies seen(
                    old_visited,
                    w as int,
                    p,
                ) || p.1 * w + p.0 == k by {
                    lemma_pixel_in_buffer(w as int, h as int, p.0, p.1);
                }
                assert forall|p: (int, int)|
                    in_bounds(w as int, h as int, p.0, p.1) && #[trigger] seen(visited@, w as int, p) implies done.contains(p)
                        || color_at(orig, w as int, p.0, p.1) != tcol by {
                    if p.1 * w + p.0 == k {
                        lemma_same_cell(w as int, h as int, p, q);
                        assert(book.frame_bytes()[f] == book.frames@[f].pixels@);
                    } else {
                        assert(seen(old_visited, w as int, p));
                    }
                }
                assert forall|p: (int, int), r: (int, int)|
                    #[trigger] done.contains(p) && #[trigger] adjacent(p, r) && in_bounds(w as int, h as int, r.0, r.1) implies on_stack(
                        stack@,
                        r,
                    ) || seen(visited@, w as int, r) by {
                    lemma_pixel_in_buffer(w as int, h as int, r.0, r.1);
                    if r == q {
                        assert(seen(visited@, w as int, r));
                    } else if on_stack(old_stack, r) {
                        assert(on_stack(stack@, r));
                    } else {
                        assert(seen(old_visited, w as int, r));
                        if r.1 * w + r.0 == k {
                            lemma_same_cell(w as int, h as int, r, q);
                        }
                        assert(seen(visited@, w as int, r));
                    }
                }
                continue;
            }
            assert(cur.channels() == target.channels());
            assert(book.frame_bytes()[f] == book.frames@[f].pixels@);
            assert(!done.contains(q));
            assert(color_at(orig, w as int, cx as int, cy as int) == tcol);
            assert(reg.contains(q)) by {
                if old_stack[old_stack.len() - 1] != (x, y) {
                    let p = choose|p: (int, int)| done.contains(p) && #[trigger] adjacent(p, (old_stack[old_stack.len() - 1].0 as int, old_stack[old_stack.len() - 1].1 as int));
                    lemma_region_extend(orig, w as int, h as int, seed, tcol, p, q);
                }
            }
            let ghost before = *book;
            let r = self.plot(book, frame_idx, cx, cy, color, Ghost(begin), Ghost(done));
            if r.is_err() {
                return r;
            }
            proof {
                done = done.insert(q);
            }
            let ghost base = stack@;
            let ghost mut il: int = 0;
            let ghost mut ir: int = 0;
            let ghost mut iu: int = 0;
            let ghost mut id: int = 0;
            if cx > 0 {
                proof {
                    il = stack@.len() as int;
                }
                stack.push((cx - 1, cy));
            }
            let ghost s1 = stack@;
            if cx + 1 < w {
                proof {
                    ir = stack@.len() as int;
                }
                stack.push((cx + 1, cy));
            }
            let ghost s2 = stack@;
            if cy > 0 {
                proof {
                    iu = stack@.len() as int;
                }
                stack.push((cx, cy - 1));
            }
            let ghost s3 = stack@;
            if cy + 1 < h {
                proof {
                    id = stack@.len() as int;
                }
                stack.push((cx, cy + 1));
            }
            proof {
                assert(forall|i: int| 0 <= i < s3.len() ==> stack@[i] == s3[i]);
                assert(forall|i: int| 0 <= i < s2.len() ==> s3[i] == s2[i]);
                assert(forall|i: int| 0 <= i < s1.len() ==> s2[i] == s1[i]);
                assert(forall|i: int| 0 <= i < base.len() ==> s1[i] == base[i]);
                assert(base.len() <= s1.len() <= s2.len() <= s3.len() <= stack@.len());
                assert forall|i: int| 0 <= i < stack@.len() implies {
                    &&& (#[trigger] stack@[i]).0 < w
                    &&& stack@[i].1 < h
                    &&& (stack@[i] == (x, y) || exists|p: (int, int)|
                        done.contains(p) && #[trigger] adjacent(p, (stack@[i].0 as int, stack@[i].1 as int)))
                } by {
                    if i < base.len() {
                        assert(stack@[i] == base[i]);
                        assert(base[i] == old_stack[i]);
                        if stack@[i] != (x, y) {
                            let p = choose|p: (int, int)| old_done.contains(p) && #[trigger] adjacent(p, (old_stack[i].0 as int, old_stack[i].1 as int));
                            assert(done.contains(p));
                        }
                    } else {
                        assert(adjacent(q, (stack@[i].0 as int, stack@[i].1 as int)));
                    }
                }
                assert forall|r: (int, int)| on_stack(base, r) implies on_stack(stack@, r) by {
                    let i = choose|i: int| 0 <= i < base.len() && (#[trigger] base[i]).0 == r.0 && base[i].1 == r.1;
                    assert(stack@[i] == base[i]);
                }
                assert forall|r: (int, int)| adjacent(q, r) && in_bounds(w as int, h as int, r.0, r.1) implies on_stack(stack@, r) by {
                    if r.0 == cx - 1 {
                        assert(stack@[il] == s1[il]);
                    } else if r.0 == cx + 1 {
                        assert(stack@[ir] == s2[ir]);
                    } else if r.1 == cy - 1 {
                        assert(stack@[iu] == s3[iu]);
                    } else {
                        assert(stack@[id].0 == cx && stack@[id].1 == cy + 1);
                    }
                }
                assert forall|p: (int, int)|
                    in_bounds(w as int, h as int, p.0, p.1) && #[trigger] seen(visited@, w as int, p) implies done.contains(p)
                        || color_at(orig, w as int, p.0, p.1) != tcol by {
                    lemma_pixel_in_buffer(w as int, h as int, p.0, p.1);
                    if p.1 * w + p.0 == k {
                        lemma_same_cell(w as int, h as int, p, q);
                    } else {
                        assert(seen(old_visited, w as int, p));
                    }
                }
                assert forall|p: (int, int), r: (int, int)|
                    #[trigger] done.contains(p) && #[trigger] adjacent(p, r) && in_bounds(w as int, h as int, r.0, r.1) implies on_stack(
                        stack@,
                        r,
                    ) || seen(visited@, w as int, r) by {
                    if p != q {
                        assert(old_done.contains(p));
                        lemma_pixel_in_buffer(w as int, h as int, r.0, r.1);
                        if r == q {
                            assert(seen(visited@, w as int, r));
                        } else if on_stack(old_stack, r) {
                            assert(on_stack(base, r));
                        } else {
                            assert(seen(old_visited, w as int, r));
                            assert(seen(visited@, w as int, r));
                        }
                    }
                }
            }
        }
        proof {
            assert(done.contains(seed));
            assert forall|p: (int, int), q: (int, int)|
                #[trigger] done.contains(p) && #[trigger] adjacent(p, q) && has_color(orig, w as int, h as int, q, tcol) implies done.contains(q) by {
                assert(seen(visited@, w as int, q));
            }
            lemma_region_closed(orig, w as int, h as int, seed, tcol, done);
            assert(done =~= reg);
        }
        Ok(())
    }

    /// Draws a closed polygon through `points`; fewer than three points draw nothing.
    pub fn draw_polygon(&self, book: &mut PixelBook, frame_idx: usize, points: Vec<Point>, filled: bool, color: [u8; 4]) -> (r:
        Result<(), PixelError>)
        requires
            old(book).wf(),
        ensures
            plotted(
                *old(book),
                *final(book),
                frame_idx as int,
                polygon_points(points@, filled),
                polygon_first(points@, filled, old(book).width as int, old(book).height as int),
                color@,
                r,
            ),
            points@.len() < 3 ==> r is Ok && *final(book) == *old(book),
    {
        let ghost begin = *book;
        let ghost f = frame_idx as int;
        let ghost pts = polygon_points(points@, filled);
        let n = points.len();
        if n < 3 {
            proof {
                lemma_plotted_nothing(begin, f, color@);
            }
            return Ok(());
        }
        if !filled {
            let ghost mut done = Set::<(int, int)>::empty();
            proof {
                lemma_plotted_nothing(begin, f, color@);
            }
            let mut i: usize = 0;
            while i < n
                invariant
                    begin.wf(),
                    begin == *old(book),
                    book.wf(),
                    f == frame_idx as int,
                    n == points@.len(),
                    n >= 3,
                    !filled,
                    i <= n,
                    pts == polygon_points(points@, filled),
                    done == outline_points(points@, i as int),
                    plotted(begin, *book, f, done, outline_first(points@, i as int, begin.width as int, begin.height as int), color@, Ok(())),
                decreases n - i,
            {
                let a = points[i];
                let b = points[(i + 1) % n];
                let ghost mid = *book;
                let ghost seg = segment_points(a.x as int, a.y as int, b.x as int, b.y as int);
                let ghost bw = begin.width as int;
                let ghost bh = begin.height as int;
                let ghost before = outline_first(points@, i as int, bw, bh);
                let ghost sf = line_first(a, b, bw, bh);
                let r = self.draw_straight_line(book, frame_idx, a, b, color);
                proof {
                    lemma_plotted_seq(begin, mid, *book, f, done, before, seg, sf, color@, r);
                    assert(edge(points@, i as int) == (a, b));
                    assert(or_else(before, sf) == outline_first(points@, i + 1, bw, bh));
                }
                if r.is_err() {
                    proof {
                        lemma_outline_grows(points@, i as int + 1, n as int);
                        lemma_outline_first_grows(points@, i as int + 1, n as int, bw, bh);
                        lemma_plotted_err(begin, *book, f, done.union(seg), or_else(before, sf), pts, None, color@, r);
                        assert(done.union(seg).union(pts) =~= pts);
                    }
                    return r;
                }
                proof {
                    done = done.union(seg);
                }
                i = i + 1;
            }
            return Ok(());
        }
        let mut min_y = points[0].y;
        let mut max_y = points[0].y;
        let mut i: usize = 1;
        while i < n
            invariant
                1 <= i <= n,
                n == points@.len(),
                forall|j: int| 0 <= j < i ==> min_y <= (#[trigger] points@[j]).y <= max_y,
            decreases n - i,
        {
            if points[i].y < min_y {
                min_y = points[i].y;
            }
            if points[i].y > max_y {
                max_y = points[i].y;
            }
            i = i + 1;
        }
        let w = book.width as i64;
        let h = book.height as i64;
        let ye: i64 = if (max_y as i64) < h - 1 { max_y as i64 } else { h - 1 };
        let ghost mut s = Set::<(int, int)>::empty();
        proof {
            lemma_progress_start(begin, f, color@);
            assert forall|p: (int, int)| #[trigger] s.contains(p) <==> pts.contains(p) && in_bounds(w as int, h as int, p.0, p.1)
                && p.1 < min_y by {
                if p.1 < min_y {
                    lemma_no_span(points@, p.1, min_y as int, max_y as int, p.0);
                }
            }
        }
        let mut y: i64 = min_y as i64;
        while y <= ye
            invariant
                begin.wf(),
                begin == *old(book),
                f == frame_idx as int,
                begin.width == w,
                begin.height == h,
                n == points@.len(),
                n >= 3,
                filled,
                pts == polygon_points(points@, filled),
                forall|j: int| 0 <= j < n ==> min_y <= (#[trigger] points@[j]).y <= max_y,
                ye == if (max_y as i64) < h - 1 { max_y as int } else { h - 1 },
                min_y <= y,
                y <= ye + 1 || y == min_y,
                progress(begin, *book, f, s, color@),
                forall|p: (int, int)| #[trigger] s.contains(p) <==> pts.contains(p) && in_bounds(w as int, h as int, p.0, p.1) && p.1 < y,
            decreases ye + 1 - y,
        {
            let mut xs: Vec<i64> = Vec::new();
            let mut i: usize = 0;
            while i < n
                invariant
                    i <= n,
                    n == points@.len(),
                    n >= 3,
                    0 <= y <= 65535,
                    xs@ == crossings(points@, y as int, i as int),
                decreases n - i,
            {
                let a = points[i];
                let b = points[(i + 1) % n];
                assert(edge(points@, i as int) == (a, b));
                if (a.y as i64 <= y && b.y as i64 > y) || (b.y as i64 <= y && a.y as i64 > y) {
                    let cx = edge_crossing(a, b, y);
                    xs.push(cx);
                }
                i = i + 1;
            }
            let sorted = sort_ascending(&xs);
            let ghost row = sorted@;
            assert(row == crossings(points@, y as int, n as int).sort_by(|a: i64, b: i64| le_i64(a, b)));
            let mut j: usize = 0;
            let ghost mut kk: int = 0;
            while j + 1 < sorted.len()
                invariant
                    begin.wf(),
                    begin == *old(book),
                    f == frame_idx as int,
                    begin.width == w,
                    begin.height == h,
                    filled,
                    pts == polygon_points(points@, filled),
                    n == points@.len(),
                    n >= 3,
                    row == sorted@,
                    row == crossings(points@, y as int, n as int).sort_by(|a: i64, b: i64| le_i64(a, b)),
                    forall|a: int, b: int| 0 <= a < b < row.len() ==> row[a] <= row[b],
                    j == 2 * kk,
                    j <= sorted@.len(),
                    0 <= y < h,
                    progress(begin, *book, f, s, color@),
                    forall|p: (int, int)| #[trigger] s.contains(p) <==> in_bounds(w as int, h as int, p.0, p.1) && (
                        (pts.contains(p) && p.1 < y) || (p.1 == y && exists|k: int|
                            0 <= k && 2 * k + 1 < j && row[2 * k] <= p.0 <= #[trigger] row[2 * k + 1])),
                decreases sorted@.len() - j,
            {
                let lo = sorted[j];
                let hi = sorted[j + 1];
                let xe = if hi < w - 1 { hi } else { w - 1 };
                let xstart = if lo > 0 { lo } else { 0 };
                let mut x = xstart;
                while x <= xe
                    invariant
                        begin.wf(),
                        begin == *old(book),
                        f == frame_idx as int,
                        begin.width == w,
                        begin.height == h,
                        filled,
                        pts == polygon_points(points@, filled),
                        n == points@.len(),
                        row == sorted@,
                        row == crossings(points@, y as int, n as int).sort_by(|a: i64, b: i64| le_i64(a, b)),
                        forall|a: int, b: int| 0 <= a < b < row.len() ==> row[a] <= row[b],
                        j == 2 * kk,
                        j + 1 < sorted@.len(),
                        lo == row[j as int],
                        hi == row[j + 1],
                        xe == if hi < w - 1 { hi as int } else { w - 1 },
                        0 <= x,
                        lo <= x,
                        n >= 3,
                        xstart == if lo > 0 { lo } else { 0 },
                        x <= xe + 1 || x == xstart,
                        0 <= y < h,
                        progress(begin, *book, f, s, color@),
                        forall|p: (int, int)| #[trigger] s.contains(p) <==> in_bounds(w as int, h as int, p.0, p.1) && (
                            (pts.contains(p) && p.1 < y) || (p.1 == y && ((exists|k: int|
                                0 <= k && 2 * k + 1 < j && row[2 * k] <= p.0 <= #[trigger] row[2 * k + 1]) || (lo <= p.0 < x)))),
                    decreases xe + 1 - x,
                {
                    let r = self.plot(book, frame_idx, x as u16, y as u16, color, Ghost(begin), Ghost(s));
                    if r.is_err() {
                        proof {
                            let k = kk;
                            assert(row[2 * k] <= x <= row[2 * k + 1]);
                            assert(in_span(row, x as int));
                            assert(pts.contains((x as int, y as int)));
                            assert forall|q: (int, int)| #[trigger] pts.contains(q) && in_bounds(w as int, h as int, q.0, q.1) implies lex_le(
                                (x as int, y as int),
                                q,
                            ) by {
                                assert(!s.contains(q));
                                if q.1 == y {
                                    assert(in_span(row, q.0));
                                    let k2 = choose|k2: int| 0 <= k2 && 2 * k2 + 1 < row.len() && row[2 * k2] <= q.0 <= #[trigger] row[2 * k2 + 1];
                                    if k2 < kk {
                                        assert(row[2 * k2] <= q.0 <= row[2 * k2 + 1]);
                                    } else if k2 > kk {
                                        assert(row[2 * kk + 1] <= row[2 * k2]);
                                    }
                                }
                            }
                            lemma_lex_first_is(pts, w as int, h as int, (x as int, y as int));
                        }
                        return r;
                    }
                    proof {
                        s = s.insert((x as int, y as int));
                    }
                    x = x + 1;
                }
                proof {
                    assert forall|p: (int, int)| #[trigger] s.contains(p) <==> in_bounds(w as int, h as int, p.0, p.1) && (
                        (pts.contains(p) && p.1 < y) || (p.1 == y && exists|k: int|
                            0 <= k && 2 * k + 1 < j + 2 && row[2 * k] <= p.0 <= #[trigger] row[2 * k + 1])) by {
                        if in_bounds(w as int, h as int, p.0, p.1) && p.1 == y {
                            if exists|k: int| 0 <= k && 2 * k + 1 < j + 2 && row[2 * k] <= p.0 <= #[trigger] row[2 * k + 1] {
                                let k = choose|k: int| 0 <= k && 2 * k + 1 < j + 2 && row[2 * k] <= p.0 <= #[trigger] row[2 * k + 1];
                                if 2 * k + 1 >= j {
                                    assert(k == kk);
                                }
                            }
                            if lo <= p.0 < x {
                                let k = kk;
                                assert(row[2 * k] <= p.0 <= row[2 * k + 1]);
                            }
                        }
                    }
                }
                j = j + 2;
                proof {
                    kk = kk + 1;
                }
            }
            proof {
                assert forall|p: (int, int)| #[trigger] s.contains(p) <==> pts.contains(p) && in_bounds(w as int, h as int, p.0, p.1)
                    && p.1 < y + 1 by {
                    if p.1 == y && in_span(row, p.0) {
                        let k = choose|k: int| 0 <= k && 2 * k + 1 < row.len() && row[2 * k] <= p.0 <= #[trigger] row[2 * k + 1];
                        assert(2 * k + 1 < j);
                    }
                }
            }
            y = y + 1;
        }
        proof {
            assert forall|p: (int, int)| #[trigger] s.contains(p) <==> pts.contains(p) && in_bounds(w as int, h as int, p.0, p.1) by {
                if p.1 >= y && p.1 < h {
                    lemma_no_span(points@, p.1, min_y as int, max_y as int, p.0);
                }
            }
            lemma_rows_plotted_from_progress(begin, *book, f, s, pts, color@);
        }
        Ok(())
    }
    /// Draws a line; curved lines are drawn straight.
    pub fn draw_line(
        &self,
        book: &mut PixelBook,
        frame_idx: usize,
        start: Point,
        end: Point,
        line_type: LineType,
        color: [u8; 4],
    ) -> (r: Result<(), PixelError>)
        requires
            old(book).wf(),
        ensures
            plotted(
                *old(book),
                *final(book),
                frame_idx as int,
                line_points(start, end),
                line_first(start, end, old(book).width as int, old(book).height as int),
                color@,
                r,
            ),
    {
        match line_type {
            LineType::Straight => self.draw_straight_line(book, frame_idx, start, end, color),
            LineType::Curved => self.draw_straight_line(book, frame_idx, start, end, color),
        }
    }

    /// Draws one of the shapes in the box at `position` of size `size`;
    /// `outline` holds the sample offsets of an unfilled oval.
    pub fn draw_shape(
        &self,
        book: &mut PixelBook,
        frame_idx: usize,
        shape: ShapeType,
        position: Point,
        size: Size,
        filled: bool,
        color: [u8; 4],
        outline: &Vec<(i32, i32)>,
    ) -> (r: Result<(), PixelError>)
        requires
            old(book).wf(),
        ensures
            plotted(
                *old(book),
                *final(book),
                frame_idx as int,
                op_points(DrawingOperation::DrawShape { frame: frame_idx, shape, position, size, filled, color }, outline@),
                op_first(
                    DrawingOperation::DrawShape { frame: frame_idx, shape, position, size, filled, color },
                    outline@,
                    old(book).width as int,
                    old(book).height as int,
                ),
                color@,
                r,
            ),
    {
        match shape {
            ShapeType::Rectangle => self.draw_rectangle(book, frame_idx, position, size, filled, color),
            ShapeType::Circle => self.draw_circle(book, frame_idx, position, size, filled, color),
            ShapeType::Oval => self.draw_oval(book, frame_idx, position, size, filled, color, outline),
            ShapeType::Triangle => self.draw_triangle(book, frame_idx, position, size, filled, color),
        }
    }

    /// Applies one operation; `outline` holds the sample offsets used when it
    /// is an unfilled oval.
    pub fn apply_operation(&self, book: &mut PixelBook, operation: DrawingOperation, outline: &Vec<(i32, i32)>) -> (r: Result<(), PixelError>)
        requires
            old(book).wf(),
        ensures
            op_outcome(*old(book), *final(book), operation, outline@, r),
    {
        let ghost op = operation;
        let ghost begin = *book;
        let r = match operation {
            DrawingOperation::DrawPixel { frame, x, y, color } => self.draw_pixel(book, frame, x, y, color),
            DrawingOperation::SetColor { color: _ } => Ok(()),
            DrawingOperation::DrawLine { frame, start, end, line_type, color } => self.draw_line(book, frame, start, end, line_type, color),
            DrawingOperation::DrawShape { frame, shape, position, size, filled, color } => self.draw_shape(
                book,
                frame,
                shape,
                position,
                size,
                filled,
                color,
                outline,
            ),
            DrawingOperation::DrawPolygon { frame, points, filled, color } => self.draw_polygon(book, frame, points, filled, color),
            DrawingOperation::FillArea { frame, x, y, color } => self.fill_area(book, frame, x, y, color),
        };
        proof {
            reveal(op_result);
            reveal(op_effect);
            let w = begin.width as int;
            let h = begin.height as int;
            let fb = begin.frame_bytes();
            let f = op_frame(op);
            assert((w as u16) == begin.width && (h as u16) == begin.height);
            match op {
                DrawingOperation::SetColor { .. } => {},
                DrawingOperation::DrawPixel { frame, x, y, color } => {
                    if frame < fb.len() && x < w && y < h {
                        assert(r is Ok);
                        assert(op_result(fb, w, h, op, outline@) is Ok);
                    } else {
                        assert(r == Err::<(), PixelError>(PixelError::InvalidCoordinates { x, y, width: begin.width, height: begin.height }));
                        assert(op_result(fb, w, h, op, outline@) == Err::<(), PixelError>(PixelError::InvalidCoordinates { x, y, width: begin.width, height: begin.height }));
                    }
                    assert(r == op_result(fb, w, h, op, outline@));
                    assert(book.frame_bytes() == op_effect(fb, w, h, op, outline@));
                },
                DrawingOperation::FillArea { .. } => {
                    assert(r == op_result(fb, w, h, op, outline@));
                    assert(book.frame_bytes() == op_effect(fb, w, h, op, outline@));
                },
                _ => {
                    if 0 <= f < fb.len() {
                        assert(r is Ok);
                    } else {
                        assert(r == fail_at(op_first(op, outline@, w, h), begin.width, begin.height));
                        assert(op_effect(fb, w, h, op, outline@) == fb);
                    }
                    assert(r == op_result(fb, w, h, op, outline@));
                    assert(book.frame_bytes() == op_effect(fb, w, h, op, outline@));
                },
            }
        }
        r
    }

    /// Applies the operations in order; the first that fails stops the batch,
    /// leaving the earlier ones applied. `outlines[k]` holds the sample offsets
    /// for operation `k` when it is an unfilled oval.
    #[verifier::spinoff_prover]
    pub fn apply_operations(&self, book: &mut PixelBook, operations: Vec<DrawingOperation>, outlines: &Vec<Vec<(i32, i32)>>) -> (r:
        Result<(), PixelError>)
        requires
            old(book).wf(),
            outlines@.len() == operations@.len(),
        ensures
            final(book).wf(),
            same_layout(*old(book), *final(book)),
            ({
                let fb = old(book).frame_bytes();
                let w = old(book).width as int;
                let h = old(book).height as int;
                let n = operations@.len() as int;
                &&& (r is Ok <==> forall|k: int|
                    0 <= k < n ==> !op_fails(run_ops(fb, w, h, operations@, outlines@, k), w, h, #[trigger] operations@[k], outlines@[k]@))
                &&& r is Ok ==> final(book).frame_bytes() == run_ops(fb, w, h, operations@, outlines@, n)
                &&& r is Err ==> exists|k: int|
                    0 <= k < n && (forall|j: int|
                        0 <= j < k ==> !op_fails(run_ops(fb, w, h, operations@, outlines@, j), w, h, #[trigger] operations@[j], outlines@[j]@))
                        && r == op_result(run_ops(fb, w, h, operations@, outlines@, k), w, h, operations@[k], outlines@[k]@)
                        && final(book).frame_bytes() == run_ops(fb, w, h, operations@, outlines@, k)
            }),
    {
        let ghost begin = *book;
        let ghost fb = begin.frame_bytes();
        let ghost w = begin.width as int;
        let ghost h = begin.height as int;
        let ghost all = operations@;
        let ghost n = all.len() as int;
        let total = operations.len();
        let mut ops = operations;
        let mut i: usize = 0;
        while ops.len() > 0
            invariant
                n == total,
                all == operations@,
                begin.wf(),
                begin == *old(book),
                book.wf(),
                same_layout(begin, *book),
                fb == begin.frame_bytes(),
                w == begin.width,
                h == begin.height,
                n == all.len(),
                outlines@.len() == n,
                i + ops@.len() == n,
                ops@ == all.subrange(i as int, n),
                book.frame_bytes() == run_ops(fb, w, h, all, outlines@, i as int),
                forall|j: int| 0 <= j < i ==> !op_fails(run_ops(fb, w, h, all, outlines@, j), w, h, #[trigger] all[j], outlines@[j]@),
            decreases ops@.len(),
        {
            let op = ops.remove(0);
            assert(op == all[i as int]);
            let ghost before = *book;
            let r = self.apply_operation(book, op, &outlines[i]);
            if r.is_err() {
                proof {
                    let k = i as int;
                    assert(op_fails(run_ops(fb, w, h, all, outlines@, k), w, h, all[k], outlines@[k]@));
                    lemma_failure_keeps_frames(run_ops(fb, w, h, all, outlines@, k), w, h, all[k], outlines@[k]@);
                    assert(book.frame_bytes() == run_ops(fb, w, h, all, outlines@, k));
                    assert(forall|j: int| 0 <= j < k ==> !op_fails(run_ops(fb, w, h, all, outlines@, j), w, h, #[trigger] all[j], outlines@[j]@));
                    assert(0 <= k < n && (forall|j: int|
                        0 <= j < k ==> !op_fails(run_ops(fb, w, h, all, outlines@, j), w, h, #[trigger] all[j], outlines@[j]@))
                        && r == op_result(run_ops(fb, w, h, all, outlines@, k), w, h, all[k], outlines@[k]@)
                        && book.frame_bytes() == run_ops(fb, w, h, all, outlines@, k));
                }
                return r;
            }
            i = i + 1;
            assert(ops@ =~= all.subrange(i as int, n));
        }
        Ok(())
    }
}

/// Two in-bounds points with the same cell index are the same point.
pub proof fn lemma_same_cell(w: int, h: int, p: (int, int), q: (int, int))
    requires
        in_bounds(w, h, p.0, p.1),
        in_bounds(w, h, q.0, q.1),
        p.1 * w + p.0 == q.1 * w + q.0,
    ensures
        p == q,
{
    if p.1 < q.1 {
        assert(p.1 * w + w <= q.1 * w) by (nonlinear_arith)
            requires
                p.1 < q.1,
                w > 0,
        ;
    }
    if q.1 < p.1 {
        assert(q.1 * w + w <= p.1 * w) by (nonlinear_arith)
            requires
                q.1 < p.1,
                w > 0,
        ;
    }
}

/// A pixel at `x == width`, at `y == height`, or on the frame after the last
/// is refused; the bottom-right pixel of the last frame is always drawn.
pub proof fn lemma_draw_pixel_bounds(frames: Seq<Seq<u8>>, width: u16, height: u16, frame: usize, color: [u8; 4])
    requires
        width >= 1,
        height >= 1,
        1 <= frames.len() <= usize::MAX,
    ensures
        op_fails(frames, width as int, height as int, DrawingOperation::DrawPixel { frame, x: width, y: 0, color }, seq![]),
        op_fails(frames, width as int, height as int, DrawingOperation::DrawPixel { frame, x: 0, y: height, color }, seq![]),
        op_fails(frames, width as int, height as int, DrawingOperation::DrawPixel { frame: frames.len() as usize, x: 0, y: 0, color }, seq![]),
        !op_fails(
            frames,
            width as int,
            height as int,
            DrawingOperation::DrawPixel { frame: (frames.len() - 1) as usize, x: (width - 1) as u16, y: (height - 1) as u16, color },
            seq![],
        ),
{
    reveal(op_result);
}

/// A polygon of fewer than three points changes nothing and does not fail.
pub proof fn lemma_short_polygon_is_noop(frames: Seq<Seq<u8>>, width: int, height: int, op: DrawingOperation, outline: Seq<(i32, i32)>)
    requires
        op matches DrawingOperation::DrawPolygon { points, .. } && points@.len() < 3,
    ensures
        !op_fails(frames, width, height, op, outline),
        op_effect(frames, width, height, op, outline) == frames,
{
    reveal(op_result);
    reveal(op_effect);
    let f = op_frame(op);
    if 0 <= f < frames.len() {
        lemma_paint_empty(frames[f], width, op_color(op));
        assert(op_points(op, outline) == Set::<(int, int)>::empty());
        assert(frames.update(f, frames[f]) =~= frames);
    }
}

/// Filling from a seed that already has the fill colour changes nothing and
/// does not fail.
pub proof fn lemma_fill_same_color_is_noop(frames: Seq<Seq<u8>>, width: int, height: int, op: DrawingOperation, outline: Seq<(i32, i32)>)
    requires
        op matches DrawingOperation::FillArea { frame, x, y, color } && frame < frames.len() && x < width && y < height && color_at(
            frames[frame as int],
            width,
            x as int,
            y as int,
        ) == color@,
    ensures
        !op_fails(frames, width, height, op, outline),
        op_effect(frames, width, height, op, outline) == frames,
{
    reveal(op_result);
    reveal(op_effect);
}
} // verus!
