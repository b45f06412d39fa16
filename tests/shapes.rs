use pixl::book::PixelBook;
use pixl::drawing::DrawingService;
use pixl::errors::PixelError;
use pixl::operations::{DrawingOperation, Point, ShapeType, Size};

fn book10() -> PixelBook {
    PixelBook::new("shapes.pxl".to_string(), 10, 10, 1)
}

/// The points of frame 0 whose red channel is `r`.
fn points_with_red(book: &PixelBook, r: u8) -> Vec<(u16, u16)> {
    let mut out = Vec::new();
    for y in 0..book.height {
        for x in 0..book.width {
            if book.frames[0].get_pixel(x, y, book.width).unwrap().r == r {
                out.push((x, y));
            }
        }
    }
    out
}

#[test]
fn line_sets_exactly_its_row_segment() {
    let mut book = book10();
    let service = DrawingService::new();
    let r = service.draw_straight_line(&mut book, 0, Point { x: 2, y: 2 }, Point { x: 6, y: 2 }, [7, 255, 0, 255]);
    assert!(r.is_ok());
    let painted = points_with_red(&book, 7);
    assert_eq!(painted, vec![(2, 2), (3, 2), (4, 2), (5, 2), (6, 2)]);
}

#[test]
fn curved_line_is_drawn_straight() {
    let mut a = book10();
    let mut b = book10();
    let service = DrawingService::new();
    let s = Point { x: 0, y: 9 };
    let e = Point { x: 7, y: 2 };
    service.draw_line(&mut a, 0, s, e, pixl::operations::LineType::Curved, [5, 5, 5, 255]).unwrap();
    service.draw_line(&mut b, 0, s, e, pixl::operations::LineType::Straight, [5, 5, 5, 255]).unwrap();
    assert_eq!(a.frames[0].pixels, b.frames[0].pixels);
}

#[test]
fn flood_fill_changes_exactly_the_enclosed_region() {
    let mut book = book10();
    let service = DrawingService::new();
    service
        .draw_rectangle(&mut book, 0, Point { x: 1, y: 1 }, Size { width: 5, height: 5 }, false, [0, 0, 255, 255])
        .unwrap();
    let before = book.clone();
    service.fill_area(&mut book, 0, 3, 3, [200, 0, 0, 255]).unwrap();
    let painted = points_with_red(&book, 200);
    let mut expected = Vec::new();
    for y in 2..=4u16 {
        for x in 2..=4u16 {
            expected.push((x, y));
        }
    }
    assert_eq!(painted, expected);
    let mut changed = 0;
    for y in 0..10u16 {
        for x in 0..10u16 {
            if before.frames[0].get_pixel(x, y, 10) != book.frames[0].get_pixel(x, y, 10) {
                changed += 1;
                assert!((2..=4).contains(&x) && (2..=4).contains(&y));
            }
        }
    }
    assert_eq!(changed, 9);
}

#[test]
fn flood_fill_outside_the_frame_fails() {
    let mut book = book10();
    let service = DrawingService::new();
    let r = service.fill_area(&mut book, 0, 10, 0, [1, 2, 3, 4]);
    assert!(matches!(r, Err(PixelError::InvalidCoordinates { x: 10, y: 0, width: 10, height: 10 })));
    let r = service.fill_area(&mut book, 1, 0, 0, [1, 2, 3, 4]);
    assert!(matches!(r, Err(PixelError::InvalidCoordinates { .. })));
}

#[test]
fn fill_with_seed_colour_changes_nothing() {
    let mut book = book10();
    let service = DrawingService::new();
    service.draw_pixel(&mut book, 0, 4, 4, [10, 20, 30, 40]).unwrap();
    let before = book.frames[0].pixels.clone();
    let r = service.fill_area(&mut book, 0, 0, 0, [0, 0, 0, 0]);
    assert!(r.is_ok());
    assert_eq!(book.frames[0].pixels, before);
}

#[test]
fn polygon_of_two_points_changes_nothing() {
    let mut book = book10();
    let service = DrawingService::new();
    let before = book.frames[0].pixels.clone();
    let r = service.draw_polygon(&mut book, 0, vec![Point { x: 1, y: 1 }, Point { x: 8, y: 8 }], true, [1, 1, 1, 255]);
    assert!(r.is_ok());
    assert_eq!(book.frames[0].pixels, before);
    let r = service.draw_polygon(&mut book, 0, vec![Point { x: 1, y: 1 }, Point { x: 8, y: 8 }], false, [1, 1, 1, 255]);
    assert!(r.is_ok());
    assert_eq!(book.frames[0].pixels, before);
}

#[test]
fn filled_square_polygon_covers_rows_above_its_bottom_edge() {
    let mut book = book10();
    let service = DrawingService::new();
    let pts = vec![Point { x: 1, y: 1 }, Point { x: 4, y: 1 }, Point { x: 4, y: 4 }, Point { x: 1, y: 4 }];
    service.draw_polygon(&mut book, 0, pts, true, [9, 0, 0, 255]).unwrap();
    let mut expected = Vec::new();
    for y in 1..=3u16 {
        for x in 1..=4u16 {
            expected.push((x, y));
        }
    }
    assert_eq!(points_with_red(&book, 9), expected);
}

#[test]
fn polygon_outline_closes_back_to_the_first_point() {
    let mut book = book10();
    let service = DrawingService::new();
    let pts = vec![Point { x: 0, y: 0 }, Point { x: 3, y: 0 }, Point { x: 3, y: 3 }];
    service.draw_polygon(&mut book, 0, pts, false, [4, 0, 0, 255]).unwrap();
    let painted = points_with_red(&book, 4);
    assert!(painted.contains(&(1, 1)));
    assert!(painted.contains(&(2, 2)));
    assert!(painted.contains(&(0, 0)));
    assert!(painted.contains(&(3, 3)));
    assert!(!painted.contains(&(0, 3)));
}

#[test]
fn filled_circle_is_the_disc() {
    let mut book = book10();
    let service = DrawingService::new();
    service.draw_circle(&mut book, 0, Point { x: 0, y: 0 }, Size { width: 5, height: 5 }, true, [3, 0, 0, 255]).unwrap();
    let painted = points_with_red(&book, 3);
    assert_eq!(painted.len(), 13);
    for (x, y) in painted {
        let dx = x as i32 - 2;
        let dy = y as i32 - 2;
        assert!(dx * dx + dy * dy <= 4);
    }
}

#[test]
fn circle_outline_is_symmetric_about_its_centre() {
    let mut book = book10();
    let service = DrawingService::new();
    service.draw_circle(&mut book, 0, Point { x: 3, y: 3 }, Size { width: 4, height: 4 }, false, [6, 0, 0, 255]).unwrap();
    let painted = points_with_red(&book, 6);
    assert_eq!(painted.len(), 12);
    for &(x, y) in &painted {
        assert!(painted.contains(&(10 - x, y)));
        assert!(painted.contains(&(x, 10 - y)));
    }
    assert!(painted.contains(&(5, 7)));
    assert!(painted.contains(&(7, 5)));
    assert!(!painted.contains(&(5, 5)));
}

#[test]
fn filled_oval_fits_its_equation() {
    let mut book = book10();
    let service = DrawingService::new();
    service
        .draw_oval(&mut book, 0, Point { x: 0, y: 0 }, Size { width: 6, height: 4 }, true, [8, 0, 0, 255], &Vec::new())
        .unwrap();
    assert_eq!(points_with_red(&book, 8).len(), 19);
}

#[test]
fn oval_outline_plots_the_given_samples() {
    let mut book = book10();
    let service = DrawingService::new();
    let rx = 3.0f64;
    let ry = 2.0f64;
    let steps = 20;
    let mut outline = Vec::new();
    for i in 0..steps {
        let angle = 2.0 * std::f64::consts::PI * i as f64 / steps as f64;
        outline.push(((rx * angle.cos()) as i32, (ry * angle.sin()) as i32));
    }
    service
        .draw_oval(&mut book, 0, Point { x: 2, y: 2 }, Size { width: 6, height: 4 }, false, [2, 0, 0, 255], &outline)
        .unwrap();
    let painted = points_with_red(&book, 2);
    assert!(painted.contains(&(8, 4)));
    assert!(painted.contains(&(2, 4)));
    assert!(painted.contains(&(5, 6)));
    for (dx, dy) in outline {
        assert!(painted.contains(&((5 + dx) as u16, (4 + dy) as u16)));
    }
}

#[test]
fn filled_triangle_rows_widen_towards_the_base() {
    let mut book = book10();
    let service = DrawingService::new();
    service
        .draw_triangle(&mut book, 0, Point { x: 0, y: 0 }, Size { width: 5, height: 3 }, true, [1, 0, 0, 255])
        .unwrap();
    assert_eq!(
        points_with_red(&book, 1),
        vec![(2, 0), (1, 1), (2, 1), (3, 1), (0, 2), (1, 2), (2, 2), (3, 2), (4, 2)]
    );
}

#[test]
fn triangle_outline_has_its_vertices() {
    let mut book = book10();
    let service = DrawingService::new();
    service
        .draw_triangle(&mut book, 0, Point { x: 0, y: 0 }, Size { width: 5, height: 3 }, false, [1, 0, 0, 255])
        .unwrap();
    let painted = points_with_red(&book, 1);
    assert!(painted.contains(&(2, 0)));
    assert!(painted.contains(&(0, 2)));
    assert!(painted.contains(&(4, 2)));
    assert!(!painted.contains(&(2, 1)));
}

#[test]
fn shape_on_a_missing_frame_fails_only_where_visible() {
    let mut book = book10();
    let service = DrawingService::new();
    let r = service.draw_rectangle(&mut book, 3, Point { x: 2, y: 2 }, Size { width: 2, height: 2 }, true, [1, 1, 1, 1]);
    assert!(matches!(r, Err(PixelError::InvalidCoordinates { x: 2, y: 2, width: 10, height: 10 })));
    let r = service.draw_rectangle(&mut book, 3, Point { x: 20, y: 20 }, Size { width: 2, height: 2 }, true, [1, 1, 1, 1]);
    assert!(r.is_ok());
}

#[test]
fn rectangle_is_clipped_to_the_image() {
    let mut book = book10();
    let service = DrawingService::new();
    service
        .draw_rectangle(&mut book, 0, Point { x: 8, y: 8 }, Size { width: 5, height: 5 }, true, [3, 3, 3, 255])
        .unwrap();
    assert_eq!(points_with_red(&book, 3), vec![(8, 8), (9, 8), (8, 9), (9, 9)]);
}

#[test]
fn draw_pixel_bounds() {
    let mut book = book10();
    let service = DrawingService::new();
    assert!(matches!(
        service.draw_pixel(&mut book, 0, 10, 0, [1, 1, 1, 1]),
        Err(PixelError::InvalidCoordinates { x: 10, y: 0, width: 10, height: 10 })
    ));
    assert!(matches!(service.draw_pixel(&mut book, 0, 0, 10, [1, 1, 1, 1]), Err(PixelError::InvalidCoordinates { .. })));
    assert!(matches!(service.draw_pixel(&mut book, 1, 0, 0, [1, 1, 1, 1]), Err(PixelError::InvalidCoordinates { .. })));
    assert!(service.draw_pixel(&mut book, 0, 9, 9, [1, 1, 1, 1]).is_ok());
}

#[test]
fn apply_operation_dispatches_shapes_and_fills() {
    let mut book = book10();
    let service = DrawingService::new();
    let op = DrawingOperation::DrawShape {
        frame: 0,
        shape: ShapeType::Rectangle,
        position: Point { x: 0, y: 0 },
        size: Size { width: 3, height: 3 },
        filled: false,
        color: [5, 0, 0, 255],
    };
    service.apply_operation(&mut book, op, &Vec::new()).unwrap();
    let op = DrawingOperation::FillArea { frame: 0, x: 1, y: 1, color: [6, 0, 0, 255] };
    service.apply_operation(&mut book, op, &Vec::new()).unwrap();
    assert_eq!(points_with_red(&book, 6), vec![(1, 1)]);
    assert_eq!(points_with_red(&book, 5).len(), 8);
}

#[test]
fn missing_frame_errors_name_the_first_visible_point_in_drawing_order() {
    let service = DrawingService::new();
    let err_at = |r: Result<(), PixelError>| match r {
        Err(PixelError::InvalidCoordinates { x, y, width: 10, height: 10 }) => Some((x, y)),
        _ => None,
    };
    let mut book = book10();
    let before = book.frames[0].pixels.clone();
    let r = service.draw_straight_line(&mut book, 1, Point { x: 12, y: 5 }, Point { x: 5, y: 5 }, [1, 1, 1, 1]);
    assert_eq!(err_at(r), Some((9, 5)));
    let r = service.draw_triangle(&mut book, 1, Point { x: 0, y: 0 }, Size { width: 5, height: 3 }, false, [1, 1, 1, 1]);
    assert_eq!(err_at(r), Some((2, 0)));
    let r = service.draw_circle(&mut book, 1, Point { x: 0, y: 0 }, Size { width: 5, height: 5 }, true, [1, 1, 1, 1]);
    assert_eq!(err_at(r), Some((2, 0)));
    let r = service.draw_circle(&mut book, 1, Point { x: 3, y: 3 }, Size { width: 4, height: 4 }, false, [1, 1, 1, 1]);
    assert_eq!(err_at(r), Some((5, 7)));
    let pts = vec![Point { x: 12, y: 0 }, Point { x: 12, y: 3 }, Point { x: 3, y: 3 }];
    let r = service.draw_polygon(&mut book, 1, pts, false, [1, 1, 1, 1]);
    assert_eq!(err_at(r), Some((9, 3)));
    let r = service.draw_rectangle(&mut book, 1, Point { x: 9, y: 9 }, Size { width: 4, height: 4 }, false, [1, 1, 1, 1]);
    assert_eq!(err_at(r), Some((9, 9)));
    assert_eq!(book.frames[0].pixels, before);
}

#[test]
fn curved_and_straight_lines_fail_alike_on_a_missing_frame() {
    let service = DrawingService::new();
    let mut a = book10();
    let mut b = book10();
    let s = Point { x: 15, y: 0 };
    let e = Point { x: 0, y: 7 };
    let ra = service.draw_line(&mut a, 2, s, e, pixl::operations::LineType::Curved, [5, 5, 5, 255]);
    let rb = service.draw_line(&mut b, 2, s, e, pixl::operations::LineType::Straight, [5, 5, 5, 255]);
    assert_eq!(format!("{ra:?}"), format!("{rb:?}"));
    assert!(ra.is_err());
}
