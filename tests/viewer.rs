use pixl::book::PixelBook;
use pixl::pixel::{pixel_to_minifb_color, rgba_to_minifb_color, Pixel};
use pixl::validation::{has_book_extension, validate_color, validate_dimensions, validate_filename};
use pixl::viewer::{AppState, CheckerboardPattern, ScalingCalculator};

#[test]
fn test_checkerboard_pattern() {
    let pattern = CheckerboardPattern::new();

    assert_eq!(pattern.get_color_at(0, 0, 1), 0xF0F0F0);
    assert_eq!(pattern.get_color_at(8, 0, 1), 0xC8C8C8);
    assert_eq!(pattern.get_color_at(0, 8, 1), 0xC8C8C8);
    assert_eq!(pattern.get_color_at(8, 8, 1), 0xF0F0F0);
}

#[test]
fn checkerboard_squares_grow_with_scale() {
    let pattern = CheckerboardPattern::new();
    assert_eq!(pattern.get_color_at(8, 0, 2), 0xF0F0F0);
    assert_eq!(pattern.get_color_at(16, 0, 2), 0xC8C8C8);
}

#[test]
fn test_perfect_scale() {
    let (scale, offset_x, offset_y) = ScalingCalculator::calculate_scale_and_offset(32, 32, 128, 128);
    assert_eq!(scale, 4);
    assert_eq!(offset_x, 0);
    assert_eq!(offset_y, 0);
}

#[test]
fn test_non_perfect_scale() {
    let (scale, offset_x, offset_y) = ScalingCalculator::calculate_scale_and_offset(32, 32, 100, 100);
    assert_eq!(scale, 3);
    assert_eq!(offset_x, 2);
    assert_eq!(offset_y, 2);
}

#[test]
fn small_window_keeps_scale_one_and_centres_by_truncation() {
    let (scale, offset_x, offset_y) = ScalingCalculator::calculate_scale_and_offset(32, 16, 27, 20);
    assert_eq!(scale, 1);
    assert_eq!(offset_x, -2);
    assert_eq!(offset_y, 2);
    assert_eq!(ScalingCalculator::pixel_to_screen_coords(3, 4, 5, -2, 7), (13, 27));
}

#[test]
fn frame_navigation_stays_inside_the_book() {
    let mut state = AppState::new();
    state.next_frame();
    assert_eq!(state.current_frame, 0);
    state.set_error("oops".to_string());
    state.set_book(PixelBook::new("a.pxl".to_string(), 2, 2, 3));
    assert!(state.last_error.is_none());
    state.next_frame();
    state.next_frame();
    state.next_frame();
    assert_eq!(state.current_frame, 2);
    state.prev_frame();
    assert_eq!(state.current_frame, 1);
    state.set_frame(7);
    assert_eq!(state.current_frame, 1);
    state.set_frame(0);
    state.prev_frame();
    assert_eq!(state.current_frame, 0);
    state.set_error("e".to_string());
    state.clear_error();
    assert!(state.last_error.is_none());
    state.clear_book();
    assert!(state.current_book.is_none());
}

#[test]
fn pixel_colours_pack_rgb() {
    let p = Pixel::new(0x12, 0x34, 0x56, 0x78);
    assert_eq!(p.to_rgba32(), 0x123456);
    assert_eq!(pixel_to_minifb_color(&p), 0x123456);
    assert_eq!(rgba_to_minifb_color(1, 2, 3, 4), 0x010203);
    assert!(p.is_transparent());
    assert!(!Pixel::new(0, 0, 0, 255).is_transparent());
    assert_eq!(Pixel::transparent(), Pixel::new(0, 0, 0, 0));
    assert_eq!(Pixel::from_bytes(&[9, 8, 7, 6, 5]), Some(Pixel::new(9, 8, 7, 6)));
    assert_eq!(Pixel::from_bytes(&[9, 8, 7]), None);
}

#[test]
fn names_and_sizes() {
    assert!(validate_filename("a.pxl"));
    assert!(validate_filename(".pxl"));
    assert!(!validate_filename(""));
    assert!(!validate_filename("a.png"));
    assert!(has_book_extension("a.pxl"));
    assert!(!has_book_extension(".pxl"));
    assert!(validate_dimensions(1, 4096));
    assert!(!validate_dimensions(0, 5));
    assert!(!validate_dimensions(4097, 5));
    assert!(validate_color(&[0, 0, 0, 0]));
}
