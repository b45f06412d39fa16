use pixl::book::PixelBook;
use pixl::codec::{decode_book, encode_book, FORMAT_VERSION, MAGIC_NUMBER};
use pixl::drawing::DrawingService;
use pixl::errors::{FormatIssue, PixelError};
use pixl::files::{header_frame_count, listed_frame_count, FileService};
use pixl::validation::has_book_extension;

fn sample_book() -> PixelBook {
    let mut book = PixelBook::new("sample.pxl".to_string(), 3, 2, 2);
    let service = DrawingService::new();
    service.draw_pixel(&mut book, 0, 0, 0, [1, 2, 3, 4]).unwrap();
    service.draw_pixel(&mut book, 1, 2, 1, [250, 251, 252, 253]).unwrap();
    book
}

#[test]
fn encoded_layout() {
    let bytes = encode_book(&sample_book());
    assert_eq!(bytes.len(), 16 + 2 * 8 + 2 * 24);
    assert_eq!(&bytes[0..4], &MAGIC_NUMBER.to_le_bytes());
    assert_eq!(&bytes[4..6], &FORMAT_VERSION.to_le_bytes());
    assert_eq!(&bytes[6..12], &[3, 0, 2, 0, 2, 0]);
    assert_eq!(&bytes[12..16], &[0, 0, 0, 0]);
    assert_eq!(&bytes[16..24], &[32, 0, 0, 0, 24, 0, 0, 0]);
    assert_eq!(&bytes[24..32], &[56, 0, 0, 0, 24, 0, 0, 0]);
    assert_eq!(&bytes[32..36], &[1, 2, 3, 4]);
}

#[test]
fn round_trip_keeps_size_and_pixels() {
    let book = sample_book();
    let bytes = encode_book(&book);
    let back = decode_book("sample.pxl", &bytes).unwrap();
    assert_eq!(back.width, 3);
    assert_eq!(back.height, 2);
    assert_eq!(back.frames.len(), 2);
    for i in 0..2 {
        assert_eq!(back.frames[i].pixels, book.frames[i].pixels);
        assert_eq!(back.frames[i].index, i);
    }
    assert_eq!(back.filename, "sample.pxl");
}

#[test]
fn decode_rejects_bad_magic() {
    let mut bytes = encode_book(&sample_book());
    bytes[0] ^= 0xff;
    let r = decode_book("x.pxl", &bytes);
    assert!(matches!(r, Err(PixelError::InvalidFormat { details: FormatIssue::BadMagic })));
}

#[test]
fn decode_rejects_wrong_frame_size() {
    let mut bytes = encode_book(&sample_book());
    bytes[20] = 23;
    let r = decode_book("x.pxl", &bytes);
    assert!(matches!(r, Err(PixelError::InvalidFormat { details: FormatIssue::FrameSizeMismatch { frame: 0 } })));
    let mut bytes = encode_book(&sample_book());
    bytes[28] = 25;
    let r = decode_book("x.pxl", &bytes);
    assert!(matches!(r, Err(PixelError::InvalidFormat { details: FormatIssue::FrameSizeMismatch { frame: 1 } })));
}

#[test]
fn decode_rejects_other_versions_and_empty_sizes() {
    let mut bytes = encode_book(&sample_book());
    bytes[4] = 2;
    assert!(matches!(
        decode_book("x.pxl", &bytes),
        Err(PixelError::InvalidFormat { details: FormatIssue::UnsupportedVersion { version: 2 } })
    ));
    let mut bytes = encode_book(&sample_book());
    bytes[10] = 0;
    assert!(matches!(decode_book("x.pxl", &bytes), Err(PixelError::InvalidFormat { details: FormatIssue::EmptyDimensions })));
}

#[test]
fn decode_reports_data_that_ends_early() {
    let bytes = encode_book(&sample_book());
    assert!(matches!(decode_book("x.pxl", &bytes[..10]), Err(PixelError::UnexpectedEof { offset: 0, len: 16 })));
    assert!(matches!(decode_book("x.pxl", &bytes[..27]), Err(PixelError::UnexpectedEof { offset: 24, len: 8 })));
    assert!(matches!(decode_book("x.pxl", &bytes[..70]), Err(PixelError::UnexpectedEof { offset: 56, len: 24 })));
}

#[test]
fn test_create_and_load_pixel_book() {
    let file_service = FileService::new(".".to_string());
    let book = file_service.create_book("test.pxl", 4, 4, 2).unwrap();
    assert_eq!(book.width, 4);
    assert_eq!(book.height, 4);
    assert_eq!(book.frames.len(), 2);

    let stored = encode_book(&book);
    let loaded_book = decode_book("test.pxl", &stored).unwrap();
    assert_eq!(loaded_book.width, 4);
    assert_eq!(loaded_book.height, 4);
    assert_eq!(loaded_book.frames.len(), 2);
    assert_eq!(loaded_book.filename, "test.pxl");
}

#[test]
fn test_list_books() {
    let file_service = FileService::new(".".to_string());
    let book1 = file_service.create_book("book1.pxl", 8, 8, 1).unwrap();
    let book2 = file_service.create_book("book2.pxl", 16, 16, 3).unwrap();
    let headers = vec![encode_book(&book1), encode_book(&book2)];
    let names = ["book1.pxl", "notes.txt", "book2.pxl"];
    let listed: Vec<&str> = names.iter().copied().filter(|n| has_book_extension(n)).collect();
    assert_eq!(listed.len(), 2);
    assert_eq!(listed_frame_count(&headers[0][..16]), 1);
    assert_eq!(listed_frame_count(&headers[1][..16]), 3);
}

#[test]
fn listing_falls_back_to_one_frame() {
    assert_eq!(listed_frame_count(&[0u8; 16]), 1);
    assert_eq!(listed_frame_count(&[1u8, 2, 3]), 1);
    assert!(matches!(header_frame_count(&[0u8; 16]), Err(PixelError::InvalidFormat { details: FormatIssue::BadMagic })));
}

#[test]
fn create_book_rejects_empty_sizes() {
    let fs = FileService::new("/books".to_string());
    assert!(matches!(fs.create_book("a.pxl", 0, 4, 1), Err(PixelError::InvalidFormat { details: FormatIssue::EmptyDimensions })));
    assert!(matches!(fs.create_book("a.pxl", 4, 4, 0), Err(PixelError::InvalidFormat { .. })));
    let book = fs.create_book("a.pxl", 2, 3, 1).unwrap();
    assert_eq!(book.frames[0].pixels, vec![0u8; 24]);
}

#[test]
fn set_path_needs_a_directory() {
    let mut fs = FileService::new("/books".to_string());
    let r = fs.set_path("/missing".to_string(), false);
    assert!(matches!(r, Err(PixelError::InvalidPath { ref path }) if path == "/missing"));
    assert_eq!(fs.get_path(), "/books");
    assert!(fs.set_path("/other".to_string(), true).is_ok());
    assert_eq!(fs.get_path(), "/other");
}
