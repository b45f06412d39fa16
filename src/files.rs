//! The decisions of the book store: where books live, how a new book is made,
//! and what a directory listing reports for a file's header.

use vstd::prelude::*;
use crate::book::PixelBook;
use crate::codec::{u16_at, u32_at, read_u16, read_u32, MAGIC_NUMBER};
use crate::errors::{FormatIssue, PixelError};

verus! {

/// Where books are read from and written to.
pub struct FileService {
    base_path: String,
}

/// A request to move the book store.
#[derive(Debug, Clone)]
pub struct SetPathRequest {
    pub path: String,
}

/// The book store's location.
#[derive(Debug, Clone)]
pub struct PathResponse {
    pub path: String,
}

impl FileService {
    pub closed spec fn path_view(&self) -> Seq<char> {
        self.base_path@
    }

    pub fn new(base_path: String) -> (s: Self)
        ensures
            s.path_view() == base_path@,
    {
        FileService { base_path }
    }

    /// Moves the store to `path`, which must name an existing directory
    /// (`is_dir` says whether it does); otherwise fails with `InvalidPath`
    /// and keeps the old location.
    pub fn set_path(&mut self, path: String, is_dir: bool) -> (r: Result<(), PixelError>)
        ensures
            is_dir ==> r is Ok && final(self).path_view() == path@,
            !is_dir ==> final(self).path_view() == old(self).path_view() && (r matches Err(PixelError::InvalidPath { path: p }) && p@
                == path@),
    {
        if !is_dir {
            return Err(PixelError::InvalidPath { path });
        }
        self.base_path = path;
        Ok(())
    }

    pub fn get_path(&self) -> (p: &str)
        ensures
            p@ == self.path_view(),
    {
        self.base_path.as_str()
    }

    /// A new book of `frames` transparent frames; width, height and frame
    /// count must be positive.
    pub fn create_book(&self, filename: &str, width: u16, height: u16, frames: usize) -> (r: Result<PixelBook, PixelError>)
        requires
            width * height * 4 <= usize::MAX,
        ensures
            (width == 0 || height == 0 || frames == 0) ==> r == Err::<PixelBook, PixelError>(
                PixelError::InvalidFormat { details: FormatIssue::EmptyDimensions },
            ),
            (width > 0 && height > 0 && frames > 0) ==> (r matches Ok(book) && {
                &&& book.wf()
                &&& book.filename@ == filename@
                &&& book.width == width
                &&& book.height == height
                &&& book.frames@.len() == frames
                &&& forall|i: int|
                    0 <= i < frames ==> (#[trigger] book.frames@[i]).pixels@ == Seq::new((width * height * 4) as nat, |_j: int| 0u8)
            }),
    {
        if width == 0 || height == 0 || frames == 0 {
            return Err(PixelError::InvalidFormat { details: FormatIssue::EmptyDimensions });
        }
        Ok(PixelBook::new(filename.to_owned(), width, height, frames))
    }
}

/// The frame count that a stored book's header declares: the header must be
/// 16 bytes long and start with the magic number.
pub fn header_frame_count(header: &[u8]) -> (r: Result<usize, PixelError>)
    ensures
        header@.len() < 16 ==> r == Err::<usize, PixelError>(PixelError::UnexpectedEof { offset: 0, len: 16 }),
        header@.len() >= 16 && u32_at(header@, 0) != MAGIC_NUMBER ==> r == Err::<usize, PixelError>(
            PixelError::InvalidFormat { details: FormatIssue::BadMagic },
        ),
        header@.len() >= 16 && u32_at(header@, 0) == MAGIC_NUMBER ==> r == Ok::<usize, PixelError>(u16_at(header@, 10) as usize),
{
    if header.len() < 16 {
        return Err(PixelError::UnexpectedEof { offset: 0, len: 16 });
    }
    if read_u32(header, 0) != MAGIC_NUMBER {
        return Err(PixelError::InvalidFormat { details: FormatIssue::BadMagic });
    }
    Ok(read_u16(header, 10) as usize)
}

/// The frame count a listing shows: the header's, or 1 where the header
/// cannot be read.
pub fn listed_frame_count(header: &[u8]) -> (n: usize)
    ensures
        n == if header@.len() >= 16 && u32_at(header@, 0) == MAGIC_NUMBER {
            u16_at(header@, 10) as usize
        } else {
            1
        },
{
    match header_frame_count(header) {
        Ok(n) => n,
        Err(_) => 1,
    }
}

} // verus!
