//! Checks on names and sizes made before a book is created or opened.

use vstd::prelude::*;
use vstd::string::StringSliceAdditionalSpecFns;

verus! {

/// The bytes of `.pxl`.
pub open spec fn pxl_suffix() -> Seq<u8> {
    seq![0x2eu8, 0x70u8, 0x78u8, 0x6cu8]
}

/// The name's bytes end with `.pxl`.
pub open spec fn ends_with_pxl(b: Seq<u8>) -> bool {
    b.len() >= 4 && b.subrange(b.len() - 4, b.len() as int) == pxl_suffix()
}

fn bytes_end_with_pxl(b: &[u8]) -> (r: bool)
    ensures
        r == ends_with_pxl(b@),
{
    let n = b.len();
    if n < 4 {
        return false;
    }
    let r = b[n - 4] == 0x2e && b[n - 3] == 0x70 && b[n - 2] == 0x78 && b[n - 1] == 0x6c;
    assert(r == (b@.subrange(n - 4, n as int) =~= pxl_suffix()));
    r
}

/// A book's name is non-empty and ends with `.pxl`.
pub fn validate_filename(filename: &str) -> (r: bool)
    ensures
        r == ends_with_pxl(filename.spec_bytes()),
{
    let b = filename.as_bytes();
    b.len() > 0 && bytes_end_with_pxl(b)
}

/// The name has the extension `pxl`: it ends with `.pxl` and has something
/// before that dot.
pub fn has_book_extension(filename: &str) -> (r: bool)
    ensures
        r == (ends_with_pxl(filename.spec_bytes()) && filename.spec_bytes().len() > 4),
{
    let b = filename.as_bytes();
    b.len() > 4 && bytes_end_with_pxl(b)
}

/// Both sides lie in `1..=4096`.
pub fn validate_dimensions(width: u16, height: u16) -> (r: bool)
    ensures
        r == (1 <= width <= 4096 && 1 <= height <= 4096),
{
    width > 0 && height > 0 && width <= 4096 && height <= 4096
}

/// Every colour is valid.
pub fn validate_color(_color: &[u8; 4]) -> (r: bool)
    ensures
        r,
{
    true
}

} // verus!
