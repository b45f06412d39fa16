//! The stored form of a pixel book: a 16-byte header, a directory of
//! (offset, size) records, then each frame's bytes. All integers little-endian.

use vstd::prelude::*;
use crate::book::{Frame, PixelBook};
use crate::errors::{FormatIssue, PixelError};

verus! {

/// The first four bytes of every stored book.
pub const MAGIC_NUMBER: u32 = 0x504958;

/// The one version this library reads and writes.
pub const FORMAT_VERSION: u16 = 1;

pub const HEADER_SIZE: u64 = 16;

pub const DIRECTORY_ENTRY_SIZE: u64 = 8;

pub open spec fn u16_bytes(v: u16) -> Seq<u8> {
    seq![(v & 0xff) as u8, (v >> 8) as u8]
}

pub open spec fn u32_bytes(v: u32) -> Seq<u8> {
    seq![(v & 0xff) as u8, ((v >> 8) & 0xff) as u8, ((v >> 16) & 0xff) as u8, (v >> 24) as u8]
}

/// The little-endian `u16` at byte `i`.
pub open spec fn u16_at(data: Seq<u8>, i: int) -> u16 {
    ((data[i] as u16) | ((data[i + 1] as u16) << 8u16)) as u16
}

/// The little-endian `u32` at byte `i`.
pub open spec fn u32_at(data: Seq<u8>, i: int) -> u32 {
    ((data[i] as u32) | ((data[i + 1] as u32) << 8u32) | ((data[i + 2] as u32) << 16u32) | ((data[i + 3] as u32) << 24u32)) as u32
}

pub proof fn lemma_u16_round_trip(v: u16, b0: u8, b1: u8)
    requires
        b0 == (v & 0xff) as u8,
        b1 == (v >> 8) as u8,
    ensures
        ((b0 as u16) | ((b1 as u16) << 8u16)) == v,
{
    assert(((((v & 0xff) as u8) as u16) | ((((v >> 8) as u8) as u16) << 8u16)) == v) by (bit_vector);
}

pub proof fn lemma_u32_round_trip(v: u32, b0: u8, b1: u8, b2: u8, b3: u8)
    requires
        b0 == (v & 0xff) as u8,
        b1 == ((v >> 8) & 0xff) as u8,
        b2 == ((v >> 16) & 0xff) as u8,
        b3 == (v >> 24) as u8,
    ensures
        ((b0 as u32) | ((b1 as u32) << 8u32) | ((b2 as u32) << 16u32) | ((b3 as u32) << 24u32)) == v,
{
    assert(((((v & 0xff) as u8) as u32) | (((((v >> 8) & 0xff) as u8) as u32) << 8u32) | (((((v >> 16) & 0xff) as u8) as u32)
        << 16u32) | ((((v >> 24) as u8) as u32) << 24u32)) == v) by (bit_vector);
}

/// The bytes of every frame, one after another.
pub open spec fn concat_frames(frames: Seq<Seq<u8>>) -> Seq<u8>
    decreases frames.len(),
{
    if frames.len() == 0 {
        seq![]
    } else {
        concat_frames(frames.drop_last()) + frames.last()
    }
}

/// The header of a book of `n` frames of `width` by `height` pixels.
pub open spec fn header_bytes(width: u16, height: u16, n: u16) -> Seq<u8> {
    u32_bytes(MAGIC_NUMBER) + u16_bytes(FORMAT_VERSION) + u16_bytes(width) + u16_bytes(height) + u16_bytes(n) + seq![0u8, 0u8, 0u8, 0u8]
}

/// The directory records of the first `k` frames, each frame `size` bytes long,
/// the first stored at `first`.
pub open spec fn directory_bytes(first: int, size: int, k: int) -> Seq<u8>
    decreases k,
{
    if k <= 0 {
        seq![]
    } else {
        directory_bytes(first, size, k - 1) + u32_bytes((first + (k - 1) * size) as u32) + u32_bytes(size as u32)
    }
}

/// The stored form of frames of `width` by `height` pixels.
pub open spec fn encoded(width: u16, height: u16, frames: Seq<Seq<u8>>) -> Seq<u8> {
    let n = frames.len() as int;
    let size = width * height * 4;
    header_bytes(width, height, n as u16) + directory_bytes(16 + 8 * n, size, n) + concat_frames(frames)
}

/// The book fits the format: at most 65535 frames, and every offset within `u32`.
pub open spec fn encodable(width: u16, height: u16, n: int) -> bool {
    &&& n <= 65535
    &&& width * height * 4 <= 0xffff_ffff
    &&& 16 + 8 * n + n * (width * height * 4) <= 0xffff_ffff
}

/// Reading the frames of the first `k` directory records of `data`: the first
/// record whose size is not `width * height * 4`, or whose bytes run past the
/// end, fails.
pub open spec fn decode_frames(data: Seq<u8>, width: u16, height: u16, k: int) -> Result<Seq<Seq<u8>>, PixelError>
    decreases k,
{
    if k <= 0 {
        Ok(seq![])
    } else {
        match decode_frames(data, width, height, k - 1) {
            Err(e) => Err(e),
            Ok(frames) => {
                let offset = u32_at(data, 16 + 8 * (k - 1));
                let size = u32_at(data, 16 + 8 * (k - 1) + 4);
                if size != width * height * 4 {
                    Err(PixelError::InvalidFormat { details: FormatIssue::FrameSizeMismatch { frame: (k - 1) as usize } })
                } else if offset + size > data.len() {
                    Err(PixelError::UnexpectedEof { offset: offset as u64, len: size as u64 })
                } else {
                    Ok(frames.push(data.subrange(offset as int, offset + size)))
                }
            },
        }
    }
}

/// What reading `data` as a stored book gives: width, height and frames, or
/// the first problem met.
pub open spec fn decoded(data: Seq<u8>) -> Result<(u16, u16, Seq<Seq<u8>>), PixelError> {
    if data.len() < 16 {
        Err(PixelError::UnexpectedEof { offset: 0, len: 16 })
    } else if u32_at(data, 0) != MAGIC_NUMBER {
        Err(PixelError::InvalidFormat { details: FormatIssue::BadMagic })
    } else if u16_at(data, 4) != FORMAT_VERSION {
        Err(PixelError::InvalidFormat { details: FormatIssue::UnsupportedVersion { version: u16_at(data, 4) } })
    } else if u16_at(data, 6) == 0 || u16_at(data, 8) == 0 || u16_at(data, 10) == 0 {
        Err(PixelError::InvalidFormat { details: FormatIssue::EmptyDimensions })
    } else if data.len() < 16 + 8 * u16_at(data, 10) {
        Err(PixelError::UnexpectedEof { offset: (16 + 8 * ((data.len() - 16) / 8)) as u64, len: 8 })
    } else {
        match decode_frames(data, u16_at(data, 6), u16_at(data, 8), u16_at(data, 10) as int) {
            Err(e) => Err(e),
            Ok(frames) => Ok((u16_at(data, 6), u16_at(data, 8), frames)),
        }
    }
}

fn push_u16(out: &mut Vec<u8>, v: u16)
    ensures
        final(out)@ == old(out)@ + u16_bytes(v),
{
    out.push((v & 0xff) as u8);
    out.push((v >> 8) as u8);
    assert(final(out)@ =~= old(out)@ + u16_bytes(v));
}

fn push_u32(out: &mut Vec<u8>, v: u32)
    ensures
        final(out)@ == old(out)@ + u32_bytes(v),
{
    out.push((v & 0xff) as u8);
    out.push(((v >> 8) & 0xff) as u8);
    out.push(((v >> 16) & 0xff) as u8);
    out.push((v >> 24) as u8);
    assert(final(out)@ =~= old(out)@ + u32_bytes(v));
}

/// Reads the little-endian `u16` at byte `i`.
pub fn read_u16(data: &[u8], i: usize) -> (v: u16)
    requires
        i + 2 <= data@.len(),
    ensures
        v == u16_at(data@, i as int),
{
    (data[i] as u16) | ((data[i + 1] as u16) << 8u16)
}

/// Reads the little-endian `u32` at byte `i`.
pub fn read_u32(data: &[u8], i: usize) -> (v: u32)
    requires
        i + 4 <= data@.len(),
    ensures
        v == u32_at(data@, i as int),
{
    (data[i] as u32) | ((data[i + 1] as u32) << 8u32) | ((data[i + 2] as u32) << 16u32) | ((data[i + 3] as u32) << 24u32)
}

pub proof fn lemma_concat_frames(frames: Seq<Seq<u8>>, size: int, k: int)
    requires
        0 <= k <= frames.len(),
        size >= 0,
        forall|i: int| 0 <= i < frames.len() ==> (#[trigger] frames[i]).len() == size,
    ensures
        concat_frames(frames.subrange(0, k)).len() == k * size,
        forall|i: int| 0 <= i < k ==> concat_frames(frames.subrange(0, k)).subrange(i * size, i * size + size) == #[trigger] frames[i],
    decreases k,
{
    if k > 0 {
        lemma_concat_frames(frames, size, k - 1);
        let prev = frames.subrange(0, k - 1);
        let cur = frames.subrange(0, k);
        assert(cur.drop_last() =~= prev);
        assert(concat_frames(cur) == concat_frames(prev) + frames[k - 1]);
        assert((k - 1) * size + size == k * size) by (nonlinear_arith);
        assert forall|i: int| 0 <= i < k implies concat_frames(cur).subrange(i * size, i * size + size) == #[trigger] frames[i] by {
            assert(0 <= i * size) by (nonlinear_arith)
                requires
                    0 <= i,
                    0 <= size,
            ;
            if i < k - 1 {
                assert(i * size + size <= (k - 1) * size) by (nonlinear_arith)
                    requires
                        i < k - 1,
                        0 <= size,
                ;
                assert(concat_frames(cur).subrange(i * size, i * size + size) =~= concat_frames(prev).subrange(i * size, i * size + size));
            } else {
                assert(concat_frames(cur).subrange(i * size, i * size + size) =~= frames[k - 1]);
            }
        }
    } else {
        assert(frames.subrange(0, 0) =~= Seq::<Seq<u8>>::empty());
    }
}

pub proof fn lemma_directory(first: int, size: int, k: int)
    requires
        0 <= k,
    ensures
        directory_bytes(first, size, k).len() == 8 * k,
        forall|j: int|
            0 <= j < k ==> #[trigger] directory_bytes(first, size, k).subrange(8 * j, 8 * j + 8) == u32_bytes((first + j * size) as u32)
                + u32_bytes(size as u32),
    decreases k,
{
    if k > 0 {
        lemma_directory(first, size, k - 1);
        let d = directory_bytes(first, size, k);
        let prev = directory_bytes(first, size, k - 1);
        assert forall|j: int| 0 <= j < k implies #[trigger] directory_bytes(first, size, k).subrange(8 * j, 8 * j + 8) == u32_bytes(
            (first + j * size) as u32,
        ) + u32_bytes(size as u32) by {
            if j < k - 1 {
                assert(d.subrange(8 * j, 8 * j + 8) =~= prev.subrange(8 * j, 8 * j + 8));
            } else {
                assert(d.subrange(8 * j, 8 * j + 8) =~= u32_bytes((first + j * size) as u32) + u32_bytes(size as u32));
            }
        }
    }
}

/// A record that failed stays the answer however many records are read.
pub proof fn lemma_decode_err_persists(data: Seq<u8>, width: u16, height: u16, k: int, n: int)
    requires
        0 <= k <= n,
        decode_frames(data, width, height, k) is Err,
    ensures
        decode_frames(data, width, height, n) == decode_frames(data, width, height, k),
    decreases n - k,
{
    if k < n {
        lemma_decode_err_persists(data, width, height, k, n - 1);
    }
}

/// Whether `encode_book` can store the book: see `encodable`.
pub fn is_encodable(book: &PixelBook) -> (r: bool)
    ensures
        r == encodable(book.width, book.height, book.frames@.len() as int),
{
    let n = book.frames.len() as u64;
    assert((book.width as int) * (book.height as int) <= 65535 * 65535) by (nonlinear_arith)
        requires
            book.width <= 65535,
            book.height <= 65535,
    ;
    let size = (book.width as u64) * (book.height as u64) * 4;
    if n > 65535 || size > 0xffff_ffff {
        return false;
    }
    assert(n * size <= 65535 * 0xffff_ffff) by (nonlinear_arith)
        requires
            n <= 65535,
            size <= 0xffff_ffff,
    ;
    16 + 8 * n + n * size <= 0xffff_ffff
}

/// Serialises a book: header, directory and frame data.
pub fn encode_book(book: &PixelBook) -> (out: Vec<u8>)
    requires
        book.wf(),
        encodable(book.width, book.height, book.frames@.len() as int),
    ensures
        out@ == encoded(book.width, book.height, book.frame_bytes()),
{
    let ghost fb = book.frame_bytes();
    let n = book.frames.len();
    let frame_size: u32 = (book.width as u32) * (book.height as u32) * 4;
    let mut out: Vec<u8> = Vec::new();
    push_u32(&mut out, MAGIC_NUMBER);
    push_u16(&mut out, FORMAT_VERSION);
    push_u16(&mut out, book.width);
    push_u16(&mut out, book.height);
    push_u16(&mut out, n as u16);
    out.push(0u8);
    out.push(0u8);
    out.push(0u8);
    out.push(0u8);
    let ghost header = out@;
    assert(header =~= header_bytes(book.width, book.height, n as u16));
    let first: u32 = 16 + 8 * (n as u32);
    let mut offset: u32 = first;
    let mut i: usize = 0;
    while i < n
        invariant
            i <= n,
            n == book.frames@.len(),
            n <= 65535,
            frame_size == book.width * book.height * 4,
            first == 16 + 8 * n,
            offset == first + i * frame_size,
            16 + 8 * n + n * frame_size <= 0xffff_ffff,
            out@ == header + directory_bytes(first as int, frame_size as int, i as int),
        decreases n - i,
    {
        assert(offset + frame_size <= 0xffff_ffff) by (nonlinear_arith)
            requires
                offset == first + i * frame_size,
                first == 16 + 8 * n,
                i < n,
                16 + 8 * n + n * frame_size <= 0xffff_ffff,
        ;
        push_u32(&mut out, offset);
        push_u32(&mut out, frame_size);
        assert(out@ =~= header + directory_bytes(first as int, frame_size as int, i + 1));
        offset = offset + frame_size;
        assert(offset == first + (i + 1) * frame_size) by (nonlinear_arith)
            requires
                offset == first + i * frame_size + frame_size,
        ;
        i = i + 1;
    }
    let ghost dir = out@;
    let mut i: usize = 0;
    while i < n
        invariant
            i <= n,
            n == book.frames@.len(),
            book.wf(),
            fb == book.frame_bytes(),
            out@ == dir + concat_frames(fb.subrange(0, i as int)),
        decreases n - i,
    {
        let pixels = &book.frames[i].pixels;
        let ghost before = out@;
        let mut j: usize = 0;
        while j < pixels.len()
            invariant
                j <= pixels@.len(),
                out@ == before + pixels@.subrange(0, j as int),
            decreases pixels@.len() - j,
        {
            out.push(pixels[j]);
            j = j + 1;
            assert(out@ =~= before + pixels@.subrange(0, j as int));
        }
        proof {
            assert(pixels@.subrange(0, j as int) =~= pixels@);
            assert(fb.subrange(0, i + 1).drop_last() =~= fb.subrange(0, i as int));
            assert(fb[i as int] == pixels@);
        }
        i = i + 1;
    }
    assert(fb.subrange(0, n as int) =~= fb);
    out
}

/// Reads a stored book: fails on a short header, a wrong magic number or
/// version, a zero dimension or frame count, a short directory, a frame whose
/// recorded size is not `width * height * 4`, or frame bytes past the end.
pub fn decode_book(filename: &str, data: &[u8]) -> (r: Result<PixelBook, PixelError>)
    ensures
        match decoded(data@) {
            Ok((width, height, frames)) => r matches Ok(book) && {
                &&& book.filename@ == filename@
                &&& book.width == width
                &&& book.height == height
                &&& book.frame_bytes() == frames
                &&& book.wf()
            },
            Err(e) => r == Err::<PixelBook, PixelError>(e),
        },
{
    if data.len() < 16 {
        return Err(PixelError::UnexpectedEof { offset: 0, len: 16 });
    }
    let magic = read_u32(data, 0);
    if magic != MAGIC_NUMBER {
        return Err(PixelError::InvalidFormat { details: FormatIssue::BadMagic });
    }
    let version = read_u16(data, 4);
    if version != FORMAT_VERSION {
        return Err(PixelError::InvalidFormat { details: FormatIssue::UnsupportedVersion { version } });
    }
    let width = read_u16(data, 6);
    let height = read_u16(data, 8);
    let frame_count = read_u16(data, 10);
    if width == 0 || height == 0 || frame_count == 0 {
        return Err(PixelError::InvalidFormat { details: FormatIssue::EmptyDimensions });
    }
    let len = data.len() as u64;
    if len < 16 + 8 * (frame_count as u64) {
        return Err(PixelError::UnexpectedEof { offset: 16 + 8 * ((len - 16) / 8), len: 8 });
    }
    assert((width as int) * (height as int) <= 65535 * 65535) by (nonlinear_arith)
        requires
            width <= 65535,
            height <= 65535,
    ;
    let expected: u64 = (width as u64) * (height as u64) * 4;
    let n = frame_count as usize;
    let mut frames: Vec<Frame> = Vec::new();
    let mut i: usize = 0;
    assert(frames@.map_values(|f: Frame| f.pixels@) =~= Seq::<Seq<u8>>::empty());
    while i < n
        invariant
            i <= n,
            n == frame_count,
            len == data@.len(),
            data@.len() <= usize::MAX,
            data@.len() >= 16,
            u32_at(data@, 0) == MAGIC_NUMBER,
            u16_at(data@, 4) == FORMAT_VERSION,
            width == u16_at(data@, 6),
            height == u16_at(data@, 8),
            frame_count == u16_at(data@, 10),
            frame_count >= 1,
            16 + 8 * n <= len,
            expected == width * height * 4,
            width >= 1,
            height >= 1,
            frames@.len() == i,
            forall|j: int|
                0 <= j < i ==> (#[trigger] frames@[j]).index == j && frames@[j].pixels@.len() == width * height * 4,
            decode_frames(data@, width, height, i as int) == Ok::<Seq<Seq<u8>>, PixelError>(
                frames@.map_values(|f: Frame| f.pixels@),
            ),
        decreases n - i,
    {
        let offset = read_u32(data, 16 + 8 * i);
        let size = read_u32(data, 16 + 8 * i + 4);
        if size as u64 != expected {
            proof {
                assert(decode_frames(data@, width, height, i + 1) == Err::<Seq<Seq<u8>>, PixelError>(
                    PixelError::InvalidFormat { details: FormatIssue::FrameSizeMismatch { frame: i } },
                ));
                lemma_decode_err_persists(data@, width, height, i + 1, n as int);
            }
            return Err(PixelError::InvalidFormat { details: FormatIssue::FrameSizeMismatch { frame: i } });
        }
        if offset as u64 + size as u64 > len {
            proof {
                assert(decode_frames(data@, width, height, i + 1) == Err::<Seq<Seq<u8>>, PixelError>(
                    PixelError::UnexpectedEof { offset: offset as u64, len: size as u64 },
                ));
                lemma_decode_err_persists(data@, width, height, i + 1, n as int);
            }
            return Err(PixelError::UnexpectedEof { offset: offset as u64, len: size as u64 });
        }
        let start = offset as usize;
        let end = start + size as usize;
        let mut pixels: Vec<u8> = Vec::new();
        let mut j: usize = start;
        while j < end
            invariant
                start <= j <= end,
                end <= data@.len(),
                pixels@ == data@.subrange(start as int, j as int),
            decreases end - j,
        {
            pixels.push(data[j]);
            j = j + 1;
            assert(pixels@ =~= data@.subrange(start as int, j as int));
        }
        let ghost prev = frames@;
        frames.push(Frame { index: i, pixels });
        assert(frames@.map_values(|f: Frame| f.pixels@) =~= prev.map_values(|f: Frame| f.pixels@).push(data@.subrange(start as int, end as int)));
        i = i + 1;
    }
    let book = PixelBook { filename: filename.to_owned(), width, height, frames };
    assert(book.frame_bytes() =~= frames@.map_values(|f: Frame| f.pixels@));
    Ok(book)
}

/// Decoding what `encode_book` wrote gives back the size and every frame's bytes.
pub proof fn lemma_round_trip(width: u16, height: u16, frames: Seq<Seq<u8>>)
    requires
        width >= 1,
        height >= 1,
        frames.len() >= 1,
        encodable(width, height, frames.len() as int),
        forall|i: int| 0 <= i < frames.len() ==> (#[trigger] frames[i]).len() == width * height * 4,
    ensures
        decoded(encoded(width, height, frames)) == Ok::<(u16, u16, Seq<Seq<u8>>), PixelError>((width, height, frames)),
{
    let n = frames.len() as int;
    let size = width * height * 4;
    let data = encoded(width, height, frames);
    let h = header_bytes(width, height, n as u16);
    let d = directory_bytes(16 + 8 * n, size, n);
    let c = concat_frames(frames);
    lemma_directory(16 + 8 * n, size, n);
    lemma_concat_frames(frames, size, n);
    assert(frames.subrange(0, n) =~= frames);
    assert(h.len() == 16);
    assert(data.len() == 16 + 8 * n + n * size);
    lemma_u32_round_trip(MAGIC_NUMBER, data[0], data[1], data[2], data[3]);
    lemma_u16_round_trip(FORMAT_VERSION, data[4], data[5]);
    lemma_u16_round_trip(width, data[6], data[7]);
    lemma_u16_round_trip(height, data[8], data[9]);
    lemma_u16_round_trip(n as u16, data[10], data[11]);
    assert(u16_at(data, 10) == n);
    lemma_decode_all(width, height, frames, n);
}

proof fn lemma_decode_all(width: u16, height: u16, frames: Seq<Seq<u8>>, k: int)
    requires
        width >= 1,
        height >= 1,
        frames.len() >= 1,
        encodable(width, height, frames.len() as int),
        forall|i: int| 0 <= i < frames.len() ==> (#[trigger] frames[i]).len() == width * height * 4,
        0 <= k <= frames.len(),
    ensures
        decode_frames(encoded(width, height, frames), width, height, k) == Ok::<Seq<Seq<u8>>, PixelError>(frames.subrange(0, k)),
    decreases k,
{
    let n = frames.len() as int;
    let size = width * height * 4;
    let data = encoded(width, height, frames);
    let d = directory_bytes(16 + 8 * n, size, n);
    let c = concat_frames(frames);
    if k == 0 {
        assert(frames.subrange(0, 0) =~= Seq::<Seq<u8>>::empty());
    } else {
        lemma_decode_all(width, height, frames, k - 1);
        lemma_directory(16 + 8 * n, size, n);
        lemma_concat_frames(frames, size, n);
        assert(frames.subrange(0, n) =~= frames);
        let j = k - 1;
        assert(0 <= j * size && j * size + size <= n * size) by (nonlinear_arith)
            requires
                0 <= j < n,
                0 <= size,
        ;
        let entry = d.subrange(8 * j, 8 * j + 8);
        assert(entry == u32_bytes((16 + 8 * n + j * size) as u32) + u32_bytes(size as u32));
        let at = 16 + 8 * j;
        assert(data.subrange(at, at + 8) =~= entry);
        assert(forall|t: int| 0 <= t < 8 ==> data[at + t] == #[trigger] entry[t]);
        assert(data[at] == entry[0] && data[at + 1] == entry[1] && data[at + 2] == entry[2] && data[at + 3] == entry[3]);
        assert(data[at + 4] == entry[4] && data[at + 5] == entry[5] && data[at + 6] == entry[6] && data[at + 7] == entry[7]);
        lemma_u32_round_trip((16 + 8 * n + j * size) as u32, data[at], data[at + 1], data[at + 2], data[at + 3]);
        lemma_u32_round_trip(size as u32, data[at + 4], data[at + 5], data[at + 6], data[at + 7]);
        assert(16 + 8 * n + j * size + size <= 0xffff_ffff) by (nonlinear_arith)
            requires
                0 <= j < n,
                0 <= size,
                16 + 8 * n + n * size <= 0xffff_ffff,
        ;
        let off = 16 + 8 * n + j * size;
        assert(u32_at(data, at) == off);
        assert(u32_at(data, at + 4) == size);
        assert(data.subrange(off, off + size) =~= c.subrange(j * size, j * size + size));
        assert(frames.subrange(0, k) =~= frames.subrange(0, k - 1).push(frames[j]));
    }
}

} // verus!
