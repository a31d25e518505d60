//! The layout of a raster file, read before the file is handed to the
//! codec.
//!
//! A PNG file is a signature of eight bytes and then chunks. A chunk is the
//! length of its data in four bytes, most significant first, a type of four
//! bytes, the data, and a checksum of four bytes. The first chunk is the
//! header, `IHDR`; the samples follow in data chunks, `IDAT`; the end chunk,
//! `IEND`, closes the file.
//!
//! Any raster that PNG can hold is decoded: gray, colour or palette, with
//! or without alpha, of any sample size, rows interlaced or not, with
//! whatever other chunks. A file is kept from the decoder only where the
//! decoder would size a buffer by one thing and fill or slice it by
//! another:
//!
//! - The size of the raster must be known before the call, since the
//!   decoder allocates by the numbers in the header. So the file begins
//!   with the signature and a header of thirteen bytes, and no second
//!   header follows: the decoder's `parse_ihdr` would take a later one in
//!   place of the first, at any point of the stream.
//! - The sample size must be one that PNG has for the colour type. The
//!   decoder's `parse_ihdr` takes any pair, and its `expand_pass` then
//!   places the rows of an interlaced raster by the samples of a pixel
//!   into a buffer that was sized by their bits.
//! - No transparency chunk, `tRNS`, follows the first data chunk. The
//!   decoder sizes its row when it meets the first data chunk; its
//!   `parse_trns` takes the chunk later too, after which a row counts one
//!   more sample to the pixel than was allocated.
//!
//! What is cut short, or ill-formed in another way, is left to the decoder,
//! which answers it with an error.

use vstd::prelude::*;
use crate::error::Error;

verus! {

/// The bytes of a file before its second chunk: the signature and the
/// header chunk.
pub const HEADER_END: usize = 33;

/// The number that four bytes write, most significant first.
pub open spec fn be32(file: Seq<u8>, at: int) -> int {
    file[at] * 0x100_0000 + file[at + 1] * 0x1_0000 + file[at + 2] * 0x100 + file[at + 3]
}

/// Whether the four bytes at `at` are the given ones.
pub open spec fn has_bytes(file: Seq<u8>, at: int, a: u8, b: u8, c: u8, d: u8) -> bool {
    file[at] == a && file[at + 1] == b && file[at + 2] == c && file[at + 3] == d
}

/// Whether the file begins with the PNG signature.
pub open spec fn has_signature(file: Seq<u8>) -> bool {
    has_bytes(file, 0, 137, 80, 78, 71) && has_bytes(file, 4, 13, 10, 26, 10)
}

/// Whether the chunk at `at` is a header, of type `IHDR`.
pub open spec fn is_header(file: Seq<u8>, at: int) -> bool {
    has_bytes(file, at + 4, 73, 72, 68, 82)
}

/// Whether the chunk at `at` is a data chunk, of type `IDAT`.
pub open spec fn is_data(file: Seq<u8>, at: int) -> bool {
    has_bytes(file, at + 4, 73, 68, 65, 84)
}

/// Whether the chunk at `at` is an end chunk, of type `IEND`.
pub open spec fn is_end(file: Seq<u8>, at: int) -> bool {
    has_bytes(file, at + 4, 73, 69, 78, 68)
}

/// Whether the chunk at `at` is a transparency chunk, of type `tRNS`.
pub open spec fn is_transparency(file: Seq<u8>, at: int) -> bool {
    has_bytes(file, at + 4, 116, 82, 78, 83)
}

/// Whether PNG has samples of `depth` bits for the colour type `color`:
/// gray of 1, 2, 4, 8 or 16 bits, a palette of 1, 2, 4 or 8, and colour,
/// gray with alpha and colour with alpha of 8 or 16.
pub open spec fn is_pixel_format(depth: u8, color: u8) -> bool {
    ||| color == 0 && (depth == 1 || depth == 2 || depth == 4 || depth == 8 || depth == 16)
    ||| color == 3 && (depth == 1 || depth == 2 || depth == 4 || depth == 8)
    ||| (color == 2 || color == 4 || color == 6) && (depth == 8 || depth == 16)
}

/// Whether the chunks from `at` on, as far as the decoder reads them, hold
/// no second header and no transparency chunk after a data chunk.
/// `data_seen` says whether a data chunk stands before `at`. The decoder
/// reads no further than the end chunk, nor than a chunk that is cut short.
pub open spec fn chunks_keep_layout(file: Seq<u8>, at: int, data_seen: bool) -> bool
    decreases file.len() - at,
{
    if at < 0 || at + 8 > file.len() {
        true
    } else if is_header(file, at) {
        false
    } else if is_transparency(file, at) && data_seen {
        false
    } else if is_end(file, at) {
        true
    } else if at + 12 + be32(file, at) > file.len() {
        true
    } else {
        chunks_keep_layout(file, at + 12 + be32(file, at), data_seen || is_data(file, at))
    }
}

/// Whether the file begins with the signature and a header chunk of
/// thirteen bytes that gives a pixel format of PNG.
pub open spec fn has_header(file: Seq<u8>) -> bool {
    &&& file.len() >= HEADER_END
    &&& has_signature(file)
    &&& be32(file, 8) == 13
    &&& is_header(file, 8)
    &&& is_pixel_format(file[24], file[25])
}

/// Whether the file is laid out so that the decoder can be handed it: it
/// has a header, and its chunks keep the layout that the header gives.
pub open spec fn well_laid(file: Seq<u8>) -> bool {
    has_header(file) && chunks_keep_layout(file, HEADER_END as int, false)
}

/// The width that the header gives.
pub open spec fn header_width(file: Seq<u8>) -> int {
    be32(file, 16)
}

/// The height that the header gives.
pub open spec fn header_height(file: Seq<u8>) -> int {
    be32(file, 20)
}

/// Whether the file is well laid out and its header gives the size of a
/// level raster. Such a file is handed to the codec.
pub open spec fn decodable(file: Seq<u8>) -> bool {
    well_laid(file) && header_width(file) == 1024 && header_height(file) == 1024
}

/// Whether the file is laid out as the encoder writes an 8-bit gray raster
/// of the given size: the signature, the header, one data chunk and an
/// empty end chunk, and nothing else.
pub open spec fn saved_layout(file: Seq<u8>, width: u32, height: u32) -> bool {
    &&& file.len() >= HEADER_END + 24
    &&& has_signature(file)
    &&& be32(file, 8) == 13
    &&& is_header(file, 8)
    &&& header_width(file) == width
    &&& header_height(file) == height
    &&& file[24] == 8
    &&& file[25] == 0
    &&& file[26] == 0
    &&& file[27] == 0
    &&& file[28] == 0
    &&& is_data(file, HEADER_END as int)
    &&& file.len() == HEADER_END + 12 + be32(file, HEADER_END as int) + 12
    &&& is_end(file, HEADER_END + 12 + be32(file, HEADER_END as int))
    &&& be32(file, HEADER_END + 12 + be32(file, HEADER_END as int)) == 0
}

/// What the encoder writes for a level raster is handed to the decoder.
pub proof fn lemma_saved_is_decodable(file: Seq<u8>)
    requires
        saved_layout(file, 1024, 1024),
    ensures
        decodable(file),
{
    let at = HEADER_END as int;
    let next = at + 12 + be32(file, at);
    assert(!is_header(file, at) && !is_end(file, at));
    assert(chunks_keep_layout(file, next, true));
    assert(chunks_keep_layout(file, at, false));
}

fn read_be32(file: &Vec<u8>, at: usize) -> (value: u32)
    requires
        at + 4 <= file.len(),
    ensures
        value == be32(file@, at as int),
{
    let a: u32 = file[at] as u32;
    let b: u32 = file[at + 1] as u32;
    let c: u32 = file[at + 2] as u32;
    let d: u32 = file[at + 3] as u32;
    a * 0x100_0000 + b * 0x1_0000 + c * 0x100 + d
}

fn holds_bytes(file: &Vec<u8>, at: usize, a: u8, b: u8, c: u8, d: u8) -> (holds: bool)
    requires
        at + 4 <= file.len(),
    ensures
        holds == has_bytes(file@, at as int, a, b, c, d),
{
    file[at] == a && file[at + 1] == b && file[at + 2] == c && file[at + 3] == d
}

fn pixel_format(depth: u8, color: u8) -> (known: bool)
    ensures
        known == is_pixel_format(depth, color),
{
    if color == 0 {
        depth == 1 || depth == 2 || depth == 4 || depth == 8 || depth == 16
    } else if color == 3 {
        depth == 1 || depth == 2 || depth == 4 || depth == 8
    } else if color == 2 || color == 4 || color == 6 {
        depth == 8 || depth == 16
    } else {
        false
    }
}

fn holds_header(file: &Vec<u8>) -> (holds: bool)
    ensures
        holds == has_header(file@),
{
    if file.len() < HEADER_END {
        return false;
    }
    holds_bytes(file, 0, 137, 80, 78, 71) && holds_bytes(file, 4, 13, 10, 26, 10) && read_be32(
        file,
        8,
    ) == 13 && holds_bytes(file, 12, 73, 72, 68, 82) && pixel_format(file[24], file[25])
}

fn keeps_layout(file: &Vec<u8>) -> (keeps: bool)
    requires
        file.len() >= HEADER_END,
    ensures
        keeps == chunks_keep_layout(file@, HEADER_END as int, false),
{
    let mut at: usize = HEADER_END;
    let mut data_seen = false;
    loop
        invariant
            HEADER_END <= at <= file.len(),
            chunks_keep_layout(file@, HEADER_END as int, false) == chunks_keep_layout(
                file@,
                at as int,
                data_seen,
            ),
        decreases file.len() - at,
    {
        if file.len() - at < 8 {
            return true;
        }
        if holds_bytes(file, at + 4, 73, 72, 68, 82) {
            return false;
        }
        if data_seen && holds_bytes(file, at + 4, 116, 82, 78, 83) {
            return false;
        }
        if holds_bytes(file, at + 4, 73, 69, 78, 68) {
            return true;
        }
        let len: u32 = read_be32(file, at);
        if file.len() - at < 12 || len as usize > file.len() - at - 12 {
            return true;
        }
        if holds_bytes(file, at + 4, 73, 68, 65, 84) {
            data_seen = true;
        }
        at = at + 12 + len as usize;
    }
}

/// Reads the layout of a raster file. A file that the decoder cannot be
/// handed is refused as malformed; one that it can, but whose header gives
/// another size than that of a level raster, is refused for its size.
pub fn check_layout(file: &Vec<u8>) -> (checked: Result<(), Error>)
    ensures
        match checked {
            Ok(()) => decodable(file@),
            Err(Error::Format) => !well_laid(file@),
            Err(Error::Dimension) => well_laid(file@) && !decodable(file@),
            Err(_) => false,
        },
{
    if !holds_header(file) || !keeps_layout(file) {
        return Err(Error::Format);
    }
    if read_be32(file, 16) != 1024 || read_be32(file, 20) != 1024 {
        return Err(Error::Dimension);
    }
    Ok(())
}

} // verus!
