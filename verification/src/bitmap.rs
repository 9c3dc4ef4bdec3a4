//! Bitmap files taken apart: the two headers, the first colour entry and
//! the pixel data, read from bytes.

use vstd::prelude::*;

verus! {

/// The header that opens a bitmap file.
#[derive(Debug, Clone, Copy, PartialEq, Eq, Structural)]
pub struct BitmapFileHeader {
    pub file_type: u16,
    pub size: u32,
    pub reserved1: u16,
    pub reserved2: u16,
    pub off_bits: u32,
}

/// The header that describes the image of a bitmap file.
#[derive(Debug, Clone, Copy, PartialEq, Eq, Structural)]
pub struct BitmapInfoHeader {
    pub size: u32,
    pub width: i32,
    pub height: i32,
    pub planes: u16,
    pub bit_count: u16,
    pub compression: u32,
    pub size_image: u32,
    pub x_pels_per_meter: i32,
    pub y_pels_per_meter: i32,
    pub clr_used: u32,
    pub clr_important: u32,
}

/// One entry of a bitmap's colour table.
#[derive(Debug, Clone, Copy, PartialEq, Eq, Structural)]
pub struct RgbQuad {
    pub blue: u8,
    pub green: u8,
    pub red: u8,
    pub reserved: u8,
}

/// A bitmap file taken apart: its two headers, the four bytes that follow
/// them as its first colour entry, and its pixel data.
pub struct Bitmap {
    pub file: BitmapFileHeader,
    pub info: BitmapInfoHeader,
    pub colors: RgbQuad,
    pub pixels: Vec<u8>,
}

/// Number of bytes of the file header.
pub const FILE_HEADER_LEN: usize = 14;

/// Number of bytes of the info header.
pub const INFO_HEADER_LEN: usize = 40;

/// Number of bytes of the two headers and one colour entry.
pub const FRAME_LEN: usize = 58;

/// The unsigned number that the two bytes from `at` on hold, low byte
/// first.
pub open spec fn u16_at(bytes: Seq<u8>, at: int) -> int {
    bytes[at] + 0x100 * bytes[at + 1]
}

/// The unsigned number that the four bytes from `at` on hold, low byte
/// first.
pub open spec fn u32_at(bytes: Seq<u8>, at: int) -> int {
    bytes[at] + 0x100 * bytes[at + 1] + 0x1_0000 * bytes[at + 2] + 0x100_0000 * bytes[at + 3]
}

/// The signed number that the four bytes from `at` on hold, low byte
/// first, in two's complement.
pub open spec fn i32_at(bytes: Seq<u8>, at: int) -> int {
    if u32_at(bytes, at) < 0x8000_0000 {
        u32_at(bytes, at)
    } else {
        u32_at(bytes, at) - 0x1_0000_0000
    }
}

/// The file header that `bytes` begin with.
pub open spec fn file_header_of(bytes: Seq<u8>) -> BitmapFileHeader {
    BitmapFileHeader {
        file_type: u16_at(bytes, 0) as u16,
        size: u32_at(bytes, 2) as u32,
        reserved1: u16_at(bytes, 6) as u16,
        reserved2: u16_at(bytes, 8) as u16,
        off_bits: u32_at(bytes, 10) as u32,
    }
}

/// The info header that follows the file header in `bytes`.
pub open spec fn info_header_of(bytes: Seq<u8>) -> BitmapInfoHeader {
    BitmapInfoHeader {
        size: u32_at(bytes, 14) as u32,
        width: i32_at(bytes, 18) as i32,
        height: i32_at(bytes, 22) as i32,
        planes: u16_at(bytes, 26) as u16,
        bit_count: u16_at(bytes, 28) as u16,
        compression: u32_at(bytes, 30) as u32,
        size_image: u32_at(bytes, 34) as u32,
        x_pels_per_meter: i32_at(bytes, 38) as i32,
        y_pels_per_meter: i32_at(bytes, 42) as i32,
        clr_used: u32_at(bytes, 46) as u32,
        clr_important: u32_at(bytes, 50) as u32,
    }
}

/// The colour entry that follows the two headers in `bytes`.
pub open spec fn first_color_of(bytes: Seq<u8>) -> RgbQuad {
    RgbQuad { blue: bytes[54], green: bytes[55], red: bytes[56], reserved: bytes[57] }
}

/// `bytes` are long enough for the two headers and one colour entry, and
/// the pixel data begins within them.
pub open spec fn is_framed(bytes: Seq<u8>) -> bool {
    bytes.len() >= FRAME_LEN && u32_at(bytes, 10) <= bytes.len()
}

/// Reads two bytes as an unsigned number, low byte first.
fn read_u16(bytes: &[u8], at: usize) -> (value: u16)
    requires
        at + 2 <= bytes.len(),
    ensures
        value == u16_at(bytes@, at as int),
{
    (bytes[at] as u16) + 0x100 * (bytes[at + 1] as u16)
}

/// Reads four bytes as an unsigned number, low byte first.
fn read_u32(bytes: &[u8], at: usize) -> (value: u32)
    requires
        at + 4 <= bytes.len(),
    ensures
        value == u32_at(bytes@, at as int),
{
    (bytes[at] as u32) + 0x100 * (bytes[at + 1] as u32) + 0x1_0000 * (bytes[at + 2] as u32)
        + 0x100_0000 * (bytes[at + 3] as u32)
}

/// Reads four bytes as a signed number, low byte first.
fn read_i32(bytes: &[u8], at: usize) -> (value: i32)
    requires
        at + 4 <= bytes.len(),
    ensures
        value == i32_at(bytes@, at as int),
{
    let unsigned: u32 = read_u32(bytes, at);
    if unsigned < 0x8000_0000 {
        unsigned as i32
    } else {
        ((unsigned as i64) - 0x1_0000_0000) as i32
    }
}

/// Takes a bitmap file apart. The bytes must hold the two headers and one
/// colour entry, and the offset of the pixel data that the file header
/// gives must lie within them; otherwise there is no bitmap to return.
pub fn parse_bitmap(bytes: &[u8]) -> (parsed: Option<Bitmap>)
    ensures
        parsed is Some <==> is_framed(bytes@),
        parsed matches Some(bitmap) ==> {
            &&& bitmap.file == file_header_of(bytes@)
            &&& bitmap.info == info_header_of(bytes@)
            &&& bitmap.colors == first_color_of(bytes@)
            &&& bitmap.pixels@ == bytes@.skip(bitmap.file.off_bits as int)
        },
{
    if bytes.len() < FRAME_LEN {
        return None;
    }
    let file = BitmapFileHeader {
        file_type: read_u16(bytes, 0),
        size: read_u32(bytes, 2),
        reserved1: read_u16(bytes, 6),
        reserved2: read_u16(bytes, 8),
        off_bits: read_u32(bytes, 10),
    };
    if file.off_bits as usize > bytes.len() {
        return None;
    }
    let info = BitmapInfoHeader {
        size: read_u32(bytes, 14),
        width: read_i32(bytes, 18),
        height: read_i32(bytes, 22),
        planes: read_u16(bytes, 26),
        bit_count: read_u16(bytes, 28),
        compression: read_u32(bytes, 30),
        size_image: read_u32(bytes, 34),
        x_pels_per_meter: read_i32(bytes, 38),
        y_pels_per_meter: read_i32(bytes, 42),
        clr_used: read_u32(bytes, 46),
        clr_important: read_u32(bytes, 50),
    };
    let colors = RgbQuad { blue: bytes[54], green: bytes[55], red: bytes[56], reserved: bytes[57] };
    let start: usize = file.off_bits as usize;
    let mut pixels: Vec<u8> = Vec::new();
    let mut i: usize = start;
    while i < bytes.len()
        invariant
            start <= i <= bytes.len(),
            pixels@ == bytes@.subrange(start as int, i as int),
        decreases bytes.len() - i,
    {
        pixels.push(bytes[i]);
        assert(bytes@.subrange(start as int, i + 1) =~= bytes@.subrange(start as int, i as int).push(
            bytes@[i as int],
        ));
        i = i + 1;
    }
    assert(bytes@.skip(start as int) =~= bytes@.subrange(start as int, bytes.len() as int));
    Some(Bitmap { file, info, colors, pixels })
}

} // verus!
