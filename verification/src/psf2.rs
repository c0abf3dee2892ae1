//! Fonts in the PSF2 format: a header of 32 bytes, then the glyphs.

use crate::bytes::{le_u32, read_u32};
use vstd::prelude::*;

verus! {

/// The bytes of the header.
pub const PSF2_HEADER_SIZE: usize = 32;

/// The four bytes that a font starts with.
pub open spec fn psf2_magic() -> Seq<u8> {
    seq![0x72u8, 0xb5u8, 0x4au8, 0x86u8]
}

#[derive(Debug, Clone, Copy)]
pub struct Psf2Header {
    pub magic: [u8; 4],
    pub version: u32,
    /// Size of the header in bytes, always 32.
    pub header_size: u32,
    pub flags: u32,
    /// The number of glyphs.
    pub glyphs_count: u32,
    /// The bytes of each glyph.
    pub glyph_size: u32,
    /// The height of each glyph in pixels.
    pub glyph_height: u32,
    /// The width of each glyph in pixels.
    pub glyph_width: u32,
}

#[derive(Debug, Clone)]
pub struct Psf2Font {
    pub header: Psf2Header,
    /// The glyphs: what follows the header.
    pub data: Vec<u8>,
}

impl Psf2Font {
    /// Whether `data` holds a header that starts with the magic bytes.
    pub open spec fn is_font(data: Seq<u8>) -> bool {
        data.len() >= PSF2_HEADER_SIZE && data.subrange(0, 4) == psf2_magic()
    }

    /// Whether `data` holds a header that starts with the magic bytes.
    pub fn has_magic(data: &Vec<u8>) -> (r: bool)
        ensures
            r == Self::is_font(data@),
    {
        if data.len() < PSF2_HEADER_SIZE {
            return false;
        }
        let r = data[0] == 0x72 && data[1] == 0xb5 && data[2] == 0x4a && data[3] == 0x86;
        proof {
            if r {
                assert(data@.subrange(0, 4) =~= psf2_magic());
            } else {
                assert(data@.subrange(0, 4)[0] == data@[0]);
                assert(data@.subrange(0, 4)[1] == data@[1]);
                assert(data@.subrange(0, 4)[2] == data@[2]);
                assert(data@.subrange(0, 4)[3] == data@[3]);
            }
        }
        r
    }

    /// The font that `data` holds.
    pub fn parse(data: &Vec<u8>) -> (r: Psf2Font)
        requires
            Self::is_font(data@),
        ensures
            r.header.magic@ == psf2_magic(),
            r.header.version == le_u32(data@, 4),
            r.header.header_size == le_u32(data@, 8),
            r.header.flags == le_u32(data@, 12),
            r.header.glyphs_count == le_u32(data@, 16),
            r.header.glyph_size == le_u32(data@, 20),
            r.header.glyph_height == le_u32(data@, 24),
            r.header.glyph_width == le_u32(data@, 28),
            r.data@ == data@.subrange(PSF2_HEADER_SIZE as int, data@.len() as int),
    {
        let header = Psf2Header {
            magic: [data[0], data[1], data[2], data[3]],
            version: read_u32(data, 4),
            header_size: read_u32(data, 8),
            flags: read_u32(data, 12),
            glyphs_count: read_u32(data, 16),
            glyph_size: read_u32(data, 20),
            glyph_height: read_u32(data, 24),
            glyph_width: read_u32(data, 28),
        };
        proof {
            assert(header.magic@ =~= data@.subrange(0, 4));
        }
        let mut glyphs: Vec<u8> = Vec::new();
        let mut i: usize = PSF2_HEADER_SIZE;
        while i < data.len()
            invariant
                PSF2_HEADER_SIZE <= i <= data@.len(),
                glyphs@ == data@.subrange(PSF2_HEADER_SIZE as int, i as int),
            decreases data@.len() - i,
        {
            glyphs.push(data[i]);
            proof {
                assert(glyphs@ =~= data@.subrange(PSF2_HEADER_SIZE as int, i + 1));
            }
            i += 1;
        }
        Psf2Font { header, data: glyphs }
    }
}

} // verus!
