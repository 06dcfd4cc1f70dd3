//! The start of a file: signature, screen and global colour table.

use crate::color::{color_table_bytes, lemma_color_table_bytes, take_color_table, ColorTable};
use crate::error::{view_of, ParseError, Parsed};
use crate::parser::{le_u16, le_u16_at, take1, take3};
use vstd::prelude::*;

verus! {

/// The version of the format that a file claims.
#[non_exhaustive]
#[derive(Copy, Clone, Eq, PartialEq, Ord, PartialOrd, Hash, Debug)]
pub enum Version {
    V87a,
    V89a,
}

/// What a file says of itself and of its logical screen.
#[derive(Copy, Clone, Eq, PartialEq, Ord, PartialOrd, Hash, Debug)]
pub struct Header {
    pub version: Version,
    pub width: u16,
    pub height: u16,
    pub has_global_color_table: bool,
    pub color_resolution: u8,  // 3 bits
    pub bg_color_index: u8,
}

/// The version that the six bytes at the start of a file name.
pub open spec fn version_of(s: Seq<u8>) -> Option<Version> {
    if s[3] == 0x38 && s[4] == 0x37 && s[5] == 0x61 {
        Some(Version::V87a)
    } else if s[3] == 0x38 && s[4] == 0x39 && s[5] == 0x61 {
        Some(Version::V89a)
    } else {
        None
    }
}

/// The header at the start of `s`, and the global colour table if the file has one.
///
/// The layout: `GIF`, the version in three bytes, the width and the height in two bytes each, the
/// flags, the index of the background colour, the pixel aspect ratio, the table.
pub open spec fn header_model(s: Seq<u8>) -> Parsed<(Header, Option<Seq<u8>>)> {
    if s.len() < 3 {
        Err(ParseError::UnexpectedEndOfFile)
    } else if !(s[0] == 0x47 && s[1] == 0x49 && s[2] == 0x46) {
        Err(ParseError::InvalidFileSignature([s[0], s[1], s[2]]))
    } else if s.len() < 6 {
        Err(ParseError::UnexpectedEndOfFile)
    } else if version_of(s) is None {
        Err(ParseError::InvalidFileSignature([s[0], s[1], s[2]]))
    } else if s.len() < 13 || s.len() < 13 + color_table_bytes(s[10]) {
        Err(ParseError::UnexpectedEndOfFile)
    } else {
        let flags = s[10];
        let n = color_table_bytes(flags) as int;
        Ok(
            (
                s.skip(13 + n),
                (
                    Header {
                        version: version_of(s)->0,
                        width: le_u16_at(s, 6),
                        height: le_u16_at(s, 8),
                        has_global_color_table: n > 0,
                        color_resolution: (flags & 0b0111_0000) >> 4,
                        bg_color_index: s[11],
                    },
                    if n > 0 {
                        Some(s.subrange(13, 13 + n))
                    } else {
                        None
                    },
                ),
            ),
        )
    }
}

impl Header {
    /// Reads the header and the global colour table at the start of the input.
    pub fn parse<'a>(input: &'a [u8]) -> (res: Result<
        (&'a [u8], (Header, Option<ColorTable<'a>>)),
        ParseError,
    >)
        ensures
            match header_model(input@) {
                Ok((rest, (header, table))) => {
                    &&& res matches Ok((got_rest, (got_header, got_table)))
                    &&& got_rest@ == rest
                    &&& got_header == header
                    &&& view_of(got_table) == table
                },
                Err(error) => res matches Err(got) && got == error,
            },
    {
        let ghost s = input@;
        let (input, magic) = take3(input)?;
        if magic[0] != 0x47 || magic[1] != 0x49 || magic[2] != 0x46 {
            return Err(ParseError::InvalidFileSignature(magic));
        }
        let (input, ver) = take3(input)?;
        let version = if ver[0] == 0x38 && ver[1] == 0x37 && ver[2] == 0x61 {
            Version::V87a
        } else if ver[0] == 0x38 && ver[1] == 0x39 && ver[2] == 0x61 {
            Version::V89a
        } else {
            return Err(ParseError::InvalidFileSignature(magic));
        };
        let (input, screen_width) = le_u16(input)?;
        let (input, screen_height) = le_u16(input)?;
        let (input, flags) = take1(input)?;
        let has_global_color_table = flags & 0b1000_0000 != 0;
        let color_resolution = (flags & 0b0111_0000) >> 4;
        let (input, bg_color_index) = take1(input)?;
        let (input, _pixel_aspect_ratio) = take1(input)?;
        assert(input@ =~= s.skip(13));
        let (input, color_table) = take_color_table(input, flags)?;
        assert(input@ =~= s.skip(13 + color_table_bytes(flags) as int));
        let header = Header {
            version,
            width: screen_width,
            height: screen_height,
            has_global_color_table,
            color_resolution,
            bg_color_index,
        };
        proof {
            lemma_color_table_bytes(flags);
            if let Some(table) = color_table {
                assert(table@ =~= s.subrange(13, 13 + color_table_bytes(flags) as int));
            }
        }
        Ok((input, (header, color_table)))
    }
}

/// A file cut behind its header.
#[derive(Copy, Clone, Eq, PartialEq, Ord, PartialOrd, Hash, Debug)]
pub struct RawGif<'a> {
    /// Image header.
    header: Header,
    global_color_table: Option<ColorTable<'a>>,
    /// Image data.
    raw_block_data: &'a [u8],
}

/// The parts of a [`RawGif`].
pub ghost struct RawGifModel {
    pub header: Header,
    pub global_color_table: Option<Seq<u8>>,
    pub raw_block_data: Seq<u8>,
}

impl<'a> View for RawGif<'a> {
    type V = RawGifModel;

    closed spec fn view(&self) -> RawGifModel {
        RawGifModel {
            header: self.header,
            global_color_table: view_of(self.global_color_table),
            raw_block_data: self.raw_block_data@,
        }
    }
}

/// What a file holds.
pub open spec fn raw_gif_model(s: Seq<u8>) -> Result<RawGifModel, ParseError> {
    match header_model(s) {
        Ok((rest, (header, table))) => Ok(
            RawGifModel { header, global_color_table: table, raw_block_data: rest },
        ),
        Err(error) => Err(error),
    }
}

impl<'a> RawGif<'a> {
    /// Reads the header of a file.
    pub(crate) fn from_slice(bytes: &'a [u8]) -> (res: Result<Self, ParseError>)
        ensures
            match raw_gif_model(bytes@) {
                Ok(model) => res matches Ok(gif) && gif@ == model,
                Err(error) => res == Err::<Self, _>(error),
            },
    {
        let (remaining, (header, color_table)) = Header::parse(bytes)?;
        Ok(Self { header, global_color_table: color_table, raw_block_data: remaining })
    }

    pub(crate) fn header(&self) -> (res: &Header)
        ensures
            *res == self@.header,
    {
        &self.header
    }

    pub(crate) fn global_color_table(&self) -> (res: Option<ColorTable<'a>>)
        ensures
            view_of(res) == self@.global_color_table,
    {
        self.global_color_table
    }

    pub(crate) fn raw_block_data(&self) -> (res: &'a [u8])
        ensures
            res@ == self@.raw_block_data,
    {
        self.raw_block_data
    }
}

} // verus!
