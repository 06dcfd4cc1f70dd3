//! The blocks behind the header: images, extensions and the trailer.

use crate::blocks::{
    after_chain, chain_len, eat_len_prefixed_subblocks, lemma_chain_cut,
    lemma_chain_fits, take_chain,
};
use crate::color::{color_table_bytes, take_color_table, ColorTable};
use crate::error::{parsed_as, view_of, ParseError, Parsed};
use crate::parser::{le_u16, le_u16_at, take1, take_slice};
use vstd::pervasive::arbitrary;
use vstd::prelude::*;
use vstd::slice::slice_subrange;

verus! {

/// How the image that follows is to be shown.
#[derive(Copy, Clone, Eq, PartialEq, Ord, PartialOrd, Hash, Debug)]
pub struct GraphicControl {
    pub is_transparent: bool,
    pub transparent_color_index: u8,
    // centisecond
    pub delay_centis: u16,
}

/// One image.
#[derive(Copy, Clone, Eq, PartialEq, Ord, PartialOrd, Hash, Debug)]
pub struct ImageBlock<'a> {
    pub left: u16,
    pub top: u16,
    pub width: u16,
    pub height: u16,
    pub is_interlaced: bool,
    pub lzw_min_code_size: u8,
    pub local_color_table: Option<ColorTable<'a>>,
    /// The sub-block chain of the colour indices.
    pub image_data: &'a [u8],
}

/// The fields of an [`ImageBlock`].
pub ghost struct ImageModel {
    pub left: u16,
    pub top: u16,
    pub width: u16,
    pub height: u16,
    pub is_interlaced: bool,
    pub lzw_min_code_size: u8,
    pub local_color_table: Option<Seq<u8>>,
    pub image_data: Seq<u8>,
}

impl<'a> View for ImageBlock<'a> {
    type V = ImageModel;

    open spec fn view(&self) -> ImageModel {
        ImageModel {
            left: self.left,
            top: self.top,
            width: self.width,
            height: self.height,
            is_interlaced: self.is_interlaced,
            lzw_min_code_size: self.lzw_min_code_size,
            local_color_table: view_of(self.local_color_table),
            image_data: self.image_data@,
        }
    }
}

/// The image at the start of `s`, which begins behind the image separator.
///
/// The layout: left, top, width and height in two bytes each, the flags, the colour table that
/// they announce, the minimum code size, the chain of the colour indices.
pub open spec fn image_model(s: Seq<u8>) -> Parsed<ImageModel> {
    if s.len() < 9 || s.len() < 10 + color_table_bytes(s[8]) {
        Err(ParseError::UnexpectedEndOfFile)
    } else {
        let flags = s[8];
        let n = color_table_bytes(flags) as int;
        match chain_len(s.skip(10 + n)) {
            Some(k) => Ok(
                (
                    s.skip(10 + n + k),
                    ImageModel {
                        left: le_u16_at(s, 0),
                        top: le_u16_at(s, 2),
                        width: le_u16_at(s, 4),
                        height: le_u16_at(s, 6),
                        is_interlaced: flags & 0b0100_0000 != 0,
                        lzw_min_code_size: s[9 + n],
                        local_color_table: if n > 0 {
                            Some(s.subrange(9, 9 + n))
                        } else {
                            None
                        },
                        image_data: s.subrange(10 + n, 10 + n + k),
                    },
                ),
            ),
            None => Err(ParseError::UnexpectedEndOfFile),
        }
    }
}

impl<'a> ImageBlock<'a> {
    /// Reads the image at the start of the input, which begins behind the image separator.
    pub fn parse(input: &'a [u8]) -> (res: Result<(&'a [u8], Self), ParseError>)
        ensures
            parsed_as(res, image_model(input@)),
            res matches Ok((_, image)) ==> chain_len(image.image_data@) == Some(
                image.image_data@.len(),
            ),
    {
        let ghost s = input@;
        let (input, left) = le_u16(input)?;
        let (input, top) = le_u16(input)?;
        let (input, width) = le_u16(input)?;
        let (input, height) = le_u16(input)?;
        let (input, flags) = take1(input)?;
        let is_interlaced = flags & 0b0100_0000 != 0;
        let ghost n = color_table_bytes(flags) as int;
        assert(input@ =~= s.skip(9));
        let (input, local_color_table) = take_color_table(input, flags)?;
        assert(input@ =~= s.skip(9 + n));
        let (input, lzw_min_code_size) = take1(input)?;
        assert(input@ =~= s.skip(10 + n));
        let (rest, image_data) = take_chain(input)?;
        proof {
            lemma_image_data_is_chain(s);
            lemma_chain_fits(input@);
            assert(rest@ =~= s.skip(10 + n + chain_len(input@)->0));
            assert(image_data@ =~= s.subrange(10 + n, 10 + n + chain_len(input@)->0));
            if let Some(table) = local_color_table {
                assert(table@ =~= s.subrange(9, 9 + n));
            }
        }
        Ok(
            (
                rest,
                Self {
                    left,
                    top,
                    width,
                    height,
                    is_interlaced,
                    lzw_min_code_size,
                    local_color_table,
                    image_data,
                },
            ),
        )
    }
}

/// What an extension holds.
#[derive(Copy, Clone, Eq, PartialEq, Ord, PartialOrd, Hash, Debug)]
pub enum ExtensionBlock<'a> {
    GraphicControl(GraphicControl),
    /// The sub-block chain of the comment.
    Comment(&'a [u8]),
    /// Text to be drawn; the content is ignored.
    PlainText,
    NetscapeApplication { repetitions: u16 },
    /// An application of another kind; the content is ignored.
    Application,
    Unknown(u8, &'a [u8]),
}

/// The content of an [`ExtensionBlock`].
pub ghost enum ExtensionModel {
    GraphicControl(GraphicControl),
    Comment(Seq<u8>),
    PlainText,
    NetscapeApplication { repetitions: u16 },
    Application,
    Unknown(u8, Seq<u8>),
}

impl<'a> View for ExtensionBlock<'a> {
    type V = ExtensionModel;

    open spec fn view(&self) -> ExtensionModel {
        match *self {
            ExtensionBlock::GraphicControl(control) => ExtensionModel::GraphicControl(control),
            ExtensionBlock::Comment(chain) => ExtensionModel::Comment(chain@),
            ExtensionBlock::PlainText => ExtensionModel::PlainText,
            ExtensionBlock::NetscapeApplication {
                repetitions,
            } => ExtensionModel::NetscapeApplication { repetitions },
            ExtensionBlock::Application => ExtensionModel::Application,
            ExtensionBlock::Unknown(label, data) => ExtensionModel::Unknown(label, data@),
        }
    }
}

pub const GRAPHIC_CONTROL_LABEL: u8 = 0xf9;

pub const COMMENT_LABEL: u8 = 0xfe;

pub const APPLICATION_LABEL: u8 = 0xff;

pub const PLAIN_TEXT_LABEL: u8 = 0x01;

/// The labels of the extensions that can be read.
pub open spec fn known_label(label: u8) -> bool {
    label == GRAPHIC_CONTROL_LABEL || label == COMMENT_LABEL || label == APPLICATION_LABEL || label
        == PLAIN_TEXT_LABEL
}

/// If `s` starts with a label, it is one of those that can be read.
pub open spec fn extension_supported(s: Seq<u8>) -> bool {
    s.len() > 0 ==> known_label(s[0])
}

/// The name and the authentication code of the application that stores a repetition count:
/// `NETSCAPE2.0`.
pub open spec fn netscape_id() -> Seq<u8> {
    seq![0x4e, 0x45, 0x54, 0x53, 0x43, 0x41, 0x50, 0x45, 0x32, 0x2e, 0x30]
}

/// `s` starts with an application extension that stores a repetition count: the length eleven,
/// the name, one sub-block of three bytes, of which the first is one, and the closing block.
pub open spec fn is_netscape(s: Seq<u8>) -> bool {
    &&& s.len() >= 17
    &&& s[0] == 11
    &&& s.subrange(1, 12) == netscape_id()
    &&& s[12] == 3
    &&& s[13] == 1
    &&& s[16] == 0
}

/// The application extension at the start of `s`, which begins behind the label.
pub open spec fn application_model(s: Seq<u8>) -> Parsed<ExtensionModel> {
    if s.len() < 12 {
        Err(ParseError::UnexpectedEndOfFile)
    } else if is_netscape(s) {
        Ok((s.skip(17), ExtensionModel::NetscapeApplication { repetitions: le_u16_at(s, 14) }))
    } else {
        match after_chain(s.skip(12)) {
            Ok(rest) => Ok((rest, ExtensionModel::Application)),
            Err(error) => Err(error),
        }
    }
}

/// The graphic control extension at the start of `s`, which begins behind the label.
///
/// The layout: the length four, the flags, the delay in two bytes, the index of the transparent
/// colour, the closing block.
pub open spec fn graphic_control_model(s: Seq<u8>) -> Parsed<ExtensionModel> {
    if s.len() < 1 {
        Err(ParseError::UnexpectedEndOfFile)
    } else if s[0] != 4 {
        Err(ParseError::InvalidConstSizeBytes)
    } else if s.len() < 6 {
        Err(ParseError::UnexpectedEndOfFile)
    } else if s[5] != 0 {
        Err(ParseError::InvalidByte)
    } else {
        Ok(
            (
                s.skip(6),
                ExtensionModel::GraphicControl(
                    GraphicControl {
                        is_transparent: s[1] & 0b0000_0001 != 0,
                        transparent_color_index: s[4],
                        delay_centis: le_u16_at(s, 2),
                    },
                ),
            ),
        )
    }
}

/// The extension at the start of `s`, which begins with the label.
pub open spec fn extension_model(s: Seq<u8>) -> Parsed<ExtensionModel>
    recommends
        extension_supported(s),
{
    if s.len() == 0 {
        Err(ParseError::UnexpectedEndOfFile)
    } else if s[0] == APPLICATION_LABEL {
        application_model(s.skip(1))
    } else if s[0] == COMMENT_LABEL {
        match chain_len(s.skip(1)) {
            Some(n) => Ok(
                (s.skip(1 + n as int), ExtensionModel::Comment(s.subrange(1, 1 + n as int))),
            ),
            None => Err(ParseError::UnexpectedEndOfFile),
        }
    } else if s[0] == GRAPHIC_CONTROL_LABEL {
        graphic_control_model(s.skip(1))
    } else if s[0] == PLAIN_TEXT_LABEL {
        if s.len() < 14 {
            Err(ParseError::UnexpectedEndOfFile)
        } else {
            match after_chain(s.skip(14)) {
                Ok(rest) => Ok((rest, ExtensionModel::PlainText)),
                Err(error) => Err(error),
            }
        }
    } else {
        arbitrary()
    }
}

/// Two byte strings are the same.
fn same_bytes(a: &[u8], b: &[u8]) -> (res: bool)
    ensures
        res == (a@ == b@),
{
    if a.len() != b.len() {
        return false;
    }
    let mut i: usize = 0;
    while i < a.len()
        invariant
            a@.len() == b@.len(),
            i <= a@.len(),
            forall|j: int| 0 <= j < i ==> a@[j] == b@[j],
        decreases a@.len() - i,
    {
        if a[i] != b[i] {
            return false;
        }
        i += 1;
    }
    assert(a@ =~= b@);
    true
}

impl<'a> ExtensionBlock<'a> {
    /// Reads an application extension, behind its label.
    fn parse_application(input: &'a [u8]) -> (res: Result<(&'a [u8], Self), ParseError>)
        ensures
            parsed_as(res, application_model(input@)),
    {
        let ghost s = input@;
        let (input, block_size_1) = take1(input)?;
        let (input, app_id) = take_slice(input, 11)?;
        assert(app_id@ =~= s.subrange(1, 12));
        assert(input@ =~= s.skip(12));
        let netscape: [u8; 11] = [
            0x4e,
            0x45,
            0x54,
            0x53,
            0x43,
            0x41,
            0x50,
            0x45,
            0x32,
            0x2e,
            0x30,
        ];
        assert(netscape@ =~= netscape_id());
        if block_size_1 == 11 && same_bytes(app_id, &netscape) {
            proof {
                reveal_with_fuel(chain_len, 2);
            }
            let (body, block_size_2) = take1(input)?;
            if block_size_2 == 3 {
                let (body, always_one) = take1(body)?;
                if always_one == 1 {
                    let (body, repetitions) = le_u16(body)?;
                    assert(body@ =~= s.skip(16));
                    assert(input@.skip(4) =~= body@);
                    let (body, eob) = take1(body)?;
                    if eob == 0 {
                        assert(body@ =~= s.skip(17));
                        return Ok((body, ExtensionBlock::NetscapeApplication { repetitions }));
                    }
                }
            }
        }
        let rest = eat_len_prefixed_subblocks(input)?;
        Ok((rest, ExtensionBlock::Application))
    }

    /// Reads a graphic control extension, behind its label.
    fn parse_graphic_control(input: &'a [u8]) -> (res: Result<(&'a [u8], Self), ParseError>)
        ensures
            parsed_as(res, graphic_control_model(input@)),
    {
        let ghost s = input@;
        let (input, block_size) = take1(input)?;  // 4
        if block_size != 4 {
            return Err(ParseError::InvalidConstSizeBytes);  // invalid block size
        }
        let (input, flags) = take1(input)?;
        let is_transparent = flags & 0b0000_0001 != 0;
        let (input, delay_centis) = le_u16(input)?;
        let (input, transparent_color_index) = take1(input)?;
        let (input, block_terminator) = take1(input)?;
        if block_terminator != 0 {
            return Err(ParseError::InvalidByte);
        }
        assert(input@ =~= s.skip(6));
        Ok(
            (
                input,
                ExtensionBlock::GraphicControl(
                    GraphicControl { is_transparent, transparent_color_index, delay_centis },
                ),
            ),
        )
    }

    /// Reads the extension at the start of the input, which begins with the label.
    pub fn parse(input: &'a [u8]) -> (res: Result<(&'a [u8], Self), ParseError>)
        requires
            extension_supported(input@),
        ensures
            parsed_as(res, extension_model(input@)),
    {
        let ghost s = input@;
        let (input, ext_label) = take1(input)?;
        match ext_label {
            APPLICATION_LABEL => Self::parse_application(input),
            COMMENT_LABEL => {
                let (rest, chain) = take_chain(input)?;
                proof {
                    lemma_chain_fits(input@);
                    let n = chain_len(input@)->0 as int;
                    assert(rest@ =~= s.skip(1 + n));
                    assert(chain@ =~= s.subrange(1, 1 + n));
                }
                Ok((rest, ExtensionBlock::Comment(chain)))
            },
            GRAPHIC_CONTROL_LABEL => Self::parse_graphic_control(input),
            _ => {
                let (input, _) = take_slice(input, 13)?;
                assert(input@ =~= s.skip(14));
                let rest = eat_len_prefixed_subblocks(input)?;
                Ok((rest, ExtensionBlock::PlainText))
            },
        }
    }
}

/// One block of a file.
#[derive(Copy, Clone, Eq, PartialEq, Ord, PartialOrd, Hash, Debug)]
pub enum Segment<'a> {
    Image(ImageBlock<'a>),
    Extension(ExtensionBlock<'a>),
    Trailer,
}

/// The content of a [`Segment`].
pub ghost enum SegmentModel {
    Image(ImageModel),
    Extension(ExtensionModel),
    Trailer,
}

impl<'a> View for Segment<'a> {
    type V = SegmentModel;

    open spec fn view(&self) -> SegmentModel {
        match *self {
            Segment::Image(image) => SegmentModel::Image(image@),
            Segment::Extension(extension) => SegmentModel::Extension(extension@),
            Segment::Trailer => SegmentModel::Trailer,
        }
    }
}

pub const EXTENSION_INTRODUCER: u8 = 0x21;

pub const IMAGE_SEPARATOR: u8 = 0x2c;

pub const TRAILER: u8 = 0x3b;

pub const BLOCK_TERMINATOR: u8 = 0x00;

/// If `s` starts with an extension, it is one that can be read.
pub open spec fn segment_supported(s: Seq<u8>) -> bool {
    s.len() > 0 && s[0] == EXTENSION_INTRODUCER ==> extension_supported(s.skip(1))
}

/// The block at the start of `s`.
pub open spec fn segment_model(s: Seq<u8>) -> Parsed<SegmentModel>
    recommends
        segment_supported(s),
{
    if s.len() == 0 {
        Err(ParseError::UnexpectedEndOfFile)
    } else if s[0] == EXTENSION_INTRODUCER {
        match extension_model(s.skip(1)) {
            Ok((rest, extension)) => Ok((rest, SegmentModel::Extension(extension))),
            Err(error) => Err(error),
        }
    } else if s[0] == IMAGE_SEPARATOR {
        match image_model(s.skip(1)) {
            Ok((rest, image)) => Ok((rest, SegmentModel::Image(image))),
            Err(error) => Err(error),
        }
    } else if s[0] == TRAILER {
        if s.len() == 1 {
            Ok((Seq::empty(), SegmentModel::Trailer))
        } else {
            Err(ParseError::JunkAfterTrailerByte)
        }
    } else {
        Err(ParseError::InvalidByte)
    }
}

/// The bytes from the next graphic control extension on.
///
/// Other blocks are skipped on the way. The trailer leaves nothing, and a stray block terminator
/// what follows it.
pub open spec fn next_graphic_control(s: Seq<u8>) -> Result<Seq<u8>, ParseError>
    decreases s.len(),
{
    if s.len() == 0 {
        Err(ParseError::UnexpectedEndOfFile)
    } else if s[0] == EXTENSION_INTRODUCER {
        if s.len() == 1 {
            Err(ParseError::UnexpectedEndOfFile)
        } else if s[1] == GRAPHIC_CONTROL_LABEL {
            Ok(s)
        } else if s[1] == PLAIN_TEXT_LABEL && s.len() < 15 {
            Err(ParseError::UnexpectedEndOfFile)
        } else if known_label(s[1]) {
            let body = if s[1] == PLAIN_TEXT_LABEL {
                s.skip(15)
            } else {
                s.skip(2)
            };
            match after_chain(body) {
                Ok(rest) => {
                    proof {
                        lemma_chain_fits(body);
                    }
                    next_graphic_control(rest)
                },
                Err(error) => Err(error),
            }
        } else {
            Err(ParseError::InvalidExtensionLabel)
        }
    } else if s[0] == IMAGE_SEPARATOR {
        match image_model(s.skip(1)) {
            Ok((rest, _)) => {
                proof {
                    lemma_image_shrinks(s.skip(1));
                }
                next_graphic_control(rest)
            },
            Err(error) => Err(error),
        }
    } else if s[0] == TRAILER {
        Ok(Seq::empty())
    } else if s[0] == BLOCK_TERMINATOR {
        Ok(s.skip(1))
    } else {
        Err(ParseError::InvalidByte)
    }
}

/// `rest` is what is left of `s` when some bytes, one at least, have been read.
pub open spec fn read_from(s: Seq<u8>, rest: Seq<u8>) -> bool {
    rest.len() < s.len() && rest == s.skip(s.len() - rest.len())
}

/// An image is read off the front of the bytes.
pub proof fn lemma_image_shrinks(s: Seq<u8>)
    ensures
        image_model(s) matches Ok((rest, _)) ==> read_from(s, rest),
{
    if s.len() >= 9 && s.len() >= 10 + color_table_bytes(s[8]) {
        lemma_chain_fits(s.skip(10 + color_table_bytes(s[8]) as int));
    }
}

/// The data of an image is one whole chain.
pub proof fn lemma_image_data_is_chain(s: Seq<u8>)
    ensures
        image_model(s) matches Ok((_, image)) ==> chain_len(image.image_data) == Some(
            image.image_data.len(),
        ),
{
    if s.len() >= 9 && s.len() >= 10 + color_table_bytes(s[8]) {
        let n = color_table_bytes(s[8]) as int;
        let t = s.skip(10 + n);
        lemma_chain_fits(t);
        if let Some(k) = chain_len(t) {
            lemma_chain_cut(t);
            assert(s.subrange(10 + n, 10 + n + k) =~= t.take(k as int));
        }
    }
}

/// An extension is read off the front of the bytes.
pub proof fn lemma_extension_shrinks(s: Seq<u8>)
    requires
        extension_supported(s),
    ensures
        extension_model(s) matches Ok((rest, _)) ==> read_from(s, rest),
{
    if s.len() > 0 {
        let t = s.skip(1);
        if s[0] == APPLICATION_LABEL {
            if t.len() >= 12 {
                lemma_chain_fits(t.skip(12));
                if is_netscape(t) {
                    assert(t.skip(17) =~= s.skip(18));
                } else if let Some(n) = chain_len(t.skip(12)) {
                    assert(t.skip(12).skip(n as int) =~= s.skip(13 + n as int));
                }
            }
        } else if s[0] == COMMENT_LABEL {
            lemma_chain_fits(t);
        } else if s[0] == GRAPHIC_CONTROL_LABEL {
            if t.len() >= 6 {
                assert(t.skip(6) =~= s.skip(7));
            }
        } else if s.len() >= 14 {
            lemma_chain_fits(s.skip(14));
            if let Some(n) = chain_len(s.skip(14)) {
                assert(s.skip(14).skip(n as int) =~= s.skip(14 + n as int));
            }
        }
    }
}

/// A block is read off the front of the bytes.
pub proof fn lemma_segment_shrinks(s: Seq<u8>)
    requires
        segment_supported(s),
    ensures
        segment_model(s) matches Ok((rest, _)) ==> read_from(s, rest),
{
    if s.len() > 0 {
        let t = s.skip(1);
        lemma_image_shrinks(t);
        if s[0] == EXTENSION_INTRODUCER {
            lemma_extension_shrinks(t);
            if let Ok((rest, _)) = extension_model(t) {
                assert(rest =~= s.skip(s.len() - rest.len()));
            }
        } else if s[0] == IMAGE_SEPARATOR {
            if let Ok((rest, _)) = image_model(t) {
                assert(rest =~= s.skip(s.len() - rest.len()));
            }
        } else if s[0] == TRAILER {
            if s.len() == 1 {
                assert(s.skip(1) =~= Seq::<u8>::empty());
            }
        }
    }
}

/// `rest` is the end of `s`.
pub open spec fn is_tail(s: Seq<u8>, rest: Seq<u8>) -> bool {
    rest.len() <= s.len() && rest == s.skip(s.len() - rest.len())
}

proof fn lemma_tail_of_skip(s: Seq<u8>, k: int, n: int, rest: Seq<u8>)
    requires
        0 <= k,
        0 <= n,
        k + n <= s.len(),
        is_tail(s.skip(k).skip(n), rest),
    ensures
        is_tail(s, rest),
{
    assert(rest =~= s.skip(s.len() - rest.len()));
}

/// What a skip to the next graphic control extension leaves is the end of the bytes.
pub proof fn lemma_next_graphic_control_is_tail(s: Seq<u8>)
    ensures
        next_graphic_control(s) matches Ok(rest) ==> is_tail(s, rest),
    decreases s.len(),
{
    if s.len() == 0 {
    } else if s[0] == EXTENSION_INTRODUCER {
        if s.len() == 1 {
        } else if s[1] == GRAPHIC_CONTROL_LABEL {
            assert(s.skip(0) =~= s);
        } else if known_label(s[1]) && !(s[1] == PLAIN_TEXT_LABEL && s.len() < 15) {
            let k: int = if s[1] == PLAIN_TEXT_LABEL {
                15
            } else {
                2
            };
            let body = s.skip(k);
            lemma_chain_fits(body);
            if let Some(n) = chain_len(body) {
                let next = body.skip(n as int);
                lemma_next_graphic_control_is_tail(next);
                if let Ok(rest) = next_graphic_control(next) {
                    lemma_tail_of_skip(s, k, n as int, rest);
                }
            }
        }
    } else if s[0] == IMAGE_SEPARATOR {
        let body = s.skip(1);
        lemma_image_shrinks(body);
        if let Ok((next, _)) = image_model(body) {
            lemma_next_graphic_control_is_tail(next);
            if let Ok(rest) = next_graphic_control(next) {
                lemma_tail_of_skip(s, 1, body.len() - next.len(), rest);
            }
        }
    } else if s[0] == TRAILER {
        assert(s.skip(s.len() as int) =~= Seq::<u8>::empty());
    }
}

impl<'a> Segment<'a> {
    /// Whether the input does not start with an extension of an unknown label.
    pub fn is_supported(input: &[u8]) -> (res: bool)
        ensures
            res == segment_supported(input@),
    {
        if input.len() < 2 || input[0] != EXTENSION_INTRODUCER {
            return true;
        }
        let label = input[1];
        label == GRAPHIC_CONTROL_LABEL || label == COMMENT_LABEL || label == APPLICATION_LABEL
            || label == PLAIN_TEXT_LABEL
    }

    /// Reads the block at the start of the input.
    pub fn parse(input: &'a [u8]) -> (res: Result<(&'a [u8], Box<Self>), ParseError>)
        requires
            segment_supported(input@),
        ensures
            parsed_as(res, segment_model(input@)),
    {
        let (input, ext_magic) = take1(input)?;
        if ext_magic == EXTENSION_INTRODUCER {
            let (input, ext) = ExtensionBlock::parse(input)?;
            Ok((input, Box::new(Segment::Extension(ext))))
        } else if ext_magic == IMAGE_SEPARATOR {
            let (input, image_block) = ImageBlock::parse(input)?;
            Ok((input, Box::new(Segment::Image(image_block))))
        } else if ext_magic == TRAILER {
            if input.is_empty() {
                assert(input@ =~= Seq::<u8>::empty());
                Ok((input, Box::new(Segment::Trailer)))
            } else {
                Err(ParseError::JunkAfterTrailerByte)
            }
        } else {
            Err(ParseError::InvalidByte)
        }
    }

    /// Skips to the next graphic control extension.
    pub(crate) fn skip_to_next_graphic_control(input: &'a [u8]) -> (res: Result<
        &'a [u8],
        ParseError,
    >)
        ensures
            match next_graphic_control(input@) {
                Ok(rest) => res matches Ok(got) && got@ == rest,
                Err(error) => res == Err::<&[u8], _>(error),
            },
    {
        let mut at = input;
        loop
            invariant
                next_graphic_control(at@) == next_graphic_control(input@),
            decreases at@.len(),
        {
            let ghost before = at@;
            let (input0, ext_magic) = take1(at)?;
            if ext_magic == EXTENSION_INTRODUCER {
                let (input1, label) = take1(input0)?;
                assert(input1@ =~= before.skip(2));
                if label == GRAPHIC_CONTROL_LABEL {
                    return Ok(at);
                } else if label == APPLICATION_LABEL {
                    at = eat_len_prefixed_subblocks(input1)?;
                    proof {
                        lemma_chain_fits(input1@);
                    }
                } else if label == PLAIN_TEXT_LABEL {
                    let (input2, _) = take_slice(input1, 13)?;
                    assert(input2@ =~= before.skip(15));
                    at = eat_len_prefixed_subblocks(input2)?;
                    proof {
                        lemma_chain_fits(input2@);
                    }
                } else if label == COMMENT_LABEL {
                    at = eat_len_prefixed_subblocks(input1)?;
                    proof {
                        lemma_chain_fits(input1@);
                    }
                } else {
                    return Err(ParseError::InvalidExtensionLabel);
                }
            } else if ext_magic == IMAGE_SEPARATOR {
                // parse image, optional local color table
                let (input1, _) = ImageBlock::parse(input0)?;
                proof {
                    lemma_image_shrinks(input0@);
                }
                at = input1;
            } else if ext_magic == TRAILER {
                let nothing = slice_subrange(at, 0, 0);
                assert(nothing@ =~= Seq::<u8>::empty());
                return Ok(nothing);
            } else if ext_magic == BLOCK_TERMINATOR {
                return Ok(input0);
            } else {
                return Err(ParseError::InvalidByte);
            }
        }
    }

    /// The name of the kind of block.
    pub fn kind_name(&self) -> (res: &'static str)
        ensures
            res@ == (match self@ {
                SegmentModel::Image(_) => "Image"@,
                SegmentModel::Extension(_) => "Extension"@,
                SegmentModel::Trailer => "Trailer"@,
            }),
    {
        match self {
            Segment::Image(_) => "Image",
            Segment::Extension(_) => "Extension",
            Segment::Trailer => "Trailer",
        }
    }
}

} // verus!
