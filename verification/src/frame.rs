//! One frame of an animation, and how it is drawn.

use crate::bitstream::bits_of;
use crate::blocks::{chain_data, LenPrefixRawDataView};
use crate::color::ColorTable;
use crate::error::{view_of, ParseError};
use crate::geometry::{Rectangle, Size};
use crate::header::Header;
use crate::lzw::{
    decoded, lemma_next_shrinks, lzw_indices, lzw_next, lzw_start, Decoder, LzwModel, LzwStep,
};
use crate::placement::{
    pixels_of, Pixel, PixelModel, Placed, PlacedModel, Placement, PlacementModel,
};
use crate::segment::{
    lemma_image_data_is_chain, lemma_segment_shrinks, segment_model, segment_supported,
    ExtensionBlock, ExtensionModel, ImageModel, Segment, SegmentModel,
};
use std::marker::PhantomData;
use vstd::prelude::*;

verus! {

/// The colour table of an image: its own, or else the one of the file.
pub open spec fn image_colors(image: ImageModel, global: Option<Seq<u8>>) -> Option<Seq<u8>> {
    if image.local_color_table is Some {
        image.local_color_table
    } else {
        global
    }
}

/// The layout of an image before any of its indices has been laid out.
pub open spec fn image_placement(
    image: ImageModel,
    colors: Seq<u8>,
    transparent: Option<u8>,
) -> PlacementModel {
    PlacementModel {
        left: image.left,
        top: image.top,
        width: image.width,
        transparent,
        colors,
        count: 0,
    }
}

/// The decoding of the indices of an image before any has been decoded.
pub open spec fn image_stream(image: ImageModel) -> LzwModel {
    lzw_start(image.lzw_min_code_size as nat, bits_of(chain_data(image.image_data)))
}

/// What is drawn first and what is drawn then, if both can be drawn.
pub open spec fn both(
    first: Option<Seq<PixelModel>>,
    then: Option<Seq<PixelModel>>,
) -> Option<Seq<PixelModel>> {
    match (first, then) {
        (Some(a), Some(b)) => Some(a + b),
        _ => None,
    }
}

/// The pixels, in the order in which they are drawn, of the images in `s` up to the next graphic
/// control extension, the trailer, or the first bytes that are no block; all of them, or those
/// within an area.
///
/// There is no such drawing if an extension with an unknown label stands in the way, if an image
/// has no colour table, or if a colour index has no place or no colour.
pub open spec fn drawing(
    s: Seq<u8>,
    global: Option<Seq<u8>>,
    transparent: Option<u8>,
    area: Option<Rectangle>,
) -> Option<Seq<PixelModel>>
    decreases s.len(),
{
    if !segment_supported(s) {
        None
    } else {
        match segment_model(s) {
            Err(_) => Some(Seq::empty()),
            Ok((_, SegmentModel::Trailer)) => Some(Seq::empty()),
            Ok((_, SegmentModel::Extension(ExtensionModel::GraphicControl(_)))) => Some(
                Seq::empty(),
            ),
            Ok((rest, SegmentModel::Extension(_))) => {
                proof {
                    lemma_segment_shrinks(s);
                }
                drawing(rest, global, transparent, area)
            },
            Ok((rest, SegmentModel::Image(image))) => match image_colors(image, global) {
                Some(colors) => {
                    proof {
                        lemma_segment_shrinks(s);
                    }
                    both(
                        pixels_of(
                            image_placement(image, colors, transparent),
                            decoded(image.lzw_min_code_size, chain_data(image.image_data)),
                            area,
                        ),
                        drawing(rest, global, transparent, area),
                    )
                },
                None => None,
            },
        }
    }
}

/// A step in the drawing of a frame.
#[derive(Debug)]
pub enum DrawStep {
    /// Some colour indices of the image that is being drawn, to be laid out in their order.
    Chunk(Vec<u8>),
    /// The frame is drawn.
    Done,
    /// The frame cannot be drawn: an extension has an unknown label, or an image no colour table.
    Undefined,
}

/// Walks through the images of a frame and decodes them.
pub struct FrameCursor<'a> {
    input: &'a [u8],
    global: Option<ColorTable<'a>>,
    transparent: Option<u8>,
    image: Option<(Placement<'a>, Decoder<'a>)>,
}

/// Where the drawing of a frame stands.
pub ghost struct CursorModel {
    /// The blocks that are still to be read.
    pub input: Seq<u8>,
    pub global: Option<Seq<u8>>,
    pub transparent: Option<u8>,
    /// The image that is being drawn.
    pub image: Option<(PlacementModel, LzwModel)>,
}

/// What comes next in the drawing of a frame.
pub ghost enum CursorStep {
    /// Some colour indices, and the state in which they are to be laid out.
    Chunk(Seq<u8>, CursorModel),
    Done,
    Undefined,
}

impl CursorModel {
    /// The state at the start of an image.
    pub open spec fn start_image(
        self,
        image: ImageModel,
        colors: Seq<u8>,
        rest: Seq<u8>,
    ) -> CursorModel {
        CursorModel {
            input: rest,
            image: Some(
                (image_placement(image, colors, self.transparent), image_stream(image)),
            ),
            ..self
        }
    }

    /// What comes next when the image that was being drawn is finished.
    pub open spec fn next_block(self) -> CursorStep
        decreases self.input.len(), 0nat,
    {
        if !segment_supported(self.input) {
            CursorStep::Undefined
        } else {
            match segment_model(self.input) {
                Err(_) => CursorStep::Done,
                Ok((_, SegmentModel::Trailer)) => CursorStep::Done,
                Ok((_, SegmentModel::Extension(ExtensionModel::GraphicControl(_)))) => {
                    CursorStep::Done
                },
                Ok((rest, SegmentModel::Extension(_))) => {
                    proof {
                        lemma_segment_shrinks(self.input);
                    }
                    CursorModel { input: rest, image: None, ..self }.next()
                },
                Ok((rest, SegmentModel::Image(image))) => match image_colors(image, self.global) {
                    Some(colors) => {
                        proof {
                            lemma_segment_shrinks(self.input);
                        }
                        self.start_image(image, colors, rest).next()
                    },
                    None => CursorStep::Undefined,
                },
            }
        }
    }

    /// What comes next.
    pub open spec fn next(self) -> CursorStep
        decreases self.input.len(), 1nat,
    {
        match self.image {
            Some((placement, stream)) => match lzw_next(stream) {
                LzwStep::Emit(chunk, stream) => CursorStep::Chunk(
                    chunk,
                    CursorModel { image: Some((placement, stream)), ..self },
                ),
                _ => self.next_block(),
            },
            None => self.next_block(),
        }
    }

    /// All pixels that are still to be drawn, or those of them within an area.
    pub open spec fn pending(self, area: Option<Rectangle>) -> Option<Seq<PixelModel>> {
        self.pending_behind(Seq::empty(), area)
    }

    /// The pixels that are still to be drawn when `chunk` has been decoded and not been laid out.
    pub open spec fn pending_behind(self, chunk: Seq<u8>, area: Option<Rectangle>) -> Option<
        Seq<PixelModel>,
    > {
        match self.image {
            Some((placement, stream)) => both(
                pixels_of(placement, chunk + lzw_indices(stream), area),
                drawing(self.input, self.global, self.transparent, area),
            ),
            None => drawing(self.input, self.global, self.transparent, area),
        }
    }
}

/// What comes next in the drawing of a frame is the start of what is still to be drawn.
pub proof fn law_next_chunk_is_pending(c: CursorModel, area: Option<Rectangle>)
    ensures
        match c.next() {
            CursorStep::Chunk(chunk, behind) => behind.image is Some && c.pending(area)
                == behind.pending_behind(chunk, area),
            CursorStep::Done => c.pending(area) == Some(Seq::<PixelModel>::empty()),
            CursorStep::Undefined => c.pending(area) is None,
        },
    decreases c.input.len(), 1nat,
{
    match c.image {
        Some((placement, stream)) => {
            assert(Seq::<u8>::empty() + lzw_indices(stream) =~= lzw_indices(stream));
            match lzw_next(stream) {
                LzwStep::Emit(_, _) => {},
                _ => {
                    lemma_next_block_draws(c, area);
                },
            }
        },
        None => {
            lemma_next_block_draws(c, area);
        },
    }
}

proof fn lemma_next_block_draws(c: CursorModel, area: Option<Rectangle>)
    ensures
        match c.next_block() {
            CursorStep::Chunk(chunk, behind) => behind.image is Some && drawing(
                c.input,
                c.global,
                c.transparent,
                area,
            ) == behind.pending_behind(chunk, area),
            CursorStep::Done => drawing(c.input, c.global, c.transparent, area) == Some(
                Seq::<PixelModel>::empty(),
            ),
            CursorStep::Undefined => drawing(c.input, c.global, c.transparent, area) is None,
        },
    decreases c.input.len(), 0nat,
{
    if segment_supported(c.input) {
        lemma_segment_shrinks(c.input);
        match segment_model(c.input) {
            Ok((rest, SegmentModel::Image(image))) => {
                if let Some(colors) = image_colors(image, c.global) {
                    let started = c.start_image(image, colors, rest);
                    law_next_chunk_is_pending(started, area);
                    let indices = lzw_indices(image_stream(image));
                    assert(Seq::<u8>::empty() + indices =~= indices);
                }
            },
            Ok((rest, SegmentModel::Extension(_))) => {
                law_next_chunk_is_pending(CursorModel { input: rest, image: None, ..c }, area);
            },
            _ => {},
        }
    }
}

impl<'a> FrameCursor<'a> {
    pub closed spec fn wf(&self) -> bool {
        self.image matches Some((_, decoder)) ==> decoder.wf()
    }
}

impl<'a> View for FrameCursor<'a> {
    type V = CursorModel;

    closed spec fn view(&self) -> CursorModel {
        CursorModel {
            input: self.input@,
            global: view_of(self.global),
            transparent: self.transparent,
            image: match self.image {
                Some((placement, decoder)) => Some((placement@, decoder@)),
                None => None,
            },
        }
    }
}

impl<'a> FrameCursor<'a> {
    /// Decodes the next colour indices of the frame.
    pub fn next_chunk(&mut self) -> (res: DrawStep)
        requires
            old(self).wf(),
        ensures
            final(self).wf(),
            match old(self)@.next() {
                CursorStep::Chunk(chunk, behind) => res matches DrawStep::Chunk(got) && got@
                    == chunk && final(self)@ == behind,
                CursorStep::Done => res is Done && final(self)@.next() is Done,
                CursorStep::Undefined => res is Undefined && final(self)@.next() is Undefined,
            },
            res is Chunk ==> final(self)@.image is Some,
    {
        proof {
            law_next_chunk_is_pending(self@, None);
        }
        loop
            invariant
                self.wf(),
                self@.next() == old(self)@.next(),
            decreases self.input@.len(),
        {
            let ghost c = self@;
            if let Some((_, decoder)) = &mut self.image {
                if let Ok(Some(chunk)) = decoder.decode_next() {
                    return DrawStep::Chunk(chunk);
                }
            }
            self.image = None;
            let ghost d = self@;
            proof {
                lemma_next_block_ignores_image(c, d);
            }
            if !Segment::is_supported(self.input) {
                return DrawStep::Undefined;
            }
            proof {
                lemma_segment_shrinks(self.input@);
            }
            let (rest, segment) = match Segment::parse(self.input) {
                Ok(parsed) => parsed,
                Err(_) => {
                    return DrawStep::Done;
                },
            };
            match *segment {
                Segment::Extension(ExtensionBlock::GraphicControl(_)) | Segment::Trailer => {
                    // overflows to the next frame
                    return DrawStep::Done;
                },
                Segment::Image(image) => {
                    let colors = match image.local_color_table {
                        Some(table) => table,
                        None => match self.global {
                            Some(table) => table,
                            None => {
                                return DrawStep::Undefined;
                            },
                        },
                    };
                    proof {
                        lemma_image_data_is_chain(self.input@.skip(1));
                    }
                    let placement = Placement {
                        left: image.left,
                        top: image.top,
                        width: image.width,
                        transparent: self.transparent,
                        colors,
                        count: 0,
                    };
                    let raw_image_data = LenPrefixRawDataView::new(image.image_data);
                    let decoder = Decoder::new(raw_image_data, image.lzw_min_code_size);
                    self.image = Some((placement, decoder));
                    self.input = rest;
                },
                Segment::Extension(_) => {
                    self.input = rest;
                },
            }
        }
    }

    /// Lays out the next colour index of the image that is being drawn.
    pub fn place(&mut self, color_index: u8) -> (res: Placed)
        requires
            old(self).wf(),
            old(self)@.image is Some,
        ensures
            final(self).wf(),
            res@ == (old(self)@.image->0).0.place(color_index, None),
            final(self)@ == old(self)@.laid_out(!(res is Undefined)),
    {
        match &mut self.image {
            Some((placement, _)) => placement.place(color_index),
            None => Placed::Undefined,
        }
    }

    /// Lays out the next colour index of the image that is being drawn, when only `area` is
    /// drawn.
    pub fn place_within(&mut self, color_index: u8, area: &Rectangle) -> (res: Placed)
        requires
            old(self).wf(),
            old(self)@.image is Some,
        ensures
            final(self).wf(),
            res@ == (old(self)@.image->0).0.place(color_index, Some(*area)),
            final(self)@ == old(self)@.laid_out(!(res is Undefined)),
    {
        match &mut self.image {
            Some((placement, _)) => placement.place_within(color_index, area),
            None => Placed::Undefined,
        }
    }
}

impl CursorModel {
    /// The state when the next index has been laid out, or, if `done` is false, has not.
    pub open spec fn laid_out(self, done: bool) -> CursorModel {
        match self.image {
            Some((placement, stream)) if done => CursorModel {
                image: Some((placement.step(), stream)),
                ..self
            },
            _ => self,
        }
    }
}

/// The next block is found without regard to the image before.
proof fn lemma_next_block_ignores_image(c: CursorModel, d: CursorModel)
    requires
        c.input == d.input,
        c.global == d.global,
        c.transparent == d.transparent,
    ensures
        c.next_block() == d.next_block(),
{
}

impl CursorModel {
    /// The bits of the image that are still to be decoded.
    pub open spec fn bits_left(self) -> nat {
        match self.image {
            Some((_, stream)) => stream.bits.len(),
            None => 0,
        }
    }
}

/// Decoding colour indices takes blocks or bits.
pub proof fn lemma_next_shrinks_cursor(c: CursorModel)
    ensures
        c.next() matches CursorStep::Chunk(_, behind) ==> {
            ||| behind.input.len() < c.input.len()
            ||| behind.input == c.input && behind.bits_left() < c.bits_left()
        },
    decreases c.input.len(), 1nat,
{
    if let Some((_, stream)) = c.image {
        lemma_next_shrinks(stream);
    }
    lemma_next_block_shrinks(c);
}

proof fn lemma_next_block_shrinks(c: CursorModel)
    ensures
        c.next_block() matches CursorStep::Chunk(_, behind) ==> behind.input.len() < c.input.len(),
    decreases c.input.len(), 0nat,
{
    if segment_supported(c.input) {
        lemma_segment_shrinks(c.input);
        match segment_model(c.input) {
            Ok((rest, SegmentModel::Image(image))) => {
                if let Some(colors) = image_colors(image, c.global) {
                    lemma_next_shrinks_cursor(c.start_image(image, colors, rest));
                }
            },
            Ok((rest, SegmentModel::Extension(_))) => {
                lemma_next_shrinks_cursor(CursorModel { input: rest, image: None, ..c });
            },
            _ => {},
        }
    }
}

/// Laying out the first of the decoded indices draws the first of the pending pixels.
pub proof fn law_placing_draws_pending(c: CursorModel, chunk: Seq<u8>, area: Option<Rectangle>)
    requires
        c.image is Some,
        chunk.len() > 0,
    ensures
        match (c.image->0).0.place(chunk[0], area) {
            PlacedModel::Drawn(pixel) => c.pending_behind(chunk, area) == both(
                Some(seq![pixel]),
                c.laid_out(true).pending_behind(chunk.skip(1), area),
            ),
            PlacedModel::Skipped => c.pending_behind(chunk, area) == c.laid_out(true).pending_behind(
                chunk.skip(1),
                area,
            ),
            PlacedModel::Undefined => c.pending_behind(chunk, area) is None,
        },
{
    let (placement, stream) = c.image->0;
    let all = chunk + lzw_indices(stream);
    assert(all.skip(1) =~= chunk.skip(1) + lzw_indices(stream));
    if let PlacedModel::Drawn(pixel) = placement.place(chunk[0], area) {
        if let (Some(a), Some(b)) = (
            pixels_of(placement.step(), all.skip(1), area),
            drawing(c.input, c.global, c.transparent, area),
        ) {
            assert(seq![pixel] + a + b =~= seq![pixel] + (a + b));
        }
    }
}

proof fn lemma_drawn(done: Seq<PixelModel>, pixel: PixelModel, rest: Option<Seq<PixelModel>>)
    ensures
        both(Some(done), both(Some(seq![pixel]), rest)) == both(Some(done.push(pixel)), rest),
{
    if let Some(pixels) = rest {
        assert(done + (seq![pixel] + pixels) =~= done.push(pixel) + pixels);
    }
}

proof fn lemma_after_nothing(pixels: Option<Seq<PixelModel>>)
    ensures
        both(Some(Seq::empty()), pixels) == pixels,
{
    if let Some(pixels) = pixels {
        assert(Seq::<PixelModel>::empty() + pixels =~= pixels);
    }
}

/// A picture of three bytes for each pixel, row by row, with one more pixel drawn.
///
/// A pixel that lies behind the end of the picture is dropped; one that is right of it falls on a
/// later row.
pub open spec fn store(canvas: Seq<u8>, screen_width: u16, pixel: PixelModel) -> Seq<u8> {
    let i = 3 * (pixel.y * screen_width + pixel.x);
    if i + 2 < canvas.len() {
        canvas.update(i, pixel.color.0).update(i + 1, pixel.color.1).update(i + 2, pixel.color.2)
    } else {
        canvas
    }
}

/// A picture with a run of pixels drawn, one after the other.
pub open spec fn store_all(
    canvas: Seq<u8>,
    screen_width: u16,
    pixels: Seq<PixelModel>,
) -> Seq<u8>
    decreases pixels.len(),
{
    if pixels.len() == 0 {
        canvas
    } else {
        store(store_all(canvas, screen_width, pixels.drop_last()), screen_width, pixels.last())
    }
}

/// A black picture.
pub open spec fn blank(width: u16, height: u16) -> Seq<u8> {
    Seq::new((3 * (width * height)) as nat, |i: int| 0u8)
}

/// The picture of a screen fits into memory.
pub open spec fn picture_fits(width: u16, height: u16) -> bool {
    3 * (width * height) <= isize::MAX
}

/// Draws a pixel into a picture.
fn store_pixel(canvas: &mut Vec<u8>, screen_width: u16, pixel: Pixel)
    requires
        old(canvas)@.len() % 3 == 0,
    ensures
        final(canvas)@ == store(old(canvas)@, screen_width, pixel@),
{
    let ghost y = pixel.y as int;
    let ghost w = screen_width as int;
    assert(0 <= y * w <= 0xffff * 0xffff) by (nonlinear_arith)
        requires
            0 <= y <= 0xffff,
            0 <= w <= 0xffff,
    ;
    let at = pixel.y as usize * screen_width as usize + pixel.x as usize;
    if at < canvas.len() / 3 {
        canvas[3 * at] = pixel.color.r();
        canvas[3 * at + 1] = pixel.color.g();
        canvas[3 * at + 2] = pixel.color.b();
    }
}

/// One frame of an animation.
#[derive(Eq, PartialEq, Ord, PartialOrd, Hash)]
pub struct Frame<'a, C> {
    pub delay_centis: u16,
    pub is_transparent: bool,
    pub transparent_color_index: u8,
    pub global_color_table: Option<ColorTable<'a>>,
    pub header: &'a Header,
    /// What follows the graphic control extension of the frame.
    pub raw_data: &'a [u8],
    pub frame_index: usize,
    pub _marker: PhantomData<C>,
}

impl<'a, C: Clone> Clone for Frame<'a, C> {
    fn clone(&self) -> (res: Self)
        ensures
            res == *self,
    {
        Frame {
            delay_centis: self.delay_centis,
            is_transparent: self.is_transparent,
            transparent_color_index: self.transparent_color_index,
            global_color_table: self.global_color_table,
            header: self.header,
            raw_data: self.raw_data,
            frame_index: self.frame_index,
            _marker: self._marker,
        }
    }
}

impl<'a, C: Copy> Copy for Frame<'a, C> {

}

impl<'a, C> Frame<'a, C> {
    /// The colour index that leaves a pixel as it is.
    pub open spec fn transparent(&self) -> Option<u8> {
        if self.is_transparent {
            Some(self.transparent_color_index)
        } else {
            None
        }
    }

    /// The pixels of the frame, in the order in which they are drawn; all of them, or those
    /// within an area.
    pub open spec fn pixels(&self, area: Option<Rectangle>) -> Option<Seq<PixelModel>> {
        drawing(self.raw_data@, view_of(self.global_color_table), self.transparent(), area)
    }

    /// The frame can be drawn, and its picture fits into memory.
    pub open spec fn decodable(&self) -> bool {
        self.pixels(None) is Some && picture_fits(self.header.width, self.header.height)
    }

    /// The picture of the frame on a black screen.
    pub open spec fn picture(&self) -> Seq<u8> {
        store_all(
            blank(self.header.width, self.header.height),
            self.header.width,
            self.pixels(None)->0,
        )
    }

    /// The size of the screen.
    pub fn size(&self) -> (res: Size)
        ensures
            res == (Size { width: self.header.width as u32, height: self.header.height as u32 }),
    {
        Size { width: self.header.width as u32, height: self.header.height as u32 }
    }

    /// A walk through the images of the frame.
    pub fn cursor(&self) -> (res: FrameCursor<'a>)
        ensures
            res.wf(),
            res@ == (CursorModel {
                input: self.raw_data@,
                global: view_of(self.global_color_table),
                transparent: self.transparent(),
                image: None,
            }),
            forall|area: Option<Rectangle>| #[trigger] res@.pending(area) == self.pixels(area),
    {
        FrameCursor {
            input: self.raw_data,
            global: self.global_color_table,
            transparent: if self.is_transparent {
                Some(self.transparent_color_index)
            } else {
                None
            },
            image: None,
        }
    }

    /// The picture of the frame on a black screen, if the frame can be drawn.
    pub fn checked_decode_to_rgb(&self) -> (res: Option<Vec<u8>>)
        ensures
            res is Some <==> self.decodable(),
            res matches Some(picture) ==> picture@ == self.picture(),
    {
        let screen_width = self.header.width;
        let screen_height = self.header.height;
        let ghost w = screen_width as int;
        let ghost h = screen_height as int;
        assert(0 <= w * h <= 0xffff * 0xffff) by (nonlinear_arith)
            requires
                0 <= w <= 0xffff,
                0 <= h <= 0xffff,
        ;
        let count = screen_width as usize * screen_height as usize;
        if count > isize::MAX as usize / 3 {
            return None;
        }
        let mut picture: Vec<u8> = vec![0u8;count * 3];
        assert(picture@ =~= blank(screen_width, screen_height));
        let mut cursor = self.cursor();
        let ghost mut done: Seq<PixelModel> = Seq::empty();
        proof {
            lemma_after_nothing(cursor@.pending(None));
        }
        loop
            invariant
                cursor.wf(),
                picture@.len() == 3 * (screen_width * screen_height),
                picture@ == store_all(blank(screen_width, screen_height), screen_width, done),
                self.pixels(None) == both(Some(done), cursor@.pending(None)),
                screen_width == self.header.width,
                screen_height == self.header.height,
                picture_fits(screen_width, screen_height),
            decreases cursor@.input.len(), cursor@.bits_left(),
        {
            proof {
                law_next_chunk_is_pending(cursor@, None);
                lemma_next_shrinks_cursor(cursor@);
            }
            match cursor.next_chunk() {
                DrawStep::Chunk(chunk) => {
                    let ghost behind = cursor@;
                    let mut i: usize = 0;
                    assert(chunk@.skip(0) =~= chunk@);
                    while i < chunk.len()
                        invariant
                            i <= chunk@.len(),
                            cursor.wf(),
                            cursor@.image is Some,
                            cursor@.input == behind.input,
                            cursor@.bits_left() == behind.bits_left(),
                            picture@.len() == 3 * (screen_width * screen_height),
                            picture@ == store_all(
                                blank(screen_width, screen_height),
                                screen_width,
                                done,
                            ),
                            self.pixels(None) == both(
                                Some(done),
                                cursor@.pending_behind(chunk@.skip(i as int), None),
                            ),
                            screen_width == self.header.width,
                        decreases chunk@.len() - i,
                    {
                        let ghost before = cursor@;
                        let ghost left = chunk@.skip(i as int);
                        let color_index = chunk[i];
                        let placed = cursor.place(color_index);
                        proof {
                            law_placing_draws_pending(before, left, None);
                            assert(left.skip(1) =~= chunk@.skip(i + 1));
                        }
                        match placed {
                            Placed::Drawn(pixel) => {
                                store_pixel(&mut picture, screen_width, pixel);
                                proof {
                                    lemma_drawn(
                                        done,
                                        pixel@,
                                        cursor@.pending_behind(left.skip(1), None),
                                    );
                                    assert(done.push(pixel@).drop_last() =~= done);
                                    done = done.push(pixel@);
                                }
                            },
                            Placed::Skipped => {},
                            Placed::Undefined => {
                                return None;
                            },
                        }
                        i += 1;
                    }
                    assert(chunk@.skip(i as int) =~= Seq::<u8>::empty());
                },
                DrawStep::Done => {
                    assert(done + Seq::<PixelModel>::empty() =~= done);
                    return Some(picture);
                },
                DrawStep::Undefined => {
                    return None;
                },
            }
        }
    }

    /// The picture of the frame on a black screen: three bytes for each pixel, row by row.
    pub fn decode_to_rgb(&self) -> (res: Result<Vec<u8>, ParseError>)
        requires
            self.decodable(),
        ensures
            res matches Ok(picture) && picture@ == self.picture(),
    {
        Ok(self.checked_decode_to_rgb().unwrap())
    }
}

} // verus!
