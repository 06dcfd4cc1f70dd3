//! A whole file and the frames in it.

use crate::color::Rgb888;
use crate::error::{view_of, ParseError};
use crate::frame::Frame;
use crate::header::{raw_gif_model, RawGif, RawGifModel};
use crate::segment::{
    lemma_next_graphic_control_is_tail, lemma_segment_shrinks, next_graphic_control, segment_model,
    segment_supported, ExtensionBlock, ExtensionModel, GraphicControl, Segment, SegmentModel,
};
use std::marker::PhantomData;
use vstd::prelude::*;

verus! {

/// A GIF file.
#[derive(Eq, PartialEq, Ord, PartialOrd, Hash, Debug)]
pub struct Gif<'a, C = Rgb888> {
    raw_gif: RawGif<'a>,
    color_type: PhantomData<C>,
}

impl<'a, C> View for Gif<'a, C> {
    type V = RawGifModel;

    closed spec fn view(&self) -> RawGifModel {
        self.raw_gif@
    }
}

impl<'a, C: Clone> Clone for Gif<'a, C> {
    fn clone(&self) -> (res: Self)
        ensures
            res@ == self@,
    {
        Gif { raw_gif: self.raw_gif, color_type: PhantomData }
    }
}

impl<'a, C: Copy> Copy for Gif<'a, C> {

}

impl<'a, C> Gif<'a, C> {
    /// Reads the header of a file.
    pub fn from_slice(input: &'a [u8]) -> (res: Result<Self, ParseError>)
        ensures
            match raw_gif_model(input@) {
                Ok(model) => res matches Ok(gif) && gif@ == model,
                Err(error) => res matches Err(got) && got == error,
            },
    {
        let raw_gif = RawGif::from_slice(input)?;
        Ok(Self { raw_gif, color_type: PhantomData })
    }

    /// The frames of the file, from the first on.
    pub fn frames(&'a self) -> (res: FrameIterator<'a, C>)
        ensures
            res.wf(),
            res@ == (FramesModel {
                gif: self@,
                frame_index: 0,
                remaining: self@.raw_block_data,
            }),
    {
        FrameIterator::new(self)
    }

    /// The width of the screen.
    pub fn width(&self) -> (res: u16)
        ensures
            res == self@.header.width,
    {
        self.raw_gif.header().width
    }

    /// The height of the screen.
    pub fn height(&self) -> (res: u16)
        ensures
            res == self@.header.height,
    {
        self.raw_gif.header().height
    }
}

/// Walks through the frames of a file.
pub struct FrameIterator<'a, C> {
    gif: &'a Gif<'a, C>,
    frame_index: usize,
    remain_raw_data: &'a [u8],
}

/// Where a walk through the frames of a file stands.
pub ghost struct FramesModel {
    pub gif: RawGifModel,
    /// The number of frames that have come out.
    pub frame_index: nat,
    /// The blocks that are still to be read.
    pub remaining: Seq<u8>,
}

/// What a walk through the frames finds next.
pub ghost enum NextFrame {
    /// A frame, and what follows its graphic control extension.
    Found(GraphicControl, Seq<u8>),
    /// Another block where the graphic control extension should be, and what follows it.
    Other(Seq<u8>),
    /// No block that can be read.
    Nothing,
}

impl FramesModel {
    /// What comes next is no extension of an unknown label.
    pub open spec fn supported(self) -> bool {
        self.remaining.len() > 0 ==> (next_graphic_control(self.remaining) matches Ok(s)
            ==> segment_supported(s))
    }

    /// What comes next.
    pub open spec fn upcoming(self) -> NextFrame
        recommends
            self.supported(),
    {
        if self.remaining.len() == 0 {
            NextFrame::Nothing
        } else {
            match next_graphic_control(self.remaining) {
                Ok(s) => match segment_model(s) {
                    Ok(
                        (rest, SegmentModel::Extension(ExtensionModel::GraphicControl(control))),
                    ) => NextFrame::Found(control, rest),
                    Ok((rest, _)) => NextFrame::Other(rest),
                    Err(_) => NextFrame::Nothing,
                },
                Err(_) => NextFrame::Nothing,
            }
        }
    }

    /// The state behind what comes next.
    pub open spec fn advanced(self) -> FramesModel {
        match self.upcoming() {
            NextFrame::Found(_, rest) => FramesModel {
                frame_index: self.frame_index + 1,
                remaining: rest,
                ..self
            },
            NextFrame::Other(rest) => FramesModel { remaining: rest, ..self },
            NextFrame::Nothing => self,
        }
    }

    /// `frame` is the frame of this graphic control extension at this point of the walk.
    pub open spec fn is_frame<C>(
        self,
        frame: Frame<'_, C>,
        control: GraphicControl,
        rest: Seq<u8>,
    ) -> bool {
        &&& frame.delay_centis == control.delay_centis
        &&& frame.is_transparent == control.is_transparent
        &&& frame.transparent_color_index == control.transparent_color_index
        &&& view_of(frame.global_color_table) == self.gif.global_color_table
        &&& *frame.header == self.gif.header
        &&& frame.raw_data@ == rest
        &&& frame.frame_index == self.frame_index
    }
}

/// A step of the walk reads blocks off the front of what remains, or leaves it as it is.
pub proof fn lemma_walk_shrinks(m: FramesModel)
    requires
        m.supported(),
    ensures
        match m.upcoming() {
            NextFrame::Found(_, rest) => rest.len() < m.remaining.len() && rest
                == m.remaining.skip(m.remaining.len() - rest.len()),
            NextFrame::Other(rest) => rest.len() < m.remaining.len() && rest == m.remaining.skip(
                m.remaining.len() - rest.len(),
            ),
            NextFrame::Nothing => true,
        },
{
    if m.remaining.len() > 0 {
        lemma_next_graphic_control_is_tail(m.remaining);
        if let Ok(s) = next_graphic_control(m.remaining) {
            lemma_segment_shrinks(s);
            if let Ok((rest, _)) = segment_model(s) {
                assert(rest =~= m.remaining.skip(m.remaining.len() - rest.len()));
            }
        }
    }
}

impl<'a, C> FrameIterator<'a, C> {
    /// The frames that have come out took one byte each at least.
    pub closed spec fn wf(&self) -> bool {
        self.frame_index + self.remain_raw_data@.len() <= usize::MAX
    }
}

impl<'a, C> View for FrameIterator<'a, C> {
    type V = FramesModel;

    closed spec fn view(&self) -> FramesModel {
        FramesModel {
            gif: self.gif@,
            frame_index: self.frame_index as nat,
            remaining: self.remain_raw_data@,
        }
    }
}

impl<'a, C> FrameIterator<'a, C> {
    fn new(gif: &'a Gif<'a, C>) -> (res: Self)
        ensures
            res.wf(),
            res@ == (FramesModel { gif: gif@, frame_index: 0, remaining: gif@.raw_block_data }),
    {
        let remain_raw_data = gif.raw_gif.raw_block_data();
        assert(remain_raw_data.len() <= usize::MAX);
        Self { gif, frame_index: 0, remain_raw_data }
    }

    /// Whether the walk does not run into an extension of an unknown label next.
    pub fn is_supported(&self) -> (res: bool)
        ensures
            res == self@.supported(),
    {
        if self.remain_raw_data.is_empty() {
            return true;
        }
        match Segment::skip_to_next_graphic_control(self.remain_raw_data) {
            Ok(input) => Segment::is_supported(input),
            Err(_) => true,
        }
    }

    /// The next frame.
    ///
    /// None comes where no further graphic control extension can be found.
    pub fn next(&mut self) -> (res: Option<Frame<'a, C>>)
        requires
            old(self).wf(),
            old(self)@.supported(),
        ensures
            final(self).wf(),
            final(self)@ == old(self)@.advanced(),
            match old(self)@.upcoming() {
                NextFrame::Found(control, rest) => res matches Some(frame) && old(self)@.is_frame(
                    frame,
                    control,
                    rest,
                ),
                _ => res is None,
            },
    {
        if self.remain_raw_data.is_empty() {
            return None;
        }
        proof {
            lemma_walk_shrinks(self@);
        }
        let input = self.remain_raw_data;
        let input0 = match Segment::skip_to_next_graphic_control(input) {
            Ok(input0) => input0,
            Err(_) => {
                return None;
            },
        };
        let (input00, seg) = match Segment::parse(input0) {
            Ok(parsed) => parsed,
            Err(_) => {
                return None;
            },
        };
        self.remain_raw_data = input00;
        if let Segment::Extension(ExtensionBlock::GraphicControl(ctrl)) = *seg {
            let frame = Frame {
                delay_centis: ctrl.delay_centis,
                is_transparent: ctrl.is_transparent,
                transparent_color_index: ctrl.transparent_color_index,
                global_color_table: self.gif.raw_gif.global_color_table(),
                header: self.gif.raw_gif.header(),
                raw_data: input00,
                frame_index: self.frame_index,
                _marker: PhantomData,
            };
            self.frame_index += 1;
            Some(frame)
        } else {
            None
        }
    }
}

} // verus!
