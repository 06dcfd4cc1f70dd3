//! Where the colour indices of an image end up on the screen.

use crate::color::{color_at, ColorTable, Rgb888};
use crate::geometry::Rectangle;
use vstd::prelude::*;

verus! {

/// A colour at a place of the screen.
#[derive(Copy, Clone, Eq, PartialEq, Debug)]
pub struct Pixel {
    pub x: u16,
    pub y: u16,
    pub color: Rgb888,
}

/// The content of a [`Pixel`].
pub ghost struct PixelModel {
    pub x: nat,
    pub y: nat,
    pub color: (u8, u8, u8),
}

impl View for Pixel {
    type V = PixelModel;

    open spec fn view(&self) -> PixelModel {
        PixelModel { x: self.x as nat, y: self.y as nat, color: self.color@ }
    }
}

/// What becomes of one colour index.
#[derive(Copy, Clone, Eq, PartialEq, Debug)]
pub enum Placed {
    /// It is drawn.
    Drawn(Pixel),
    /// It is left out.
    Skipped,
    /// It has no place or no colour: the image is wrong.
    Undefined,
}

/// The content of a [`Placed`].
pub ghost enum PlacedModel {
    Drawn(PixelModel),
    Skipped,
    Undefined,
}

impl View for Placed {
    type V = PlacedModel;

    open spec fn view(&self) -> PlacedModel {
        match *self {
            Placed::Drawn(pixel) => PlacedModel::Drawn(pixel@),
            Placed::Skipped => PlacedModel::Skipped,
            Placed::Undefined => PlacedModel::Undefined,
        }
    }
}

/// Lays the colour indices of one image out, row by row.
#[derive(Copy, Clone, Eq, PartialEq, Debug)]
pub struct Placement<'a> {
    pub left: u16,
    pub top: u16,
    pub width: u16,
    /// The index that leaves a pixel as it is.
    pub transparent: Option<u8>,
    pub colors: ColorTable<'a>,
    /// How many indices have been laid out.
    pub count: u32,
}

/// The fields of a [`Placement`].
pub ghost struct PlacementModel {
    pub left: u16,
    pub top: u16,
    pub width: u16,
    pub transparent: Option<u8>,
    pub colors: Seq<u8>,
    pub count: u32,
}

impl<'a> View for Placement<'a> {
    type V = PlacementModel;

    open spec fn view(&self) -> PlacementModel {
        PlacementModel {
            left: self.left,
            top: self.top,
            width: self.width,
            transparent: self.transparent,
            colors: self.colors@,
            count: self.count,
        }
    }
}

impl PlacementModel {
    /// The column of the next index.
    pub open spec fn column(self) -> nat {
        self.left as nat + self.count as nat % self.width as nat
    }

    /// The row of the next index; rows are counted in sixteen bits.
    pub open spec fn row(self) -> nat {
        self.top as nat + (self.count as nat / self.width as nat) % 0x1_0000
    }

    /// The next index has a place: the image is not empty, and column and row are numbers of
    /// sixteen bits.
    pub open spec fn has_place(self) -> bool {
        &&& self.width > 0
        &&& self.column() <= u16::MAX
        &&& self.row() <= u16::MAX
    }

    /// The pixel of the next index, if that is `color_index`.
    pub open spec fn pixel(self, color_index: u8) -> PlacedModel {
        match color_at(self.colors, color_index) {
            Some(color) => PlacedModel::Drawn(
                PixelModel { x: self.column(), y: self.row(), color },
            ),
            None => PlacedModel::Undefined,
        }
    }

    /// What becomes of the next index, if that is `color_index`: it is drawn, or drawn only
    /// within an area.
    ///
    /// The colour of a pixel outside the area is not looked up.
    pub open spec fn place(self, color_index: u8, area: Option<Rectangle>) -> PlacedModel {
        if self.count == u32::MAX {
            PlacedModel::Undefined
        } else if self.transparent == Some(color_index) {
            PlacedModel::Skipped
        } else if !self.has_place() {
            PlacedModel::Undefined
        } else {
            match area {
                None => self.pixel(color_index),
                Some(area) => if !area.decides(self.column() as int, self.row() as int) {
                    PlacedModel::Undefined
                } else if area.covers(self.column() as int, self.row() as int) {
                    self.pixel(color_index)
                } else {
                    PlacedModel::Skipped
                },
            }
        }
    }

    /// The state when one more index has been laid out.
    pub open spec fn step(self) -> PlacementModel {
        PlacementModel { count: (self.count + 1) as u32, ..self }
    }
}

/// The pixels of a run of colour indices, all of them or those within an area, if each index has
/// one or is left out.
pub open spec fn pixels_of(
    p: PlacementModel,
    indices: Seq<u8>,
    area: Option<Rectangle>,
) -> Option<Seq<PixelModel>>
    decreases indices.len(),
{
    if indices.len() == 0 {
        Some(Seq::empty())
    } else {
        match p.place(indices[0], area) {
            PlacedModel::Drawn(pixel) => match pixels_of(p.step(), indices.skip(1), area) {
                Some(pixels) => Some(seq![pixel] + pixels),
                None => None,
            },
            PlacedModel::Skipped => pixels_of(p.step(), indices.skip(1), area),
            PlacedModel::Undefined => None,
        }
    }
}

impl<'a> Placement<'a> {
    /// The column and the row of the next index.
    fn position(&self) -> (res: Option<(u16, u16)>)
        ensures
            match res {
                Some((x, y)) => self@.has_place() && x == self@.column() && y == self@.row(),
                None => !self@.has_place(),
            },
    {
        if self.width == 0 {
            return None;
        }
        let column: u32 = self.count % (self.width as u32);
        let row: u32 = self.count / (self.width as u32) % 0x1_0000;
        let x: u32 = self.left as u32 + column;
        let y: u32 = self.top as u32 + row;
        if x > u16::MAX as u32 || y > u16::MAX as u32 {
            return None;
        }
        Some((x as u16, y as u16))
    }

    /// The pixel of a colour index at a place.
    fn color_pixel(&self, color_index: u8, x: u16, y: u16) -> (res: Placed)
        requires
            self@.has_place(),
            x == self@.column(),
            y == self@.row(),
        ensures
            res@ == self@.pixel(color_index),
    {
        match self.colors.get(color_index) {
            Some(color) => Placed::Drawn(Pixel { x, y, color }),
            None => Placed::Undefined,
        }
    }

    /// Lays out the next colour index.
    pub fn place(&mut self, color_index: u8) -> (res: Placed)
        ensures
            res@ == old(self)@.place(color_index, None),
            final(self)@ == (if res is Undefined {
                old(self)@
            } else {
                old(self)@.step()
            }),
    {
        if self.count == u32::MAX {
            return Placed::Undefined;
        }
        if self.is_transparent(color_index) {
            self.count += 1;
            return Placed::Skipped;
        }
        let placed = match self.position() {
            Some((x, y)) => self.color_pixel(color_index, x, y),
            None => Placed::Undefined,
        };
        if let Placed::Drawn(_) = placed {
            self.count += 1;
        }
        placed
    }

    /// Lays out the next colour index when only `area` is drawn.
    pub fn place_within(&mut self, color_index: u8, area: &Rectangle) -> (res: Placed)
        ensures
            res@ == old(self)@.place(color_index, Some(*area)),
            final(self)@ == (if res is Undefined {
                old(self)@
            } else {
                old(self)@.step()
            }),
    {
        if self.count == u32::MAX {
            return Placed::Undefined;
        }
        if self.is_transparent(color_index) {
            self.count += 1;
            return Placed::Skipped;
        }
        let placed = match self.position() {
            Some((x, y)) => if !area.can_decide(x, y) {
                Placed::Undefined
            } else if area.contains(x, y) {
                self.color_pixel(color_index, x, y)
            } else {
                Placed::Skipped
            },
            None => Placed::Undefined,
        };
        match placed {
            Placed::Undefined => {},
            _ => {
                self.count += 1;
            },
        }
        placed
    }

    fn is_transparent(&self, color_index: u8) -> (res: bool)
        ensures
            res == (self@.transparent == Some(color_index)),
    {
        match self.transparent {
            Some(index) => index == color_index,
            None => false,
        }
    }
}

} // verus!
