//! What is drawn, told from the blocks that were written and from the numbers in them.
//!
//! Places, colours and bytes are computed here by plain arithmetic.

use crate::bitstream::bits_of;
use crate::error::ParseError;
use crate::format_laws::{
    application_says, are_blocks, chain_bytes, control_bytes, header_bytes, image_bytes, joined,
    law_application_is_read, law_chain_is_read, law_color_bytes, law_comment_is_read,
    law_control_is_read, law_file_is_cut, law_header_is_read, law_image_is_read,
    law_plain_text_is_read, law_segment_is_read,
    law_skip_ends, law_skip_passes_extensions, law_skip_passes_images, law_skip_stops_at_control,
    law_unsupported, table_has_size,
};
use crate::frame::{blank, drawing, store, store_all, CursorModel, CursorStep, Frame};
use crate::geometry::Rectangle;
use crate::gif::{FramesModel, NextFrame};
use crate::header::{raw_gif_model, Header};
use crate::lzw::{decoded, lzw_indices, lzw_next, lzw_start, LzwStep};
use crate::placement::{
    pixels_of, Pixel, PixelModel, Placed, PlacedModel, Placement, PlacementModel,
};
use crate::segment::{
    extension_model, image_model, next_graphic_control, segment_model, segment_supported,
    ExtensionModel, GraphicControl, ImageModel, SegmentModel,
};
use vstd::prelude::*;

verus! {

/// The column of the `k`-th of the next colour indices.
pub open spec fn column_of(p: PlacementModel, k: int) -> int {
    p.left + (p.count + k) % (p.width as int)
}

/// The row of the `k`-th of the next colour indices, counted in sixteen bits.
pub open spec fn row_of(p: PlacementModel, k: int) -> int {
    p.top + ((p.count + k) / (p.width as int)) % 65536
}

/// An area covers a place.
pub open spec fn in_area(area: Rectangle, x: int, y: int) -> bool {
    &&& area.left <= x && x - area.left < area.size.width
    &&& area.top <= y && y - area.top < area.size.height
}

/// It can be told whether an area covers a place: the place is left of it or above it, or the area
/// is empty, or its size and the corner opposite to its own fit into 32 bits with a sign.
pub open spec fn tells(area: Rectangle, x: int, y: int) -> bool {
    ||| x < area.left
    ||| y < area.top
    ||| area.size.width == 0
    ||| area.size.height == 0
    ||| {
        &&& area.size.width <= 0x7fff_ffff
        &&& area.size.height <= 0x7fff_ffff
        &&& area.left + area.size.width <= 0x7fff_ffff
        &&& area.top + area.size.height <= 0x7fff_ffff
    }
}

/// An area covers the places that are less than its size right of and below its corner.
pub proof fn law_area(area: Rectangle, x: int, y: int)
    ensures
        area.covers(x, y) <==> in_area(area, x, y),
        area.decides(x, y) <==> tells(area, x, y),
{
}

/// The `k`-th of these colour indices is drawn: it is not the transparent one, and its place lies
/// in the area, if only an area is drawn.
pub open spec fn is_kept(
    p: PlacementModel,
    indices: Seq<u8>,
    area: Option<Rectangle>,
    k: int,
) -> bool {
    &&& p.transparent != Some(indices[k])
    &&& area matches Some(area) ==> in_area(area, column_of(p, k), row_of(p, k))
}

/// Which of these colour indices are drawn, from the `k`-th on.
pub open spec fn kept_from(
    p: PlacementModel,
    indices: Seq<u8>,
    area: Option<Rectangle>,
    k: int,
) -> Seq<int>
    decreases indices.len() - k,
{
    if k < 0 || k >= indices.len() {
        Seq::empty()
    } else if is_kept(p, indices, area, k) {
        seq![k] + kept_from(p, indices, area, k + 1)
    } else {
        kept_from(p, indices, area, k + 1)
    }
}

/// It is clear what becomes of the `k`-th of these colour indices: fewer than the greatest number
/// of 32 bits have been laid out, and unless it is transparent it has a column and a row of
/// sixteen bits, it can be told whether the area covers them, and it has a colour if it is drawn.
pub open spec fn is_clear(
    p: PlacementModel,
    indices: Seq<u8>,
    area: Option<Rectangle>,
    k: int,
) -> bool {
    &&& p.count + k < 0xffff_ffff
    &&& p.transparent != Some(indices[k]) ==> {
        &&& p.width > 0
        &&& column_of(p, k) <= 0xffff
        &&& row_of(p, k) <= 0xffff
        &&& area matches Some(area) ==> tells(area, column_of(p, k), row_of(p, k))
        &&& is_kept(p, indices, area, k) ==> 3 * indices[k] + 3 <= p.colors.len()
    }
}

/// A pixel is the one of the `k`-th of these colour indices: it stands in its column and its row,
/// and has the three bytes of the table at its index.
pub open spec fn is_pixel_of(
    pixel: PixelModel,
    p: PlacementModel,
    indices: Seq<u8>,
    k: int,
) -> bool {
    &&& pixel.x == column_of(p, k)
    &&& pixel.y == row_of(p, k)
    &&& pixel.color.0 == p.colors[3 * indices[k]]
    &&& pixel.color.1 == p.colors[3 * indices[k] + 1]
    &&& pixel.color.2 == p.colors[3 * indices[k] + 2]
}

spec fn at(p: PlacementModel, k: int) -> PlacementModel {
    PlacementModel { count: (p.count + k) as u32, ..p }
}

proof fn lemma_pixels_from(
    p: PlacementModel,
    indices: Seq<u8>,
    area: Option<Rectangle>,
    k: int,
)
    requires
        0 <= k <= indices.len(),
        p.count + k <= 0xffff_ffff,
    ensures
        ({
            let got = pixels_of(at(p, k), indices.skip(k), area);
            let kept = kept_from(p, indices, area, k);
            &&& got is Some <==> forall|i: int|
                k <= i < indices.len() ==> is_clear(p, indices, area, i)
            &&& got matches Some(pixels) ==> {
                &&& pixels.len() == kept.len()
                &&& forall|j: int|
                    0 <= j < kept.len() ==> is_pixel_of(#[trigger] pixels[j], p, indices, kept[j])
            }
        }),
    decreases indices.len() - k,
{
    let q = at(p, k);
    let rest = indices.skip(k);
    if k < indices.len() {
        let index = indices[k];
        assert(rest[0] == index);
        assert(rest.skip(1) =~= indices.skip(k + 1));
        law_color_bytes(p.colors, index);
        if let Some(area) = area {
            law_area(area, column_of(p, k), row_of(p, k));
        }
        assert(q.count == p.count + k);
        assert(p.width > 0 ==> q.column() == column_of(p, k) && q.row() == row_of(p, k));
        assert(is_clear(p, indices, area, k) <==> !(q.place(index, area) is Undefined));
        if is_clear(p, indices, area, k) {
            assert(q.step() == at(p, k + 1));
            lemma_pixels_from(p, indices, area, k + 1);
            let got = pixels_of(at(p, k + 1), indices.skip(k + 1), area);
            let kept = kept_from(p, indices, area, k + 1);
            assert((forall|i: int| k <= i < indices.len() ==> is_clear(p, indices, area, i))
                <==> (forall|i: int| k + 1 <= i < indices.len() ==> is_clear(p, indices, area, i)));
            if let Some(pixels) = got {
                if is_kept(p, indices, area, k) {
                    let pixel = q.place(index, area)->Drawn_0;
                    assert(is_pixel_of(pixel, p, indices, k));
                    let all = seq![pixel] + pixels;
                    let ks = seq![k] + kept;
                    assert forall|j: int| 0 <= j < ks.len() implies is_pixel_of(
                        #[trigger] all[j],
                        p,
                        indices,
                        ks[j],
                    ) by {
                        if j > 0 {
                            assert(all[j] == pixels[j - 1]);
                            assert(ks[j] == kept[j - 1]);
                        }
                    }
                }
            }
        } else {
            assert(pixels_of(q, rest, area) is None);
        }
    }
}

/// Colour indices are drawn row by row from the corner of their image on, each in the colour that
/// the three bytes at its place in the table say; the transparent ones, and those outside the area,
/// are passed over. They can be drawn exactly if it is clear what becomes of each.
pub proof fn law_pixels(p: PlacementModel, indices: Seq<u8>, area: Option<Rectangle>)
    ensures
        pixels_of(p, indices, area) is Some <==> forall|k: int|
            0 <= k < indices.len() ==> is_clear(p, indices, area, k),
        pixels_of(p, indices, area) matches Some(pixels) ==> {
            let kept = kept_from(p, indices, area, 0);
            &&& pixels.len() == kept.len()
            &&& forall|j: int|
                0 <= j < kept.len() ==> is_pixel_of(#[trigger] pixels[j], p, indices, kept[j])
        },
{
    assert(indices.skip(0) =~= indices);
    lemma_pixels_from(p, indices, area, 0);
}

/// Laying out one colour index tells what becomes of it, and counts it.
pub proof fn law_place(p: PlacementModel, index: u8, area: Option<Rectangle>)
    ensures
        ({
            let one = seq![index];
            match p.place(index, area) {
                PlacedModel::Drawn(pixel) => is_clear(p, one, area, 0) && is_kept(p, one, area, 0)
                    && is_pixel_of(pixel, p, one, 0),
                PlacedModel::Skipped => is_clear(p, one, area, 0) && !is_kept(p, one, area, 0),
                PlacedModel::Undefined => !is_clear(p, one, area, 0),
            }
        }),
        p.count < 0xffff_ffff ==> p.step().count == p.count + 1,
        p.step().left == p.left,
        p.step().top == p.top,
        p.step().width == p.width,
        p.step().transparent == p.transparent,
        p.step().colors == p.colors,
{
    let one = seq![index];
    assert(one[0] == index);
    law_color_bytes(p.colors, index);
    if let Some(area) = area {
        law_area(area, column_of(p, 0), row_of(p, 0));
    }
    assert(p.width > 0 ==> p.column() == column_of(p, 0) && p.row() == row_of(p, 0));
}

/// The models of pixels, of what becomes of an index, and of a layout have the fields of these.
pub proof fn law_placement_views(pixel: Pixel, placed: Placed, placement: Placement)
    ensures
        pixel@.x == pixel.x,
        pixel@.y == pixel.y,
        pixel@.color == pixel.color@,
        match placed {
            Placed::Drawn(pixel) => placed@ == PlacedModel::Drawn(pixel@),
            Placed::Skipped => placed@ == PlacedModel::Skipped,
            Placed::Undefined => placed@ == PlacedModel::Undefined,
        },
        placement@.left == placement.left,
        placement@.top == placement.top,
        placement@.width == placement.width,
        placement@.transparent == placement.transparent,
        placement@.colors == placement.colors@,
        placement@.count == placement.count,
{
}

/// What is drawn of an image in these colours: its indices from its corner on.
pub open spec fn image_in_colors(
    image: ImageModel,
    blocks: Seq<Seq<u8>>,
    colors: Seq<u8>,
    transparent: Option<u8>,
    area: Option<Rectangle>,
) -> Option<Seq<PixelModel>> {
    pixels_of(
        PlacementModel {
            left: image.left,
            top: image.top,
            width: image.width,
            transparent,
            colors,
            count: 0,
        },
        decoded(image.lzw_min_code_size, joined(blocks)),
        area,
    )
}

/// `all` is what is drawn first followed by what is drawn then, and there is none if there is none
/// of either.
pub open spec fn is_drawn_after(
    all: Option<Seq<PixelModel>>,
    first: Option<Seq<PixelModel>>,
    then: Option<Seq<PixelModel>>,
) -> bool {
    if first is Some && then is Some {
        all == Some(first->0 + then->0)
    } else {
        all is None
    }
}

/// An image is drawn before what follows it: in the colours of its local table if it has one,
/// whatever the global table, and in those of the global table exactly if it has none. Without
/// either it cannot be drawn.
pub proof fn law_image_colors(
    image: ImageModel,
    unused: u8,
    size: u8,
    blocks: Seq<Seq<u8>>,
    more: Seq<u8>,
    global: Option<Seq<u8>>,
    transparent: Option<u8>,
    area: Option<Rectangle>,
)
    requires
        unused < 8,
        table_has_size(image.local_color_table, size),
        are_blocks(blocks),
        image.image_data == chain_bytes(blocks),
    ensures
        ({
            let s = seq![0x2cu8] + image_bytes(image, unused, size, blocks) + more;
            let all = drawing(s, global, transparent, area);
            let behind = drawing(more, global, transparent, area);
            &&& image.local_color_table matches Some(colors) ==> is_drawn_after(
                all,
                image_in_colors(image, blocks, colors, transparent, area),
                behind,
            )
            &&& image.local_color_table is None ==> match global {
                Some(colors) => is_drawn_after(
                    all,
                    image_in_colors(image, blocks, colors, transparent, area),
                    behind,
                ),
                None => all is None,
            }
        }),
{
    let t = image_bytes(image, unused, size, blocks) + more;
    let s = seq![0x2cu8] + image_bytes(image, unused, size, blocks) + more;
    assert(s =~= seq![0x2cu8] + t);
    law_unsupported(s);
    law_image_is_read(image, unused, size, blocks, more);
    law_segment_is_read(0x2c, t);
    law_chain_is_read(blocks, Seq::empty());
    assert(chain_bytes(blocks) + Seq::<u8>::empty() =~= chain_bytes(blocks));
}

/// An extension that is no graphic control is passed over.
pub proof fn law_extension_is_not_drawn(
    t: Seq<u8>,
    rest: Seq<u8>,
    extension: ExtensionModel,
    global: Option<Seq<u8>>,
    transparent: Option<u8>,
    area: Option<Rectangle>,
)
    requires
        t.len() > 0,
        t[0] == 0xfe || t[0] == 0xff || t[0] == 0x01,
        extension_model(t) == Ok::<_, ParseError>((rest, extension)),
    ensures
        drawing(seq![0x21u8] + t, global, transparent, area) == drawing(
            rest,
            global,
            transparent,
            area,
        ),
{
    let s = seq![0x21u8] + t;
    assert(s[1] == t[0]);
    law_unsupported(s);
    law_segment_is_read(0x21, t);
}

/// A frame ends here: the bytes are at their end, or start no image and no extension, or start a
/// graphic control.
pub open spec fn ends_frame(end: Seq<u8>) -> bool {
    ||| end.len() < 2
    ||| end[0] != 0x21 && end[0] != 0x2c
    ||| end[0] == 0x21 && end[1] == 0xf9
}

/// Nothing is drawn where a frame ends.
pub proof fn law_frame_ends(
    end: Seq<u8>,
    global: Option<Seq<u8>>,
    transparent: Option<u8>,
    area: Option<Rectangle>,
)
    requires
        ends_frame(end),
    ensures
        drawing(end, global, transparent, area) == Some(Seq::<PixelModel>::empty()),
{
    law_unsupported(end);
    if end.len() > 0 {
        let t = end.skip(1);
        assert(end =~= seq![end[0]] + t);
        if end.len() > 1 {
            assert(t[0] == end[1]);
        }
        law_segment_is_read(end[0], t);
    } else {
        assert(end =~= Seq::<u8>::empty());
        law_segment_is_read(0, Seq::empty());
    }
}

/// Nothing more is drawn from a block on that is not whole, and nothing can be drawn at all where
/// an extension has an unknown label.
pub proof fn law_broken_block_ends_frame(
    s: Seq<u8>,
    global: Option<Seq<u8>>,
    transparent: Option<u8>,
    area: Option<Rectangle>,
)
    requires
        s.len() >= 2,
    ensures
        s[0] == 0x2c && image_model(s.skip(1)) is Err ==> drawing(s, global, transparent, area)
            == Some(Seq::<PixelModel>::empty()),
        s[0] == 0x21 && (s[1] == 0xfe || s[1] == 0xff || s[1] == 0x01) && extension_model(
            s.skip(1),
        ) is Err ==> drawing(s, global, transparent, area) == Some(Seq::<PixelModel>::empty()),
        s[0] == 0x21 && s[1] != 0xf9 && s[1] != 0xfe && s[1] != 0xff && s[1] != 0x01 ==> drawing(
            s,
            global,
            transparent,
            area,
        ) is None,
{
    law_unsupported(s);
    let t = s.skip(1);
    assert(s =~= seq![s[0]] + t);
    assert(t[0] == s[1]);
    if s[0] != 0x21 || s[1] == 0xfe || s[1] == 0xff || s[1] == 0x01 {
        law_segment_is_read(s[0], t);
    }
}

/// One block of a frame.
pub ghost enum Part {
    /// An image, the three bits of its flags that are not used, those of the size of its table,
    /// and the blocks of its data.
    Image(ImageModel, u8, u8, Seq<Seq<u8>>),
    /// An extension that is no graphic control: its label, the bytes before its chain, the chain.
    Extension(u8, Seq<u8>, Seq<Seq<u8>>),
}

impl Part {
    /// The part can be written.
    pub open spec fn wf(self) -> bool {
        match self {
            Part::Image(image, unused, size, blocks) => {
                &&& unused < 8
                &&& table_has_size(image.local_color_table, size)
                &&& are_blocks(blocks)
                &&& image.image_data == chain_bytes(blocks)
            },
            Part::Extension(label, head, blocks) => {
                &&& are_blocks(blocks)
                &&& {
                    ||| label == 0xfe && head.len() == 0
                    ||| label == 0x01 && head.len() == 13
                    ||| label == 0xff && head.len() == 12
                }
            },
        }
    }

    /// The part as it is written.
    pub open spec fn bytes(self) -> Seq<u8> {
        match self {
            Part::Image(image, unused, size, blocks) => seq![0x2cu8] + image_bytes(
                image,
                unused,
                size,
                blocks,
            ),
            Part::Extension(label, head, blocks) => seq![0x21u8, label] + head + chain_bytes(
                blocks,
            ),
        }
    }

    /// The colours in which the part is drawn, if it is an image.
    pub open spec fn colors(self, global: Option<Seq<u8>>) -> Option<Seq<u8>> {
        match self {
            Part::Image(image, _, _, _) => match image.local_color_table {
                Some(colors) => Some(colors),
                None => global,
            },
            Part::Extension(_, _, _) => None,
        }
    }
}

/// The parts as they are written, and the bytes behind them.
pub open spec fn parts_bytes(parts: Seq<Part>, end: Seq<u8>) -> Seq<u8>
    decreases parts.len(),
{
    if parts.len() == 0 {
        end
    } else {
        parts[0].bytes() + parts_bytes(parts.skip(1), end)
    }
}

/// All parts can be written.
pub open spec fn are_parts(parts: Seq<Part>) -> bool {
    forall|i: int| 0 <= i < parts.len() ==> (#[trigger] parts[i]).wf()
}

proof fn lemma_first_part(
    parts: Seq<Part>,
    end: Seq<u8>,
    global: Option<Seq<u8>>,
    transparent: Option<u8>,
    area: Option<Rectangle>,
)
    requires
        are_parts(parts),
        parts.len() > 0,
    ensures
        are_parts(parts.skip(1)),
        ({
            let all = drawing(parts_bytes(parts, end), global, transparent, area);
            let behind = drawing(parts_bytes(parts.skip(1), end), global, transparent, area);
            match parts[0] {
                Part::Image(image, _, _, blocks) => match parts[0].colors(global) {
                    Some(colors) => is_drawn_after(
                        all,
                        image_in_colors(image, blocks, colors, transparent, area),
                        behind,
                    ),
                    None => all is None,
                },
                Part::Extension(_, _, _) => all == behind,
            }
        }),
{
    let tail = parts.skip(1);
    assert forall|i: int| 0 <= i < tail.len() implies (#[trigger] tail[i]).wf() by {
        assert(tail[i] == parts[i + 1]);
    }
    assert(parts[0].wf());
    let more = parts_bytes(tail, end);
    let s = parts_bytes(parts, end);
    match parts[0] {
        Part::Image(image, unused, size, blocks) => {
            law_image_colors(image, unused, size, blocks, more, global, transparent, area);
        },
        Part::Extension(label, head, blocks) => {
            let t = seq![label] + head + chain_bytes(blocks) + more;
            assert(s =~= seq![0x21u8] + t);
            let extension = if label == 0xfe {
                assert(seq![label] + head =~= seq![0xfeu8]);
                law_comment_is_read(blocks, more);
                ExtensionModel::Comment(chain_bytes(blocks))
            } else if label == 0x01 {
                law_plain_text_is_read(head, blocks, more);
                ExtensionModel::PlainText
            } else {
                law_application_is_read(head, blocks, more);
                application_says(head, blocks)
            };
            law_extension_is_not_drawn(t, more, extension, global, transparent, area);
        },
    }
}

/// A frame of which each image has a local colour table is drawn in the same way, whatever global
/// table the file has or has not.
pub proof fn law_local_tables_suffice(
    parts: Seq<Part>,
    end: Seq<u8>,
    global: Option<Seq<u8>>,
    other: Option<Seq<u8>>,
    transparent: Option<u8>,
    area: Option<Rectangle>,
)
    requires
        are_parts(parts),
        ends_frame(end),
        forall|i: int|
            0 <= i < parts.len() ==> (#[trigger] parts[i] matches Part::Image(image, _, _, _)
                ==> image.local_color_table is Some),
    ensures
        drawing(parts_bytes(parts, end), global, transparent, area) == drawing(
            parts_bytes(parts, end),
            other,
            transparent,
            area,
        ),
    decreases parts.len(),
{
    if parts.len() == 0 {
        law_frame_ends(end, global, transparent, area);
        law_frame_ends(end, other, transparent, area);
    } else {
        lemma_first_part(parts, end, global, transparent, area);
        lemma_first_part(parts, end, other, transparent, area);
        let tail = parts.skip(1);
        assert forall|i: int| 0 <= i < tail.len() implies (#[trigger] tail[i] matches Part::Image(
            image,
            _,
            _,
            _,
        ) ==> image.local_color_table is Some) by {
            assert(tail[i] == parts[i + 1]);
        }
        law_local_tables_suffice(tail, end, global, other, transparent, area);
        assert(parts[0].colors(global) == parts[0].colors(other));
    }
}

/// The images of a frame as they are drawn, one after the other, if each has colours.
pub open spec fn parts_drawn(
    parts: Seq<Part>,
    global: Option<Seq<u8>>,
    transparent: Option<u8>,
    area: Option<Rectangle>,
) -> Option<Seq<PixelModel>>
    decreases parts.len(),
{
    if parts.len() == 0 {
        Some(Seq::empty())
    } else {
        let behind = parts_drawn(parts.skip(1), global, transparent, area);
        match parts[0] {
            Part::Image(image, _, _, blocks) => {
                let first = match parts[0].colors(global) {
                    Some(colors) => image_in_colors(image, blocks, colors, transparent, area),
                    None => None,
                };
                if first is Some && behind is Some {
                    Some(first->0 + behind->0)
                } else {
                    None
                }
            },
            Part::Extension(_, _, _) => behind,
        }
    }
}

/// A frame that was written is drawn image by image, up to where it ends.
pub proof fn law_frame_is_drawn(
    parts: Seq<Part>,
    end: Seq<u8>,
    global: Option<Seq<u8>>,
    transparent: Option<u8>,
    area: Option<Rectangle>,
)
    requires
        are_parts(parts),
        ends_frame(end),
    ensures
        drawing(parts_bytes(parts, end), global, transparent, area) == parts_drawn(
            parts,
            global,
            transparent,
            area,
        ),
    decreases parts.len(),
{
    if parts.len() == 0 {
        law_frame_ends(end, global, transparent, area);
    } else {
        lemma_first_part(parts, end, global, transparent, area);
        law_frame_is_drawn(parts.skip(1), end, global, transparent, area);
    }
}

/// Drawing a pixel sets the three bytes of its place, which are counted row by row, and no others;
/// a place behind the end of the picture is dropped.
pub proof fn law_pixel_bytes(canvas: Seq<u8>, width: u16, pixel: PixelModel, i: int)
    requires
        0 <= i < canvas.len(),
    ensures
        store(canvas, width, pixel).len() == canvas.len(),
        ({
            let place = pixel.y * width + pixel.x;
            let byte = store(canvas, width, pixel)[i];
            if 3 * place + 3 <= canvas.len() && i / 3 == place {
                if i % 3 == 0 {
                    byte == pixel.color.0
                } else if i % 3 == 1 {
                    byte == pixel.color.1
                } else {
                    byte == pixel.color.2
                }
            } else {
                byte == canvas[i]
            }
        }),
{
    let place = pixel.y * width + pixel.x;
    assert(place >= 0) by (nonlinear_arith)
        requires
            place == pixel.y * width + pixel.x,
            pixel.y >= 0,
            width >= 0,
            pixel.x >= 0,
    ;
}

/// Pixels are drawn one after the other, so that the last one at a place is seen.
pub proof fn law_pixels_in_order(
    canvas: Seq<u8>,
    width: u16,
    pixels: Seq<PixelModel>,
    pixel: PixelModel,
)
    ensures
        store_all(canvas, width, Seq::empty()) == canvas,
        store_all(canvas, width, pixels.push(pixel)) == store(
            store_all(canvas, width, pixels),
            width,
            pixel,
        ),
{
    assert(pixels.push(pixel).drop_last() =~= pixels);
}

/// A byte of a picture is that of the last pixel that was drawn at its place, and what it was
/// before if none was.
pub proof fn law_picture_byte(canvas: Seq<u8>, width: u16, pixels: Seq<PixelModel>, i: int, k: int)
    requires
        0 <= i < canvas.len(),
        canvas.len() % 3 == 0,
        -1 <= k < pixels.len(),
        k >= 0 ==> pixels[k].y * width + pixels[k].x == i / 3,
        forall|j: int|
            k < j < pixels.len() ==> (#[trigger] pixels[j]).y * width + pixels[j].x != i / 3,
    ensures
        store_all(canvas, width, pixels).len() == canvas.len(),
        ({
            let byte = store_all(canvas, width, pixels)[i];
            if k < 0 {
                byte == canvas[i]
            } else if i % 3 == 0 {
                byte == pixels[k].color.0
            } else if i % 3 == 1 {
                byte == pixels[k].color.1
            } else {
                byte == pixels[k].color.2
            }
        }),
    decreases pixels.len(),
{
    if pixels.len() > 0 {
        let before = pixels.drop_last();
        let n = before.len() as int;
        if k < n {
            assert forall|j: int| k < j < before.len() implies (#[trigger] before[j]).y * width
                + before[j].x != i / 3 by {
                assert(before[j] == pixels[j]);
            }
            law_picture_byte(canvas, width, before, i, k);
        } else {
            lemma_picture_len(canvas, width, before);
        }
        assert(pixels.last() == pixels[n]);
        law_pixel_bytes(store_all(canvas, width, before), width, pixels[n], i);
    }
}

proof fn lemma_picture_len(canvas: Seq<u8>, width: u16, pixels: Seq<PixelModel>)
    ensures
        store_all(canvas, width, pixels).len() == canvas.len(),
    decreases pixels.len(),
{
    if pixels.len() > 0 {
        lemma_picture_len(canvas, width, pixels.drop_last());
    }
}

/// A frame is drawn in the order of its pixels on a black screen of three bytes for each place. Its
/// pixels are those of the images behind its graphic control, in the global colours of the file
/// where an image has none of its own, without the transparent index if it has one.
pub proof fn law_frame<C>(frame: Frame<'_, C>, area: Option<Rectangle>)
    ensures
        ({
            let transparent = if frame.is_transparent {
                Some(frame.transparent_color_index)
            } else {
                None
            };
            let global = match frame.global_color_table {
                Some(table) => Some(table@),
                None => None,
            };
            let width = frame.header.width;
            let height = frame.header.height;
            let black = Seq::new((3 * (width * height)) as nat, |i: int| 0u8);
            let pixels = drawing(frame.raw_data@, global, transparent, None);
            &&& frame.pixels(area) == drawing(frame.raw_data@, global, transparent, area)
            &&& frame.decodable() <==> pixels is Some && 3 * (width * height) <= isize::MAX
            &&& pixels matches Some(pixels) ==> frame.picture() == store_all(black, width, pixels)
        }),
{
    assert(blank(frame.header.width, frame.header.height) =~= Seq::new(
        (3 * (frame.header.width * frame.header.height)) as nat,
        |i: int| 0u8,
    ));
}

/// What is still to be drawn: the indices of the image that is being drawn which have been decoded
/// and not been laid out, those that are still to be decoded, and the blocks that are still to be
/// read.
pub proof fn law_pending(c: CursorModel, chunk: Seq<u8>, area: Option<Rectangle>)
    ensures
        ({
            let behind = drawing(c.input, c.global, c.transparent, area);
            match c.image {
                Some((placement, stream)) => {
                    &&& is_drawn_after(
                        c.pending_behind(chunk, area),
                        pixels_of(placement, chunk + lzw_indices(stream), area),
                        behind,
                    )
                    &&& is_drawn_after(
                        c.pending(area),
                        pixels_of(placement, lzw_indices(stream), area),
                        behind,
                    )
                },
                None => c.pending_behind(chunk, area) == behind && c.pending(area) == behind,
            }
        }),
{
    if let Some((_, stream)) = c.image {
        assert(Seq::<u8>::empty() + lzw_indices(stream) =~= lzw_indices(stream));
    }
}

/// While the stream of an image gives words, each comes out as it is; what is behind the image
/// comes when it gives none.
pub proof fn law_next_chunk(c: CursorModel)
    requires
        c.image is Some,
    ensures
        ({
            let (placement, stream) = c.image->0;
            match lzw_next(stream) {
                LzwStep::Emit(word, next) => c.next() matches CursorStep::Chunk(chunk, behind)
                    && chunk == word && behind == (CursorModel {
                    input: c.input,
                    global: c.global,
                    transparent: c.transparent,
                    image: Some((placement, next)),
                }),
                _ => c.next() == (CursorModel {
                    input: c.input,
                    global: c.global,
                    transparent: c.transparent,
                    image: None,
                }).next(),
            }
        }),
{
}

/// Where no image is being drawn and one follows, that one is started at its corner, with the
/// first word of its data, in its local colours or else in the global ones.
pub proof fn law_next_image(
    c: CursorModel,
    image: ImageModel,
    unused: u8,
    size: u8,
    blocks: Seq<Seq<u8>>,
    more: Seq<u8>,
    colors: Seq<u8>,
)
    requires
        c.image is None,
        unused < 8,
        table_has_size(image.local_color_table, size),
        are_blocks(blocks),
        image.image_data == chain_bytes(blocks),
        c.input == seq![0x2cu8] + image_bytes(image, unused, size, blocks) + more,
        image.local_color_table == Some(colors) || image.local_color_table is None && c.global
            == Some(colors),
    ensures
        c.next() == (CursorModel {
            input: more,
            global: c.global,
            transparent: c.transparent,
            image: Some(
                (
                    PlacementModel {
                        left: image.left,
                        top: image.top,
                        width: image.width,
                        transparent: c.transparent,
                        colors,
                        count: 0,
                    },
                    lzw_start(image.lzw_min_code_size as nat, bits_of(joined(blocks))),
                ),
            ),
        }).next(),
{
    let t = image_bytes(image, unused, size, blocks) + more;
    assert(c.input =~= seq![0x2cu8] + t);
    law_unsupported(c.input);
    law_image_is_read(image, unused, size, blocks, more);
    law_segment_is_read(0x2c, t);
    law_chain_is_read(blocks, Seq::empty());
    assert(chain_bytes(blocks) + Seq::<u8>::empty() =~= chain_bytes(blocks));
}

/// Laying out an index counts it and changes nothing else.
pub proof fn law_laid_out(c: CursorModel)
    ensures
        c.laid_out(false) == c,
        c.image matches Some((placement, stream)) ==> (placement.count < 0xffff_ffff ==> {
            let d = c.laid_out(true);
            &&& d.input == c.input && d.global == c.global && d.transparent == c.transparent
            &&& d.image == Some(
                (
                    PlacementModel {
                        left: placement.left,
                        top: placement.top,
                        width: placement.width,
                        transparent: placement.transparent,
                        colors: placement.colors,
                        count: (placement.count + 1) as u32,
                    },
                    stream,
                ),
            )
        }),
{
}

/// An application extension names its application in eleven bytes.
pub open spec fn named(part: Part) -> bool {
    part matches Part::Extension(label, head, _) ==> (label == 0xff ==> head[0] == 11)
}

/// The search for a graphic control passes over all other blocks.
pub proof fn law_skip_passes_parts(parts: Seq<Part>, end: Seq<u8>)
    requires
        are_parts(parts),
        forall|i: int| 0 <= i < parts.len() ==> named(#[trigger] parts[i]),
    ensures
        next_graphic_control(parts_bytes(parts, end)) == next_graphic_control(end),
    decreases parts.len(),
{
    if parts.len() > 0 {
        let tail = parts.skip(1);
        assert forall|i: int| 0 <= i < tail.len() implies (#[trigger] tail[i]).wf() && named(
            tail[i],
        ) by {
            assert(tail[i] == parts[i + 1]);
        }
        law_skip_passes_parts(tail, end);
        assert(parts[0].wf() && named(parts[0]));
        let more = parts_bytes(tail, end);
        let s = parts_bytes(parts, end);
        match parts[0] {
            Part::Image(image, unused, size, blocks) => {
                law_skip_passes_images(image, unused, size, blocks, more);
            },
            Part::Extension(label, head, blocks) => {
                if label == 0xff {
                    let all = seq![head.skip(1)] + blocks;
                    assert(all.skip(1) =~= blocks);
                    assert forall|k: int| 0 <= k < all.len() implies 1 <= (#[trigger] all[k]).len()
                        <= 255 by {
                        if k > 0 {
                            assert(all[k] == blocks[k - 1]);
                        }
                    }
                    assert(chain_bytes(all) =~= head + chain_bytes(blocks));
                    assert(seq![0x21u8, label] + Seq::<u8>::empty() + chain_bytes(all) + more
                        =~= s);
                    law_skip_passes_extensions(label, Seq::empty(), all, more);
                } else {
                    assert(seq![0x21u8, label] + head + chain_bytes(blocks) + more =~= s);
                    law_skip_passes_extensions(label, head, blocks, more);
                }
            },
        }
    }
}

/// A walk finds the next graphic control behind any other blocks. Its frame comes out then, and
/// the walk goes on behind it.
pub proof fn law_walk_finds_frame(
    m: FramesModel,
    parts: Seq<Part>,
    flags: u8,
    control: GraphicControl,
    rest: Seq<u8>,
)
    requires
        are_parts(parts),
        forall|i: int| 0 <= i < parts.len() ==> named(#[trigger] parts[i]),
        control.is_transparent == (flags % 2 == 1),
        m.remaining == parts_bytes(parts, seq![0x21u8] + control_bytes(flags, control) + rest),
    ensures
        m.supported(),
        m.upcoming() == NextFrame::Found(control, rest),
        m.advanced().gif == m.gif,
        m.advanced().frame_index == m.frame_index + 1,
        m.advanced().remaining == rest,
{
    let t = control_bytes(flags, control) + rest;
    let s = seq![0x21u8] + control_bytes(flags, control) + rest;
    assert(s =~= seq![0x21u8] + t);
    law_skip_passes_parts(parts, s);
    assert(s =~= seq![0x21u8, 0xf9] + s.skip(2));
    law_skip_stops_at_control(s.skip(2));
    assert(s[1] == 0xf9);
    law_unsupported(s);
    law_control_is_read(flags, control, rest);
    assert(t[0] == 0xf9);
    law_segment_is_read(0x21, t);
    lemma_parts_nonempty(parts, s);
}

proof fn lemma_parts_nonempty(parts: Seq<Part>, end: Seq<u8>)
    requires
        end.len() > 0,
    ensures
        parts_bytes(parts, end).len() > 0,
    decreases parts.len(),
{
    if parts.len() > 0 {
        lemma_parts_nonempty(parts.skip(1), end);
    }
}

/// A walk finds nothing at the end of the blocks, at the trailer, and where the search for a
/// graphic control fails; it stays there.
pub proof fn law_walk_finds_nothing(m: FramesModel, parts: Seq<Part>, t: Seq<u8>)
    requires
        are_parts(parts),
        forall|i: int| 0 <= i < parts.len() ==> named(#[trigger] parts[i]),
    ensures
        m.remaining.len() == 0 || m.remaining == parts_bytes(parts, seq![0x3bu8] + t)
            || next_graphic_control(m.remaining) is Err ==> {
            &&& m.supported()
            &&& m.upcoming() == NextFrame::Nothing
            &&& m.advanced() == m
        },
{
    let s = seq![0x3bu8] + t;
    law_skip_passes_parts(parts, s);
    law_skip_ends(t);
    law_segment_is_read(0, Seq::empty());
    law_unsupported(Seq::empty());
}

/// Where the search for a graphic control stops, a walk takes the block there as it is: the frame
/// of a graphic control, a block that is passed over without a frame, or nothing.
pub proof fn law_walk_takes_block(m: FramesModel, s: Seq<u8>)
    requires
        m.remaining.len() > 0,
        next_graphic_control(m.remaining) == Ok::<_, ParseError>(s),
    ensures
        m.supported() <==> segment_supported(s),
        match segment_model(s) {
            Ok((rest, SegmentModel::Extension(ExtensionModel::GraphicControl(control)))) => {
                &&& m.upcoming() == NextFrame::Found(control, rest)
                &&& m.advanced() == (FramesModel {
                    gif: m.gif,
                    frame_index: m.frame_index + 1,
                    remaining: rest,
                })
            },
            Ok((rest, _)) => {
                &&& m.upcoming() == NextFrame::Other(rest)
                &&& m.advanced() == (FramesModel {
                    gif: m.gif,
                    frame_index: m.frame_index,
                    remaining: rest,
                })
            },
            Err(_) => m.upcoming() == NextFrame::Nothing && m.advanced() == m,
        },
{
}

/// A frame has the delay and the transparent index of its graphic control, the header and the
/// global colours of its file, the number of frames before it, and the bytes behind its control.
pub proof fn law_is_frame<C>(
    m: FramesModel,
    frame: Frame<'_, C>,
    control: GraphicControl,
    rest: Seq<u8>,
)
    ensures
        m.is_frame(frame, control, rest) <==> {
            &&& frame.delay_centis == control.delay_centis
            &&& frame.is_transparent == control.is_transparent
            &&& frame.transparent_color_index == control.transparent_color_index
            &&& match frame.global_color_table {
                Some(table) => m.gif.global_color_table == Some(table@),
                None => m.gif.global_color_table is None,
            }
            &&& *frame.header == m.gif.header
            &&& frame.raw_data@ == rest
            &&& frame.frame_index == m.frame_index
        },
{
}

/// The bytes of a file up to its first graphic control, and of its first frame.
pub open spec fn file_bytes(
    header: Header,
    size: u8,
    table: Option<Seq<u8>>,
    before: Seq<Part>,
    flags: u8,
    control: GraphicControl,
    parts: Seq<Part>,
    end: Seq<u8>,
) -> Seq<u8> {
    header_bytes(header, false, size, 0, table) + parts_bytes(
        before,
        seq![0x21u8] + control_bytes(flags, control) + parts_bytes(parts, end),
    )
}

/// The first frame of a file that was written is found with the numbers of its graphic control,
/// and its images are drawn in their own colours or in those of the file.
pub proof fn law_first_frame(
    header: Header,
    size: u8,
    table: Option<Seq<u8>>,
    before: Seq<Part>,
    flags: u8,
    control: GraphicControl,
    parts: Seq<Part>,
    end: Seq<u8>,
    area: Option<Rectangle>,
)
    requires
        header.color_resolution < 8,
        header.has_global_color_table == table is Some,
        table_has_size(table, size),
        are_parts(before),
        forall|i: int| 0 <= i < before.len() ==> named(#[trigger] before[i]),
        control.is_transparent == (flags % 2 == 1),
        are_parts(parts),
        ends_frame(end),
    ensures
        raw_gif_model(
            file_bytes(header, size, table, before, flags, control, parts, end),
        ) matches Ok(gif) && {
            let walk = FramesModel { gif, frame_index: 0, remaining: gif.raw_block_data };
            let transparent = if flags % 2 == 1 {
                Some(control.transparent_color_index)
            } else {
                None
            };
            &&& gif.header == header
            &&& gif.global_color_table == table
            &&& walk.supported()
            &&& walk.upcoming() matches NextFrame::Found(found, rest) && {
                &&& found == control
                &&& drawing(rest, gif.global_color_table, transparent, area) == parts_drawn(
                    parts,
                    table,
                    transparent,
                    area,
                )
            }
        },
{
    let body = parts_bytes(parts, end);
    let blocks = parts_bytes(before, seq![0x21u8] + control_bytes(flags, control) + body);
    let s = file_bytes(header, size, table, before, flags, control, parts, end);
    law_header_is_read(header, false, size, 0, table, blocks);
    law_file_is_cut(s);
    let transparent = if flags % 2 == 1 {
        Some(control.transparent_color_index)
    } else {
        None
    };
    if let Ok(gif) = raw_gif_model(s) {
        let walk = FramesModel { gif, frame_index: 0, remaining: gif.raw_block_data };
        law_walk_finds_frame(walk, before, flags, control, body);
        law_frame_is_drawn(parts, end, table, transparent, area);
    }
}

} // verus!
