//! Laws that tie the parts of the decoder together.

use crate::blocks::{chain_data, chain_len, lemma_chain_fits};
use crate::color::{color_at, color_table_bytes, lemma_color_table_bytes};
use crate::error::{view_of, ParseError};
use crate::frame::{
    blank, both, drawing, image_colors, image_placement, store, store_all, Frame,
};
use crate::geometry::Rectangle;
use crate::gif::{lemma_walk_shrinks, FramesModel};
use crate::header::header_model;
use crate::lzw::decoded;
use crate::placement::{pixels_of, PixelModel, PlacedModel, PlacementModel};
use crate::segment::{
    application_model, extension_model, extension_supported, image_model, is_netscape,
    lemma_segment_shrinks, next_graphic_control, segment_model, segment_supported, ExtensionModel,
    ImageModel, SegmentModel, APPLICATION_LABEL, COMMENT_LABEL, EXTENSION_INTRODUCER,
    GRAPHIC_CONTROL_LABEL, IMAGE_SEPARATOR, PLAIN_TEXT_LABEL,
};
use vstd::prelude::*;

verus! {

/// Drawing does not change the size of a picture.
proof fn lemma_store_all_len(canvas: Seq<u8>, screen_width: u16, pixels: Seq<PixelModel>)
    ensures
        store_all(canvas, screen_width, pixels).len() == canvas.len(),
    decreases pixels.len(),
{
    if pixels.len() > 0 {
        lemma_store_all_len(canvas, screen_width, pixels.drop_last());
        lemma_drawn_to(screen_width, pixels.last());
    }
}

/// The picture of a frame has three bytes for each pixel of the screen.
pub proof fn law_picture_size<C>(frame: Frame<'_, C>)
    ensures
        frame.picture().len() == 3 * (frame.header.width * frame.header.height),
{
    let w = frame.header.width as int;
    let h = frame.header.height as int;
    assert(w * h >= 0) by (nonlinear_arith)
        requires
            w >= 0,
            h >= 0,
    ;
    lemma_store_all_len(
        blank(frame.header.width, frame.header.height),
        frame.header.width,
        frame.pixels(None)->0,
    );
}

/// The number of the pixel of a picture that is drawn to.
pub open spec fn drawn_to(screen_width: u16, pixel: PixelModel) -> int {
    pixel.y * screen_width + pixel.x
}

proof fn lemma_drawn_to(screen_width: u16, pixel: PixelModel)
    ensures
        drawn_to(screen_width, pixel) >= 0,
{
    let y = pixel.y as int;
    let w = screen_width as int;
    assert(y * w >= 0) by (nonlinear_arith)
        requires
            y >= 0,
            w >= 0,
    ;
}

/// A pixel of a picture to which nothing is drawn stays as it is.
pub proof fn law_untouched_pixel_stays(
    canvas: Seq<u8>,
    screen_width: u16,
    pixels: Seq<PixelModel>,
    at: int,
)
    requires
        0 <= at,
        3 * at + 2 < canvas.len(),
        forall|j: int|
            0 <= j < pixels.len() ==> drawn_to(screen_width, #[trigger] pixels[j]) != at,
    ensures
        store_all(canvas, screen_width, pixels).subrange(3 * at, 3 * at + 3) == canvas.subrange(
            3 * at,
            3 * at + 3,
        ),
    decreases pixels.len(),
{
    if pixels.len() > 0 {
        let before = pixels.drop_last();
        assert forall|j: int| 0 <= j < before.len() implies drawn_to(
            screen_width,
            #[trigger] before[j],
        ) != at by {
            assert(before[j] == pixels[j]);
        }
        law_untouched_pixel_stays(canvas, screen_width, before, at);
        lemma_store_all_len(canvas, screen_width, before);
        lemma_store_all_len(canvas, screen_width, pixels);
        let old_picture = store_all(canvas, screen_width, before);
        let new_picture = store_all(canvas, screen_width, pixels);
        let last = pixels[pixels.len() - 1];
        assert(drawn_to(screen_width, last) != at);
        lemma_drawn_to(screen_width, last);
        assert(new_picture == store(old_picture, screen_width, last));
        assert(new_picture.subrange(3 * at, 3 * at + 3) =~= old_picture.subrange(
            3 * at,
            3 * at + 3,
        ));
    }
}

/// A pixel of a picture has the colour that was drawn to it last.
pub proof fn law_last_pixel_wins(
    canvas: Seq<u8>,
    screen_width: u16,
    pixels: Seq<PixelModel>,
    k: int,
)
    requires
        0 <= k < pixels.len(),
        3 * drawn_to(screen_width, pixels[k]) + 2 < canvas.len(),
        forall|j: int|
            k < j < pixels.len() ==> drawn_to(screen_width, #[trigger] pixels[j]) != drawn_to(
                screen_width,
                pixels[k],
            ),
    ensures
        ({
            let at = 3 * drawn_to(screen_width, pixels[k]);
            let color = pixels[k].color;
            store_all(canvas, screen_width, pixels).subrange(at, at + 3) == seq![
                color.0,
                color.1,
                color.2,
            ]
        }),
    decreases pixels.len(),
{
    let at = drawn_to(screen_width, pixels[k]);
    let color = pixels[k].color;
    lemma_drawn_to(screen_width, pixels[k]);
    let before = pixels.drop_last();
    let old_picture = store_all(canvas, screen_width, before);
    let new_picture = store_all(canvas, screen_width, pixels);
    lemma_store_all_len(canvas, screen_width, before);
    lemma_store_all_len(canvas, screen_width, pixels);
    assert(new_picture == store(old_picture, screen_width, pixels.last()));
    if k == pixels.len() - 1 {
        assert(new_picture.subrange(3 * at, 3 * at + 3) =~= seq![color.0, color.1, color.2]);
    } else {
        assert forall|j: int| k < j < before.len() implies drawn_to(
            screen_width,
            #[trigger] before[j],
        ) != drawn_to(screen_width, before[k]) by {
            assert(before[j] == pixels[j]);
        }
        law_last_pixel_wins(canvas, screen_width, before, k);
        let last = pixels[pixels.len() - 1];
        assert(drawn_to(screen_width, last) != at);
        lemma_drawn_to(screen_width, last);
        assert(new_picture.subrange(3 * at, 3 * at + 3) =~= old_picture.subrange(
            3 * at,
            3 * at + 3,
        ));
    }
}

/// The layout when `n` more indices have been laid out.
pub open spec fn after(p: PlacementModel, n: nat) -> PlacementModel {
    PlacementModel { count: (p.count + n) as u32, ..p }
}

/// It makes no difference to the pixels how a run of colour indices is cut into chunks.
pub proof fn law_chunks_do_not_matter(
    p: PlacementModel,
    first: Seq<u8>,
    then: Seq<u8>,
    area: Option<Rectangle>,
)
    requires
        pixels_of(p, first, area) is Some,
    ensures
        p.count + first.len() <= u32::MAX,
        pixels_of(p, first + then, area) == both(
            pixels_of(p, first, area),
            pixels_of(after(p, first.len()), then, area),
        ),
    decreases first.len(),
{
    let all = first + then;
    if first.len() == 0 {
        assert(all =~= then);
        if let Some(pixels) = pixels_of(p, then, area) {
            assert(Seq::<PixelModel>::empty() + pixels =~= pixels);
        }
    } else {
        assert(all.skip(1) =~= first.skip(1) + then);
        law_chunks_do_not_matter(p.step(), first.skip(1), then, area);
        let rest = pixels_of(after(p, first.len()), then, area);
        if let PlacedModel::Drawn(pixel) = p.place(first[0], area) {
            if let (Some(a), Some(b)) = (pixels_of(p.step(), first.skip(1), area), rest) {
                assert(seq![pixel] + (a + b) =~= (seq![pixel] + a) + b);
            }
        }
    }
}

/// The transparent index draws nothing, however often it comes.
pub proof fn law_transparent_draws_nothing(
    p: PlacementModel,
    indices: Seq<u8>,
    area: Option<Rectangle>,
)
    requires
        p.count + indices.len() <= u32::MAX,
        forall|i: int| 0 <= i < indices.len() ==> p.transparent == Some(#[trigger] indices[i]),
    ensures
        pixels_of(p, indices, area) == Some(Seq::<PixelModel>::empty()),
    decreases indices.len(),
{
    if indices.len() > 0 {
        assert(p.transparent == Some(indices[0]));
        assert forall|i: int| 0 <= i < indices.skip(1).len() implies p.transparent == Some(
            #[trigger] indices.skip(1)[i],
        ) by {
            assert(indices.skip(1)[i] == indices[i + 1]);
        }
        law_transparent_draws_nothing(p.step(), indices.skip(1), area);
    }
}

/// The pixels of `pixels` that lie in `area`.
pub open spec fn inside(pixels: Seq<PixelModel>, area: Rectangle) -> Seq<PixelModel> {
    pixels.filter(|pixel: PixelModel| area.covers(pixel.x as int, pixel.y as int))
}

/// Of each pixel it can be told whether the area covers it.
pub open spec fn decided(pixels: Seq<PixelModel>, area: Rectangle) -> bool {
    forall|i: int|
        0 <= i < pixels.len() ==> area.decides(
            (#[trigger] pixels[i]).x as int,
            pixels[i].y as int,
        )
}

/// What is drawn of some pixels when only `area` is drawn.
pub open spec fn cut_to(pixels: Seq<PixelModel>, area: Rectangle) -> Option<Seq<PixelModel>> {
    if decided(pixels, area) {
        Some(inside(pixels, area))
    } else {
        None
    }
}

proof fn lemma_cut_both(a: Seq<PixelModel>, b: Seq<PixelModel>, area: Rectangle)
    ensures
        cut_to(a + b, area) == both(cut_to(a, area), cut_to(b, area)),
{
    let all = a + b;
    Seq::filter_distributes_over_add(
        a,
        b,
        |pixel: PixelModel| area.covers(pixel.x as int, pixel.y as int),
    );
    assert(decided(all, area) ==> decided(a, area) && decided(b, area)) by {
        if decided(all, area) {
            assert forall|i: int| 0 <= i < a.len() implies area.decides(
                (#[trigger] a[i]).x as int,
                a[i].y as int,
            ) by {
                assert(all[i] == a[i]);
            }
            assert forall|i: int| 0 <= i < b.len() implies area.decides(
                (#[trigger] b[i]).x as int,
                b[i].y as int,
            ) by {
                assert(all[a.len() + i] == b[i]);
            }
        }
    }
}

proof fn lemma_cut_one(pixel: PixelModel, area: Rectangle)
    ensures
        cut_to(seq![pixel], area) == (if !area.decides(pixel.x as int, pixel.y as int) {
            None
        } else if area.covers(pixel.x as int, pixel.y as int) {
            Some(seq![pixel])
        } else {
            Some(Seq::<PixelModel>::empty())
        }),
{
    let covered = |pixel: PixelModel| area.covers(pixel.x as int, pixel.y as int);
    assert(seq![pixel][0] == pixel);
    assert(seq![pixel].drop_last() =~= Seq::<PixelModel>::empty());
    reveal_with_fuel(Seq::filter, 2);
    if covered(pixel) {
        assert(seq![pixel].filter(covered) =~= seq![pixel]);
    } else {
        assert(seq![pixel].filter(covered) =~= Seq::<PixelModel>::empty());
    }
}

proof fn lemma_cut_nothing(area: Rectangle)
    ensures
        cut_to(Seq::empty(), area) == Some(Seq::<PixelModel>::empty()),
{
    reveal(Seq::filter);
}

proof fn lemma_sub_image_run(p: PlacementModel, indices: Seq<u8>, area: Rectangle)
    requires
        pixels_of(p, indices, None) is Some,
    ensures
        pixels_of(p, indices, Some(area)) == cut_to(pixels_of(p, indices, None)->0, area),
    decreases indices.len(),
{
    if indices.len() == 0 {
        lemma_cut_nothing(area);
    } else {
        lemma_sub_image_run(p.step(), indices.skip(1), area);
        if let PlacedModel::Drawn(pixel) = p.place(indices[0], None) {
            let rest = pixels_of(p.step(), indices.skip(1), None)->0;
            lemma_cut_both(seq![pixel], rest, area);
            lemma_cut_one(pixel, area);
            if let Some(pixels) = cut_to(rest, area) {
                assert(Seq::<PixelModel>::empty() + pixels =~= pixels);
            }
        }
    }
}

/// Drawing only an area of a frame draws those pixels, and no others, that drawing the whole
/// frame would draw in it, in the same order.
///
/// That is, if it can be told of each of them whether it lies in the area; otherwise the area
/// cannot be drawn.
pub proof fn law_sub_image(
    s: Seq<u8>,
    global: Option<Seq<u8>>,
    transparent: Option<u8>,
    area: Rectangle,
)
    requires
        drawing(s, global, transparent, None) is Some,
    ensures
        drawing(s, global, transparent, Some(area)) == cut_to(
            drawing(s, global, transparent, None)->0,
            area,
        ),
        drawing(s, global, transparent, Some(area)) matches Some(pixels) ==> pixels == inside(
            drawing(s, global, transparent, None)->0,
            area,
        ),
    decreases s.len(),
{
    lemma_cut_nothing(area);
    lemma_segment_shrinks(s);
    match segment_model(s) {
        Ok((rest, SegmentModel::Image(image))) => {
            let colors = image_colors(image, global)->0;
            let placement = image_placement(image, colors, transparent);
            let indices = decoded(image.lzw_min_code_size, chain_data(image.image_data));
            lemma_sub_image_run(placement, indices, area);
            law_sub_image(rest, global, transparent, area);
            lemma_cut_both(
                pixels_of(placement, indices, None)->0,
                drawing(rest, global, transparent, None)->0,
                area,
            );
        },
        Ok((_, SegmentModel::Extension(ExtensionModel::GraphicControl(_)))) => {},
        Ok((rest, SegmentModel::Extension(_))) => {
            law_sub_image(rest, global, transparent, area);
        },
        _ => {},
    }
}

/// The three bytes of a pixel that was drawn with this colour index on a black screen.
pub open spec fn shown(colors: Seq<u8>, transparent: Option<u8>, color_index: u8) -> Seq<u8> {
    if transparent == Some(color_index) {
        seq![0u8, 0u8, 0u8]
    } else {
        let color = color_at(colors, color_index)->0;
        seq![color.0, color.1, color.2]
    }
}

/// The index is transparent or has a colour.
pub open spec fn showable(colors: Seq<u8>, transparent: Option<u8>, color_index: u8) -> bool {
    transparent == Some(color_index) || color_at(colors, color_index) is Some
}

/// The three bytes of the pixel in column `x` and row `y` of a picture.
pub open spec fn pixel_bytes(picture: Seq<u8>, screen_width: u16, x: int, y: int) -> Seq<u8> {
    let at = 3 * (y * screen_width + x);
    picture.subrange(at, at + 3)
}

/// The number of the index of an image that stands for the pixel in column `x` and row `y` of the
/// screen, if the image reaches there.
pub open spec fn index_number(p: PlacementModel, x: int, y: int) -> Option<int> {
    if p.left <= x < p.left + p.width && p.top <= y {
        Some((y - p.top) * p.width + (x - p.left))
    } else {
        None
    }
}

/// What the pixel in column `x` and row `y` of a black screen shows when these indices of an image
/// have been drawn.
pub open spec fn image_shows(p: PlacementModel, indices: Seq<u8>, x: int, y: int) -> Seq<u8> {
    match index_number(p, x, y) {
        Some(i) if i < indices.len() => shown(p.colors, p.transparent, indices[i]),
        _ => seq![0u8, 0u8, 0u8],
    }
}

/// A number is told by its quotient and its remainder.
proof fn lemma_row_and_column(row: int, column: int, width: int)
    requires
        0 <= row,
        0 <= column < width,
    ensures
        row * width + column >= 0,
        (row * width + column) / width == row,
        (row * width + column) % width == column,
{
    let n = row * width + column;
    assert(n >= 0) by (nonlinear_arith)
        requires
            n == row * width + column,
            0 <= row,
            0 <= column < width,
    ;
    vstd::arithmetic::div_mod::lemma_fundamental_div_mod_converse(n, width, row, column);
}

/// Two pixels of a picture are the same if their numbers are.
proof fn lemma_same_pixel(w: int, h: int, x1: int, y1: int, x2: int, y2: int)
    requires
        0 <= x1 < w,
        0 <= x2 < w,
        0 <= y1 < h,
        0 <= y2 < h,
    ensures
        0 <= y1 * w + x1 < w * h,
        0 <= y2 * w + x2 < w * h,
        y1 * w + x1 == y2 * w + x2 ==> x1 == x2 && y1 == y2,
{
    lemma_row_and_column(y1, x1, w);
    lemma_row_and_column(y2, x2, w);
    assert(y1 * w + x1 < w * h) by (nonlinear_arith)
        requires
            0 <= x1 < w,
            0 <= y1 < h,
    ;
    assert(y2 * w + x2 < w * h) by (nonlinear_arith)
        requires
            0 <= x2 < w,
            0 <= y2 < h,
    ;
}

/// The image lies within a screen of this size as far as it has indices.
pub open spec fn within_screen(
    p: PlacementModel,
    indices: Seq<u8>,
    screen_width: u16,
    screen_height: u16,
) -> bool {
    indices.len() > 0 ==> {
        &&& p.width > 0
        &&& p.left + p.width <= screen_width
        &&& indices.len() <= (screen_height - p.top) * p.width
    }
}

/// Where the index number `n` of an image within a screen is drawn.
proof fn lemma_place_of_index(p: PlacementModel, n: int, screen_width: u16, screen_height: u16)
    requires
        p.width > 0,
        p.left + p.width <= screen_width,
        0 <= n < (screen_height - p.top) * p.width,
        n == p.count,
    ensures
        p.count < u32::MAX,
        p.has_place(),
        p.column() < screen_width,
        p.row() < screen_height,
        index_number(p, p.column() as int, p.row() as int) == Some(n),
        forall|x: int, y: int|
            #![trigger index_number(p, x, y)]
            index_number(p, x, y) == Some(n) ==> x == p.column() && y == p.row(),
{
    let w = p.width as int;
    let rows = screen_height - p.top;
    assert(0 <= n / w < rows && n == (n / w) * w + n % w && 0 <= n % w < w) by (nonlinear_arith)
        requires
            0 <= n < rows * w,
            w > 0,
    ;
    assert(n < 0xffff * 0xffff) by (nonlinear_arith)
        requires
            n < rows * w,
            rows <= 0xffff,
            0 < w <= 0xffff,
    ;
    assert(n / w < 0x1_0000);
    assert(p.row() == p.top + n / w);
    assert(p.column() == p.left + n % w);
    assert forall|x: int, y: int|
        #![trigger index_number(p, x, y)]
        index_number(p, x, y) == Some(n) implies x == p.column() && y == p.row() by {
        lemma_row_and_column(y - p.top, x - p.left, w);
    }
}

/// What is on a black screen when the indices of an image within it have been drawn.
proof fn lemma_image_run(
    p: PlacementModel,
    screen_width: u16,
    screen_height: u16,
    indices: Seq<u8>,
)
    requires
        p.count == 0,
        within_screen(p, indices, screen_width, screen_height),
        forall|k: int|
            0 <= k < indices.len() ==> showable(p.colors, p.transparent, #[trigger] indices[k]),
    ensures
        pixels_of(p, indices, None) is Some,
        ({
            let picture = store_all(
                blank(screen_width, screen_height),
                screen_width,
                pixels_of(p, indices, None)->0,
            );
            &&& picture.len() == 3 * (screen_width * screen_height)
            &&& forall|x: int, y: int|
                0 <= x < screen_width && 0 <= y < screen_height ==> #[trigger] pixel_bytes(
                    picture,
                    screen_width,
                    x,
                    y,
                ) == image_shows(p, indices, x, y)
        }),
    decreases indices.len(),
{
    let w = screen_width as int;
    let h = screen_height as int;
    let start = blank(screen_width, screen_height);
    assert(0 <= w * h) by (nonlinear_arith)
        requires
            0 <= w,
            0 <= h,
    ;
    if indices.len() == 0 {
        assert forall|x: int, y: int| 0 <= x < w && 0 <= y < h implies #[trigger] pixel_bytes(
            start,
            screen_width,
            x,
            y,
        ) == image_shows(p, indices, x, y) by {
            lemma_same_pixel(w, h, x, y, x, y);
            assert(pixel_bytes(start, screen_width, x, y) =~= seq![0u8, 0u8, 0u8]);
            if let Some(i) = index_number(p, x, y) {
                lemma_row_and_column(y - p.top, x - p.left, p.width as int);
            }
        }
    } else {
        let before = indices.drop_last();
        let n = before.len() as int;
        let index = indices[n];
        assert forall|k: int| 0 <= k < before.len() implies showable(
            p.colors,
            p.transparent,
            #[trigger] before[k],
        ) by {
            assert(before[k] == indices[k]);
        }
        lemma_image_run(p, screen_width, screen_height, before);
        law_chunks_do_not_matter(p, before, seq![index], None);
        assert(indices =~= before + seq![index]);
        assert(showable(p.colors, p.transparent, index));
        let q = after(p, before.len());
        lemma_place_of_index(q, n, screen_width, screen_height);
        let xn = q.column() as int;
        let yn = q.row() as int;
        let pixels = pixels_of(p, before, None)->0;
        let old_picture = store_all(start, screen_width, pixels);
        let new_picture = store_all(start, screen_width, pixels_of(p, indices, None)->0);
        assert(seq![index].skip(1) =~= Seq::<u8>::empty());
        reveal_with_fuel(pixels_of, 2);
        if p.transparent == Some(index) {
            assert(pixels_of(q, seq![index], None) == Some(Seq::<PixelModel>::empty()));
            assert(pixels_of(p, indices, None)->0 =~= pixels);
        } else {
            let pixel = PixelModel {
                x: q.column(),
                y: q.row(),
                color: color_at(p.colors, index)->0,
            };
            assert(q.place(index, None) == PlacedModel::Drawn(pixel));
            assert(seq![pixel] + Seq::<PixelModel>::empty() =~= seq![pixel]);
            assert(pixels_of(q, seq![index], None) == Some(seq![pixel]));
            assert(pixels_of(p, indices, None)->0 =~= pixels.push(pixel));
            assert(pixels.push(pixel).drop_last() =~= pixels);
            assert(new_picture == store(old_picture, screen_width, pixel));
            lemma_same_pixel(w, h, xn, yn, xn, yn);
        }
        assert forall|x: int, y: int| 0 <= x < w && 0 <= y < h implies #[trigger] pixel_bytes(
            new_picture,
            screen_width,
            x,
            y,
        ) == image_shows(p, indices, x, y) by {
            let was = pixel_bytes(old_picture, screen_width, x, y);
            lemma_same_pixel(w, h, x, y, xn, yn);
            assert(index_number(p, x, y) == index_number(q, x, y));
            if x == xn && y == yn {
                assert(was == seq![0u8, 0u8, 0u8]);
                assert(pixel_bytes(new_picture, screen_width, x, y) =~= shown(
                    p.colors,
                    p.transparent,
                    index,
                ));
            } else {
                assert(pixel_bytes(new_picture, screen_width, x, y) =~= was);
                if let Some(i) = index_number(p, x, y) {
                    lemma_row_and_column(y - p.top, x - p.left, p.width as int);
                    if i < n {
                        assert(before[i] == indices[i]);
                    }
                }
            }
        }
    }
}

/// A frame that consists of one image within the screen shows it: each index shows its colour at
/// its place in the image, row by row, and every other pixel is black, as is that of a transparent
/// index.
pub proof fn law_image_is_shown<C>(
    frame: Frame<'_, C>,
    image: ImageModel,
    rest: Seq<u8>,
    colors: Seq<u8>,
    x: int,
    y: int,
)
    requires
        segment_supported(frame.raw_data@),
        segment_model(frame.raw_data@) == Ok::<_, ParseError>((rest, SegmentModel::Image(image))),
        drawing(rest, view_of(frame.global_color_table), frame.transparent(), None) == Some(
            Seq::<PixelModel>::empty(),
        ),
        image_colors(image, view_of(frame.global_color_table)) == Some(colors),
        ({
            let indices = decoded(image.lzw_min_code_size, chain_data(image.image_data));
            &&& within_screen(
                image_placement(image, colors, frame.transparent()),
                indices,
                frame.header.width,
                frame.header.height,
            )
            &&& forall|i: int|
                0 <= i < indices.len() ==> showable(
                    colors,
                    frame.transparent(),
                    #[trigger] indices[i],
                )
        }),
        0 <= x < frame.header.width,
        0 <= y < frame.header.height,
    ensures
        frame.pixels(None) is Some,
        pixel_bytes(frame.picture(), frame.header.width, x, y) == image_shows(
            image_placement(image, colors, frame.transparent()),
            decoded(image.lzw_min_code_size, chain_data(image.image_data)),
            x,
            y,
        ),
{
    let indices = decoded(image.lzw_min_code_size, chain_data(image.image_data));
    let p = image_placement(image, colors, frame.transparent());
    lemma_image_run(p, frame.header.width, frame.header.height, indices);
    let pixels = pixels_of(p, indices, None)->0;
    assert(pixels + Seq::<PixelModel>::empty() =~= pixels);
    assert(frame.pixels(None) == Some(pixels));
}

/// The index number `i` of an image stands for the pixel `i / width` rows below and `i % width`
/// columns right of the corner of the image, and for no other.
pub proof fn law_index_number(p: PlacementModel, i: int, x: int, y: int)
    requires
        p.width > 0,
        0 <= i,
    ensures
        index_number(p, x, y) == Some(i) <==> x == p.left + i % (p.width as int) && y == p.top + i
            / (p.width as int),
{
    let w = p.width as int;
    assert(0 <= i / w && i == (i / w) * w + i % w && 0 <= i % w < w) by (nonlinear_arith)
        requires
            0 <= i,
            w > 0,
    ;
    if index_number(p, x, y) == Some(i) {
        lemma_row_and_column(y - p.top, x - p.left, w);
    }
}

/// A table has a colour for every index below the number of its whole entries, and for no other.
pub proof fn law_color_in_bounds(table: Seq<u8>, index: u8)
    ensures
        color_at(table, index) is Some <==> index < table.len() / 3,
{
}

/// A colour table that was announced holds 2 to 256 whole colours.
pub proof fn law_color_table(flags: u8)
    requires
        flags & 0b1000_0000 != 0,
    ensures
        2 <= color_table_bytes(flags) / 3 <= 256,
        color_table_bytes(flags) % 3 == 0,
{
    lemma_color_table_bytes(flags);
}

/// A file has a global colour table if its header says so, of the size that the flags announce.
pub proof fn law_global_color_table(s: Seq<u8>)
    ensures
        header_model(s) matches Ok((_, (header, table))) ==> {
            &&& header.has_global_color_table == (s[10] & 0b1000_0000 != 0)
            &&& header.has_global_color_table <==> table is Some
            &&& table matches Some(bytes) ==> bytes.len() == color_table_bytes(s[10])
            &&& header.color_resolution <= 7
        },
{
    if s.len() >= 13 {
        let flags = s[10];
        lemma_color_table_bytes(flags);
        assert((flags & 0b0111_0000) >> 4 <= 7) by (bit_vector);
    }
}

/// An image has a colour table of its own if its flags say so, of the size that they announce.
pub proof fn law_local_color_table(s: Seq<u8>)
    ensures
        image_model(s) matches Ok((_, image)) ==> {
            &&& image.local_color_table is Some <==> s[8] & 0b1000_0000 != 0
            &&& image.local_color_table matches Some(bytes) ==> bytes.len() == color_table_bytes(
                s[8],
            )
        },
{
    if s.len() >= 9 {
        lemma_color_table_bytes(s[8]);
    }
}

/// What follows a chain changes neither the chain nor what it carries.
pub proof fn law_chain_ignores_what_follows(s: Seq<u8>, more: Seq<u8>)
    requires
        chain_len(s) is Some,
    ensures
        chain_len(s + more) == chain_len(s),
        chain_data(s + more) == chain_data(s),
        s.skip(chain_len(s)->0 as int) + more == (s + more).skip(chain_len(s)->0 as int),
    decreases s.len(),
{
    lemma_chain_fits(s);
    let n = chain_len(s)->0 as int;
    let all = s + more;
    assert(all.skip(n) =~= s.skip(n) + more);
    if s[0] != 0 {
        let k = 1 + s[0];
        law_chain_ignores_what_follows(s.skip(k), more);
        assert(all.skip(k) =~= s.skip(k) + more);
        assert(all.subrange(1, k) =~= s.subrange(1, k));
    }
}

/// What follows a header does not change how it is read.
pub proof fn law_header_ignores_what_follows(s: Seq<u8>, more: Seq<u8>)
    ensures
        header_model(s) matches Ok((rest, header)) ==> header_model(s + more) == Ok::<_, ParseError>(
            (rest + more, header),
        ),
{
    if let Ok((rest, _)) = header_model(s) {
        let all = s + more;
        let n = color_table_bytes(s[10]) as int;
        assert(all.skip(13 + n) =~= s.skip(13 + n) + more);
        assert(all.subrange(13, 13 + n) =~= s.subrange(13, 13 + n));
    }
}

/// What follows an image does not change how it is read.
pub proof fn law_image_ignores_what_follows(s: Seq<u8>, more: Seq<u8>)
    ensures
        image_model(s) matches Ok((rest, image)) ==> image_model(s + more) == Ok::<_, ParseError>(
            (rest + more, image),
        ),
{
    if let Ok((rest, _)) = image_model(s) {
        let all = s + more;
        let n = color_table_bytes(s[8]) as int;
        let t = s.skip(10 + n);
        let k = chain_len(t)->0 as int;
        lemma_chain_fits(t);
        law_chain_ignores_what_follows(t, more);
        assert(all.skip(10 + n) =~= t + more);
        assert(all.skip(10 + n + k) =~= rest + more);
        assert(all.subrange(9, 9 + n) =~= s.subrange(9, 9 + n));
        assert(all.subrange(10 + n, 10 + n + k) =~= s.subrange(10 + n, 10 + n + k));
    }
}

proof fn lemma_application_ignores_what_follows(s: Seq<u8>, more: Seq<u8>)
    ensures
        application_model(s) matches Ok((rest, extension)) ==> application_model(s + more) == Ok::<
            _,
            ParseError,
        >((rest + more, extension)),
{
    if let Ok((rest, _)) = application_model(s) {
        let all = s + more;
        assert(all.skip(12) =~= s.skip(12) + more);
        assert(all.subrange(1, 12) =~= s.subrange(1, 12));
        if is_netscape(s) {
            assert(all.skip(17) =~= s.skip(17) + more);
        } else {
            law_chain_ignores_what_follows(s.skip(12), more);
            if is_netscape(all) {
                // the chain of `s` is the one that the repetition count lies in
                lemma_netscape_chain(s);
            }
        }
    }
}

/// The chain behind the name of an application holds all of a repetition count that it starts.
proof fn lemma_netscape_chain(s: Seq<u8>)
    requires
        s.len() >= 12,
        chain_len(s.skip(12)) is Some,
        s.len() > 12 ==> s[12] == 3,
    ensures
        s.len() >= 17,
{
    let t = s.skip(12);
    lemma_chain_fits(t);
    lemma_chain_fits(t.skip(4));
    assert(t[0] == s[12]);
}

/// What follows an extension does not change how it is read.
pub proof fn law_extension_ignores_what_follows(s: Seq<u8>, more: Seq<u8>)
    requires
        extension_supported(s),
    ensures
        extension_model(s) matches Ok((rest, extension)) ==> extension_model(s + more) == Ok::<
            _,
            ParseError,
        >((rest + more, extension)),
{
    if let Ok((rest, _)) = extension_model(s) {
        let all = s + more;
        let t = s.skip(1);
        assert(all.skip(1) =~= t + more);
        if s[0] == APPLICATION_LABEL {
            lemma_application_ignores_what_follows(t, more);
        } else if s[0] == COMMENT_LABEL {
            lemma_chain_fits(t);
            law_chain_ignores_what_follows(t, more);
            let n = chain_len(t)->0 as int;
            assert(all.skip(1 + n) =~= s.skip(1 + n) + more);
            assert(all.subrange(1, 1 + n) =~= s.subrange(1, 1 + n));
        } else if s[0] == GRAPHIC_CONTROL_LABEL {
            assert((t + more).skip(6) =~= t.skip(6) + more);
        } else {
            assert(all.skip(14) =~= s.skip(14) + more);
            law_chain_ignores_what_follows(s.skip(14), more);
        }
    }
}

/// What follows a block other than the trailer does not change how it is read.
pub proof fn law_segment_ignores_what_follows(s: Seq<u8>, more: Seq<u8>)
    requires
        segment_supported(s),
    ensures
        segment_model(s) matches Ok((rest, segment)) ==> segment is Trailer || segment_model(
            s + more,
        ) == Ok::<_, ParseError>((rest + more, segment)),
{
    if s.len() > 0 {
        assert((s + more).skip(1) =~= s.skip(1) + more);
        if s[0] == EXTENSION_INTRODUCER {
            law_extension_ignores_what_follows(s.skip(1), more);
        } else if s[0] == IMAGE_SEPARATOR {
            law_image_ignores_what_follows(s.skip(1), more);
        }
    }
}

/// A skip to the next graphic control extension steps over a block as reading it does.
///
/// An application extension counts as such a block if it gives its name the eleven bytes that the
/// format wants.
pub proof fn law_skip_steps_over_blocks(s: Seq<u8>)
    requires
        segment_supported(s),
        s.len() > 2 && s[0] == EXTENSION_INTRODUCER && s[1] == APPLICATION_LABEL ==> s[2] == 11,
    ensures
        segment_model(s) matches Ok((rest, segment)) ==> match segment {
            SegmentModel::Trailer => next_graphic_control(s) == Ok::<_, ParseError>(
                Seq::<u8>::empty(),
            ),
            SegmentModel::Extension(
                ExtensionModel::GraphicControl(_),
            ) => next_graphic_control(s) == Ok::<_, ParseError>(s),
            _ => next_graphic_control(s) == next_graphic_control(rest),
        },
{
    if let Ok((rest, segment)) = segment_model(s) {
        if s[0] == EXTENSION_INTRODUCER {
            let t = s.skip(1);
            let u = s.skip(2);
            assert(t.skip(1) =~= u);
            if s[1] == APPLICATION_LABEL {
                assert(u.len() >= 12);
                let v = u.skip(12);
                assert(chain_len(u) == match chain_len(v) {
                    Some(n) => Some(12 + n),
                    None => None,
                });
                if is_netscape(u) {
                    assert(v.skip(4)[0] == 0);
                    assert(chain_len(v.skip(4)) == Some(1nat));
                    assert(chain_len(v) == Some(5nat));
                    assert(rest =~= u.skip(17));
                } else {
                    lemma_chain_fits(v);
                    let n = chain_len(v)->0 as int;
                    assert(rest =~= u.skip(12 + n));
                }
            } else if s[1] == COMMENT_LABEL {
                lemma_chain_fits(u);
                let n = chain_len(u)->0 as int;
                assert(rest =~= u.skip(n));
            } else if s[1] == PLAIN_TEXT_LABEL {
                assert(t.skip(14) =~= s.skip(15));
            }
        }
    }
}

/// A walk through the frames that finds no block it can read stays where it is, and finds none
/// ever after.
pub proof fn law_walk_stops_for_good(m: FramesModel)
    requires
        m.upcoming() is Nothing,
    ensures
        m.advanced() == m,
        m.advanced().upcoming() is Nothing,
{
}

/// A walk through the frames makes progress with each block that it reads, so it comes to an end:
/// the frames that it has found and the bytes that remain never grow in number together.
pub proof fn law_walk_ends(m: FramesModel)
    requires
        m.supported(),
    ensures
        m.advanced().frame_index + m.advanced().remaining.len() <= m.frame_index
            + m.remaining.len(),
        !(m.upcoming() is Nothing) ==> m.advanced().remaining.len() < m.remaining.len(),
        m.advanced().gif == m.gif,
        m.advanced().frame_index == m.frame_index + (if m.upcoming() is Found {
            1nat
        } else {
            0
        }),
{
    lemma_walk_shrinks(m);
}

} // verus!
