//! How the parts of a file are laid out, byte by byte, and that they are read back.
//!
//! Each part is written here by a function of its own, with numbers taken apart into bytes and
//! flags put together by plain arithmetic. The laws state that what was written is read, and that
//! nothing else is.

use crate::blocks::{
    after_chain, chain_data, chain_len, lemma_chain_fits, LenPrefixRawDataView,
};
use crate::color::{color_at, color_table_bytes, lemma_color_table_bytes};
use crate::error::{parsed_as, view_of, ParseError, Parsed};
use crate::header::{header_model, raw_gif_model, Header, Version};
use crate::segment::{
    extension_model, extension_supported, image_model, is_netscape, netscape_id,
    next_graphic_control, segment_model, segment_supported, ExtensionBlock, ExtensionModel,
    GraphicControl, ImageBlock, ImageModel, Segment, SegmentModel,
};
use vstd::arithmetic::power2::pow2;
use vstd::prelude::*;

verus! {

/// What the bits of a flag byte are worth.
proof fn lemma_flag_bits(flags: u8)
    ensures
        flags & 0b1000_0000 != 0 <==> flags >= 128,
        flags & 0b0100_0000 != 0 <==> (flags / 64) % 2 == 1,
        (flags & 0b0111_0000) >> 4 == (flags / 16) % 8,
        flags & 0b0000_0111 == flags % 8,
        flags & 0b0000_0001 != 0 <==> flags % 2 == 1,
{
    assert(flags & 0b1000_0000 != 0 <==> flags >= 128) by (bit_vector);
    assert(flags & 0b0100_0000 != 0 <==> (flags / 64) % 2 == 1) by (bit_vector);
    assert((flags & 0b0111_0000) >> 4 == (flags / 16) % 8) by (bit_vector);
    assert(flags & 0b0000_0111 == flags % 8) by (bit_vector);
    assert(flags & 0b0000_0001 != 0 <==> flags % 2 == 1) by (bit_vector);
}

/// The size of a colour table follows from its flag byte: there is a table if the byte is 128 or
/// more, and its number of colours is the power of two of one more than the rest modulo eight.
pub proof fn law_color_table_size(flags: u8)
    ensures
        flags < 128 ==> color_table_bytes(flags) == 0,
        flags >= 128 ==> color_table_bytes(flags) == 3 * pow2((flags % 8 + 1) as nat),
{
    lemma_flag_bits(flags);
}

/// A chain of these blocks: the length of each, then its bytes, and a zero at the end.
pub open spec fn chain_bytes(blocks: Seq<Seq<u8>>) -> Seq<u8>
    decreases blocks.len(),
{
    if blocks.len() == 0 {
        seq![0]
    } else {
        seq![blocks[0].len() as u8] + blocks[0] + chain_bytes(blocks.skip(1))
    }
}

/// Each block has 1 to 255 bytes.
pub open spec fn are_blocks(blocks: Seq<Seq<u8>>) -> bool {
    forall|k: int| 0 <= k < blocks.len() ==> 1 <= (#[trigger] blocks[k]).len() <= 255
}

/// The blocks of a chain, joined.
pub open spec fn joined(blocks: Seq<Seq<u8>>) -> Seq<u8>
    decreases blocks.len(),
{
    if blocks.len() == 0 {
        Seq::empty()
    } else {
        blocks[0] + joined(blocks.skip(1))
    }
}

/// A chain that was written is read whole, whatever follows it, and carries its blocks in order.
pub proof fn law_chain_is_read(blocks: Seq<Seq<u8>>, more: Seq<u8>)
    requires
        are_blocks(blocks),
    ensures
        chain_len(chain_bytes(blocks) + more) == Some(chain_bytes(blocks).len()),
        chain_data(chain_bytes(blocks) + more) == joined(blocks),
        after_chain(chain_bytes(blocks) + more) == Ok::<Seq<u8>, ParseError>(more),
    decreases blocks.len(),
{
    let s = chain_bytes(blocks) + more;
    if blocks.len() > 0 {
        let head = blocks[0];
        let tail = blocks.skip(1);
        assert forall|k: int| 0 <= k < tail.len() implies 1 <= (#[trigger] tail[k]).len()
            <= 255 by {
            assert(tail[k] == blocks[k + 1]);
        }
        law_chain_is_read(tail, more);
        assert(s[0] == head.len());
        assert(s.skip(1 + s[0]) =~= chain_bytes(tail) + more);
        assert(s.subrange(1, 1 + s[0]) =~= head);
    }
    assert(s.skip(chain_bytes(blocks).len() as int) =~= more);
}

/// What is read as a chain was written as one: some blocks, their lengths before them, and a zero
/// behind the last.
pub proof fn law_chain_was_written(s: Seq<u8>) -> (blocks: Seq<Seq<u8>>)
    requires
        chain_len(s) is Some,
    ensures
        are_blocks(blocks),
        chain_len(s) == Some(chain_bytes(blocks).len()),
        chain_data(s) == joined(blocks),
        s == chain_bytes(blocks) + s.skip(chain_bytes(blocks).len() as int),
    decreases s.len(),
{
    if s[0] == 0 {
        let blocks = Seq::<Seq<u8>>::empty();
        assert(s =~= chain_bytes(blocks) + s.skip(1));
        blocks
    } else {
        let k = 1 + s[0];
        let head = s.subrange(1, k);
        let rest = law_chain_was_written(s.skip(k));
        lemma_chain_fits(s.skip(k));
        let blocks = seq![head] + rest;
        assert(blocks.skip(1) =~= rest);
        assert(blocks[0] == head);
        assert forall|j: int| 0 <= j < blocks.len() implies 1 <= (#[trigger] blocks[j]).len()
            <= 255 by {
            if j > 0 {
                assert(blocks[j] == rest[j - 1]);
            }
        }
        let n = chain_bytes(blocks).len() as int;
        assert(n == k + chain_bytes(rest).len());
        assert(s.skip(k).skip(n - k) =~= s.skip(n));
        assert(s =~= seq![s[0]] + head + s.skip(k));
        assert(s =~= chain_bytes(blocks) + s.skip(n));
        blocks
    }
}

/// A chain that the bytes do not hold whole is an unexpected end of the file.
pub proof fn law_unfinished_chain(s: Seq<u8>)
    ensures
        after_chain(s) is Err ==> after_chain(s) == Err::<Seq<u8>, _>(
            ParseError::UnexpectedEndOfFile,
        ),
        after_chain(s) is Err <==> chain_len(s) is None,
{
}

/// The data of blocks is read one block after the other, up to the closing block, and up to where
/// the bytes hold no whole block if they are not closed.
pub proof fn law_chain_data(block: Seq<u8>, tail: Seq<u8>)
    ensures
        1 <= block.len() <= 255 ==> chain_data(seq![block.len() as u8] + block + tail) == block
            + chain_data(tail),
        tail.len() == 0 || tail[0] == 0 || tail.len() < 1 + tail[0] ==> chain_data(tail)
            == Seq::<u8>::empty(),
{
    let s = seq![block.len() as u8] + block + tail;
    if 1 <= block.len() <= 255 {
        assert(s.skip(1 + s[0]) =~= tail);
        assert(s.subrange(1, 1 + s[0]) =~= block);
    }
}

/// A reader of a chain has before it what is left of its block and the data of what follows, and
/// nothing if it stands in no block.
pub proof fn law_chain_view(reader: LenPrefixRawDataView)
    ensures
        reader.block().len() == 0 ==> reader@ == Seq::<u8>::empty(),
        reader.block().len() > 0 ==> reader@ == reader.block().skip(reader.position())
            + chain_data(reader.tail()),
        reader.closed_chain() <==> (reader.block().len() > 0 ==> chain_len(reader.tail()) is Some),
{
}

/// The bytes of a colour table that may be missing.
pub open spec fn table_bytes(table: Option<Seq<u8>>) -> Seq<u8> {
    match table {
        Some(table) => table,
        None => Seq::empty(),
    }
}

/// A table has the size that the three bits `size` of the flags announce.
pub open spec fn table_has_size(table: Option<Seq<u8>>, size: u8) -> bool {
    &&& size < 8
    &&& table matches Some(table) ==> table.len() == 3 * pow2((size + 1) as nat)
}

/// The header of a file and its global colour table.
pub open spec fn header_bytes(
    header: Header,
    sorted: bool,
    size: u8,
    aspect: u8,
    table: Option<Seq<u8>>,
) -> Seq<u8> {
    let flags = (if table is Some {
        128int
    } else {
        0
    }) + 16 * header.color_resolution + (if sorted {
        8int
    } else {
        0
    }) + size;
    seq![
        0x47u8,
        0x49,
        0x46,
        0x38,
        if header.version == Version::V87a {
            0x37
        } else {
            0x39
        },
        0x61,
        (header.width % 256) as u8,
        (header.width / 256) as u8,
        (header.height % 256) as u8,
        (header.height / 256) as u8,
        flags as u8,
        header.bg_color_index,
        aspect,
    ] + table_bytes(table)
}

/// A header that was written with any numbers is read back with the same ones, and so is the
/// global colour table.
pub proof fn law_header_is_read(
    header: Header,
    sorted: bool,
    size: u8,
    aspect: u8,
    table: Option<Seq<u8>>,
    more: Seq<u8>,
)
    requires
        header.color_resolution < 8,
        header.has_global_color_table == table is Some,
        table_has_size(table, size),
    ensures
        header_model(header_bytes(header, sorted, size, aspect, table) + more) == Ok::<
            _,
            ParseError,
        >((more, (header, table))),
{
    let s = header_bytes(header, sorted, size, aspect, table) + more;
    let flags = s[10];
    lemma_flag_bits(flags);
    law_color_table_size(flags);
    lemma_color_table_bytes(flags);
    let n = color_table_bytes(flags) as int;
    assert(flags % 8 == size);
    assert((flags / 16) % 8 == header.color_resolution);
    assert(n == table_bytes(table).len());
    assert(s.skip(13 + n) =~= more);
    if let Some(t) = table {
        assert(s.subrange(13, 13 + n) =~= t);
    }
}

/// What is read as a header was written as one.
pub proof fn law_header_was_written(s: Seq<u8>)
    requires
        header_model(s) is Ok,
    ensures
        header_model(s) matches Ok((rest, (header, table))) && {
            &&& s == header_bytes(header, (s[10] / 8) % 2 == 1, s[10] % 8, s[12], table) + rest
            &&& header.color_resolution < 8
            &&& header.has_global_color_table == table is Some
            &&& table_has_size(table, s[10] % 8)
        },
{
    let flags = s[10];
    lemma_flag_bits(flags);
    law_color_table_size(flags);
    lemma_color_table_bytes(flags);
    let n = color_table_bytes(flags) as int;
    if let Ok((rest, (header, table))) = header_model(s) {
        let written = header_bytes(header, (flags / 8) % 2 == 1, flags % 8, s[12], table);
        assert(written.len() == 13 + n);
        assert(s.take(13) =~= written.take(13));
        assert(table_bytes(table) =~= s.subrange(13, 13 + n));
        assert forall|i: int| 0 <= i < s.len() implies s[i] == (written + rest)[i] by {
            if i < 13 {
                assert(s[i] == s.take(13)[i]);
            } else if i < 13 + n {
                assert(s[i] == table_bytes(table)[i - 13]);
            }
        }
        assert(s =~= written + rest);
    }
}

/// The screen is as wide and as high as the two bytes of each say, the low byte first.
pub proof fn law_screen_size(s: Seq<u8>)
    ensures
        header_model(s) matches Ok((_, (header, _))) ==> {
            &&& header.width % 256 == s[6] && header.width / 256 == s[7]
            &&& header.height % 256 == s[8] && header.height / 256 == s[9]
        },
{
}

/// A file is refused for its signature exactly if its first three bytes are not `GIF`, or if they
/// are and the three behind them are there and name no version; the error holds the first three.
/// It is refused as too short exactly if nothing is wrong as far as it goes, but it ends before
/// the header and its table do.
pub proof fn law_header_is_refused(s: Seq<u8>)
    ensures
        ({
            let gif = s.take(3) == seq![0x47u8, 0x49, 0x46];
            let version = s.subrange(3, 6) == seq![0x38u8, 0x37, 0x61] || s.subrange(3, 6)
                == seq![0x38u8, 0x39, 0x61];
            let whole = s.len() >= 13 && (s[10] >= 128 ==> s.len() >= 13 + 3 * pow2(
                (s[10] % 8 + 1) as nat,
            ));
            if s.len() < 3 {
                header_model(s) == Err::<(Seq<u8>, (Header, Option<Seq<u8>>)), _>(
                    ParseError::UnexpectedEndOfFile,
                )
            } else if !gif || s.len() >= 6 && !version {
                header_model(s) == Err::<(Seq<u8>, (Header, Option<Seq<u8>>)), _>(
                    ParseError::InvalidFileSignature([s[0], s[1], s[2]]),
                )
            } else if !whole {
                header_model(s) == Err::<(Seq<u8>, (Header, Option<Seq<u8>>)), _>(
                    ParseError::UnexpectedEndOfFile,
                )
            } else {
                header_model(s) is Ok
            }
        }),
{
    let gif = seq![0x47u8, 0x49, 0x46];
    let v87 = seq![0x38u8, 0x37, 0x61];
    let v89 = seq![0x38u8, 0x39, 0x61];
    if s.len() >= 3 {
        assert(s.take(3)[0] == s[0] && s.take(3)[1] == s[1] && s.take(3)[2] == s[2]);
        assert(gif[0] == 0x47 && gif[1] == 0x49 && gif[2] == 0x46);
        if s[0] == 0x47 && s[1] == 0x49 && s[2] == 0x46 {
            assert(s.take(3) =~= gif);
        }
    }
    if s.len() >= 6 {
        let v = s.subrange(3, 6);
        assert(v[0] == s[3] && v[1] == s[4] && v[2] == s[5]);
        assert(v87[0] == 0x38 && v87[1] == 0x37 && v87[2] == 0x61);
        assert(v89[0] == 0x38 && v89[1] == 0x39 && v89[2] == 0x61);
        if s[3] == 0x38 && s[4] == 0x37 && s[5] == 0x61 {
            assert(v =~= v87);
        }
        if s[3] == 0x38 && s[4] == 0x39 && s[5] == 0x61 {
            assert(v =~= v89);
        }
    }
    if s.len() >= 13 {
        law_color_table_size(s[10]);
    }
}

/// A file is its header, its global colour table and the blocks behind them.
pub proof fn law_file_is_cut(s: Seq<u8>)
    ensures
        match header_model(s) {
            Ok((rest, (header, table))) => raw_gif_model(s) matches Ok(gif) && gif.header == header
                && gif.global_color_table == table && gif.raw_block_data == rest,
            Err(error) => raw_gif_model(s) matches Err(got) && got == error,
        },
{
}

/// An image behind its separator; `image_data` of the image is the chain of `blocks`.
pub open spec fn image_bytes(
    image: ImageModel,
    unused: u8,
    size: u8,
    blocks: Seq<Seq<u8>>,
) -> Seq<u8> {
    let flags = (if image.local_color_table is Some {
        128int
    } else {
        0
    }) + (if image.is_interlaced {
        64int
    } else {
        0
    }) + 8 * unused + size;
    seq![
        (image.left % 256) as u8,
        (image.left / 256) as u8,
        (image.top % 256) as u8,
        (image.top / 256) as u8,
        (image.width % 256) as u8,
        (image.width / 256) as u8,
        (image.height % 256) as u8,
        (image.height / 256) as u8,
        flags as u8,
    ] + table_bytes(image.local_color_table) + seq![image.lzw_min_code_size] + chain_bytes(blocks)
}

/// An image that was written with any numbers is read back with the same ones, and so are its
/// local colour table and its data.
pub proof fn law_image_is_read(
    image: ImageModel,
    unused: u8,
    size: u8,
    blocks: Seq<Seq<u8>>,
    more: Seq<u8>,
)
    requires
        unused < 8,
        table_has_size(image.local_color_table, size),
        are_blocks(blocks),
        image.image_data == chain_bytes(blocks),
    ensures
        image_model(image_bytes(image, unused, size, blocks) + more) == Ok::<_, ParseError>(
            (more, image),
        ),
{
    let s = image_bytes(image, unused, size, blocks) + more;
    let flags = s[8];
    lemma_flag_bits(flags);
    law_color_table_size(flags);
    lemma_color_table_bytes(flags);
    let n = color_table_bytes(flags) as int;
    assert(flags % 8 == size);
    assert(((flags / 64) % 2 == 1) == image.is_interlaced);
    assert(n == table_bytes(image.local_color_table).len());
    assert(s.skip(10 + n) =~= chain_bytes(blocks) + more);
    law_chain_is_read(blocks, more);
    let k = chain_bytes(blocks).len();
    assert(s.skip(10 + n + k) =~= more);
    assert(s.subrange(10 + n, 10 + n + k) =~= chain_bytes(blocks));
    assert(s[9 + n] == image.lzw_min_code_size);
    if let Some(t) = image.local_color_table {
        assert(s.subrange(9, 9 + n) =~= t);
    }
}

/// What is read as an image was written as one.
pub proof fn law_image_was_written(s: Seq<u8>) -> (blocks: Seq<Seq<u8>>)
    requires
        image_model(s) is Ok,
    ensures
        are_blocks(blocks),
        image_model(s) matches Ok((rest, image)) && {
            &&& s == image_bytes(image, (s[8] / 8) % 8, s[8] % 8, blocks) + rest
            &&& image.image_data == chain_bytes(blocks)
            &&& table_has_size(image.local_color_table, s[8] % 8)
        },
{
    let flags = s[8];
    lemma_flag_bits(flags);
    law_color_table_size(flags);
    lemma_color_table_bytes(flags);
    let n = color_table_bytes(flags) as int;
    let t = s.skip(10 + n);
    let blocks = law_chain_was_written(t);
    lemma_chain_fits(t);
    let k = chain_bytes(blocks).len() as int;
    if let Ok((rest, image)) = image_model(s) {
        let written = image_bytes(image, (flags / 8) % 8, flags % 8, blocks);
        let table = table_bytes(image.local_color_table);
        assert(table =~= s.subrange(9, 9 + n));
        assert(written.len() == 10 + n + k);
        assert(image.image_data =~= chain_bytes(blocks)) by {
            assert(image.image_data =~= t.take(k));
        }
        assert(s.take(9) =~= written.take(9));
        assert forall|i: int| 0 <= i < s.len() implies s[i] == (written + rest)[i] by {
            if i < 9 {
                assert(s[i] == s.take(9)[i]);
            } else if i < 9 + n {
                assert(s[i] == table[i - 9]);
            } else if 10 + n <= i < 10 + n + k {
                assert(s[i] == t[i - 10 - n]);
                assert(t[i - 10 - n] == chain_bytes(blocks)[i - 10 - n]);
            }
        }
        assert(s =~= written + rest);
    }
    blocks
}

/// The place and the size of an image are the numbers that the two bytes of each say, the low
/// byte first, and the highest bits of its flags say whether it has a table and is interlaced.
pub proof fn law_image_numbers(s: Seq<u8>)
    ensures
        image_model(s) matches Ok((_, image)) ==> {
            &&& image.left % 256 == s[0] && image.left / 256 == s[1]
            &&& image.top % 256 == s[2] && image.top / 256 == s[3]
            &&& image.width % 256 == s[4] && image.width / 256 == s[5]
            &&& image.height % 256 == s[6] && image.height / 256 == s[7]
            &&& image.local_color_table is Some <==> s[8] >= 128
            &&& image.is_interlaced <==> (s[8] / 64) % 2 == 1
        },
{
    if s.len() >= 9 {
        lemma_flag_bits(s[8]);
        lemma_color_table_bytes(s[8]);
    }
}

/// An image is refused for nothing but an early end of the bytes.
pub proof fn law_image_is_refused(s: Seq<u8>)
    ensures
        image_model(s) matches Err(error) ==> error == ParseError::UnexpectedEndOfFile,
{
}

/// A graphic control extension from its label on.
pub open spec fn control_bytes(flags: u8, control: GraphicControl) -> Seq<u8> {
    seq![
        0xf9u8,
        4,
        flags,
        (control.delay_centis % 256) as u8,
        (control.delay_centis / 256) as u8,
        control.transparent_color_index,
        0,
    ]
}

/// A graphic control extension is read back with the same delay and the same index; it is
/// transparent exactly if its flags are odd.
pub proof fn law_control_is_read(flags: u8, control: GraphicControl, more: Seq<u8>)
    requires
        control.is_transparent == (flags % 2 == 1),
    ensures
        extension_model(control_bytes(flags, control) + more) == Ok::<_, ParseError>(
            (more, ExtensionModel::GraphicControl(control)),
        ),
{
    let s = control_bytes(flags, control) + more;
    lemma_flag_bits(flags);
    let t = s.skip(1);
    assert(t.skip(6) =~= more);
    assert(t[0] == s[1] && t[1] == s[2] && t[2] == s[3] && t[3] == s[4] && t[4] == s[5] && t[5]
        == s[6]);
}

/// What is read as a graphic control extension was written as one.
pub proof fn law_control_was_written(s: Seq<u8>)
    requires
        s.len() > 0,
        s[0] == 0xf9,
        extension_model(s) is Ok,
    ensures
        extension_model(s) matches Ok((rest, ExtensionModel::GraphicControl(control))) && {
            &&& s == control_bytes(s[2], control) + rest
            &&& control.is_transparent <==> s[2] % 2 == 1
        },
{
    lemma_flag_bits(s[2]);
    let t = s.skip(1);
    assert(t[0] == s[1] && t[1] == s[2] && t[2] == s[3] && t[3] == s[4] && t[4] == s[5] && t[5]
        == s[6]);
    if let Ok((rest, ExtensionModel::GraphicControl(control))) = extension_model(s) {
        let written = control_bytes(s[2], control);
        assert(rest =~= s.skip(7));
        assert(s =~= written + rest);
    }
}

/// The seven higher bits of the flags of a graphic control extension do not matter.
pub proof fn law_control_flags(s: Seq<u8>, flags: u8)
    requires
        s.len() >= 3,
        s[0] == 0xf9,
        s[2] % 2 == flags % 2,
    ensures
        extension_model(s.update(2, flags)) == extension_model(s),
{
    let other = s.update(2, flags);
    lemma_flag_bits(flags);
    lemma_flag_bits(s[2]);
    let a = s.skip(1);
    let b = other.skip(1);
    assert(b =~= a.update(1, flags));
    if s.len() >= 7 {
        assert(a.skip(6) =~= b.skip(6));
    }
}

/// A comment is read back as its chain.
pub proof fn law_comment_is_read(blocks: Seq<Seq<u8>>, more: Seq<u8>)
    requires
        are_blocks(blocks),
    ensures
        extension_model(seq![0xfeu8] + chain_bytes(blocks) + more) == Ok::<_, ParseError>(
            (more, ExtensionModel::Comment(chain_bytes(blocks))),
        ),
{
    let s = seq![0xfeu8] + chain_bytes(blocks) + more;
    let n = chain_bytes(blocks).len() as int;
    assert(s.skip(1) =~= chain_bytes(blocks) + more);
    law_chain_is_read(blocks, more);
    assert(s.skip(1 + n) =~= more);
    assert(s.subrange(1, 1 + n) =~= chain_bytes(blocks));
}

/// A plain text extension is passed over: thirteen bytes of any kind and a chain.
pub proof fn law_plain_text_is_read(head: Seq<u8>, blocks: Seq<Seq<u8>>, more: Seq<u8>)
    requires
        head.len() == 13,
        are_blocks(blocks),
    ensures
        extension_model(seq![0x01u8] + head + chain_bytes(blocks) + more) == Ok::<_, ParseError>(
            (more, ExtensionModel::PlainText),
        ),
{
    let s = seq![0x01u8] + head + chain_bytes(blocks) + more;
    assert(s.skip(14) =~= chain_bytes(blocks) + more);
    law_chain_is_read(blocks, more);
}

/// What an application extension says: a number of repetitions if it is the one of `NETSCAPE2.0`
/// with one block, of three bytes, of which the first is one.
pub open spec fn application_says(head: Seq<u8>, blocks: Seq<Seq<u8>>) -> ExtensionModel {
    let netscape = head == seq![
        11u8,
        0x4e,
        0x45,
        0x54,
        0x53,
        0x43,
        0x41,
        0x50,
        0x45,
        0x32,
        0x2e,
        0x30,
    ];
    if netscape && blocks.len() == 1 && blocks[0].len() == 3 && blocks[0][0] == 1 {
        ExtensionModel::NetscapeApplication {
            repetitions: (blocks[0][1] + 256 * blocks[0][2]) as u16,
        }
    } else {
        ExtensionModel::Application
    }
}

/// An application extension is read back: twelve bytes of any kind and a chain.
pub proof fn law_application_is_read(head: Seq<u8>, blocks: Seq<Seq<u8>>, more: Seq<u8>)
    requires
        head.len() == 12,
        are_blocks(blocks),
    ensures
        extension_model(seq![0xffu8] + head + chain_bytes(blocks) + more) == Ok::<_, ParseError>(
            (more, application_says(head, blocks)),
        ),
{
    let s = seq![0xffu8] + head + chain_bytes(blocks) + more;
    let t = s.skip(1);
    let chain = chain_bytes(blocks) + more;
    assert(t.skip(12) =~= chain);
    law_chain_is_read(blocks, more);
    assert(forall|i: int| 0 <= i < 12 ==> t[i] == head[i]);
    assert(forall|i: int| 12 <= i < t.len() ==> t[i] == chain[i - 12]);
    let name = netscape_id();
    assert(t.subrange(1, 12) =~= head.subrange(1, 12));
    assert((head == seq![11u8] + name) == (head[0] == 11 && head.subrange(1, 12) == name)) by {
        if head[0] == 11 && head.subrange(1, 12) == name {
            assert forall|i: int| 0 <= i < 12 implies head[i] == (seq![11u8] + name)[i] by {
                if i > 0 {
                    assert(head[i] == head.subrange(1, 12)[i - 1]);
                }
            }
            assert(head =~= seq![11u8] + name);
        }
        if head == seq![11u8] + name {
            assert(head.subrange(1, 12) =~= name);
        }
    }
    assert(seq![11u8] + name =~= seq![
        11u8,
        0x4e,
        0x45,
        0x54,
        0x53,
        0x43,
        0x41,
        0x50,
        0x45,
        0x32,
        0x2e,
        0x30,
    ]);
    if blocks.len() > 0 {
        let head = blocks[0];
        assert(chain_bytes(blocks)[0] == head.len());
        if head.len() == 3 {
            assert(chain[1] == head[0] && chain[2] == head[1] && chain[3] == head[2]);
            let behind = chain_bytes(blocks.skip(1));
            assert(chain[4] == behind[0]);
            if blocks.len() == 1 {
                assert(behind[0] == 0);
                assert(t.skip(17) =~= more);
            } else {
                assert(blocks.skip(1)[0] == blocks[1]);
                assert(behind[0] == blocks[1].len());
            }
        }
    }
}

/// What is read as an extension other than a graphic control was written as one: the label, the
/// bytes `head` before its chain, and the chain.
pub proof fn law_extension_was_written(s: Seq<u8>) -> (res: (Seq<u8>, Seq<Seq<u8>>))
    requires
        s.len() > 0,
        s[0] == 0xfe || s[0] == 0x01 || s[0] == 0xff,
        extension_model(s) is Ok,
    ensures
        ({
            let (head, blocks) = res;
            &&& are_blocks(blocks)
            &&& extension_model(s) matches Ok((rest, extension)) && {
                &&& s == seq![s[0]] + head + chain_bytes(blocks) + rest
                &&& s[0] == 0xfe ==> head.len() == 0 && extension == ExtensionModel::Comment(
                    chain_bytes(blocks),
                )
                &&& s[0] == 0x01 ==> head.len() == 13 && extension == ExtensionModel::PlainText
                &&& s[0] == 0xff ==> head.len() == 12 && extension == application_says(head, blocks)
            }
        }),
{
    let n: int = if s[0] == 0xfe {
        0
    } else if s[0] == 0x01 {
        13
    } else {
        12
    };
    let t = s.skip(1);
    let head = s.subrange(1, 1 + n);
    if s[0] == 0xff {
        assert(s.skip(1).skip(12) =~= s.skip(13));
        if is_netscape(t) {
            reveal_with_fuel(chain_len, 2);
            assert(s.skip(13).skip(4) =~= s.skip(17));
            assert(s.skip(13)[0] == t[12]);
            assert(s.skip(17)[0] == t[16]);
        }
    }
    let blocks = law_chain_was_written(s.skip(1 + n));
    let k = chain_bytes(blocks).len() as int;
    lemma_chain_fits(s.skip(1 + n));
    let rest = s.skip(1 + n + k);
    assert(s.skip(1 + n).skip(k) =~= rest);
    assert(s =~= seq![s[0]] + head + s.skip(1 + n));
    assert(s =~= seq![s[0]] + head + chain_bytes(blocks) + rest);
    if s[0] == 0xfe {
        assert(head =~= Seq::<u8>::empty());
        assert(seq![s[0]] + head =~= seq![0xfeu8]);
        law_comment_is_read(blocks, rest);
    } else if s[0] == 0x01 {
        law_plain_text_is_read(head, blocks, rest);
    } else {
        law_application_is_read(head, blocks, rest);
    }
    (head, blocks)
}

/// An extension is refused for a wrong length of a graphic control, for a graphic control that
/// does not end behind its four bytes, and for an early end of the bytes: each exactly there.
pub proof fn law_extension_is_refused(s: Seq<u8>)
    requires
        s.len() > 0 ==> s[0] == 0xf9 || s[0] == 0xfe || s[0] == 0xff || s[0] == 0x01,
    ensures
        ({
            let control = s.len() > 1 && s[0] == 0xf9;
            &&& extension_model(s) == Err::<(Seq<u8>, ExtensionModel), _>(
                ParseError::InvalidConstSizeBytes,
            ) <==> control && s[1] != 4
            &&& extension_model(s) == Err::<(Seq<u8>, ExtensionModel), _>(ParseError::InvalidByte)
                <==> control && s[1] == 4 && s.len() >= 7 && s[6] != 0
            &&& extension_model(s) matches Err(error) ==> error == ParseError::UnexpectedEndOfFile
                || error == ParseError::InvalidConstSizeBytes || error == ParseError::InvalidByte
            &&& s.len() == 0 ==> extension_model(s) is Err
        }),
{
    if s.len() > 1 {
        let t = s.skip(1);
        assert(t[0] == s[1]);
        if s.len() >= 7 {
            assert(t[5] == s[6]);
        }
    }
}

/// A block is told by its first byte: an extension, an image, or the trailer, behind which
/// nothing may stand.
pub proof fn law_segment_is_read(byte: u8, t: Seq<u8>)
    requires
        byte == 0x21 && t.len() > 0 ==> t[0] == 0xf9 || t[0] == 0xfe || t[0] == 0xff || t[0]
            == 0x01,
    ensures
        ({
            let got = segment_model(seq![byte] + t);
            if byte == 0x21 {
                match extension_model(t) {
                    Ok((rest, extension)) => got == Ok::<_, ParseError>(
                        (rest, SegmentModel::Extension(extension)),
                    ),
                    Err(error) => got == Err::<(Seq<u8>, SegmentModel), _>(error),
                }
            } else if byte == 0x2c {
                match image_model(t) {
                    Ok((rest, image)) => got == Ok::<_, ParseError>(
                        (rest, SegmentModel::Image(image)),
                    ),
                    Err(error) => got == Err::<(Seq<u8>, SegmentModel), _>(error),
                }
            } else if byte == 0x3b {
                if t.len() == 0 {
                    got == Ok::<_, ParseError>((Seq::<u8>::empty(), SegmentModel::Trailer))
                } else {
                    got == Err::<(Seq<u8>, SegmentModel), _>(ParseError::JunkAfterTrailerByte)
                }
            } else {
                got == Err::<(Seq<u8>, SegmentModel), _>(ParseError::InvalidByte)
            }
        }),
        segment_model(Seq::empty()) == Err::<(Seq<u8>, SegmentModel), _>(
            ParseError::UnexpectedEndOfFile,
        ),
{
    assert((seq![byte] + t).skip(1) =~= t);
}

/// What cannot be read is an extension of another label than those of a graphic control, a
/// comment, an application and a plain text.
pub proof fn law_unsupported(s: Seq<u8>)
    ensures
        extension_supported(s) <==> (s.len() > 0 ==> s[0] == 0xf9 || s[0] == 0xfe || s[0] == 0xff
            || s[0] == 0x01),
        segment_supported(s) <==> (s.len() > 1 && s[0] == 0x21 ==> s[1] == 0xf9 || s[1] == 0xfe
            || s[1] == 0xff || s[1] == 0x01),
{
    if s.len() > 1 {
        assert(s.skip(1)[0] == s[1]);
    }
}

/// A skip stops before a graphic control extension.
pub proof fn law_skip_stops_at_control(t: Seq<u8>)
    ensures
        next_graphic_control(seq![0x21u8, 0xf9] + t) == Ok::<_, ParseError>(seq![0x21u8, 0xf9] + t),
{
}

/// A skip passes over comments, applications and plain texts of any content.
pub proof fn law_skip_passes_extensions(
    label: u8,
    head: Seq<u8>,
    blocks: Seq<Seq<u8>>,
    more: Seq<u8>,
)
    requires
        label == 0xfe || label == 0xff || label == 0x01,
        head.len() == (if label == 0x01 {
            13nat
        } else {
            0
        }),
        are_blocks(blocks),
    ensures
        next_graphic_control(seq![0x21u8, label] + head + chain_bytes(blocks) + more)
            == next_graphic_control(more),
{
    let s = seq![0x21u8, label] + head + chain_bytes(blocks) + more;
    assert(s.skip(2 + head.len() as int) =~= chain_bytes(blocks) + more);
    assert(s[0] == 0x21 && s[1] == label);
    law_chain_is_read(blocks, more);
}

/// A skip passes over images.
pub proof fn law_skip_passes_images(
    image: ImageModel,
    unused: u8,
    size: u8,
    blocks: Seq<Seq<u8>>,
    more: Seq<u8>,
)
    requires
        unused < 8,
        table_has_size(image.local_color_table, size),
        are_blocks(blocks),
        image.image_data == chain_bytes(blocks),
    ensures
        next_graphic_control(seq![0x2cu8] + image_bytes(image, unused, size, blocks) + more)
            == next_graphic_control(more),
{
    let s = seq![0x2cu8] + image_bytes(image, unused, size, blocks) + more;
    assert(s.skip(1) =~= image_bytes(image, unused, size, blocks) + more);
    law_image_is_read(image, unused, size, blocks, more);
}

/// A skip ends with nothing at the trailer, and behind a stray block terminator.
pub proof fn law_skip_ends(t: Seq<u8>)
    ensures
        next_graphic_control(seq![0x3bu8] + t) == Ok::<_, ParseError>(Seq::<u8>::empty()),
        next_graphic_control(seq![0u8] + t) == Ok::<_, ParseError>(t),
{
    assert((seq![0u8] + t).skip(1) =~= t);
}

/// A skip fails at a byte that starts no block, at an unknown label, and where a block that it
/// would pass over is not whole.
pub proof fn law_skip_fails(s: Seq<u8>)
    ensures
        s.len() == 0 || s == seq![0x21u8] ==> next_graphic_control(s) == Err::<Seq<u8>, _>(
            ParseError::UnexpectedEndOfFile,
        ),
        s.len() > 0 && s[0] != 0x21 && s[0] != 0x2c && s[0] != 0x3b && s[0] != 0
            ==> next_graphic_control(s) == Err::<Seq<u8>, _>(ParseError::InvalidByte),
        s.len() > 1 && s[0] == 0x21 && s[1] != 0xf9 && s[1] != 0xfe && s[1] != 0xff && s[1] != 0x01
            ==> next_graphic_control(s) == Err::<Seq<u8>, _>(ParseError::InvalidExtensionLabel),
        s.len() > 1 && s[0] == 0x21 && (s[1] == 0xfe || s[1] == 0xff) && chain_len(
            s.skip(2),
        ) is None ==> next_graphic_control(s) == Err::<Seq<u8>, _>(ParseError::UnexpectedEndOfFile),
        s.len() > 1 && s[0] == 0x21 && s[1] == 0x01 && (s.len() < 15 || chain_len(
            s.skip(15),
        ) is None) ==> next_graphic_control(s) == Err::<Seq<u8>, _>(ParseError::UnexpectedEndOfFile),
        s.len() > 0 && s[0] == 0x2c && image_model(s.skip(1)) is Err ==> next_graphic_control(s)
            == Err::<Seq<u8>, _>(ParseError::UnexpectedEndOfFile),
{
}

/// A parser hands out the bytes, the value or the error that its model says, and nothing else.
pub proof fn law_parsed_as<T: View>(got: Result<(&[u8], T), ParseError>, model: Parsed<T::V>)
    ensures
        parsed_as(got, model) <==> match model {
            Ok((rest, value)) => got is Ok && (got->Ok_0).0@ == rest && (got->Ok_0).1@ == value,
            Err(error) => got is Err && got->Err_0 == error,
        },
{
}

/// The view of a value that may be missing is missing with it.
pub proof fn law_view_of<T: View>(value: Option<T>)
    ensures
        view_of(value) is Some <==> value is Some,
        value is Some ==> view_of(value)->0 == (value->0)@,
{
}

/// The model of an image has the fields of the image.
pub proof fn law_image_view(image: ImageBlock)
    ensures
        image@.left == image.left,
        image@.top == image.top,
        image@.width == image.width,
        image@.height == image.height,
        image@.is_interlaced == image.is_interlaced,
        image@.lzw_min_code_size == image.lzw_min_code_size,
        image@.local_color_table is Some <==> image.local_color_table is Some,
        image.local_color_table matches Some(table) ==> image@.local_color_table == Some(table@),
        image@.image_data == image.image_data@,
{
}

/// The model of an extension is of the kind of the extension and has its fields.
pub proof fn law_extension_view(extension: ExtensionBlock)
    ensures
        match extension {
            ExtensionBlock::GraphicControl(control) => extension@
                == ExtensionModel::GraphicControl(control),
            ExtensionBlock::Comment(chain) => extension@ == ExtensionModel::Comment(chain@),
            ExtensionBlock::PlainText => extension@ == ExtensionModel::PlainText,
            ExtensionBlock::NetscapeApplication { repetitions } => extension@
                == (ExtensionModel::NetscapeApplication { repetitions }),
            ExtensionBlock::Application => extension@ == ExtensionModel::Application,
            ExtensionBlock::Unknown(label, data) => extension@ == ExtensionModel::Unknown(
                label,
                data@,
            ),
        },
{
}

/// The model of a block is of the kind of the block and has its content.
pub proof fn law_segment_view(segment: Segment)
    ensures
        match segment {
            Segment::Image(image) => segment@ == SegmentModel::Image(image@),
            Segment::Extension(extension) => segment@ == SegmentModel::Extension(extension@),
            Segment::Trailer => segment@ == SegmentModel::Trailer,
        },
{
}

/// A colour table gives back the three bytes of each of its colours, and none behind the last
/// whole one.
pub proof fn law_color_bytes(table: Seq<u8>, index: u8)
    ensures
        color_at(table, index) is Some <==> 3 * index + 3 <= table.len(),
        color_at(table, index) matches Some(color) ==> table.subrange(3 * index, 3 * index + 3)
            == seq![color.0, color.1, color.2],
{
    if 3 * index + 3 <= table.len() {
        let color = color_at(table, index)->0;
        assert(table.subrange(3 * index, 3 * index + 3) =~= seq![color.0, color.1, color.2]);
    }
}

} // verus!
