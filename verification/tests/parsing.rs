use tinygif::lzw::{Decoder, LzwError};
use tinygif::{
    ColorTable, ExtensionBlock, GraphicControl, Header, ImageBlock, LenPrefixRawDataView, ParseError, Segment,
    Version,
};

fn header_bytes() -> Vec<u8> {
    let mut bytes = b"GIF89a".to_vec();
    bytes.extend([0x0a, 0x00, 0x34, 0x12, 0x91, 0x07, 0x00]);
    bytes.extend([0xff, 0xff, 0xff, 0xff, 0x00, 0x00, 0x00, 0x00, 0xff, 0x01, 0x02, 0x03]);
    bytes
}

#[test]
fn header_fields_and_color_table() {
    let mut bytes = header_bytes();
    bytes.extend([9, 9]);
    let (rest, (header, table)) = Header::parse(&bytes).unwrap();
    assert_eq!(rest, &[9, 9]);
    assert_eq!(header.version, Version::V89a);
    assert_eq!(header.width, 10);
    assert_eq!(header.height, 0x1234);
    assert!(header.has_global_color_table);
    assert_eq!(header.color_resolution, 1);
    assert_eq!(header.bg_color_index, 7);
    let table = table.unwrap();
    assert_eq!(table.len(), 4);
    let last = table.get(3).unwrap();
    assert_eq!((last.r(), last.g(), last.b()), (1, 2, 3));
    assert_eq!(table.get(2).map(|c| (c.r(), c.g(), c.b())), Some((0, 0, 255)));
    assert!(table.get(4).is_none());
    assert!(table.get(255).is_none());
}

#[test]
fn header_without_color_table() {
    let bytes = [0x47, 0x49, 0x46, 0x38, 0x37, 0x61, 1, 0, 2, 0, 0x77, 0, 0, 0x3b];
    let (rest, (header, table)) = Header::parse(&bytes).unwrap();
    assert_eq!(rest, &[0x3b]);
    assert_eq!(header.version, Version::V87a);
    assert!(!header.has_global_color_table);
    assert_eq!(header.color_resolution, 7);
    assert!(table.is_none());
}

#[test]
fn color_table_that_breaks_off() {
    let table = ColorTable::new(&[1, 2, 3, 4]);
    assert_eq!(table.len(), 1);
    assert_eq!(table.get(0).map(|c| (c.r(), c.g(), c.b())), Some((1, 2, 3)));
    assert!(table.get(1).is_none());
    let table = ColorTable::new(&[1, 2, 3, 4, 5]);
    assert_eq!(table.len(), 1);
    assert!(table.get(1).is_none());
    let table = ColorTable::new(&[]);
    assert_eq!(table.len(), 0);
    assert!(table.get(0).is_none());
}

#[test]
fn largest_color_table() {
    let mut bytes = b"GIF89a".to_vec();
    bytes.extend([1, 0, 1, 0, 0x87, 0, 0]);
    for i in 0..768u32 {
        bytes.push((i % 251) as u8);
    }
    let (rest, (_, table)) = Header::parse(&bytes).unwrap();
    assert!(rest.is_empty());
    let table = table.unwrap();
    assert_eq!(table.len(), 256);
    let last = table.get(255).unwrap();
    assert_eq!(last.r() as u32, 765 % 251);
    assert_eq!(Header::parse(&bytes[..780]).unwrap_err(), ParseError::UnexpectedEndOfFile);
}

#[test]
fn header_cut_short() {
    let bytes = header_bytes();
    for n in 0..bytes.len() {
        assert_eq!(Header::parse(&bytes[..n]).unwrap_err(), ParseError::UnexpectedEndOfFile);
    }
    assert!(Header::parse(&bytes).is_ok());
}

#[test]
fn wrong_signature_and_version() {
    assert_eq!(
        Header::parse(b"PNG89a").unwrap_err(),
        ParseError::InvalidFileSignature([b'P', b'N', b'G'])
    );
    // a wrong version is reported with the signature
    assert_eq!(
        Header::parse(b"GIF88a").unwrap_err(),
        ParseError::InvalidFileSignature([b'G', b'I', b'F'])
    );
    assert_eq!(Header::parse(b"GIF8").unwrap_err(), ParseError::UnexpectedEndOfFile);
}

#[test]
fn header_ignores_what_follows() {
    let bytes = header_bytes();
    let mut longer = bytes.clone();
    longer.extend([1, 2, 3]);
    let (rest, short) = Header::parse(&bytes).unwrap();
    let (longer_rest, long) = Header::parse(&longer).unwrap();
    assert_eq!(short, long);
    assert_eq!(rest, &[] as &[u8]);
    assert_eq!(longer_rest, &[1, 2, 3]);
}

#[test]
fn image_with_local_color_table() {
    let bytes = [
        1, 0, 2, 0, 3, 0, 4, 1, 0xc0, 10, 11, 12, 13, 14, 15, 2, 2, 0xaa, 0xbb, 1, 0xcc, 0, 0x3b,
    ];
    let (rest, image) = ImageBlock::parse(&bytes).unwrap();
    assert_eq!(rest, &[0x3b]);
    assert_eq!((image.left, image.top, image.width, image.height), (1, 2, 3, 0x104));
    assert!(image.is_interlaced);
    assert_eq!(image.lzw_min_code_size, 2);
    assert_eq!(image.image_data, &[2, 0xaa, 0xbb, 1, 0xcc, 0]);
    let table = image.local_color_table.unwrap();
    assert_eq!(table.len(), 2);
    assert_eq!(table.get(1).map(|c| (c.r(), c.g(), c.b())), Some((13, 14, 15)));
    for n in 0..22 {
        assert_eq!(ImageBlock::parse(&bytes[..n]).unwrap_err(), ParseError::UnexpectedEndOfFile);
    }
}

#[test]
fn image_without_data_blocks() {
    let bytes = [0, 0, 0, 0, 1, 0, 1, 0, 0, 8, 0];
    let (rest, image) = ImageBlock::parse(&bytes).unwrap();
    assert!(rest.is_empty());
    assert!(image.local_color_table.is_none());
    assert!(!image.is_interlaced);
    assert_eq!(image.image_data, &[0]);
}

#[test]
fn graphic_control_extension() {
    let (rest, extension) = ExtensionBlock::parse(&[0xf9, 4, 1, 0x2c, 0x01, 9, 0, 7]).unwrap();
    assert_eq!(rest, &[7]);
    assert_eq!(
        extension,
        ExtensionBlock::GraphicControl(GraphicControl {
            is_transparent: true,
            transparent_color_index: 9,
            delay_centis: 300,
        })
    );
}

#[test]
fn broken_graphic_control_extensions() {
    assert_eq!(
        ExtensionBlock::parse(&[0xf9, 5, 1, 0, 0, 9, 0]).unwrap_err(),
        ParseError::InvalidConstSizeBytes
    );
    assert_eq!(
        ExtensionBlock::parse(&[0xf9, 4, 1, 0, 0, 9, 1]).unwrap_err(),
        ParseError::InvalidByte
    );
    assert_eq!(
        ExtensionBlock::parse(&[0xf9, 4, 1, 0, 0, 9]).unwrap_err(),
        ParseError::UnexpectedEndOfFile
    );
    assert_eq!(ExtensionBlock::parse(&[0xf9]).unwrap_err(), ParseError::UnexpectedEndOfFile);
    assert_eq!(ExtensionBlock::parse(&[]).unwrap_err(), ParseError::UnexpectedEndOfFile);
}

#[test]
fn netscape_extension() {
    let mut bytes = vec![0xff, 11];
    bytes.extend(b"NETSCAPE2.0");
    bytes.extend([3, 1, 0x05, 0x02, 0, 0x3b]);
    let (rest, extension) = ExtensionBlock::parse(&bytes).unwrap();
    assert_eq!(rest, &[0x3b]);
    assert_eq!(extension, ExtensionBlock::NetscapeApplication { repetitions: 0x205 });
    for n in 0..bytes.len() - 1 {
        assert_eq!(
            ExtensionBlock::parse(&bytes[..n]).unwrap_err(),
            ParseError::UnexpectedEndOfFile
        );
    }
}

#[test]
fn other_application_extensions() {
    let mut bytes = vec![0xff, 11];
    bytes.extend(b"XMP DataXMP");
    bytes.extend([2, 1, 2, 1, 9, 0, 0x3b]);
    let (rest, extension) = ExtensionBlock::parse(&bytes).unwrap();
    assert_eq!(rest, &[0x3b]);
    assert_eq!(extension, ExtensionBlock::Application);

    // the right name, but the sub-block does not start with one
    let mut bytes = vec![0xff, 11];
    bytes.extend(b"NETSCAPE2.0");
    bytes.extend([3, 2, 0, 0, 0, 0x3b]);
    let (rest, extension) = ExtensionBlock::parse(&bytes).unwrap();
    assert_eq!(rest, &[0x3b]);
    assert_eq!(extension, ExtensionBlock::Application);

    // the right name, but more than one sub-block
    let mut bytes = vec![0xff, 11];
    bytes.extend(b"NETSCAPE2.0");
    bytes.extend([3, 1, 0, 0, 1, 5, 0, 0x3b]);
    let (rest, extension) = ExtensionBlock::parse(&bytes).unwrap();
    assert_eq!(rest, &[0x3b]);
    assert_eq!(extension, ExtensionBlock::Application);
}

#[test]
fn comment_and_plain_text() {
    let (rest, extension) = ExtensionBlock::parse(&[0xfe, 2, b'h', b'i', 1, b'!', 0, 0x3b]).unwrap();
    assert_eq!(rest, &[0x3b]);
    assert_eq!(extension, ExtensionBlock::Comment(&[2, b'h', b'i', 1, b'!', 0]));
    assert_eq!(
        ExtensionBlock::parse(&[0xfe, 2, b'h', b'i']).unwrap_err(),
        ParseError::UnexpectedEndOfFile
    );

    let mut bytes = vec![0x01];
    bytes.extend([12, 0, 0, 0, 0, 0, 0, 0, 0, 0, 0, 0, 0]);
    bytes.extend([1, b'x', 0, 0x3b]);
    let (rest, extension) = ExtensionBlock::parse(&bytes).unwrap();
    assert_eq!(rest, &[0x3b]);
    assert_eq!(extension, ExtensionBlock::PlainText);
    assert_eq!(
        ExtensionBlock::parse(&bytes[..13]).unwrap_err(),
        ParseError::UnexpectedEndOfFile
    );
}

#[test]
fn segments() {
    let (rest, segment) = Segment::parse(&[0x3b]).unwrap();
    assert!(rest.is_empty());
    assert_eq!(*segment, Segment::Trailer);
    assert_eq!(segment.kind_name(), "Trailer");
    assert_eq!(Segment::parse(&[0x3b, 0]).unwrap_err(), ParseError::JunkAfterTrailerByte);
    assert_eq!(Segment::parse(&[0x00]).unwrap_err(), ParseError::InvalidByte);
    assert_eq!(Segment::parse(&[]).unwrap_err(), ParseError::UnexpectedEndOfFile);

    let (_, segment) = Segment::parse(&[0x21, 0xfe, 0]).unwrap();
    assert_eq!(*segment, Segment::Extension(ExtensionBlock::Comment(&[0])));
    assert_eq!(segment.kind_name(), "Extension");

    let (_, segment) = Segment::parse(&[0x2c, 0, 0, 0, 0, 1, 0, 1, 0, 0, 8, 0]).unwrap();
    assert_eq!(segment.kind_name(), "Image");
}

#[test]
fn unknown_labels_are_told() {
    assert!(!Segment::is_supported(&[0x21, 0x55, 0]));
    assert!(Segment::is_supported(&[0x21, 0xff]));
    assert!(Segment::is_supported(&[0x21]));
    assert!(Segment::is_supported(&[0x55, 0x55]));
    assert!(Segment::is_supported(&[]));
}

#[test]
fn data_of_a_chain() {
    let mut view = LenPrefixRawDataView::new(&[2, 7, 8, 1, 9, 0, 5, 5]);
    assert_eq!(view.next(), Some(7));
    assert_eq!(view.next(), Some(8));
    assert_eq!(view.next(), Some(9));
    assert_eq!(view.next(), None);
    assert_eq!(view.next(), None);

    let mut view = LenPrefixRawDataView::new(&[0]);
    assert_eq!(view.next(), None);
}

#[test]
fn longest_block_of_a_chain() {
    let mut chain = vec![255];
    chain.extend((0..255u32).map(|i| i as u8));
    chain.extend([255]);
    chain.extend((0..255u32).map(|i| 255 - i as u8));
    chain.push(0);
    let mut view = LenPrefixRawDataView::new(&chain);
    let mut read = Vec::new();
    while let Some(byte) = view.next() {
        read.push(byte);
    }
    assert_eq!(read.len(), 510);
    assert_eq!(read[..255], chain[1..256]);
    assert_eq!(read[255..], chain[257..512]);
}

#[test]
fn codes_are_decoded_one_by_one() {
    // three bits each: clear 4, 1, 6 (just learnt), 6, then four bits: end 5
    // 4 + 1*8 + 6*64 + 6*512 + 5*4096
    let bits: u32 = 4 + 8 + 6 * 64 + 6 * 512 + 5 * 4096;
    let chain = [2, (bits % 256) as u8, (bits / 256) as u8, 0];
    let mut decoder = Decoder::new(LenPrefixRawDataView::new(&chain), 2);
    assert_eq!(decoder.decode_next(), Ok(Some(vec![1])));
    assert_eq!(decoder.decode_next(), Ok(Some(vec![1, 1])));
    assert_eq!(decoder.decode_next(), Ok(Some(vec![1, 1])));
    assert_eq!(decoder.decode_next(), Ok(None));
    assert_eq!(decoder.decode_next(), Ok(None));
}

#[test]
fn decoding_faults() {
    // clear, then a code that nothing has taught
    let bits: u32 = 4 + 7 * 8;
    let chain = [1, bits as u8, 0];
    let mut decoder = Decoder::new(LenPrefixRawDataView::new(&chain), 2);
    assert_eq!(decoder.decode_next(), Err(LzwError::InvalidCode));
    assert_eq!(decoder.decode_next(), Ok(None));

    // the code that is about to be learnt, with nothing before it
    let bits: u32 = 4 + 6 * 8;
    let chain = [1, bits as u8, 0];
    let mut decoder = Decoder::new(LenPrefixRawDataView::new(&chain), 2);
    assert_eq!(decoder.decode_next(), Err(LzwError::InvalidCode));

    for size in [0, 1, 9, 12, 255] {
        let mut decoder = Decoder::new(LenPrefixRawDataView::new(&[0]), size);
        assert_eq!(decoder.decode_next(), Err(LzwError::InvalidCodeSize));
    }

    // too few bits for a code
    let mut decoder = Decoder::new(LenPrefixRawDataView::new(&[1, 0xff, 0]), 8);
    assert_eq!(decoder.decode_next(), Ok(None));
}
