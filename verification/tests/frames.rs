use tinygif::{DrawStep, Frame, Gif, ParseError, Pixel, Placed, Rectangle, Rgb888, Size};

/// A picture of ten by ten pixels in four colours.
const SAMPLE: [u8; 69] = [
    0x47, 0x49, 0x46, 0x38, 0x39, 0x61, 0x0a, 0x00, 0x0a, 0x00, 0x91, 0x00, 0x00, 0xff, 0xff, 0xff,
    0xff, 0x00, 0x00, 0x00, 0x00, 0xff, 0x00, 0x00, 0x00, 0x21, 0xf9, 0x04, 0x00, 0x00, 0x00, 0x00,
    0x00, 0x2c, 0x00, 0x00, 0x00, 0x00, 0x0a, 0x00, 0x0a, 0x00, 0x00, 0x02, 0x16, 0x8c, 0x2d, 0x99,
    0x87, 0x2a, 0x1c, 0xdc, 0x33, 0xa0, 0x02, 0x75, 0xec, 0x95, 0xfa, 0xa8, 0xde, 0x60, 0x8c, 0x04,
    0x91, 0x4c, 0x01, 0x00, 0x3b,
];

const SAMPLE_INDICES: [u8; 100] = [
    1, 1, 1, 1, 1, 2, 2, 2, 2, 2, //
    1, 1, 1, 1, 1, 2, 2, 2, 2, 2, //
    1, 1, 1, 1, 1, 2, 2, 2, 2, 2, //
    1, 1, 1, 0, 0, 0, 0, 2, 2, 2, //
    1, 1, 1, 0, 0, 0, 0, 2, 2, 2, //
    2, 2, 2, 0, 0, 0, 0, 1, 1, 1, //
    2, 2, 2, 0, 0, 0, 0, 1, 1, 1, //
    2, 2, 2, 2, 2, 1, 1, 1, 1, 1, //
    2, 2, 2, 2, 2, 1, 1, 1, 1, 1, //
    2, 2, 2, 2, 2, 1, 1, 1, 1, 1, //
];

const SAMPLE_COLORS: [[u8; 3]; 4] = [[255, 255, 255], [255, 0, 0], [0, 0, 255], [0, 0, 0]];

fn paint(indices: &[u8], colors: &[[u8; 3]]) -> Vec<u8> {
    indices.iter().flat_map(|&i| colors[i as usize]).collect()
}

/// Writes codes into bytes, and bytes into sub-blocks.
fn pack(codes: &[(u32, u32)]) -> Vec<u8> {
    let mut bytes = Vec::new();
    let mut held: u64 = 0;
    let mut count = 0;
    for &(code, width) in codes {
        held |= (code as u64) << count;
        count += width;
        while count >= 8 {
            bytes.push(held as u8);
            held >>= 8;
            count -= 8;
        }
    }
    if count > 0 {
        bytes.push(held as u8);
    }
    let mut chain = Vec::new();
    for block in bytes.chunks(255) {
        chain.push(block.len() as u8);
        chain.extend(block);
    }
    chain.push(0);
    chain
}

/// The codes of a greedy writer.
fn encode(min: u32, indices: &[u8]) -> Vec<(u32, u32)> {
    let clear = 1u32 << min;
    let mut codes = vec![(clear, min + 1)];
    let mut words: Vec<Vec<u8>> = (0..clear).map(|i| vec![i as u8]).collect();
    words.push(vec![]);
    words.push(vec![]);
    // the number of words that the reader knows
    let mut width = min + 1;
    let mut known = clear + 2;
    let mut at = 0;
    let mut first = true;
    while at < indices.len() {
        let mut best = indices[at] as usize;
        for (code, word) in words.iter().enumerate() {
            if word.len() > words[best].len() && indices[at..].starts_with(word) {
                best = code;
            }
        }
        codes.push((best as u32, width));
        let len = words[best].len();
        if !first && known < 4096 {
            known += 1;
            if known == 1 << width && width < 12 {
                width += 1;
            }
        }
        first = false;
        if at + len < indices.len() && words.len() < 4096 {
            let word = indices[at..at + len + 1].to_vec();
            words.push(word);
        }
        at += len;
    }
    codes.push((clear + 1, width));
    codes
}

/// Each index by itself.
fn encode_plain(min: u32, indices: &[u8]) -> Vec<(u32, u32)> {
    let clear = 1u32 << min;
    let mut codes = vec![(clear, min + 1)];
    let mut width = min + 1;
    let mut known = clear + 2;
    for (k, &index) in indices.iter().enumerate() {
        codes.push((index as u32, width));
        if k > 0 && known < 4096 {
            known += 1;
            if known == 1 << width && width < 12 {
                width += 1;
            }
        }
    }
    codes.push((clear + 1, width));
    codes
}

fn header(width: u16, height: u16, colors: &[[u8; 3]]) -> Vec<u8> {
    let mut bytes = b"GIF89a".to_vec();
    bytes.extend(width.to_le_bytes());
    bytes.extend(height.to_le_bytes());
    if colors.is_empty() {
        bytes.extend([0, 0, 0]);
    } else {
        let bits = colors.len().trailing_zeros() as u8;
        assert_eq!(1 << bits, colors.len());
        bytes.extend([0x80 | (bits - 1), 0, 0]);
        bytes.extend(colors.iter().flatten());
    }
    bytes
}

fn control(transparent: Option<u8>, delay: u16) -> Vec<u8> {
    let mut bytes = vec![0x21, 0xf9, 4, transparent.is_some() as u8];
    bytes.extend(delay.to_le_bytes());
    bytes.extend([transparent.unwrap_or(0), 0]);
    bytes
}

fn image(place: [u16; 4], colors: &[[u8; 3]], min: u8, codes: &[(u32, u32)]) -> Vec<u8> {
    let mut bytes = vec![0x2c];
    for n in place {
        bytes.extend(n.to_le_bytes());
    }
    if colors.is_empty() {
        bytes.push(0);
    } else {
        bytes.push(0x80 | (colors.len().trailing_zeros() as u8 - 1));
        bytes.extend(colors.iter().flatten());
    }
    bytes.push(min);
    bytes.extend(pack(codes));
    bytes
}

const FOUR: [[u8; 3]; 4] = [[1, 2, 3], [4, 5, 6], [7, 8, 9], [10, 11, 12]];

fn first_picture(file: &[u8]) -> Option<Vec<u8>> {
    let gif = Gif::<Rgb888>::from_slice(file).unwrap();
    let frame = gif.frames().next().unwrap();
    frame.checked_decode_to_rgb()
}

#[test]
fn sample_is_decoded() {
    let gif = Gif::<Rgb888>::from_slice(&SAMPLE).unwrap();
    assert_eq!((gif.width(), gif.height()), (10, 10));
    let mut frames = gif.frames();
    assert!(frames.is_supported());
    let frame = frames.next().unwrap();
    assert_eq!(frame.frame_index, 0);
    assert_eq!(frame.size(), Size { width: 10, height: 10 });
    let picture = frame.decode_to_rgb().unwrap();
    assert_eq!(picture, paint(&SAMPLE_INDICES, &SAMPLE_COLORS));
    assert!(frames.next().is_none());
    assert!(frames.next().is_none());
}

#[test]
fn broken_file_is_refused() {
    assert_eq!(
        Gif::<Rgb888>::from_slice(&SAMPLE[..12]).unwrap_err(),
        ParseError::UnexpectedEndOfFile
    );
    assert_eq!(
        Gif::<Rgb888>::from_slice(b"JIF89a").unwrap_err(),
        ParseError::InvalidFileSignature(*b"JIF")
    );
}

#[test]
fn what_is_written_is_read_back() {
    for min in 2..=8u32 {
        let mut state: u32 = 12345 + min;
        let mut indices = Vec::new();
        for k in 0..120 * 100 {
            state = state.wrapping_mul(1664525).wrapping_add(1013904223);
            // runs and noise
            let index = if (k / 64) % 2 == 0 { k / 512 } else { state >> 16 };
            indices.push((index % (1 << min)) as u8);
        }
        let colors: Vec<[u8; 3]> =
            (0..1u32 << min).map(|i| [i as u8, (255 - i) as u8, (i * 7) as u8]).collect();
        for codes in [encode(min, &indices), encode_plain(min, &indices)] {
            let mut file = header(120, 100, &colors);
            file.extend(control(None, 0));
            file.extend(image([0, 0, 120, 100], &[], min as u8, &codes));
            file.push(0x3b);
            assert_eq!(first_picture(&file).unwrap(), paint(&indices, &colors));
        }
    }
}

#[test]
fn clear_code_in_the_middle() {
    let mut codes = encode_plain(2, &[0, 1, 2, 3, 3, 2]);
    codes.pop();
    codes.push((4, 4));
    codes.push((1, 3));
    codes.push((0, 3));
    codes.push((5, 3));
    let mut file = header(4, 2, &FOUR);
    file.extend(control(None, 0));
    file.extend(image([0, 0, 4, 2], &[], 2, &codes));
    file.push(0x3b);
    assert_eq!(first_picture(&file).unwrap(), paint(&[0, 1, 2, 3, 3, 2, 1, 0], &FOUR));
}

#[test]
fn missing_indices_leave_black() {
    let mut file = header(2, 2, &FOUR);
    file.extend(control(None, 0));
    file.extend(image([0, 0, 2, 2], &[], 2, &encode_plain(2, &[1, 2])));
    file.push(0x3b);
    assert_eq!(first_picture(&file).unwrap(), [4, 5, 6, 7, 8, 9, 0, 0, 0, 0, 0, 0]);
}

#[test]
fn fault_in_the_stream_ends_the_image() {
    let mut file = header(2, 2, &FOUR);
    file.extend(control(None, 0));
    // clear, 1, and a code far off
    file.extend(image([0, 0, 2, 2], &[], 2, &[(4, 3), (1, 3), (7, 3)]));
    file.extend(image([1, 1, 1, 1], &[], 2, &encode_plain(2, &[3])));
    file.push(0x3b);
    assert_eq!(first_picture(&file).unwrap(), [4, 5, 6, 0, 0, 0, 0, 0, 0, 10, 11, 12]);
}

#[test]
fn transparent_index_leaves_the_pixel() {
    let mut file = header(2, 1, &FOUR);
    file.extend(control(Some(3), 0));
    file.extend(image([0, 0, 2, 1], &[], 2, &encode_plain(2, &[1, 1])));
    file.extend(image([0, 0, 2, 1], &[], 2, &encode_plain(2, &[3, 2])));
    file.push(0x3b);
    assert_eq!(first_picture(&file).unwrap(), [4, 5, 6, 7, 8, 9]);

    let mut file = header(2, 1, &FOUR);
    file.extend(control(Some(3), 0));
    file.extend(image([0, 0, 2, 1], &[], 2, &encode_plain(2, &[3, 3])));
    file.push(0x3b);
    assert_eq!(first_picture(&file).unwrap(), [0; 6]);
}

#[test]
fn last_pixel_wins() {
    let mut file = header(2, 2, &FOUR);
    file.extend(control(None, 0));
    file.extend(image([0, 0, 2, 2], &[], 2, &encode_plain(2, &[0, 0, 0, 0])));
    file.extend(image([1, 0, 1, 2], &[[9, 9, 9], [8, 8, 8]], 2, &encode_plain(2, &[1, 0])));
    file.push(0x3b);
    assert_eq!(first_picture(&file).unwrap(), [1, 2, 3, 8, 8, 8, 1, 2, 3, 9, 9, 9]);
}

#[test]
fn pixels_beyond_the_screen() {
    // right of the screen: on to the next row; below it: dropped
    let mut file = header(2, 2, &FOUR);
    file.extend(control(None, 0));
    file.extend(image([1, 0, 2, 1], &[], 2, &encode_plain(2, &[1, 2])));
    file.extend(image([0, 7, 1, 1], &[], 2, &encode_plain(2, &[3])));
    file.push(0x3b);
    assert_eq!(first_picture(&file).unwrap(), [0, 0, 0, 4, 5, 6, 7, 8, 9, 0, 0, 0]);
}

#[test]
fn frames_that_cannot_be_drawn() {
    // no colour table
    let mut file = header(1, 1, &[]);
    file.extend(control(None, 0));
    file.extend(image([0, 0, 1, 1], &[], 2, &encode_plain(2, &[1])));
    file.push(0x3b);
    assert!(first_picture(&file).is_none());

    // an index without a colour
    let mut file = header(1, 1, &FOUR[..2]);
    file.extend(control(None, 0));
    file.extend(image([0, 0, 1, 1], &[], 2, &encode_plain(2, &[2])));
    file.push(0x3b);
    assert!(first_picture(&file).is_none());

    // an image without columns
    let mut file = header(1, 1, &FOUR);
    file.extend(control(None, 0));
    file.extend(image([0, 0, 0, 1], &[], 2, &encode_plain(2, &[2])));
    file.push(0x3b);
    assert!(first_picture(&file).is_none());

    // the same with the transparent index alone
    let mut file = header(1, 1, &FOUR);
    file.extend(control(Some(2), 0));
    file.extend(image([0, 0, 0, 1], &[], 2, &encode_plain(2, &[2])));
    file.push(0x3b);
    assert_eq!(first_picture(&file).unwrap(), [0, 0, 0]);

    // a column that no number of sixteen bits can tell
    let mut file = header(1, 1, &FOUR);
    file.extend(control(None, 0));
    file.extend(image([0xffff, 0, 2, 1], &[], 2, &encode_plain(2, &[2, 2])));
    file.push(0x3b);
    assert!(first_picture(&file).is_none());

    // an extension with an unknown label
    let mut file = header(1, 1, &FOUR);
    file.extend(control(None, 0));
    file.extend([0x21, 0x55, 0, 0x3b]);
    assert!(first_picture(&file).is_none());
}

#[test]
fn other_blocks_of_a_frame_are_passed_over() {
    let mut file = header(1, 1, &FOUR);
    file.extend(control(None, 0));
    file.extend([0x21, 0xfe, 1, b'x', 0]);
    file.extend(image([0, 0, 1, 1], &[], 2, &encode_plain(2, &[3])));
    file.push(0x3b);
    assert_eq!(first_picture(&file).unwrap(), [10, 11, 12]);

    // bytes that are no block end the frame
    let mut file = header(1, 1, &FOUR);
    file.extend(control(None, 0));
    file.push(0x77);
    file.extend(image([0, 0, 1, 1], &[], 2, &encode_plain(2, &[3])));
    assert_eq!(first_picture(&file).unwrap(), [0, 0, 0]);
}

#[test]
fn walk_through_the_frames() {
    let mut file = header(1, 1, &FOUR);
    file.extend([0x21, 0xff, 11]);
    file.extend(b"NETSCAPE2.0");
    file.extend([3, 1, 0, 0, 0]);
    file.extend(control(None, 10));
    file.extend(image([0, 0, 1, 1], &[], 2, &encode_plain(2, &[0])));
    file.extend([0x21, 0xfe, 1, b'x', 0]);
    file.extend([0x21, 0x01, 12, 0, 0, 0, 0, 0, 0, 0, 0, 0, 0, 0, 0, 1, b'x', 0]);
    file.extend(control(Some(2), 20));
    file.extend(image([0, 0, 1, 1], &[], 2, &encode_plain(2, &[1])));
    file.push(0x3b);
    let gif = Gif::<Rgb888>::from_slice(&file).unwrap();
    let mut frames = gif.frames();
    let first: Frame<Rgb888> = frames.next().unwrap();
    assert_eq!((first.frame_index, first.delay_centis, first.is_transparent), (0, 10, false));
    assert_eq!(first.decode_to_rgb().unwrap(), [1, 2, 3]);
    let second = frames.next().unwrap();
    assert_eq!((second.frame_index, second.delay_centis), (1, 20));
    assert!(second.is_transparent);
    assert_eq!(second.transparent_color_index, 2);
    assert_eq!(second.decode_to_rgb().unwrap(), [4, 5, 6]);
    assert!(second.raw_data.len() < first.raw_data.len());
    assert!(frames.next().is_none());
    assert!(frames.next().is_none());
    // the first frame can be decoded again
    assert_eq!(first.decode_to_rgb().unwrap(), [1, 2, 3]);
}

#[test]
fn walk_that_goes_wrong() {
    // an unknown label on the way
    let mut file = header(1, 1, &FOUR);
    file.extend([0x21, 0x55, 0]);
    file.extend(control(None, 10));
    let gif = Gif::<Rgb888>::from_slice(&file).unwrap();
    let mut frames = gif.frames();
    assert!(frames.is_supported());
    assert!(frames.next().is_none());
    assert!(frames.next().is_none());

    // a block terminator, and a comment behind it: the walk goes on with the next call
    let mut file = header(1, 1, &FOUR);
    file.extend([0x00, 0x21, 0xfe, 0]);
    file.extend(control(None, 10));
    let gif = Gif::<Rgb888>::from_slice(&file).unwrap();
    let mut frames = gif.frames();
    assert!(frames.is_supported());
    assert!(frames.next().is_none());
    assert_eq!(frames.next().unwrap().frame_index, 0);

    // a block terminator, and an unknown label behind it
    let mut file = header(1, 1, &FOUR);
    file.extend([0x00, 0x21, 0x55]);
    let gif = Gif::<Rgb888>::from_slice(&file).unwrap();
    assert!(!gif.frames().is_supported());

    // a broken graphic control extension
    let mut file = header(1, 1, &FOUR);
    file.extend([0x21, 0xf9, 5, 0]);
    let gif = Gif::<Rgb888>::from_slice(&file).unwrap();
    assert!(gif.frames().next().is_none());

    // nothing at all
    let file = header(1, 1, &FOUR);
    let gif = Gif::<Rgb888>::from_slice(&file).unwrap();
    assert!(gif.frames().next().is_none());
}

fn draw(frame: &Frame<Rgb888>, area: Option<&Rectangle>) -> Vec<Pixel> {
    let mut cursor = frame.cursor();
    let mut pixels = Vec::new();
    loop {
        match cursor.next_chunk() {
            DrawStep::Chunk(chunk) => {
                for index in chunk {
                    let placed = match area {
                        Some(area) => cursor.place_within(index, area),
                        None => cursor.place(index),
                    };
                    match placed {
                        Placed::Drawn(pixel) => pixels.push(pixel),
                        Placed::Skipped => {}
                        Placed::Undefined => panic!("no pixel"),
                    }
                }
            }
            DrawStep::Done => return pixels,
            DrawStep::Undefined => panic!("no frame"),
        }
    }
}

#[test]
fn pixels_come_in_order() {
    let gif = Gif::<Rgb888>::from_slice(&SAMPLE).unwrap();
    let frame = gif.frames().next().unwrap();
    let pixels = draw(&frame, None);
    assert_eq!(pixels.len(), 100);
    for (k, pixel) in pixels.iter().enumerate() {
        assert_eq!((pixel.x as usize, pixel.y as usize), (k % 10, k / 10));
        let color = SAMPLE_COLORS[SAMPLE_INDICES[k] as usize];
        assert_eq!([pixel.color.r(), pixel.color.g(), pixel.color.b()], color);
    }
}

#[test]
fn sub_image_holds_the_pixels_of_the_area() {
    let gif = Gif::<Rgb888>::from_slice(&SAMPLE).unwrap();
    let frame = gif.frames().next().unwrap();
    let all = draw(&frame, None);
    for area in [
        Rectangle { left: 3, top: 2, size: Size { width: 4, height: 5 } },
        Rectangle { left: -2, top: -2, size: Size { width: 4, height: 3 } },
        Rectangle { left: 0, top: 0, size: Size { width: 0, height: 5 } },
        Rectangle { left: 50, top: 50, size: Size { width: 5, height: 5 } },
    ] {
        let expected: Vec<Pixel> = all
            .iter()
            .copied()
            .filter(|p| {
                let (x, y) = (p.x as i32, p.y as i32);
                area.left <= x
                    && x < area.left + area.size.width as i32
                    && area.top <= y
                    && y < area.top + area.size.height as i32
            })
            .collect();
        assert_eq!(draw(&frame, Some(&area)), expected);
    }
    assert_eq!(
        draw(&frame, Some(&Rectangle { left: 3, top: 2, size: Size { width: 4, height: 5 } })).len(),
        20
    );
}

#[test]
fn colors_outside_the_area_are_not_needed() {
    let mut file = header(2, 1, &FOUR[..2]);
    file.extend(control(None, 0));
    file.extend(image([0, 0, 2, 1], &[], 2, &encode_plain(2, &[1, 3])));
    file.push(0x3b);
    let gif = Gif::<Rgb888>::from_slice(&file).unwrap();
    let frame = gif.frames().next().unwrap();
    assert!(frame.checked_decode_to_rgb().is_none());
    let area = Rectangle { left: 0, top: 0, size: Size { width: 1, height: 1 } };
    let pixels = draw(&frame, Some(&area));
    assert_eq!(pixels, [Pixel { x: 0, y: 0, color: Rgb888::new(4, 5, 6) }]);
}

#[test]
fn area_whose_corner_is_out_of_reach() {
    let mut file = header(2, 1, &FOUR);
    file.extend(control(None, 0));
    file.extend(image([0, 0, 2, 1], &[], 2, &encode_plain(2, &[1, 3])));
    file.push(0x3b);
    let gif = Gif::<Rgb888>::from_slice(&file).unwrap();
    let frame = gif.frames().next().unwrap();
    // every pixel is left of the area
    let area = Rectangle { left: 2, top: 0, size: Size { width: u32::MAX, height: 1 } };
    assert!(!area.can_decide(2, 0));
    assert_eq!(draw(&frame, Some(&area)), []);
    // the second pixel is not
    let area = Rectangle { left: 1, top: 0, size: Size { width: u32::MAX, height: 1 } };
    let mut cursor = frame.cursor();
    assert!(matches!(cursor.next_chunk(), DrawStep::Chunk(_)));
    assert_eq!(cursor.place_within(1, &area), Placed::Skipped);
    assert_eq!(cursor.place_within(3, &area), Placed::Undefined);
}

#[test]
fn image_within_the_screen() {
    let mut file = header(4, 3, &FOUR);
    file.extend(control(Some(0), 0));
    file.extend(image([1, 1, 2, 2], &[], 2, &encode_plain(2, &[1, 0, 3])));
    file.push(0x3b);
    let picture = first_picture(&file).unwrap();
    let mut expected = vec![0; 36];
    // index 0 in column 1 of row 1, index 2 in column 1 of row 2
    expected[3 * (4 + 1)..3 * (4 + 1) + 3].copy_from_slice(&FOUR[1]);
    expected[3 * (2 * 4 + 1)..3 * (2 * 4 + 1) + 3].copy_from_slice(&FOUR[3]);
    assert_eq!(picture, expected);
}

#[test]
fn rectangles() {
    let area = Rectangle { left: 2, top: 4, size: Size { width: 3, height: 5 } };
    assert!(area.contains(2, 4));
    assert!(area.contains(4, 8));
    assert!(!area.contains(5, 8));
    assert!(!area.contains(4, 9));
    assert!(!area.contains(1, 4));
    assert!(!area.contains(2, 3));
    let far = Rectangle { left: 0, top: 0, size: Size { width: u32::MAX, height: 1 } };
    assert!(!far.can_decide(0, 0));
    let empty = Rectangle { left: 0, top: 0, size: Size { width: u32::MAX, height: 0 } };
    assert!(empty.can_decide(0, 0));
    assert!(!empty.contains(0, 0));
    let beyond = Rectangle { left: 1, top: 0, size: Size { width: i32::MAX as u32, height: 1 } };
    assert!(!beyond.can_decide(1, 0));
    assert!(beyond.can_decide(0, 0));
    assert!(!beyond.contains(0, 0));
}
