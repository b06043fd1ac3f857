use ilbm::iff::{ChunkId, IffChunk, IffReader};
use ilbm::read::{
    read_bitmap_header, read_body, read_bytes, read_color_map, read_display_mode, read_dpi, widen,
};
use ilbm::{
    read_from_bytes, ColorMap, DisplayMode, IlbmError, IlbmImage, Masking, ReadOptions, RgbValue,
    Size2D,
};

fn chunk_bytes(tag: &[u8; 4], payload: &[u8]) -> Vec<u8> {
    let mut out: Vec<u8> = Vec::new();
    out.extend_from_slice(tag);
    out.extend_from_slice(&(payload.len() as u32).to_be_bytes());
    out.extend_from_slice(payload);
    if payload.len() % 2 == 1 {
        out.push(0);
    }
    out
}

fn chunk_of(tag: &[u8; 4], payload: &[u8]) -> IffChunk {
    let bytes = chunk_bytes(tag, payload);
    let mut reader = IffReader::new(&bytes);
    reader.next().unwrap()
}

struct Header {
    width: u16,
    height: u16,
    planes: u8,
    masking: u8,
    compression: u8,
    transparent: u16,
    aspect: (u8, u8),
    page: (i16, i16),
}

fn plain(width: u16, height: u16, planes: u8) -> Header {
    Header {
        width,
        height,
        planes,
        masking: 0,
        compression: 0,
        transparent: 0,
        aspect: (1, 1),
        page: (width as i16, height as i16),
    }
}

fn header_bytes(h: &Header) -> Vec<u8> {
    let mut out: Vec<u8> = Vec::new();
    out.extend_from_slice(&h.width.to_be_bytes());
    out.extend_from_slice(&h.height.to_be_bytes());
    out.extend_from_slice(&7i16.to_be_bytes());
    out.extend_from_slice(&(-9i16).to_be_bytes());
    out.push(h.planes);
    out.push(h.masking);
    out.push(h.compression);
    out.push(0xee);
    out.extend_from_slice(&h.transparent.to_be_bytes());
    out.push(h.aspect.0);
    out.push(h.aspect.1);
    out.extend_from_slice(&h.page.0.to_be_bytes());
    out.extend_from_slice(&h.page.1.to_be_bytes());
    out
}

fn form(kind: &[u8; 4], chunks: &[Vec<u8>]) -> Vec<u8> {
    let mut payload: Vec<u8> = Vec::new();
    payload.extend_from_slice(kind);
    for c in chunks {
        payload.extend_from_slice(c);
    }
    chunk_bytes(b"FORM", &payload)
}

fn all() -> ReadOptions {
    ReadOptions { read_pixels: true, page_scale: false }
}

fn two_colors() -> Vec<u8> {
    vec![1, 2, 3, 200, 100, 51]
}

/// One line of ten pixels in one plane: 1011000001.
fn ten_pixels() -> Vec<u8> {
    vec![0b1011_0000, 0b0100_0000]
}

fn ten_pixel_colors() -> Vec<u8> {
    let bits = [1u8, 0, 1, 1, 0, 0, 0, 0, 0, 1];
    let mut out: Vec<u8> = Vec::new();
    for b in bits {
        if b == 1 {
            out.extend_from_slice(&[200, 100, 51]);
        } else {
            out.extend_from_slice(&[1, 2, 3]);
        }
    }
    out
}

fn small_file() -> Vec<u8> {
    form(
        b"ILBM",
        &[
            chunk_bytes(b"BMHD", &header_bytes(&plain(10, 1, 1))),
            chunk_bytes(b"CMAP", &two_colors()),
            chunk_bytes(b"BODY", &ten_pixels()),
        ],
    )
}

#[test]
fn single_plane_image_decodes_to_its_map_entries() {
    let image = read_bytes(&small_file(), all()).unwrap();
    assert_eq!(image.size.width(), 10);
    assert_eq!(image.size.height(), 1);
    assert_eq!(image.planes, 1);
    assert_eq!(image.map_size, 2);
    assert_eq!(image.pixels.len(), 3 * 10 * 1);
    assert_eq!(image.pixels, ten_pixel_colors());
}

#[test]
fn decoded_image_carries_what_the_header_says() {
    let h = Header {
        width: 10,
        height: 1,
        planes: 1,
        masking: 2,
        compression: 0,
        transparent: 0x0102,
        aspect: (10, 11),
        page: (320, 200),
    };
    let file = form(
        b"ILBM",
        &[
            chunk_bytes(b"BMHD", &header_bytes(&h)),
            chunk_bytes(b"CMAP", &two_colors()),
            chunk_bytes(b"BODY", &ten_pixels()),
        ],
    );
    let image = read_from_bytes(&file, all()).unwrap();
    assert_eq!(image.form_type, ChunkId::new(b"ILBM"));
    assert_eq!(image.masking, Masking::HasTransparentColor);
    assert!(!image.compression);
    assert_eq!(image.transparent_color, 0x0102);
    assert_eq!(image.pixel_aspect.width(), 10);
    assert_eq!(image.pixel_aspect.height(), 11);
    assert_eq!(image.page_size.width(), 320);
    assert_eq!(image.page_size.height(), 200);
    assert_eq!(image.display_mode.0, 0);
    assert_eq!(image.dpi.width(), 0);
    assert_eq!(
        image.chunk_types,
        vec![ChunkId::new(b"BMHD"), ChunkId::new(b"CMAP"), ChunkId::new(b"BODY")]
    );
}

#[test]
fn decoding_twice_gives_the_same_pixels() {
    let file = small_file();
    let first = read_bytes(&file, all()).unwrap();
    let second = read_bytes(&file, all()).unwrap();
    assert_eq!(first.pixels, second.pixels);
    assert_eq!(first.size.width(), second.size.width());
    assert_eq!(first.chunk_types, second.chunk_types);
}

#[test]
fn two_planes_give_two_bits() {
    // Two lines of three pixels. Plane 0 gives the low bit, plane 1 the high.
    let body = vec![
        0b1010_0000, 0, // line 0, plane 0: 1 0 1
        0b0110_0000, 0, // line 0, plane 1: 0 1 1
        0b0000_0000, 0, // line 1, plane 0: 0 0 0
        0b1000_0000, 0, // line 1, plane 1: 1 0 0
    ];
    let map = vec![10, 11, 12, 20, 21, 22, 30, 31, 32, 40, 41, 42];
    let file = form(
        b"ILBM",
        &[
            chunk_bytes(b"BMHD", &header_bytes(&plain(3, 2, 2))),
            chunk_bytes(b"CMAP", &map),
            chunk_bytes(b"BODY", &body),
        ],
    );
    let image = read_bytes(&file, all()).unwrap();
    // Values: 1 2 3 / 2 0 0.
    assert_eq!(
        image.pixels,
        [20u8, 21, 22, 30, 31, 32, 40, 41, 42, 30, 31, 32, 10, 11, 12, 10, 11, 12]
    );
}

#[test]
fn bits_beyond_the_width_are_padding() {
    // Width 3, but every bit of the row is set.
    let file = form(
        b"ILBM",
        &[
            chunk_bytes(b"BMHD", &header_bytes(&plain(3, 1, 1))),
            chunk_bytes(b"CMAP", &two_colors()),
            chunk_bytes(b"BODY", &[0xff, 0xff]),
        ],
    );
    let image = read_bytes(&file, all()).unwrap();
    assert_eq!(image.pixels, [200u8, 100, 51, 200, 100, 51, 200, 100, 51]);
}

#[test]
fn rows_are_whole_words() {
    // Width 17 takes four bytes a row.
    let body = vec![0x80, 0x00, 0x80, 0x00, 0x00, 0x01, 0x00, 0x00];
    let file = form(
        b"ILBM",
        &[
            chunk_bytes(b"BMHD", &header_bytes(&plain(17, 2, 1))),
            chunk_bytes(b"CMAP", &two_colors()),
            chunk_bytes(b"BODY", &body),
        ],
    );
    let image = read_bytes(&file, all()).unwrap();
    assert_eq!(image.pixels.len(), 3 * 17 * 2);
    let lit = |x: usize, y: usize| image.pixels[3 * (y * 17 + x)] == 200;
    for x in 0..17 {
        assert_eq!(lit(x, 0), x == 0 || x == 16);
        assert_eq!(lit(x, 1), x == 15);
    }
}

#[test]
fn compressed_body_is_unpacked_row_by_row() {
    let mut h = plain(10, 2, 1);
    h.compression = 1;
    // Line 0: two literal bytes. Line 1: one byte twice.
    let body = vec![0x01, 0b1011_0000, 0b0100_0000, 0xff, 0xff];
    let file = form(
        b"ILBM",
        &[
            chunk_bytes(b"BMHD", &header_bytes(&h)),
            chunk_bytes(b"CMAP", &two_colors()),
            chunk_bytes(b"BODY", &body),
        ],
    );
    let image = read_bytes(&file, all()).unwrap();
    assert!(image.compression);
    let mut expected = ten_pixel_colors();
    for _ in 0..10 {
        expected.extend_from_slice(&[200, 100, 51]);
    }
    assert_eq!(image.pixels, expected);
}

#[test]
fn compressed_row_that_overruns_is_invalid_data() {
    let mut h = plain(10, 1, 1);
    h.compression = 1;
    // Three bytes where a row has two.
    let body = vec![0x02, 1, 2, 3];
    let file = form(
        b"ILBM",
        &[
            chunk_bytes(b"BMHD", &header_bytes(&h)),
            chunk_bytes(b"CMAP", &two_colors()),
            chunk_bytes(b"BODY", &body),
        ],
    );
    match read_bytes(&file, all()) {
        Err(IlbmError::InvalidData(text)) => {
            assert_eq!(text, "decompression unpacked too many bytes, expected 2 but got 3")
        }
        other => panic!("expected invalid data, got {:?}", other),
    }
}

#[test]
fn compressed_run_past_the_row_is_invalid_data() {
    // The file byte by byte: two pixels in one line and one plane, compressed, two
    // colors, and a body that is one run of four where the row has two bytes.
    let mut file: Vec<u8> = Vec::new();
    file.extend_from_slice(b"FORM");
    file.extend_from_slice(&[0, 0, 0, 56]);
    file.extend_from_slice(b"ILBMBMHD");
    file.extend_from_slice(&[
        0, 0, 0, 20, 0, 2, 0, 1, 0, 0, 0, 0, 1, 0, 1, 0, 0, 0, 1, 1, 0, 1, 0, 2,
    ]);
    file.extend_from_slice(b"CMAP");
    file.extend_from_slice(&[0, 0, 0, 6, 1, 2, 3, 4, 5, 6]);
    file.extend_from_slice(b"BODY");
    file.extend_from_slice(&[0, 0, 0, 2, 0xfd, 0]);
    match read_bytes(&file, all()) {
        Err(IlbmError::InvalidData(text)) => {
            assert_eq!(text, "decompression unpacked too many bytes, expected 2 but got 4")
        }
        other => panic!("expected invalid data, got {:?}", other),
    }
    match read_from_bytes(&file, ReadOptions { read_pixels: true, page_scale: true }) {
        Err(IlbmError::InvalidData(_)) => {}
        other => panic!("expected invalid data, got {:?}", other),
    }
}

#[test]
fn compressed_row_in_a_later_line_that_overruns_is_invalid_data() {
    let mut h = plain(10, 2, 1);
    h.compression = 1;
    // Line 0 is a row of two bytes. Line 1 is a run of five.
    let body = vec![0x01, 0xff, 0xff, 0xfc, 0x00];
    let file = form(
        b"ILBM",
        &[
            chunk_bytes(b"BMHD", &header_bytes(&h)),
            chunk_bytes(b"CMAP", &two_colors()),
            chunk_bytes(b"BODY", &body),
        ],
    );
    match read_bytes(&file, all()) {
        Err(IlbmError::InvalidData(text)) => {
            assert_eq!(text, "decompression unpacked too many bytes, expected 2 but got 5")
        }
        other => panic!("expected invalid data, got {:?}", other),
    }
}

#[test]
fn compressed_mask_row_that_overruns_is_invalid_data() {
    let mut h = plain(10, 1, 1);
    h.compression = 1;
    h.masking = 1;
    // The row of the plane is right; the row of the mask is a run of three.
    let body = vec![0x01, 0xff, 0xff, 0xfe, 0x00];
    let file = form(
        b"ILBM",
        &[
            chunk_bytes(b"BMHD", &header_bytes(&h)),
            chunk_bytes(b"CMAP", &two_colors()),
            chunk_bytes(b"BODY", &body),
        ],
    );
    match read_bytes(&file, all()) {
        Err(IlbmError::InvalidData(text)) => {
            assert_eq!(text, "decompression unpacked too many bytes, expected 2 but got 3")
        }
        other => panic!("expected invalid data, got {:?}", other),
    }
}

#[test]
fn compressed_row_without_map_that_overruns_is_invalid_data() {
    let mut h = plain(1, 1, 24);
    h.compression = 1;
    let body = vec![0xfd, 0x00];
    let file = form(
        b"ILBM",
        &[chunk_bytes(b"BMHD", &header_bytes(&h)), chunk_bytes(b"BODY", &body)],
    );
    match read_bytes(&file, all()) {
        Err(IlbmError::InvalidData(text)) => {
            assert_eq!(text, "decompression unpacked too many bytes, expected 2 but got 4")
        }
        other => panic!("expected invalid data, got {:?}", other),
    }
}

#[test]
fn compressed_row_cut_short_is_missing_data() {
    let mut h = plain(10, 2, 1);
    h.compression = 1;
    // Line 0 is a row of two bytes. Line 1 is a literal run that lacks its last byte.
    let body = vec![0x01, 0xff, 0xff, 0x01, 0xff];
    let file = form(
        b"ILBM",
        &[
            chunk_bytes(b"BMHD", &header_bytes(&h)),
            chunk_bytes(b"CMAP", &two_colors()),
            chunk_bytes(b"BODY", &body),
        ],
    );
    assert!(matches!(read_bytes(&file, all()), Err(IlbmError::NoData)));
}

#[test]
fn compressed_body_that_ends_before_the_last_line_is_missing_data() {
    let mut h = plain(10, 2, 1);
    h.compression = 1;
    let body = vec![0x01, 0xff, 0xff];
    let file = form(
        b"ILBM",
        &[
            chunk_bytes(b"BMHD", &header_bytes(&h)),
            chunk_bytes(b"CMAP", &two_colors()),
            chunk_bytes(b"BODY", &body),
        ],
    );
    assert!(matches!(read_bytes(&file, all()), Err(IlbmError::NoData)));
}

#[test]
fn compressed_body_that_fails_leaves_the_image_as_it_was() {
    let mut image = IlbmImage::default();
    image.size = Size2D(2, 1);
    image.planes = 1;
    image.compression = true;
    image.pixels = vec![9, 9, 9];
    let map = ColorMap { colors: vec![RgbValue(1, 2, 3), RgbValue(4, 5, 6)] };
    let r = read_body(chunk_of(b"BODY", &[0xfd, 0]), DisplayMode::new(0), Some(map), &mut image);
    assert!(matches!(r, Err(IlbmError::InvalidData(_))));
    assert_eq!(image.pixels, [9u8, 9, 9]);
}

#[test]
fn mask_rows_are_read_and_dropped() {
    let mut h = plain(10, 2, 1);
    h.masking = 1;
    let body = vec![
        0b1011_0000, 0b0100_0000, // line 0, plane 0
        0xff, 0xff, // line 0, mask
        0b1011_0000, 0b0100_0000, // line 1, plane 0
        0x00, 0x00, // line 1, mask
    ];
    let file = form(
        b"ILBM",
        &[
            chunk_bytes(b"BMHD", &header_bytes(&h)),
            chunk_bytes(b"CMAP", &two_colors()),
            chunk_bytes(b"BODY", &body),
        ],
    );
    let image = read_bytes(&file, all()).unwrap();
    assert_eq!(image.masking, Masking::HasMask);
    let mut expected = ten_pixel_colors();
    expected.extend(ten_pixel_colors());
    assert_eq!(image.pixels, expected);
}

#[test]
fn missing_mask_row_is_missing_data() {
    let mut h = plain(10, 1, 1);
    h.masking = 1;
    let file = form(
        b"ILBM",
        &[
            chunk_bytes(b"BMHD", &header_bytes(&h)),
            chunk_bytes(b"CMAP", &two_colors()),
            chunk_bytes(b"BODY", &ten_pixels()),
        ],
    );
    assert!(matches!(read_bytes(&file, all()), Err(IlbmError::NoData)));
}

#[test]
fn short_body_is_missing_data() {
    let file = form(
        b"ILBM",
        &[
            chunk_bytes(b"BMHD", &header_bytes(&plain(10, 2, 1))),
            chunk_bytes(b"CMAP", &two_colors()),
            chunk_bytes(b"BODY", &[0xff, 0xff, 0xff]),
        ],
    );
    assert!(matches!(read_bytes(&file, all()), Err(IlbmError::NoData)));
}

#[test]
fn pixel_without_map_entry_fails() {
    let file = form(
        b"ILBM",
        &[
            chunk_bytes(b"BMHD", &header_bytes(&plain(10, 1, 1))),
            chunk_bytes(b"CMAP", &[1, 2, 3]),
            chunk_bytes(b"BODY", &ten_pixels()),
        ],
    );
    assert!(matches!(
        read_bytes(&file, all()),
        Err(IlbmError::NoMapEntry { index: 1, map_size: 1 })
    ));
}

#[test]
fn image_without_color_map_takes_colors_from_the_planes() {
    // One pixel of 24 planes with the value 0x563412.
    let word: u32 = 0x563412;
    let mut body: Vec<u8> = Vec::new();
    for p in 0..24 {
        body.push(if word & (1 << p) != 0 { 0x80 } else { 0 });
        body.push(0);
    }
    let file = form(
        b"ILBM",
        &[
            chunk_bytes(b"BMHD", &header_bytes(&plain(1, 1, 24))),
            chunk_bytes(b"BODY", &body),
        ],
    );
    let image = read_bytes(&file, all()).unwrap();
    assert_eq!(image.map_size, 0);
    assert_eq!(image.pixels, [0x12u8, 0x34, 0x56]);
}

#[test]
fn image_of_32_planes_drops_the_highest_byte() {
    let word: u32 = 0xab563412;
    let mut body: Vec<u8> = Vec::new();
    for p in 0..32 {
        // Pixel 1 of 2 holds the value, pixel 0 its complement.
        body.push(if word & (1 << p) != 0 { 0x40 } else { 0x80 });
        body.push(0);
    }
    let file = form(
        b"ILBM",
        &[
            chunk_bytes(b"BMHD", &header_bytes(&plain(2, 1, 32))),
            chunk_bytes(b"BODY", &body),
        ],
    );
    let image = read_bytes(&file, all()).unwrap();
    assert_eq!(image.pixels, [0xedu8, 0xcb, 0xa9, 0x12, 0x34, 0x56]);
}

#[test]
fn more_than_32_planes_without_map_is_not_supported() {
    let file = form(
        b"ILBM",
        &[
            chunk_bytes(b"BMHD", &header_bytes(&plain(1, 1, 33))),
            chunk_bytes(b"BODY", &[0; 66]),
        ],
    );
    match read_bytes(&file, all()) {
        Err(IlbmError::NotSupported(text)) => assert_eq!(text, "Too many plans for deep color!"),
        other => panic!("expected not supported, got {:?}", other),
    }
}

#[test]
fn more_than_8_planes_with_map_is_not_supported() {
    let file = form(
        b"ILBM",
        &[
            chunk_bytes(b"BMHD", &header_bytes(&plain(1, 1, 9))),
            chunk_bytes(b"CMAP", &two_colors()),
            chunk_bytes(b"BODY", &[0; 18]),
        ],
    );
    match read_bytes(&file, all()) {
        Err(IlbmError::NotSupported(text)) => {
            assert_eq!(text, "Color map with more than 8 planes")
        }
        other => panic!("expected not supported, got {:?}", other),
    }
}

#[test]
fn eight_planes_with_map_are_supported() {
    let mut map: Vec<u8> = Vec::new();
    for i in 0..=255u8 {
        map.extend_from_slice(&[i, 255 - i, 1]);
    }
    // One pixel with the value 0xa5.
    let mut body: Vec<u8> = Vec::new();
    for p in 0..8 {
        body.push(if 0xa5u8 & (1 << p) != 0 { 0x80 } else { 0 });
        body.push(0);
    }
    let file = form(
        b"ILBM",
        &[
            chunk_bytes(b"BMHD", &header_bytes(&plain(1, 1, 8))),
            chunk_bytes(b"CMAP", &map),
            chunk_bytes(b"BODY", &body),
        ],
    );
    let image = read_bytes(&file, all()).unwrap();
    assert_eq!(image.map_size, 256);
    assert_eq!(image.pixels, [0xa5u8, 0x5a, 1]);
}

fn sixteen_colors() -> Vec<u8> {
    let mut map: Vec<u8> = Vec::new();
    for i in 0..16u8 {
        map.extend_from_slice(&[i + 1, i + 2, i + 3]);
    }
    map
}

/// The rows of one line of one pixel with the value `value` in `planes` planes.
fn one_pixel(value: u8, planes: u8) -> Vec<u8> {
    let mut body: Vec<u8> = Vec::new();
    for p in 0..planes {
        body.push(if value & (1 << p) != 0 { 0x80 } else { 0 });
        body.push(0);
    }
    body
}

#[test]
fn six_planes_and_sixteen_colors_without_mode_are_hold_and_modify() {
    // 0x2f: red to the full.
    let file = form(
        b"ILBM",
        &[
            chunk_bytes(b"BMHD", &header_bytes(&plain(1, 1, 6))),
            chunk_bytes(b"CMAP", &sixteen_colors()),
            chunk_bytes(b"BODY", &one_pixel(0x2f, 6)),
        ],
    );
    let image = read_bytes(&file, all()).unwrap();
    assert!(image.display_mode.is_ham());
    assert_eq!(image.display_mode.0, 0x800);
    assert_eq!(image.pixels, [255u8, 2, 3]);
}

#[test]
fn a_display_mode_chunk_stops_the_guess() {
    // With a mode of 0 the pixel is an index, and 0x2f has no entry.
    let file = form(
        b"ILBM",
        &[
            chunk_bytes(b"BMHD", &header_bytes(&plain(1, 1, 6))),
            chunk_bytes(b"CMAP", &sixteen_colors()),
            chunk_bytes(b"CAMG", &[0, 0, 0, 0]),
            chunk_bytes(b"BODY", &one_pixel(0x2f, 6)),
        ],
    );
    assert!(matches!(
        read_bytes(&file, all()),
        Err(IlbmError::NoMapEntry { index: 0x2f, map_size: 16 })
    ));
}

#[test]
fn hold_and_modify_by_display_mode() {
    let mut body = one_pixel(0x03, 6);
    body.extend(one_pixel(0x1f, 6));
    let file = form(
        b"ILBM",
        &[
            chunk_bytes(b"CAMG", &[0, 0, 0x08, 0]),
            chunk_bytes(b"BMHD", &header_bytes(&plain(1, 2, 6))),
            chunk_bytes(b"CMAP", &sixteen_colors()),
            chunk_bytes(b"BODY", &body),
        ],
    );
    let image = read_bytes(&file, all()).unwrap();
    assert!(image.display_mode.is_ham());
    // Line 0 picks color 3. Line 1 starts again from color 0, with blue to the full.
    assert_eq!(image.pixels, [4u8, 5, 6, 1, 2, 255]);
}

#[test]
fn hold_and_modify_wins_over_half_brightness() {
    let file = form(
        b"ILBM",
        &[
            chunk_bytes(b"BMHD", &header_bytes(&plain(1, 1, 6))),
            chunk_bytes(b"CMAP", &sixteen_colors()),
            chunk_bytes(b"CAMG", &[0, 0, 0x08, 0x80]),
            chunk_bytes(b"BODY", &one_pixel(0x2f, 6)),
        ],
    );
    let image = read_bytes(&file, all()).unwrap();
    assert!(image.display_mode.is_ham());
    assert!(image.display_mode.is_halfbrite());
    assert_eq!(image.pixels, [255u8, 2, 3]);
}

#[test]
fn hold_and_modify_with_one_plane_is_not_supported() {
    let file = form(
        b"ILBM",
        &[
            chunk_bytes(b"BMHD", &header_bytes(&plain(1, 1, 1))),
            chunk_bytes(b"CMAP", &two_colors()),
            chunk_bytes(b"CAMG", &[0, 0, 0x08, 0]),
            chunk_bytes(b"BODY", &[0, 0]),
        ],
    );
    assert!(matches!(read_bytes(&file, all()), Err(IlbmError::NotSupported(_))));
}

#[test]
fn half_brightness_by_display_mode() {
    let mut map: Vec<u8> = Vec::new();
    for i in 0..32u8 {
        map.extend_from_slice(&[i * 8 + 1, 201, 101]);
    }
    let mut body = one_pixel(0x02, 6);
    body.extend(one_pixel(0x22, 6));
    let file = form(
        b"ILBM",
        &[
            chunk_bytes(b"BMHD", &header_bytes(&plain(1, 2, 6))),
            chunk_bytes(b"CMAP", &map),
            chunk_bytes(b"CAMG", &[0, 0, 0, 0x80]),
            chunk_bytes(b"BODY", &body),
        ],
    );
    let image = read_bytes(&file, all()).unwrap();
    assert!(image.display_mode.is_halfbrite());
    assert!(!image.display_mode.is_ham());
    assert_eq!(image.pixels, [17u8, 201, 101, 8, 100, 50]);
}

#[test]
fn half_brightness_with_five_planes_is_not_supported() {
    let file = form(
        b"ILBM",
        &[
            chunk_bytes(b"BMHD", &header_bytes(&plain(1, 1, 5))),
            chunk_bytes(b"CMAP", &sixteen_colors()),
            chunk_bytes(b"CAMG", &[0, 0, 0, 0x80]),
            chunk_bytes(b"BODY", &one_pixel(0, 5)),
        ],
    );
    match read_bytes(&file, all()) {
        Err(IlbmError::NotSupported(text)) => {
            assert_eq!(text, "Halfbright only works with 6 planes, but I have 5")
        }
        other => panic!("expected not supported, got {:?}", other),
    }
}

#[test]
fn half_brightness_is_checked_without_pixels_too() {
    let file = form(
        b"ILBM",
        &[
            chunk_bytes(b"BMHD", &header_bytes(&plain(1, 1, 5))),
            chunk_bytes(b"CAMG", &[0, 0, 0, 0x80]),
            chunk_bytes(b"BODY", &[]),
        ],
    );
    let options = ReadOptions { read_pixels: false, page_scale: false };
    assert!(matches!(read_bytes(&file, options), Err(IlbmError::NotSupported(_))));
}

#[test]
fn without_pixels_only_the_metadata_is_read() {
    let file = form(
        b"ILBM",
        &[
            chunk_bytes(b"BMHD", &header_bytes(&plain(10, 4, 1))),
            chunk_bytes(b"CMAP", &two_colors()),
            chunk_bytes(b"BODY", &[]),
        ],
    );
    let options = ReadOptions { read_pixels: false, page_scale: false };
    let image = read_bytes(&file, options).unwrap();
    assert_eq!(image.size.width(), 10);
    assert_eq!(image.size.height(), 4);
    assert_eq!(image.map_size, 2);
    assert_eq!(image.pixels.len(), 0);
}

#[test]
fn page_scale_doubles_pixels_of_a_narrow_page() {
    let mut h = plain(3, 1, 1);
    h.page = (320, 400);
    let file = form(
        b"ILBM",
        &[
            chunk_bytes(b"BMHD", &header_bytes(&h)),
            chunk_bytes(b"CMAP", &two_colors()),
            chunk_bytes(b"BODY", &[0b0100_0000, 0]),
        ],
    );
    let options = ReadOptions { read_pixels: true, page_scale: true };
    let image = read_bytes(&file, options).unwrap();
    assert_eq!(image.size.width(), 6);
    assert_eq!(image.size.height(), 1);
    assert_eq!(image.pixels.len(), 3 * 6 * 1);
    assert_eq!(
        image.pixels,
        [1u8, 2, 3, 1, 2, 3, 200, 100, 51, 200, 100, 51, 1, 2, 3, 1, 2, 3]
    );
}

#[test]
fn page_scale_leaves_a_wide_page_alone() {
    let mut h = plain(3, 1, 1);
    h.page = (320, 320);
    let file = form(
        b"ILBM",
        &[
            chunk_bytes(b"BMHD", &header_bytes(&h)),
            chunk_bytes(b"CMAP", &two_colors()),
            chunk_bytes(b"BODY", &[0b0100_0000, 0]),
        ],
    );
    let options = ReadOptions { read_pixels: true, page_scale: true };
    let image = read_bytes(&file, options).unwrap();
    assert_eq!(image.size.width(), 3);
    assert_eq!(image.pixels, [1u8, 2, 3, 200, 100, 51, 1, 2, 3]);
}

#[test]
fn page_scale_is_off_unless_asked_for() {
    let mut h = plain(3, 1, 1);
    h.page = (320, 400);
    let file = form(
        b"ILBM",
        &[
            chunk_bytes(b"BMHD", &header_bytes(&h)),
            chunk_bytes(b"CMAP", &two_colors()),
            chunk_bytes(b"BODY", &[0b0100_0000, 0]),
        ],
    );
    let image = read_bytes(&file, all()).unwrap();
    assert_eq!(image.size.width(), 3);
    assert_eq!(image.pixels.len(), 9);
}

#[test]
fn page_scale_without_pixels_doubles_the_width() {
    let mut h = plain(3, 1, 1);
    h.page = (1, 2);
    let file = form(
        b"ILBM",
        &[chunk_bytes(b"BMHD", &header_bytes(&h)), chunk_bytes(b"BODY", &[])],
    );
    let options = ReadOptions { read_pixels: false, page_scale: true };
    let image = read_bytes(&file, options).unwrap();
    assert_eq!(image.size.width(), 6);
    assert_eq!(image.pixels.len(), 0);
}

#[test]
fn negative_page_size_wraps_to_a_large_one() {
    let mut h = plain(3, 1, 1);
    h.page = (-1, 5);
    let file = form(
        b"ILBM",
        &[
            chunk_bytes(b"BMHD", &header_bytes(&h)),
            chunk_bytes(b"CMAP", &two_colors()),
            chunk_bytes(b"BODY", &[0, 0]),
        ],
    );
    let options = ReadOptions { read_pixels: true, page_scale: true };
    let image = read_bytes(&file, options).unwrap();
    assert_eq!(image.page_size.width(), usize::MAX);
    assert_eq!(image.page_size.height(), 5);
    assert_eq!(image.size.width(), 3);
}

#[test]
fn body_before_header_is_no_header() {
    let file = form(
        b"ILBM",
        &[
            chunk_bytes(b"CMAP", &two_colors()),
            chunk_bytes(b"BODY", &ten_pixels()),
            chunk_bytes(b"BMHD", &header_bytes(&plain(10, 1, 1))),
        ],
    );
    assert!(matches!(read_bytes(&file, all()), Err(IlbmError::NoHeader)));
}

#[test]
fn empty_input_is_no_image() {
    assert!(matches!(read_bytes(&[], all()), Err(IlbmError::NoImage)));
}

#[test]
fn other_containers_are_no_image() {
    let mut file = form(b"8SVX", &[chunk_bytes(b"BODY", &[1, 2])]);
    file.extend(chunk_bytes(b"BODY", &ten_pixels()));
    assert!(matches!(read_bytes(&file, all()), Err(IlbmError::NoImage)));
}

#[test]
fn container_without_body_is_no_image() {
    let file = form(
        b"ILBM",
        &[
            chunk_bytes(b"BMHD", &header_bytes(&plain(10, 1, 1))),
            chunk_bytes(b"CMAP", &two_colors()),
        ],
    );
    assert!(matches!(read_bytes(&file, all()), Err(IlbmError::NoImage)));
}

#[test]
fn container_too_short_for_a_kind_is_passed_over() {
    let mut file = chunk_bytes(b"FORM", b"IL");
    file.extend(small_file());
    let image = read_bytes(&file, all()).unwrap();
    assert_eq!(image.pixels, ten_pixel_colors());
}

#[test]
fn cut_off_file_is_no_image() {
    let mut file = small_file();
    file.pop();
    assert!(matches!(read_bytes(&file, all()), Err(IlbmError::NoImage)));
}

#[test]
fn the_first_image_with_a_body_is_read() {
    let mut file = chunk_bytes(b"JUNK", &[1, 2, 3]);
    file.extend(form(b"ANIM", &[]));
    // An image without a body, whose header does not count for the next.
    file.extend(form(b"ILBM", &[chunk_bytes(b"BMHD", &header_bytes(&plain(99, 99, 1)))]));
    file.extend(small_file());
    file.extend(form(
        b"ILBM",
        &[
            chunk_bytes(b"BMHD", &header_bytes(&plain(3, 1, 1))),
            chunk_bytes(b"BODY", &[0, 0]),
        ],
    ));
    let image = read_bytes(&file, all()).unwrap();
    assert_eq!(image.size.width(), 10);
    assert_eq!(image.pixels, ten_pixel_colors());
    assert_eq!(
        image.chunk_types,
        vec![ChunkId::new(b"BMHD"), ChunkId::new(b"CMAP"), ChunkId::new(b"BODY")]
    );
}

#[test]
fn unknown_chunks_are_noted_and_passed_over() {
    let file = form(
        b"ILBM",
        &[
            chunk_bytes(b"ANNO", b"odd"),
            chunk_bytes(b"BMHD", &header_bytes(&plain(10, 1, 1))),
            chunk_bytes(b"GRAB", &[0, 1, 0, 2]),
            chunk_bytes(b"CMAP", &two_colors()),
            chunk_bytes(b"DPI ", &[0, 72, 0, 96]),
            chunk_bytes(b"bmhd", &[1]),
            chunk_bytes(b"BODY", &ten_pixels()),
            chunk_bytes(b"ANNO", b"behind the body"),
        ],
    );
    let image = read_bytes(&file, all()).unwrap();
    assert_eq!(image.pixels, ten_pixel_colors());
    assert_eq!(image.dpi.width(), 72);
    assert_eq!(image.dpi.height(), 96);
    assert_eq!(
        image.chunk_types,
        vec![
            ChunkId::new(b"ANNO"),
            ChunkId::new(b"BMHD"),
            ChunkId::new(b"GRAB"),
            ChunkId::new(b"CMAP"),
            ChunkId::new(b"DPI "),
            ChunkId::new(b"bmhd"),
            ChunkId::new(b"BODY"),
        ]
    );
}

#[test]
fn a_later_color_map_takes_the_place_of_an_earlier() {
    let file = form(
        b"ILBM",
        &[
            chunk_bytes(b"BMHD", &header_bytes(&plain(10, 1, 1))),
            chunk_bytes(b"CMAP", &[9, 9, 9, 8, 8, 8, 7, 7, 7]),
            chunk_bytes(b"CMAP", &two_colors()),
            chunk_bytes(b"BODY", &ten_pixels()),
        ],
    );
    let image = read_bytes(&file, all()).unwrap();
    assert_eq!(image.map_size, 2);
    assert_eq!(image.pixels, ten_pixel_colors());
}

#[test]
fn zero_width_is_an_invalid_header() {
    let file = form(
        b"ILBM",
        &[
            chunk_bytes(b"BMHD", &header_bytes(&plain(0, 5, 1))),
            chunk_bytes(b"BODY", &[]),
        ],
    );
    match read_bytes(&file, all()) {
        Err(IlbmError::InvalidHeader { expected, actual }) => {
            assert_eq!(expected, "non-zero height and width");
            assert_eq!(actual, "0x5");
        }
        other => panic!("expected invalid header, got {:?}", other),
    }
}

#[test]
fn zero_height_is_an_invalid_header() {
    let mut image = IlbmImage::default();
    let chunk = chunk_of(b"BMHD", &header_bytes(&plain(640, 0, 4)));
    match read_bitmap_header(chunk, &mut image) {
        Err(IlbmError::InvalidHeader { expected, actual }) => {
            assert_eq!(expected, "non-zero height and width");
            assert_eq!(actual, "640x0");
        }
        other => panic!("expected invalid header, got {:?}", other),
    }
}

#[test]
fn zero_size_comes_before_zero_planes() {
    let mut image = IlbmImage::default();
    let chunk = chunk_of(b"BMHD", &header_bytes(&plain(0, 0, 0)));
    assert!(matches!(
        read_bitmap_header(chunk, &mut image),
        Err(IlbmError::InvalidHeader { .. })
    ));
}

#[test]
fn zero_planes_is_no_planes() {
    let mut image = IlbmImage::default();
    let chunk = chunk_of(b"BMHD", &header_bytes(&plain(320, 200, 0)));
    assert!(matches!(read_bitmap_header(chunk, &mut image), Err(IlbmError::NoPlanes)));
    let file = form(b"ILBM", &[chunk_bytes(b"BMHD", &header_bytes(&plain(320, 200, 0)))]);
    assert!(matches!(read_bytes(&file, all()), Err(IlbmError::NoPlanes)));
}

#[test]
fn short_header_is_missing_data() {
    let mut image = IlbmImage::default();
    let mut bytes = header_bytes(&plain(320, 200, 4));
    bytes.pop();
    let chunk = chunk_of(b"BMHD", &bytes);
    assert!(matches!(read_bitmap_header(chunk, &mut image), Err(IlbmError::NoData)));
    assert_eq!(image.size.width(), 0);
    assert_eq!(image.planes, 0);
}

#[test]
fn header_fields_are_read_in_order() {
    let mut image = IlbmImage::default();
    let h = Header {
        width: 0x0140,
        height: 0x00c8,
        planes: 5,
        masking: 3,
        compression: 1,
        transparent: 0x1234,
        aspect: (44, 52),
        page: (0x0280, 0x0190),
    };
    let chunk = chunk_of(b"BMHD", &header_bytes(&h));
    read_bitmap_header(chunk, &mut image).unwrap();
    assert_eq!(image.size.width(), 320);
    assert_eq!(image.size.height(), 200);
    assert_eq!(image.planes, 5);
    assert_eq!(image.masking, Masking::Lasso);
    assert!(image.compression);
    assert_eq!(image.transparent_color, 0x1234);
    assert_eq!(image.pixel_aspect.width(), 44);
    assert_eq!(image.pixel_aspect.height(), 52);
    assert_eq!(image.page_size.width(), 640);
    assert_eq!(image.page_size.height(), 400);
}

#[test]
fn unknown_masking_is_none() {
    let mut image = IlbmImage::default();
    let mut h = plain(1, 1, 1);
    h.masking = 77;
    read_bitmap_header(chunk_of(b"BMHD", &header_bytes(&h)), &mut image).unwrap();
    assert_eq!(image.masking, Masking::NoMask);
    assert_eq!(ilbm::as_masking(0), Masking::NoMask);
    assert_eq!(ilbm::as_masking(1), Masking::HasMask);
    assert_eq!(ilbm::as_masking(2), Masking::HasTransparentColor);
    assert_eq!(ilbm::as_masking(3), Masking::Lasso);
    assert_eq!(ilbm::as_masking(4), Masking::NoMask);
    assert_eq!(Masking::default(), Masking::NoMask);
}

fn colors_of(map: &ColorMap) -> Vec<(u8, u8, u8)> {
    map.colors.iter().map(|c| (c.0, c.1, c.2)).collect()
}

#[test]
fn four_bit_color_map_is_widened() {
    let map = read_color_map(chunk_of(b"CMAP", &[0xf0, 0xf0, 0xf0])).unwrap();
    assert_eq!(colors_of(&map), vec![(0xff, 0xff, 0xff)]);
    let map =
        read_color_map(chunk_of(b"CMAP", &[0x00, 0x10, 0x20, 0xa0, 0xf0, 0x70])).unwrap();
    assert_eq!(colors_of(&map), vec![(0x00, 0x11, 0x22), (0xaa, 0xff, 0x77)]);
}

#[test]
fn color_map_with_a_low_bit_is_left_alone() {
    let map =
        read_color_map(chunk_of(b"CMAP", &[0xf0, 0xf0, 0xf0, 0x10, 0x20, 0x31])).unwrap();
    assert_eq!(colors_of(&map), vec![(0xf0, 0xf0, 0xf0), (0x10, 0x20, 0x31)]);
    let map =
        read_color_map(chunk_of(b"CMAP", &[0xf8, 0xf0, 0xf0, 0x10, 0x20, 0x30])).unwrap();
    assert_eq!(colors_of(&map), vec![(0xf8, 0xf0, 0xf0), (0x10, 0x20, 0x30)]);
}

#[test]
fn color_map_leaves_out_bytes_behind_the_last_color() {
    let map = read_color_map(chunk_of(b"CMAP", &[1, 2, 3, 4, 5])).unwrap();
    assert_eq!(colors_of(&map), vec![(1, 2, 3)]);
    // Bytes that are left out do not count for the widening either.
    let map = read_color_map(chunk_of(b"CMAP", &[0x10, 0x20, 0x30, 0x01])).unwrap();
    assert_eq!(colors_of(&map), vec![(0x11, 0x22, 0x33)]);
    let map = read_color_map(chunk_of(b"CMAP", &[])).unwrap();
    assert_eq!(map.colors.len(), 0);
}

#[test]
fn widened_map_is_what_pixels_pick_from() {
    let file = form(
        b"ILBM",
        &[
            chunk_bytes(b"BMHD", &header_bytes(&plain(1, 1, 1))),
            chunk_bytes(b"CMAP", &[0x00, 0x00, 0x00, 0xf0, 0xf0, 0xf0]),
            chunk_bytes(b"BODY", &[0x80, 0]),
        ],
    );
    let image = read_bytes(&file, all()).unwrap();
    assert_eq!(image.pixels, [0xffu8, 0xff, 0xff]);
}

#[test]
fn display_mode_is_a_word_of_four_bytes() {
    let mode = read_display_mode(chunk_of(b"CAMG", &[0x00, 0x01, 0x08, 0x80])).unwrap();
    assert_eq!(mode.0, 0x00010880);
    assert!(mode.is_ham());
    assert!(mode.is_halfbrite());
    let mode = read_display_mode(chunk_of(b"CAMG", &[0, 0, 0x10, 0x04, 9, 9])).unwrap();
    assert!(!mode.is_ham());
    assert!(!mode.is_halfbrite());
    assert!(matches!(
        read_display_mode(chunk_of(b"CAMG", &[0, 0, 8])),
        Err(IlbmError::NoData)
    ));
}

#[test]
fn display_mode_bits() {
    assert!(DisplayMode::new(0x800).is_ham());
    assert!(!DisplayMode::new(0x800).is_halfbrite());
    assert!(DisplayMode::new(0x80).is_halfbrite());
    assert!(!DisplayMode::new(0x80).is_ham());
    assert!(!DisplayMode::new(0xfffff77f).is_ham());
    assert!(!DisplayMode::new(0xfffff77f).is_halfbrite());
    assert!(DisplayMode::ham().is_ham());
    assert_eq!(DisplayMode::ham().0, 0x800);
    assert_eq!(DisplayMode::default().0, 0);
}

#[test]
fn dpi_is_two_numbers_one_after_the_other() {
    let dpi = read_dpi(chunk_of(b"DPI ", &[0x00, 0x48, 0x01, 0x2c])).unwrap();
    assert_eq!(dpi.width(), 72);
    assert_eq!(dpi.height(), 300);
    assert!(matches!(read_dpi(chunk_of(b"DPI ", &[0, 72, 0])), Err(IlbmError::NoData)));
    assert!(matches!(read_dpi(chunk_of(b"DPI ", &[])), Err(IlbmError::NoData)));
}

#[test]
fn short_display_mode_ends_the_reading() {
    let file = form(
        b"ILBM",
        &[
            chunk_bytes(b"BMHD", &header_bytes(&plain(10, 1, 1))),
            chunk_bytes(b"CAMG", &[0, 0]),
            chunk_bytes(b"CMAP", &two_colors()),
            chunk_bytes(b"BODY", &ten_pixels()),
        ],
    );
    assert!(matches!(read_bytes(&file, all()), Err(IlbmError::NoData)));
}

#[test]
fn read_body_goes_by_the_map_if_there_is_one() {
    let mut image = IlbmImage::default();
    image.size = Size2D(2, 1);
    image.planes = 1;
    let map = ColorMap { colors: vec![RgbValue(1, 2, 3), RgbValue(4, 5, 6)] };
    read_body(chunk_of(b"BODY", &[0x40, 0]), DisplayMode::new(0), Some(map), &mut image)
        .unwrap();
    assert_eq!(image.pixels, [1u8, 2, 3, 4, 5, 6]);

    let mut deep = IlbmImage::default();
    deep.size = Size2D(2, 1);
    deep.planes = 1;
    read_body(chunk_of(b"BODY", &[0x40, 0]), DisplayMode::new(0), None, &mut deep).unwrap();
    assert_eq!(deep.pixels, [0u8, 0, 0, 1, 0, 0]);
}

#[test]
fn failed_body_leaves_the_image_as_it_was() {
    let mut image = IlbmImage::default();
    image.size = Size2D(2, 2);
    image.planes = 1;
    image.pixels = vec![9, 9, 9];
    let map = ColorMap { colors: vec![RgbValue(1, 2, 3), RgbValue(4, 5, 6)] };
    let r = read_body(chunk_of(b"BODY", &[0x40, 0]), DisplayMode::new(0), Some(map), &mut image);
    assert!(matches!(r, Err(IlbmError::NoData)));
    assert_eq!(image.pixels, [9u8, 9, 9]);
}

#[test]
fn widen_repeats_every_pixel() {
    let mut image = IlbmImage::default();
    image.size = Size2D(2, 2);
    image.pixels = vec![1, 2, 3, 4, 5, 6, 7, 8, 9, 10, 11, 12];
    widen(&mut image);
    assert_eq!(image.size.width(), 4);
    assert_eq!(image.size.height(), 2);
    assert_eq!(
        image.pixels,
        [
            1u8, 2, 3, 1, 2, 3, 4, 5, 6, 4, 5, 6, 7, 8, 9, 7, 8, 9, 10, 11, 12, 10, 11, 12
        ]
    );
}

#[test]
fn default_image_is_blank() {
    let image = IlbmImage::default();
    assert_eq!(image.form_type, ChunkId::new(b"????"));
    assert_eq!(image.size.width(), 0);
    assert_eq!(image.size.height(), 0);
    assert_eq!(image.map_size, 0);
    assert_eq!(image.chunk_types.len(), 0);
    assert_eq!(image.planes, 0);
    assert_eq!(image.masking, Masking::NoMask);
    assert!(!image.compression);
    assert_eq!(image.display_mode.0, 0);
    assert_eq!(image.transparent_color, 0);
    assert_eq!(image.pixels.len(), 0);
}
