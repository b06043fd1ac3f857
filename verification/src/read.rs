//! From the bytes of a file to an image.
//!
//! An image is a container of the kind `ILBM`. Its chunks are read in order: the
//! header, the color map, the display mode and the resolution say how to read the
//! body, and the body ends the reading.
use vstd::prelude::*;
use vstd::string::*;

use crate::body::{
    body_read, deep_body, layout_of, lemma_deep_lines_len, lemma_mapped_lines_len, mapped_body,
    read_body_no_map, read_body_with_cmap,
};
use crate::bytes::{be16, be32, signed_be16, BigEndian};
use crate::iff::{
    chunks, lemma_chunks_first, lemma_next_chunk_shorter, tag_of, ChunkId, ChunkView, IffChunk,
    IffReader,
};
use crate::text::{halfbrite_message, halfbrite_text, size_text};
use crate::{
    as_masking, blank_image, masking_of, ColorMap, DisplayMode, IlbmError, IlbmErrorView,
    IlbmImage, IlbmImageView, ReadOptions, RgbValue, Size2D,
};

verus! {

/// The resolution that the payload `data` of a resolution chunk holds: two numbers of
/// two bytes each, across and down.
pub open spec fn dpi_of(data: Seq<u8>) -> Result<Size2D, IlbmErrorView> {
    if data.len() < 4 {
        Err(IlbmErrorView::NoData)
    } else {
        Ok(Size2D(be16(data) as usize, be16(data.skip(2)) as usize))
    }
}

/// Reads a resolution chunk.
pub fn read_dpi(chunk: IffChunk) -> (r: Result<Size2D, IlbmError>)
    ensures
        match r {
            Ok(dpi) => dpi_of(chunk@.data) == Ok::<Size2D, IlbmErrorView>(dpi),
            Err(e) => dpi_of(chunk@.data) == Err::<Size2D, IlbmErrorView>(e@),
        },
{
    let mut buf: &[u8] = chunk.data();
    let across: u16 = buf.get_u16()?;
    let down: u16 = buf.get_u16()?;
    Ok(Size2D(across as usize, down as usize))
}

/// The display mode that the payload `data` of a display mode chunk holds: one word
/// of four bytes.
pub open spec fn display_mode_of(data: Seq<u8>) -> Result<DisplayMode, IlbmErrorView> {
    if data.len() < 4 {
        Err(IlbmErrorView::NoData)
    } else {
        Ok(DisplayMode(be32(data) as u32))
    }
}

/// Reads a display mode chunk.
pub fn read_display_mode(chunk: IffChunk) -> (r: Result<DisplayMode, IlbmError>)
    ensures
        match r {
            Ok(mode) => display_mode_of(chunk@.data) == Ok::<DisplayMode, IlbmErrorView>(mode),
            Err(e) => display_mode_of(chunk@.data) == Err::<DisplayMode, IlbmErrorView>(e@),
        },
{
    let mut buf: &[u8] = chunk.data();
    Ok(DisplayMode::new(buf.get_u32()?))
}

/// The colors as the payload `data` of a color map chunk holds them: three bytes for
/// each, red, green, blue. Bytes behind the last whole color are left out.
pub open spec fn raw_colors(data: Seq<u8>) -> Seq<RgbValue> {
    Seq::new(data.len() / 3, |i: int| RgbValue(data[3 * i], data[3 * i + 1], data[3 * i + 2]))
}

/// Whether the low four bits of each channel of `color` are zero.
pub open spec fn low_bits_clear(color: RgbValue) -> bool {
    ((color.0 & 0xf) | (color.1 & 0xf) | (color.2 & 0xf)) == 0
}

/// Whether a color map uses only the high four bits of its channels, as color maps
/// of the first generation do: no channel of any color has a low bit set.
pub open spec fn four_bit(colors: Seq<RgbValue>) -> bool {
    forall|i: int| 0 <= i < colors.len() ==> low_bits_clear(#[trigger] colors[i])
}

/// A color whose channels have their high four bits copied into the low four.
pub open spec fn widened(color: RgbValue) -> RgbValue {
    RgbValue(color.0 | (color.0 >> 4), color.1 | (color.1 >> 4), color.2 | (color.2 >> 4))
}

/// The color map that the payload `data` of a color map chunk stands for. A map that
/// uses only the high four bits of its channels could not reach full brightness, and
/// is widened: every color of it. Any other map is taken as it is.
pub open spec fn color_map_of(data: Seq<u8>) -> Seq<RgbValue> {
    let raw = raw_colors(data);
    if four_bit(raw) {
        Seq::new(raw.len(), |i: int| widened(raw[i]))
    } else {
        raw
    }
}

/// A channel that uses only its high four bits is widened to 17 times the number in
/// those bits: from 0 for `0x00` up to 255 for `0xf0`.
pub proof fn lemma_widened_channel(c: u8)
    requires
        c & 0xf == 0,
    ensures
        c | (c >> 4) == c / 16 * 17,
{
    assert(c | (c >> 4) == c / 16 * 17) by (bit_vector)
        requires
            c & 0xf == 0,
    ;
}

/// A map in which any channel of any color has one of its low four bits set is taken
/// as it is. In any other map every color is widened.
pub proof fn lemma_color_map_widening(data: Seq<u8>)
    ensures
        color_map_of(data).len() == data.len() / 3,
        forall|i: int|
            0 <= i < data.len() / 3 ==> #[trigger] color_map_of(data)[i] == if four_bit(
                raw_colors(data),
            ) {
                widened(raw_colors(data)[i])
            } else {
                raw_colors(data)[i]
            },
        (exists|i: int| 0 <= i < data.len() / 3 && !low_bits_clear(#[trigger] raw_colors(data)[i]))
            ==> color_map_of(data) == raw_colors(data),
{
}

/// Reads a color map chunk.
pub fn read_color_map(chunk: IffChunk) -> (r: Result<ColorMap, IlbmError>)
    ensures
        r matches Ok(map) && map.colors@ == color_map_of(chunk@.data),
{
    let mut buf: &[u8] = chunk.data();
    let ghost data = buf@;

    let count: usize = buf.len() / 3;

    let mut colors: Vec<RgbValue> = Vec::new();

    // Whether any channel has a low bit set. A map of the first generation has
    // none, and is widened once it has been read whole.
    let mut found_low_bits: bool = false;
    let mut i: usize = 0;
    while i < count
        invariant
            i <= count,
            count == data.len() / 3,
            buf@ == data.skip(3 * i),
            colors@ == raw_colors(data).take(i as int),
            found_low_bits == !four_bit(colors@),
        decreases count - i,
    {
        let red: u8 = buf.get_u8()?;
        let green: u8 = buf.get_u8()?;
        let blue: u8 = buf.get_u8()?;

        if ((red & 0xf) | (green & 0xf) | (blue & 0xf)) != 0 {
            found_low_bits = true;
        }
        let ghost earlier = colors@;
        colors.push(RgbValue(red, green, blue));
        proof {
            assert(colors@[i as int] == RgbValue(red, green, blue));
            if four_bit(earlier) && low_bits_clear(RgbValue(red, green, blue)) {
                assert forall|k: int| 0 <= k < colors@.len() implies low_bits_clear(
                    #[trigger] colors@[k],
                ) by {
                    assert(k < i ==> colors@[k] == earlier[k]);
                }
            } else if !four_bit(earlier) {
                let k = choose|k: int| 0 <= k < earlier.len() && !low_bits_clear(earlier[k]);
                assert(colors@[k] == earlier[k]);
            }
        }
        i = i + 1;
    }
    assert(colors@ == raw_colors(data));

    if !found_low_bits {
        let mut k: usize = 0;
        while k < colors.len()
            invariant
                k <= colors.len(),
                colors@.len() == raw_colors(data).len(),
                forall|j: int|
                    0 <= j < k ==> #[trigger] colors@[j] == widened(raw_colors(data)[j]),
                forall|j: int|
                    k <= j < colors@.len() ==> #[trigger] colors@[j] == raw_colors(data)[j],
            decreases colors.len() - k,
        {
            let color: RgbValue = colors[k];
            colors[k] = RgbValue(
                color.0 | (color.0 >> 4),
                color.1 | (color.1 >> 4),
                color.2 | (color.2 >> 4),
            );
            k = k + 1;
        }
    }
    Ok(ColorMap { colors })
}

/// A signed number of two bytes taken as a size: a negative number wraps round to the
/// top of the range of sizes.
pub open spec fn page_dimension(v: int) -> usize {
    if v >= 0 {
        v as usize
    } else {
        (usize::MAX + 1 + v) as usize
    }
}

/// The image `image` with what the payload `data` of a header chunk says of it. The
/// header is 20 bytes: width and height, two bytes each; the position, four bytes,
/// which are passed over; the number of planes, the masking and the compression, one
/// byte each; one byte that is passed over; the transparent color, two bytes; the
/// aspect of a pixel, two bytes; the width and height of the page, two bytes each.
pub open spec fn header_image(image: IlbmImageView, data: Seq<u8>) -> IlbmImageView
    recommends
        data.len() >= 20,
{
    IlbmImageView {
        size: Size2D(be16(data) as usize, be16(data.skip(2)) as usize),
        planes: data[8] as usize,
        masking: masking_of(data[9]),
        compression: data[10] != 0,
        transparent_color: be16(data.skip(12)) as usize,
        pixel_aspect: Size2D(data[14] as usize, data[15] as usize),
        page_size: Size2D(
            page_dimension(signed_be16(data.skip(16))),
            page_dimension(signed_be16(data.skip(18))),
        ),
        ..image
    }
}

/// What is wrong with the payload `data` of a header chunk, if anything is: it is
/// short of 20 bytes; or it gives an image no width or no height; or, with both, no
/// planes.
pub open spec fn header_fault(data: Seq<u8>) -> Option<IlbmErrorView> {
    if data.len() < 20 {
        Some(IlbmErrorView::NoData)
    } else if be16(data) == 0 || be16(data.skip(2)) == 0 {
        Some(
            IlbmErrorView::InvalidHeader {
                expected: "non-zero height and width"@,
                actual: size_text(be16(data) as nat, be16(data.skip(2)) as nat),
            },
        )
    } else if data[8] == 0 {
        Some(IlbmErrorView::NoPlanes)
    } else {
        None
    }
}

/// A header of 20 bytes or more is at fault when it gives the image no width or no
/// height, and, with both, when it gives the image no planes, and in no other case.
pub proof fn lemma_header_faults(data: Seq<u8>)
    requires
        data.len() >= 20,
    ensures
        (be16(data) == 0 || be16(data.skip(2)) == 0) ==> header_fault(data) matches Some(
            IlbmErrorView::InvalidHeader { .. },
        ),
        be16(data) != 0 && be16(data.skip(2)) != 0 && data[8] == 0 ==> header_fault(data) == Some(
            IlbmErrorView::NoPlanes,
        ),
        be16(data) != 0 && be16(data.skip(2)) != 0 && data[8] != 0 ==> header_fault(data) is None,
{
}

/// Whether the outcome `r` of an operation that has no result is the fault `fault`.
pub open spec fn fails_with(r: Result<(), IlbmError>, fault: Option<IlbmErrorView>) -> bool {
    match fault {
        None => r is Ok,
        Some(e) => r matches Err(err) && err@ == e,
    }
}

fn page_size(v: i16) -> (r: usize)
    ensures
        r == page_dimension(v as int),
{
    if v >= 0 {
        v as usize
    } else {
        usize::MAX - ((-(v as i32) - 1) as usize)
    }
}

/// Reads a header chunk into `image`. A header of less than 20 bytes leaves the image
/// as it is. Any other header is taken over, also where it is at fault.
pub fn read_bitmap_header(chunk: IffChunk, image: &mut IlbmImage) -> (r: Result<(), IlbmError>)
    ensures
        fails_with(r, header_fault(chunk@.data)),
        final(image)@ == if chunk@.data.len() < 20 {
            old(image)@
        } else {
            header_image(old(image)@, chunk@.data)
        },
{
    let mut buf: &[u8] = chunk.data();
    let ghost data = buf@;
    if buf.len() < 20 {
        return Err(IlbmError::NoData);
    }
    let width: u16 = buf.get_u16()?;
    let height: u16 = buf.get_u16()?;
    image.size = Size2D(width as usize, height as usize);

    // The position of the image on its page is read and not used.
    buf.get_i16()?;
    buf.get_i16()?;

    let planes: u8 = buf.get_u8()?;
    let masking: u8 = buf.get_u8()?;
    let compression: u8 = buf.get_u8()?;
    image.planes = planes as usize;
    image.masking = as_masking(masking);
    image.compression = compression != 0;

    // One byte of padding.
    buf.get_u8()?;

    let transparent_color: u16 = buf.get_u16()?;
    let x_aspect: u8 = buf.get_u8()?;
    let y_aspect: u8 = buf.get_u8()?;
    let page_width: i16 = buf.get_i16()?;
    let page_height: i16 = buf.get_i16()?;
    image.transparent_color = transparent_color as usize;
    image.pixel_aspect = Size2D(x_aspect as usize, y_aspect as usize);
    image.page_size = Size2D(page_size(page_width), page_size(page_height));

    // An image without pixels cannot be shown.
    if image.size.0 == 0 || image.size.1 == 0 {
        return Err(
            IlbmError::InvalidHeader {
                expected: String::from_str("non-zero height and width"),
                actual: image.size.to_text(),
            },
        );
    }
    if image.planes == 0 {
        return Err(IlbmError::NoPlanes);
    }
    Ok(())
}

/// The pixels of the image `image`, whose body is `data`: by its color map if it has
/// one, else taken from the pixel values themselves.
pub open spec fn body_pixels(
    data: Seq<u8>,
    image: IlbmImageView,
    mode: DisplayMode,
    map: Option<Seq<RgbValue>>,
) -> Result<Seq<u8>, IlbmErrorView> {
    match map {
        Some(colors) => mapped_body(data, image, mode, colors),
        None => deep_body(data, image),
    }
}

/// The colors of a color map that may not be there.
pub open spec fn colors_of(map: Option<ColorMap>) -> Option<Seq<RgbValue>> {
    match map {
        Some(m) => Some(m.colors@),
        None => None,
    }
}

/// Reads the body chunk of an image into its pixels.
pub fn read_body(
    chunk: IffChunk,
    mode: DisplayMode,
    map: Option<ColorMap>,
    image: &mut IlbmImage,
) -> (r: Result<(), IlbmError>)
    requires
        old(image).size.0 <= usize::MAX - 15,
    ensures
        body_read(
            r,
            old(image)@,
            final(image)@,
            body_pixels(chunk@.data, old(image)@, mode, colors_of(map)),
        ),
{
    match map {
        Some(map) => read_body_with_cmap(chunk, mode, map, image),
        None => read_body_no_map(chunk, image),
    }
}

/// The tag `BMHD` of the header chunk.
pub open spec fn header_id() -> ChunkId {
    ChunkId([0x42, 0x4d, 0x48, 0x44])
}

/// The tag `CMAP` of the color map chunk.
pub open spec fn color_map_id() -> ChunkId {
    ChunkId([0x43, 0x4d, 0x41, 0x50])
}

/// The tag `CAMG` of the display mode chunk.
pub open spec fn display_mode_id() -> ChunkId {
    ChunkId([0x43, 0x41, 0x4d, 0x47])
}

/// The tag `DPI ` of the resolution chunk.
pub open spec fn dpi_id() -> ChunkId {
    ChunkId([0x44, 0x50, 0x49, 0x20])
}

/// The tag `BODY` of the chunk that holds the pixels.
pub open spec fn body_id() -> ChunkId {
    ChunkId([0x42, 0x4f, 0x44, 0x59])
}

/// The kind `ILBM` of the container that holds an image.
pub open spec fn image_kind() -> [u8; 4] {
    [0x49, 0x4c, 0x42, 0x4d]
}

/// What has been gathered from the chunks of an image before its body.
pub struct Gathered {
    pub image: IlbmImageView,
    /// The color map that was read last, if any was.
    pub map: Option<Seq<RgbValue>>,
    pub got_header: bool,
    pub got_display_mode: bool,
}

/// What one chunk of an image does to the reading.
pub enum Step {
    /// The reading goes on to the next chunk.
    Next(Gathered),
    /// The reading ends with the image or with an error.
    Done(Result<IlbmImageView, IlbmErrorView>),
}

/// The pixels of an image two bytes for one: every pixel of three bytes stands twice.
pub open spec fn doubled(pixels: Seq<u8>) -> Seq<u8> {
    Seq::new(pixels.len() / 3 * 6, |j: int| pixels[j / 6 * 3 + j % 3])
}

/// The image at twice its width, each pixel repeated to its right.
pub open spec fn widened_image(image: IlbmImageView) -> IlbmImageView {
    IlbmImageView {
        size: Size2D((image.size.0 * 2) as usize, image.size.1),
        pixels: doubled(image.pixels),
        ..image
    }
}

/// The display mode by which the body is read. An image of 6 planes and 16 colors
/// that came without a display mode is taken to be in hold-and-modify mode: files of
/// that mode are known to lack the chunk.
pub open spec fn body_mode(state: Gathered) -> DisplayMode {
    if !state.got_display_mode && state.image.planes == 6 && state.image.map_size == 16 {
        DisplayMode(0x800)
    } else {
        state.image.display_mode
    }
}

/// What the body chunk with the payload `data` ends the reading with, after `state`
/// has been gathered.
///
/// A body before any header is an error. Half-brightness mode with a number of planes
/// other than 6 is not supported. The pixels are read if `options` asks for them. An
/// image whose page is narrower than it is high is widened if `options` asks for it.
pub open spec fn finished(state: Gathered, data: Seq<u8>, options: ReadOptions) -> Result<
    IlbmImageView,
    IlbmErrorView,
> {
    if !state.got_header {
        Err(IlbmErrorView::NoHeader)
    } else {
        let mode = body_mode(state);
        let image = IlbmImageView { display_mode: mode, ..state.image };
        if mode.halfbrite_bit() && image.planes != 6 {
            Err(IlbmErrorView::NotSupported(halfbrite_text(image.planes as nat)))
        } else {
            let read = if options.read_pixels {
                match body_pixels(data, image, mode, state.map) {
                    Ok(pixels) => Ok(IlbmImageView { pixels, ..image }),
                    Err(e) => Err(e),
                }
            } else {
                Ok(image)
            };
            match read {
                Ok(image) => if options.page_scale && image.page_size.0 < image.page_size.1 {
                    Ok(widened_image(image))
                } else {
                    Ok(image)
                },
                Err(e) => Err(e),
            }
        }
    }
}

/// What the chunk `chunk` of an image does to the reading, after `state` has been
/// gathered. The tag of every chunk is noted. The header, the color map, the display
/// mode and the resolution are taken over, each in place of what was there; an error
/// in one of them ends the reading. The body ends the reading. Any other chunk is
/// passed over.
pub open spec fn step(state: Gathered, chunk: ChunkView, options: ReadOptions) -> Step {
    let noted = IlbmImageView {
        chunk_types: state.image.chunk_types.push(chunk.id),
        ..state.image
    };
    let state = Gathered { image: noted, ..state };
    if chunk.id == header_id() {
        match header_fault(chunk.data) {
            Some(e) => Step::Done(Err(e)),
            None => Step::Next(
                Gathered { image: header_image(noted, chunk.data), got_header: true, ..state },
            ),
        }
    } else if chunk.id == color_map_id() {
        let colors = color_map_of(chunk.data);
        Step::Next(
            Gathered {
                image: IlbmImageView { map_size: colors.len() as usize, ..noted },
                map: Some(colors),
                ..state
            },
        )
    } else if chunk.id == display_mode_id() {
        match display_mode_of(chunk.data) {
            Ok(mode) => Step::Next(
                Gathered {
                    image: IlbmImageView { display_mode: mode, ..noted },
                    got_display_mode: true,
                    ..state
                },
            ),
            Err(e) => Step::Done(Err(e)),
        }
    } else if chunk.id == dpi_id() {
        match dpi_of(chunk.data) {
            Ok(dpi) => Step::Next(Gathered { image: IlbmImageView { dpi, ..noted }, ..state }),
            Err(e) => Step::Done(Err(e)),
        }
    } else if chunk.id == body_id() {
        Step::Done(finished(state, chunk.data, options))
    } else {
        Step::Next(state)
    }
}

/// What reading the chunks `list` of an image ends with, after `state` has been
/// gathered; nothing when the chunks hold no body and no error.
pub open spec fn read_chunks(state: Gathered, list: Seq<ChunkView>, options: ReadOptions) -> Option<
    Result<IlbmImageView, IlbmErrorView>,
>
    decreases list.len(),
{
    if list.len() == 0 {
        None
    } else {
        match step(state, list[0], options) {
            Step::Next(next) => read_chunks(next, list.skip(1), options),
            Step::Done(r) => Some(r),
        }
    }
}

/// What is known of an image when the reading of its container starts: its kind.
pub open spec fn start_of(form: ChunkView) -> Gathered {
    Gathered {
        image: IlbmImageView { form_type: tag_of(form.data), ..blank_image() },
        map: None,
        got_header: false,
        got_display_mode: false,
    }
}

/// What reading the chunk `form` ends with; nothing when it is no container of an
/// image, or holds no body and no error.
pub open spec fn read_container(form: ChunkView, options: ReadOptions) -> Option<
    Result<IlbmImageView, IlbmErrorView>,
> {
    if form.is_form_type(image_kind()) {
        read_chunks(start_of(form), chunks(form.data.skip(4), false), options)
    } else {
        None
    }
}

/// What reading the chunks `list` of a file gives: what the first container of an
/// image that has a body or an error ends with. Without one there is no image.
pub open spec fn first_image(list: Seq<ChunkView>, options: ReadOptions) -> Result<
    IlbmImageView,
    IlbmErrorView,
>
    decreases list.len(),
{
    if list.len() == 0 {
        Err(IlbmErrorView::NoImage)
    } else {
        match read_container(list[0], options) {
            Some(r) => r,
            None => first_image(list.skip(1), options),
        }
    }
}

/// The image that the bytes of a file hold, or why they hold none.
pub open spec fn decoded(bytes: Seq<u8>, options: ReadOptions) -> Result<
    IlbmImageView,
    IlbmErrorView,
> {
    first_image(chunks(bytes, false), options)
}

/// Whether the outcome `r` of decoding is the outcome `expected`.
pub open spec fn decodes_to(
    r: Result<IlbmImage, IlbmError>,
    expected: Result<IlbmImageView, IlbmErrorView>,
) -> bool {
    match r {
        Ok(image) => expected == Ok::<IlbmImageView, IlbmErrorView>(image@),
        Err(e) => expected == Err::<IlbmImageView, IlbmErrorView>(e@),
    }
}

/// Widens `image` to twice its width: every pixel is repeated to its right.
pub fn widen(image: &mut IlbmImage)
    requires
        old(image).size.0 * 2 <= usize::MAX,
    ensures
        final(image)@ == widened_image(old(image)@),
{
    let mut new: Vec<u8> = Vec::new();
    let len: usize = image.pixels.len();
    let count: usize = len / 3;
    let mut i: usize = 0;
    while i < count
        invariant
            i <= count,
            len == image.pixels@.len(),
            count == len / 3,
            *image == *old(image),
            new@.len() == i * 6,
            forall|j: int|
                0 <= j < i * 6 ==> #[trigger] new@[j] == image.pixels@[j / 6 * 3 + j % 3],
        decreases count - i,
    {
        let at: usize = i * 3;
        new.push(image.pixels[at]);
        new.push(image.pixels[at + 1]);
        new.push(image.pixels[at + 2]);
        new.push(image.pixels[at]);
        new.push(image.pixels[at + 1]);
        new.push(image.pixels[at + 2]);
        i = i + 1;
    }
    assert(new@ == doubled(image.pixels@));
    image.pixels = new;
    image.size.0 = image.size.0 * 2;
}

/// What has been gathered, from the variables that hold it while an image is read.
pub open spec fn gathered(
    image: IlbmImageView,
    map: Option<ColorMap>,
    got_header: bool,
    got_display_mode: bool,
) -> Gathered {
    Gathered { image, map: colors_of(map), got_header, got_display_mode }
}

/// Ends the reading of an image at its body chunk `chunk`, with what has been
/// gathered from the chunks before it.
fn finish(
    chunk: IffChunk,
    image: IlbmImage,
    map: Option<ColorMap>,
    got_header: bool,
    got_camg: bool,
    options: &ReadOptions,
) -> (r: Result<IlbmImage, IlbmError>)
    requires
        got_header ==> image.size.0 <= 0xffff,
    ensures
        decodes_to(
            r,
            finished(gathered(image@, map, got_header, got_camg), chunk@.data, *options),
        ),
{
    let mut image = image;
    if !got_header {
        return Err(IlbmError::NoHeader);
    }
    // Some files in hold-and-modify mode come without their display mode. With 6
    // planes and 16 colors an image is taken to be one of them.
    if !got_camg && image.planes == 6 && image.map_size == 16 {
        image.display_mode = DisplayMode::ham();
    }
    if image.display_mode.is_halfbrite() && image.planes != 6 {
        return Err(IlbmError::NotSupported(halfbrite_message(image.planes)));
    }
    if options.read_pixels {
        read_body(chunk, image.display_mode, map, &mut image)?;
    }
    if options.page_scale {
        // A page that is narrower than it is high is a sign of pixels that are
        // twice as wide as they are high.
        if image.page_size.width() < image.page_size.height() {
            widen(&mut image);
        }
    }
    Ok(image)
}

/// Reads the chunks of a container of an image, up to its body. A chunk that is no
/// container of an image holds none, nor does a container without a body, and
/// neither is an error.
pub fn read_form(chunk: &IffChunk, options: &ReadOptions) -> (r: Result<
    Option<IlbmImage>,
    IlbmError,
>)
    ensures
        match r {
            Ok(Some(image)) => read_container(chunk@, *options) == Some(
                Ok::<IlbmImageView, IlbmErrorView>(image@),
            ),
            Ok(None) => read_container(chunk@, *options) is None,
            Err(e) => read_container(chunk@, *options) == Some(
                Err::<IlbmImageView, IlbmErrorView>(e@),
            ),
        },
{
    // Only a container can hold an image, and only one of the kind ILBM does.
    if !chunk.is_form_type(&[0x49, 0x4c, 0x42, 0x4d]) {
        return Ok(None);
    }
    let mut image: IlbmImage = IlbmImage::default();
    image.form_type = chunk.form_type();

    let mut map: Option<ColorMap> = None;
    let mut got_header: bool = false;
    let mut got_camg: bool = false;
    let mut sub_chunks = chunk.sub_chunks();
    let ghost whole = read_container(chunk@, *options);

    loop
        invariant
            whole == read_container(chunk@, *options),
            whole == read_chunks(
                gathered(image@, map, got_header, got_camg),
                chunks(sub_chunks.input(), sub_chunks.pad_due()),
                *options,
            ),
            got_header ==> image.size.0 <= 0xffff,
        decreases sub_chunks.input().len(),
    {
        proof {
            lemma_next_chunk_shorter(sub_chunks.input(), sub_chunks.pad_due());
            lemma_chunks_first(sub_chunks.input(), sub_chunks.pad_due());
        }
        let ghost state = gathered(image@, map, got_header, got_camg);
        let sub_chunk: IffChunk = match sub_chunks.next() {
            Some(sub_chunk) => sub_chunk,
            None => {
                return Ok(None);
            },
        };
        let id: ChunkId = sub_chunk.id();
        image.chunk_types.push(id);

        if id.is(&[0x42, 0x4d, 0x48, 0x44]) {
            // BMHD, the header.
            read_bitmap_header(sub_chunk, &mut image)?;
            got_header = true;
        } else if id.is(&[0x43, 0x4d, 0x41, 0x50]) {
            // CMAP, the color map.
            let m: ColorMap = read_color_map(sub_chunk)?;
            image.map_size = m.colors.len();
            map = Some(m);
        } else if id.is(&[0x43, 0x41, 0x4d, 0x47]) {
            // CAMG, the display mode.
            let mode: DisplayMode = read_display_mode(sub_chunk)?;
            got_camg = true;
            image.display_mode = mode;
        } else if id.is(&[0x44, 0x50, 0x49, 0x20]) {
            // DPI, the resolution.
            let dpi: Size2D = read_dpi(sub_chunk)?;
            image.dpi = dpi;
        } else if id.is(&[0x42, 0x4f, 0x44, 0x59]) {
            // BODY, the pixels.
            return Ok(Some(finish(sub_chunk, image, map, got_header, got_camg, options)?));
        }
    }
}

/// Reads the first image that the bytes of a file hold.
///
/// The file is a series of chunks. Those that are no containers of an image are
/// passed over, and so is such a container without a body. The first container of an
/// image that has a body, or an error before it, gives the result.
pub fn read_bytes(all_bytes: &[u8], options: ReadOptions) -> (r: Result<IlbmImage, IlbmError>)
    ensures
        decodes_to(r, decoded(all_bytes@, options)),
{
    let mut reader = IffReader::new(all_bytes);
    loop
        invariant
            first_image(chunks(reader.input(), reader.pad_due()), options) == decoded(
                all_bytes@,
                options,
            ),
        decreases reader.input().len(),
    {
        proof {
            lemma_next_chunk_shorter(reader.input(), reader.pad_due());
            lemma_chunks_first(reader.input(), reader.pad_due());
        }
        let chunk: IffChunk = match reader.next() {
            Some(chunk) => chunk,
            None => {
                return Err(IlbmError::NoImage);
            },
        };
        if let Some(image) = read_form(&chunk, &options)? {
            return Ok(image);
        }
    }
}

/// The size of the pixel buffer that an image has when it has been read under
/// `options`: three bytes for each pixel, or none where the pixels were not asked for.
pub open spec fn buffer_len(image: IlbmImageView, options: ReadOptions) -> int {
    if options.read_pixels {
        3 * image.size.0 * image.size.1
    } else {
        0
    }
}

/// Whether what has been gathered can stand before a body: no pixels yet, and a
/// width that a header can hold, if there was a header.
pub open spec fn before_body(state: Gathered) -> bool {
    &&& state.image.pixels.len() == 0
    &&& state.got_header ==> state.image.size.0 <= 0xffff
}

/// An image that a body ends the reading with has a pixel buffer of its size.
pub proof fn lemma_finished_buffer(state: Gathered, data: Seq<u8>, options: ReadOptions)
    requires
        before_body(state),
    ensures
        finished(state, data, options) matches Ok(image) ==> image.pixels.len() == buffer_len(
            image,
            options,
        ),
{
    if state.got_header {
        let mode = body_mode(state);
        let image = IlbmImageView { display_mode: mode, ..state.image };
        let width = image.size.0;
        let height = image.size.1;
        if options.read_pixels {
            match state.map {
                Some(colors) => {
                    lemma_mapped_lines_len(data, layout_of(image), mode, colors, height as nat);
                },
                None => {
                    lemma_deep_lines_len(data, layout_of(image), height as nat);
                },
            }
        }
        if !(mode.halfbrite_bit() && image.planes != 6) && options.page_scale
            && image.page_size.0 < image.page_size.1 {
            let area = width * height;
            if options.read_pixels {
                match body_pixels(data, image, mode, state.map) {
                    Ok(pixels) => {
                        assert(pixels.len() == 3 * area) by (nonlinear_arith)
                            requires
                                pixels.len() == 3 * width * height,
                                area == width * height,
                        ;
                        assert(3 * (width * 2) * height == 6 * area) by (nonlinear_arith)
                            requires
                                area == width * height,
                        ;
                    },
                    Err(_) => {},
                }
            }
        }
    }
}

/// What one chunk leaves of the reading can stand before a body, if what was there
/// could.
pub proof fn lemma_step_before_body(state: Gathered, chunk: ChunkView, options: ReadOptions)
    requires
        before_body(state),
    ensures
        step(state, chunk, options) matches Step::Next(next) ==> before_body(next),
{
}

/// An image that the chunks of a container end the reading with has a pixel buffer
/// of its size.
pub proof fn lemma_read_chunks_buffer(
    state: Gathered,
    list: Seq<ChunkView>,
    options: ReadOptions,
)
    requires
        before_body(state),
    ensures
        read_chunks(state, list, options) matches Some(Ok(image)) ==> image.pixels.len()
            == buffer_len(image, options),
    decreases list.len(),
{
    if list.len() > 0 {
        lemma_step_before_body(state, list[0], options);
        match step(state, list[0], options) {
            Step::Next(next) => {
                lemma_read_chunks_buffer(next, list.skip(1), options);
            },
            Step::Done(r) => {
                let noted = IlbmImageView {
                    chunk_types: state.image.chunk_types.push(list[0].id),
                    ..state.image
                };
                lemma_finished_buffer(Gathered { image: noted, ..state }, list[0].data, options);
            },
        }
    }
}

/// An image that the chunks of a file give has a pixel buffer of its size.
pub proof fn lemma_first_image_buffer(list: Seq<ChunkView>, options: ReadOptions)
    ensures
        first_image(list, options) matches Ok(image) ==> image.pixels.len() == buffer_len(
            image,
            options,
        ),
    decreases list.len(),
{
    if list.len() > 0 {
        let form = list[0];
        if form.is_form_type(image_kind()) {
            lemma_read_chunks_buffer(start_of(form), chunks(form.data.skip(4), false), options);
        }
        lemma_first_image_buffer(list.skip(1), options);
    }
}

/// A decoded image has three bytes of pixels for each pixel of its width and height,
/// whatever the file holds; decoded without its pixels it has none.
pub proof fn lemma_decoded_buffer(bytes: Seq<u8>, options: ReadOptions)
    ensures
        decoded(bytes, options) matches Ok(image) ==> image.pixels.len() == buffer_len(
            image,
            options,
        ),
{
    lemma_first_image_buffer(chunks(bytes, false), options);
}

/// Decoding the same bytes twice under the same options gives the same outcome both
/// times: the same image with the same pixels, or the same error.
pub proof fn lemma_decode_repeats(
    bytes: Seq<u8>,
    options: ReadOptions,
    first: Result<IlbmImage, IlbmError>,
    second: Result<IlbmImage, IlbmError>,
)
    requires
        decodes_to(first, decoded(bytes, options)),
        decodes_to(second, decoded(bytes, options)),
    ensures
        match (first, second) {
            (Ok(a), Ok(b)) => a@ == b@ && a.pixels@ == b.pixels@,
            (Err(a), Err(b)) => a@ == b@,
            _ => false,
        },
{
}

} // verus!
